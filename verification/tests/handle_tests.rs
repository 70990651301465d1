use ratproto::document::{DidDocument, DidService};
use ratproto::handle::{Handle, HandleError, HANDLE_LEN, SEGMENT_LEN};

fn parse(s: &str) -> Result<Handle, HandleError> {
    Handle::from_str(s)
}

fn text(s: &str) -> String {
    parse(s).unwrap().to_string()
}

#[test]
fn plain_handle_is_kept() {
    assert_eq!(text("alice.bsky.social"), "alice.bsky.social");
}

#[test]
fn handle_is_lowercased() {
    assert_eq!(text("Alice.Bsky.SOCIAL"), "alice.bsky.social");
}

#[test]
fn leading_at_sign_is_dropped() {
    assert_eq!(text("@alice.bsky.social"), "alice.bsky.social");
}

#[test]
fn at_uri_scheme_is_dropped() {
    assert_eq!(text("at://alice.bsky.social"), "alice.bsky.social");
    assert_eq!(text("@at://alice.bsky.social"), "alice.bsky.social");
}

#[test]
fn upper_case_scheme_is_not_dropped() {
    assert_eq!(
        parse("AT://alice.bsky.social"),
        Err(HandleError::SegmentIllegalChar("AT://alice".to_string()))
    );
}

#[test]
fn non_ascii_is_refused() {
    assert_eq!(
        parse("alïce.bsky.social"),
        Err(HandleError::NotAscii("alïce.bsky.social".to_string()))
    );
}

#[test]
fn too_long_is_refused() {
    let label = "a".repeat(60);
    let s = format!("{label}.{label}.{label}.{label}.abcdefghij");
    assert_eq!(s.len(), 254);
    assert_eq!(parse(&s), Err(HandleError::HandleTooLong(s.clone(), HANDLE_LEN)));
    assert_eq!(HANDLE_LEN, 253);
    let ok = &s[1..];
    assert_eq!(text(ok), ok);
}

#[test]
fn single_label_is_refused() {
    assert_eq!(parse("localhost"), Err(HandleError::HandleIsTLD("localhost".to_string())));
    assert_eq!(parse("at://localhost"), Err(HandleError::HandleIsTLD("localhost".to_string())));
}

#[test]
fn numeric_tld_is_refused() {
    assert_eq!(parse("alice.123"), Err(HandleError::TLDStartsWithDigit("123".to_string())));
    assert_eq!(parse("alice.1com"), Err(HandleError::TLDStartsWithDigit("1com".to_string())));
    assert_eq!(text("1alice.com"), "1alice.com");
}

#[test]
fn empty_labels_are_refused() {
    assert_eq!(parse("alice..com"), Err(HandleError::InvalidPeriods));
    assert_eq!(parse(".alice.com"), Err(HandleError::InvalidPeriods));
    assert_eq!(parse("alice.com."), Err(HandleError::InvalidPeriods));
}

#[test]
fn label_length_limit() {
    let fits = "a".repeat(63);
    let s = format!("{fits}.com");
    assert_eq!(text(&s), s);
    let long = "a".repeat(64);
    let s = format!("{long}.com");
    assert_eq!(parse(&s), Err(HandleError::SegmentTooLong(long.clone(), SEGMENT_LEN)));
    assert_eq!(SEGMENT_LEN, 63);
}

#[test]
fn short_inputs_are_parsed() {
    assert_eq!(text("a.co"), "a.co");
    assert_eq!(text("@a.co"), "a.co");
    assert_eq!(text("at://a.co"), "a.co");
    assert_eq!(parse(""), Err(HandleError::HandleIsTLD("".to_string())));
    assert_eq!(parse("@"), Err(HandleError::HandleIsTLD("".to_string())));
    assert_eq!(parse("a."), Err(HandleError::InvalidPeriods));
}

#[test]
fn illegal_label_characters_are_refused() {
    assert_eq!(
        parse("al_ice.com"),
        Err(HandleError::SegmentIllegalChar("al_ice".to_string()))
    );
    assert_eq!(
        parse("alice.bsky.so cial"),
        Err(HandleError::SegmentIllegalChar("so cial".to_string()))
    );
}

#[test]
fn hyphens_at_label_edges_are_refused() {
    assert_eq!(
        parse("-alice.com"),
        Err(HandleError::SegmentHyphensAtEdges("-alice".to_string()))
    );
    assert_eq!(
        parse("alice-.com"),
        Err(HandleError::SegmentHyphensAtEdges("alice-".to_string()))
    );
    assert_eq!(text("al-ice.com"), "al-ice.com");
}

#[test]
fn first_failing_label_is_reported() {
    assert_eq!(parse("a_b.-c.com"), Err(HandleError::SegmentIllegalChar("a_b".to_string())));
}

#[test]
fn handles_compare_by_text() {
    assert_eq!(parse("Alice.Bsky.Social").unwrap(), parse("@alice.bsky.social").unwrap());
    assert_ne!(parse("alice.bsky.social").unwrap(), parse("bob.bsky.social").unwrap());
}

#[test]
fn reparsing_a_handle_gives_it_back() {
    let short = parse("at://A.co").unwrap();
    assert_eq!(parse(&short.to_string()).unwrap(), short);
    let h = parse("@at://Alice.Bsky.Social").unwrap();
    assert_eq!(parse(&h.to_string()).unwrap(), h);
    assert_eq!(parse(&format!("at://{}", h.to_string())).unwrap(), h);
    assert_eq!(parse(&format!("@{}", h.to_string())).unwrap(), h);
}

#[test]
fn resolution_names() {
    let h = parse("Alice.Bsky.Social").unwrap();
    assert_eq!(h.dns_txt_name(), "_atproto.alice.bsky.social.");
    assert_eq!(h.well_known_url(), "https://alice.bsky.social/.well-known/atproto-did");
}

fn document(aliases: &[&str]) -> DidDocument {
    DidDocument {
        context: vec!["https://www.w3.org/ns/did/v1".to_string()],
        also_known_as: aliases.iter().map(|s| s.to_string()).collect(),
        id: "did:plc:ewvi7nxzyoun6zhxrhs64oiz".to_string(),
        service: vec![DidService {
            id: "#atproto_pds".to_string(),
            service_endpoint: "https://pds.example.com".to_string(),
            type_: "AtprotoPersonalDataServer".to_string(),
        }],
        verification_method: vec![],
    }
}

#[test]
fn document_matches_its_handle() {
    let doc = document(&["at://alice.bsky.social"]);
    assert!(doc.match_handle(parse("alice.bsky.social").unwrap()));
    assert!(doc.match_handle(parse("@ALICE.bsky.social").unwrap()));
    assert!(!doc.match_handle(parse("bob.bsky.social").unwrap()));
}

#[test]
fn document_uses_its_first_alias() {
    let doc = document(&["at://alice.bsky.social", "at://bob.bsky.social"]);
    assert!(!doc.match_handle(parse("bob.bsky.social").unwrap()));
}

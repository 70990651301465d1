use ratproto::did::{Did, DidError};
use ratproto::resolve::{did_from_txt_records, select_did};

fn parse(s: &str) -> Result<Did, DidError> {
    Did::from_str(s)
}

#[test]
fn plc_did_is_parsed() {
    let d = parse("did:plc:ewvi7nxzyoun6zhxrhs64oiz").unwrap();
    assert_eq!(d.to_string(), "did:plc:ewvi7nxzyoun6zhxrhs64oiz");
    assert!(d.is_plc());
    assert!(!d.is_web());
    assert_eq!(d.get_identifier(), "ewvi7nxzyoun6zhxrhs64oiz");
    assert_eq!(d.document_url(), "https://plc.directory/did:plc:ewvi7nxzyoun6zhxrhs64oiz");
}

#[test]
fn web_did_is_parsed() {
    let d = parse("did:web:example.com").unwrap();
    assert!(d.is_web());
    assert!(!d.is_plc());
    assert_eq!(d.get_identifier(), "example.com");
    assert_eq!(d.document_url(), "https://example.com/.well-known/did.json");
}

#[test]
fn txt_record_prefix_is_dropped() {
    assert_eq!(parse("did=did:plc:abc").unwrap().to_string(), "did:plc:abc");
}

#[test]
fn scheme_and_method_are_lowercased() {
    let d = parse("DID:Plc:AbC").unwrap();
    assert_eq!(d.to_string(), "did:plc:AbC");
}

#[test]
fn extra_segments_are_kept() {
    let d = parse("did:web:example.com:user:alice").unwrap();
    assert_eq!(d.to_string(), "did:web:example.com:user:alice");
    assert_eq!(d.get_identifier(), "example.com");
    assert_eq!(d.document_url(), "https://example.com/.well-known/did.json");
}

#[test]
fn illegal_characters_are_refused() {
    assert_eq!(parse("did:plc:abc def").unwrap_err(), DidError::IllegalChars("did:plc:abc def".to_string()));
    assert_eq!(parse("did:plc:é").unwrap_err(), DidError::IllegalChars("did:plc:é".to_string()));
    assert_eq!(parse("did:plc:ab/c").unwrap_err(), DidError::IllegalChars("did:plc:ab/c".to_string()));
}

#[test]
fn only_a_leading_tag_is_dropped() {
    assert_eq!(parse("xdid=did:plc:a").unwrap_err(), DidError::IllegalChars("xdid=did:plc:a".to_string()));
    assert_eq!(parse("xx€did=").unwrap_err(), DidError::IllegalChars("xx€did=".to_string()));
    assert_eq!(parse("did=").unwrap_err(), DidError::Incomplete("".to_string()));
    assert_eq!(parse("did=did=x").unwrap_err(), DidError::IllegalChars("did=x".to_string()));
}

#[test]
fn missing_segments_are_refused() {
    assert_eq!(parse("did:plc").unwrap_err(), DidError::Incomplete("did:plc".to_string()));
    assert_eq!(parse("").unwrap_err(), DidError::Incomplete("".to_string()));
}

#[test]
fn empty_segments_are_refused() {
    assert_eq!(parse("did::abc").unwrap_err(), DidError::InvalidColons);
    assert_eq!(parse("did:plc:abc:").unwrap_err(), DidError::InvalidColons);
    assert_eq!(parse(":did:plc:abc").unwrap_err(), DidError::InvalidColons);
}

#[test]
fn other_schemes_are_refused() {
    assert_eq!(parse("URI:plc:abc").unwrap_err(), DidError::InvalidScheme("uri".to_string()));
}

#[test]
fn other_methods_are_refused() {
    assert_eq!(parse("did:KEY:abc").unwrap_err(), DidError::UnsupportedMethod("key".to_string()));
}

#[test]
fn plc_identifier_with_percent_is_refused() {
    assert_eq!(parse("did:plc:%%%").unwrap_err(), DidError::InvalidCharInIdentifier("%%%".to_string()));
    assert_eq!(parse("did:plc:ab%cd").unwrap_err(), DidError::InvalidCharInIdentifier("ab%cd".to_string()));
    assert_eq!(parse("did:plc:a:b%c").unwrap_err(), DidError::InvalidCharInIdentifier("a:b%c".to_string()));
    assert!(parse("did:plc:abcd").is_ok());
}

#[test]
fn web_identifier_with_percent_near_the_end_is_refused() {
    assert_eq!(
        parse("did:web:example.com%").unwrap_err(),
        DidError::InvalidCharInIdentifier("example.com%".to_string())
    );
    assert_eq!(
        parse("did:web:example.com%4").unwrap_err(),
        DidError::InvalidCharInIdentifier("example.com%4".to_string())
    );
    assert_eq!(
        parse("did:web:ex%:b").unwrap_err(),
        DidError::InvalidCharInIdentifier("ex%:b".to_string())
    );
    assert_eq!(
        parse("did:web:example.com:u%4:alice").unwrap_err(),
        DidError::InvalidCharInIdentifier("example.com:u%4:alice".to_string())
    );
    assert!(parse("did:web:example.com%3A8080").is_ok());
    assert!(parse("did:web:example.com:u%41b:alice").is_ok());
    assert!(parse("did:web:ex%41mple.com").is_ok());
}

#[test]
fn reparsing_a_did_gives_it_back() {
    for s in ["did=DID:WEB:example.com", "did:plc:abc:def", "did:web:example.com:u:alice"] {
        let d = parse(s).unwrap();
        let again = parse(&d.to_string()).unwrap();
        assert_eq!(again.to_string(), d.to_string());
        assert_eq!(again.is_plc(), d.is_plc());
        assert_eq!(again.is_web(), d.is_web());
    }
}

#[test]
fn first_txt_record_with_a_did_is_taken() {
    let records = vec![
        "v=spf1 -all".to_string(),
        "did=did:plc:first".to_string(),
        "did=did:plc:second".to_string(),
    ];
    assert_eq!(did_from_txt_records(&records).unwrap().to_string(), "did:plc:first");
    assert!(did_from_txt_records(&vec!["hello".to_string()]).is_none());
    assert!(did_from_txt_records(&vec![]).is_none());
}

#[test]
fn dns_answer_takes_precedence() {
    let dns = || Some(parse("did:plc:dns").unwrap());
    let web = || Some(parse("did:plc:web").unwrap());
    assert_eq!(select_did(dns(), web()).unwrap().to_string(), "did:plc:dns");
    assert_eq!(select_did(None, web()).unwrap().to_string(), "did:plc:web");
    assert_eq!(select_did(dns(), None).unwrap().to_string(), "did:plc:dns");
    assert!(select_did(None, None).is_none());
}

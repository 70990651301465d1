use ratproto::did::Did;
use ratproto::document::DidDocument;
use ratproto::login::{login_step, LoginAction, LoginEvent, LoginState};

fn document(aliases: &[&str]) -> DidDocument {
    DidDocument {
        context: vec![],
        also_known_as: aliases.iter().map(|s| s.to_string()).collect(),
        id: "did:plc:alice".to_string(),
        service: vec![],
        verification_method: vec![],
    }
}

fn did(s: &str) -> Did {
    Did::from_str(s).unwrap()
}

/// Runs a login with the given answers to the two lookups.
fn run(
    handle: &str,
    from_dns: Option<&str>,
    from_well_known: Option<&str>,
    doc: Option<DidDocument>,
) -> (Vec<String>, LoginAction) {
    let mut requests = Vec::new();
    let mut doc = Some(doc);
    let mut state = LoginState::Start;
    let mut event = LoginEvent::Submitted(handle.to_string());
    loop {
        let (next, action) = login_step(state, event);
        state = next;
        event = match action {
            LoginAction::LookUpDid { dns_name, well_known_url } => {
                requests.push(dns_name);
                requests.push(well_known_url);
                LoginEvent::HandleResolved(from_dns.map(did), from_well_known.map(did))
            }
            LoginAction::FetchDocument(url) => {
                requests.push(url);
                LoginEvent::DocumentFetched(doc.take().unwrap())
            }
            done => return (requests, done),
        };
    }
}

#[test]
fn login_succeeds_when_the_document_names_the_handle() {
    let (requests, action) = run(
        "@Alice.Bsky.Social",
        Some("did:plc:alice"),
        None,
        Some(document(&["at://alice.bsky.social"])),
    );
    assert_eq!(
        requests,
        vec![
            "_atproto.alice.bsky.social.".to_string(),
            "https://alice.bsky.social/.well-known/atproto-did".to_string(),
            "https://plc.directory/did:plc:alice".to_string(),
        ]
    );
    match action {
        LoginAction::RespondSuccess(d) => assert_eq!(d.to_string(), "did:plc:alice"),
        _ => panic!("expected success"),
    }
}

#[test]
fn login_uses_the_dns_answer_first() {
    let (requests, action) = run(
        "alice.bsky.social",
        Some("did:web:alice.example"),
        Some("did:plc:other"),
        Some(document(&["at://alice.bsky.social"])),
    );
    assert_eq!(requests[2], "https://alice.example/.well-known/did.json");
    assert!(matches!(action, LoginAction::RespondSuccess(_)));
}

#[test]
fn login_falls_back_to_the_well_known_answer() {
    let (requests, action) =
        run("alice.bsky.social", None, Some("did:plc:wk"), Some(document(&["at://alice.bsky.social"])));
    assert_eq!(requests[2], "https://plc.directory/did:plc:wk");
    assert!(matches!(action, LoginAction::RespondSuccess(_)));
}

#[test]
fn login_fails_on_an_invalid_handle() {
    let (requests, action) = run("not a handle", None, None, None);
    assert!(requests.is_empty());
    assert!(matches!(action, LoginAction::RespondError));
}

#[test]
fn login_fails_without_a_did() {
    let (requests, action) = run("alice.bsky.social", None, None, None);
    assert_eq!(requests.len(), 2);
    assert!(matches!(action, LoginAction::RespondError));
}

#[test]
fn login_fails_without_a_document() {
    let (_, action) = run("alice.bsky.social", Some("did:plc:alice"), None, None);
    assert!(matches!(action, LoginAction::RespondError));
}

#[test]
fn login_fails_when_the_document_names_another_handle() {
    let (_, action) = run(
        "alice.bsky.social",
        Some("did:plc:alice"),
        None,
        Some(document(&["at://mallory.bsky.social", "at://alice.bsky.social"])),
    );
    assert!(matches!(action, LoginAction::RespondError));
}

#[test]
fn event_out_of_order_is_an_error() {
    let (state, action) = login_step(LoginState::Start, LoginEvent::DocumentFetched(None));
    assert!(matches!(state, LoginState::Finished));
    assert!(matches!(action, LoginAction::RespondError));
    let (_, action) = login_step(LoginState::Finished, LoginEvent::Submitted("a.co".to_string()));
    assert!(matches!(action, LoginAction::RespondError));
}

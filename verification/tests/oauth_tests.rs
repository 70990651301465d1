use ratproto::oauth::{ATProtoClientMeta, AppType, GrantType};

#[test]
fn default_client_metadata() {
    let m = ATProtoClientMeta::default();
    assert_eq!(m.client_id, "http://localhost");
    assert_eq!(m.application_type, Some(AppType::Web));
    assert_eq!(m.grant_types, vec![GrantType::AuthorizationCode, GrantType::RefreshToken]);
    assert_eq!(m.scope, "atproto transition:generic");
    assert_eq!(m.response_types, vec!["code".to_string()]);
    assert_eq!(
        m.redirect_uris,
        Some(vec!["http://127.0.0.1/".to_string(), "http://[::1]/".to_string()])
    );
    assert!(m.dpop_bound_access_tokens);
    assert!(m.jwks.is_none());
    assert_eq!(m.client_name.as_deref(), Some("Wicket Statusphere RS"));
    assert!(m.token_endpoint_auth_method.is_none());
    assert!(m.policy_uri.is_none());
}

//! Metadata that an AT Protocol OAuth client publishes about itself.
use std::collections::HashMap;
use vstd::prelude::*;

verus! {

/// The kind of application that the client is.
#[derive(Debug, Clone, Copy, PartialEq, Eq, Structural)]
pub enum AppType {
    Web,
    Native,
}

/// The OAuth grants that the client uses.
#[derive(Debug, Clone, Copy, PartialEq, Eq, Structural)]
pub enum GrantType {
    AuthorizationCode,
    RefreshToken,
}

/// A JSON Web Key Set, each key a map from member names to values.
#[derive(Debug)]
pub struct Jwks {
    pub keys: Vec<HashMap<String, String>>,
}

/// The client metadata document of an AT Protocol OAuth client.
#[derive(Debug)]
pub struct ATProtoClientMeta {
    pub client_id: String,
    pub application_type: Option<AppType>,
    pub grant_types: Vec<GrantType>,
    pub scope: String,
    pub response_types: Vec<String>,
    pub redirect_uris: Option<Vec<String>>,
    pub token_endpoint_auth_method: Option<String>,
    pub token_endpoint_auth_signing_alg: Option<String>,
    pub dpop_bound_access_tokens: bool,
    pub jwks: Option<Jwks>,
    pub jwks_uri: Option<String>,
    pub client_name: Option<String>,
    pub client_uri: Option<String>,
    pub logo_uri: Option<String>,
    pub tos_uri: Option<String>,
    pub policy_uri: Option<String>,
}

impl Default for ATProtoClientMeta {
    /// The metadata of a web client on the loopback interface that asks for the
    /// `atproto transition:generic` scope with DPoP-bound tokens.
    fn default() -> (r: Self)
        ensures
            r.client_id@ == "http://localhost"@,
            r.application_type == Some(AppType::Web),
            r.grant_types@ == seq![GrantType::AuthorizationCode, GrantType::RefreshToken],
            r.scope@ == "atproto transition:generic"@,
            r.response_types.deep_view() == seq!["code"@],
            r.redirect_uris matches Some(uris) && uris.deep_view() == seq![
                "http://127.0.0.1/"@,
                "http://[::1]/"@,
            ],
            r.token_endpoint_auth_method is None,
            r.token_endpoint_auth_signing_alg is None,
            r.dpop_bound_access_tokens,
            r.jwks is None,
            r.jwks_uri is None,
            r.client_name matches Some(name) && name@ == "Wicket Statusphere RS"@,
            r.client_uri is None,
            r.logo_uri is None,
            r.tos_uri is None,
            r.policy_uri is None,
    {
        let mut response_types: Vec<String> = Vec::new();
        response_types.push("code".to_owned());
        let mut redirect_uris: Vec<String> = Vec::new();
        redirect_uris.push("http://127.0.0.1/".to_owned());
        redirect_uris.push("http://[::1]/".to_owned());
        let mut grant_types: Vec<GrantType> = Vec::new();
        grant_types.push(GrantType::AuthorizationCode);
        grant_types.push(GrantType::RefreshToken);
        let r = ATProtoClientMeta {
            client_id: "http://localhost".to_owned(),
            application_type: Some(AppType::Web),
            grant_types,
            scope: "atproto transition:generic".to_owned(),
            response_types,
            redirect_uris: Some(redirect_uris),
            token_endpoint_auth_method: None,
            token_endpoint_auth_signing_alg: None,
            dpop_bound_access_tokens: true,
            jwks: None,
            jwks_uri: None,
            client_name: Some("Wicket Statusphere RS".to_owned()),
            client_uri: None,
            logo_uri: None,
            tos_uri: None,
            policy_uri: None,
        };
        assert(r.grant_types@ =~= seq![GrantType::AuthorizationCode, GrantType::RefreshToken]);
        assert(r.response_types.deep_view() =~= seq!["code"@]);
        assert(r.redirect_uris.unwrap().deep_view() =~= seq!["http://127.0.0.1/"@, "http://[::1]/"@]);
        r
    }
}

} // verus!

//! Syntax of AT Protocol handles and decentralized identifiers (DIDs), the decisions of
//! resolving one to the other, and the client metadata of an AT Protocol OAuth client.
pub mod did;
pub mod document;
pub mod handle;
pub mod login;
pub mod oauth;
pub mod resolve;
pub mod text;

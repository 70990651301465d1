//! The decisions of logging a user in by handle: parse the handle, resolve it to a DID,
//! fetch the DID document, and accept the login when the document names the handle. The
//! network work is done by the caller between steps.
use vstd::prelude::*;

use crate::did::{document_url_of, Did};
use crate::document::DidDocument;
use crate::handle::{dns_txt_name_of, handle_outcome, well_known_url_of, Handle, HandleFault};
use crate::resolve::select_did;

verus! {

/// How far a login has come.
pub enum LoginState {
    /// Nothing received yet.
    Start,
    /// The handle parsed; its DID is being looked up.
    ResolvingHandle(Handle),
    /// The DID is known; its document is being fetched.
    FetchingDocument(Handle, Did),
    /// An answer has been given.
    Finished,
}

/// What the caller reports.
pub enum LoginEvent {
    /// The handle that the user typed.
    Submitted(String),
    /// The DID found through DNS and the one found at the well-known URL, if any.
    HandleResolved(Option<Did>, Option<Did>),
    /// The DID document, if it could be fetched and decoded.
    DocumentFetched(Option<DidDocument>),
}

/// What the caller is to do next.
pub enum LoginAction {
    /// Look the DID up in the TXT records of `dns_name` and at `well_known_url`.
    LookUpDid { dns_name: String, well_known_url: String },
    /// Fetch the DID document at this URL.
    FetchDocument(String),
    /// Tell the user that they are logged in as this DID.
    RespondSuccess(Did),
    /// Tell the user that the handle is invalid.
    RespondError,
}

/// A fetched document whose first other name is present and is a handle: what the
/// document check needs of it.
pub open spec fn document_checkable(doc: DidDocument) -> bool {
    doc.also_known_as.len() > 0 && handle_outcome(doc.also_known_as@[0]@) is Ok
}

/// One step of a login: the next state and the action to take.
///
/// A submitted handle that parses leads to looking up its DID, one that does not to an
/// error. A DID found (through DNS first, the well-known URL otherwise) leads to fetching
/// its document; none found leads to an error. A fetched document whose first other name
/// is the handle leads to success with the DID; any other document, or none, leads to an
/// error. An event that does not fit the state leads to an error.
pub fn login_step(state: LoginState, event: LoginEvent) -> (r: (LoginState, LoginAction))
    requires
        state is FetchingDocument ==> (event matches LoginEvent::DocumentFetched(Some(doc))
            ==> document_checkable(doc)),
    ensures
        match (state, event) {
            (LoginState::Start, LoginEvent::Submitted(s)) => match handle_outcome(s@) {
                Ok(h) => {
                    &&& r.0 matches LoginState::ResolvingHandle(handle) && handle@ == h
                    &&& r.1 matches LoginAction::LookUpDid { dns_name, well_known_url }
                        && dns_name@ == dns_txt_name_of(h) && well_known_url@ == well_known_url_of(h)
                },
                Err(_) => r.0 is Finished && r.1 is RespondError,
            },
            (LoginState::ResolvingHandle(h), LoginEvent::HandleResolved(dns, well_known)) => {
                let found = if dns is Some {
                    dns
                } else {
                    well_known
                };
                match found {
                    Some(d) => {
                        &&& r.0 == LoginState::FetchingDocument(h, d)
                        &&& r.1 matches LoginAction::FetchDocument(url) && url@ == document_url_of(
                            d@.0,
                            d@.1,
                        )
                    },
                    None => r.0 is Finished && r.1 is RespondError,
                }
            },
            (LoginState::FetchingDocument(h, d), LoginEvent::DocumentFetched(doc)) => {
                &&& r.0 is Finished
                &&& match doc {
                    Some(doc) => if handle_outcome(doc.also_known_as@[0]@) == Ok::<
                        Seq<char>,
                        HandleFault,
                    >(h@) {
                        r.1 == LoginAction::RespondSuccess(d)
                    } else {
                        r.1 is RespondError
                    },
                    None => r.1 is RespondError,
                }
            },
            _ => r.0 is Finished && r.1 is RespondError,
        },
{
    match state {
        LoginState::Start => match event {
            LoginEvent::Submitted(s) => match Handle::from_str(s.as_str()) {
                Ok(handle) => {
                    let dns_name = handle.dns_txt_name();
                    let well_known_url = handle.well_known_url();
                    (
                        LoginState::ResolvingHandle(handle),
                        LoginAction::LookUpDid { dns_name, well_known_url },
                    )
                },
                Err(_) => (LoginState::Finished, LoginAction::RespondError),
            },
            _ => (LoginState::Finished, LoginAction::RespondError),
        },
        LoginState::ResolvingHandle(handle) => match event {
            LoginEvent::HandleResolved(dns, well_known) => match select_did(dns, well_known) {
                Some(did) => {
                    let url = did.document_url();
                    (LoginState::FetchingDocument(handle, did), LoginAction::FetchDocument(url))
                },
                None => (LoginState::Finished, LoginAction::RespondError),
            },
            _ => (LoginState::Finished, LoginAction::RespondError),
        },
        LoginState::FetchingDocument(handle, did) => match event {
            LoginEvent::DocumentFetched(Some(doc)) => {
                if doc.match_handle(handle) {
                    (LoginState::Finished, LoginAction::RespondSuccess(did))
                } else {
                    (LoginState::Finished, LoginAction::RespondError)
                }
            },
            _ => (LoginState::Finished, LoginAction::RespondError),
        },
        LoginState::Finished => (LoginState::Finished, LoginAction::RespondError),
    }
}

} // verus!

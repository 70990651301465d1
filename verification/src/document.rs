//! DID documents, as published for a DID, and whether one names a given handle.
use vstd::prelude::*;

use crate::handle::{
    at_scheme, handle_outcome, lemma_handle_at_uri, valid_handle, Handle,
    HandleFault, HANDLE_LEN,
};

verus! {

/// A service that a DID document lists, such as the account's personal data server.
#[derive(Debug, PartialEq, Eq)]
pub struct DidService {
    pub id: String,
    pub service_endpoint: String,
    pub type_: String,
}

/// A key that a DID document lists.
#[derive(Debug, PartialEq, Eq)]
pub struct DidVerificationMethod {
    pub controller: String,
    pub id: String,
    pub public_key_multibase: String,
    pub type_: String,
}

/// A DID document: the DID it describes, the names it is also known as (the first being
/// the account's handle as an `at://` URI), its services and its keys.
#[derive(Debug, PartialEq, Eq)]
pub struct DidDocument {
    pub context: Vec<String>,
    pub also_known_as: Vec<String>,
    pub id: String,
    pub service: Vec<DidService>,
    pub verification_method: Vec<DidVerificationMethod>,
}

impl DidDocument {
    /// Whether the first name the document is also known as, parsed as a handle, is
    /// `handle`. That name must be present and be a handle.
    pub fn match_handle(&self, handle: Handle) -> (r: bool)
        requires
            self.also_known_as.len() > 0,
            handle_outcome(self.also_known_as@[0]@) is Ok,
        ensures
            r == (handle_outcome(self.also_known_as@[0]@) == Ok::<Seq<char>, HandleFault>(
                handle@,
            )),
    {
        match Handle::from_str(self.also_known_as[0].as_str()) {
            Ok(aka) => aka == handle,
            Err(_) => false,
        }
    }
}

/// A document whose first other name is `at://<handle>` names that handle: the
/// requirements of `match_handle` hold, and the name parses to the handle itself.
pub proof fn lemma_document_names_handle(doc: DidDocument, h: Seq<char>)
    requires
        valid_handle(h),
        h.len() + 5 <= HANDLE_LEN,
        doc.also_known_as.len() > 0,
        doc.also_known_as@[0]@ == at_scheme() + h,
    ensures
        handle_outcome(doc.also_known_as@[0]@) == Ok::<Seq<char>, HandleFault>(h),
{
    lemma_handle_at_uri(h);
}

} // verus!

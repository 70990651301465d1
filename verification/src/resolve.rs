//! The decisions of resolving a handle to its DID: which TXT record gives the DID, and
//! which of the two answers (DNS, well-known URL) is taken.
use vstd::prelude::*;

use crate::did::{did_outcome, Did, DidMethod};

verus! {

/// The DID of the first record that parses as one.
pub open spec fn first_did(records: Seq<Seq<char>>) -> Option<(Seq<char>, DidMethod)>
    decreases records.len(),
{
    if records.len() == 0 {
        None
    } else {
        match did_outcome(records[0]) {
            Ok(d) => Some(d),
            Err(_) => first_did(records.drop_first()),
        }
    }
}

/// The first record that parses as a DID, at any position, gives the result; when no
/// record parses, there is none.
pub proof fn lemma_first_did_is_first(records: Seq<Seq<char>>)
    ensures
        forall|i: int|
            0 <= i < records.len() && #[trigger] did_outcome(records[i]) is Ok && (forall|j: int|
                0 <= j < i ==> did_outcome(records[j]) is Err) ==> first_did(records) == Some(
                did_outcome(records[i])->Ok_0,
            ),
        (forall|i: int| 0 <= i < records.len() ==> #[trigger] did_outcome(records[i]) is Err)
            ==> first_did(records) is None,
    decreases records.len(),
{
    if records.len() > 0 {
        let rest = records.drop_first();
        lemma_first_did_is_first(rest);
        assert forall|i: int|
            0 <= i < records.len() && #[trigger] did_outcome(records[i]) is Ok && (forall|j: int|
                0 <= j < i ==> did_outcome(records[j]) is Err) implies first_did(records) == Some(
            did_outcome(records[i])->Ok_0,
        ) by {
            if i > 0 {
                assert(did_outcome(records[0]) is Err);
                assert(rest[i - 1] == records[i]);
                assert forall|j: int| 0 <= j < i - 1 implies did_outcome(rest[j]) is Err by {
                    assert(rest[j] == records[j + 1]);
                }
                assert(did_outcome(rest[i - 1]) is Ok);
            }
        }
        if forall|i: int| 0 <= i < records.len() ==> #[trigger] did_outcome(records[i]) is Err {
            assert(did_outcome(records[0]) is Err);
            assert forall|i: int| 0 <= i < rest.len() implies #[trigger] did_outcome(rest[i]) is Err by {
                assert(rest[i] == records[i + 1]);
            }
        }
    }
}

/// The DID of the first DNS TXT record (such as `did=did:plc:...`) that holds one, at any
/// position among the records; none when no record holds one.
#[verifier::loop_isolation(false)]
pub fn did_from_txt_records(records: &Vec<String>) -> (r: Option<Did>)
    ensures
        match r {
            Some(d) => first_did(records.deep_view()) == Some(d@),
            None => first_did(records.deep_view()) is None,
        },
        forall|i: int|
            0 <= i < records.len() && #[trigger] did_outcome(records.deep_view()[i]) is Ok && (
            forall|j: int| 0 <= j < i ==> did_outcome(records.deep_view()[j]) is Err) ==> (r matches Some(d)
                && did_outcome(records.deep_view()[i]) == Ok::<(Seq<char>, DidMethod), crate::did::DidFault>(d@)),
        (forall|i: int| 0 <= i < records.len() ==> #[trigger] did_outcome(records.deep_view()[i]) is Err)
            ==> r is None,
{
    proof {
        lemma_first_did_is_first(records.deep_view());
    }
    let ghost rv = records.deep_view();
    let n = records.len();
    let mut i: usize = 0;
    assert(rv.skip(0) =~= rv);
    while i < n
        invariant
            n == records.len(),
            rv == records.deep_view(),
            i <= n,
            first_did(rv) == first_did(rv.skip(i as int)),
        decreases n - i,
    {
        let ghost rest = rv.skip(i as int);
        assert(rest[0] == records[i as int]@);
        assert(rest.drop_first() =~= rv.skip(i + 1));
        match Did::from_str(records[i].as_str()) {
            Ok(did) => {
                return Some(did);
            },
            Err(_) => {},
        }
        i = i + 1;
    }
    assert(rv.skip(n as int) =~= Seq::<Seq<char>>::empty());
    None
}

/// The DID that a handle resolves to, given the DID found through DNS and the one found
/// at the handle's well-known URL: the DNS answer when there is one, the other otherwise.
pub fn select_did(from_dns: Option<Did>, from_well_known: Option<Did>) -> (r: Option<Did>)
    ensures
        r == (if from_dns is Some {
            from_dns
        } else {
            from_well_known
        }),
{
    match from_dns {
        Some(did) => Some(did),
        None => from_well_known,
    }
}

} // verus!

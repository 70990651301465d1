//! AT Protocol handles: a domain name of at least two labels, ASCII only, at most
//! 253 characters, normalized to lower case.
use vstd::prelude::*;

use crate::text::{
    all_ascii, join_on, lemma_join_front, lemma_join_split, to_ascii_lower, ascii_len, ascii_lowercase, is_ascii_alphanumeric, is_ascii_digit, is_ascii_lower,
    is_ascii_upper, lemma_lower_of_upper, lemma_split_covers, lemma_split_lower,
    lemma_split_pieces, lower, split_ascii, split_on,
};

verus! {

/// The longest input that is considered as a handle.
pub const HANDLE_LEN: usize = 253;

/// The longest label: longer ones are refused.
pub const SEGMENT_LEN: usize = 63;

/// Why a string is not a handle.
#[derive(Debug, PartialEq, Eq)]
pub enum HandleError {
    NotAscii(String),
    HandleTooLong(String, usize),
    HandleIsTLD(String),
    TLDStartsWithDigit(String),
    InvalidPeriods,
    SegmentTooLong(String, usize),
    SegmentIllegalChar(String),
    SegmentHyphensAtEdges(String),
}

/// The mathematical counterpart of `HandleError`, its strings taken as character sequences.
pub enum HandleFault {
    NotAscii(Seq<char>),
    HandleTooLong(Seq<char>, usize),
    HandleIsTLD(Seq<char>),
    TLDStartsWithDigit(Seq<char>),
    InvalidPeriods,
    SegmentTooLong(Seq<char>, usize),
    SegmentIllegalChar(Seq<char>),
    SegmentHyphensAtEdges(Seq<char>),
}

impl View for HandleError {
    type V = HandleFault;

    open spec fn view(&self) -> HandleFault {
        match self {
            HandleError::NotAscii(s) => HandleFault::NotAscii(s@),
            HandleError::HandleTooLong(s, n) => HandleFault::HandleTooLong(s@, *n),
            HandleError::HandleIsTLD(s) => HandleFault::HandleIsTLD(s@),
            HandleError::TLDStartsWithDigit(s) => HandleFault::TLDStartsWithDigit(s@),
            HandleError::InvalidPeriods => HandleFault::InvalidPeriods,
            HandleError::SegmentTooLong(s, n) => HandleFault::SegmentTooLong(s@, *n),
            HandleError::SegmentIllegalChar(s) => HandleFault::SegmentIllegalChar(s@),
            HandleError::SegmentHyphensAtEdges(s) => HandleFault::SegmentHyphensAtEdges(s@),
        }
    }
}

/// `at://`, the scheme that may precede a handle.
pub open spec fn at_scheme() -> Seq<char> {
    seq!['a', 't', ':', '/', '/']
}

/// Characters allowed in a label of the input: ASCII letters, digits and `-`.
pub open spec fn is_label_char(c: char) -> bool {
    is_ascii_alphanumeric(c) || c == '-'
}

/// The input without a leading `@`, then without a leading `at://`.
pub open spec fn strip_prefixes(s: Seq<char>) -> Seq<char> {
    let t = if s.len() > 0 && s[0] == '@' {
        s.drop_first()
    } else {
        s
    };
    if t.len() >= 5 && t.take(5) == at_scheme() {
        t.skip(5)
    } else {
        t
    }
}

/// The first rule that a label breaks, if any, in the order in which they are checked.
pub open spec fn label_fault(l: Seq<char>) -> Option<HandleFault> {
    if l.len() == 0 {
        Some(HandleFault::InvalidPeriods)
    } else if l.len() > SEGMENT_LEN {
        Some(HandleFault::SegmentTooLong(l, SEGMENT_LEN))
    } else if !(forall|i: int| 0 <= i < l.len() ==> is_label_char(#[trigger] l[i])) {
        Some(HandleFault::SegmentIllegalChar(l))
    } else if l[0] == '-' || l.last() == '-' {
        Some(HandleFault::SegmentHyphensAtEdges(l))
    } else {
        None
    }
}

/// The fault of the first label that has one.
pub open spec fn first_label_fault(labels: Seq<Seq<char>>) -> Option<HandleFault>
    decreases labels.len(),
{
    if labels.len() == 0 {
        None
    } else if label_fault(labels[0]) is Some {
        label_fault(labels[0])
    } else {
        first_label_fault(labels.drop_first())
    }
}

/// What parsing `s` as a handle gives: the normalized handle, or the first rule broken.
pub open spec fn handle_outcome(s: Seq<char>) -> Result<Seq<char>, HandleFault> {
    if !all_ascii(s) {
        Err(HandleFault::NotAscii(s))
    } else if s.len() > HANDLE_LEN {
        Err(HandleFault::HandleTooLong(s, HANDLE_LEN))
    } else {
        let t = strip_prefixes(s);
        let labels = split_on(t, '.');
        if labels.len() < 2 {
            Err(HandleFault::HandleIsTLD(t))
        } else if labels.last().len() > 0 && is_ascii_digit(labels.last()[0]) {
            Err(HandleFault::TLDStartsWithDigit(labels.last()))
        } else {
            match first_label_fault(labels) {
                Some(f) => Err(f),
                None => Ok(lower(t)),
            }
        }
    }
}

/// Characters of a normalized handle.
pub open spec fn is_handle_char(c: char) -> bool {
    is_ascii_lower(c) || is_ascii_digit(c) || c == '-' || c == '.'
}

/// A label of a normalized handle: 1 to 63 lower-case letters, digits and inner hyphens.
pub open spec fn valid_label(l: Seq<char>) -> bool {
    &&& 0 < l.len() <= SEGMENT_LEN
    &&& forall|i: int|
        0 <= i < l.len() ==> is_ascii_lower(#[trigger] l[i]) || is_ascii_digit(l[i]) || l[i]
            == '-'
    &&& l[0] != '-'
    &&& l.last() != '-'
}

/// A normalized handle: at most 253 characters, at least two valid labels separated by
/// `.`, the last of which does not start with a digit.
pub open spec fn valid_handle(t: Seq<char>) -> bool {
    let labels = split_on(t, '.');
    &&& t.len() <= HANDLE_LEN
    &&& forall|i: int| 0 <= i < t.len() ==> is_handle_char(#[trigger] t[i])
    &&& labels.len() >= 2
    &&& forall|k: int| 0 <= k < labels.len() ==> valid_label(#[trigger] labels[k])
    &&& !is_ascii_digit(labels.last()[0])
}

/// `_atproto.<handle>.`, the DNS name whose TXT records may give the handle's DID.
pub open spec fn dns_txt_name_of(h: Seq<char>) -> Seq<char> {
    "_atproto."@ + h + "."@
}

/// `https://<handle>/.well-known/atproto-did`, whose body may give the handle's DID.
pub open spec fn well_known_url_of(h: Seq<char>) -> Seq<char> {
    "https://"@ + h + "/.well-known/atproto-did"@
}

/// A validated, lower-case handle such as `alice.bsky.social`.
#[derive(Debug)]
pub struct Handle(String);

impl Handle {
    #[verifier::type_invariant]
    spec fn wf(self) -> bool {
        valid_handle(self.0@)
    }
}

impl View for Handle {
    type V = Seq<char>;

    closed spec fn view(&self) -> Seq<char> {
        self.0@
    }
}

/// Whether an ASCII byte is a letter or digit.
fn byte_is_alphanumeric(b: u8) -> (r: bool)
    requires
        b < 128,
    ensures
        r == is_ascii_alphanumeric(b as char),
{
    (97u8 <= b && b <= 122u8) || (65u8 <= b && b <= 90u8) || (48u8 <= b && b <= 57u8)
}

/// Whether an ASCII byte is a digit.
fn byte_is_digit(b: u8) -> (r: bool)
    requires
        b < 128,
    ensures
        r == is_ascii_digit(b as char),
{
    48u8 <= b && b <= 57u8
}

/// Whether an ASCII string of at least five characters starts with `at://`.
fn starts_with_at_scheme(t: &str) -> (r: bool)
    requires
        all_ascii(t@),
        t@.len() >= 5,
    ensures
        r == (t@.take(5) == at_scheme()),
{
    let r = t.get_ascii(0) == 97u8 && t.get_ascii(1) == 116u8 && t.get_ascii(2) == 58u8
        && t.get_ascii(3) == 47u8 && t.get_ascii(4) == 47u8;
    proof {
        assert(t@[0] <= '\u{7f}' && t@[1] <= '\u{7f}' && t@[2] <= '\u{7f}');
        assert(t@[3] <= '\u{7f}' && t@[4] <= '\u{7f}');
        if r {
            assert(t@.take(5) =~= at_scheme());
        } else if t@.take(5) == at_scheme() {
            assert(t@.take(5)[0] == 'a' && t@.take(5)[1] == 't' && t@.take(5)[2] == ':');
            assert(t@.take(5)[3] == '/' && t@.take(5)[4] == '/');
        }
    }
    r
}

/// The first rule that an ASCII label breaks, if any.
fn check_label(l: &str) -> (r: Option<HandleError>)
    requires
        all_ascii(l@),
    ensures
        match r {
            Some(e) => label_fault(l@) == Some(e@),
            None => label_fault(l@) is None,
        },
{
    let n = ascii_len(l);
    if n == 0 {
        return Some(HandleError::InvalidPeriods);
    }
    if n > SEGMENT_LEN {
        return Some(HandleError::SegmentTooLong(l.to_owned(), SEGMENT_LEN));
    }
    let mut i: usize = 0;
    while i < n
        invariant
            n == l@.len(),
            0 < n <= SEGMENT_LEN,
            all_ascii(l@),
            i <= n,
            forall|j: int| 0 <= j < i ==> is_label_char(#[trigger] l@[j]),
        decreases n - i,
    {
        let b = l.get_ascii(i);
        assert(l@[i as int] <= '\u{7f}');
        assert(b as char == l@[i as int]);
        if !(byte_is_alphanumeric(b) || b == 45u8) {
            assert(!is_label_char(l@[i as int]));
            return Some(HandleError::SegmentIllegalChar(l.to_owned()));
        }
        i = i + 1;
    }
    let first = l.get_ascii(0);
    let last = l.get_ascii(n - 1);
    assert(l@[0] <= '\u{7f}' && l@[n - 1] <= '\u{7f}');
    if first == 45u8 || last == 45u8 {
        return Some(HandleError::SegmentHyphensAtEdges(l.to_owned()));
    }
    None
}

impl Handle {
    /// Parses a handle, as typed by a user or found in a DID document.
    ///
    /// A leading `@` and then a leading `at://` are dropped; the rest must be two or more
    /// labels separated by `.`, each of 1 to 63 ASCII letters, digits and inner hyphens,
    /// the last not starting with a digit. The handle is kept in lower case.
    pub fn from_str(s: &str) -> (r: Result<Handle, HandleError>)
        ensures
            match r {
                Ok(h) => handle_outcome(s@) == Ok::<Seq<char>, HandleFault>(h@),
                Err(e) => handle_outcome(s@) == Err::<Seq<char>, HandleFault>(e@),
            },
    {
        if !s.is_ascii() {
            return Err(HandleError::NotAscii(s.to_owned()));
        }
        let n = ascii_len(s);
        if n > HANDLE_LEN {
            return Err(HandleError::HandleTooLong(s.to_owned(), HANDLE_LEN));
        }
        let mut t: &str = s;
        let mut m: usize = n;
        if m > 0 {
            assert(s@[0] <= '\u{7f}');
            if t.get_ascii(0) == 64u8 {
                t = t.substring_ascii(1, m);
                m = m - 1;
                assert(t@ =~= s@.drop_first());
            }
        }
        if m >= 5 && starts_with_at_scheme(t) {
            let ghost before = t@;
            t = t.substring_ascii(5, m);
            m = m - 5;
            assert(t@ =~= before.skip(5));
        }
        assert(t@ == strip_prefixes(s@));
        let labels = split_ascii(t, 46u8);
        let ghost lv = labels.deep_view();
        proof {
            lemma_split_pieces(t@, '.', |c: char| '\0' <= c <= '\u{7f}');
        }
        let k = labels.len();
        if k < 2 {
            return Err(HandleError::HandleIsTLD(t.to_owned()));
        }
        let tld = &labels[k - 1];
        assert(tld@ == lv.last());
        let tld_len = ascii_len(tld.as_str());
        if tld_len > 0 {
            let b = tld.as_str().get_ascii(0);
            assert(tld@[0] <= '\u{7f}');
            if byte_is_digit(b) {
                return Err(HandleError::TLDStartsWithDigit(tld.clone()));
            }
        }
        let mut i: usize = 0;
        assert(lv.skip(0) =~= lv);
        let ghost outcome = match first_label_fault(lv) {
            Some(f) => Err(f),
            None => Ok(lower(t@)),
        };
        assert(handle_outcome(s@) == outcome);
        while i < k
            invariant
                k == labels.len(),
                lv == labels.deep_view(),
                i <= k,
                forall|a: int, j: int|
                    0 <= a < lv.len() && 0 <= j < lv[a].len() ==> '\0' <= #[trigger] lv[a][j]
                        <= '\u{7f}',
                first_label_fault(lv) == first_label_fault(lv.skip(i as int)),
                handle_outcome(s@) == outcome,
                outcome == match first_label_fault(lv) {
                    Some(f) => Err(f),
                    None => Ok::<Seq<char>, HandleFault>(lower(t@)),
                },
            decreases k - i,
        {
            assert(lv[i as int] == labels[i as int]@);
            match check_label(labels[i].as_str()) {
                Some(e) => {
                    assert(lv.skip(i as int)[0] == lv[i as int]);
                    return Err(e);
                },
                None => {},
            }
            assert(lv.skip(i as int).drop_first() =~= lv.skip(i + 1));
            i = i + 1;
        }
        assert(lv.skip(k as int) =~= Seq::<Seq<char>>::empty());
        let lowered = ascii_lowercase(t);
        proof {
            lemma_normalized_valid(t@);
        }
        Ok(Handle(lowered))
    }
}

/// No fault in the list means no fault in any label.
proof fn lemma_no_first_fault(labels: Seq<Seq<char>>)
    requires
        first_label_fault(labels) is None,
    ensures
        forall|k: int| 0 <= k < labels.len() ==> label_fault(#[trigger] labels[k]) is None,
    decreases labels.len(),
{
    if labels.len() > 0 {
        lemma_no_first_fault(labels.drop_first());
        assert forall|k: int| 0 <= k < labels.len() implies label_fault(
            #[trigger] labels[k],
        ) is None by {
            if k > 0 {
                assert(labels[k] == labels.drop_first()[k - 1]);
            }
        }
    }
}

/// Labels that pass every check make a valid handle once lower-cased.
proof fn lemma_normalized_valid(t: Seq<char>)
    requires
        t.len() <= HANDLE_LEN,
        split_on(t, '.').len() >= 2,
        !(split_on(t, '.').last().len() > 0 && is_ascii_digit(split_on(t, '.').last()[0])),
        first_label_fault(split_on(t, '.')) is None,
    ensures
        valid_handle(lower(t)),
{
    let labels = split_on(t, '.');
    lemma_no_first_fault(labels);
    lemma_split_lower(t, '.');
    let lt = lower(t);
    let llabels = split_on(lt, '.');
    assert forall|k: int| 0 <= k < llabels.len() implies valid_label(#[trigger] llabels[k]) by {
        let l = labels[k];
        assert(label_fault(l) is None);
        assert(llabels[k] == lower(l));
        assert forall|i: int| 0 <= i < l.len() implies is_ascii_lower(#[trigger] lower(l)[i])
            || is_ascii_digit(lower(l)[i]) || lower(l)[i] == '-' by {
            assert(is_label_char(l[i]));
            if is_ascii_upper(l[i]) {
                lemma_lower_of_upper(l[i]);
            }
        }
    }
    let p = |c: char| is_label_char(c) || c == '.';
    assert forall|k: int, j: int|
        0 <= k < labels.len() && 0 <= j < labels[k].len() implies p(#[trigger] labels[k][j]) by {
        assert(label_fault(labels[k]) is None);
    }
    lemma_split_covers(t, '.', p);
    assert forall|i: int| 0 <= i < lt.len() implies is_handle_char(#[trigger] lt[i]) by {
        assert(p(t[i]));
        if is_ascii_upper(t[i]) {
            lemma_lower_of_upper(t[i]);
        }
    }
    let last = labels.last();
    assert(llabels.last() == lower(last));
    assert(label_fault(labels[labels.len() - 1]) is None);
}


impl PartialEq for Handle {
    fn eq(&self, other: &Self) -> (r: bool) {
        self.0 == other.0
    }
}

impl vstd::std_specs::cmp::PartialEqSpecImpl for Handle {
    open spec fn obeys_eq_spec() -> bool {
        true
    }

    open spec fn eq_spec(&self, other: &Self) -> bool {
        self@ == other@
    }
}

impl Eq for Handle {

}

impl Handle {
    /// The text of the handle; it is always a valid, normalized one.
    pub fn to_string(&self) -> (r: String)
        ensures
            r@ == self@,
            valid_handle(self@),
    {
        proof {
            use_type_invariant(self);
        }
        self.0.clone()
    }

    /// The DNS name whose TXT records may give the handle's DID: `_atproto.<handle>.`
    pub fn dns_txt_name(&self) -> (r: String)
        ensures
            r@ == dns_txt_name_of(self@),
    {
        let mut name = "_atproto.".to_owned();
        name.append(self.0.as_str());
        name.append(".");
        name
    }

    /// The URL whose body may give the handle's DID:
    /// `https://<handle>/.well-known/atproto-did`.
    pub fn well_known_url(&self) -> (r: String)
        ensures
            r@ == well_known_url_of(self@),
    {
        let mut url = "https://".to_owned();
        url.append(self.0.as_str());
        url.append("/.well-known/atproto-did");
        url
    }
}


/// Valid labels break no rule.
proof fn lemma_valid_labels_no_fault(labels: Seq<Seq<char>>)
    requires
        forall|k: int| 0 <= k < labels.len() ==> valid_label(#[trigger] labels[k]),
    ensures
        first_label_fault(labels) is None,
    decreases labels.len(),
{
    if labels.len() > 0 {
        assert(valid_label(labels[0]));
        assert(labels[0].len() <= SEGMENT_LEN);
        assert forall|i: int| 0 <= i < labels[0].len() implies is_label_char(
            #[trigger] labels[0][i],
        ) by {
            assert(valid_label(labels[0]));
        }
        assert forall|k: int| 0 <= k < labels.drop_first().len() implies valid_label(
            #[trigger] labels.drop_first()[k],
        ) by {
            assert(labels.drop_first()[k] == labels[k + 1]);
        }
        lemma_valid_labels_no_fault(labels.drop_first());
    }
}

/// An ASCII input of at most 253 characters whose prefixes strip off to a valid handle
/// parses to that handle.
proof fn lemma_outcome_of_valid(s: Seq<char>, t: Seq<char>)
    requires
        all_ascii(s),
        s.len() <= HANDLE_LEN,
        strip_prefixes(s) == t,
        valid_handle(t),
    ensures
        handle_outcome(s) == Ok::<Seq<char>, HandleFault>(t),
{
    let labels = split_on(t, '.');
    lemma_valid_labels_no_fault(labels);
    assert(valid_label(labels[labels.len() - 1]));
    assert forall|i: int| 0 <= i < t.len() implies lower(t)[i] == t[i] by {
        assert(is_handle_char(t[i]));
    }
    assert(lower(t) =~= t);
}

/// The characters of a valid handle are ASCII, and neither `@` nor `:`.
proof fn lemma_valid_handle_chars(t: Seq<char>)
    requires
        valid_handle(t),
    ensures
        all_ascii(t),
        t.len() > 0 ==> t[0] != '@',
        t.len() >= 5 ==> t.take(5) != at_scheme(),
{
    assert forall|i: int| 0 <= i < t.len() implies '\0' <= #[trigger] t[i] <= '\u{7f}' by {
        assert(is_handle_char(t[i]));
    }
    if t.len() > 0 {
        assert(is_handle_char(t[0]));
    }
    if t.len() >= 5 {
        assert(is_handle_char(t[2]));
        assert(t.take(5)[2] == t[2]);
    }
}

/// Parsing the text of a handle gives back the same handle.
pub proof fn lemma_handle_reparse(t: Seq<char>)
    requires
        valid_handle(t),
    ensures
        handle_outcome(t) == Ok::<Seq<char>, HandleFault>(t),
{
    lemma_valid_handle_chars(t);
    lemma_outcome_of_valid(t, t);
}

/// A handle written as an `at://` URI, as in a DID document's `alsoKnownAs`, parses to
/// that handle.
pub proof fn lemma_handle_at_uri(t: Seq<char>)
    requires
        valid_handle(t),
        t.len() + 5 <= HANDLE_LEN,
    ensures
        handle_outcome(at_scheme() + t) == Ok::<Seq<char>, HandleFault>(t),
{
    let s = at_scheme() + t;
    lemma_valid_handle_chars(t);
    assert forall|i: int| 0 <= i < s.len() implies '\0' <= #[trigger] s[i] <= '\u{7f}' by {
        if i >= 5 {
            assert(s[i] == t[i - 5]);
        }
    }
    assert(s.take(5) =~= at_scheme());
    assert(s.skip(5) =~= t);
    lemma_outcome_of_valid(s, t);
}

/// A handle written with a leading `@`, as in a mention, parses to that handle.
pub proof fn lemma_handle_mention(t: Seq<char>)
    requires
        valid_handle(t),
        t.len() < HANDLE_LEN,
    ensures
        handle_outcome(seq!['@'] + t) == Ok::<Seq<char>, HandleFault>(t),
{
    let s = seq!['@'] + t;
    lemma_valid_handle_chars(t);
    assert forall|i: int| 0 <= i < s.len() implies '\0' <= #[trigger] s[i] <= '\u{7f}' by {
        if i >= 1 {
            assert(s[i] == t[i - 1]);
        }
    }
    assert(s.drop_first() =~= t);
    lemma_outcome_of_valid(s, t);
}


/// Letter case does not change whether a character is ASCII, a label character, a digit
/// or a hyphen.
proof fn lemma_lower_char_classes(c: char)
    ensures
        (to_ascii_lower(c) <= '\u{7f}') == (c <= '\u{7f}'),
        is_label_char(to_ascii_lower(c)) == is_label_char(c),
        is_ascii_digit(to_ascii_lower(c)) == is_ascii_digit(c),
        (to_ascii_lower(c) == '-') == (c == '-'),
{
    if is_ascii_upper(c) {
        lemma_lower_of_upper(c);
    }
}

/// Labels that are equal up to letter case break a rule alike.
proof fn lemma_label_fault_case(l1: Seq<char>, l2: Seq<char>)
    requires
        lower(l1) == lower(l2),
    ensures
        (label_fault(l1) is None) == (label_fault(l2) is None),
{
    assert(l1.len() == lower(l1).len() && l2.len() == lower(l2).len());
    assert forall|i: int| 0 <= i < l1.len() implies is_label_char(#[trigger] l1[i])
        == is_label_char(l2[i]) && (l1[i] == '-') == (l2[i] == '-') by {
        assert(lower(l1)[i] == lower(l2)[i]);
        assert(lower(l1)[i] == to_ascii_lower(l1[i]));
        assert(lower(l2)[i] == to_ascii_lower(l2[i]));
        lemma_lower_char_classes(l1[i]);
        lemma_lower_char_classes(l2[i]);
    }
    let all1 = forall|i: int| 0 <= i < l1.len() ==> is_label_char(#[trigger] l1[i]);
    let all2 = forall|i: int| 0 <= i < l2.len() ==> is_label_char(#[trigger] l2[i]);
    if all1 {
        assert forall|i: int| 0 <= i < l2.len() implies is_label_char(#[trigger] l2[i]) by {
            assert(is_label_char(l1[i]));
        }
    }
    if all2 {
        assert forall|i: int| 0 <= i < l1.len() implies is_label_char(#[trigger] l1[i]) by {
            assert(is_label_char(l2[i]));
        }
    }
    assert(all1 == all2);
    if l1.len() > 0 {
        assert(l1[l1.len() - 1] == l1.last() && l2[l2.len() - 1] == l2.last());
        assert((l1[0] == '-') == (l2[0] == '-'));
        assert((l1.last() == '-') == (l2.last() == '-'));
    }
}

/// Lists of labels that are equal up to letter case have a fault alike.
proof fn lemma_first_fault_case(ls1: Seq<Seq<char>>, ls2: Seq<Seq<char>>)
    requires
        ls1.len() == ls2.len(),
        forall|k: int| 0 <= k < ls1.len() ==> lower(#[trigger] ls1[k]) == lower(ls2[k]),
    ensures
        (first_label_fault(ls1) is None) == (first_label_fault(ls2) is None),
    decreases ls1.len(),
{
    if ls1.len() > 0 {
        lemma_label_fault_case(ls1[0], ls2[0]);
        assert forall|k: int| 0 <= k < ls1.drop_first().len() implies lower(
            #[trigger] ls1.drop_first()[k],
        ) == lower(ls2.drop_first()[k]) by {
            assert(ls1.drop_first()[k] == ls1[k + 1]);
            assert(ls2.drop_first()[k] == ls2[k + 1]);
        }
        lemma_first_fault_case(ls1.drop_first(), ls2.drop_first());
    }
}

/// Removing the prefixes removes the first few characters.
proof fn lemma_strip_is_suffix(s: Seq<char>)
    ensures
        strip_prefixes(s).len() <= s.len(),
        strip_prefixes(s) == s.skip(s.len() - strip_prefixes(s).len()),
{
    let t = if s.len() > 0 && s[0] == '@' {
        s.drop_first()
    } else {
        s
    };
    assert(s.drop_first() =~= s.skip(1));
    assert(s =~= s.skip(0));
    if t.len() >= 5 && t.take(5) == at_scheme() {
        assert(t.skip(5) =~= s.skip(s.len() - t.skip(5).len()));
    }
}

/// Handles are not case-sensitive: an input that differs from a handle only in letter case
/// names the same handle, unless the difference turns a leading `at://` into something
/// else (such as `AT://`), which is then no longer removed.
pub proof fn lemma_handle_case_insensitive(s1: Seq<char>, s2: Seq<char>)
    requires
        lower(s1) == lower(s2),
        strip_prefixes(s1).len() == strip_prefixes(s2).len(),
        handle_outcome(s1) is Ok,
    ensures
        handle_outcome(s2) == handle_outcome(s1),
{
    assert(s1.len() == lower(s1).len() && s2.len() == lower(s2).len());
    assert(all_ascii(s1));
    assert forall|i: int| 0 <= i < s2.len() implies '\0' <= #[trigger] s2[i] <= '\u{7f}' by {
        assert(lower(s1)[i] == lower(s2)[i]);
        assert(lower(s1)[i] == to_ascii_lower(s1[i]));
        assert(lower(s2)[i] == to_ascii_lower(s2[i]));
        lemma_lower_char_classes(s1[i]);
        lemma_lower_char_classes(s2[i]);
        assert(s1[i] <= '\u{7f}');
    }
    let t1 = strip_prefixes(s1);
    let t2 = strip_prefixes(s2);
    lemma_strip_is_suffix(s1);
    lemma_strip_is_suffix(s2);
    let k = s1.len() - t1.len();
    assert(lower(t1) =~= lower(s1).skip(k));
    assert(lower(t2) =~= lower(s2).skip(k));
    let ls1 = split_on(t1, '.');
    let ls2 = split_on(t2, '.');
    lemma_split_lower(t1, '.');
    lemma_split_lower(t2, '.');
    assert(ls1.len() == ls2.len());
    assert forall|j: int| 0 <= j < ls1.len() implies lower(#[trigger] ls1[j]) == lower(ls2[j]) by {
        assert(split_on(lower(t1), '.')[j] == lower(ls1[j]));
        assert(split_on(lower(t2), '.')[j] == lower(ls2[j]));
    }
    lemma_first_fault_case(ls1, ls2);
    if ls1.len() >= 2 {
        let a = ls1.last();
        let b = ls2.last();
        assert(lower(a) == lower(b));
        assert(a.len() == lower(a).len() && b.len() == lower(b).len());
        if a.len() > 0 {
            assert(lower(a)[0] == lower(b)[0]);
            assert(lower(a)[0] == to_ascii_lower(a[0]));
            assert(lower(b)[0] == to_ascii_lower(b[0]));
            lemma_lower_char_classes(a[0]);
            lemma_lower_char_classes(b[0]);
        }
    }
}


/// The text of a handle has 3 to 253 characters, all lower-case letters, digits, `-` and
/// `.`; it holds a `.`, and neither starts nor ends with one.
pub proof fn lemma_handle_text_shape(t: Seq<char>)
    requires
        valid_handle(t),
    ensures
        3 <= t.len() <= HANDLE_LEN,
        forall|i: int| 0 <= i < t.len() ==> is_handle_char(#[trigger] t[i]),
        exists|i: int| 0 <= i < t.len() && t[i] == '.',
        t[0] != '.',
        t[t.len() - 1] != '.',
{
    let labels = split_on(t, '.');
    lemma_join_split(t, '.');
    let front = labels.drop_last();
    let last = labels.last();
    assert(t == join_on(front, '.') + seq!['.'] + last);
    lemma_join_front(front, '.');
    let j = join_on(front, '.');
    assert(front[0] == labels[0]);
    assert(valid_label(labels[0]));
    assert(valid_label(labels[labels.len() - 1]));
    assert(t[0] == j[0]);
    assert(j[0] == labels[0][0]);
    assert(t[j.len() as int] == '.');
    assert(t[t.len() - 1] == last[last.len() - 1]);
}

} // verus!

//! Decentralized identifiers of the two methods that AT Protocol supports,
//! `did:plc:...` and `did:web:...`.
use vstd::prelude::*;
use vstd::string::StringSliceAdditionalSpecFns;
use vstd::utf8::{
    encode_scalar, encode_utf8, has_width_1_encoding, has_width_2_encoding, has_width_3_encoding,
    is_char_boundary, leading_byte_width_1, leading_byte_width_2, leading_byte_width_3,
    leading_byte_width_4, length_of_first_scalar, pop_first_scalar,
};

use crate::text::{
    all_ascii, ascii_len, ascii_lowercase, is_ascii_alphanumeric, join_on,
    lemma_join_split, lemma_split_concat, lemma_split_first_two, lemma_split_nonempty, lemma_split_pieces,
    lemma_split_single, lower, split_ascii, split_on,
};

verus! {

/// The DID methods that AT Protocol supports.
#[derive(Debug, Clone, Copy, PartialEq, Eq, Structural)]
pub enum DidMethod {
    Plc,
    Web,
}

/// Why a string is not a supported DID.
#[derive(Debug, PartialEq, Eq)]
pub enum DidError {
    IllegalChars(String),
    Incomplete(String),
    InvalidScheme(String),
    UnsupportedMethod(String),
    InvalidColons,
    InvalidCharInIdentifier(String),
}

/// The mathematical counterpart of `DidError`, its strings taken as character sequences.
pub enum DidFault {
    IllegalChars(Seq<char>),
    Incomplete(Seq<char>),
    InvalidScheme(Seq<char>),
    UnsupportedMethod(Seq<char>),
    InvalidColons,
    InvalidCharInIdentifier(Seq<char>),
}

impl View for DidError {
    type V = DidFault;

    open spec fn view(&self) -> DidFault {
        match self {
            DidError::IllegalChars(s) => DidFault::IllegalChars(s@),
            DidError::Incomplete(s) => DidFault::Incomplete(s@),
            DidError::InvalidScheme(s) => DidFault::InvalidScheme(s@),
            DidError::UnsupportedMethod(s) => DidFault::UnsupportedMethod(s@),
            DidError::InvalidColons => DidFault::InvalidColons,
            DidError::InvalidCharInIdentifier(s) => DidFault::InvalidCharInIdentifier(s@),
        }
    }
}

/// `did=`, which marks a DID in a DNS TXT record.
pub open spec fn did_tag_chars() -> Seq<char> {
    seq!['d', 'i', 'd', '=']
}

/// The text starts with `did=`.
pub open spec fn starts_with_did_tag(s: Seq<char>) -> bool {
    s.len() >= 4 && s.take(4) == did_tag_chars()
}

/// The input without a leading `did=` (as a DNS TXT record holds it), the whole input
/// otherwise.
pub open spec fn did_body(s: Seq<char>) -> Seq<char> {
    if starts_with_did_tag(s) {
        s.skip(4)
    } else {
        s
    }
}

/// Characters allowed in a DID: ASCII letters and digits, `.`, `_`, `:`, `%` and `-`.
pub open spec fn is_did_char(c: char) -> bool {
    is_ascii_alphanumeric(c) || c == '.' || c == '_' || c == ':' || c == '%' || c == '-'
}

/// `did`
pub open spec fn did_scheme() -> Seq<char> {
    seq!['d', 'i', 'd']
}

/// `plc` or `web`.
pub open spec fn method_name(m: DidMethod) -> Seq<char> {
    match m {
        DidMethod::Plc => seq!['p', 'l', 'c'],
        DidMethod::Web => seq!['w', 'e', 'b'],
    }
}

/// `did:<method>:<identifier>`
pub open spec fn did_text(m: DidMethod, ident: Seq<char>) -> Seq<char> {
    did_scheme() + seq![':'] + method_name(m) + seq![':'] + ident
}

/// A `%` among the last two characters: a `%` must be followed by two hex digits.
pub open spec fn ends_in_cut_escape(seg: Seq<char>) -> bool {
    (seg.len() >= 1 && seg[seg.len() - 1] == '%') || (seg.len() >= 2 && seg[seg.len() - 2]
        == '%')
}

/// The method-specific rule that an identifier breaks: for `plc`, holding a `%` at all;
/// for `web`, having a `:`-separated segment with a `%` among its last two characters.
pub open spec fn identifier_fault(m: DidMethod, ident: Seq<char>) -> bool {
    match m {
        DidMethod::Plc => exists|i: int| 0 <= i < ident.len() && #[trigger] ident[i] == '%',
        DidMethod::Web => exists|k: int|
            0 <= k < split_on(ident, ':').len() && ends_in_cut_escape(
                #[trigger] split_on(ident, ':')[k],
            ),
    }
}

/// The method whose name is `name`, if it is a supported one.
pub open spec fn method_named(name: Seq<char>) -> Option<DidMethod> {
    if name == method_name(DidMethod::Plc) {
        Some(DidMethod::Plc)
    } else if name == method_name(DidMethod::Web) {
        Some(DidMethod::Web)
    } else {
        None
    }
}

/// What parsing `s` as a DID gives: its normalized text and method, or the first rule broken.
/// The scheme and the method are matched without regard to case and kept in lower case;
/// the identifier is everything after the method's `:`, kept as it is (it may itself hold
/// further `:`-separated segments).
pub open spec fn did_outcome(s: Seq<char>) -> Result<(Seq<char>, DidMethod), DidFault> {
    let t = did_body(s);
    if !(forall|i: int| 0 <= i < t.len() ==> is_did_char(#[trigger] t[i])) {
        Err(DidFault::IllegalChars(t))
    } else {
        let segs = split_on(t, ':');
        if segs.len() < 3 {
            Err(DidFault::Incomplete(t))
        } else if exists|k: int| 0 <= k < segs.len() && (#[trigger] segs[k]).len() == 0 {
            Err(DidFault::InvalidColons)
        } else if lower(segs[0]) != did_scheme() {
            Err(DidFault::InvalidScheme(lower(segs[0])))
        } else {
            match method_named(lower(segs[1])) {
                None => Err(DidFault::UnsupportedMethod(lower(segs[1]))),
                Some(m) => {
                    let ident = join_on(segs.skip(2), ':');
                    if identifier_fault(m, ident) {
                        Err(DidFault::InvalidCharInIdentifier(ident))
                    } else {
                        Ok((did_text(m, ident), m))
                    }
                },
            }
        }
    }
}

/// An identifier that a parsed DID can hold: DID characters only, one or more non-empty
/// `:`-separated segments, and no fault for its method.
pub open spec fn valid_identifier(m: DidMethod, ident: Seq<char>) -> bool {
    &&& forall|i: int| 0 <= i < ident.len() ==> is_did_char(#[trigger] ident[i])
    &&& forall|k: int|
        0 <= k < split_on(ident, ':').len() ==> (#[trigger] split_on(ident, ':')[k]).len() > 0
    &&& !identifier_fault(m, ident)
}

/// The text of a parsed DID: `did:<method>:` followed by a valid identifier.
pub open spec fn valid_did(text: Seq<char>, m: DidMethod) -> bool {
    &&& text.len() >= 8
    &&& text == did_text(m, text.skip(8))
    &&& valid_identifier(m, text.skip(8))
}

/// The third `:`-separated segment of a DID's text.
pub open spec fn did_identifier(text: Seq<char>) -> Seq<char> {
    split_on(text, ':')[2]
}

/// Where the DID document of the DID with this text and method is published:
/// `https://plc.directory/<did>` for `plc`, `https://<identifier>/.well-known/did.json`
/// for `web`.
pub open spec fn document_url_of(text: Seq<char>, m: DidMethod) -> Seq<char> {
    match m {
        DidMethod::Plc => "https://plc.directory/"@ + text,
        DidMethod::Web => "https://"@ + did_identifier(text) + "/.well-known/did.json"@,
    }
}

/// A parsed DID such as `did:plc:ewvi7nxzyoun6zhxrhs64oiz`, with its method.
#[derive(Debug)]
pub struct Did(String, DidMethod);

impl Did {
    #[verifier::type_invariant]
    spec fn wf(self) -> bool {
        valid_did(self.0@, self.1)
    }
}

impl View for Did {
    type V = (Seq<char>, DidMethod);

    closed spec fn view(&self) -> (Seq<char>, DidMethod) {
        (self.0@, self.1)
    }
}

/// Whether the bytes start with `did=`.
fn bytes_start_with_did_tag(b: &[u8]) -> (r: bool)
    ensures
        r == (b@.len() >= 4 && b@[0] == 100u8 && b@[1] == 105u8 && b@[2] == 100u8 && b@[3]
            == 61u8),
{
    b.len() >= 4 && b[0] == 100u8 && b[1] == 105u8 && b[2] == 100u8 && b[3] == 61u8
}

/// The UTF-8 encoding of a text begins with a byte below `0x80` exactly when the text
/// begins with an ASCII character; that byte is then the character's code, and the rest of
/// the encoding encodes the rest of the text.
proof fn lemma_encode_head(s: Seq<char>)
    requires
        s.len() > 0,
    ensures
        encode_utf8(s).len() >= 1,
        (encode_utf8(s)[0] < 0x80u8) == ((s[0] as u32) < 0x80u32),
        (s[0] as u32) < 0x80u32 ==> encode_utf8(s)[0] as u32 == s[0] as u32 && encode_utf8(
            s,
        ).drop_first() == encode_utf8(s.drop_first()),
{
    let c = s[0] as u32;
    vstd::utf8::char_is_scalar(s[0]);
    let e = encode_scalar(c);
    let b = encode_utf8(s);
    assert(b == e + encode_utf8(s.drop_first()));
    if has_width_1_encoding(c) {
        assert(leading_byte_width_1(c) as u32 == c && leading_byte_width_1(c) < 0x80u8)
            by (bit_vector)
            requires
                c <= 0x7f,
        ;
        assert(e =~= seq![leading_byte_width_1(c)]);
        assert(b[0] == e[0]);
        assert(b.drop_first() =~= encode_utf8(s.drop_first()));
    } else if has_width_2_encoding(c) {
        assert(leading_byte_width_2(c) >= 0xc0u8) by (bit_vector);
        assert(b[0] == e[0] && e[0] == leading_byte_width_2(c));
    } else if has_width_3_encoding(c) {
        assert(leading_byte_width_3(c) >= 0xe0u8) by (bit_vector);
        assert(b[0] == e[0] && e[0] == leading_byte_width_3(c));
    } else {
        assert(leading_byte_width_4(c) >= 0xf0u8) by (bit_vector);
        assert(b[0] == e[0] && e[0] == leading_byte_width_4(c));
    }
}

/// The first `k` characters of a text are ASCII: its encoding begins with their codes, one
/// byte each, and has a character boundary after them.
proof fn lemma_ascii_prefix(s: Seq<char>, k: int)
    requires
        0 <= k <= s.len(),
        forall|i: int| 0 <= i < k ==> (#[trigger] s[i] as u32) < 0x80u32,
    ensures
        encode_utf8(s).len() >= k,
        forall|i: int| 0 <= i < k ==> #[trigger] encode_utf8(s)[i] as u32 == s[i] as u32,
        encode_utf8(s).skip(k) == encode_utf8(s.skip(k)),
        is_char_boundary(encode_utf8(s), k),
    decreases k,
{
    let b = encode_utf8(s);
    vstd::utf8::encode_utf8_valid_utf8(s);
    if k == 0 {
        assert(s.skip(0) =~= s);
        assert(b.skip(0) =~= b);
    } else {
        let s1 = s.drop_first();
        lemma_encode_head(s);
        assert forall|i: int| 0 <= i < k - 1 implies (#[trigger] s1[i] as u32) < 0x80u32 by {
            assert(s1[i] == s[i + 1]);
        }
        lemma_ascii_prefix(s1, k - 1);
        assert forall|i: int| 0 <= i < k implies #[trigger] b[i] as u32 == s[i] as u32 by {
            if i > 0 {
                assert(b[i] == b.drop_first()[i - 1]);
                assert(s[i] == s1[i - 1]);
            }
        }
        assert(s1.skip(k - 1) =~= s.skip(k));
        assert(b.skip(k) =~= b.drop_first().skip(k - 1));
        assert(length_of_first_scalar(b) == 1);
        assert(pop_first_scalar(b) =~= b.drop_first());
        vstd::utf8::encode_utf8_valid_utf8(s1);
        assert(is_char_boundary(b, k) == is_char_boundary(pop_first_scalar(b), k - 1));
    }
}

/// When the first `k` bytes of a text's encoding are below `0x80`, its first `k`
/// characters are ASCII.
proof fn lemma_ascii_bytes_prefix(s: Seq<char>, k: int)
    requires
        0 <= k <= encode_utf8(s).len(),
        forall|i: int| 0 <= i < k ==> #[trigger] encode_utf8(s)[i] < 0x80u8,
    ensures
        s.len() >= k,
        forall|i: int| 0 <= i < k ==> (#[trigger] s[i] as u32) < 0x80u32,
    decreases k,
{
    if k > 0 {
        let b = encode_utf8(s);
        if s.len() == 0 {
            assert(b.len() == 0);
        }
        lemma_encode_head(s);
        let s1 = s.drop_first();
        assert forall|i: int| 0 <= i < k - 1 implies #[trigger] encode_utf8(s1)[i] < 0x80u8 by {
            assert(encode_utf8(s1)[i] == b[i + 1]);
        }
        lemma_ascii_bytes_prefix(s1, k - 1);
        assert forall|i: int| 0 <= i < k implies (#[trigger] s[i] as u32) < 0x80u32 by {
            if i > 0 {
                assert(s[i] == s1[i - 1]);
            }
        }
    }
}

/// A text starts with `did=` exactly when its encoding starts with the bytes of `did=`;
/// those bytes then end on a character boundary, after which the rest of the text is
/// encoded.
proof fn lemma_did_tag_bytes(s: Seq<char>)
    ensures
        starts_with_did_tag(s) == (encode_utf8(s).len() >= 4 && encode_utf8(s)[0] == 100u8
            && encode_utf8(s)[1] == 105u8 && encode_utf8(s)[2] == 100u8 && encode_utf8(s)[3]
            == 61u8),
        starts_with_did_tag(s) ==> is_char_boundary(encode_utf8(s), 4) && encode_utf8(s).subrange(
            4,
            encode_utf8(s).len() as int,
        ) == encode_utf8(s.skip(4)),
{
    let b = encode_utf8(s);
    if starts_with_did_tag(s) {
        assert(s[0] == s.take(4)[0] && s[1] == s.take(4)[1]);
        assert(s[2] == s.take(4)[2] && s[3] == s.take(4)[3]);
        lemma_ascii_prefix(s, 4);
        assert(b[0] as u32 == 100 && b[1] as u32 == 105 && b[2] as u32 == 100 && b[3] as u32 == 61);
        assert(b.skip(4) =~= b.subrange(4, b.len() as int));
    }
    if b.len() >= 4 && b[0] == 100u8 && b[1] == 105u8 && b[2] == 100u8 && b[3] == 61u8 {
        lemma_ascii_bytes_prefix(s, 4);
        lemma_ascii_prefix(s, 4);
        vstd::utf8::char_u32_cast(s[0], 100u32);
        vstd::utf8::char_u32_cast(s[1], 105u32);
        vstd::utf8::char_u32_cast(s[2], 100u32);
        vstd::utf8::char_u32_cast(s[3], 61u32);
        assert(s[0] == 'd' && s[1] == 'i' && s[2] == 'd' && s[3] == '=');
        assert(s.take(4) =~= did_tag_chars());
    }
}

/// Whether an ASCII byte may stand in a DID.
fn byte_is_did_char(b: u8) -> (r: bool)
    requires
        b < 128,
    ensures
        r == is_did_char(b as char),
{
    (97u8 <= b && b <= 122u8) || (65u8 <= b && b <= 90u8) || (48u8 <= b && b <= 57u8) || b
        == 46u8 || b == 95u8 || b == 58u8 || b == 37u8 || b == 45u8
}

/// Whether a string holds exactly the characters of `w`.
fn equals_word(s: &String, w: &str) -> (r: bool)
    ensures
        r == (s@ == w@),
{
    let w_owned = w.to_owned();
    *s == w_owned
}

/// Whether an identifier breaks the rule of its method.
fn check_identifier(m: DidMethod, ident: &str) -> (r: bool)
    requires
        all_ascii(ident@),
    ensures
        r == identifier_fault(m, ident@),
{
    let n = ascii_len(ident);
    match m {
        DidMethod::Plc => {
            let mut i: usize = 0;
            while i < n
                invariant
                    m == DidMethod::Plc,
                    n == ident@.len(),
                    all_ascii(ident@),
                    i <= n,
                    forall|j: int| 0 <= j < i ==> #[trigger] ident@[j] != '%',
                decreases n - i,
            {
                let b = ident.get_ascii(i);
                assert(ident@[i as int] <= '\u{7f}');
                assert(b as char == ident@[i as int]);
                if b == 37u8 {
                    return true;
                }
                i = i + 1;
            }
            false
        },
        DidMethod::Web => {
            let segs = split_ascii(ident, 58u8);
            let ghost sv = segs.deep_view();
            proof {
                lemma_split_pieces(ident@, ':', |c: char| '\0' <= c <= '\u{7f}');
            }
            let k = segs.len();
            let mut j: usize = 0;
            while j < k
                invariant
                    m == DidMethod::Web,
                    k == segs.len(),
                    sv == segs.deep_view(),
                    sv == split_on(ident@, ':'),
                    j <= k,
                    forall|a: int, x: int|
                        0 <= a < sv.len() && 0 <= x < sv[a].len() ==> '\0' <= #[trigger] sv[a][x]
                            <= '\u{7f}',
                    forall|a: int| 0 <= a < j ==> !ends_in_cut_escape(#[trigger] sv[a]),
                decreases k - j,
            {
                assert(sv[j as int] == segs[j as int]@);
                if segment_ends_in_cut_escape(segs[j].as_str()) {
                    return true;
                }
                j = j + 1;
            }
            false
        },
    }
}

/// Whether an ASCII segment has a `%` among its last two characters.
fn segment_ends_in_cut_escape(seg: &str) -> (r: bool)
    requires
        all_ascii(seg@),
    ensures
        r == ends_in_cut_escape(seg@),
{
    let n = ascii_len(seg);
    if n >= 1 {
        let last = seg.get_ascii(n - 1);
        assert(seg@[n - 1] <= '\u{7f}');
        assert(last as char == seg@[n - 1]);
        if last == 37u8 {
            return true;
        }
    }
    if n >= 2 {
        let second = seg.get_ascii(n - 2);
        assert(seg@[n - 2] <= '\u{7f}');
        assert(second as char == seg@[n - 2]);
        second == 37u8
    } else {
        false
    }
}

impl Did {
    /// Parses a DID. A leading `did=` (as in a DNS TXT record) is cut off; the rest may
    /// hold only ASCII letters, digits and `._:%-`, must have at least three non-empty
    /// `:`-separated segments, start with the `did` scheme and name the `plc` or `web`
    /// method. A `plc` identifier may not hold `%`; no `:`-separated segment of a `web`
    /// identifier may hold `%` among its last two characters. The result keeps the scheme and method in lower case
    /// and the whole identifier after the method.
    #[verifier::loop_isolation(false)]
    #[verifier::rlimit(40)]
    pub fn from_str(s: &str) -> (r: Result<Did, DidError>)
        ensures
            match r {
                Ok(d) => did_outcome(s@) == Ok::<(Seq<char>, DidMethod), DidFault>(d@),
                Err(e) => did_outcome(s@) == Err::<(Seq<char>, DidMethod), DidFault>(e@),
            },
    {
        let bytes = s.as_bytes();
        let tagged = bytes_start_with_did_tag(bytes);
        proof {
            lemma_did_tag_bytes(s@);
        }
        let t: &str = if tagged {
            let (_, rest) = s.split_at(4);
            proof {
                vstd::utf8::encode_utf8_decode_utf8(rest@);
                vstd::utf8::encode_utf8_decode_utf8(s@.skip(4));
                assert(rest.spec_bytes() =~= encode_utf8(s@.skip(4)));
            }
            rest
        } else {
            s
        };
        assert(t@ == did_body(s@));
        if !t.is_ascii() {
            proof {
                let i = choose|i: int| 0 <= i < t@.len() && !('\0' <= #[trigger] t@[i] <= '\u{7f}');
                assert(!is_did_char(t@[i]));
            }
            return Err(DidError::IllegalChars(t.to_owned()));
        }
        let n = ascii_len(t);
        let mut i: usize = 0;
        while i < n
            invariant
                n == t@.len(),
                all_ascii(t@),
                i <= n,
                forall|j: int| 0 <= j < i ==> is_did_char(#[trigger] t@[j]),
            decreases n - i,
        {
            let b = t.get_ascii(i);
            assert(t@[i as int] <= '\u{7f}');
            assert(b as char == t@[i as int]);
            if !byte_is_did_char(b) {
                return Err(DidError::IllegalChars(t.to_owned()));
            }
            i = i + 1;
        }
        let segs = split_ascii(t, 58u8);
        let ghost sv = segs.deep_view();
        proof {
            lemma_split_pieces(t@, ':', |c: char| '\0' <= c <= '\u{7f}' && is_did_char(c));
        }
        let k = segs.len();
        if k < 3 {
            return Err(DidError::Incomplete(t.to_owned()));
        }
        let mut j: usize = 0;
        while j < k
            invariant
                k == segs.len(),
                sv == segs.deep_view(),
                j <= k,
                forall|a: int| 0 <= a < j ==> (#[trigger] sv[a]).len() != 0,
            decreases k - j,
        {
            assert(sv[j as int] == segs[j as int]@);
            if segs[j].as_str().is_empty() {
                return Err(DidError::InvalidColons);
            }
            j = j + 1;
        }
        assert(sv[0] == segs[0]@ && sv[1] == segs[1]@);
        let scheme = ascii_lowercase(segs[0].as_str());
        let method = ascii_lowercase(segs[1].as_str());
        proof {
            reveal_strlit("did");
            reveal_strlit("plc");
            reveal_strlit("web");
            assert("did"@ =~= did_scheme());
            assert("plc"@ =~= method_name(DidMethod::Plc));
            assert("web"@ =~= method_name(DidMethod::Web));
        }
        if !equals_word(&scheme, "did") {
            return Err(DidError::InvalidScheme(scheme));
        }
        let m = if equals_word(&method, "plc") {
            DidMethod::Plc
        } else if equals_word(&method, "web") {
            DidMethod::Web
        } else {
            return Err(DidError::UnsupportedMethod(method));
        };
        assert(method_named(lower(sv[1])) == Some(m));
        // The identifier is everything after the method and its colon.
        proof {
            lemma_split_first_two(t@, ':');
        }
        let ghost ident_v = join_on(sv.skip(2), ':');
        let len0 = ascii_len(segs[0].as_str());
        let len1 = ascii_len(segs[1].as_str());
        assert(t@ == sv[0] + seq![':'] + sv[1] + seq![':'] + ident_v);
        let start = len0 + len1 + 2;
        let ident = t.substring_ascii(start, n).to_owned();
        assert(ident@ =~= ident_v);
        if check_identifier(m, ident.as_str()) {
            return Err(DidError::InvalidCharInIdentifier(ident));
        }
        let mut text = match m {
            DidMethod::Plc => "did:plc:".to_owned(),
            DidMethod::Web => "did:web:".to_owned(),
        };
        proof {
            reveal_strlit("did:plc:");
            reveal_strlit("did:web:");
        }
        assert(text@ =~= did_scheme() + seq![':'] + method_name(m) + seq![':']);
        text.append(ident.as_str());
        assert(text@ =~= did_text(m, ident@));
        assert(text@.skip(8) =~= ident@);
        proof {
            assert forall|x: int| 0 <= x < ident@.len() implies is_did_char(#[trigger] ident@[x]) by {
                assert(ident@[x] == t@[start + x]);
            }
            assert(split_on(ident@, ':') == sv.skip(2));
            assert forall|a: int| 0 <= a < split_on(ident@, ':').len() implies (
            #[trigger] split_on(ident@, ':')[a]).len() > 0 by {
                assert(sv.skip(2)[a] == sv[a + 2]);
            }
        }
        Ok(Did(text, m))
    }
}

impl Did {
    /// Whether the DID uses the `plc` method.
    pub fn is_plc(&self) -> (r: bool)
        ensures
            r == (self@.1 == DidMethod::Plc),
    {
        self.1 == DidMethod::Plc
    }

    /// Whether the DID uses the `web` method.
    pub fn is_web(&self) -> (r: bool)
        ensures
            r == (self@.1 == DidMethod::Web),
    {
        self.1 == DidMethod::Web
    }

    /// The text of the DID, `did:<method>:<identifier>`; it is always a valid one.
    pub fn to_string(&self) -> (r: String)
        ensures
            r@ == self@.0,
            valid_did(self@.0, self@.1),
    {
        proof {
            use_type_invariant(self);
        }
        self.0.clone()
    }

    /// The method-specific identifier: the third `:`-separated segment of the DID.
    pub fn get_identifier(&self) -> (r: String)
        ensures
            r@ == did_identifier(self@.0),
    {
        proof {
            use_type_invariant(self);
            lemma_did_segments(self.0@, self.1);
            lemma_valid_did_ascii(self.0@, self.1);
        }
        let segments = split_ascii(self.0.as_str(), 58u8);
        assert(segments.deep_view() == split_on(self.0@, ':'));
        assert(segments.deep_view().len() >= 3);
        assert(segments@.len() == segments.deep_view().len());
        assert(segments.deep_view()[2] == segments[2]@);
        segments[2].clone()
    }

    /// Where the DID document is published: `https://plc.directory/<did>` for the `plc`
    /// method, `https://<identifier>/.well-known/did.json` for the `web` method.
    pub fn document_url(&self) -> (r: String)
        ensures
            r@ == document_url_of(self@.0, self@.1),
    {
        if self.is_plc() {
            let mut url = "https://plc.directory/".to_owned();
            url.append(self.0.as_str());
            url
        } else {
            let identifier = self.get_identifier();
            let mut url = "https://".to_owned();
            url.append(identifier.as_str());
            url.append("/.well-known/did.json");
            url
        }
    }
}
/// The characters of a parsed DID are DID characters, hence ASCII.
proof fn lemma_valid_did_ascii(text: Seq<char>, m: DidMethod)
    requires
        valid_did(text, m),
    ensures
        all_ascii(text),
        forall|i: int| 0 <= i < text.len() ==> is_did_char(#[trigger] text[i]),
{
    let ident = text.skip(8);
    assert forall|i: int| 0 <= i < text.len() implies is_did_char(#[trigger] text[i]) by {
        if i >= 8 {
            assert(text[i] == ident[i - 8]);
        } else {
            assert(text[i] == did_text(m, ident)[i]);
        }
    }
}

/// A parsed DID splits into the scheme, the method's name and the segments of the
/// identifier, which is the join of all segments after the second.
pub proof fn lemma_did_segments(text: Seq<char>, m: DidMethod)
    requires
        valid_did(text, m),
    ensures
        split_on(text, ':') == seq![did_scheme(), method_name(m)] + split_on(text.skip(8), ':'),
        split_on(text, ':').len() >= 3,
        join_on(split_on(text, ':').skip(2), ':') == text.skip(8),
        did_identifier(text) == split_on(text.skip(8), ':')[0],
{
    let ident = text.skip(8);
    let rest = method_name(m) + seq![':'] + ident;
    assert(text =~= did_scheme() + seq![':'] + rest);
    lemma_split_concat(did_scheme(), rest, ':');
    lemma_split_concat(method_name(m), ident, ':');
    lemma_split_single(did_scheme(), ':');
    lemma_split_single(method_name(m), ':');
    lemma_split_nonempty(ident, ':');
    assert(split_on(text, ':') =~= seq![did_scheme(), method_name(m)] + split_on(ident, ':'));
    assert(split_on(text, ':').skip(2) =~= split_on(ident, ':'));
    lemma_join_split(ident, ':');
}

/// Parsing the text of a parsed DID gives back the same DID.
pub proof fn lemma_did_reparse(text: Seq<char>, m: DidMethod)
    requires
        valid_did(text, m),
    ensures
        did_outcome(text) == Ok::<(Seq<char>, DidMethod), DidFault>((text, m)),
{
    lemma_valid_did_ascii(text, m);
    lemma_did_segments(text, m);
    assert(text[3] == ':');
    assert(text.take(4)[3] == text[3]);
    assert(did_body(text) == text);
    let segs = split_on(text, ':');
    assert(segs[0] == did_scheme() && segs[1] == method_name(m));
    assert forall|k: int| 0 <= k < segs.len() implies (#[trigger] segs[k]).len() != 0 by {
        if k >= 2 {
            assert(segs[k] == split_on(text.skip(8), ':')[k - 2]);
        }
    }
    assert(lower(segs[0]) =~= did_scheme());
    assert(lower(segs[1]) =~= method_name(m));
}

/// A DNS TXT record `did=<did>` holding the text of a parsed DID gives back that DID.
pub proof fn lemma_did_txt_record(text: Seq<char>, m: DidMethod)
    requires
        valid_did(text, m),
    ensures
        did_outcome(did_tag_chars() + text) == Ok::<(Seq<char>, DidMethod), DidFault>((text, m)),
{
    lemma_did_reparse(text, m);
    let s = did_tag_chars() + text;
    assert(s.take(4) =~= did_tag_chars());
    assert(s.skip(4) =~= text);
    assert(did_body(s) == did_body(text));
}


/// A DID may hold exactly the ASCII letters and digits and `.`, `_`, `:`, `%`, `-`: parsing
/// refuses with `IllegalChars` (naming what follows an optional leading `did=`) exactly
/// when that text holds any other character.
pub proof fn lemma_did_characters(s: Seq<char>)
    ensures
        (did_outcome(s) matches Err(DidFault::IllegalChars(t)) && t == did_body(s)) <==> exists|
            i: int,
        |
            0 <= i < did_body(s).len() && !(('a' <= #[trigger] did_body(s)[i] <= 'z') || ('A'
                <= did_body(s)[i] <= 'Z') || ('0' <= did_body(s)[i] <= '9') || did_body(s)[i]
                == '.' || did_body(s)[i] == '_' || did_body(s)[i] == ':' || did_body(s)[i] == '%'
                || did_body(s)[i] == '-'),
        did_outcome(s) matches Err(DidFault::IllegalChars(t)) ==> t == did_body(s),
{
}

/// A parsed DID holds only ASCII letters and digits and `.`, `_`, `:`, `%`, `-`; it starts
/// with `did:plc:` or `did:web:` according to its method, and a `plc` DID holds no `%`.
pub proof fn lemma_did_result(s: Seq<char>)
    ensures
        did_outcome(s) matches Ok((text, m)) ==> {
            &&& forall|i: int|
                0 <= i < text.len() ==> ('a' <= #[trigger] text[i] <= 'z') || ('A' <= text[i]
                    <= 'Z') || ('0' <= text[i] <= '9') || text[i] == '.' || text[i] == '_'
                    || text[i] == ':' || text[i] == '%' || text[i] == '-'
            &&& text.len() > 8
            &&& text.take(8) == (if m == DidMethod::Plc {
                seq!['d', 'i', 'd', ':', 'p', 'l', 'c', ':']
            } else {
                seq!['d', 'i', 'd', ':', 'w', 'e', 'b', ':']
            })
            &&& m == DidMethod::Plc ==> forall|i: int| 0 <= i < text.len() ==> #[trigger] text[i]
                != '%'
        },
{
    if did_outcome(s) is Ok {
        let t = did_body(s);
        let segs = split_on(t, ':');
        lemma_split_first_two(t, ':');
        let m = method_named(lower(segs[1])).unwrap();
        let ident = join_on(segs.skip(2), ':');
        let text = did_text(m, ident);
        assert(did_outcome(s) == Ok::<(Seq<char>, DidMethod), DidFault>((text, m)));
        assert(segs[2].len() > 0);
        lemma_split_nonempty(ident, ':');
        assert(split_on(ident, ':')[0] == segs[2]);
        lemma_join_split(ident, ':');
        assert(ident.len() > 0) by {
            if ident.len() == 0 {
                assert(ident =~= Seq::<char>::empty());
                assert(split_on(ident, ':') =~= seq![Seq::<char>::empty()]);
            }
        }
        assert forall|i: int| 0 <= i < ident.len() implies is_did_char(#[trigger] ident[i]) by {
            let start = segs[0].len() + segs[1].len() + 2;
            assert(ident[i] == t[start + i]);
        }
        assert forall|i: int| 0 <= i < text.len() implies is_did_char(#[trigger] text[i]) by {
            if i >= 8 {
                assert(text[i] == ident[i - 8]);
            }
        }
        assert(text.take(8) =~= (if m == DidMethod::Plc {
            seq!['d', 'i', 'd', ':', 'p', 'l', 'c', ':']
        } else {
            seq!['d', 'i', 'd', ':', 'w', 'e', 'b', ':']
        }));
        if m == DidMethod::Plc {
            assert forall|i: int| 0 <= i < text.len() implies #[trigger] text[i] != '%' by {
                if i >= 8 {
                    assert(text[i] == ident[i - 8]);
                }
            }
        }
    }
}

/// An identifier of ASCII letters, digits, `.`, `_` and `-` (such as a domain name) makes a
/// DID of either method: `did:<method>:<identifier>` parses to itself.
pub proof fn lemma_plain_identifier_parses(m: DidMethod, ident: Seq<char>)
    requires
        ident.len() > 0,
        forall|i: int|
            0 <= i < ident.len() ==> ('a' <= #[trigger] ident[i] <= 'z') || ('A' <= ident[i]
                <= 'Z') || ('0' <= ident[i] <= '9') || ident[i] == '.' || ident[i] == '_'
                || ident[i] == '-',
    ensures
        did_outcome(did_text(m, ident)) == Ok::<(Seq<char>, DidMethod), DidFault>(
            (did_text(m, ident), m),
        ),
{
    let text = did_text(m, ident);
    assert(text.skip(8) =~= ident);
    lemma_split_single(ident, ':');
    assert forall|k: int| 0 <= k < split_on(ident, ':').len() implies !ends_in_cut_escape(
        #[trigger] split_on(ident, ':')[k],
    ) by {
        assert(split_on(ident, ':')[k] == ident);
    }
    assert(!identifier_fault(m, ident));
    assert(valid_did(text, m));
    lemma_did_reparse(text, m);
}

} // verus!

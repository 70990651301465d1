//! Character classes, ASCII case folding and splitting on a separator,
//! as spec functions with their executable counterparts.
use vstd::prelude::*;

verus! {

/// `'0'..='9'`
pub open spec fn is_ascii_digit(c: char) -> bool {
    '0' <= c <= '9'
}

/// `'a'..='z'`
pub open spec fn is_ascii_lower(c: char) -> bool {
    'a' <= c <= 'z'
}

/// `'A'..='Z'`
pub open spec fn is_ascii_upper(c: char) -> bool {
    'A' <= c <= 'Z'
}

/// ASCII letters and digits, as `char::is_ascii_alphanumeric` classifies them.
pub open spec fn is_ascii_alphanumeric(c: char) -> bool {
    is_ascii_lower(c) || is_ascii_upper(c) || is_ascii_digit(c)
}

/// Every character is in the ASCII range.
pub open spec fn all_ascii(s: Seq<char>) -> bool {
    vstd::utf8::is_ascii_chars(s)
}

/// The ASCII lower-case counterpart of a character; every other character is unchanged.
pub open spec fn to_ascii_lower(c: char) -> char {
    if is_ascii_upper(c) {
        ((c as u32) + 32) as char
    } else {
        c
    }
}

/// A character sequence with every ASCII upper-case letter replaced by its lower-case one.
pub open spec fn lower(s: Seq<char>) -> Seq<char> {
    Seq::new(s.len(), |i: int| to_ascii_lower(s[i]))
}

/// The pieces of `s` between occurrences of `sep`, in order, as `str::split` yields them:
/// there is always at least one piece, and pieces may be empty.
pub open spec fn split_on(s: Seq<char>, sep: char) -> Seq<Seq<char>>
    decreases s.len(),
{
    if s.len() == 0 {
        seq![Seq::<char>::empty()]
    } else {
        let front = split_on(s.drop_last(), sep);
        if s.last() == sep {
            front.push(Seq::<char>::empty())
        } else {
            front.update(front.len() - 1, front.last().push(s.last()))
        }
    }
}

/// `split_on` never yields an empty list of pieces.
pub proof fn lemma_split_nonempty(s: Seq<char>, sep: char)
    ensures
        split_on(s, sep).len() >= 1,
    decreases s.len(),
{
    if s.len() > 0 {
        lemma_split_nonempty(s.drop_last(), sep);
    }
}

/// A property that holds of every character of `s` holds of every character of every
/// piece, and no piece holds the separator.
pub proof fn lemma_split_pieces(s: Seq<char>, sep: char, p: spec_fn(char) -> bool)
    requires
        forall|i: int| 0 <= i < s.len() ==> p(#[trigger] s[i]),
    ensures
        forall|k: int, j: int|
            0 <= k < split_on(s, sep).len() && 0 <= j < split_on(s, sep)[k].len() ==> p(
                #[trigger] split_on(s, sep)[k][j],
            ) && split_on(s, sep)[k][j] != sep,
    decreases s.len(),
{
    if s.len() > 0 {
        let d = s.drop_last();
        assert forall|i: int| 0 <= i < d.len() implies p(#[trigger] d[i]) by {
            assert(d[i] == s[i]);
        }
        lemma_split_pieces(d, sep, p);
        lemma_split_nonempty(d, sep);
        let front = split_on(d, sep);
        let pieces = split_on(s, sep);
        assert(p(s[s.len() - 1]));
        if s.last() == sep {
            assert forall|k: int, j: int|
                0 <= k < pieces.len() && 0 <= j < pieces[k].len() implies p(
                #[trigger] pieces[k][j],
            ) && pieces[k][j] != sep by {
                assert(k < front.len());
                assert(pieces[k] == front[k]);
            }
        } else {
            assert forall|k: int, j: int|
                0 <= k < pieces.len() && 0 <= j < pieces[k].len() implies p(
                #[trigger] pieces[k][j],
            ) && pieces[k][j] != sep by {
                if k == front.len() - 1 {
                    let l = front.last();
                    assert(pieces[k] == l.push(s.last()));
                    if j < l.len() {
                        assert(pieces[k][j] == front[k][j]);
                    }
                } else {
                    assert(pieces[k] == front[k]);
                }
            }
        }
    }
}

/// A property that holds of the separator and of every character of every piece holds of
/// every character of `s`.
pub proof fn lemma_split_covers(s: Seq<char>, sep: char, p: spec_fn(char) -> bool)
    requires
        p(sep),
        forall|k: int, j: int|
            0 <= k < split_on(s, sep).len() && 0 <= j < split_on(s, sep)[k].len() ==> p(
                #[trigger] split_on(s, sep)[k][j],
            ),
    ensures
        forall|i: int| 0 <= i < s.len() ==> p(#[trigger] s[i]),
    decreases s.len(),
{
    if s.len() > 0 {
        let d = s.drop_last();
        lemma_split_nonempty(d, sep);
        let front = split_on(d, sep);
        let pieces = split_on(s, sep);
        if s.last() == sep {
            assert forall|k: int, j: int|
                0 <= k < front.len() && 0 <= j < front[k].len() implies p(
                #[trigger] front[k][j],
            ) by {
                assert(pieces[k] == front[k]);
                assert(p(pieces[k][j]));
            }
        } else {
            assert forall|k: int, j: int|
                0 <= k < front.len() && 0 <= j < front[k].len() implies p(
                #[trigger] front[k][j],
            ) by {
                if k == front.len() - 1 {
                    assert(pieces[k] == front.last().push(s.last()));
                    assert(pieces[k][j] == front[k][j]);
                    assert(p(pieces[k][j]));
                } else {
                    assert(pieces[k] == front[k]);
                    assert(p(pieces[k][j]));
                }
            }
            let lk = pieces.len() - 1;
            assert(pieces[lk] == front.last().push(s.last()));
            assert(pieces[lk][pieces[lk].len() - 1] == s.last());
            assert(p(pieces[lk][pieces[lk].len() - 1]));
        }
        lemma_split_covers(d, sep, p);
        assert forall|i: int| 0 <= i < s.len() implies p(#[trigger] s[i]) by {
            if i < d.len() {
                assert(s[i] == d[i]);
            }
        }
    }
}

/// Splitting `a`, the separator, then `b`, gives the pieces of `a` followed by those of `b`.
pub proof fn lemma_split_concat(a: Seq<char>, b: Seq<char>, sep: char)
    ensures
        split_on(a + seq![sep] + b, sep) == split_on(a, sep) + split_on(b, sep),
    decreases b.len(),
{
    lemma_split_nonempty(a, sep);
    if b.len() == 0 {
        assert((a + seq![sep] + b).drop_last() =~= a);
        assert(split_on(a + seq![sep] + b, sep) =~= split_on(a, sep) + split_on(b, sep));
    } else {
        let s = a + seq![sep] + b;
        assert(s.drop_last() =~= a + seq![sep] + b.drop_last());
        lemma_split_concat(a, b.drop_last(), sep);
        lemma_split_nonempty(b.drop_last(), sep);
        let x = split_on(a, sep);
        let y = split_on(b.drop_last(), sep);
        assert(s.last() == b.last());
        if b.last() == sep {
            assert(split_on(s, sep) =~= x + y.push(Seq::<char>::empty()));
        } else {
            assert(split_on(s, sep) =~= x + y.update(y.len() - 1, y.last().push(b.last())));
        }
    }
}

/// A sequence without the separator is a single piece.
pub proof fn lemma_split_single(a: Seq<char>, sep: char)
    requires
        forall|i: int| 0 <= i < a.len() ==> a[i] != sep,
    ensures
        split_on(a, sep) == seq![a],
    decreases a.len(),
{
    if a.len() == 0 {
        assert(a =~= Seq::<char>::empty());
    } else {
        lemma_split_single(a.drop_last(), sep);
        assert(a.drop_last().push(a.last()) =~= a);
        assert(split_on(a, sep) =~= seq![a]);
    }
}

/// Lower-casing commutes with splitting on a separator that is not an ASCII letter.
pub proof fn lemma_split_lower(s: Seq<char>, sep: char)
    requires
        !is_ascii_upper(sep),
        !is_ascii_lower(sep),
    ensures
        split_on(lower(s), sep) =~= Seq::new(
            split_on(s, sep).len(),
            |k: int| lower(split_on(s, sep)[k]),
        ),
    decreases s.len(),
{
    lemma_split_nonempty(s, sep);
    if s.len() == 0 {
        assert(lower(s) =~= s);
        assert(lower(Seq::<char>::empty()) =~= Seq::<char>::empty());
    } else {
        let d = s.drop_last();
        assert(lower(s).drop_last() =~= lower(d));
        lemma_split_lower(d, sep);
        lemma_split_nonempty(d, sep);
        let front = split_on(d, sep);
        let c = s.last();
        assert(lower(s).last() == to_ascii_lower(c));
        assert(to_ascii_lower(c) == sep <==> c == sep) by {
            if is_ascii_upper(c) {
                lemma_lower_of_upper(c);
            }
        }
        if c == sep {
            assert(lower(Seq::<char>::empty()) =~= Seq::<char>::empty());
        } else {
            assert(lower(front.last().push(c)) =~= lower(front.last()).push(to_ascii_lower(c)));
        }
    }
}

/// The pieces joined with `sep` between them, as `[..].join(sep)` builds them.
pub open spec fn join_on(ps: Seq<Seq<char>>, sep: char) -> Seq<char>
    decreases ps.len(),
{
    if ps.len() == 0 {
        Seq::<char>::empty()
    } else if ps.len() == 1 {
        ps[0]
    } else {
        join_on(ps.drop_last(), sep) + seq![sep] + ps.last()
    }
}

/// Joining the pieces of `s` with the separator gives back `s`.
pub proof fn lemma_join_split(s: Seq<char>, sep: char)
    ensures
        join_on(split_on(s, sep), sep) == s,
    decreases s.len(),
{
    if s.len() == 0 {
        assert(s =~= Seq::<char>::empty());
    } else {
        let d = s.drop_last();
        lemma_join_split(d, sep);
        lemma_split_nonempty(d, sep);
        let front = split_on(d, sep);
        if s.last() == sep {
            let ps = front.push(Seq::<char>::empty());
            assert(ps.drop_last() =~= front);
            assert(join_on(ps, sep) =~= s);
        } else {
            let ps = front.update(front.len() - 1, front.last().push(s.last()));
            if front.len() == 1 {
                assert(join_on(ps, sep) =~= s);
            } else {
                assert(ps.drop_last() =~= front.drop_last());
                assert(ps.last() == front.last().push(s.last()));
                assert(join_on(front, sep) == join_on(front.drop_last(), sep) + seq![sep]
                    + front.last());
                assert(d.push(s.last()) =~= s);
                assert(join_on(ps, sep) =~= s);
            }
        }
    }
}

/// Joining two non-empty lists of pieces puts the separator between their joins.
pub proof fn lemma_join_concat(ps: Seq<Seq<char>>, qs: Seq<Seq<char>>, sep: char)
    requires
        ps.len() >= 1,
        qs.len() >= 1,
    ensures
        join_on(ps + qs, sep) == join_on(ps, sep) + seq![sep] + join_on(qs, sep),
    decreases qs.len(),
{
    if qs.len() == 1 {
        assert((ps + qs).drop_last() =~= ps);
    } else {
        lemma_join_concat(ps, qs.drop_last(), sep);
        assert((ps + qs).drop_last() =~= ps + qs.drop_last());
        assert(join_on(ps + qs, sep) =~= join_on(ps, sep) + seq![sep] + join_on(qs, sep));
    }
}

/// The join of pieces without the separator splits back into those pieces.
pub proof fn lemma_split_join(ps: Seq<Seq<char>>, sep: char)
    requires
        ps.len() >= 1,
        forall|k: int, j: int|
            0 <= k < ps.len() && 0 <= j < ps[k].len() ==> #[trigger] ps[k][j] != sep,
    ensures
        split_on(join_on(ps, sep), sep) == ps,
    decreases ps.len(),
{
    if ps.len() == 1 {
        lemma_split_single(ps[0], sep);
        assert(seq![ps[0]] =~= ps);
    } else {
        let front = ps.drop_last();
        assert forall|k: int, j: int|
            0 <= k < front.len() && 0 <= j < front[k].len() implies #[trigger] front[k][j]
            != sep by {
            assert(front[k] == ps[k]);
        }
        lemma_split_join(front, sep);
        let l = ps.last();
        assert forall|i: int| 0 <= i < l.len() implies l[i] != sep by {
            assert(ps[ps.len() - 1][i] != sep);
        }
        lemma_split_single(l, sep);
        lemma_split_concat(join_on(front, sep), l, sep);
        assert(front + seq![l] =~= ps);
    }
}

/// The join begins with the first piece.
pub proof fn lemma_join_front(ps: Seq<Seq<char>>, sep: char)
    requires
        ps.len() >= 1,
    ensures
        join_on(ps, sep).len() >= ps[0].len(),
        forall|i: int| 0 <= i < ps[0].len() ==> #[trigger] join_on(ps, sep)[i] == ps[0][i],
    decreases ps.len(),
{
    if ps.len() > 1 {
        lemma_join_front(ps.drop_last(), sep);
        assert(ps.drop_last()[0] == ps[0]);
        let j = join_on(ps.drop_last(), sep);
        assert forall|i: int| 0 <= i < ps[0].len() implies #[trigger] join_on(ps, sep)[i]
            == ps[0][i] by {
            assert(join_on(ps, sep)[i] == j[i]);
        }
    }
}

/// A text with at least three pieces is the first piece, the separator, the second piece,
/// the separator, and the join of the remaining pieces, which split back into themselves.
pub proof fn lemma_split_first_two(t: Seq<char>, sep: char)
    requires
        split_on(t, sep).len() >= 3,
    ensures
        ({
            let p = split_on(t, sep);
            &&& t == p[0] + seq![sep] + p[1] + seq![sep] + join_on(p.skip(2), sep)
            &&& split_on(join_on(p.skip(2), sep), sep) == p.skip(2)
        }),
{
    let p = split_on(t, sep);
    lemma_join_split(t, sep);
    assert(p =~= p.take(2) + p.skip(2));
    lemma_join_concat(p.take(2), p.skip(2), sep);
    let two = p.take(2);
    assert(two.drop_last() =~= seq![p[0]]);
    assert(join_on(seq![p[0]], sep) == p[0]);
    assert(two.last() == p[1]);
    assert(join_on(two, sep) == join_on(two.drop_last(), sep) + seq![sep] + two.last());
    assert(join_on(two, sep) == p[0] + seq![sep] + p[1]);
    lemma_split_pieces(t, sep, |c: char| true);
    let rest = p.skip(2);
    assert forall|k: int, j: int|
        0 <= k < rest.len() && 0 <= j < rest[k].len() implies #[trigger] rest[k][j] != sep by {
        assert(rest[k] == p[k + 2]);
        assert(p[k + 2][j] != sep);
    }
    lemma_split_join(rest, sep);
}

/// The lower-case counterpart of an upper-case ASCII letter is a lower-case ASCII letter.
pub proof fn lemma_lower_of_upper(c: char)
    requires
        is_ascii_upper(c),
    ensures
        is_ascii_lower(to_ascii_lower(c)),
{
    let u = (c as u32) + 32;
    assert(97 <= u <= 122);
    assert((u as char) as u32 == u);
}

/// Calls `str::to_ascii_lowercase`: its documentation says that it maps `'A'..='Z'` to
/// `'a'..='z'` and leaves every other character unchanged.
#[verifier::external_body]
pub(crate) fn ascii_lowercase(s: &str) -> (r: String)
    ensures
        r@ == lower(s@),
{
    s.to_ascii_lowercase()
}

/// The number of characters of an ASCII string (its length in bytes).
pub fn ascii_len(s: &str) -> (n: usize)
    requires
        all_ascii(s@),
    ensures
        n == s@.len(),
{
    proof {
        vstd::string::is_ascii_spec_bytes(s);
    }
    s.as_bytes().len()
}

/// The pieces of an ASCII string between occurrences of `sep`, as `str::split` yields them.
pub fn split_ascii(s: &str, sep: u8) -> (r: Vec<String>)
    requires
        all_ascii(s@),
        sep < 128,
    ensures
        r.deep_view() == split_on(s@, sep as char),
{
    let n = ascii_len(s);
    let mut out: Vec<String> = Vec::new();
    let mut start: usize = 0;
    let mut i: usize = 0;
    assert(s@.take(0) =~= Seq::<char>::empty());
    assert(s@.subrange(0, 0) =~= Seq::<char>::empty());
    while i < n
        invariant
            n == s@.len(),
            all_ascii(s@),
            sep < 128,
            start <= i <= n,
            out.deep_view() + seq![s@.subrange(start as int, i as int)] == split_on(
                s@.take(i as int),
                sep as char,
            ),
        decreases n - i,
    {
        let b = s.get_ascii(i);
        let ghost c = s@[i as int];
        let ghost prev = out.deep_view();
        assert(s@.take(i + 1).drop_last() =~= s@.take(i as int));
        assert(s@.take(i + 1).last() == c);
        assert(c <= '\u{7f}');
        if b == sep {
            assert(c == sep as char);
            let ghost old_start = start;
            let piece = s.substring_ascii(start, i).to_owned();
            out.push(piece);
            start = i + 1;
            assert(out.deep_view() =~= prev.push(s@.subrange(old_start as int, i as int)));
            assert(s@.subrange(start as int, start as int) =~= Seq::<char>::empty());
            assert(out.deep_view() + seq![s@.subrange(start as int, i + 1)] =~= split_on(
                s@.take(i + 1),
                sep as char,
            ));
        } else {
            assert(c != sep as char);
            assert(s@.subrange(start as int, i + 1) =~= s@.subrange(start as int, i as int).push(
                c,
            ));
            assert(out.deep_view() + seq![s@.subrange(start as int, i + 1)] =~= split_on(
                s@.take(i + 1),
                sep as char,
            ));
        }
        i = i + 1;
    }
    let ghost prev = out.deep_view();
    let last = s.substring_ascii(start, n).to_owned();
    out.push(last);
    assert(s@.take(n as int) =~= s@);
    assert(out.deep_view() =~= prev + seq![s@.subrange(start as int, n as int)]);
    out
}

} // verus!

//! Character-level string helpers used by the parsers of this crate.
use vstd::prelude::*;
use vstd::string::StrSliceExecFns;

verus! {

/// The Unicode `White_Space` property (what `char::is_whitespace` and
/// `str::trim` use).
pub open spec fn is_white_space(c: char) -> bool {
    ||| '\u{9}' <= c <= '\u{d}'
    ||| c == ' '
    ||| c == '\u{85}'
    ||| c == '\u{a0}'
    ||| c == '\u{1680}'
    ||| '\u{2000}' <= c <= '\u{200a}'
    ||| c == '\u{2028}'
    ||| c == '\u{2029}'
    ||| c == '\u{202f}'
    ||| c == '\u{205f}'
    ||| c == '\u{3000}'
}

pub fn is_whitespace(c: char) -> (r: bool)
    ensures
        r == is_white_space(c),
{
    ('\u{9}' <= c && c <= '\u{d}') || c == ' ' || c == '\u{85}' || c == '\u{a0}' || c
        == '\u{1680}' || ('\u{2000}' <= c && c <= '\u{200a}') || c == '\u{2028}' || c == '\u{2029}'
        || c == '\u{202f}' || c == '\u{205f}' || c == '\u{3000}'
}

/// The general category `Cc` (what `char::is_control` tests).
pub open spec fn is_control_char(c: char) -> bool {
    c <= '\u{1f}' || ('\u{7f}' <= c && c <= '\u{9f}')
}

pub fn is_control(c: char) -> (r: bool)
    ensures
        r == is_control_char(c),
{
    c <= '\u{1f}' || ('\u{7f}' <= c && c <= '\u{9f}')
}

/// `s` without leading white space.
pub open spec fn trim_start(s: Seq<char>) -> Seq<char>
    decreases s.len(),
{
    if s.len() > 0 && is_white_space(s[0]) {
        trim_start(s.drop_first())
    } else {
        s
    }
}

/// `s` without trailing white space.
pub open spec fn trim_end(s: Seq<char>) -> Seq<char>
    decreases s.len(),
{
    if s.len() > 0 && is_white_space(s.last()) {
        trim_end(s.drop_last())
    } else {
        s
    }
}

/// What `str::trim` gives.
pub open spec fn trim(s: Seq<char>) -> Seq<char> {
    trim_end(trim_start(s))
}

/// What `str::split` with a single character separator gives: the pieces
/// between separators, in order (there is always at least one).
pub open spec fn split(s: Seq<char>, sep: char) -> Seq<Seq<char>>
    decreases s.len(),
{
    if s.len() == 0 {
        seq![Seq::<char>::empty()]
    } else {
        let parts = split(s.drop_last(), sep);
        if s.last() == sep {
            parts.push(Seq::<char>::empty())
        } else {
            parts.update(parts.len() - 1, parts.last().push(s.last()))
        }
    }
}

pub open spec fn nonempty(s: Seq<char>) -> bool {
    s.len() > 0
}

/// A comma separated list: the trimmed pieces that are not empty, in order.
pub open spec fn comma_list(s: Seq<char>) -> Seq<Seq<char>> {
    split(s, ',').map_values(|p: Seq<char>| trim(p)).filter(|p: Seq<char>| nonempty(p))
}

pub open spec fn starts_with(s: Seq<char>, prefix: Seq<char>) -> bool {
    prefix.len() <= s.len() && s.take(prefix.len() as int) == prefix
}

pub open spec fn strings_view(v: Seq<String>) -> Seq<Seq<char>> {
    v.map_values(|s: String| s@)
}

/// `String::push`: appends one character.
#[verifier::external_body]
pub(crate) fn string_push(s: &mut String, c: char)
    ensures
        final(s)@ == old(s)@.push(c),
{
    s.push(c)
}

/// The characters of `s`.
pub fn chars_of(s: &str) -> (r: Vec<char>)
    ensures
        r@ == s@,
{
    let n = s.unicode_len();
    let mut r: Vec<char> = Vec::new();
    let mut i: usize = 0;
    while i < n
        invariant
            n == s@.len(),
            i <= n,
            r@ == s@.take(i as int),
        decreases n - i,
    {
        r.push(s.get_char(i));
        proof {
            assert(r@ =~= s@.take(i as int + 1));
        }
        i = i + 1;
    }
    proof {
        assert(r@ =~= s@);
    }
    r
}

/// The string made of `cs[lo..hi]`.
pub fn string_of(cs: &Vec<char>, lo: usize, hi: usize) -> (r: String)
    requires
        lo <= hi <= cs@.len(),
    ensures
        r@ == cs@.subrange(lo as int, hi as int),
{
    let mut r = String::new();
    let mut i = lo;
    while i < hi
        invariant
            lo <= i <= hi <= cs@.len(),
            r@ == cs@.subrange(lo as int, i as int),
        decreases hi - i,
    {
        string_push(&mut r, cs[i]);
        proof {
            assert(r@ =~= cs@.subrange(lo as int, i as int + 1));
        }
        i = i + 1;
    }
    r
}

/// Appends the characters of `t` to `s`.
pub fn push_str(s: &mut String, t: &str)
    ensures
        final(s)@ == old(s)@ + t@,
{
    let cs = chars_of(t);
    let mut i: usize = 0;
    while i < cs.len()
        invariant
            i <= cs@.len(),
            cs@ == t@,
            s@ == old(s)@ + t@.take(i as int),
        decreases cs@.len() - i,
    {
        string_push(s, cs[i]);
        proof {
            assert(s@ =~= old(s)@ + t@.take(i as int + 1));
        }
        i = i + 1;
    }
    proof {
        assert(t@.take(t@.len() as int) =~= t@);
    }
}

/// Whether `s` starts with `prefix`.
pub fn str_starts_with(s: &str, prefix: &str) -> (r: bool)
    ensures
        r == starts_with(s@, prefix@),
{
    let n = s.unicode_len();
    let m = prefix.unicode_len();
    if m > n {
        return false;
    }
    let mut i: usize = 0;
    while i < m
        invariant
            n == s@.len(),
            m == prefix@.len(),
            m <= n,
            i <= m,
            forall|k: int| 0 <= k < i ==> s@[k] == prefix@[k],
        decreases m - i,
    {
        if s.get_char(i) != prefix.get_char(i) {
            proof {
                assert(s@.take(m as int)[i as int] != prefix@[i as int]);
            }
            return false;
        }
        i = i + 1;
    }
    proof {
        assert(s@.take(m as int) =~= prefix@);
    }
    true
}

/// The bounds `[lo, hi)` of `cs[from..to]` without leading and trailing white space.
pub(crate) fn trim_bounds(cs: &Vec<char>, from: usize, to: usize) -> (r: (usize, usize))
    requires
        from <= to <= cs@.len(),
    ensures
        from <= r.0 <= r.1 <= to,
        cs@.subrange(r.0 as int, r.1 as int) == trim(cs@.subrange(from as int, to as int)),
{
    let mut lo = from;
    while lo < to && is_whitespace(cs[lo])
        invariant
            from <= lo <= to <= cs@.len(),
            trim_start(cs@.subrange(from as int, to as int)) == trim_start(
                cs@.subrange(lo as int, to as int),
            ),
        decreases to - lo,
    {
        proof {
            assert(cs@.subrange(lo as int, to as int).drop_first() =~= cs@.subrange(
                lo as int + 1,
                to as int,
            ));
        }
        lo = lo + 1;
    }
    proof {
        assert(trim_start(cs@.subrange(lo as int, to as int)) == cs@.subrange(lo as int, to as int));
    }
    let mut hi = to;
    while hi > lo && is_whitespace(cs[hi - 1])
        invariant
            from <= lo <= hi <= to <= cs@.len(),
            trim_end(cs@.subrange(lo as int, to as int)) == trim_end(
                cs@.subrange(lo as int, hi as int),
            ),
        decreases hi - lo,
    {
        proof {
            assert(cs@.subrange(lo as int, hi as int).drop_last() =~= cs@.subrange(
                lo as int,
                hi as int - 1,
            ));
        }
        hi = hi - 1;
    }
    (lo, hi)
}

/// Splits `s` at commas, trims each piece and drops the empty ones.
pub fn comma_separated(s: &str) -> (r: Vec<String>)
    ensures
        strings_view(r@) == comma_list(s@),
{
    let cs = chars_of(s);
    let n = cs.len();
    let mut out: Vec<String> = Vec::new();
    let mut start: usize = 0;
    let mut i: usize = 0;
    let ghost f = |p: Seq<char>| trim(p);
    let ghost keep = |p: Seq<char>| nonempty(p);
    proof {
        assert(s@.take(0) =~= Seq::<char>::empty());
        assert(split(s@.take(0), ',').drop_last().map_values(f) =~= Seq::<Seq<char>>::empty());
        reveal_with_fuel(Seq::<_>::filter, 1);
    }
    while i < n
        invariant
            cs@ == s@,
            n == s@.len(),
            start <= i <= n,
            f == (|p: Seq<char>| trim(p)),
            keep == (|p: Seq<char>| nonempty(p)),
            split(s@.take(i as int), ',').last() == s@.subrange(start as int, i as int),
            split(s@.take(i as int), ',').len() >= 1,
            strings_view(out@) == split(s@.take(i as int), ',').drop_last().map_values(f).filter(
                keep,
            ),
        decreases n - i,
    {
        let ghost parts = split(s@.take(i as int), ',');
        proof {
            assert(s@.take(i as int + 1).drop_last() =~= s@.take(i as int));
            assert(s@.take(i as int + 1).last() == cs@[i as int]);
        }
        if cs[i] == ',' {
            let (lo, hi) = trim_bounds(&cs, start, i);
            let ghost piece = cs@.subrange(start as int, i as int);
            proof {
                let next = split(s@.take(i as int + 1), ',');
                assert(next == parts.push(Seq::<char>::empty()));
                assert(next.drop_last() =~= parts);
                assert(parts =~= parts.drop_last().push(piece));
                assert(parts.map_values(f) =~= parts.drop_last().map_values(f).push(trim(piece)));
                reveal_with_fuel(Seq::<_>::filter, 1);
                assert(parts.map_values(f).drop_last() =~= parts.drop_last().map_values(f));
            }
            if lo < hi {
                let t = string_of(&cs, lo, hi);
                out.push(t);
                proof {
                    assert(strings_view(out@) =~= strings_view(out@.drop_last()).push(t@));
                }
            }
            start = i + 1;
            proof {
                assert(s@.subrange(start as int, i as int + 1) =~= Seq::<char>::empty());
            }
        } else {
            proof {
                let next = split(s@.take(i as int + 1), ',');
                assert(next.drop_last() =~= parts.drop_last());
                assert(next.last() =~= s@.subrange(start as int, i as int + 1));
            }
        }
        i = i + 1;
    }
    let (lo, hi) = trim_bounds(&cs, start, n);
    proof {
        let parts = split(s@.take(n as int), ',');
        assert(s@.take(n as int) =~= s@);
        let piece = cs@.subrange(start as int, n as int);
        assert(parts =~= parts.drop_last().push(piece));
        assert(parts.map_values(f) =~= parts.drop_last().map_values(f).push(trim(piece)));
        reveal_with_fuel(Seq::<_>::filter, 1);
        assert(parts.map_values(f).drop_last() =~= parts.drop_last().map_values(f));
    }
    if lo < hi {
        let t = string_of(&cs, lo, hi);
        out.push(t);
        proof {
            assert(strings_view(out@) =~= strings_view(out@.drop_last()).push(t@));
        }
    }
    out
}


/// Whether `a` and `b` hold the same characters.
pub fn str_eq(a: &str, b: &str) -> (r: bool)
    ensures
        r == (a@ == b@),
{
    let n = a.unicode_len();
    if n != b.unicode_len() {
        return false;
    }
    let mut i: usize = 0;
    while i < n
        invariant
            n == a@.len(),
            n == b@.len(),
            i <= n,
            forall|k: int| 0 <= k < i ==> a@[k] == b@[k],
        decreases n - i,
    {
        if a.get_char(i) != b.get_char(i) {
            return false;
        }
        i = i + 1;
    }
    proof {
        assert(a@ =~= b@);
    }
    true
}

/// A copy of `v[lo..hi]`.
pub fn sub_vec(v: &Vec<char>, lo: usize, hi: usize) -> (r: Vec<char>)
    requires
        lo <= hi <= v@.len(),
    ensures
        r@ == v@.subrange(lo as int, hi as int),
{
    let mut r: Vec<char> = Vec::new();
    let mut i = lo;
    while i < hi
        invariant
            lo <= i <= hi <= v@.len(),
            r@ == v@.subrange(lo as int, i as int),
        decreases hi - i,
    {
        r.push(v[i]);
        proof {
            assert(r@ =~= v@.subrange(lo as int, i as int + 1));
        }
        i = i + 1;
    }
    r
}

/// `parts` joined with `sep` between each two of them.
pub open spec fn joined_with(parts: Seq<Seq<char>>, sep: char) -> Seq<char>
    decreases parts.len(),
{
    if parts.len() == 0 {
        Seq::empty()
    } else if parts.len() == 1 {
        parts[0]
    } else {
        joined_with(parts.drop_last(), sep) + seq![sep] + parts.last()
    }
}

/// Splitting cuts at every separator and nowhere else: there is always a
/// piece, no piece holds the separator, and joining the pieces with it
/// gives the text back.
pub proof fn law_split_then_join(s: Seq<char>, sep: char)
    ensures
        split(s, sep).len() >= 1,
        forall|i: int, j: int|
            0 <= i < split(s, sep).len() && 0 <= j < split(s, sep)[i].len() ==> #[trigger] split(s, sep)[i][j] != sep,
        joined_with(split(s, sep), sep) == s,
    decreases s.len(),
{
    if s.len() == 0 {
        assert(split(s, sep) =~= seq![Seq::<char>::empty()]);
    } else {
        let p = s.drop_last();
        let c = s.last();
        law_split_then_join(p, sep);
        let parts = split(p, sep);
        let new = split(s, sep);
        assert(p.push(c) =~= s);
        if c == sep {
            assert(new == parts.push(Seq::<char>::empty()));
            assert(new.drop_last() =~= parts);
            assert(joined_with(parts, sep) + seq![sep] + Seq::<char>::empty() =~= s);
            assert forall|i: int, j: int| 0 <= i < new.len() && 0 <= j < new[i].len() implies #[trigger] new[i][j] != sep by {
                if i < parts.len() {
                    assert(new[i] == parts[i]);
                }
            }
        } else {
            let x = parts.last().push(c);
            assert(new == parts.update(parts.len() - 1, x));
            assert(new.drop_last() =~= parts.drop_last());
            assert(new.last() == x);
            if parts.len() == 1 {
                assert(joined_with(new, sep) == x);
            } else {
                assert(joined_with(parts.drop_last(), sep) + seq![sep] + x =~= (joined_with(parts.drop_last(), sep)
                    + seq![sep] + parts.last()).push(c));
            }
            assert forall|i: int, j: int| 0 <= i < new.len() && 0 <= j < new[i].len() implies #[trigger] new[i][j] != sep by {
                if i < parts.len() - 1 {
                    assert(new[i] == parts[i]);
                } else {
                    if j < parts.last().len() {
                        assert(new[i][j] == parts[parts.len() - 1][j]);
                    }
                }
            }
        }
    }
}

/// A split always has at least one piece.
pub proof fn lemma_split_nonempty(s: Seq<char>, sep: char)
    ensures
        split(s, sep).len() >= 1,
    decreases s.len(),
{
    if s.len() > 0 {
        lemma_split_nonempty(s.drop_last(), sep);
    }
}


/// Without the separator, a string is one piece.
pub proof fn lemma_split_no_sep(s: Seq<char>, sep: char)
    requires
        !s.contains(sep),
    ensures
        split(s, sep) == seq![s],
    decreases s.len(),
{
    if s.len() > 0 {
        assert(!s.drop_last().contains(sep)) by {
            if s.drop_last().contains(sep) {
                let k = choose|k: int| 0 <= k < s.drop_last().len() && s.drop_last()[k] == sep;
                assert(s[k] == sep);
            }
        }
        lemma_split_no_sep(s.drop_last(), sep);
        assert(s.last() != sep) by {
            assert(s[s.len() - 1] == s.last());
        }
        assert(s.drop_last().push(s.last()) =~= s);
        assert(split(s, sep) =~= seq![s]);
    } else {
        assert(s =~= Seq::<char>::empty());
    }
}

/// A piece without the separator, the separator, then the rest: the piece
/// comes first.
pub proof fn lemma_split_concat(s1: Seq<char>, s2: Seq<char>, sep: char)
    requires
        !s1.contains(sep),
    ensures
        split(s1 + seq![sep] + s2, sep) == seq![s1] + split(s2, sep),
    decreases s2.len(),
{
    let t = s1 + seq![sep] + s2;
    if s2.len() == 0 {
        assert(t =~= s1.push(sep));
        assert(t.drop_last() =~= s1);
        lemma_split_no_sep(s1, sep);
        assert(split(s2, sep) =~= seq![Seq::<char>::empty()]);
        assert(split(t, sep) =~= seq![s1] + split(s2, sep));
    } else {
        lemma_split_concat(s1, s2.drop_last(), sep);
        assert(t.drop_last() =~= s1 + seq![sep] + s2.drop_last());
        assert(t.last() == s2.last());
        let inner = split(s2.drop_last(), sep);
        lemma_split_nonempty(s2.drop_last(), sep);
        if s2.last() == sep {
            assert(split(t, sep) =~= seq![s1] + split(s2, sep));
        } else {
            assert((seq![s1] + inner).update(inner.len() as int, (seq![s1] + inner).last().push(
                s2.last(),
            )) =~= seq![s1] + inner.update(inner.len() - 1, inner.last().push(s2.last())));
            assert(split(t, sep) =~= seq![s1] + split(s2, sep));
        }
    }
}

/// A separator and a piece without it appended: the piece comes last.
pub proof fn lemma_split_append(s: Seq<char>, b: Seq<char>, sep: char)
    requires
        !b.contains(sep),
    ensures
        split(s + seq![sep] + b, sep) == split(s, sep).push(b),
    decreases b.len(),
{
    let t = s + seq![sep] + b;
    if b.len() == 0 {
        assert(t =~= s.push(sep));
        assert(t.drop_last() =~= s);
        assert(b =~= Seq::<char>::empty());
    } else {
        let b2 = b.drop_last();
        assert(!b2.contains(sep)) by {
            if b2.contains(sep) {
                let k = choose|k: int| 0 <= k < b2.len() && b2[k] == sep;
                assert(b[k] == sep);
            }
        }
        lemma_split_append(s, b2, sep);
        assert(t.drop_last() =~= s + seq![sep] + b2);
        assert(b.last() != sep) by {
            assert(b[b.len() - 1] == b.last());
        }
        let inner = split(s, sep).push(b2);
        assert(b2.push(b.last()) =~= b);
        assert(inner.last() == b2);
        assert(inner.update(inner.len() - 1, inner.last().push(b.last())) =~= split(s, sep).push(b));
    }
}

/// Filtering by a property every element has keeps the sequence.
pub proof fn lemma_filter_keeps_every<A>(s: Seq<A>, pred: spec_fn(A) -> bool)
    requires
        forall|k: int| 0 <= k < s.len() ==> pred(#[trigger] s[k]),
    ensures
        s.filter(pred) == s,
    decreases s.len(),
{
    reveal_with_fuel(Seq::<_>::filter, 1);
    if s.len() > 0 {
        let t = s.drop_last();
        assert forall|k: int| 0 <= k < t.len() implies pred(#[trigger] t[k]) by {
            assert(t[k] == s[k]);
        }
        lemma_filter_keeps_every(t, pred);
        assert(pred(s[s.len() - 1]));
        assert(s =~= t.push(s.last()));
    }
}

} // verus!

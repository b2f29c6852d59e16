//! Splitting an input line into the byte ranges of its columns: by a
//! delimiter regex (or by its capture groups, named after columns or taken
//! in order), by a sequence of regexes, or not at all.
use vstd::prelude::*;

use crate::strings::{chars_of, str_eq, string_of, trim, trim_bounds};
use vstd::string::StringSliceAdditionalSpecFns;

verus! {

#[verifier::external_type_specification]
#[verifier::external_body]
pub struct ExRegex(regex::Regex);

/// A regex together with the pattern it was built from; built only by
/// [`SplitRegex::new`], so the regex is always the one `Regex::new` makes
/// of the pattern.
pub struct SplitRegex {
    pattern: String,
    re: regex::Regex,
}

impl View for SplitRegex {
    type V = Seq<char>;

    /// The pattern.
    closed spec fn view(&self) -> Seq<char> {
        self.pattern@
    }
}

/// Whether `Regex::new` accepts the pattern `p`.
pub uninterp spec fn regex_compiles(p: Seq<char>) -> bool;

/// The byte spans of `Regex::find_iter` of the pattern `p` on `hay`.
pub uninterp spec fn regex_match_spans(p: Seq<char>, hay: Seq<char>) -> Seq<(usize, usize)>;

/// The byte span, relative to `start`, of the first match of the pattern
/// `p` in `hay` from byte `start` on.
pub uninterp spec fn regex_tail_match(p: Seq<char>, hay: Seq<char>, start: usize) -> Option<(usize, usize)>;

/// The byte spans of the groups of the pattern `p`'s first match in `hay`
/// (`None` for a group that took no part), if it matches.
pub uninterp spec fn regex_group_spans(p: Seq<char>, hay: Seq<char>) -> Option<Seq<Option<(usize, usize)>>>;

/// The names of the pattern `p`'s groups, group 0 first.
pub uninterp spec fn regex_group_names(p: Seq<char>) -> Seq<Option<Seq<char>>>;

/// The number of the pattern `p`'s groups, group 0 included.
pub uninterp spec fn regex_group_count(p: Seq<char>) -> usize;

/// `Regex::new(p)` (regex): the regex, `None` where the pattern is refused.
#[verifier::external_body]
fn regex_new(p: &str) -> (r: Option<regex::Regex>)
    ensures
        r is Some <==> regex_compiles(p@),
{
    regex::Regex::new(p).ok()
}

impl SplitRegex {
    /// The regex of `pattern`; `None` where the pattern is refused.
    pub fn new(pattern: &str) -> (r: Option<SplitRegex>)
        ensures
            r is Some <==> regex_compiles(pattern@),
            r matches Some(x) ==> x@ == pattern@,
    {
        match regex_new(pattern) {
            Some(re) => {
                let cs = chars_of(pattern);
                let p = string_of(&cs, 0, cs.len());
                proof {
                    assert(p@ =~= pattern@);
                }
                Some(SplitRegex { pattern: p, re })
            },
            None => None,
        }
    }
}

/// How a line is split into columns.
pub enum Split {
    /// Split by a delimiter regex, or by its capture groups when it has any.
    Delimiter(SplitRegex),
    /// Each column is the next match of the next regex.
    Regexes(Vec<SplitRegex>),
    /// One column: the whole line.
    NoSplit,
}

/// Whether byte spans lie within `len`, in order, without overlapping.
pub open spec fn spans_ok(ms: Seq<(usize, usize)>, len: nat) -> bool {
    forall|k: int|
        0 <= k < ms.len() ==> #[trigger] ms[k].0 <= ms[k].1 <= len && (k > 0 ==> ms[k - 1].1 <= ms[k].0)
}

/// `Regex::find_iter(s)` (regex) as byte spans: the successive
/// non-overlapping matches in `s`, in order, each within `s`.
#[verifier::external_body]
fn regex_find_all(re: &SplitRegex, s: &str) -> (r: Vec<(usize, usize)>)
    ensures
        r@ == regex_match_spans(re@, s@),
        spans_ok(r@, s.spec_bytes().len()),
{
    re.re.find_iter(s).map(|m| (m.start(), m.end())).collect()
}

/// `Regex::find(&s[start..])` (regex) as a byte span of that tail: the
/// first match, if any; its offsets fall on character boundaries of the
/// tail, so its end is one of `s`.
#[verifier::external_body]
fn regex_find_from(re: &SplitRegex, s: &str, start: usize) -> (r: Option<(usize, usize)>)
    requires
        start <= s.spec_bytes().len(),
        vstd::utf8::is_char_boundary(s.spec_bytes(), start as int),
    ensures
        r == regex_tail_match(re@, s@, start),
        r matches Some(m) ==> m.0 <= m.1 && start + m.1 <= s.spec_bytes().len()
            && vstd::utf8::is_char_boundary(s.spec_bytes(), start + m.1),
{
    re.re.find(&s[start..]).map(|m| (m.start(), m.end()))
}

/// `Regex::captures(s)` (regex) as the span of each group (`None` for a
/// group that took no part); `None` when the regex does not match. Each
/// span lies within `s`.
#[verifier::external_body]
fn regex_captures(re: &SplitRegex, s: &str) -> (r: Option<Vec<Option<(usize, usize)>>>)
    ensures
        groups_view(r) == regex_group_spans(re@, s@),
        r matches Some(gs) ==> forall|g: int|
            0 <= g < gs@.len() ==> (#[trigger] gs@[g] matches Some(m) ==> m.0 <= m.1 <= s.spec_bytes().len()),
{
    re.re.captures(s).map(|caps| caps.iter().map(|g| g.map(|m| (m.start(), m.end()))).collect())
}

/// `Regex::capture_names()` (regex): the name of each group, group 0 (the
/// whole match, unnamed) first; one name for each group.
#[verifier::external_body]
fn regex_capture_names(re: &SplitRegex) -> (r: Vec<Option<String>>)
    ensures
        names_view(r@) == regex_group_names(re@),
        r@.len() == regex_group_count(re@),
        r@.len() >= 1 && r@[0] is None,
{
    re.re.capture_names().map(|n| n.map(|s| s.to_string())).collect()
}

/// `Regex::captures_len()` (regex): the number of groups, group 0 included,
/// so at least 1.
#[verifier::external_body]
fn regex_captures_len(re: &SplitRegex) -> (r: usize)
    ensures
        r == regex_group_count(re@),
        r >= 1,
{
    re.re.captures_len()
}

/// The spans of the groups, if the regex matched.
pub open spec fn groups_view(caps: Option<Vec<Option<(usize, usize)>>>) -> Option<Seq<Option<(usize, usize)>>> {
    match caps {
        Some(gs) => Some(gs@),
        None => None,
    }
}

/// `(0, 0)` for each of `n` columns.
pub open spec fn zero_ranges(n: nat) -> Seq<(u32, u32)> {
    Seq::new(n, |i: int| (0u32, 0u32))
}

/// A byte span as the pair of `u32` the columns keep.
pub open spec fn span32(m: (usize, usize)) -> (u32, u32) {
    (m.0 as u32, m.1 as u32)
}

/// The first column named `nm`.
pub open spec fn first_index(cols: Seq<Seq<char>>, nm: Seq<char>) -> Option<nat>
    decreases cols.len(),
{
    if cols.len() == 0 {
        None
    } else {
        match first_index(cols.drop_last(), nm) {
            Some(i) => Some(i),
            None => if cols.last() == nm {
                Some((cols.len() - 1) as nat)
            } else {
                None
            },
        }
    }
}

/// The names of the groups, as character sequences.
pub open spec fn names_view(names: Seq<Option<String>>) -> Seq<Option<Seq<char>>> {
    Seq::new(names.len(), |g: int| match names[g] {
        Some(s) => Some(s@),
        None => None,
    })
}

/// The column that group `g` fills: the first column named like the group
/// (none for group 0).
pub open spec fn group_column(names: Seq<Option<Seq<char>>>, cols: Seq<Seq<char>>, g: int) -> Option<nat> {
    if g <= 0 || g >= names.len() {
        None
    } else {
        match names[g] {
            Some(nm) => first_index(cols, nm),
            None => None,
        }
    }
}

/// Whether some group past group 0 has a name.
pub open spec fn has_named(names: Seq<Option<Seq<char>>>) -> bool {
    exists|g: int| 1 <= g < names.len() && #[trigger] names[g] is Some
}

/// The ranges from named groups `1..g`: each group named after a column
/// that took part sets that column's range.
pub open spec fn named_ranges(
    groups: Seq<Option<(usize, usize)>>,
    names: Seq<Option<Seq<char>>>,
    cols: Seq<Seq<char>>,
    g: nat,
) -> Seq<(u32, u32)>
    decreases g,
{
    if g <= 1 {
        zero_ranges(cols.len())
    } else {
        let r = named_ranges(groups, names, cols, (g - 1) as nat);
        let gi = g - 1;
        match group_column(names, cols, gi) {
            Some(c) => if gi < groups.len() && groups[gi] is Some {
                r.update(c as int, span32(groups[gi].unwrap()))
            } else {
                r
            },
            None => r,
        }
    }
}

/// The ranges from unnamed groups: the `k` first columns take groups
/// `1..=k` in order, those that took part.
pub open spec fn unnamed_ranges(groups: Seq<Option<(usize, usize)>>, n: nat, k: nat) -> Seq<(u32, u32)>
    decreases k,
{
    if k == 0 {
        zero_ranges(n)
    } else {
        let r = unnamed_ranges(groups, n, (k - 1) as nat);
        if groups[k as int] is Some {
            r.update(k - 1, span32(groups[k as int].unwrap()))
        } else {
            r
        }
    }
}

/// The ranges between the first `t` delimiter matches: each column runs
/// from the end of the previous match (or 0) to the start of the next, the
/// last one to the end of the line.
pub open spec fn delimited_ranges(ms: Seq<(usize, usize)>, len: nat, t: nat) -> Seq<(u32, u32)> {
    Seq::new(
        t + 1,
        |k: int|
            {
                let from = if k == 0 {
                    0
                } else {
                    ms[k - 1].1 as int
                };
                if k < t {
                    (from as u32, ms[k].0 as u32)
                } else {
                    (from as u32, len as u32)
                }
            },
    )
}

/// How a delimiter regex splits a line of `len` bytes into the columns
/// `column_names`, given what the regex gives: the names of its groups,
/// the spans of its groups on the line (if it matches), its matches, and
/// its number of groups.
pub open spec fn delimiter_ranges(
    len: nat,
    column_names: Seq<String>,
    nv: Seq<Option<Seq<char>>>,
    groups: Option<Seq<Option<(usize, usize)>>>,
    ms: Seq<(usize, usize)>,
    glen: usize,
) -> Seq<(u32, u32)> {
    let cols = Seq::new(column_names.len(), |i: int| column_names[i]@);
    let n = column_names.len();
    if has_named(nv) {
        match groups {
            Some(gs) => named_ranges(gs, nv, cols, nv.len()),
            None => zero_ranges(n),
        }
    } else if glen > 1 {
        match groups {
            Some(gs) => unnamed_ranges(gs, n, unnamed_count(gs.len(), n)),
            None => zero_ranges(n),
        }
    } else {
        delimited_ranges(
            ms,
            len,
            if ms.len() < n - 1 {
                ms.len()
            } else {
                (n - 1) as nat
            },
        )
    }
}

/// The ranges from the regexes `pats` in turn on `line`: each column is the
/// match its regex finds from where the previous match ended, or `(0, 0)`;
/// with the byte where the last match ended.
pub open spec fn regexes_ranges(pats: Seq<Seq<char>>, line: Seq<char>) -> (Seq<(u32, u32)>, nat)
    decreases pats.len(),
{
    if pats.len() == 0 {
        (Seq::empty(), 0)
    } else {
        let p = regexes_ranges(pats.drop_last(), line);
        match regex_tail_match(pats.last(), line, p.1 as usize) {
            Some(m) => (p.0.push(((p.1 + m.0) as u32, (p.1 + m.1) as u32)), (p.1 + m.1) as nat),
            None => (p.0.push((0u32, 0u32)), p.1),
        }
    }
}

/// The patterns of the regexes.
pub open spec fn patterns(rgs: Seq<SplitRegex>) -> Seq<Seq<char>> {
    rgs.map_values(|x: SplitRegex| x@)
}

/// How many columns take unnamed groups: one per group past group 0, at
/// most one per column.
pub open spec fn unnamed_count(groups: nat, n: nat) -> nat {
    if groups >= 1 && groups - 1 < n {
        (groups - 1) as nat
    } else if groups >= 1 {
        n
    } else {
        0
    }
}

/// How `split` cuts a line of characters `line`, `len` bytes long, into the
/// ranges of the columns `column_names` (see [`split_line`]).
pub open spec fn split_spec(split: Split, line: Seq<char>, len: nat, column_names: Seq<String>) -> Seq<(u32, u32)> {
    match split {
        Split::NoSplit => seq![(0u32, len as u32)],
        Split::Delimiter(re) => delimiter_ranges(
            len,
            column_names,
            regex_group_names(re@),
            regex_group_spans(re@, line),
            regex_match_spans(re@, line),
            regex_group_count(re@),
        ),
        Split::Regexes(rgs) => regexes_ranges(
            patterns(rgs@).take(
                if rgs@.len() < column_names.len() {
                    rgs@.len() as int
                } else {
                    column_names.len() as int
                },
            ),
            line,
        ).0,
    }
}

/// Splits `line` into the byte ranges of the columns named `column_names`:
/// with a delimiter regex that has named groups, each group named after a
/// column gives that column's range (the others `(0, 0)`); with unnamed
/// groups, the columns take the groups in order; with no group, the line is
/// cut at the delimiter's first matches (one column fewer than there are
/// columns), the last column taking the rest. With a sequence of regexes,
/// each column is the next match of its regex after the previous one. With
/// no split, one range: the whole line. What the regexes match is the regex
/// crate's; the ranges are built from it as stated.
pub fn split_line(split: &Split, line: &str, column_names: &Vec<String>) -> (r: Vec<(u32, u32)>)
    requires
        split is Delimiter ==> column_names@.len() >= 1,
    ensures
        r@ == split_spec(*split, line@, line.spec_bytes().len(), column_names@),
{
    let n = column_names.len();
    let len = line.as_bytes().len();
    match split {
        Split::NoSplit => {
            let mut r: Vec<(u32, u32)> = Vec::new();
            r.push((0, len as u32));
            proof {
                assert(r@ =~= seq![(0u32, line.spec_bytes().len() as u32)]);
            }
            r
        },
        Split::Delimiter(re) => {
            let names = regex_capture_names(re);
            let glen = regex_captures_len(re);
            let ghost nv = names_view(names@);
            let ghost cols = Seq::new(column_names@.len(), |i: int| column_names@[i]@);
            let mut named = false;
            let mut g: usize = 1;
            while g < names.len()
                invariant
                    1 <= g || names@.len() == 0,
                    g <= names@.len() || names@.len() == 0,
                    nv == names_view(names@),
                    named == exists|h: int| 1 <= h < g && h < nv.len() && #[trigger] nv[h] is Some,
                decreases names@.len() - g,
            {
                proof {
                    assert(nv[g as int] is Some == names@[g as int] is Some);
                }
                if names[g].is_some() {
                    named = true;
                }
                g = g + 1;
            }
            proof {
                assert(named == has_named(nv));
            }
            let mut ranges: Vec<(u32, u32)> = Vec::new();
            let mut i: usize = 0;
            while i < n
                invariant
                    i <= n,
                    ranges@ == zero_ranges(n as nat).take(i as int),
                decreases n - i,
            {
                ranges.push((0, 0));
                proof {
                    assert(ranges@ =~= zero_ranges(n as nat).take(i + 1));
                }
                i = i + 1;
            }
            proof {
                assert(zero_ranges(n as nat).take(n as int) =~= zero_ranges(n as nat));
            }
            if named {
                let caps = regex_captures(re, line);
                let ghost gv = groups_view(caps);
                match &caps {
                    Some(gs) => {
                        let mut g: usize = 1;
                        proof {
                            assert(named_ranges(gs@, nv, cols, 1) == zero_ranges(n as nat));
                        }
                        while g < names.len()
                            invariant
                                1 <= g,
                                g <= names@.len(),
                                names@.len() >= 2,
                                nv == names_view(names@),
                                cols == Seq::new(column_names@.len(), |i: int| column_names@[i]@),
                                n == cols.len(),
                                ranges@ == named_ranges(gs@, nv, cols, g as nat),
                                ranges@.len() == n,
                            decreases names@.len() - g,
                        {
                            let col = match &names[g] {
                                Some(nm) => first_named(column_names, nm.as_str()),
                                None => None,
                            };
                            proof {
                                if names@[g as int] is Some {
                                    lemma_first_index_bound(cols, names@[g as int].unwrap()@);
                                }
                                assert(col == match group_column(nv, cols, g as int) {
                                    Some(c) => Some(c as usize),
                                    None => None::<usize>,
                                });
                            }
                            match col {
                                Some(c) => {
                                    if g < gs.len() {
                                        match gs[g] {
                                            Some(m) => {
                                                ranges.set(c, (m.0 as u32, m.1 as u32));
                                            },
                                            None => {},
                                        }
                                    }
                                },
                                None => {},
                            }
                            proof {
                                assert(named_ranges(gs@, nv, cols, (g + 1) as nat) == match group_column(
                                    nv,
                                    cols,
                                    g as int,
                                ) {
                                    Some(c) => if (g as int) < gs@.len() && gs@[g as int] is Some {
                                        named_ranges(gs@, nv, cols, g as nat).update(
                                            c as int,
                                            span32(gs@[g as int].unwrap()),
                                        )
                                    } else {
                                        named_ranges(gs@, nv, cols, g as nat)
                                    },
                                    None => named_ranges(gs@, nv, cols, g as nat),
                                });
                            }
                            g = g + 1;
                        }
                        proof {
                            assert(g == nv.len());
                        }
                    },
                    None => {},
                }
                proof {
                    assert(has_named(nv));
                    assert(ranges@ == delimiter_ranges(line.spec_bytes().len(), column_names@, nv, gv, regex_match_spans(re@, line@), glen));
                }
                ranges
            } else if glen > 1 {
                let caps = regex_captures(re, line);
                let ghost gv = groups_view(caps);
                match &caps {
                    Some(gs) => {
                        let k_max: usize = if gs.len() >= 1 && gs.len() - 1 < n {
                            gs.len() - 1
                        } else if gs.len() >= 1 {
                            n
                        } else {
                            0
                        };
                        let mut k: usize = 0;
                        proof {
                            assert(k_max == unnamed_count(gs@.len(), n as nat));
                        }
                        while k < k_max
                            invariant
                                k <= k_max,
                                k_max <= n,
                                k_max < gs@.len() || k_max == 0,
                                ranges@ == unnamed_ranges(gs@, n as nat, k as nat),
                                ranges@.len() == n,
                            decreases k_max - k,
                        {
                            match gs[k + 1] {
                                Some(m) => {
                                    ranges.set(k, (m.0 as u32, m.1 as u32));
                                },
                                None => {},
                            }
                            k = k + 1;
                        }
                    },
                    None => {},
                }
                proof {
                    assert(ranges@ == delimiter_ranges(line.spec_bytes().len(), column_names@, nv, gv, regex_match_spans(re@, line@), glen));
                }
                ranges
            } else {
                let ms = regex_find_all(re, line);
                let t: usize = if ms.len() < n - 1 {
                    ms.len()
                } else {
                    n - 1
                };
                let mut r: Vec<(u32, u32)> = Vec::new();
                let mut last_end: usize = 0;
                let mut k: usize = 0;
                while k < t
                    invariant
                        k <= t,
                        t <= ms@.len(),
                        last_end == if k == 0 {
                            0
                        } else {
                            ms@[k - 1].1 as int
                        },
                        r@ == delimited_ranges(ms@, len as nat, t as nat).take(k as int),
                    decreases t - k,
                {
                    r.push((last_end as u32, ms[k].0 as u32));
                    last_end = ms[k].1;
                    proof {
                        assert(r@ =~= delimited_ranges(ms@, len as nat, t as nat).take(k + 1));
                    }
                    k = k + 1;
                }
                r.push((last_end as u32, len as u32));
                proof {
                    assert(r@ =~= delimited_ranges(ms@, len as nat, t as nat));
                    assert(r@ == delimiter_ranges(line.spec_bytes().len(), column_names@, nv, regex_group_spans(re@, line@), ms@, glen));
                }
                r
            }
        },
        Split::Regexes(rgs) => {
            let count: usize = if rgs.len() < n {
                rgs.len()
            } else {
                n
            };
            let ghost pats = patterns(rgs@);
            proof {
                vstd::utf8::encode_utf8_valid_utf8(line@);
            }
            let mut r: Vec<(u32, u32)> = Vec::new();
            let mut last_end: usize = 0;
            let mut k: usize = 0;
            while k < count
                invariant
                    k <= count,
                    count <= rgs@.len(),
                    pats == patterns(rgs@),
                    (r@, last_end as nat) == regexes_ranges(pats.take(k as int), line@),
                    vstd::utf8::valid_utf8(line.spec_bytes()),
                    last_end <= line.spec_bytes().len(),
                    vstd::utf8::is_char_boundary(line.spec_bytes(), last_end as int),
                    len == line.spec_bytes().len(),
                decreases count - k,
            {
                let m = regex_find_from(&rgs[k], line, last_end);
                proof {
                    assert(pats.take(k + 1).drop_last() =~= pats.take(k as int));
                    assert(pats.take(k + 1).last() == rgs@[k as int]@);
                }
                match m {
                    Some((a, b)) => {
                        r.push(((last_end + a) as u32, (last_end + b) as u32));
                        last_end = last_end + b;
                    },
                    None => {
                        r.push((0, 0));
                    },
                }
                k = k + 1;
            }
            proof {
                assert(regexes_ranges(pats.take(count as int), line@).0 == r@);
            }
            r
        },
    }
}

/// The first of `column_names` equal to `nm`.
fn first_named(column_names: &Vec<String>, nm: &str) -> (r: Option<usize>)
    ensures
        r == match first_index(Seq::new(column_names@.len(), |i: int| column_names@[i]@), nm@) {
            Some(i) => Some(i as usize),
            None => None::<usize>,
        },
        r matches Some(i) ==> i < column_names@.len(),
{
    let ghost cols = Seq::new(column_names@.len(), |i: int| column_names@[i]@);
    let mut k: usize = 0;
    while k < column_names.len()
        invariant
            k <= column_names@.len(),
            cols == Seq::new(column_names@.len(), |i: int| column_names@[i]@),
            first_index(cols.take(k as int), nm@) is None,
        decreases column_names@.len() - k,
    {
        proof {
            assert(cols.take(k + 1).drop_last() =~= cols.take(k as int));
        }
        if str_eq(column_names[k].as_str(), nm) {
            proof {
                lemma_first_index_prefix(cols, nm@, (k + 1) as nat);
            }
            return Some(k);
        }
        k = k + 1;
    }
    proof {
        assert(cols.take(k as int) =~= cols);
    }
    None
}

/// The first column named `nm` is a column.
proof fn lemma_first_index_bound(cols: Seq<Seq<char>>, nm: Seq<char>)
    ensures
        first_index(cols, nm) matches Some(i) ==> i < cols.len(),
    decreases cols.len(),
{
    if cols.len() > 0 {
        lemma_first_index_bound(cols.drop_last(), nm);
    }
}

/// A name first found in a prefix is first found there in the whole.
proof fn lemma_first_index_prefix(cols: Seq<Seq<char>>, nm: Seq<char>, k: nat)
    requires
        k <= cols.len(),
        first_index(cols.take(k as int), nm) is Some,
    ensures
        first_index(cols, nm) == first_index(cols.take(k as int), nm),
    decreases cols.len() - k,
{
    if k < cols.len() {
        assert(cols.take(k + 1 as int).drop_last() =~= cols.take(k as int));
        lemma_first_index_prefix(cols, nm, k + 1);
    } else {
        assert(cols.take(k as int) =~= cols);
    }
}

/// Whether a line is dropped for lacking the required column `c`: with a
/// delimiter or regexes, when the column's range is missing or `(0, 0)`;
/// without a split, when the line is empty.
pub open spec fn lacks_column(split: Split, ranges: Seq<(u32, u32)>, line: Seq<char>, c: usize) -> bool {
    match split {
        Split::NoSplit => line.len() == 0,
        _ => c >= ranges.len() || ranges[c as int] == (0u32, 0u32),
    }
}

/// Prepares an input line: trimmed when asked, then split into its
/// columns' ranges; `None` when `require_column` names a column the line
/// lacks (see [`lacks_column`]).
pub fn preprocess_line(
    item: &str,
    trim_item: bool,
    split: &Split,
    column_names: &Vec<String>,
    require_column: Option<usize>,
) -> (r: Option<(String, Vec<(u32, u32)>)>)
    requires
        split is Delimiter ==> column_names@.len() >= 1,
    ensures
        ({
            let line = if trim_item {
                trim(item@)
            } else {
                item@
            };
            let ranges = split_spec(*split, line, vstd::utf8::encode_utf8(line).len(), column_names@);
            if require_column matches Some(c) && lacks_column(*split, ranges, line, c) {
                r is None
            } else {
                r matches Some((p, rs)) && p@ == line && rs@ == ranges
            }
        }),
{
    let cs = chars_of(item);
    let plain = if trim_item {
        let (lo, hi) = trim_bounds(&cs, 0, cs.len());
        proof {
            assert(cs@.subrange(0, cs@.len() as int) =~= item@);
        }
        string_of(&cs, lo, hi)
    } else {
        let p = string_of(&cs, 0, cs.len());
        proof {
            assert(p@ =~= item@);
        }
        p
    };
    let ranges = split_line(split, plain.as_str(), column_names);
    match require_column {
        Some(c) => {
            let lacks = match split {
                Split::NoSplit => plain.unicode_len() == 0,
                _ => c >= ranges.len() || (ranges[c].0 == 0 && ranges[c].1 == 0),
            };
            if lacks {
                proof {
                    assert(lacks_column(*split, ranges@, plain@, c));
                }
                return None;
            }
        },
        None => {},
    }
    Some((plain, ranges))
}

/// With a delimiter regex that has capture groups (named or not), a line
/// it does not match leaves every column empty, at `(0, 0)`; matched or
/// not, such a line has one range for each column.
pub proof fn law_unmatched_lines_give_empty_columns(
    re: SplitRegex,
    line: Seq<char>,
    len: nat,
    cols: Seq<String>,
)
    ensures
        (has_named(regex_group_names(re@)) || regex_group_count(re@) > 1) && regex_group_spans(re@, line) is None
            ==> {
            let r = split_spec(Split::Delimiter(re), line, len, cols);
            &&& r.len() == cols.len()
            &&& forall|k: int| 0 <= k < cols.len() ==> #[trigger] r[k] == (0u32, 0u32)
        },
        split_spec(Split::Delimiter(re), line, len, cols).len() == cols.len() || !(has_named(
            regex_group_names(re@),
        ) || regex_group_count(re@) > 1),
{
    let nv = regex_group_names(re@);
    let cv = Seq::new(cols.len(), |i: int| cols[i]@);
    match regex_group_spans(re@, line) {
        Some(gs) => {
            if has_named(nv) {
                lemma_named_ranges_len(gs, nv, cv, nv.len());
            } else if regex_group_count(re@) > 1 {
                lemma_unnamed_ranges_len(gs, cols.len(), unnamed_count(gs.len(), cols.len()));
            }
        },
        None => {},
    }
}

proof fn lemma_named_ranges_len(
    groups: Seq<Option<(usize, usize)>>,
    names: Seq<Option<Seq<char>>>,
    cols: Seq<Seq<char>>,
    g: nat,
)
    ensures
        named_ranges(groups, names, cols, g).len() == cols.len(),
    decreases g,
{
    if g > 1 {
        lemma_named_ranges_len(groups, names, cols, (g - 1) as nat);
        if names[g - 1] is Some {
            lemma_first_index_bound(cols, names[g - 1].unwrap());
        }
    }
}

proof fn lemma_unnamed_ranges_len(groups: Seq<Option<(usize, usize)>>, n: nat, k: nat)
    requires
        k <= n,
    ensures
        unnamed_ranges(groups, n, k).len() == n,
    decreases k,
{
    if k > 0 {
        lemma_unnamed_ranges_len(groups, n, (k - 1) as nat);
    }
}

/// Whether group `h` took part in the match and is named after column `c`,
/// the first column of that name.
pub open spec fn group_fills(
    groups: Seq<Option<(usize, usize)>>,
    names: Seq<Option<Seq<char>>>,
    cols: Seq<Seq<char>>,
    h: int,
    c: int,
) -> bool {
    &&& 1 <= h < names.len() && h < groups.len() && groups[h] is Some
    &&& 0 <= c < cols.len() && names[h] == Some(cols[c])
    &&& forall|j: int| 0 <= j < c ==> cols[j] != cols[c]
}

proof fn lemma_first_index_spec(cols: Seq<Seq<char>>, nm: Seq<char>)
    ensures
        first_index(cols, nm) matches Some(i) ==> i < cols.len() && cols[i as int] == nm && forall|j: int|
            0 <= j < i ==> cols[j] != nm,
        first_index(cols, nm) is None ==> forall|j: int| 0 <= j < cols.len() ==> cols[j] != nm,
    decreases cols.len(),
{
    if cols.len() > 0 {
        lemma_first_index_spec(cols.drop_last(), nm);
        assert forall|j: int| 0 <= j < cols.len() - 1 implies cols.drop_last()[j] == cols[j] by {}
    }
}

proof fn lemma_named_fill(
    groups: Seq<Option<(usize, usize)>>,
    names: Seq<Option<Seq<char>>>,
    cols: Seq<Seq<char>>,
    g: nat,
    c: int,
)
    requires
        0 <= c < cols.len(),
    ensures
        (forall|h: int| 1 <= h < g ==> !#[trigger] group_fills(groups, names, cols, h, c)) ==> named_ranges(
            groups,
            names,
            cols,
            g,
        )[c] == (0u32, 0u32),
        forall|h: int|
            1 <= h < g && #[trigger] group_fills(groups, names, cols, h, c) && (forall|h2: int|
                h < h2 < g ==> !group_fills(groups, names, cols, h2, c)) ==> named_ranges(groups, names, cols, g)[c]
                == span32(groups[h].unwrap()),
    decreases g,
{
    if g > 1 {
        let gi = g - 1;
        lemma_named_fill(groups, names, cols, (g - 1) as nat, c);
        lemma_named_ranges_len(groups, names, cols, (g - 1) as nat);
        let r = named_ranges(groups, names, cols, (g - 1) as nat);
        if 1 <= gi < names.len() && names[gi] is Some {
            lemma_first_index_spec(cols, names[gi].unwrap());
        }
        if group_fills(groups, names, cols, gi, c) {
            let i = first_index(cols, names[gi].unwrap());
            assert(i == Some(c as nat)) by {
                match i {
                    Some(k) => {
                        if (k as int) < c {
                            assert(cols[k as int] == cols[c]);
                        } else if (k as int) > c {
                            assert(cols[c] == names[gi].unwrap());
                        }
                    },
                    None => {
                        assert(cols[c] == names[gi].unwrap());
                    },
                }
            }
        } else {
            match group_column(names, cols, gi) {
                Some(c0) => {
                    if c0 as int == c && gi < groups.len() && groups[gi] is Some {
                        assert(group_fills(groups, names, cols, gi, c));
                    }
                },
                None => {},
            }
        }
    }
}

/// With a delimiter regex that has named groups, a matched line fills each
/// column from the last group named after it that took part in the match
/// (a group fills the first column of its name); a column that no such
/// group fills stays empty at `(0, 0)`.
pub proof fn law_named_groups_fill_their_columns(
    re: SplitRegex,
    line: Seq<char>,
    len: nat,
    names: Seq<String>,
    gs: Seq<Option<(usize, usize)>>,
    c: int,
)
    requires
        has_named(regex_group_names(re@)),
        regex_group_spans(re@, line) == Some(gs),
        0 <= c < names.len(),
    ensures
        ({
            let nv = regex_group_names(re@);
            let cols = Seq::new(names.len(), |i: int| names[i]@);
            let r = split_spec(Split::Delimiter(re), line, len, names);
            &&& r.len() == names.len()
            &&& (forall|h: int| !#[trigger] group_fills(gs, nv, cols, h, c)) ==> r[c] == (0u32, 0u32)
            &&& forall|h: int|
                #[trigger] group_fills(gs, nv, cols, h, c) && (forall|h2: int|
                    h < h2 ==> !group_fills(gs, nv, cols, h2, c)) ==> r[c] == span32(gs[h].unwrap())
        }),
{
    let nv = regex_group_names(re@);
    let cols = Seq::new(names.len(), |i: int| names[i]@);
    lemma_named_ranges_len(gs, nv, cols, nv.len());
    lemma_named_fill(gs, nv, cols, nv.len(), c);
}

proof fn lemma_unnamed_fill(groups: Seq<Option<(usize, usize)>>, n: nat, k: nat, c: int)
    requires
        k <= n,
        0 <= c < n,
    ensures
        unnamed_ranges(groups, n, k)[c] == if c < k && groups[c + 1] is Some {
            span32(groups[c + 1].unwrap())
        } else {
            (0u32, 0u32)
        },
    decreases k,
{
    if k > 0 {
        lemma_unnamed_fill(groups, n, (k - 1) as nat, c);
        lemma_unnamed_ranges_len(groups, n, (k - 1) as nat);
    }
}

/// With a delimiter regex whose groups have no names, a matched line gives
/// the columns the groups in order: column `c` takes the span of group
/// `c + 1` when that group took part, and stays empty at `(0, 0)` when it
/// did not or when there is no such group.
pub proof fn law_unnamed_groups_fill_columns_in_order(
    re: SplitRegex,
    line: Seq<char>,
    len: nat,
    names: Seq<String>,
    gs: Seq<Option<(usize, usize)>>,
    c: int,
)
    requires
        !has_named(regex_group_names(re@)),
        regex_group_count(re@) > 1,
        regex_group_spans(re@, line) == Some(gs),
        0 <= c < names.len(),
    ensures
        ({
            let r = split_spec(Split::Delimiter(re), line, len, names);
            &&& r.len() == names.len()
            &&& r[c] == if c + 1 < gs.len() && gs[c + 1] is Some {
                span32(gs[c + 1].unwrap())
            } else {
                (0u32, 0u32)
            }
        }),
{
    let k = unnamed_count(gs.len(), names.len());
    lemma_unnamed_ranges_len(gs, names.len(), k);
    lemma_unnamed_fill(gs, names.len(), k, c);
}

/// With a delimiter regex without groups, the line is cut at its matches:
/// one column more than the matches used (at most one fewer than there
/// are columns), the first column starting the line, the last one ending
/// it, and each cut going from the end of a match to the start of the next.
/// Without a split, the one column is the whole line. With regexes, there
/// is one range for each regex that has a column.
pub proof fn law_delimiter_cuts_between_matches(
    re: SplitRegex,
    line: Seq<char>,
    len: nat,
    cols: Seq<String>,
    rgs: Vec<SplitRegex>,
)
    ensures
        ({
            let ms = regex_match_spans(re@, line);
            let r = split_spec(Split::Delimiter(re), line, len, cols);
            let t: nat = if ms.len() < cols.len() - 1 {
                ms.len()
            } else {
                (cols.len() - 1) as nat
            };
            (cols.len() >= 1 && !has_named(regex_group_names(re@)) && regex_group_count(re@) <= 1) ==> {
                &&& r.len() == t + 1
                &&& r[0].0 == 0
                &&& r[t as int].1 == len as u32
                &&& forall|k: int| 0 <= k < t ==> #[trigger] r[k].1 == ms[k].0 as u32 && r[k + 1].0 == ms[k].1 as u32
            }
        }),
        split_spec(Split::NoSplit, line, len, cols) == seq![(0u32, len as u32)],
        split_spec(Split::Regexes(rgs), line, len, cols).len() == if rgs@.len() < cols.len() {
            rgs@.len()
        } else {
            cols.len()
        },
{
    let n = if rgs@.len() < cols.len() {
        rgs@.len()
    } else {
        cols.len()
    };
    lemma_regexes_len(patterns(rgs@).take(n as int), line);
}

proof fn lemma_regexes_len(pats: Seq<Seq<char>>, line: Seq<char>)
    ensures
        regexes_ranges(pats, line).0.len() == pats.len(),
    decreases pats.len(),
{
    if pats.len() > 0 {
        lemma_regexes_len(pats.drop_last(), line);
    }
}

/// A required column is lacking, with a delimiter or regexes, exactly when
/// its range is missing or empty at `(0, 0)`; without a split, exactly when
/// the line is empty. A column with a nonempty range is never lacking.
pub proof fn law_required_column(re: SplitRegex, ranges: Seq<(u32, u32)>, line: Seq<char>, c: usize)
    ensures
        lacks_column(Split::NoSplit, ranges, line, c) <==> line.len() == 0,
        lacks_column(Split::Delimiter(re), ranges, line, c) <==> (c >= ranges.len() || ranges[c as int] == (
        0u32,
        0u32,
        )),
        c < ranges.len() && ranges[c as int].0 < ranges[c as int].1 ==> !lacks_column(
            Split::Delimiter(re),
            ranges,
            line,
            c,
        ),
{
}

} // verus!

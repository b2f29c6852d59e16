//! Prefix filters over the current mode stack.
use vstd::prelude::*;
use vstd::string::{StrSliceExecFns, StringExecFns};

use crate::strings::{
    chars_of, comma_list, comma_separated, is_white_space, lemma_filter_keeps_every, lemma_split_append,
    lemma_split_no_sep, nonempty, push_str, split, starts_with, str_starts_with, strings_view, trim,
};

verus! {

/// A prefix-based filter for matching the mode stack.
///
/// Positive prefixes (e.g., `"0"`) require the mode to contain a tag starting with that prefix.
/// Negative prefixes (e.g., `"!0"`) require the mode to NOT contain any tag starting with that prefix.
///
/// An empty filter (no positive or negative prefixes) matches every input mode string.
#[derive(Debug, Clone, PartialEq, Eq, Hash)]
pub struct PrefixFilter {
    pub positive_prefixes: Vec<String>,
    pub negative_prefixes: Vec<String>,
}

/// The prefixes of `patterns` that do not start with `!`, in order.
pub open spec fn positive_of(patterns: Seq<Seq<char>>) -> Seq<Seq<char>>
    decreases patterns.len(),
{
    if patterns.len() == 0 {
        Seq::empty()
    } else {
        let before = positive_of(patterns.drop_last());
        let p = patterns.last();
        if p.len() > 0 && p[0] == '!' {
            before
        } else {
            before.push(p)
        }
    }
}

/// The patterns of `patterns` that start with `!`, with the `!` stripped, in order.
pub open spec fn negative_of(patterns: Seq<Seq<char>>) -> Seq<Seq<char>>
    decreases patterns.len(),
{
    if patterns.len() == 0 {
        Seq::empty()
    } else {
        let before = negative_of(patterns.drop_last());
        let p = patterns.last();
        if p.len() > 0 && p[0] == '!' {
            before.push(p.drop_first())
        } else {
            before
        }
    }
}

/// Whether a filter with these prefixes accepts the mode stack `mode`.
pub open spec fn filter_matches(
    positive: Seq<Seq<char>>,
    negative: Seq<Seq<char>>,
    mode: Seq<Seq<char>>,
) -> bool {
    &&& forall|i: int| 0 <= i < positive.len() ==> #[trigger] has_tag_with_prefix(mode, positive[i])
    &&& forall|t: int, j: int|
        0 <= t < mode.len() && 0 <= j < negative.len() ==> !starts_with(
            #[trigger] mode[t],
            #[trigger] negative[j],
        )
}

/// Some tag of the mode stack starts with `prefix`.
pub open spec fn has_tag_with_prefix(mode: Seq<Seq<char>>, prefix: Seq<char>) -> bool {
    exists|t: int| 0 <= t < mode.len() && starts_with(mode[t], prefix)
}

/// What `to_string` writes: the positive prefixes, then each negative prefix
/// behind a `!`, separated by commas.
pub open spec fn joined_patterns(positive: Seq<Seq<char>>, negative: Seq<Seq<char>>) -> Seq<
    char,
> {
    join_commas(positive + negative.map_values(|p: Seq<char>| seq!['!'] + p))
}

pub open spec fn join_commas(parts: Seq<Seq<char>>) -> Seq<char>
    decreases parts.len(),
{
    if parts.len() == 0 {
        Seq::empty()
    } else if parts.len() == 1 {
        parts[0]
    } else {
        join_commas(parts.drop_last()) + seq![','] + parts.last()
    }
}

impl PrefixFilter {
    pub open spec fn positive(&self) -> Seq<Seq<char>> {
        strings_view(self.positive_prefixes@)
    }

    pub open spec fn negative(&self) -> Seq<Seq<char>> {
        strings_view(self.negative_prefixes@)
    }

    /// Construct a `PrefixFilter` from a list of pattern strings.
    /// Patterns starting with `!` are treated as negative prefixes.
    pub fn from(patterns: Vec<&str>) -> (r: Result<Self, String>)
        ensures
            r matches Ok(f) && f.positive() == positive_of(
                patterns@.map_values(|p: &str| p@),
            ) && f.negative() == negative_of(patterns@.map_values(|p: &str| p@)),
    {
        let mut positive_prefixes: Vec<String> = Vec::new();
        let mut negative_prefixes: Vec<String> = Vec::new();
        let ghost pv = patterns@.map_values(|p: &str| p@);
        let mut i: usize = 0;
        while i < patterns.len()
            invariant
                i <= patterns@.len(),
                pv == patterns@.map_values(|p: &str| p@),
                strings_view(positive_prefixes@) == positive_of(pv.take(i as int)),
                strings_view(negative_prefixes@) == negative_of(pv.take(i as int)),
            decreases patterns@.len() - i,
        {
            let pat: &str = patterns[i];
            proof {
                assert(pv.take(i as int + 1).drop_last() =~= pv.take(i as int));
                assert(pv.take(i as int + 1).last() == pat@);
            }
            let n = pat.unicode_len();
            if n > 0 && pat.get_char(0) == '!' {
                let rest = pat.substring_char(1, n);
                let s = String::from_str(rest);
                negative_prefixes.push(s);
                proof {
                    assert(rest@ =~= pat@.drop_first());
                    assert(strings_view(negative_prefixes@) =~= strings_view(
                        negative_prefixes@.drop_last(),
                    ).push(s@));
                }
            } else {
                let s = String::from_str(pat);
                positive_prefixes.push(s);
                proof {
                    assert(strings_view(positive_prefixes@) =~= strings_view(
                        positive_prefixes@.drop_last(),
                    ).push(s@));
                }
            }
            i = i + 1;
        }
        proof {
            assert(pv.take(patterns@.len() as int) =~= pv);
        }
        Ok(Self { positive_prefixes, negative_prefixes })
    }

    /// Parses a comma separated list of patterns (pieces are trimmed, empty
    /// pieces are skipped).
    pub fn from_str(s: &str) -> (r: Result<Self, String>)
        ensures
            r matches Ok(f) && f.positive() == positive_of(comma_list(s@)) && f.negative()
                == negative_of(comma_list(s@)),
    {
        let pieces = comma_separated(s);
        let mut patterns: Vec<&str> = Vec::new();
        let mut i: usize = 0;
        while i < pieces.len()
            invariant
                i <= pieces@.len(),
                patterns@.map_values(|p: &str| p@) == strings_view(pieces@).take(i as int),
            decreases pieces@.len() - i,
        {
            let piece: &str = pieces[i].as_str();
            proof {
                assert(piece@ == strings_view(pieces@)[i as int]);
            }
            let ghost before = patterns@;
            patterns.push(piece);
            proof {
                assert(patterns@ == before.push(piece));
                assert(patterns@.map_values(|p: &str| p@) =~= before.map_values(|p: &str| p@).push(
                    piece@,
                ));
                assert(patterns@.map_values(|p: &str| p@) =~= strings_view(pieces@).take(
                    i as int + 1,
                ));
            }
            i = i + 1;
        }
        proof {
            assert(strings_view(pieces@).take(pieces@.len() as int) =~= strings_view(pieces@));
        }
        Self::from(patterns)
    }

    /// Check if this filter matches the given mode stack.
    pub fn matches(&self, mode: &[String]) -> (r: bool)
        ensures
            r == filter_matches(self.positive(), self.negative(), strings_view(mode@)),
    {
        let ghost m = strings_view(mode@);
        let mut i: usize = 0;
        while i < self.positive_prefixes.len()
            invariant
                i <= self.positive_prefixes@.len(),
                m == strings_view(mode@),
                forall|k: int| 0 <= k < i ==> #[trigger] has_tag_with_prefix(m, self.positive()[k]),
            decreases self.positive_prefixes@.len() - i,
        {
            let prefix = &self.positive_prefixes[i];
            let mut found = false;
            let mut t: usize = 0;
            while t < mode.len()
                invariant
                    t <= mode@.len(),
                    i < self.positive_prefixes@.len(),
                    m == strings_view(mode@),
                    prefix@ == self.positive()[i as int],
                    found ==> has_tag_with_prefix(m, prefix@),
                    !found ==> forall|u: int| 0 <= u < t ==> !starts_with(m[u], prefix@),
                decreases mode@.len() - t,
            {
                proof {
                    assert(m[t as int] == mode@[t as int]@);
                }
                if str_starts_with(mode[t].as_str(), prefix.as_str()) {
                    found = true;
                }
                t = t + 1;
            }
            if !found {
                proof {
                    assert(!has_tag_with_prefix(m, self.positive()[i as int]));
                }
                return false;
            }
            i = i + 1;
        }
        assert(self.positive().len() == self.positive_prefixes@.len());
        assert(i == self.positive_prefixes@.len());

        let mut t: usize = 0;
        while t < mode.len()
            invariant
                t <= mode@.len(),
                m == strings_view(mode@),
                forall|k: int|
                    0 <= k < self.positive().len() ==> #[trigger] has_tag_with_prefix(
                        m,
                        self.positive()[k],
                    ),
                forall|u: int, j: int|
                    0 <= u < t && 0 <= j < self.negative().len() ==> !starts_with(
                        #[trigger] m[u],
                        #[trigger] self.negative()[j],
                    ),
            decreases mode@.len() - t,
        {
            let mut j: usize = 0;
            while j < self.negative_prefixes.len()
                invariant
                    t < mode@.len(),
                    j <= self.negative_prefixes@.len(),
                    m == strings_view(mode@),
                    forall|k: int|
                        0 <= k < j ==> !starts_with(m[t as int], #[trigger] self.negative()[k]),
                decreases self.negative_prefixes@.len() - j,
            {
                proof {
                    assert(m[t as int] == mode@[t as int]@);
                }
                if str_starts_with(mode[t].as_str(), self.negative_prefixes[j].as_str()) {
                    proof {
                        assert(starts_with(m[t as int], self.negative()[j as int]));
                    }
                    return false;
                }
                j = j + 1;
            }
            t = t + 1;
        }
        true
    }

    /// Returns true if this filter has no positive or negative prefixes.
    pub fn is_empty(&self) -> (r: bool)
        ensures
            r == (self.positive_prefixes@.len() == 0 && self.negative_prefixes@.len() == 0),
    {
        self.positive_prefixes.len() == 0 && self.negative_prefixes.len() == 0
    }

    /// The patterns joined by commas, negative ones behind a `!`.
    pub fn to_string(&self) -> (r: String)
        ensures
            r@ == joined_patterns(self.positive(), self.negative()),
    {
        let ghost parts = self.positive() + self.negative().map_values(
            |p: Seq<char>| seq!['!'] + p,
        );
        let mut r = String::new();
        let ghost mut count: nat = 0;
        let np = self.positive_prefixes.len();
        let mut i: usize = 0;
        while i < np
            invariant
                np == self.positive_prefixes@.len(),
                i <= np,
                count == i,
                parts == self.positive() + self.negative().map_values(
                    |p: Seq<char>| seq!['!'] + p,
                ),
                r@ == join_commas(parts.take(count as int)),
            decreases np - i,
        {
            proof {
                assert(parts.take(count as int + 1).drop_last() =~= parts.take(count as int));
                assert(parts[count as int] == self.positive()[i as int]);
            }
            if i > 0 {
                crate::strings::string_push(&mut r, ',');
            }
            push_str(&mut r, self.positive_prefixes[i].as_str());
            proof {
                count = count + 1;
            }
            i = i + 1;
        }
        let nn = self.negative_prefixes.len();
        let mut j: usize = 0;
        while j < nn
            invariant
                np == self.positive_prefixes@.len(),
                nn == self.negative_prefixes@.len(),
                j <= nn,
                count == np + j,
                parts == self.positive() + self.negative().map_values(
                    |p: Seq<char>| seq!['!'] + p,
                ),
                r@ == join_commas(parts.take(count as int)),
            decreases nn - j,
        {
            let ghost before = r@;
            proof {
                assert(parts.take(count as int + 1).drop_last() =~= parts.take(count as int));
                assert(parts[count as int] == seq!['!'] + self.negative()[j as int]);
            }
            if np > 0 || j > 0 {
                crate::strings::string_push(&mut r, ',');
            }
            crate::strings::string_push(&mut r, '!');
            push_str(&mut r, self.negative_prefixes[j].as_str());
            proof {
                if count > 0 {
                    assert(r@ =~= before + seq![','] + (seq!['!'] + self.negative()[j as int]));
                } else {
                    assert(r@ =~= seq!['!'] + self.negative()[j as int]);
                }
            }
            proof {
                count = count + 1;
            }
            j = j + 1;
        }
        proof {
            assert(parts.take(count as int) =~= parts);
        }
        r
    }
}

/// An empty filter (no positive or negative prefixes) matches every mode stack.
pub proof fn law_empty_filter_matches_all(mode: Seq<Seq<char>>)
    ensures
        filter_matches(Seq::empty(), Seq::empty(), mode),
{
}

/// Whether a filter matches depends only on which tags the mode stack holds,
/// not on their order or repetition.
pub proof fn law_matches_ignores_tag_order(
    positive: Seq<Seq<char>>,
    negative: Seq<Seq<char>>,
    m1: Seq<Seq<char>>,
    m2: Seq<Seq<char>>,
)
    requires
        m1.to_set() == m2.to_set(),
    ensures
        filter_matches(positive, negative, m1) == filter_matches(positive, negative, m2),
{
    if filter_matches(positive, negative, m1) {
        lemma_same_tags_one_way(positive, negative, m1, m2);
    }
    if filter_matches(positive, negative, m2) {
        lemma_same_tags_one_way(positive, negative, m2, m1);
    }
}

proof fn lemma_same_tags_one_way(
    positive: Seq<Seq<char>>,
    negative: Seq<Seq<char>>,
    m1: Seq<Seq<char>>,
    m2: Seq<Seq<char>>,
)
    requires
        m1.to_set() == m2.to_set(),
        filter_matches(positive, negative, m1),
    ensures
        filter_matches(positive, negative, m2),
{
    assert forall|i: int| 0 <= i < positive.len() implies #[trigger] has_tag_with_prefix(
        m2,
        positive[i],
    ) by {
        assert(has_tag_with_prefix(m1, positive[i]));
        let t = choose|t: int| 0 <= t < m1.len() && starts_with(m1[t], positive[i]);
        assert(m1.to_set().contains(m1[t]));
        assert(m2.to_set().contains(m1[t]));
        let u = choose|u: int| 0 <= u < m2.len() && m2[u] == m1[t];
        assert(starts_with(m2[u], positive[i]));
    }
    assert forall|t: int, j: int|
        0 <= t < m2.len() && 0 <= j < negative.len() implies !starts_with(
        #[trigger] m2[t],
        #[trigger] negative[j],
    ) by {
        assert(m2.to_set().contains(m2[t]));
        assert(m1.to_set().contains(m2[t]));
        let u = choose|u: int| 0 <= u < m1.len() && m1[u] == m2[t];
        assert(!starts_with(m1[u], negative[j]));
    }
}

/// A pattern that reads back as itself: not empty, without commas, and not
/// starting or ending with white space.
pub open spec fn plain_pattern(p: Seq<char>) -> bool {
    &&& p.len() > 0
    &&& !p.contains(',')
    &&& !is_white_space(p[0])
    &&& !is_white_space(p.last())
}

proof fn lemma_join_split(parts: Seq<Seq<char>>)
    requires
        parts.len() > 0,
        forall|k: int| 0 <= k < parts.len() ==> !(#[trigger] parts[k]).contains(','),
    ensures
        split(join_commas(parts), ',') == parts,
    decreases parts.len(),
{
    if parts.len() == 1 {
        lemma_split_no_sep(parts[0], ',');
        assert(parts =~= seq![parts[0]]);
    } else {
        let init = parts.drop_last();
        assert forall|k: int| 0 <= k < init.len() implies !(#[trigger] init[k]).contains(',') by {
            assert(init[k] == parts[k]);
        }
        lemma_join_split(init);
        assert(!parts.last().contains(',')) by {
            assert(parts.last() == parts[parts.len() - 1]);
        }
        lemma_split_append(join_commas(init), parts.last(), ',');
        assert(init.push(parts.last()) =~= parts);
    }
}

proof fn lemma_positive_concat(a: Seq<Seq<char>>, b: Seq<Seq<char>>)
    ensures
        positive_of(a + b) == positive_of(a) + positive_of(b),
        negative_of(a + b) == negative_of(a) + negative_of(b),
    decreases b.len(),
{
    if b.len() == 0 {
        assert(a + b =~= a);
        assert(positive_of(a) + positive_of(b) =~= positive_of(a));
        assert(negative_of(a) + negative_of(b) =~= negative_of(a));
    } else {
        lemma_positive_concat(a, b.drop_last());
        assert((a + b).drop_last() =~= a + b.drop_last());
        assert((a + b).last() == b.last());
        assert(positive_of(a) + positive_of(b.drop_last()).push(b.last()) =~= (positive_of(a)
            + positive_of(b.drop_last())).push(b.last()));
        assert(negative_of(a) + negative_of(b.drop_last()).push(b.last().drop_first()) =~= (
        negative_of(a) + negative_of(b.drop_last())).push(b.last().drop_first()));
    }
}

proof fn lemma_positive_plain(ps: Seq<Seq<char>>)
    requires
        forall|k: int| 0 <= k < ps.len() ==> #[trigger] ps[k].len() > 0 && ps[k][0] != '!',
    ensures
        positive_of(ps) == ps,
        negative_of(ps) == Seq::<Seq<char>>::empty(),
    decreases ps.len(),
{
    if ps.len() > 0 {
        let init = ps.drop_last();
        assert forall|k: int| 0 <= k < init.len() implies #[trigger] init[k].len() > 0 && init[k][0] != '!' by {
            assert(init[k] == ps[k]);
        }
        lemma_positive_plain(init);
        assert(ps.last() == ps[ps.len() - 1]);
        assert(init.push(ps.last()) =~= ps);
    }
}

proof fn lemma_negative_marked(ns: Seq<Seq<char>>)
    ensures
        positive_of(ns.map_values(|p: Seq<char>| seq!['!'] + p)) == Seq::<Seq<char>>::empty(),
        negative_of(ns.map_values(|p: Seq<char>| seq!['!'] + p)) == ns,
    decreases ns.len(),
{
    let m = ns.map_values(|p: Seq<char>| seq!['!'] + p);
    if ns.len() > 0 {
        let init = ns.drop_last();
        lemma_negative_marked(init);
        assert(m.drop_last() =~= init.map_values(|p: Seq<char>| seq!['!'] + p));
        assert(m.last() == seq!['!'] + ns.last());
        assert((seq!['!'] + ns.last()).drop_first() =~= ns.last());
        assert(init.push(ns.last()) =~= ns);
    } else {
        assert(m =~= Seq::<Seq<char>>::empty());
    }
}

/// Writing a filter out and reading it back gives the same filter, when its
/// prefixes are plain (see [`plain_pattern`]) and no positive one starts
/// with `!`.
pub proof fn law_filter_text_round_trip(positive: Seq<Seq<char>>, negative: Seq<Seq<char>>)
    requires
        forall|k: int| 0 <= k < positive.len() ==> #[trigger] plain_pattern(positive[k]) && positive[k][0] != '!',
        forall|k: int| 0 <= k < negative.len() ==> #[trigger] plain_pattern(negative[k]),
    ensures
        positive_of(comma_list(joined_patterns(positive, negative))) == positive,
        negative_of(comma_list(joined_patterns(positive, negative))) == negative,
{
    let marked = negative.map_values(|p: Seq<char>| seq!['!'] + p);
    let parts = positive + marked;
    assert forall|k: int| 0 <= k < parts.len() implies #[trigger] plain_pattern(parts[k]) by {
        if k < positive.len() {
            assert(parts[k] == positive[k]);
        } else {
            let p = negative[k - positive.len()];
            assert(plain_pattern(p));
            assert(parts[k] == seq!['!'] + p);
            assert((seq!['!'] + p).last() == p.last());
            assert(!(seq!['!'] + p).contains(',')) by {
                if (seq!['!'] + p).contains(',') {
                    let j = choose|j: int| 0 <= j < (seq!['!'] + p).len() && (seq!['!'] + p)[j] == ',';
                    assert(p[j - 1] == ',');
                }
            }
        }
    }
    // the comma list of the written patterns is the patterns themselves
    let pieces = if parts.len() == 0 {
        seq![Seq::<char>::empty()]
    } else {
        parts
    };
    if parts.len() == 0 {
        assert(join_commas(parts) =~= Seq::<char>::empty());
    } else {
        assert forall|k: int| 0 <= k < parts.len() implies !(#[trigger] parts[k]).contains(',') by {
            assert(plain_pattern(parts[k]));
        }
        lemma_join_split(parts);
    }
    assert(split(joined_patterns(positive, negative), ',') == pieces);
    let trimmed = pieces.map_values(|p: Seq<char>| trim(p));
    if parts.len() == 0 {
        assert(trim(Seq::<char>::empty()) =~= Seq::<char>::empty());
        assert(trimmed =~= seq![Seq::<char>::empty()]);
        reveal_with_fuel(Seq::<_>::filter, 2);
        assert(seq![Seq::<char>::empty()].drop_last() =~= Seq::<Seq<char>>::empty());
        assert(comma_list(joined_patterns(positive, negative)) =~= Seq::<Seq<char>>::empty());
        assert(positive =~= Seq::<Seq<char>>::empty());
        assert(negative =~= Seq::<Seq<char>>::empty());
    } else {
        assert(trimmed =~= parts) by {
            assert forall|k: int| 0 <= k < parts.len() implies trim(#[trigger] parts[k]) == parts[k] by {
                assert(plain_pattern(parts[k]));
            }
        }
        assert forall|k: int| 0 <= k < parts.len() implies (|p: Seq<char>| nonempty(p))(#[trigger] parts[k]) by {
            assert(plain_pattern(parts[k]));
        }
        lemma_filter_keeps_every(parts, |p: Seq<char>| nonempty(p));
        assert(comma_list(joined_patterns(positive, negative)) == parts);
        lemma_positive_concat(positive, marked);
        assert forall|k: int| 0 <= k < positive.len() implies #[trigger] positive[k].len() > 0 && positive[k][0] != '!' by {
            assert(plain_pattern(positive[k]));
        }
        lemma_positive_plain(positive);
        lemma_negative_marked(negative);
        assert(Seq::<Seq<char>>::empty() + negative =~= negative);
        assert(positive + Seq::<Seq<char>>::empty() =~= positive);
    }
}

impl Default for PrefixFilter {
    /// The empty filter, which matches every mode stack.
    fn default() -> (r: Self)
        ensures
            r.positive_prefixes@.len() == 0,
            r.negative_prefixes@.len() == 0,
    {
        PrefixFilter { positive_prefixes: Vec::new(), negative_prefixes: Vec::new() }
    }
}

impl std::str::FromStr for PrefixFilter {
    type Err = String;

    fn from_str(s: &str) -> (r: Result<Self, String>)
        ensures
            r matches Ok(f) && f.positive() == positive_of(comma_list(s@)) && f.negative()
                == negative_of(comma_list(s@)),
    {
        PrefixFilter::from_str(s)
    }
}

} // verus!

//! Semantic bindings (`@name` aliases for lists of actions) and the check
//! that following aliases never loops.
use vstd::prelude::*;

use crate::mode_filter::{filter_matches, PrefixFilter};
use crate::strings::{chars_of, push_str, str_eq, string_of, strings_view};

verus! {

/// An action as alias resolution sees it: another alias, a trace marker,
/// or any other action (by a number of the caller's).
#[derive(Debug, Clone, PartialEq, Eq)]
pub enum BindAction {
    Semantic(String),
    Trace(String),
    Other(u32),
}

/// A semantic binding: the alias, the modes it is for, and its actions.
#[derive(Debug, Clone, PartialEq, Eq)]
pub struct SemanticBind {
    pub name: String,
    pub mode: PrefixFilter,
    pub actions: Vec<BindAction>,
}

/// Whether a binding is for every mode.
pub open spec fn for_all_modes(b: SemanticBind) -> bool {
    b.mode.positive_prefixes@.len() == 0 && b.mode.negative_prefixes@.len() == 0
}

/// The first binding of `name` for every mode.
pub open spec fn default_index(bs: Seq<SemanticBind>, name: Seq<char>) -> Option<nat>
    decreases bs.len(),
{
    if bs.len() == 0 {
        None
    } else {
        match default_index(bs.drop_last(), name) {
            Some(k) => Some(k),
            None => if bs.last().name@ == name && for_all_modes(bs.last()) {
                Some((bs.len() - 1) as nat)
            } else {
                None
            },
        }
    }
}

/// The aliases that actions name, in order.
pub open spec fn targets_of(acts: Seq<BindAction>) -> Seq<Seq<char>>
    decreases acts.len(),
{
    if acts.len() == 0 {
        Seq::empty()
    } else {
        targets_of(acts.drop_last()) + match acts.last() {
            BindAction::Semantic(n) => seq![n@],
            _ => Seq::empty(),
        }
    }
}

/// Every alias named by the bindings' actions.
pub open spec fn all_targets(bs: Seq<SemanticBind>) -> Seq<Seq<char>>
    decreases bs.len(),
{
    if bs.len() == 0 {
        Seq::empty()
    } else {
        all_targets(bs.drop_last()) + targets_of(bs.last().actions@)
    }
}

/// The aliases that the binding of `name` for every mode names.
pub open spec fn successors(bs: Seq<SemanticBind>, name: Seq<char>) -> Seq<Seq<char>> {
    match default_index(bs, name) {
        Some(k) => targets_of(bs[k as int].actions@),
        None => Seq::empty(),
    }
}

/// Whether `w` is a walk from `start` along aliases: each alias is named by
/// the binding (for every mode) of the one before.
pub open spec fn walk_from(bs: Seq<SemanticBind>, start: Seq<char>, w: Seq<Seq<char>>) -> bool {
    &&& w.len() >= 1
    &&& w[0] == start
    &&& forall|i: int| 0 <= i < w.len() - 1 ==> #[trigger] successors(bs, w[i]).contains(w[i + 1])
}

/// Whether no walk from `start`, after `path`, repeats an alias.
pub open spec fn loop_free_from(bs: Seq<SemanticBind>, path: Seq<Seq<char>>, start: Seq<char>) -> bool {
    forall|w: Seq<Seq<char>>| #[trigger] walk_from(bs, start, w) ==> (path + w).no_duplicates()
}

/// Whether following aliases from any alias that an action names never
/// comes back to an alias already passed.
pub open spec fn loop_free(bs: Seq<SemanticBind>) -> bool {
    forall|t: Seq<char>| #[trigger] all_targets(bs).contains(t) ==> loop_free_from(bs, Seq::empty(), t)
}

proof fn lemma_take_targets(acts: Seq<BindAction>, i: int)
    requires
        0 <= i < acts.len(),
    ensures
        targets_of(acts.take(i + 1)) == targets_of(acts.take(i)) + match acts[i] {
            BindAction::Semantic(n) => seq![n@],
            _ => Seq::empty(),
        },
{
    assert(acts.take(i + 1).drop_last() =~= acts.take(i));
}

proof fn lemma_concat_contains<A>(a: Seq<A>, b: Seq<A>, x: A)
    ensures
        (a + b).contains(x) <==> (a.contains(x) || b.contains(x)),
{
    if (a + b).contains(x) {
        let k = choose|k: int| 0 <= k < (a + b).len() && (a + b)[k] == x;
        if k >= a.len() {
            assert(b[k - a.len()] == x);
        }
    }
    if a.contains(x) {
        let k = choose|k: int| 0 <= k < a.len() && a[k] == x;
        assert((a + b)[k] == x);
    }
    if b.contains(x) {
        let k = choose|k: int| 0 <= k < b.len() && b[k] == x;
        assert((a + b)[a.len() + k] == x);
    }
}

/// The aliases a binding names are among all the aliases named.
proof fn lemma_targets_in_all(bs: Seq<SemanticBind>, k: int, t: Seq<char>)
    requires
        0 <= k < bs.len(),
        targets_of(bs[k].actions@).contains(t),
    ensures
        all_targets(bs).contains(t),
    decreases bs.len(),
{
    if k == bs.len() - 1 {
        lemma_concat_contains(all_targets(bs.drop_last()), targets_of(bs.last().actions@), t);
    } else {
        assert(bs.drop_last()[k] == bs[k]);
        lemma_targets_in_all(bs.drop_last(), k, t);
        lemma_concat_contains(all_targets(bs.drop_last()), targets_of(bs.last().actions@), t);
    }
}

proof fn lemma_default_index(bs: Seq<SemanticBind>, name: Seq<char>)
    ensures
        default_index(bs, name) matches Some(k) ==> k < bs.len() && bs[k as int].name@ == name,
    decreases bs.len(),
{
    if bs.len() > 0 {
        lemma_default_index(bs.drop_last(), name);
    }
}

/// A path of distinct aliases all among `u` is no longer than `u`.
proof fn lemma_distinct_bound(path: Seq<Seq<char>>, u: Seq<Seq<char>>)
    requires
        path.no_duplicates(),
        forall|i: int| 0 <= i < path.len() ==> u.contains(#[trigger] path[i]),
    ensures
        path.len() <= u.len(),
{
    broadcast use vstd::seq_lib::seq_to_set_is_finite;

    path.unique_seq_to_set();
    u.lemma_cardinality_of_set();
    assert(path.to_set().subset_of(u.to_set())) by {
        assert forall|x: Seq<char>| path.to_set().contains(x) implies u.to_set().contains(x) by {
            let i = choose|i: int| 0 <= i < path.len() && path[i] == x;
            assert(u.contains(path[i]));
        }
    }
    vstd::set_lib::lemma_len_subset(path.to_set(), u.to_set());
}

/// The binding of `name` for every mode (see [`default_index`]).
fn default_binding(bs: &Vec<SemanticBind>, name: &str) -> (r: Option<usize>)
    ensures
        r == match default_index(bs@, name@) {
            Some(k) => Some(k as usize),
            None => None::<usize>,
        },
{
    let mut k: usize = 0;
    proof {
        assert(bs@.take(0) =~= Seq::<SemanticBind>::empty());
    }
    while k < bs.len()
        invariant
            k <= bs@.len(),
            default_index(bs@.take(k as int), name@) is None,
        decreases bs@.len() - k,
    {
        proof {
            assert(bs@.take(k + 1).drop_last() =~= bs@.take(k as int));
            assert(bs@.take(k + 1).last() == bs@[k as int]);
        }
        let b = &bs[k];
        if str_eq(b.name.as_str(), name) && b.mode.positive_prefixes.len() == 0 && b.mode.negative_prefixes.len()
            == 0 {
            proof {
                lemma_default_prefix(bs@, name@, (k + 1) as nat);
            }
            return Some(k);
        }
        k = k + 1;
    }
    proof {
        assert(bs@.take(k as int) =~= bs@);
    }
    None
}

proof fn lemma_default_prefix(bs: Seq<SemanticBind>, name: Seq<char>, k: nat)
    requires
        k <= bs.len(),
        default_index(bs.take(k as int), name) is Some,
    ensures
        default_index(bs, name) == default_index(bs.take(k as int), name),
    decreases bs.len() - k,
{
    if k < bs.len() {
        assert(bs.take(k + 1 as int).drop_last() =~= bs.take(k as int));
        lemma_default_prefix(bs, name, k + 1);
    } else {
        assert(bs.take(k as int) =~= bs);
    }
}

/// A copy of `s`.
fn copy_string(s: &String) -> (r: String)
    ensures
        r@ == s@,
{
    let cs = chars_of(s.as_str());
    let r = string_of(&cs, 0, cs.len());
    proof {
        assert(r@ =~= s@);
    }
    r
}

/// A copy of the strings.
fn copy_strings(v: &Vec<String>) -> (r: Vec<String>)
    ensures
        strings_view(r@) == strings_view(v@),
{
    let mut r: Vec<String> = Vec::new();
    let mut k: usize = 0;
    while k < v.len()
        invariant
            k <= v@.len(),
            strings_view(r@) == strings_view(v@).take(k as int),
        decreases v@.len() - k,
    {
        let ghost before = strings_view(r@);
        let c = copy_string(&v[k]);
        let ghost cv = c@;
        r.push(c);
        proof {
            assert(strings_view(r@) =~= before.push(cv));
            assert(strings_view(r@) =~= strings_view(v@).take(k + 1));
        }
        k = k + 1;
    }
    proof {
        assert(strings_view(v@).take(k as int) =~= strings_view(v@));
    }
    r
}

/// Whether `name` is among the strings.
fn contains_name(v: &Vec<String>, name: &str) -> (r: bool)
    ensures
        r == strings_view(v@).contains(name@),
{
    let mut k: usize = 0;
    while k < v.len()
        invariant
            k <= v@.len(),
            forall|j: int| 0 <= j < k ==> strings_view(v@)[j] != name@,
        decreases v@.len() - k,
    {
        if str_eq(v[k].as_str(), name) {
            proof {
                assert(strings_view(v@)[k as int] == name@);
            }
            return true;
        }
        k = k + 1;
    }
    false
}

/// Follows the aliases from `cur` after the aliases `path`: `Err` with the
/// aliases passed, ending with the first one met again, when some walk
/// comes back to an alias; otherwise `Ok`, with `path` as it was.
fn follow(bs: &Vec<SemanticBind>, cur: &String, path: &mut Vec<String>) -> (r: Result<(), Vec<String>>)
    requires
        strings_view(old(path)@).no_duplicates(),
        all_targets(bs@).contains(cur@),
        forall|i: int| 0 <= i < old(path)@.len() ==> all_targets(bs@).contains(#[trigger] strings_view(old(path)@)[i]),
    ensures
        match r {
            Ok(_) => strings_view(final(path)@) == strings_view(old(path)@) && loop_free_from(
                bs@,
                strings_view(old(path)@),
                cur@,
            ),
            Err(p) => exists|w: Seq<Seq<char>>|
                #[trigger] walk_from(bs@, cur@, w) && strings_view(p@) == strings_view(old(path)@) + w
                    && !strings_view(p@).no_duplicates(),
        },
    decreases all_targets(bs@).len() - old(path)@.len(),
{
    let ghost u = all_targets(bs@);
    let ghost p0 = strings_view(path@);
    assert(p0.len() == old(path)@.len());
    if contains_name(path, cur.as_str()) {
        let mut p = copy_strings(path);
        p.push(copy_string(cur));
        proof {
            let w = seq![cur@];
            assert(walk_from(bs@, cur@, w));
            assert(strings_view(p@) =~= p0 + w);
            let j = choose|j: int| 0 <= j < p0.len() && p0[j] == cur@;
            assert(strings_view(p@)[j] == strings_view(p@)[p0.len() as int]);
        }
        return Err(p);
    }
    let ghost p1 = p0.push(cur@);
    path.push(copy_string(cur));
    proof {
        assert(strings_view(path@) =~= p1);
        assert(p1.no_duplicates()) by {
            assert forall|a: int, b: int| 0 <= a < b < p1.len() implies p1[a] != p1[b] by {
                if b == p0.len() {
                    assert(p0[a] != cur@);
                }
            }
        }
        assert forall|i: int| 0 <= i < p1.len() implies u.contains(#[trigger] p1[i]) by {
            if i < p0.len() {
                assert(p1[i] == p0[i]);
            }
        }
        lemma_distinct_bound(p1, u);
    }
    match default_binding(bs, cur.as_str()) {
        None => {
            let ghost pre = path@;
            path.pop();
            proof {
                assert(strings_view(path@) =~= strings_view(pre).drop_last());
                assert(strings_view(path@) =~= p0);
                assert(successors(bs@, cur@) =~= Seq::<Seq<char>>::empty());
                assert forall|w: Seq<Seq<char>>| #[trigger] walk_from(bs@, cur@, w) implies (p0 + w).no_duplicates() by {
                    if w.len() > 1 {
                        let i: int = 0;
                        assert(successors(bs@, w[i]).contains(w[i + 1]));
                    }
                    assert(w =~= seq![cur@]);
                    assert(p0 + w =~= p1);
                }
            }
            Ok(())
        },
        Some(k) => {
            proof {
                lemma_default_index(bs@, cur@);
                let di = default_index(bs@, cur@);
                assert(di is Some);
                assert(di->0 < bs@.len());
                assert(di->0 < bs.len());
                assert(di == Some(k as nat));
            }
            let acts = &bs[k].actions;
            let ghost av = acts@;
            let mut j: usize = 0;
            proof {
                assert(av.take(0) =~= Seq::<BindAction>::empty());
            }
            while j < acts.len()
                invariant
                    k < bs@.len(),
                    av == bs@[k as int].actions@,
                    acts@ == av,
                    j <= av.len(),
                    u == all_targets(bs@),
                    strings_view(path@) == p1,
                    path@.len() == p1.len(),
                    p1.len() == p0.len() + 1,
                    p1 == p0.push(cur@),
                    p0.len() == old(path)@.len(),
                    p0 == strings_view(old(path)@),
                    default_index(bs@, cur@) == Some(k as nat),
                    p1.no_duplicates(),
                    p1.len() <= u.len(),
                    forall|i: int| 0 <= i < p1.len() ==> u.contains(#[trigger] p1[i]),
                    forall|t: Seq<char>| #[trigger] targets_of(av.take(j as int)).contains(t) ==> loop_free_from(
                        bs@,
                        p1,
                        t,
                    ),
                decreases av.len() - j,
            {
                proof {
                    lemma_take_targets(av, j as int);
                }
                match &acts[j] {
                    BindAction::Semantic(next) => {
                        proof {
                            assert(targets_of(av).contains(next@)) by {
                                lemma_concat_contains(targets_of(av.take(j as int)), seq![next@], next@);
                                assert(seq![next@][0] == next@);
                                lemma_take_prefix_targets(av, (j + 1) as nat, next@);
                            }
                            lemma_targets_in_all(bs@, k as int, next@);
                        }
                        let res = follow(bs, next, path);
                        match res {
                            Err(p) => {
                                proof {
                                    let w2 = choose|w2: Seq<Seq<char>>|
                                        #[trigger] walk_from(bs@, next@, w2) && strings_view(p@) == p1 + w2
                                            && !strings_view(p@).no_duplicates();
                                    let w = seq![cur@] + w2;
                                    assert(successors(bs@, cur@) == targets_of(av));
                                    assert forall|i: int| 0 <= i < w.len() - 1 implies #[trigger] successors(
                                        bs@,
                                        w[i],
                                    ).contains(w[i + 1]) by {
                                        if i > 0 {
                                            let j = i - 1;
                                            assert(w[i] == w2[j] && w[i + 1] == w2[j + 1]);
                                            assert(successors(bs@, w2[j]).contains(w2[j + 1]));
                                        } else {
                                            assert(w[0] == cur@ && w[1] == w2[0] && w2[0] == next@);
                                        }
                                    }
                                    assert(walk_from(bs@, cur@, w));
                                    assert(p1 + w2 =~= p0 + w);
                                    assert(strings_view(p@) =~= p0 + w);
                                }
                                return Err(p);
                            },
                            Ok(_) => {
                                proof {
                                    assert(path@.len() == strings_view(path@).len());
                                }
                            },
                        }
                        proof {
                            assert forall|t: Seq<char>| #[trigger] targets_of(av.take(j + 1)).contains(
                                t,
                            ) implies loop_free_from(bs@, p1, t) by {
                                lemma_concat_contains(targets_of(av.take(j as int)), seq![next@], t);
                            }
                        }
                    },
                    _ => {
                        proof {
                            assert(targets_of(av.take(j + 1)) =~= targets_of(av.take(j as int)));
                        }
                    },
                }
                j = j + 1;
            }
            let ghost pre = path@;
            path.pop();
            proof {
                assert(strings_view(path@) =~= strings_view(pre).drop_last());
                assert(strings_view(path@) =~= p0);
                assert(av.take(j as int) =~= av);
                assert(successors(bs@, cur@) == targets_of(av));
                assert forall|w: Seq<Seq<char>>| #[trigger] walk_from(bs@, cur@, w) implies (p0 + w).no_duplicates() by {
                    if w.len() == 1 {
                        assert(p0 + w =~= p1);
                    } else {
                        let w2 = w.drop_first();
                        let i0: int = 0;
                        assert(successors(bs@, w[i0]).contains(w[i0 + 1]));
                        assert forall|i: int| 0 <= i < w2.len() - 1 implies #[trigger] successors(
                            bs@,
                            w2[i],
                        ).contains(w2[i + 1]) by {
                            assert(w2[i] == w[i + 1] && w2[i + 1] == w[i + 2]);
                            assert(successors(bs@, w[i + 1]).contains(w[i + 2]));
                        }
                        assert(walk_from(bs@, w[1], w2));
                        assert(p0 + w =~= p1 + w2);
                    }
                }
            }
            Ok(())
        },
    }
}

/// An alias named in a prefix of the actions is named in all of them.
proof fn lemma_take_prefix_targets(acts: Seq<BindAction>, j: nat, t: Seq<char>)
    requires
        j <= acts.len(),
        targets_of(acts.take(j as int)).contains(t),
    ensures
        targets_of(acts).contains(t),
    decreases acts.len() - j,
{
    if j < acts.len() {
        lemma_take_targets(acts, j as int);
        lemma_concat_contains(
            targets_of(acts.take(j as int)),
            match acts[j as int] {
                BindAction::Semantic(n) => seq![n@],
                _ => Seq::empty(),
            },
            t,
        );
        lemma_take_prefix_targets(acts, j + 1, t);
    } else {
        assert(acts.take(j as int) =~= acts);
    }
}

/// Checks that following aliases from any alias an action names never
/// comes back to an alias already passed: `Err` with the aliases passed,
/// the last one met again, when it does.
pub fn check_cycles(bs: &Vec<SemanticBind>) -> (r: Result<(), Vec<String>>)
    ensures
        r is Ok <==> loop_free(bs@),
        r matches Err(p) ==> exists|t: Seq<char>, w: Seq<Seq<char>>|
            all_targets(bs@).contains(t) && #[trigger] walk_from(bs@, t, w) && strings_view(p@) == w
                && !w.no_duplicates(),
{
    let mut k: usize = 0;
    proof {
        assert(bs@.take(0) =~= Seq::<SemanticBind>::empty());
    }
    while k < bs.len()
        invariant
            k <= bs@.len(),
            forall|t: Seq<char>| #[trigger] all_targets(bs@.take(k as int)).contains(t) ==> loop_free_from(
                bs@,
                Seq::empty(),
                t,
            ),
        decreases bs@.len() - k,
    {
        let acts = &bs[k].actions;
        let ghost av = acts@;
        let ghost before = all_targets(bs@.take(k as int));
        proof {
            assert(bs@.take(k + 1).drop_last() =~= bs@.take(k as int));
            assert(all_targets(bs@.take(k + 1)) == before + targets_of(av));
            assert(av.take(0) =~= Seq::<BindAction>::empty());
        }
        let mut j: usize = 0;
        while j < acts.len()
            invariant
                k < bs@.len(),
                av == bs@[k as int].actions@,
                acts@ == av,
                j <= av.len(),
                before == all_targets(bs@.take(k as int)),
                forall|t: Seq<char>| #[trigger] before.contains(t) ==> loop_free_from(bs@, Seq::empty(), t),
                forall|t: Seq<char>| #[trigger] targets_of(av.take(j as int)).contains(t) ==> loop_free_from(
                    bs@,
                    Seq::empty(),
                    t,
                ),
            decreases av.len() - j,
        {
            proof {
                lemma_take_targets(av, j as int);
            }
            match &acts[j] {
                BindAction::Semantic(s) => {
                    proof {
                        lemma_concat_contains(targets_of(av.take(j as int)), seq![s@], s@);
                        assert(seq![s@][0] == s@);
                        lemma_take_prefix_targets(av, (j + 1) as nat, s@);
                        lemma_targets_in_all(bs@, k as int, s@);
                    }
                    let mut path: Vec<String> = Vec::new();
                    proof {
                        assert(strings_view(path@) =~= Seq::<Seq<char>>::empty());
                    }
                    match follow(bs, s, &mut path) {
                        Err(p) => {
                            proof {
                                let w = choose|w: Seq<Seq<char>>|
                                    #[trigger] walk_from(bs@, s@, w) && strings_view(p@) == Seq::<Seq<char>>::empty()
                                        + w && !strings_view(p@).no_duplicates();
                                assert(Seq::<Seq<char>>::empty() + w =~= w);
                                assert(!loop_free_from(bs@, Seq::empty(), s@));
                            }
                            return Err(p);
                        },
                        Ok(_) => {},
                    }
                    proof {
                        assert forall|t: Seq<char>| #[trigger] targets_of(av.take(j + 1)).contains(t) implies loop_free_from(
                            bs@,
                            Seq::empty(),
                            t,
                        ) by {
                            lemma_concat_contains(targets_of(av.take(j as int)), seq![s@], t);
                        }
                    }
                },
                _ => {
                    proof {
                        assert(targets_of(av.take(j + 1)) =~= targets_of(av.take(j as int)));
                    }
                },
            }
            j = j + 1;
        }
        proof {
            assert(av.take(j as int) =~= av);
            assert forall|t: Seq<char>| #[trigger] all_targets(bs@.take(k + 1)).contains(t) implies loop_free_from(
                bs@,
                Seq::empty(),
                t,
            ) by {
                lemma_concat_contains(before, targets_of(av), t);
            }
        }
        k = k + 1;
    }
    proof {
        assert(bs@.take(k as int) =~= bs@);
    }
    Ok(())
}

/// Whether a binding of `alias` is for some modes only, and they match
/// `mode`.
pub open spec fn specific_match(b: SemanticBind, alias: Seq<char>, mode: Seq<Seq<char>>) -> bool {
    &&& b.name@ == alias
    &&& !for_all_modes(b)
    &&& filter_matches(b.mode.positive(), b.mode.negative(), mode)
}

/// The first binding of `alias` for some modes that match `mode`.
pub open spec fn first_specific(bs: Seq<SemanticBind>, alias: Seq<char>, mode: Seq<Seq<char>>) -> Option<nat>
    decreases bs.len(),
{
    if bs.len() == 0 {
        None
    } else {
        match first_specific(bs.drop_last(), alias, mode) {
            Some(k) => Some(k),
            None => if specific_match(bs.last(), alias, mode) {
                Some((bs.len() - 1) as nat)
            } else {
                None
            },
        }
    }
}

/// The last binding of `alias` for every mode.
pub open spec fn last_default(bs: Seq<SemanticBind>, alias: Seq<char>) -> Option<nat>
    decreases bs.len(),
{
    if bs.len() == 0 {
        None
    } else if bs.last().name@ == alias && for_all_modes(bs.last()) {
        Some((bs.len() - 1) as nat)
    } else {
        last_default(bs.drop_last(), alias)
    }
}

/// The binding `alias` resolves to in `mode`: the first one for some modes
/// that match, else the last one for every mode.
pub open spec fn alias_choice(bs: Seq<SemanticBind>, alias: Seq<char>, mode: Seq<Seq<char>>) -> Option<nat> {
    match first_specific(bs, alias, mode) {
        Some(k) => Some(k),
        None => last_default(bs, alias),
    }
}

proof fn lemma_specific_prefix(bs: Seq<SemanticBind>, alias: Seq<char>, mode: Seq<Seq<char>>, k: nat)
    requires
        k <= bs.len(),
        first_specific(bs.take(k as int), alias, mode) is Some,
    ensures
        first_specific(bs, alias, mode) == first_specific(bs.take(k as int), alias, mode),
    decreases bs.len() - k,
{
    if k < bs.len() {
        assert(bs.take(k + 1 as int).drop_last() =~= bs.take(k as int));
        lemma_specific_prefix(bs, alias, mode, k + 1);
    } else {
        assert(bs.take(k as int) =~= bs);
    }
}

/// The place of the binding `alias` resolves to in `mode` (see
/// [`alias_choice`]).
pub fn resolve_alias(bs: &Vec<SemanticBind>, alias: &str, mode: &Vec<String>) -> (r: Option<usize>)
    ensures
        r == match alias_choice(bs@, alias@, strings_view(mode@)) {
            Some(k) => Some(k as usize),
            None => None::<usize>,
        },
        r matches Some(k) ==> k < bs@.len(),
{
    let ghost m = strings_view(mode@);
    let mut fallback: Option<usize> = None;
    let mut k: usize = 0;
    proof {
        assert(bs@.take(0) =~= Seq::<SemanticBind>::empty());
    }
    while k < bs.len()
        invariant
            k <= bs@.len(),
            m == strings_view(mode@),
            first_specific(bs@.take(k as int), alias@, m) is None,
            fallback == match last_default(bs@.take(k as int), alias@) {
                Some(i) => Some(i as usize),
                None => None::<usize>,
            },
            fallback matches Some(i) ==> i < k,
        decreases bs@.len() - k,
    {
        proof {
            assert(bs@.take(k + 1).drop_last() =~= bs@.take(k as int));
            assert(bs@.take(k + 1).last() == bs@[k as int]);
        }
        let b = &bs[k];
        if str_eq(b.name.as_str(), alias) {
            let every = b.mode.is_empty();
            if !every && b.mode.matches(mode.as_slice()) {
                proof {
                    lemma_specific_prefix(bs@, alias@, m, (k + 1) as nat);
                }
                return Some(k);
            }
            if every {
                fallback = Some(k);
            }
        }
        k = k + 1;
    }
    proof {
        assert(bs@.take(k as int) =~= bs@);
        lemma_last_default_bound(bs@, alias@);
    }
    fallback
}

proof fn lemma_last_default_bound(bs: Seq<SemanticBind>, alias: Seq<char>)
    ensures
        last_default(bs, alias) matches Some(k) ==> k < bs.len(),
    decreases bs.len(),
{
    if bs.len() > 0 {
        lemma_last_default_bound(bs.drop_last(), alias);
    }
}

/// An action as a value: its alias or trace text as characters.
pub ghost enum ActionView {
    Semantic(Seq<char>),
    Trace(Seq<char>),
    Other(u32),
}

/// The value of an action.
pub open spec fn action_view(a: BindAction) -> ActionView {
    match a {
        BindAction::Semantic(s) => ActionView::Semantic(s@),
        BindAction::Trace(s) => ActionView::Trace(s@),
        BindAction::Other(n) => ActionView::Other(n),
    }
}

/// The values of actions.
pub open spec fn actions_view(acts: Seq<BindAction>) -> Seq<ActionView> {
    acts.map_values(|a: BindAction| action_view(a))
}

/// Whether some action is an alias.
pub open spec fn has_alias(acts: Seq<ActionView>) -> bool {
    exists|i: int| 0 <= i < acts.len() && #[trigger] acts[i] is Semantic
}

/// The actions with the alias `alias` put in place of it: in trace markers
/// (`@@alias`, then an empty one) unless they start with a trace or a
/// trace is open.
pub open spec fn spliced(res: Seq<ActionView>, in_trace: bool, alias: Seq<char>, flat: Seq<ActionView>) -> Seq<ActionView> {
    if !(flat.len() > 0 && flat[0] is Trace) && !in_trace {
        res + seq![ActionView::Trace(seq!['@', '@'] + alias)] + flat + seq![ActionView::Trace(Seq::empty())]
    } else {
        res + flat
    }
}

/// The actions `acts` with every alias resolved in `mode` (see
/// [`alias_choice`]), following nested aliases at most `fuel` deep, and
/// whether a trace is open after them; `None` when an alias does not
/// resolve (or nests deeper).
pub open spec fn resolve_prefix(
    bs: Seq<SemanticBind>,
    acts: Seq<ActionView>,
    mode: Seq<Seq<char>>,
    fuel: nat,
) -> Option<(Seq<ActionView>, bool)>
    decreases fuel, acts.len(), 0nat,
{
    if acts.len() == 0 {
        Some((Seq::empty(), false))
    } else {
        match resolve_prefix(bs, acts.drop_last(), mode, fuel) {
            None => None,
            Some((res, in_trace)) => match acts.last() {
                ActionView::Semantic(alias) => match alias_choice(bs, alias, mode) {
                    None => None,
                    Some(k) => {
                        let aa = if k < bs.len() {
                            actions_view(bs[k as int].actions@)
                        } else {
                            Seq::empty()
                        };
                        let flat = if has_alias(aa) {
                            if fuel == 0 {
                                None
                            } else {
                                resolved_actions(bs, aa, mode, (fuel - 1) as nat)
                            }
                        } else {
                            Some(aa)
                        };
                        match flat {
                            None => None,
                            Some(f) => Some((spliced(res, in_trace, alias, f), in_trace)),
                        }
                    },
                },
                ActionView::Trace(t) => Some((res.push(acts.last()), t.len() > 0)),
                _ => Some((res.push(acts.last()), in_trace)),
            },
        }
    }
}

/// The actions with every alias resolved (see [`resolve_prefix`]);
/// `None` also when nothing is left.
pub open spec fn resolved_actions(bs: Seq<SemanticBind>, acts: Seq<ActionView>, mode: Seq<Seq<char>>, fuel: nat) -> Option<
    Seq<ActionView>,
>
    decreases fuel, acts.len(), 1nat,
{
    match resolve_prefix(bs, acts, mode, fuel) {
        Some((r, _)) => if r.len() == 0 {
            None
        } else {
            Some(r)
        },
        None => None,
    }
}

/// A copy of an action.
fn copy_action(a: &BindAction) -> (r: BindAction)
    ensures
        action_view(r) == action_view(*a),
{
    match a {
        BindAction::Semantic(s) => BindAction::Semantic(copy_string(s)),
        BindAction::Trace(s) => BindAction::Trace(copy_string(s)),
        BindAction::Other(n) => BindAction::Other(*n),
    }
}

/// Appends copies of `src` to `dst`.
fn append_actions(dst: &mut Vec<BindAction>, src: &Vec<BindAction>)
    ensures
        actions_view(final(dst)@) == actions_view(old(dst)@) + actions_view(src@),
{
    let mut k: usize = 0;
    while k < src.len()
        invariant
            k <= src@.len(),
            actions_view(dst@) == actions_view(old(dst)@) + actions_view(src@).take(k as int),
        decreases src@.len() - k,
    {
        let ghost before = actions_view(dst@);
        let c = copy_action(&src[k]);
        let ghost cv = action_view(c);
        dst.push(c);
        proof {
            assert(actions_view(dst@) =~= before.push(cv));
            assert(actions_view(dst@) =~= actions_view(old(dst)@) + actions_view(src@).take(k + 1));
        }
        k = k + 1;
    }
    proof {
        assert(actions_view(src@).take(k as int) =~= actions_view(src@));
    }
}

/// Whether some action is an alias (see [`has_alias`]).
fn any_alias(acts: &Vec<BindAction>) -> (r: bool)
    ensures
        r == has_alias(actions_view(acts@)),
{
    let mut k: usize = 0;
    while k < acts.len()
        invariant
            k <= acts@.len(),
            forall|i: int| 0 <= i < k ==> !(#[trigger] actions_view(acts@)[i] is Semantic),
        decreases acts@.len() - k,
    {
        match &acts[k] {
            BindAction::Semantic(_) => {
                proof {
                    assert(actions_view(acts@)[k as int] is Semantic);
                }
                return true;
            },
            _ => {},
        }
        k = k + 1;
    }
    false
}

/// The binding an alias resolves to is one of the bindings.
proof fn lemma_alias_choice_bound(bs: Seq<SemanticBind>, alias: Seq<char>, mode: Seq<Seq<char>>)
    ensures
        alias_choice(bs, alias, mode) matches Some(k) ==> k < bs.len(),
    decreases bs.len(),
{
    lemma_first_specific_bound(bs, alias, mode);
    lemma_last_default_bound(bs, alias);
}

proof fn lemma_first_specific_bound(bs: Seq<SemanticBind>, alias: Seq<char>, mode: Seq<Seq<char>>)
    ensures
        first_specific(bs, alias, mode) matches Some(k) ==> k < bs.len(),
    decreases bs.len(),
{
    if bs.len() > 0 {
        lemma_first_specific_bound(bs.drop_last(), alias, mode);
    }
}

/// Once a prefix of the actions fails to resolve, all of them do.
proof fn lemma_prefix_none(bs: Seq<SemanticBind>, acts: Seq<ActionView>, mode: Seq<Seq<char>>, fuel: nat, j: nat)
    requires
        j <= acts.len(),
        resolve_prefix(bs, acts.take(j as int), mode, fuel) is None,
    ensures
        resolve_prefix(bs, acts, mode, fuel) is None,
    decreases acts.len() - j,
{
    if j < acts.len() {
        assert(acts.take(j + 1 as int).drop_last() =~= acts.take(j as int));
        lemma_prefix_none(bs, acts, mode, fuel, j + 1);
    } else {
        assert(acts.take(j as int) =~= acts);
    }
}

/// Resolves the aliases of `acts` in `mode`, at most `fuel` deep (see
/// [`resolved_actions`]).
fn resolve_with_fuel(bs: &Vec<SemanticBind>, acts: &Vec<BindAction>, mode: &Vec<String>, fuel: usize) -> (r: Option<
    Vec<BindAction>,
>)
    ensures
        match resolved_actions(bs@, actions_view(acts@), strings_view(mode@), fuel as nat) {
            Some(v) => r matches Some(x) && actions_view(x@) == v,
            None => r is None,
        },
    decreases fuel, acts@.len(), 1nat,
{
    let ghost av = actions_view(acts@);
    let ghost m = strings_view(mode@);
    let mut res: Vec<BindAction> = Vec::new();
    let mut in_trace = false;
    let mut i: usize = 0;
    proof {
        assert(av.take(0) =~= Seq::<ActionView>::empty());
        assert(actions_view(res@) =~= Seq::<ActionView>::empty());
    }
    while i < acts.len()
        invariant
            i <= acts@.len(),
            av == actions_view(acts@),
            m == strings_view(mode@),
            resolve_prefix(bs@, av.take(i as int), m, fuel as nat) == Some((actions_view(res@), in_trace)),
        decreases acts@.len() - i,
    {
        proof {
            assert(av.take(i + 1).drop_last() =~= av.take(i as int));
            assert(av.take(i + 1).last() == action_view(acts@[i as int]));
        }
        let ghost before = actions_view(res@);
        match &acts[i] {
            BindAction::Semantic(alias) => {
                match resolve_alias(bs, alias.as_str(), mode) {
                    None => {
                        proof {
                            lemma_prefix_none(bs@, av, m, fuel as nat, (i + 1) as nat);
                        }
                        return None;
                    },
                    Some(k) => {
                        proof {
                            lemma_alias_choice_bound(bs@, alias@, m);
                            let ac = alias_choice(bs@, alias@, m);
                            assert(ac is Some);
                            assert(ac->0 < bs.len());
                            assert(ac == Some(k as nat));
                        }
                        let aa = &bs[k].actions;
                        let nested = any_alias(aa);
                        let flat: Vec<BindAction> = if nested {
                            if fuel == 0 {
                                proof {
                                    lemma_prefix_none(bs@, av, m, fuel as nat, (i + 1) as nat);
                                }
                                return None;
                            }
                            match resolve_with_fuel(bs, aa, mode, fuel - 1) {
                                None => {
                                    proof {
                                        lemma_prefix_none(bs@, av, m, fuel as nat, (i + 1) as nat);
                                    }
                                    return None;
                                },
                                Some(f) => f,
                            }
                        } else {
                            let mut f: Vec<BindAction> = Vec::new();
                            append_actions(&mut f, aa);
                            proof {
                                assert(actions_view(f@) =~= actions_view(aa@));
                            }
                            f
                        };
                        let starts_traced = flat.len() > 0 && match &flat[0] {
                            BindAction::Trace(_) => true,
                            _ => false,
                        };
                        proof {
                            if flat@.len() > 0 {
                                assert(actions_view(flat@)[0] == action_view(flat@[0]));
                            }
                        }
                        if !starts_traced && !in_trace {
                            let mut mark = String::new();
                            push_str(&mut mark, "@@");
                            push_str(&mut mark, alias.as_str());
                            proof {
                                reveal_strlit("@@");
                                assert("@@"@ =~= seq!['@', '@']);
                            }
                            let ghost b0 = actions_view(res@);
                            let ghost mv = mark@;
                            res.push(BindAction::Trace(mark));
                            proof {
                                assert(actions_view(res@) =~= b0.push(ActionView::Trace(mv)));
                            }
                            append_actions(&mut res, &flat);
                            let ghost b1 = actions_view(res@);
                            res.push(BindAction::Trace(String::new()));
                            proof {
                                assert(actions_view(res@) =~= b1.push(ActionView::Trace(Seq::empty())));
                                assert(actions_view(res@) =~= spliced(before, in_trace, alias@, actions_view(flat@)));
                            }
                        } else {
                            append_actions(&mut res, &flat);
                        }
                    },
                }
            },
            BindAction::Trace(t) => {
                let c = copy_action(&acts[i]);
                let ghost cv = action_view(c);
                res.push(c);
                in_trace = t.unicode_len() > 0;
                proof {
                    assert(actions_view(res@) =~= before.push(cv));
                }
            },
            BindAction::Other(_) => {
                let c = copy_action(&acts[i]);
                let ghost cv = action_view(c);
                res.push(c);
                proof {
                    assert(actions_view(res@) =~= before.push(cv));
                }
            },
        }
        i = i + 1;
    }
    proof {
        assert(av.take(i as int) =~= av);
    }
    if res.len() == 0 {
        None
    } else {
        Some(res)
    }
}

/// The actions with every alias resolved in `mode` (see
/// [`resolved_actions`]), following nested aliases at most as deep as
/// there are bindings: deeper, an alias comes back to itself and would be
/// followed for ever. `None` when an alias does not resolve, or nothing is
/// left.
pub fn resolve_actions(bs: &Vec<SemanticBind>, acts: &Vec<BindAction>, mode: &Vec<String>) -> (r: Option<
    Vec<BindAction>,
>)
    ensures
        match resolved_actions(bs@, actions_view(acts@), strings_view(mode@), bs@.len()) {
            Some(v) => r matches Some(x) && actions_view(x@) == v,
            None => r is None,
        },
{
    resolve_with_fuel(bs, acts, mode, bs.len())
}

/// What a lone alias resolves to: the actions of its binding, resolved in
/// turn when they hold aliases. When those start with a trace (an inner
/// alias's name), they are the result as they are: the inner name stands
/// for the outer one. Otherwise they are wrapped in a `@@alias` trace and
/// an empty one that closes it.
pub proof fn law_alias_expansion(
    bs: Seq<SemanticBind>,
    alias: Seq<char>,
    mode: Seq<Seq<char>>,
    fuel: nat,
    k: nat,
    f: Seq<ActionView>,
)
    requires
        alias_choice(bs, alias, mode) == Some(k),
        ({
            let aa = if k < bs.len() {
                actions_view(bs[k as int].actions@)
            } else {
                Seq::empty()
            };
            (if has_alias(aa) {
                resolved_actions(bs, aa, mode, fuel)
            } else {
                Some(aa)
            }) == Some(f)
        }),
    ensures
        f.len() > 0 && f[0] is Trace ==> resolved_actions(bs, seq![ActionView::Semantic(alias)], mode, fuel + 1)
            == Some(f),
        !(f.len() > 0 && f[0] is Trace) ==> resolved_actions(bs, seq![ActionView::Semantic(alias)], mode, fuel + 1)
            == Some(seq![ActionView::Trace(seq!['@', '@'] + alias)] + f + seq![ActionView::Trace(Seq::empty())]),
{
    let acts = seq![ActionView::Semantic(alias)];
    assert(acts.drop_last() =~= Seq::<ActionView>::empty());
    assert(acts.last() == ActionView::Semantic(alias));
    let aa = if k < bs.len() {
        actions_view(bs[k as int].actions@)
    } else {
        Seq::empty()
    };
    if has_alias(aa) {
        assert(resolved_actions(bs, aa, mode, (fuel + 1 - 1) as nat) == Some(f));
    }
    assert(Seq::<ActionView>::empty() + f =~= f);
    assert(resolve_prefix(bs, Seq::<ActionView>::empty(), mode, fuel + 1) == Some((Seq::<ActionView>::empty(), false)));
    if !(f.len() > 0 && f[0] is Trace) {
        let r = Seq::<ActionView>::empty() + seq![ActionView::Trace(seq!['@', '@'] + alias)] + f + seq![
            ActionView::Trace(Seq::empty()),
        ];
        assert(r =~= seq![ActionView::Trace(seq!['@', '@'] + alias)] + f + seq![ActionView::Trace(Seq::empty())]);
        assert(r.len() > 0);
    }
}

proof fn lemma_no_alias_concat(a: Seq<ActionView>, b: Seq<ActionView>)
    requires
        !has_alias(a),
        !has_alias(b),
    ensures
        !has_alias(a + b),
{
    assert forall|i: int| 0 <= i < (a + b).len() implies !(#[trigger] (a + b)[i] is Semantic) by {
        if i < a.len() {
            assert((a + b)[i] == a[i]);
            if a[i] is Semantic {
                assert(has_alias(a));
            }
        } else {
            assert((a + b)[i] == b[i - a.len()]);
            if b[i - a.len()] is Semantic {
                assert(has_alias(b));
            }
        }
    }
}

proof fn lemma_resolve_prefix_no_alias(bs: Seq<SemanticBind>, acts: Seq<ActionView>, mode: Seq<Seq<char>>, fuel: nat)
    ensures
        resolve_prefix(bs, acts, mode, fuel) matches Some((r, _)) ==> !has_alias(r),
    decreases fuel, acts.len(),
{
    if acts.len() > 0 {
        lemma_resolve_prefix_no_alias(bs, acts.drop_last(), mode, fuel);
        match resolve_prefix(bs, acts.drop_last(), mode, fuel) {
            None => {},
            Some((res, in_trace)) => {
                match acts.last() {
                    ActionView::Semantic(alias) => match alias_choice(bs, alias, mode) {
                        None => {},
                        Some(k) => {
                            let aa = if k < bs.len() {
                                actions_view(bs[k as int].actions@)
                            } else {
                                Seq::empty()
                            };
                            if has_alias(aa) && fuel > 0 {
                                lemma_resolve_prefix_no_alias(bs, aa, mode, (fuel - 1) as nat);
                            }
                            let flat = if has_alias(aa) {
                                if fuel == 0 {
                                    None
                                } else {
                                    resolved_actions(bs, aa, mode, (fuel - 1) as nat)
                                }
                            } else {
                                Some(aa)
                            };
                            match flat {
                                None => {},
                                Some(f) => {
                                    let open = seq![ActionView::Trace(seq!['@', '@'] + alias)];
                                    let close = seq![ActionView::Trace(Seq::<char>::empty())];
                                    assert(!has_alias(open)) by {
                                        if has_alias(open) {
                                            let i = choose|i: int| 0 <= i < open.len() && #[trigger] open[i] is Semantic;
                                            assert(open[i] == open[0]);
                                        }
                                    }
                                    assert(!has_alias(close)) by {
                                        if has_alias(close) {
                                            let i = choose|i: int| 0 <= i < close.len() && #[trigger] close[i] is Semantic;
                                            assert(close[i] == close[0]);
                                        }
                                    }
                                    lemma_no_alias_concat(res, f);
                                    lemma_no_alias_concat(res, open);
                                    lemma_no_alias_concat(res + open, f);
                                    lemma_no_alias_concat(res + open + f, close);
                                },
                            }
                        },
                    },
                    _ => {
                        let one = seq![acts.last()];
                        assert(!has_alias(one)) by {
                            if has_alias(one) {
                                let i = choose|i: int| 0 <= i < one.len() && #[trigger] one[i] is Semantic;
                                assert(one[i] == acts.last());
                            }
                        }
                        lemma_no_alias_concat(res, one);
                        assert(res.push(acts.last()) =~= res + one);
                    },
                }
            },
        }
    }
}

/// Resolving leaves no alias: every alias is replaced by the actions it
/// stands for (or the whole resolution fails), and nothing resolves to an
/// empty list; actions without any alias resolve to themselves.
pub proof fn law_resolution_leaves_no_alias(bs: Seq<SemanticBind>, acts: Seq<ActionView>, mode: Seq<Seq<char>>, fuel: nat)
    ensures
        resolved_actions(bs, acts, mode, fuel) matches Some(r) ==> !has_alias(r) && r.len() > 0,
        !has_alias(acts) && acts.len() > 0 ==> resolved_actions(bs, acts, mode, fuel) == Some(acts),
{
    lemma_resolve_prefix_no_alias(bs, acts, mode, fuel);
    if !has_alias(acts) {
        lemma_plain_actions_pass(bs, acts, mode, fuel);
    }
}

/// Actions without aliases pass through unchanged.
proof fn lemma_plain_actions_pass(bs: Seq<SemanticBind>, acts: Seq<ActionView>, mode: Seq<Seq<char>>, fuel: nat)
    requires
        !has_alias(acts),
    ensures
        resolve_prefix(bs, acts, mode, fuel) matches Some((r, _)) && r == acts,
    decreases acts.len(),
{
    if acts.len() > 0 {
        assert(!has_alias(acts.drop_last())) by {
            if has_alias(acts.drop_last()) {
                let i = choose|i: int| 0 <= i < acts.drop_last().len() && #[trigger] acts.drop_last()[i] is Semantic;
                assert(acts[i] is Semantic);
            }
        }
        lemma_plain_actions_pass(bs, acts.drop_last(), mode, fuel);
        assert(!(acts[acts.len() - 1] is Semantic));
        assert(acts.drop_last().push(acts.last()) =~= acts);
    }
}

proof fn lemma_first_specific_spec(bs: Seq<SemanticBind>, alias: Seq<char>, mode: Seq<Seq<char>>)
    ensures
        first_specific(bs, alias, mode) matches Some(k) ==> k < bs.len() && specific_match(bs[k as int], alias, mode)
            && forall|j: int| 0 <= j < k ==> !specific_match(bs[j], alias, mode),
        first_specific(bs, alias, mode) is None ==> forall|j: int| 0 <= j < bs.len() ==> !specific_match(bs[j], alias, mode),
    decreases bs.len(),
{
    if bs.len() > 0 {
        lemma_first_specific_spec(bs.drop_last(), alias, mode);
        assert forall|j: int| 0 <= j < bs.len() - 1 implies bs.drop_last()[j] == bs[j] by {}
    }
}

proof fn lemma_last_default_spec(bs: Seq<SemanticBind>, alias: Seq<char>)
    ensures
        last_default(bs, alias) matches Some(k) ==> k < bs.len() && bs[k as int].name@ == alias && for_all_modes(
            bs[k as int],
        ) && forall|j: int| k < j < bs.len() ==> !(bs[j].name@ == alias && for_all_modes(bs[j])),
        last_default(bs, alias) is None ==> forall|j: int|
            0 <= j < bs.len() ==> !(bs[j].name@ == alias && for_all_modes(bs[j])),
    decreases bs.len(),
{
    if bs.len() > 0 {
        lemma_last_default_spec(bs.drop_last(), alias);
        assert forall|j: int| 0 <= j < bs.len() - 1 implies bs.drop_last()[j] == bs[j] by {}
    }
}

/// An alias resolves to a binding of that name: the first one whose modes
/// are given and match, when there is one; else the last one for every
/// mode; and to none only when neither exists.
pub proof fn law_alias_resolves_to_its_binding(bs: Seq<SemanticBind>, alias: Seq<char>, mode: Seq<Seq<char>>)
    ensures
        alias_choice(bs, alias, mode) matches Some(k) ==> k < bs.len() && bs[k as int].name@ == alias,
        (exists|j: int| 0 <= j < bs.len() && #[trigger] specific_match(bs[j], alias, mode)) ==> (alias_choice(
            bs,
            alias,
            mode,
        ) matches Some(k) && specific_match(bs[k as int], alias, mode) && forall|j: int|
            0 <= j < k ==> !specific_match(bs[j], alias, mode)),
        (forall|j: int| 0 <= j < bs.len() ==> !#[trigger] specific_match(bs[j], alias, mode)) ==> {
            &&& (alias_choice(bs, alias, mode) is Some <==> exists|j: int|
                0 <= j < bs.len() && bs[j].name@ == alias && #[trigger] for_all_modes(bs[j]))
            &&& alias_choice(bs, alias, mode) matches Some(k) ==> k < bs.len() && bs[k as int].name@ == alias
                && for_all_modes(bs[k as int]) && forall|j: int|
                k < j < bs.len() ==> !(bs[j].name@ == alias && #[trigger] for_all_modes(bs[j]))
        },
        alias_choice(bs, alias, mode) is None ==> forall|j: int| 0 <= j < bs.len() ==> !(bs[j].name@ == alias && (
        for_all_modes(bs[j]) || #[trigger] specific_match(bs[j], alias, mode))),
{
    lemma_first_specific_spec(bs, alias, mode);
    lemma_last_default_spec(bs, alias);
    if exists|j: int| 0 <= j < bs.len() && #[trigger] specific_match(bs[j], alias, mode) {
        let j = choose|j: int| 0 <= j < bs.len() && #[trigger] specific_match(bs[j], alias, mode);
        assert(first_specific(bs, alias, mode) is Some);
    }
    if exists|j: int| 0 <= j < bs.len() && bs[j].name@ == alias && #[trigger] for_all_modes(bs[j]) {
        let j = choose|j: int| 0 <= j < bs.len() && bs[j].name@ == alias && #[trigger] for_all_modes(bs[j]);
        assert(last_default(bs, alias) is Some);
    }
}

} // verus!

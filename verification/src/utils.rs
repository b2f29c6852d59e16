//! Small value types and text helpers.
use vstd::prelude::*;

use crate::strings::{is_control, is_control_char, string_push};

verus! {

/// A percentage between 0 and 100.
#[derive(Debug, Clone, Copy, PartialEq, Eq)]
pub struct Percentage(u16);

impl Percentage {
    pub closed spec fn value(self) -> nat {
        self.0 as nat
    }

    #[verifier::type_invariant]
    spec fn at_most_whole(self) -> bool {
        self.0 <= 100
    }

    /// Values above 100 become 100.
    pub fn new(value: u16) -> (r: Self)
        ensures
            r.value() == if value <= 100 {
                value as nat
            } else {
                100
            },
    {
        if value <= 100 {
            Percentage(value)
        } else {
            Percentage(100)
        }
    }

    pub fn inner(&self) -> (r: u16)
        ensures
            r == self.value(),
    {
        self.0
    }

    pub open spec fn wf(self) -> bool {
        self.value() <= 100
    }

    /// The percentage `amount` points lower (0 at the least).
    pub fn saturating_sub(self, amount: u16) -> (r: Self)
        ensures
            self.wf(),
            r.wf(),
            r.value() == if self.value() >= amount {
                self.value() - amount
            } else {
                0
            },
    {
        proof {
            use_type_invariant(&self);
        }
        Percentage(self.0.saturating_sub(amount))
    }

    /// What is left of the whole: 100 minus this percentage.
    pub fn complement(self) -> (r: Self)
        ensures
            self.wf(),
            r.wf(),
            r.value() == 100 - self.value(),
    {
        proof {
            use_type_invariant(&self);
        }
        Percentage(100 - self.0)
    }

    /// This percentage of `total` (rounded down), then bounded by `max` and
    /// `min`, where a bound of `0` means no bound.
    pub fn compute_clamped(self, total: u16, min: u16, max: u16) -> (r: u16)
        ensures
            self.wf(),
            r == clamp_nonzero(percent_of(self.value(), total as nat), min as nat, max as nat),
    {
        proof {
            use_type_invariant(&self);
            assert(total as u32 * self.0 as u32 <= 65535 * 100) by (nonlinear_arith)
                requires
                    self.0 <= 100,
                    total <= 65535,
            ;
        }
        let v = (total as u32 * self.0 as u32 / 100) as u16;
        proof {
            assert(total as u32 * self.0 as u32 <= total as u32 * 100) by (nonlinear_arith)
                requires
                    self.0 <= 100,
            ;
            assert(total as u32 * self.0 as u32 / 100 <= total) by (nonlinear_arith)
                requires
                    total as u32 * self.0 as u32 <= total as u32 * 100,
            ;
        }
        let v = if max != 0 && v > max {
            max
        } else {
            v
        };
        if min != 0 && v < min {
            min
        } else {
            v
        }
    }
}

impl Default for Percentage {
    /// The whole: 100%.
    fn default() -> (r: Self)
        ensures
            r.value() == 100,
    {
        Percentage(100)
    }
}

/// `p` percent of `total`, rounded down.
pub open spec fn percent_of(p: nat, total: nat) -> nat {
    (total * p / 100) as nat
}

/// `v` bounded above by `max` and below by `min`, a bound of `0` meaning none.
pub open spec fn clamp_nonzero(v: nat, min: nat, max: nat) -> nat {
    let v = if max != 0 && v > max {
        max
    } else {
        v
    };
    if min != 0 && v < min {
        min
    } else {
        v
    }
}

/// The line drawn between rows of results.
#[derive(Clone, Copy, Debug, PartialEq, Eq)]
pub enum HorizontalSeparator {
    NoLine,
    Empty,
    Light,
    Normal,
    Heavy,
    Dashed,
}

impl Default for HorizontalSeparator {
    fn default() -> (r: Self)
        ensures
            r == HorizontalSeparator::NoLine,
    {
        HorizontalSeparator::NoLine
    }
}

impl HorizontalSeparator {
    /// The character drawn for the separator (there is none for `NoLine`).
    pub fn as_str(self) -> (r: &'static str)
        requires
            self != HorizontalSeparator::NoLine,
        ensures
            r@ == match self {
                HorizontalSeparator::Empty => seq![' '],
                HorizontalSeparator::Light => seq!['\u{2500}'],
                HorizontalSeparator::Normal => seq!['\u{2500}'],
                HorizontalSeparator::Heavy => seq!['\u{2501}'],
                _ => seq!['\u{254c}'],
            },
    {
        match self {
            Self::NoLine => " ",
            Self::Empty => {
                proof {
                    reveal_strlit(" ");
                }
                " "
            },
            Self::Light => {
                proof {
                    reveal_strlit("\u{2500}");
                }
                "\u{2500}"
            },
            Self::Normal => {
                proof {
                    reveal_strlit("\u{2500}");
                }
                "\u{2500}"
            },
            Self::Heavy => {
                proof {
                    reveal_strlit("\u{2501}");
                }
                "\u{2501}"
            },
            Self::Dashed => {
                proof {
                    reveal_strlit("\u{254c}");
                }
                "\u{254c}"
            },
        }
    }
}

/// What `sanitize_string` makes of one character.
pub open spec fn sanitized_char(c: char) -> Seq<char> {
    if c == '\t' {
        seq![' ', ' ', ' ', ' ']
    } else if c == '\r' {
        seq![' ']
    } else if is_control_char(c) && c != '\n' && c != '\u{1b}' {
        Seq::empty()
    } else {
        seq![c]
    }
}

pub open spec fn sanitized(s: Seq<char>) -> Seq<char>
    decreases s.len(),
{
    if s.len() == 0 {
        Seq::empty()
    } else {
        sanitized(s.drop_last()) + sanitized_char(s.last())
    }
}

/// Tabs become four spaces, carriage returns a space; other control
/// characters except newline and escape are dropped.
pub fn sanitize_string(s: &str) -> (r: String)
    ensures
        r@ == sanitized(s@),
{
    let cs = crate::strings::chars_of(s);
    let mut result = String::new();
    let mut i: usize = 0;
    while i < cs.len()
        invariant
            cs@ == s@,
            i <= cs@.len(),
            result@ == sanitized(s@.take(i as int)),
        decreases cs@.len() - i,
    {
        let c = cs[i];
        let ghost before = result@;
        proof {
            assert(s@.take(i as int + 1).drop_last() =~= s@.take(i as int));
        }
        if c == '\t' {
            string_push(&mut result, ' ');
            string_push(&mut result, ' ');
            string_push(&mut result, ' ');
            string_push(&mut result, ' ');
        } else if c == '\r' {
            string_push(&mut result, ' ');
        } else if is_control(c) && c != '\n' && c != '\u{1b}' {
        } else {
            string_push(&mut result, c);
        }
        proof {
            assert(result@ =~= before + sanitized_char(c));
        }
        i = i + 1;
    }
    proof {
        assert(s@.take(cs@.len() as int) =~= s@);
    }
    result
}

/// A string or a list of strings.
#[derive(Debug, Clone, PartialEq)]
pub enum StringOrVec {
    String(String),
    Vec(Vec<String>),
}

impl Default for StringOrVec {
    fn default() -> (r: Self)
        ensures
            r matches StringOrVec::String(s) && s@.len() == 0,
    {
        StringOrVec::String(String::new())
    }
}

/// Environment variables as `(key, value)` pairs, looked up by key.
pub trait EnvVarsExt {
    spec fn pairs(&self) -> Seq<(Seq<char>, Seq<char>)>;

    /// Sets `key` to `value`: the first pair with that key is updated, or a
    /// new pair is appended.
    fn env_set(&mut self, key: String, value: String)
        ensures
            final(self).pairs() == env_set_pairs(old(self).pairs(), key@, value@),
    ;

    /// The value of the first pair with `key`.
    fn env_get(&self, key: &str) -> (r: Option<&String>)
        ensures
            match first_key_index(self.pairs(), key@) {
                Some(i) => r matches Some(v) && v@ == self.pairs()[i].1,
                None => r is None,
            },
    ;
}

/// The index of the first pair whose key is `key`.
pub open spec fn first_key_index(pairs: Seq<(Seq<char>, Seq<char>)>, key: Seq<char>) -> Option<int>
    decreases pairs.len(),
{
    if pairs.len() == 0 {
        None
    } else {
        match first_key_index(pairs.drop_last(), key) {
            Some(i) => Some(i),
            None => if pairs.last().0 == key {
                Some(pairs.len() - 1)
            } else {
                None
            },
        }
    }
}

/// The pairs after setting `key` to `value`.
pub open spec fn env_set_pairs(pairs: Seq<(Seq<char>, Seq<char>)>, key: Seq<char>, value: Seq<char>) -> Seq<
    (Seq<char>, Seq<char>),
> {
    match first_key_index(pairs, key) {
        Some(i) => pairs.update(i, (key, value)),
        None => pairs.push((key, value)),
    }
}

/// The value that a lookup of `key` finds, if any.
pub open spec fn env_lookup(pairs: Seq<(Seq<char>, Seq<char>)>, key: Seq<char>) -> Option<Seq<char>> {
    match first_key_index(pairs, key) {
        Some(i) => Some(pairs[i].1),
        None => None,
    }
}

/// A lookup finds what was last set for that key, and setting one key
/// leaves the lookup of every other key unchanged.
pub proof fn law_env_get_after_set(
    pairs: Seq<(Seq<char>, Seq<char>)>,
    key: Seq<char>,
    value: Seq<char>,
    other: Seq<char>,
)
    ensures
        env_lookup(env_set_pairs(pairs, key, value), key) == Some(value),
        other != key ==> env_lookup(env_set_pairs(pairs, key, value), other) == env_lookup(
            pairs,
            other,
        ),
{
    lemma_first_key_index(pairs, key);
    match first_key_index(pairs, key) {
        Some(i) => {
            lemma_first_key_update(pairs, key, i, (key, value), key);
            lemma_first_key_update(pairs, key, i, (key, value), other);
            lemma_first_key_index(pairs, other);
        },
        None => {
            lemma_first_key_push(pairs, (key, value), key);
            lemma_first_key_push(pairs, (key, value), other);
            lemma_first_key_index(pairs, other);
        },
    }
}

/// Replacing the pair at the first hit of `key` by a pair with the same key
/// moves no hit of any key.
proof fn lemma_first_key_update(
    pairs: Seq<(Seq<char>, Seq<char>)>,
    key: Seq<char>,
    i: int,
    p: (Seq<char>, Seq<char>),
    k: Seq<char>,
)
    requires
        first_key_index(pairs, key) == Some(i),
        p.0 == key,
    ensures
        first_key_index(pairs.update(i, p), k) == first_key_index(pairs, k),
    decreases pairs.len(),
{
    lemma_first_key_index(pairs, key);
    let u = pairs.update(i, p);
    if i < pairs.len() - 1 {
        assert(first_key_index(pairs.drop_last(), key) == Some(i)) by {
            if first_key_index(pairs.drop_last(), key) is None {
                assert(false);
            }
        }
        assert(u.drop_last() =~= pairs.drop_last().update(i, p));
        lemma_first_key_update(pairs.drop_last(), key, i, p, k);
        assert(u.last() == pairs.last());
    } else {
        assert(u.drop_last() =~= pairs.drop_last());
        lemma_first_key_index(pairs.drop_last(), key);
        assert(first_key_index(pairs.drop_last(), key) is None);
        lemma_first_key_index(pairs.drop_last(), k);
        if first_key_index(pairs.drop_last(), k) is None {
            assert(u.last() == p);
        }
    }
}

/// Appending a pair leaves every earlier hit in place.
proof fn lemma_first_key_push(pairs: Seq<(Seq<char>, Seq<char>)>, p: (Seq<char>, Seq<char>), k: Seq<char>)
    ensures
        first_key_index(pairs.push(p), k) == match first_key_index(pairs, k) {
            Some(i) => Some(i),
            None => if p.0 == k {
                Some(pairs.len() as int)
            } else {
                None
            },
        },
{
    assert(pairs.push(p).drop_last() =~= pairs);
}

pub open spec fn pairs_view(v: Seq<(String, String)>) -> Seq<(Seq<char>, Seq<char>)> {
    v.map_values(|p: (String, String)| (p.0@, p.1@))
}

/// Finds the first pair with `key` in `v`.
fn find_key(v: &Vec<(String, String)>, key: &str) -> (r: Option<usize>)
    ensures
        r matches Some(p) ==> p < v@.len() && v@[p as int].0@ == key@,
        match first_key_index(pairs_view(v@), key@) {
            Some(i) => r matches Some(p) && p == i,
            None => r is None,
        },
{
    let ghost pv = pairs_view(v@);
    let mut i: usize = 0;
    while i < v.len()
        invariant
            i <= v@.len(),
            pv == pairs_view(v@),
            first_key_index(pv.take(i as int), key@) is None,
        decreases v@.len() - i,
    {
        proof {
            assert(pv.take(i as int + 1).drop_last() =~= pv.take(i as int));
            assert(pv.take(i as int + 1).last() == (v@[i as int].0@, v@[i as int].1@));
        }
        if crate::strings::str_eq(v[i].0.as_str(), key) {
            proof {
                lemma_first_key_prefix(pv, key@, i as int + 1);
            }
            return Some(i);
        }
        i = i + 1;
    }
    proof {
        assert(pv.take(v@.len() as int) =~= pv);
    }
    None
}

/// The index found holds the key.
pub proof fn lemma_first_key_index(pairs: Seq<(Seq<char>, Seq<char>)>, key: Seq<char>)
    ensures
        first_key_index(pairs, key) matches Some(i) ==> 0 <= i < pairs.len() && pairs[i].0 == key,
    decreases pairs.len(),
{
    if pairs.len() > 0 {
        lemma_first_key_index(pairs.drop_last(), key);
    }
}

/// A hit in a prefix is the first hit overall.
proof fn lemma_first_key_prefix(pairs: Seq<(Seq<char>, Seq<char>)>, key: Seq<char>, n: int)
    requires
        0 <= n <= pairs.len(),
        first_key_index(pairs.take(n), key) is Some,
    ensures
        first_key_index(pairs, key) == first_key_index(pairs.take(n), key),
    decreases pairs.len() - n,
{
    if n < pairs.len() {
        assert(pairs.take(n + 1).drop_last() =~= pairs.take(n));
        lemma_first_key_prefix(pairs, key, n + 1);
    } else {
        assert(pairs.take(n) =~= pairs);
    }
}

impl EnvVarsExt for Vec<(String, String)> {
    open spec fn pairs(&self) -> Seq<(Seq<char>, Seq<char>)> {
        pairs_view(self@)
    }

    fn env_set(&mut self, key: String, value: String) {
        proof {
            lemma_first_key_index(pairs_view(self@), key@);
        }
        match find_key(self, key.as_str()) {
            Some(pos) => {
                let k = self[pos].0.clone();
                self.set(pos, (k, value));
                proof {
                    assert(pairs_view(self@) =~= pairs_view(old(self)@).update(
                        pos as int,
                        (key@, value@),
                    ));
                }
            },
            None => {
                self.push((key, value));
                proof {
                    assert(pairs_view(self@) =~= pairs_view(old(self)@).push((key@, value@)));
                }
            },
        }
    }

    fn env_get(&self, key: &str) -> (r: Option<&String>) {
        proof {
            lemma_first_key_index(pairs_view(self@), key@);
        }
        proof {
            assert(self.pairs() == pairs_view(self@));
        }
        match find_key(self, key) {
            Some(pos) => {
                Some(&self[pos].1)
            },
            None => None,
        }
    }
}

} // verus!

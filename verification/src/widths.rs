//! How the width of the results is shared out among their columns: the
//! shown columns with a preferred width get the user's widths first, then
//! their preferred widths where these fit, then even shares of what is
//! left; and last they grow toward their widest content.
use vstd::prelude::*;

use crate::config::ResultsConfig;
use crate::collections::HiddenView;
use crate::display::same_widths;
use crate::render::StyledText;
use crate::results::{column_flips, expanded, last_nonzero, lemma_below_mono, rows_within, sum_of, sum_widths, thresholds_applied, ResultsUI};
use crate::tui::{max_of, min_of, sat_sub};

verus! {

/// The columns among the first `n` that have a preferred width, in order.
pub open spec fn active_cols(pref: Seq<u16>, n: nat) -> Seq<usize>
    decreases n,
{
    if n == 0 {
        Seq::empty()
    } else {
        let a = active_cols(pref, (n - 1) as nat);
        if pref[n - 1] > 0 {
            a.push((n - 1) as usize)
        } else {
            a
        }
    }
}

/// Whether the columns come in increasing order.
pub open spec fn increasing(cols: Seq<usize>) -> bool {
    forall|a: int, b: int| 0 <= a < b < cols.len() ==> cols[a] < cols[b]
}

/// Whether every column is below `n`.
pub open spec fn all_below(cols: Seq<usize>, n: int) -> bool {
    forall|k: int| 0 <= k < cols.len() ==> cols[k] < n
}

/// The sum of the user's widths of `cols`.
pub open spec fn override_sum(ov: Seq<u16>, cols: Seq<usize>) -> nat
    decreases cols.len(),
{
    if cols.len() == 0 {
        0
    } else {
        override_sum(ov, cols.drop_last()) + ov[cols.last() as int] as nat
    }
}

/// The number of `cols` without a width of the user's.
pub open spec fn free_count(ov: Seq<u16>, cols: Seq<usize>) -> nat
    decreases cols.len(),
{
    if cols.len() == 0 {
        0
    } else {
        free_count(ov, cols.drop_last()) + if ov[cols.last() as int] == 0 {
            1nat
        } else {
            0nat
        }
    }
}

/// Whether the user's widths, with the least width for each other column,
/// fit in `avail`.
pub open spec fn overrides_fit(ov: Seq<u16>, cols: Seq<usize>, min_width: u16, avail: u16) -> bool {
    override_sum(ov, cols) + free_count(ov, cols) * min_width <= avail
}

/// The position in `cols` of the last column with a width of the user's.
pub open spec fn last_override(ov: Seq<u16>, cols: Seq<usize>) -> Option<int>
    decreases cols.len(),
{
    if cols.len() == 0 {
        None
    } else if ov[cols.last() as int] > 0 {
        Some(cols.len() - 1)
    } else {
        last_override(ov, cols.drop_last())
    }
}

/// The number of nonzero widths.
pub open spec fn positive_count(ws: Seq<u16>) -> nat
    decreases ws.len(),
{
    if ws.len() == 0 {
        0
    } else {
        positive_count(ws.drop_last()) + if ws.last() > 0 {
            1nat
        } else {
            0nat
        }
    }
}

/// Dropping a nonzero width leaves fewer nonzero widths.
pub proof fn lemma_positive_count_drop(ws: Seq<u16>, i: int)
    requires
        0 <= i < ws.len(),
        ws[i] > 0,
    ensures
        positive_count(ws.update(i, 0)) < positive_count(ws),
    decreases ws.len(),
{
    if i == ws.len() - 1 {
        assert(ws.update(i, 0).drop_last() =~= ws.drop_last());
    } else {
        lemma_positive_count_drop(ws.drop_last(), i);
        assert(ws.update(i, 0).drop_last() =~= ws.drop_last().update(i, 0));
    }
}

/// The user's widths, dropped from the right until the rest fit.
pub open spec fn fitted_overrides(ov: Seq<u16>, cols: Seq<usize>, min_width: u16, avail: u16) -> Seq<u16>
    decreases positive_count(ov),
{
    if overrides_fit(ov, cols, min_width, avail) {
        ov
    } else {
        match last_override(ov, cols) {
            Some(k) => {
                if 0 <= k < cols.len() && cols[k] < ov.len() && ov[cols[k] as int] > 0 {
                    proof {
                        lemma_positive_count_drop(ov, cols[k] as int);
                    }
                    fitted_overrides(ov.update(cols[k] as int, 0), cols, min_width, avail)
                } else {
                    ov
                }
            },
            None => ov,
        }
    }
}

/// Changing a width that no column of `cols` names leaves their sums alone.
proof fn lemma_sums_untouched(ov: Seq<u16>, cols: Seq<usize>, i: int, v: u16)
    requires
        0 <= i < ov.len(),
        all_below(cols, ov.len() as int),
        forall|k: int| 0 <= k < cols.len() ==> cols[k] != i,
    ensures
        override_sum(ov.update(i, v), cols) == override_sum(ov, cols),
        free_count(ov.update(i, v), cols) == free_count(ov, cols),
    decreases cols.len(),
{
    if cols.len() > 0 {
        lemma_sums_untouched(ov, cols.drop_last(), i, v);
    }
}

/// Dropping the user's width of one of `cols` takes it from their sum and
/// frees the column.
proof fn lemma_zero_at(ov: Seq<u16>, cols: Seq<usize>, k: int)
    requires
        increasing(cols),
        all_below(cols, ov.len() as int),
        0 <= k < cols.len(),
    ensures
        override_sum(ov.update(cols[k] as int, 0), cols) + ov[cols[k] as int] == override_sum(ov, cols),
        free_count(ov.update(cols[k] as int, 0), cols) == free_count(ov, cols) + if ov[cols[k] as int] > 0 {
            1nat
        } else {
            0nat
        },
    decreases cols.len(),
{
    let i = cols[k] as int;
    if k == cols.len() - 1 {
        lemma_sums_untouched(ov, cols.drop_last(), i, 0);
    } else {
        lemma_zero_at(ov, cols.drop_last(), k);
    }
}

/// At most every column is free.
proof fn lemma_free_count_at_most(ov: Seq<u16>, cols: Seq<usize>)
    ensures
        free_count(ov, cols) <= cols.len(),
    decreases cols.len(),
{
    if cols.len() > 0 {
        lemma_free_count_at_most(ov, cols.drop_last());
    }
}

/// The sums over a prefix of `cols` grow by the next column.
proof fn lemma_override_prefix(ov: Seq<u16>, cols: Seq<usize>, k: int)
    requires
        0 <= k <= cols.len(),
    ensures
        override_sum(ov, cols.take(k)) <= override_sum(ov, cols),
        k < cols.len() ==> override_sum(ov, cols.take(k + 1)) == override_sum(ov, cols.take(k))
            + ov[cols[k] as int],
        k < cols.len() ==> free_count(ov, cols.take(k + 1)) == free_count(ov, cols.take(k)) + if ov[cols[k] as int]
            == 0 {
            1nat
        } else {
            0nat
        },
    decreases cols.len() - k,
{
    if k < cols.len() {
        assert(cols.take(k + 1).drop_last() =~= cols.take(k));
        lemma_override_prefix(ov, cols, k + 1);
    } else {
        assert(cols.take(k) =~= cols);
    }
}

/// The columns among the first `n` that have a preferred width.
fn active_columns(pref: &Vec<u16>, n: usize) -> (r: Vec<usize>)
    requires
        n <= pref@.len(),
    ensures
        r@ == active_cols(pref@, n as nat),
        increasing(r@),
        all_below(r@, n as int),
        r@.len() <= n,
{
    let mut r: Vec<usize> = Vec::new();
    let mut i: usize = 0;
    while i < n
        invariant
            n <= pref@.len(),
            i <= n,
            r@ == active_cols(pref@, i as nat),
            increasing(r@),
            all_below(r@, i as int),
            r@.len() <= i,
        decreases n - i,
    {
        if pref[i] > 0 {
            r.push(i);
        }
        i = i + 1;
    }
    r
}

/// Drops the user's widths of `act` from the right until the rest fit in
/// `avail` with the least width for every free column; returns whether they
/// fit in the end.
fn fit_overrides(ov: &mut Vec<u16>, act: &Vec<usize>, min_width: u16, avail: u16) -> (fit: bool)
    requires
        increasing(act@),
        all_below(act@, old(ov)@.len() as int),
        act@.len() <= u16::MAX,
        override_sum(old(ov)@, act@) + act@.len() * min_width <= u16::MAX,
    ensures
        final(ov)@ == fitted_overrides(old(ov)@, act@, min_width, avail),
        fit == overrides_fit(final(ov)@, act@, min_width, avail),
        final(ov)@.len() == old(ov)@.len(),
        override_sum(final(ov)@, act@) <= override_sum(old(ov)@, act@),
{
    let ghost ov0 = ov@;
    let ghost s0 = override_sum(ov0, act@);
    let mut sum: u16 = 0;
    let mut count: u16 = 0;
    let mut k: usize = 0;
    while k < act.len()
        invariant
            ov@ == ov0,
            all_below(act@, ov0.len() as int),
            act@.len() <= u16::MAX,
            s0 == override_sum(ov0, act@),
            s0 <= u16::MAX,
            k <= act@.len(),
            sum == override_sum(ov0, act@.take(k as int)),
            count == free_count(ov0, act@.take(k as int)),
            count <= k,
        decreases act@.len() - k,
    {
        proof {
            lemma_override_prefix(ov0, act@, k as int);
            lemma_override_prefix(ov0, act@, (k + 1) as int);
        }
        let w = ov[act[k]];
        sum = sum + w;
        if w == 0 {
            count = count + 1;
        }
        k = k + 1;
    }
    proof {
        assert(act@.take(k as int) =~= act@);
        lemma_free_count_at_most(ov0, act@);
        assert(count * min_width <= act@.len() * min_width) by (nonlinear_arith)
            requires
                count <= act@.len(),
        ;
    }
    let mut done = false;
    while !done && sum + count * min_width > avail
        invariant
            increasing(act@),
            all_below(act@, ov@.len() as int),
            ov@.len() == ov0.len(),
            act@.len() <= u16::MAX,
            s0 + act@.len() * min_width <= u16::MAX,
            sum == override_sum(ov@, act@),
            count == free_count(ov@, act@),
            count <= act@.len(),
            sum <= s0,
            count * min_width <= act@.len() * min_width,
            fitted_overrides(ov@, act@, min_width, avail) == fitted_overrides(ov0, act@, min_width, avail),
            done ==> !overrides_fit(ov@, act@, min_width, avail) && last_override(ov@, act@) is None,
        decreases positive_count(ov@), if done {
            0int
        } else {
            1int
        },
    {
        let mut j: usize = act.len();
        let mut pos: usize = 0;
        let mut found = false;
        proof {
            assert(act@.take(j as int) =~= act@);
        }
        while j > 0 && !found
            invariant
                j <= act@.len(),
                all_below(act@, ov@.len() as int),
                !found ==> last_override(ov@, act@) == last_override(ov@, act@.take(j as int)),
                found ==> last_override(ov@, act@) == Some(pos as int) && pos < act@.len() && ov@[act@[pos as int] as int]
                    > 0,
            decreases j, if found {
                0int
            } else {
                1int
            },
        {
            proof {
                assert(act@.take(j as int).drop_last() =~= act@.take(j - 1));
            }
            if ov[act[j - 1]] > 0 {
                pos = j - 1;
                found = true;
            } else {
                j = j - 1;
            }
        }
        if !found {
            proof {
                assert(act@.take(j as int) =~= Seq::<usize>::empty());
            }
            done = true;
        } else {
            let i = act[pos];
            let w = ov[i];
            proof {
                lemma_zero_at(ov@, act@, pos as int);
                lemma_positive_count_drop(ov@, i as int);
                lemma_free_count_at_most(ov@.update(i as int, 0), act@);
                assert(fitted_overrides(ov@, act@, min_width, avail) == fitted_overrides(
                    ov@.update(i as int, 0),
                    act@,
                    min_width,
                    avail,
                ));
            }
            sum = sum - w;
            ov.set(i, 0);
            count = count + 1;
            proof {
                assert(count * min_width <= act@.len() * min_width) by (nonlinear_arith)
                    requires
                        count <= act@.len(),
                ;
            }
        }
    }
    sum + count * min_width <= avail
}

/// Changing one width changes the sum by the difference.
pub proof fn lemma_sum_update(s: Seq<u16>, i: int, v: u16)
    requires
        0 <= i < s.len(),
    ensures
        sum_of(s.update(i, v)) + s[i] == sum_of(s) + v,
    decreases s.len(),
{
    if i == s.len() - 1 {
        assert(s.update(i, v).drop_last() =~= s.drop_last());
    } else {
        lemma_sum_update(s.drop_last(), i, v);
        assert(s.update(i, v).drop_last() =~= s.drop_last().update(i, v));
    }
}

/// No width is more than the sum.
pub proof fn lemma_elem_at_most_sum(s: Seq<u16>, i: int)
    requires
        0 <= i < s.len(),
    ensures
        s[i] <= sum_of(s),
    decreases s.len(),
{
    if i < s.len() - 1 {
        lemma_elem_at_most_sum(s.drop_last(), i);
    }
}

/// `buf` with every column of `cols` set to `v`.
pub open spec fn set_all(buf: Seq<u16>, cols: Seq<usize>, v: u16) -> Seq<u16>
    decreases cols.len(),
{
    if cols.len() == 0 {
        buf
    } else {
        set_all(buf, cols.drop_last(), v).update(cols.last() as int, v)
    }
}

/// Setting columns of `buf` keeps its length.
proof fn lemma_set_all_len(buf: Seq<u16>, cols: Seq<usize>, v: u16)
    requires
        all_below(cols, buf.len() as int),
    ensures
        set_all(buf, cols, v).len() == buf.len(),
    decreases cols.len(),
{
    if cols.len() > 0 {
        lemma_set_all_len(buf, cols.drop_last(), v);
    }
}

/// `total` split evenly among `cols`, the last one taking the remainder.
pub open spec fn split_evenly(buf: Seq<u16>, cols: Seq<usize>, total: u16) -> Seq<u16> {
    let avg = total as int / cols.len() as int;
    let rem = total as int % cols.len() as int;
    set_all(buf, cols, avg as u16).update(cols.last() as int, (avg + rem) as u16)
}

/// Whether `new` differs from `old` only at columns of `cols`.
pub open spec fn touches_only(old: Seq<u16>, new: Seq<u16>, cols: Seq<usize>) -> bool {
    forall|j: int|
        0 <= j < old.len() && #[trigger] new[j] != old[j] ==> exists|kk: int| 0 <= kk < cols.len() && cols[kk] == j
}

/// Whether every column of `a` is one of `b`.
pub open spec fn within(a: Seq<usize>, b: Seq<usize>) -> bool {
    forall|x: int| 0 <= x < a.len() ==> exists|kk: int| 0 <= kk < b.len() && b[kk] == #[trigger] a[x]
}

/// Whether every column of `cols` has width 0 in `buf`.
pub open spec fn all_zero(buf: Seq<u16>, cols: Seq<usize>) -> bool {
    forall|k: int| 0 <= k < cols.len() ==> buf[cols[k] as int] == 0
}

/// Splits `total` evenly among `cols`, the last one taking the remainder.
fn split_into(buf: &mut Vec<u16>, cols: &Vec<usize>, total: u16)
    requires
        0 < cols@.len() <= u16::MAX,
        all_below(cols@, old(buf)@.len() as int),
        increasing(cols@),
    ensures
        final(buf)@ == split_evenly(old(buf)@, cols@, total),
        final(buf)@.len() == old(buf)@.len(),
        all_zero(old(buf)@, cols@) ==> sum_of(final(buf)@) == sum_of(old(buf)@) + total,
        touches_only(old(buf)@, final(buf)@, cols@),
{
    let ghost b0 = buf@;
    let ghost zero = all_zero(b0, cols@);
    let n = cols.len() as u16;
    let avg = total / n;
    let rem = total % n;
    let mut k: usize = 0;
    while k < cols.len()
        invariant
            cols@.len() == n,
            all_below(cols@, b0.len() as int),
            increasing(cols@),
            buf@.len() == b0.len(),
            k <= cols@.len(),
            zero == all_zero(b0, cols@),
            buf@ == set_all(b0, cols@.take(k as int), avg),
            zero ==> sum_of(buf@) == sum_of(b0) + k * avg,
            zero ==> forall|j: int| k <= j < cols@.len() ==> buf@[cols@[j] as int] == 0,
            touches_only(b0, buf@, cols@),
        decreases cols@.len() - k,
    {
        let i = cols[k];
        proof {
            assert(cols@.take(k + 1).drop_last() =~= cols@.take(k as int));
            if zero {
                lemma_sum_update(buf@, i as int, avg);
                assert((k + 1) * avg == k * avg + avg) by (nonlinear_arith);
            }
        }
        let ghost before = buf@;
        buf.set(i, avg);
        proof {
            assert forall|j: int| 0 <= j < b0.len() && #[trigger] buf@[j] != b0[j] implies exists|kk: int|
                0 <= kk < cols@.len() && cols@[kk] == j by {
                if j == i {
                    assert(cols@[k as int] == j);
                } else {
                    assert(before[j] != b0[j]);
                }
            }
        }
        k = k + 1;
    }
    let last = cols[cols.len() - 1];
    proof {
        assert(cols@.take(k as int) =~= cols@);
        vstd::arithmetic::div_mod::lemma_fundamental_div_mod(total as int, n as int);
        assert(avg <= n * avg) by (nonlinear_arith)
            requires
                n >= 1,
        ;
        assert(cols@.last() == last);
        lemma_set_all_len(b0, cols@.drop_last(), avg);
        assert(last < b0.len());
        assert(buf@.len() == b0.len());
        assert(buf@ == set_all(b0, cols@.drop_last(), avg).update(last as int, avg));
        assert(buf@[last as int] == avg);
        if zero {
            lemma_sum_update(buf@, last as int, (avg + rem) as u16);
        }
    }
    let ghost before = buf@;
    buf.set(last, buf[last] + rem);
    proof {
        assert forall|j: int| 0 <= j < b0.len() && #[trigger] buf@[j] != b0[j] implies exists|kk: int|
            0 <= kk < cols@.len() && cols@[kk] == j by {
            if j == last {
                assert(cols@[cols@.len() - 1] == j);
            } else {
                assert(before[j] != b0[j]);
            }
        }
    }
}

/// The user's widths of `cols` placed in `buf`, with the columns left
/// without one and the width left.
pub open spec fn lock_overrides(buf: Seq<u16>, ov: Seq<u16>, cols: Seq<usize>, avail: u16) -> (Seq<u16>, Seq<usize>, u16)
    decreases cols.len(),
{
    if cols.len() == 0 {
        (buf, Seq::empty(), avail)
    } else {
        let l = lock_overrides(buf, ov, cols.drop_last(), avail);
        let i = cols.last() as int;
        if ov[i] > 0 {
            (l.0.update(i, ov[i]), l.1, sat_sub(l.2 as int, ov[i] as int) as u16)
        } else {
            (l.0, l.1.push(cols.last()), l.2)
        }
    }
}

/// Places the user's widths of `act` in `buf`; returns the columns left
/// without one, and the width left.
fn lock_into(buf: &mut Vec<u16>, ov: &Vec<u16>, act: &Vec<usize>, avail: u16) -> (r: (Vec<usize>, u16))
    requires
        increasing(act@),
        all_below(act@, old(buf)@.len() as int),
        all_below(act@, ov@.len() as int),
    ensures
        (final(buf)@, r.0@, r.1) == lock_overrides(old(buf)@, ov@, act@, avail),
        final(buf)@.len() == old(buf)@.len(),
        increasing(r.0@),
        all_below(r.0@, old(buf)@.len() as int),
        r.0@.len() <= act@.len(),
        all_zero(old(buf)@, act@) && override_sum(ov@, act@) <= avail ==> sum_of(final(buf)@) + r.1 == sum_of(
            old(buf)@,
        ) + avail && all_zero(final(buf)@, r.0@),
        forall|k: int|
            0 <= k < act@.len() && ov@[act@[k] as int] > 0 ==> final(buf)@[act@[k] as int] == ov@[act@[k] as int],
        forall|x: int| 0 <= x < r.0@.len() ==> ov@[#[trigger] r.0@[x] as int] == 0,
{
    let ghost b0 = buf@;
    let ghost zero = all_zero(b0, act@) && override_sum(ov@, act@) <= avail;
    let mut un: Vec<usize> = Vec::new();
    let mut rem = avail;
    let mut k: usize = 0;
    while k < act.len()
        invariant
            increasing(act@),
            all_below(act@, b0.len() as int),
            all_below(act@, ov@.len() as int),
            buf@.len() == b0.len(),
            k <= act@.len(),
            zero == (all_zero(b0, act@) && override_sum(ov@, act@) <= avail),
            (buf@, un@, rem) == lock_overrides(b0, ov@, act@.take(k as int), avail),
            increasing(un@),
            all_below(un@, b0.len() as int),
            un@.len() <= k,
            k < act@.len() ==> all_below(un@, act@[k as int] as int),
            zero ==> rem == avail - override_sum(ov@, act@.take(k as int)),
            zero ==> sum_of(buf@) + rem == sum_of(b0) + avail,
            zero ==> all_zero(buf@, un@),
            zero ==> forall|j: int| k <= j < act@.len() ==> buf@[act@[j] as int] == 0,
            forall|j: int|
                0 <= j < k && ov@[act@[j] as int] > 0 ==> buf@[act@[j] as int] == ov@[act@[j] as int],
            forall|x: int| 0 <= x < un@.len() ==> ov@[#[trigger] un@[x] as int] == 0,
        decreases act@.len() - k,
    {
        let i = act[k];
        proof {
            assert(act@.take(k + 1).drop_last() =~= act@.take(k as int));
            lemma_override_prefix(ov@, act@, k as int);
            lemma_override_prefix(ov@, act@, (k + 1) as int);
        }
        if ov[i] > 0 {
            proof {
                if zero {
                    lemma_sum_update(buf@, i as int, ov@[i as int]);
                }
            }
            buf.set(i, ov[i]);
            rem = rem.saturating_sub(ov[i]);
        } else {
            un.push(i);
        }
        k = k + 1;
    }
    proof {
        assert(act@.take(k as int) =~= act@);
    }
    (un, rem)
}

/// One round of handing out preferred widths: each column of `un` whose
/// preferred width is at most `avg` gets it; returns the buffer, the
/// columns left and the width left.
pub open spec fn take_round(buf: Seq<u16>, pref: Seq<u16>, un: Seq<usize>, avg: u16, rem: int) -> (Seq<u16>, Seq<usize>, int)
    decreases un.len(),
{
    if un.len() == 0 {
        (buf, Seq::empty(), rem)
    } else {
        let t = take_round(buf, pref, un.drop_last(), avg, rem);
        let i = un.last() as int;
        if pref[i] <= avg {
            (t.0.update(i, pref[i]), t.1, t.2 - pref[i])
        } else {
            (t.0, t.1.push(un.last()), t.2)
        }
    }
}

/// Rounds of handing out preferred widths, each with the even share of the
/// width left, until a round hands out none.
pub open spec fn allocate(buf: Seq<u16>, pref: Seq<u16>, un: Seq<usize>, rem: int) -> (Seq<u16>, Seq<usize>, int)
    decreases un.len(),
{
    if un.len() == 0 {
        (buf, un, rem)
    } else {
        let avg = (rem / un.len() as int) as u16;
        let t = take_round(buf, pref, un, avg, rem);
        if t.1.len() < un.len() {
            allocate(t.0, pref, t.1, t.2)
        } else {
            (buf, un, rem)
        }
    }
}

/// One round of handing out preferred widths (see [`take_round`]); also
/// returns whether any column got one.
fn take_round_into(buf: &mut Vec<u16>, pref: &Vec<u16>, un: &Vec<usize>, avg: u16, rem: u16) -> (r: (Vec<usize>, u16, bool))
    requires
        increasing(un@),
        all_below(un@, old(buf)@.len() as int),
        all_below(un@, pref@.len() as int),
        un@.len() * avg <= rem,
    ensures
        (final(buf)@, r.0@, r.1 as int) == take_round(old(buf)@, pref@, un@, avg, rem as int),
        r.2 == (r.0@.len() < un@.len()),
        !r.2 ==> r.0@ == un@ && final(buf)@ == old(buf)@ && r.1 == rem,
        final(buf)@.len() == old(buf)@.len(),
        increasing(r.0@),
        all_below(r.0@, old(buf)@.len() as int),
        all_below(r.0@, pref@.len() as int),
        r.0@.len() <= un@.len(),
        all_zero(old(buf)@, un@) ==> sum_of(final(buf)@) + r.1 == sum_of(old(buf)@) + rem && all_zero(
            final(buf)@,
            r.0@,
        ),
        touches_only(old(buf)@, final(buf)@, un@),
        within(r.0@, un@),
{
    let ghost b0 = buf@;
    let ghost zero = all_zero(b0, un@);
    let mut next: Vec<usize> = Vec::new();
    let mut left = rem;
    let mut assigned = false;
    let mut k: usize = 0;
    while k < un.len()
        invariant
            increasing(un@),
            all_below(un@, b0.len() as int),
            all_below(un@, pref@.len() as int),
            un@.len() * avg <= rem,
            buf@.len() == b0.len(),
            k <= un@.len(),
            zero == all_zero(b0, un@),
            (buf@, next@, left as int) == take_round(b0, pref@, un@.take(k as int), avg, rem as int),
            assigned == (next@.len() < k),
            !assigned ==> next@ == un@.take(k as int) && buf@ == b0 && left == rem,
            next@.len() <= k,
            rem - left <= k * avg,
            increasing(next@),
            all_below(next@, b0.len() as int),
            all_below(next@, pref@.len() as int),
            k < un@.len() ==> all_below(next@, un@[k as int] as int),
            zero ==> sum_of(buf@) + left == sum_of(b0) + rem,
            zero ==> all_zero(buf@, next@),
            zero ==> forall|j: int| k <= j < un@.len() ==> buf@[un@[j] as int] == 0,
            touches_only(b0, buf@, un@),
            within(next@, un@),
        decreases un@.len() - k,
    {
        let i = un[k];
        proof {
            assert(un@.take(k + 1).drop_last() =~= un@.take(k as int));
            assert((k + 1) * avg == k * avg + avg) by (nonlinear_arith);
            assert((k + 1) * avg <= un@.len() * avg) by (nonlinear_arith)
                requires
                    k + 1 <= un@.len(),
            ;
        }
        if pref[i] <= avg {
            proof {
                if zero {
                    lemma_sum_update(buf@, i as int, pref@[i as int]);
                }
            }
            let ghost before = buf@;
            buf.set(i, pref[i]);
            proof {
                assert forall|j: int| 0 <= j < b0.len() && #[trigger] buf@[j] != b0[j] implies exists|kk: int|
                    0 <= kk < un@.len() && un@[kk] == j by {
                    if j == i {
                        assert(un@[k as int] == j);
                    } else {
                        assert(before[j] != b0[j]);
                    }
                }
            }
            left = left - pref[i];
            assigned = true;
        } else {
            let ghost nb = next@;
            next.push(i);
            proof {
                assert forall|x: int| 0 <= x < next@.len() implies exists|kk: int|
                    0 <= kk < un@.len() && un@[kk] == #[trigger] next@[x] by {
                    if x == next@.len() - 1 {
                        assert(un@[k as int] == next@[x]);
                    } else {
                        assert(nb[x] == next@[x]);
                    }
                }
            }
            proof {
                if !assigned {
                    assert(next@ =~= un@.take(k + 1));
                }
            }
        }
        k = k + 1;
    }
    proof {
        assert(un@.take(k as int) =~= un@);
    }
    (next, left, assigned)
}

/// Rounds of handing out preferred widths (see [`allocate`]); returns the
/// columns left and the width left.
fn allocate_into(buf: &mut Vec<u16>, pref: &Vec<u16>, un: Vec<usize>, rem: u16) -> (r: (Vec<usize>, u16))
    requires
        increasing(un@),
        all_below(un@, old(buf)@.len() as int),
        all_below(un@, pref@.len() as int),
        un@.len() <= u16::MAX,
    ensures
        (final(buf)@, r.0@, r.1 as int) == allocate(old(buf)@, pref@, un@, rem as int),
        final(buf)@.len() == old(buf)@.len(),
        increasing(r.0@),
        all_below(r.0@, old(buf)@.len() as int),
        r.0@.len() <= un@.len(),
        all_zero(old(buf)@, un@) ==> sum_of(final(buf)@) + r.1 == sum_of(old(buf)@) + rem && all_zero(
            final(buf)@,
            r.0@,
        ),
        touches_only(old(buf)@, final(buf)@, un@),
        within(r.0@, un@),
{
    let ghost b0 = buf@;
    let ghost u0 = un@;
    let ghost zero = all_zero(b0, u0);
    let mut un = un;
    let mut left = rem;
    let mut done = false;
    while !done && un.len() > 0
        invariant
            increasing(un@),
            all_below(un@, b0.len() as int),
            all_below(un@, pref@.len() as int),
            un@.len() <= u0.len(),
            u0.len() <= u16::MAX,
            buf@.len() == b0.len(),
            zero == all_zero(b0, u0),
            allocate(buf@, pref@, un@, left as int) == allocate(b0, pref@, u0, rem as int),
            done ==> allocate(buf@, pref@, un@, left as int) == (buf@, un@, left as int),
            zero ==> sum_of(buf@) + left == sum_of(b0) + rem && all_zero(buf@, un@),
            touches_only(b0, buf@, u0),
            within(un@, u0),
        decreases un@.len(), if done {
            0int
        } else {
            1int
        },
    {
        let n = un.len() as u16;
        let avg = left / n;
        proof {
            vstd::arithmetic::div_mod::lemma_fundamental_div_mod(left as int, n as int);
            assert(left as int / un@.len() as int == avg);
        }
        let ghost b1 = buf@;
        let ghost un1 = un@;
        let (next, l, assigned) = take_round_into(buf, pref, &un, avg, left);
        proof {
            assert forall|j: int| 0 <= j < b0.len() && #[trigger] buf@[j] != b0[j] implies exists|kk: int|
                0 <= kk < u0.len() && u0[kk] == j by {
                if buf@[j] != b1[j] {
                    let a = choose|a: int| 0 <= a < un1.len() && un1[a] == j;
                    assert(un1[a] == j);
                } else {
                    assert(b1[j] != b0[j]);
                }
            }
            assert forall|x: int| 0 <= x < next@.len() implies exists|kk: int|
                0 <= kk < u0.len() && u0[kk] == #[trigger] next@[x] by {
                let a = choose|a: int| 0 <= a < un1.len() && un1[a] == next@[x];
                assert(un1[a] == next@[x]);
            }
        }
        un = next;
        left = l;
        if !assigned {
            done = true;
        }
    }
    (un, left)
}

/// The room each free column of `cols` has to grow toward its widest
/// content `mx`, for those with room.
pub open spec fn gaps_of(buf: Seq<u16>, ov: Seq<u16>, mx: Seq<u16>, cols: Seq<usize>) -> Seq<(usize, u16)>
    decreases cols.len(),
{
    if cols.len() == 0 {
        Seq::empty()
    } else {
        let g = gaps_of(buf, ov, mx, cols.drop_last());
        let i = cols.last() as int;
        let m = if i < mx.len() {
            mx[i] as int
        } else {
            0
        };
        let gap = sat_sub(m, buf[i] as int);
        if ov[i] == 0 && gap > 0 {
            g.push((cols.last(), gap as u16))
        } else {
            g
        }
    }
}

/// One pass of growing: each column takes up to `per` of its room, out of
/// the width left; returns the buffer, the columns with room left, and the
/// width left.
pub open spec fn grow_pass(buf: Seq<u16>, gaps: Seq<(usize, u16)>, per: u16, rem: int) -> (Seq<u16>, Seq<(usize, u16)>, int)
    decreases gaps.len(),
{
    if gaps.len() == 0 {
        (buf, Seq::empty(), rem)
    } else {
        let t = grow_pass(buf, gaps.drop_last(), per, rem);
        let i = gaps.last().0 as int;
        let g = gaps.last().1 as int;
        let add = min_of(min_of(per as int, g), t.2);
        let b = t.0.update(i, (t.0[i] + add) as u16);
        if g - add > 0 {
            (b, t.1.push((gaps.last().0, (g - add) as u16)), t.2 - add)
        } else {
            (b, t.1, t.2 - add)
        }
    }
}

/// Passes of growing, each with an even share (at least 1) of the width
/// left, until no width or no room is left.
pub open spec fn grow_rounds(buf: Seq<u16>, gaps: Seq<(usize, u16)>, rem: int) -> Seq<u16>
    decreases rem, gaps.len(),
{
    if rem <= 0 || gaps.len() == 0 {
        buf
    } else {
        let per = max_of(rem / gaps.len() as int, 1) as u16;
        let p = grow_pass(buf, gaps, per, rem);
        if 0 <= p.2 < rem {
            grow_rounds(p.0, p.1, p.2)
        } else {
            p.0
        }
    }
}

/// The free columns of `cols` grown toward their widest content `mx`, with
/// the width that `buf` leaves of `avail`.
pub open spec fn grown(buf: Seq<u16>, ov: Seq<u16>, mx: Seq<u16>, cols: Seq<usize>, avail: u16) -> Seq<u16> {
    if sum_of(buf) < avail {
        grow_rounds(buf, gaps_of(buf, ov, mx, cols), avail - sum_of(buf))
    } else {
        buf
    }
}

/// Whether every room is nonzero and names a column below `n`.
pub open spec fn gaps_ok(gaps: Seq<(usize, u16)>, n: int) -> bool {
    forall|k: int| 0 <= k < gaps.len() ==> gaps[k].0 < n && gaps[k].1 > 0
}

/// The room of each free column of `act` (see [`gaps_of`]).
fn gaps_into(buf: &Vec<u16>, ov: &Vec<u16>, mx: &Vec<u16>, act: &Vec<usize>) -> (g: Vec<(usize, u16)>)
    requires
        all_below(act@, buf@.len() as int),
        all_below(act@, ov@.len() as int),
    ensures
        g@ == gaps_of(buf@, ov@, mx@, act@),
        gaps_ok(g@, buf@.len() as int),
        g@.len() <= act@.len(),
        forall|x: int| 0 <= x < g@.len() ==> ov@[#[trigger] g@[x].0 as int] == 0,
{
    let mut g: Vec<(usize, u16)> = Vec::new();
    let mut k: usize = 0;
    while k < act.len()
        invariant
            all_below(act@, buf@.len() as int),
            all_below(act@, ov@.len() as int),
            k <= act@.len(),
            g@ == gaps_of(buf@, ov@, mx@, act@.take(k as int)),
            gaps_ok(g@, buf@.len() as int),
            g@.len() <= k,
            forall|x: int| 0 <= x < g@.len() ==> ov@[#[trigger] g@[x].0 as int] == 0,
        decreases act@.len() - k,
    {
        let i = act[k];
        proof {
            assert(act@.take(k + 1).drop_last() =~= act@.take(k as int));
        }
        if ov[i] == 0 {
            let m: u16 = if i < mx.len() {
                mx[i]
            } else {
                0
            };
            let gap = m.saturating_sub(buf[i]);
            if gap > 0 {
                g.push((i, gap));
            }
        }
        k = k + 1;
    }
    proof {
        assert(act@.take(k as int) =~= act@);
    }
    g
}

/// Grows the free columns of `act` toward their widest content `mx` with
/// the width that `buf` leaves of `avail` (see [`grown`]).
fn grow_into(buf: &mut Vec<u16>, ov: &Vec<u16>, mx: &Vec<u16>, act: &Vec<usize>, avail: u16)
    requires
        all_below(act@, old(buf)@.len() as int),
        all_below(act@, ov@.len() as int),
        act@.len() <= u16::MAX,
        sum_of(old(buf)@) <= u16::MAX,
    ensures
        final(buf)@ == grown(old(buf)@, ov@, mx@, act@, avail),
        final(buf)@.len() == old(buf)@.len(),
        sum_of(old(buf)@) <= avail ==> sum_of(final(buf)@) <= avail,
        forall|j: int| 0 <= j < old(buf)@.len() && #[trigger] final(buf)@[j] != old(buf)@[j] ==> ov@[j] == 0,
{
    let ghost b0 = buf@;
    let current = sum_widths(buf);
    if current >= avail {
        return;
    }
    let mut gaps = gaps_into(buf, ov, mx, act);
    let mut remaining = avail - current;
    while remaining > 0 && gaps.len() > 0
        invariant
            buf@.len() == b0.len(),
            gaps_ok(gaps@, b0.len() as int),
            gaps@.len() <= u16::MAX,
            sum_of(buf@) + remaining == avail,
            grow_rounds(buf@, gaps@, remaining as int) == grown(b0, ov@, mx@, act@, avail),
            forall|x: int| 0 <= x < gaps@.len() ==> ov@[#[trigger] gaps@[x].0 as int] == 0,
            forall|j: int| 0 <= j < b0.len() && #[trigger] buf@[j] != b0[j] ==> ov@[j] == 0,
        decreases remaining,
    {
        let n = gaps.len() as u16;
        let share = remaining / n;
        let per: u16 = if share > 1 {
            share
        } else {
            1
        };
        let ghost b1 = buf@;
        let ghost g1 = gaps@;
        let ghost r1 = remaining as int;
        let mut kept: Vec<(usize, u16)> = Vec::new();
        let mut left = remaining;
        let mut k: usize = 0;
        while k < gaps.len()
            invariant
                g1 == gaps@,
                gaps_ok(g1, b0.len() as int),
                buf@.len() == b0.len(),
                per >= 1,
                r1 > 0,
                k <= g1.len(),
                (buf@, kept@, left as int) == grow_pass(b1, g1.take(k as int), per, r1),
                sum_of(buf@) + left == avail,
                left <= r1,
                k > 0 ==> left < r1,
                gaps_ok(kept@, b0.len() as int),
                kept@.len() <= k,
                forall|x: int| 0 <= x < g1.len() ==> ov@[#[trigger] g1[x].0 as int] == 0,
                forall|x: int| 0 <= x < kept@.len() ==> ov@[#[trigger] kept@[x].0 as int] == 0,
                forall|j: int| 0 <= j < b0.len() && #[trigger] buf@[j] != b0[j] ==> ov@[j] == 0,
            decreases g1.len() - k,
        {
            let (i, g) = gaps[k];
            proof {
                assert(g1.take(k + 1).drop_last() =~= g1.take(k as int));
                lemma_elem_at_most_sum(buf@, i as int);
            }
            let a = if per < g {
                per
            } else {
                g
            };
            let add = if a < left {
                a
            } else {
                left
            };
            proof {
                lemma_sum_update(buf@, i as int, (buf@[i as int] + add) as u16);
            }
            let ghost before = buf@;
            buf.set(i, buf[i] + add);
            proof {
                assert(ov@[g1[k as int].0 as int] == 0);
                assert forall|j: int| 0 <= j < b0.len() && #[trigger] buf@[j] != b0[j] implies ov@[j] == 0 by {
                    if j != i {
                        assert(before[j] != b0[j]);
                    }
                }
            }
            left = left - add;
            if g - add > 0 {
                kept.push((i, g - add));
            }
            k = k + 1;
        }
        proof {
            assert(g1.take(k as int) =~= g1);
            assert(per as int == max_of(r1 / g1.len() as int, 1));
        }
        gaps = kept;
        remaining = left;
    }
}

/// The nonzero widths, in order.
pub open spec fn nonzero_of(ws: Seq<u16>) -> Seq<u16>
    decreases ws.len(),
{
    if ws.len() == 0 {
        Seq::empty()
    } else if ws.last() != 0 {
        nonzero_of(ws.drop_last()).push(ws.last())
    } else {
        nonzero_of(ws.drop_last())
    }
}

/// `ws` cut or padded with 0 to `n` widths.
pub open spec fn resized(ws: Seq<u16>, n: nat) -> Seq<u16> {
    Seq::new(n, |i: int| if i < ws.len() {
        ws[i]
    } else {
        0u16
    })
}

/// The widths shared out among `act` (the user's widths placed first), in
/// `buf`, out of `avail`.
pub open spec fn shared_widths(buf: Seq<u16>, pref: Seq<u16>, ov: Seq<u16>, act: Seq<usize>, avail: u16) -> Seq<u16> {
    let l = lock_overrides(buf, ov, act, avail);
    let a = allocate(l.0, pref, l.1, l.2 as int);
    if a.1.len() > 0 {
        split_evenly(a.0, a.1, a.2 as u16)
    } else {
        a.0
    }
}

/// The nonzero widths of `ws`.
pub fn nonzero_widths(ws: &Vec<u16>) -> (r: Vec<u16>)
    ensures
        r@ == nonzero_of(ws@),
{
    let mut r: Vec<u16> = Vec::new();
    let mut k: usize = 0;
    while k < ws.len()
        invariant
            k <= ws@.len(),
            r@ == nonzero_of(ws@.take(k as int)),
        decreases ws@.len() - k,
    {
        proof {
            assert(ws@.take(k + 1).drop_last() =~= ws@.take(k as int));
        }
        if ws[k] != 0 {
            r.push(ws[k]);
        }
        k = k + 1;
    }
    proof {
        assert(ws@.take(k as int) =~= ws@);
    }
    r
}

/// `ws` cut or padded with 0 to `n` widths.
fn resized_widths(ws: &Vec<u16>, n: usize) -> (r: Vec<u16>)
    ensures
        r@ == resized(ws@, n as nat),
{
    let mut r: Vec<u16> = Vec::new();
    let mut k: usize = 0;
    while k < n
        invariant
            k <= n,
            r@ == resized(ws@, n as nat).take(k as int),
        decreases n - k,
    {
        let w = if k < ws.len() {
            ws[k]
        } else {
            0
        };
        r.push(w);
        proof {
            assert(r@ =~= resized(ws@, n as nat).take(k + 1));
        }
        k = k + 1;
    }
    proof {
        assert(resized(ws@, n as nat).take(n as int) =~= resized(ws@, n as nat));
    }
    r
}

impl ResultsUI {
    /// The widest content of each shown column, computed unless known.
    pub open spec fn spec_max_widths(&self) -> Seq<u16> {
        if self.max_widths@.len() > 0 {
            self.max_widths@
        } else {
            self.content_max()
        }
    }

    /// The shown columns with a preferred width.
    pub open spec fn spec_active(&self) -> Seq<usize> {
        active_cols(self.preferred_widths@, self.spec_vcols())
    }

    /// The drawn widths while sharing out: the nonzero widest contents,
    /// when their number differs from that of the drawn widths.
    pub open spec fn sharing_widths(&self) -> Seq<u16> {
        let nz = nonzero_of(self.spec_max_widths());
        if nz.len() != self.widths@.len() {
            nz
        } else {
            self.widths@
        }
    }

    /// The spacing between drawn columns if `ws` were the drawn widths.
    pub open spec fn spacing_over(&self, ws: Seq<u16>) -> int {
        self.config.column_spacing.0 * match last_nonzero(ws) {
            Some(p) => p % 65536,
            None => 0,
        }
    }

    /// The width left for the columns if `ws` were the drawn widths.
    pub open spec fn available_over(&self, ws: Seq<u16>) -> u16 {
        sat_sub(sat_sub(self.width as int, (self.spec_indentation() % 65536) as int), self.spacing_over(ws)) as u16
    }

    /// The user's widths, one per shown column.
    pub open spec fn sized_overrides(&self) -> Seq<u16> {
        resized(self.config.width_overrides@, self.spec_vcols())
    }

    /// Whether sharing out has anything to do: there are rows, preferred
    /// widths, and a shown column with a preferred width.
    pub open spec fn shares_out(&self) -> bool {
        self.rows().len() > 0 && self.preferred_widths@.len() > 0 && self.spec_active().len() > 0
    }

    /// The widths buffer after sharing out (see
    /// [`ResultsUI::update_width_limits_into_width_buffer`]).
    pub open spec fn buffer_after_sharing(&self, skip_allocation: bool) -> Seq<u16> {
        if self.rows().len() == 0 || self.preferred_widths@.len() == 0 {
            Seq::empty()
        } else if self.spec_active().len() == 0 {
            self.widths_buffer@
        } else {
            let n = self.spec_vcols();
            let mw = self.spec_max_widths();
            let act = self.spec_active();
            let avail = self.available_over(self.sharing_widths());
            let ov = self.sized_overrides();
            let fov = fitted_overrides(ov, act, self.config.min_width, avail);
            let zeros = Seq::new(n, |i: int| 0u16);
            if skip_allocation {
                grown(self.widths_buffer@, ov, mw, act, avail)
            } else if overrides_fit(fov, act, self.config.min_width, avail) {
                grown(shared_widths(zeros, self.preferred_widths@, fov, act, avail), fov, mw, act, avail)
            } else {
                split_evenly(zeros, act, avail)
            }
        }
    }

    /// The user's widths after sharing out: one per shown column, and those
    /// that did not fit dropped when sharing out afresh.
    pub open spec fn overrides_after_sharing(&self, skip_allocation: bool) -> Seq<u16> {
        if !self.shares_out() {
            self.config.width_overrides@
        } else if skip_allocation {
            self.sized_overrides()
        } else {
            fitted_overrides(
                self.sized_overrides(),
                self.spec_active(),
                self.config.min_width,
                self.available_over(self.sharing_widths()),
            )
        }
    }

    /// The drawn widths after sharing out.
    pub open spec fn widths_after_sharing(&self) -> Seq<u16> {
        if self.shares_out() {
            self.sharing_widths()
        } else {
            self.widths@
        }
    }

    /// The widest contents after sharing out.
    pub open spec fn max_after_sharing(&self) -> Seq<u16> {
        if self.rows().len() == 0 || self.preferred_widths@.len() == 0 {
            self.max_widths@
        } else {
            self.spec_max_widths()
        }
    }

    /// What sharing out needs: the preferred widths cover the shown columns,
    /// and the sums it makes fit in `u16`.
    pub open spec fn sharing_ready(&self, skip_allocation: bool) -> bool {
        &&& self.wf()
        &&& rows_within(self.rows(), self.spec_vcols())
        &&& self.spec_vcols() <= u16::MAX
        &&& self.rows().len() > 0 && self.preferred_widths@.len() > 0 ==> {
            &&& self.preferred_widths@.len() >= self.spec_vcols()
            &&& override_sum(self.sized_overrides(), self.spec_active()) + self.spec_active().len()
                * self.config.min_width <= u16::MAX
            &&& self.spacing_over(self.sharing_widths()) <= u16::MAX
        }
        &&& skip_allocation == (self.widths_buffer@.len() > 0)
        &&& skip_allocation ==> self.widths_buffer@.len() >= self.spec_vcols() && sum_of(self.widths_buffer@)
            <= u16::MAX
    }

    /// Computes the width limits of the shown columns into the widths
    /// buffer: the widths kept there grown toward the widest contents
    /// (`skip_allocation`), or the width available shared out afresh (the
    /// user's widths first, then preferred widths, then even shares, then
    /// growth); the buffer is dropped without rows or preferred widths, and
    /// nothing else happens then or without a column with a preferred width.
    /// Widths shared out afresh sum to at most the width available, and when
    /// the user's widths (those kept) fit, each column with one gets it.
    pub fn update_width_limits_into_width_buffer(&mut self, skip_allocation: bool)
        requires
            old(self).sharing_ready(skip_allocation),
        ensures
            ({
                let o = *old(self);
                let f = *final(self);
                &&& f.widths_buffer@ == o.buffer_after_sharing(skip_allocation)
                &&& f.config.width_overrides@ == o.overrides_after_sharing(skip_allocation)
                &&& f.widths@ == o.widths_after_sharing()
                &&& f.max_widths@ == o.max_after_sharing()
                &&& f == (ResultsUI {
                    max_widths: f.max_widths,
                    widths: f.widths,
                    widths_buffer: f.widths_buffer,
                    config: ResultsConfig { width_overrides: f.config.width_overrides, ..o.config },
                    ..o
                })
                &&& o.shares_out() ==> f.widths_buffer@.len() == if skip_allocation {
                    o.widths_buffer@.len()
                } else {
                    o.spec_vcols()
                }
                &&& o.shares_out() && !skip_allocation ==> sum_of(f.widths_buffer@) <= o.available_over(
                    o.sharing_widths(),
                )
                &&& o.shares_out() && !skip_allocation && overrides_fit(
                    f.config.width_overrides@,
                    o.spec_active(),
                    o.config.min_width,
                    o.available_over(o.sharing_widths()),
                ) ==> forall|k: int|
                    0 <= k < o.spec_active().len() && f.config.width_overrides@[o.spec_active()[k] as int] > 0
                        ==> f.widths_buffer@[o.spec_active()[k] as int]
                        == f.config.width_overrides@[o.spec_active()[k] as int]
            }),
    {
        if self.row_cache[0].len() == 0 || self.preferred_widths.len() == 0 {
            self.widths_buffer = Vec::new();
            return;
        }
        let ghost o = *self;
        let n = self.vcols();
        self.prepare_max_widths();
        let act = active_columns(&self.preferred_widths, n);
        if act.len() == 0 {
            return;
        }
        let new = nonzero_widths(&self.max_widths);
        if new.len() != self.widths.len() {
            self.widths = new;
        }
        proof {
            assert(self.widths@ == o.sharing_widths());
            assert(self.spec_column_spacing_width() == o.spacing_over(o.sharing_widths()));
        }
        let avail = self.available_width();
        proof {
            assert(avail == o.available_over(o.sharing_widths()));
        }
        self.config.width_overrides = resized_widths(&self.config.width_overrides, n);
        if !skip_allocation {
            let mut buf: Vec<u16> = resized_widths(&Vec::new(), n);
            proof {
                assert(buf@ =~= Seq::new(n as nat, |i: int| 0u16));
            }
            let fit = fit_overrides(&mut self.config.width_overrides, &act, self.config.min_width, avail);
            if !fit {
                proof {
                    assert(all_zero(buf@, act@));
                    assert(sum_of(buf@) == 0) by {
                        lemma_zeros_sum(n as nat);
                    }
                }
                split_into(&mut buf, &act, avail);
                self.widths_buffer = buf;
                return;
            }
            proof {
                lemma_zeros_sum(n as nat);
                lemma_free_count_at_most(self.config.width_overrides@, act@);
            }
            let (un, rem) = lock_into(&mut buf, &self.config.width_overrides, &act, avail);
            let ghost bl = buf@;
            let ghost u1 = un@;
            let (un2, rem2) = allocate_into(&mut buf, &self.preferred_widths, un, rem);
            let ghost ba = buf@;
            if un2.len() > 0 {
                split_into(&mut buf, &un2, rem2);
            }
            let ghost bs = buf@;
            grow_into(&mut buf, &self.config.width_overrides, &self.max_widths, &act, avail);
            proof {
                let fov = self.config.width_overrides@;
                assert forall|k: int| 0 <= k < act@.len() && fov[act@[k] as int] > 0 implies buf@[act@[k] as int]
                    == fov[act@[k] as int] by {
                    let j = act@[k] as int;
                    assert(bl[j] == fov[j]);
                    if ba[j] != bl[j] {
                        let a = choose|a: int| 0 <= a < u1.len() && u1[a] == j;
                        assert(fov[u1[a] as int] == 0);
                    }
                    if bs[j] != ba[j] {
                        let a = choose|a: int| 0 <= a < un2@.len() && un2@[a] == j;
                        let b = choose|b: int| 0 <= b < u1.len() && u1[b] == un2@[a];
                        assert(fov[u1[b] as int] == 0);
                    }
                    if buf@[j] != bs[j] {
                        assert(fov[j] == 0);
                    }
                }
            }
            self.widths_buffer = buf;
        } else {
            grow_into(&mut self.widths_buffer, &self.config.width_overrides, &self.max_widths, &act, avail);
        }
    }
}

/// Zeros sum to 0.
proof fn lemma_zeros_sum(n: nat)
    ensures
        sum_of(Seq::new(n, |i: int| 0u16)) == 0,
    decreases n,
{
    if n > 0 {
        lemma_zeros_sum((n - 1) as nat);
        assert(Seq::new(n, |i: int| 0u16).drop_last() =~= Seq::new((n - 1) as nat, |i: int| 0u16));
    }
}

impl ResultsUI {
    /// The widths buffer for stacked columns: the width less the
    /// indentation for each shown column, 0 for hidden ones.
    pub open spec fn stacked_buffer(&self) -> Seq<u16> {
        let d = sat_sub(self.width as int, (self.spec_indentation() % 65536) as int) as u16;
        Seq::new(
            self.config.hidden_columns@.len,
            |i: int|
                if self.config.hidden_columns@.hidden(i as nat) {
                    0u16
                } else {
                    d
                },
        )
    }

    /// Whether updating the limits stops after sharing out, which left no
    /// widths.
    pub open spec fn limits_unknown(&self) -> bool {
        !self.config.stacked_columns && self.buffer_after_sharing(self.widths_buffer@.len() > 0).len() == 0
    }

    /// The width limits of all columns about to be applied.
    pub open spec fn limits_buffer(&self) -> Seq<u16> {
        if self.config.stacked_columns {
            self.stacked_buffer()
        } else {
            expanded(self.buffer_after_sharing(self.widths_buffer@.len() > 0), self.config.hidden_columns@)
        }
    }

    /// The width limits after an update: taken whole when the buffer was
    /// kept from before, else applied with the thresholds (columns that
    /// appear or disappear taking effect at once).
    pub open spec fn new_limits(&self) -> Seq<u16> {
        let b = self.limits_buffer();
        if self.limits_unknown() || self.width_limits@ == b {
            self.width_limits@
        } else if self.widths_buffer@.len() > 0 {
            b
        } else {
            thresholds_applied(
                self.width_limits@,
                b,
                self.config.resize_col_thresholds[0],
                self.config.resize_col_thresholds[1],
                true,
            )
        }
    }

    /// The nonzero `ws`, the last one taking the width left over when the
    /// last column is right-aligned.
    pub open spec fn right_aligned(&self, ws: Seq<u16>) -> Seq<u16> {
        let remaining = sat_sub(self.available_over(ws) as int, sum_of(ws) as int);
        if self.config.right_align_last && remaining > 0 {
            ws.update(ws.len() - 1, (ws.last() + remaining) as u16)
        } else {
            ws
        }
    }

    /// The drawn widths for `limits`: the nonzero limits, the last one
    /// taking the width left over when right-aligned, the first one also
    /// taking the indentation.
    pub open spec fn drawn_widths(&self, limits: Seq<u16>) -> Seq<u16> {
        let ws = nonzero_of(limits);
        if ws.len() == 0 {
            ws
        } else {
            let ws2 = self.right_aligned(ws);
            ws2.update(0, (ws2[0] + self.spec_indentation() % 65536) as u16)
        }
    }

    /// Whether the sums made for the drawn widths of `limits` fit in `u16`.
    pub open spec fn drawn_fits(&self, limits: Seq<u16>) -> bool {
        let ws = nonzero_of(limits);
        ws.len() > 0 ==> {
            &&& sum_of(ws) <= u16::MAX
            &&& self.spacing_over(ws) <= u16::MAX
            &&& self.right_aligned(ws)[0] + self.spec_indentation() % 65536 <= u16::MAX
        }
    }

    /// Sets the drawn widths from the width limits.
    fn set_drawn_widths(&mut self)
        requires
            old(self).drawn_fits(old(self).width_limits@),
        ensures
            final(self).widths@ == old(self).drawn_widths(old(self).width_limits@),
            *final(self) == (ResultsUI { widths: final(self).widths, ..*old(self) }),
    {
        let ghost o = *self;
        let ws = nonzero_widths(&self.width_limits);
        self.widths = ws;
        if self.widths.len() > 0 {
            let total = sum_widths(&self.widths);
            proof {
                assert(self.spec_column_spacing_width() == o.spacing_over(self.widths@));
            }
            let avail = self.available_width();
            let remaining = avail.saturating_sub(total);
            proof {
                assert(avail == o.available_over(self.widths@));
            }
            if self.config.right_align_last && remaining > 0 {
                let last = self.widths.len() - 1;
                proof {
                    lemma_elem_at_most_sum(self.widths@, last as int);
                }
                let v = self.widths[last] + remaining;
                self.widths.set(last, v);
            }
            proof {
                assert(self.widths@ == o.right_aligned(nonzero_of(o.width_limits@)));
            }
            let ind = (self.indentation() % 65536) as u16;
            let v0 = self.widths[0] + ind;
            self.widths.set(0, v0);
        }
    }

    /// Updates the width limits of all columns from the widths shared out
    /// (or, with stacked columns, the whole width for each shown column);
    /// when they change, the rows last built are dropped and the drawn
    /// widths are set again.
    pub fn update_width_limits(&mut self)
        requires
            old(self).wf(),
            !old(self).config.stacked_columns ==> old(self).sharing_ready(old(self).widths_buffer@.len() > 0),
            !old(self).config.stacked_columns && old(self).new_limits() != old(self).width_limits@ ==> old(
                self,
            ).drawn_fits(old(self).new_limits()),
        ensures
            ({
                let o = *old(self);
                let f = *final(self);
                let skip = o.widths_buffer@.len() > 0;
                let lim = o.new_limits();
                let b = o.limits_buffer();
                &&& f.width_limits@ == lim
                &&& f.widths_buffer@ == if o.limits_unknown() || (o.width_limits@ != b && skip) {
                    Seq::empty()
                } else {
                    b
                }
                &&& f.max_widths@ == if o.config.stacked_columns {
                    o.max_widths@
                } else {
                    Seq::empty()
                }
                &&& f.config.width_overrides@ == if o.config.stacked_columns {
                    o.config.width_overrides@
                } else {
                    o.overrides_after_sharing(skip)
                }
                &&& f.widths@ == if lim != o.width_limits@ {
                    if o.config.stacked_columns {
                        seq![o.width]
                    } else {
                        o.drawn_widths(lim)
                    }
                } else if o.config.stacked_columns {
                    o.widths@
                } else {
                    o.widths_after_sharing()
                }
                &&& if lim != o.width_limits@ {
                    &&& f.wf()
                    &&& f.rows().len() == 0
                    &&& f.row_cache@[1] == o.row_cache@[1]
                } else {
                    f.row_cache == o.row_cache
                }
                &&& f == (ResultsUI {
                    width_limits: f.width_limits,
                    widths_buffer: f.widths_buffer,
                    max_widths: f.max_widths,
                    widths: f.widths,
                    row_cache: f.row_cache,
                    config: ResultsConfig { width_overrides: f.config.width_overrides, ..o.config },
                    ..o
                })
            }),
    {
        let ghost o = *self;
        let skip = self.widths_buffer.len() > 0;
        if self.config.stacked_columns {
            let ind = (self.indentation() % 65536) as u16;
            let default = self.width.saturating_sub(ind);
            let n = self.config.hidden_columns.mask_len();
            let mut buf: Vec<u16> = Vec::new();
            let mut i: usize = 0;
            while i < n
                invariant
                    n == o.config.hidden_columns@.len,
                    self.config.hidden_columns == o.config.hidden_columns,
                    self.config.hidden_columns.wf(),
                    default == sat_sub(o.width as int, (o.spec_indentation() % 65536) as int),
                    i <= n,
                    buf@ == o.stacked_buffer().take(i as int),
                decreases n - i,
            {
                let w = if self.config.hidden_columns.contains(i) {
                    0
                } else {
                    default
                };
                buf.push(w);
                proof {
                    assert(buf@ =~= o.stacked_buffer().take(i + 1));
                }
                i = i + 1;
            }
            proof {
                assert(o.stacked_buffer().take(n as int) =~= o.stacked_buffer());
            }
            self.widths_buffer = buf;
        } else {
            self.update_width_limits_into_width_buffer(skip);
            self.max_widths = Vec::new();
            if self.widths_buffer.len() == 0 {
                return;
            }
            self.expand_width_limits_in_buffer();
        }
        proof {
            assert(self.widths_buffer@ == o.limits_buffer());
        }
        let changed = if !same_widths(&self.width_limits, &self.widths_buffer) {
            if skip {
                let mut b: Vec<u16> = Vec::new();
                std::mem::swap(&mut b, &mut self.widths_buffer);
                self.width_limits = b;
                true
            } else {
                let thresholds = self.config.resize_col_thresholds;
                ResultsUI::apply_width_thresholds(&mut self.width_limits, &self.widths_buffer, thresholds, true)
            }
        } else {
            false
        };
        proof {
            assert(self.width_limits@ == o.new_limits());
            assert(changed == (o.new_limits() != o.width_limits@));
        }
        if changed {
            self.set_dirty();
            if self.config.stacked_columns {
                self.widths = vec![self.width];
            } else {
                self.set_drawn_widths();
            }
        }
    }
}

/// The number of widths at most `t`.
pub open spec fn count_at_most(s: Seq<u16>, t: int) -> nat
    decreases s.len(),
{
    if s.len() == 0 {
        0
    } else {
        count_at_most(s.drop_last(), t) + if s.last() <= t {
            1nat
        } else {
            0nat
        }
    }
}

/// The number of widths below `t`.
pub open spec fn count_below(s: Seq<u16>, t: int) -> nat
    decreases s.len(),
{
    if s.len() == 0 {
        0
    } else {
        count_below(s.drop_last(), t) + if s.last() < t {
            1nat
        } else {
            0nat
        }
    }
}

/// Whether `r` is the `k`-th smallest of `s`, counting from 0: at most `k`
/// widths are smaller, and more than `k` are at most `r`.
pub open spec fn is_kth(s: Seq<u16>, k: int, r: u16) -> bool {
    count_below(s, r as int) <= k < count_at_most(s, r as int)
}

/// The middle width of `s`: its `len / 2`-th smallest (0 when empty).
pub open spec fn median_of(s: Seq<u16>) -> u16 {
    if s.len() == 0 {
        0
    } else {
        choose|r: u16| #[trigger] is_kth(s, s.len() as int / 2, r)
    }
}

/// Widths below `t` are those at most `t - 1`.
proof fn lemma_below_is_at_most_prev(s: Seq<u16>, t: int)
    ensures
        count_below(s, t) == count_at_most(s, t - 1),
        t <= 0 ==> count_below(s, t) == 0,
    decreases s.len(),
{
    if s.len() > 0 {
        lemma_below_is_at_most_prev(s.drop_last(), t);
    }
}

/// Every width is at most `u16::MAX`.
proof fn lemma_all_at_most(s: Seq<u16>)
    ensures
        count_at_most(s, u16::MAX as int) == s.len(),
    decreases s.len(),
{
    if s.len() > 0 {
        lemma_all_at_most(s.drop_last());
    }
}

/// More widths at most `t` than below it means `t` occurs.
proof fn lemma_count_gap_contains(s: Seq<u16>, t: u16)
    requires
        count_at_most(s, t as int) > count_below(s, t as int),
    ensures
        s.contains(t),
    decreases s.len(),
{
    if s.last() == t {
        assert(s[s.len() - 1] == t);
    } else {
        lemma_count_gap_contains(s.drop_last(), t);
        let i = choose|i: int| 0 <= i < s.drop_last().len() && s.drop_last()[i] == t;
        assert(s[i] == t);
    }
}

/// Widths at most `a` are below any `b` above `a`.
proof fn lemma_count_order(s: Seq<u16>, a: int, b: int)
    requires
        a < b,
    ensures
        count_at_most(s, a) <= count_below(s, b),
    decreases s.len(),
{
    if s.len() > 0 {
        lemma_count_order(s.drop_last(), a, b);
    }
}

/// The `k`-th smallest is unique.
proof fn lemma_kth_unique(s: Seq<u16>, k: int, a: u16, b: u16)
    requires
        is_kth(s, k, a),
        is_kth(s, k, b),
    ensures
        a == b,
{
    if a < b {
        lemma_count_order(s, a as int, b as int);
    } else if b < a {
        lemma_count_order(s, b as int, a as int);
    }
}

/// The number of widths of `s` at most `t`.
fn count_widths_at_most(s: &Vec<u16>, t: u16) -> (r: usize)
    ensures
        r == count_at_most(s@, t as int),
{
    let mut c: usize = 0;
    let mut i: usize = 0;
    while i < s.len()
        invariant
            i <= s@.len(),
            c <= i,
            c == count_at_most(s@.take(i as int), t as int),
        decreases s@.len() - i,
    {
        proof {
            assert(s@.take(i + 1).drop_last() =~= s@.take(i as int));
        }
        if s[i] <= t {
            c = c + 1;
        }
        i = i + 1;
    }
    proof {
        assert(s@.take(i as int) =~= s@);
    }
    c
}

/// The `k`-th smallest width of `s`, found by halving the range of widths.
fn kth_smallest(s: &Vec<u16>, k: usize) -> (r: u16)
    requires
        k < s@.len(),
    ensures
        is_kth(s@, k as int, r),
        s@.contains(r),
{
    let mut lo: u32 = 0;
    let mut hi: u32 = 65535;
    proof {
        lemma_all_at_most(s@);
    }
    while lo < hi
        invariant
            lo <= hi <= 65535,
            count_at_most(s@, hi as int) > k,
            lo == 0 || count_at_most(s@, lo - 1) <= k,
        decreases hi - lo,
    {
        let mid = lo + (hi - lo) / 2;
        let c = count_widths_at_most(s, mid as u16);
        if c > k {
            hi = mid;
        } else {
            lo = mid + 1;
        }
    }
    proof {
        lemma_below_is_at_most_prev(s@, lo as int);
        lemma_count_gap_contains(s@, lo as u16);
    }
    lo as u16
}

/// The middle width of `v` (see [`median_of`]).
fn median_width(v: &Vec<u16>) -> (r: u16)
    ensures
        r == median_of(v@),
        v@.len() > 0 ==> v@.contains(r),
{
    if v.len() == 0 {
        return 0;
    }
    let r = kth_smallest(v, v.len() / 2);
    proof {
        let k = v@.len() as int / 2;
        assert(is_kth(v@, k, r));
        let c = choose|x: u16| #[trigger] is_kth(v@, k, x);
        assert(is_kth(v@, k, c));
        lemma_kth_unique(v@, k, r, c);
    }
    r
}

/// The widths in column `c` of the rows that have one.
pub open spec fn col_values(rows: Seq<(u32, Vec<StyledText>, Vec<u16>)>, c: int) -> Seq<u16>
    decreases rows.len(),
{
    if rows.len() == 0 {
        Seq::empty()
    } else {
        let v = col_values(rows.drop_last(), c);
        let ws = rows.last().2@;
        if 0 <= c < ws.len() {
            v.push(ws[c])
        } else {
            v
        }
    }
}

/// The widths raised, for each shown column among the first `n` names, to
/// its widest content, itself raised to the least width when nonzero.
pub open spec fn pref_raise(
    buf: Seq<u16>,
    mx: Seq<u16>,
    names: Seq<u16>,
    h: HiddenView,
    min_width: u16,
    from_cols: bool,
    n: nat,
) -> Seq<u16>
    decreases n,
{
    if n == 0 {
        buf
    } else {
        let b = pref_raise(buf, mx, names, h, min_width, from_cols, (n - 1) as nat);
        let i = (n - 1) as nat;
        if h.hidden(i) {
            b
        } else {
            let vi = h.visible_below(i) as int;
            let least = if from_cols {
                names[i as int]
            } else {
                min_width
            };
            let lower = if mx[vi] > 0 {
                max_of(mx[vi] as int, least as int)
            } else {
                0
            };
            b.update(vi, max_of(b[vi] as int, lower) as u16)
        }
    }
}

/// Raising keeps the length, and leaves each shown column at least at its
/// widest content.
proof fn lemma_pref_raise(
    buf: Seq<u16>,
    mx: Seq<u16>,
    names: Seq<u16>,
    h: HiddenView,
    min_width: u16,
    from_cols: bool,
    n: nat,
)
    requires
        n <= names.len(),
        h.visible_below(n) <= mx.len(),
        h.visible_below(n) <= buf.len(),
    ensures
        pref_raise(buf, mx, names, h, min_width, from_cols, n).len() == buf.len(),
        forall|i: nat|
            i < n && h.visible(i) ==> pref_raise(buf, mx, names, h, min_width, from_cols, n)[h.visible_below(
                i,
            ) as int] >= mx[h.visible_below(i) as int],
    decreases n,
{
    if n > 0 {
        let m = (n - 1) as nat;
        lemma_below_mono(h, m, n);
        lemma_pref_raise(buf, mx, names, h, min_width, from_cols, m);
        assert forall|i: nat| i < n && h.visible(i) implies pref_raise(
            buf,
            mx,
            names,
            h,
            min_width,
            from_cols,
            n,
        )[h.visible_below(i) as int] >= mx[h.visible_below(i) as int] by {
            if i < m {
                lemma_below_mono(h, i + 1, m);
            }
        }
    }
}

/// Whether some width of `new` is above the one before it in `old`.
pub open spec fn some_grew(old: Seq<u16>, new: Seq<u16>) -> bool {
    exists|i: int| 0 <= i < old.len() && i < new.len() && #[trigger] new[i] > old[i]
}

/// Whether some width of `new` is below the one before it in `old`.
pub open spec fn some_shrank(old: Seq<u16>, new: Seq<u16>) -> bool {
    exists|i: int| 0 <= i < old.len() && i < new.len() && #[trigger] new[i] < old[i]
}

impl ResultsUI {
    /// The middle width of each shown column over the rows last built.
    pub open spec fn medians(&self) -> Seq<u16> {
        Seq::new(self.spec_vcols(), |c: int| median_of(col_values(self.rows(), c)))
    }

    /// The preferred widths computed from the rows last built: the middle
    /// widths (after what the buffer held), raised to the widest contents.
    pub open spec fn raised_preferred(&self) -> Seq<u16> {
        pref_raise(
            self.widths_buffer@ + self.medians(),
            self.spec_max_widths(),
            self.column_name_widths@,
            self.config.hidden_columns@,
            self.config.min_width,
            self.config.min_width_from_cols,
            self.column_name_widths@.len(),
        )
    }

    /// Computes the preferred widths from the rows last built; they are
    /// taken whole the first time, or when the old ones fit in the width
    /// and did not both grow and shrink, else applied with the thresholds.
    /// Returns whether they changed; nothing happens without rows or with
    /// stacked columns. Every shown column with content gets a nonzero
    /// preferred width.
    pub fn update_preferred_widths(&mut self) -> (r: bool)
        requires
            old(self).wf(),
            rows_within(old(self).rows(), old(self).spec_vcols()),
            old(self).config.hidden_columns@.visible_below(old(self).column_name_widths@.len())
                <= old(self).spec_vcols(),
            old(self).widths_buffer@.len() + old(self).spec_vcols() <= usize::MAX,
            old(self).max_widths@.len() > 0 ==> old(self).max_widths@.len() >= old(self).spec_vcols(),
            sum_of(old(self).preferred_widths@) <= u16::MAX,
        ensures
            ({
                let o = *old(self);
                let f = *final(self);
                if o.rows().len() == 0 || o.config.stacked_columns {
                    !r && f == o
                } else {
                    let new = o.raised_preferred();
                    let old_pref = o.preferred_widths@;
                    let grew = some_grew(old_pref, new);
                    let shrank = some_shrank(old_pref, new);
                    let whole = old_pref.len() == 0 || (sum_of(old_pref) <= o.width && !(grew && shrank));
                    &&& f.max_widths@ == o.spec_max_widths()
                    &&& f.widths_buffer@.len() == 0
                    &&& if whole {
                        &&& f.preferred_widths@ == new
                        &&& r == (old_pref.len() == 0 || grew || shrank)
                    } else {
                        &&& f.preferred_widths@ == thresholds_applied(
                            old_pref,
                            new,
                            o.config.resize_col_thresholds[0],
                            o.config.resize_col_thresholds[1],
                            false,
                        )
                        &&& r == (old_pref.len() != new.len() || column_flips(old_pref, new, false)
                            || f.preferred_widths@ != old_pref)
                    }
                    &&& f == (ResultsUI {
                        max_widths: f.max_widths,
                        widths_buffer: f.widths_buffer,
                        preferred_widths: f.preferred_widths,
                        ..o
                    })
                    &&& forall|i: nat|
                        i < o.column_name_widths@.len() && o.config.hidden_columns@.visible(i)
                            && o.spec_max_widths()[o.config.hidden_columns@.visible_below(i) as int] > 0
                            ==> f.preferred_widths@[o.config.hidden_columns@.visible_below(i) as int] > 0
                }
            }),
    {
        if self.row_cache[0].len() == 0 || self.config.stacked_columns {
            return false;
        }
        let ghost o = *self;
        let n = self.vcols();
        self.prepare_max_widths();
        let ghost rows = self.rows();
        let mut buf: Vec<u16> = Vec::new();
        std::mem::swap(&mut buf, &mut self.widths_buffer);
        let mut col: usize = 0;
        while col < n
            invariant
                rows == self.rows(),
                rows == o.rows(),
                self.wf(),
                col <= n,
                n == o.spec_vcols(),
                o.widths_buffer@.len() + n <= usize::MAX,
                buf@ == o.widths_buffer@ + o.medians().take(col as int),
            decreases n - col,
        {
            let cache = &self.row_cache[0];
            let mut v: Vec<u16> = Vec::new();
            let mut k: usize = 0;
            while k < cache.len()
                invariant
                    cache@ == rows,
                    k <= rows.len(),
                    v@ == col_values(rows.take(k as int), col as int),
                decreases rows.len() - k,
            {
                proof {
                    assert(rows.take(k + 1).drop_last() =~= rows.take(k as int));
                }
                let ws = &cache[k].2;
                if col < ws.len() {
                    v.push(ws[col]);
                }
                k = k + 1;
            }
            proof {
                assert(rows.take(k as int) =~= rows);
            }
            let m = median_width(&v);
            buf.push(m);
            proof {
                assert(buf@ =~= o.widths_buffer@ + o.medians().take(col + 1));
            }
            col = col + 1;
        }
        proof {
            assert(o.medians().take(n as int) =~= o.medians());
        }
        let ghost h = self.config.hidden_columns@;
        let ghost names = self.column_name_widths@;
        let ghost mx = self.max_widths@;
        let ghost start = buf@;
        let min_width = self.config.min_width;
        let from_cols = self.config.min_width_from_cols;
        let mut vi: usize = 0;
        let mut i: usize = 0;
        while i < self.column_name_widths.len()
            invariant
                h == self.config.hidden_columns@,
                self.config.hidden_columns.wf(),
                names == self.column_name_widths@,
                mx == self.max_widths@,
                mx.len() >= n,
                start.len() >= n,
                h.visible_below(names.len()) <= n,
                min_width == self.config.min_width,
                from_cols == self.config.min_width_from_cols,
                i <= names.len(),
                vi == h.visible_below(i as nat),
                buf@ == pref_raise(start, mx, names, h, min_width, from_cols, i as nat),
                buf@.len() == start.len(),
            decreases names.len() - i,
        {
            if !self.config.hidden_columns.contains(i) {
                proof {
                    lemma_below_mono(h, (i + 1) as nat, names.len());
                    assert(h.visible_below((i + 1) as nat) == vi + 1);
                }
                let name_w = self.column_name_widths[i];
                let mut lower = self.max_widths[vi];
                if lower > 0 {
                    let least = if from_cols {
                        name_w
                    } else {
                        min_width
                    };
                    if least > lower {
                        lower = least;
                    }
                }
                let cur = buf[vi];
                if lower > cur {
                    buf.set(vi, lower);
                }
                proof {
                    assert(buf@ =~= pref_raise(start, mx, names, h, min_width, from_cols, (i + 1) as nat));
                    assert(vi < buf.len());
                }
                vi = vi + 1;
            }
            i = i + 1;
        }
        proof {
            lemma_pref_raise(start, mx, names, h, min_width, from_cols, names.len());
            assert(buf@ == o.raised_preferred());
        }
        let empty_before = self.preferred_widths.len() == 0;
        let mut grew = false;
        let mut shrank = false;
        let mut k: usize = 0;
        while k < self.preferred_widths.len() && k < buf.len()
            invariant
                k <= self.preferred_widths@.len(),
                grew == exists|j: int| 0 <= j < k && j < buf@.len() && #[trigger] buf@[j] > self.preferred_widths@[j],
                shrank == exists|j: int| 0 <= j < k && j < buf@.len() && #[trigger] buf@[j] < self.preferred_widths@[j],
            decreases self.preferred_widths@.len() - k,
        {
            if buf[k] > self.preferred_widths[k] {
                grew = true;
            }
            if buf[k] < self.preferred_widths[k] {
                shrank = true;
            }
            k = k + 1;
        }
        proof {
            assert(grew == some_grew(o.preferred_widths@, buf@));
            assert(shrank == some_shrank(o.preferred_widths@, buf@));
        }
        let sum = sum_widths(&self.preferred_widths);
        let condition = sum <= self.width && !(grew && shrank);
        if empty_before || condition {
            self.preferred_widths = buf;
            empty_before || grew || shrank
        } else {
            let thresholds = self.config.resize_col_thresholds;
            let ret = ResultsUI::apply_width_thresholds(&mut self.preferred_widths, &buf, thresholds, false);
            proof {
                assert forall|i: nat|
                    i < o.column_name_widths@.len() && o.config.hidden_columns@.visible(i)
                        && o.spec_max_widths()[o.config.hidden_columns@.visible_below(i) as int] > 0
                        implies self.preferred_widths@[o.config.hidden_columns@.visible_below(i) as int] > 0 by {
                    let vi = o.config.hidden_columns@.visible_below(i) as int;
                    lemma_below_mono(h, i + 1, names.len());
                    if o.preferred_widths@.len() == buf@.len() && !column_flips(o.preferred_widths@, buf@, false) {
                        if o.preferred_widths@[vi] == 0 {
                            assert(column_flips(o.preferred_widths@, buf@, false));
                        }
                    }
                }
            }
            ret
        }
    }
}

/// Hidden columns get no width: once the limits are updated (they are
/// known), every hidden column's width limit is 0.
pub proof fn law_hidden_columns_get_no_width(r: ResultsUI, i: int)
    requires
        !r.limits_unknown(),
        0 <= i < r.new_limits().len(),
        r.config.hidden_columns@.hidden(i as nat),
    ensures
        r.new_limits()[i] == 0,
{
    let b = r.limits_buffer();
    let old = r.width_limits@;
    assert(b.len() == r.config.hidden_columns@.len);
    if old != b && r.widths_buffer@.len() == 0 {
        if old.len() == b.len() && !column_flips(old, b, true) {
            if old[i] > 0 {
                assert(old[i] == old[i]);
                assert(column_flips(old, b, true));
            }
        }
    }
}

} // verus!

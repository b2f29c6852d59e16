//! Column visibility bookkeeping.
use vstd::prelude::*;
use vstd::std_specs::bits::{u64_leading_zeros, u64_trailing_zeros};

use crate::bits::{
    bit, count_ones, lemma_bit_all_and_none, lemma_bit_and, lemma_bit_high_mask, lemma_bit_low_mask,
    lemma_bit_not, lemma_bit_or, lemma_bit_single, lemma_clear_lowest, lemma_highest_bit,
    lemma_lowest_bit, lemma_popcount_stable, lemma_test_single, popcount_below,
};

verus! {

/// What a [`HiddenColumns`] stands for: the number of tracked columns and the
/// hidden columns in the order in which they were hidden (last = most recent).
///
/// Every index that is not hidden is visible, including those past `len`.
pub struct HiddenView {
    pub len: nat,
    pub order: Seq<nat>,
}

impl HiddenView {
    pub open spec fn hidden(self, i: nat) -> bool {
        self.order.contains(i)
    }

    pub open spec fn visible(self, i: nat) -> bool {
        !self.hidden(i)
    }

    /// Number of visible indices below `n`.
    pub open spec fn visible_below(self, n: nat) -> nat
        decreases n,
    {
        if n == 0 {
            0
        } else {
            self.visible_below((n - 1) as nat) + if self.visible((n - 1) as nat) {
                1nat
            } else {
                0nat
            }
        }
    }

    /// The first visible index at or after `n`.
    pub open spec fn next_gap(self, n: nat) -> nat
        decreases self.len - n,
    {
        if n >= self.len || self.visible(n) {
            n
        } else {
            self.next_gap(n + 1)
        }
    }

    /// The last visible index strictly before `n`, if any.
    pub open spec fn prev_gap(self, n: nat) -> Option<nat>
        decreases n,
    {
        if n == 0 {
            None
        } else if self.visible((n - 1) as nat) {
            Some((n - 1) as nat)
        } else {
            self.prev_gap((n - 1) as nat)
        }
    }

    pub open spec fn hidden_mask(self) -> Seq<bool> {
        Seq::new(self.len, |i: int| self.hidden(i as nat))
    }

    /// The view after hiding column `i`: a tracked, visible column is pushed
    /// on the order stack; anything else leaves the view as it was.
    pub open spec fn with_hidden(self, i: nat) -> HiddenView {
        if i < self.len && self.visible(i) {
            HiddenView { len: self.len, order: self.order.push(i) }
        } else {
            self
        }
    }

    /// The view after resizing to `n` tracked columns (clamped to 64): hidden
    /// columns past the new size are dropped, the others keep their order.
    pub open spec fn resized(self, n: nat) -> HiddenView {
        let len = if n < 64 {
            n
        } else {
            64nat
        };
        HiddenView { len, order: self.order.filter(|x: nat| x < len) }
    }

    /// The invariant of a well-formed set of hidden columns.
    pub open spec fn valid(self) -> bool {
        &&& self.len <= 64
        &&& self.order.no_duplicates()
        &&& forall|k: int| 0 <= k < self.order.len() ==> #[trigger] self.order[k] < self.len
    }
}

/// A set of hidden columns (at most 64 of them), together with the order in
/// which they were hidden.
#[derive(Debug, Clone, PartialEq, Eq)]
pub struct HiddenColumns {
    /// Bitfield where bit `i` is 1 if hidden, 0 if visible.
    mask: u64,
    /// LIFO insertion order stack for hidden column indices.
    order: Vec<u8>,
    /// Number of tracked columns (0..=64).
    len: u8,
}

pub open spec fn opt_usize(o: Option<nat>) -> Option<usize> {
    match o {
        Some(x) => Some(x as usize),
        None => None,
    }
}

pub open spec fn u8s_as_nats(s: Seq<u8>) -> Seq<nat> {
    s.map_values(|x: u8| x as nat)
}

impl View for HiddenColumns {
    type V = HiddenView;

    closed spec fn view(&self) -> HiddenView {
        HiddenView { len: self.len as nat, order: u8s_as_nats(self.order@) }
    }
}

impl HiddenColumns {
    /// The representation invariant: the view is valid and the bitfield has
    /// exactly the hidden columns set.
    pub closed spec fn wf(&self) -> bool {
        &&& self@.valid()
        &&& forall|j: u64| j < 64 ==> (#[trigger] bit(self.mask, j) <==> self@.hidden(j as nat))
    }

    /// Creates a `HiddenColumns` with a fixed mask size (up to 64 columns), all initially visible.
    pub fn new_with_size(size: usize) -> (r: Self)
        requires
            size <= 64,
        ensures
            r.wf(),
            r@.len == size,
            r@.order == Seq::<nat>::empty(),
    {
        let r = Self { mask: 0, order: Vec::with_capacity(size), len: size as u8 };
        proof {
            assert(r@.order =~= Seq::<nat>::empty());
            assert forall|j: u64| j < 64 implies (#[trigger] bit(r.mask, j) <==> r@.hidden(
                j as nat,
            )) by {
                lemma_bit_all_and_none(j);
            }
        }
        r
    }

    /// Resizes the number of tracked columns, preserving the hidden state of
    /// columns that remain in range. Growing adds visible columns; truncating
    /// drops hidden flags and order entries beyond the new size. The size is
    /// silently clamped to 64.
    pub fn resize(&mut self, new_size: usize)
        requires
            old(self).wf(),
        ensures
            final(self).wf(),
            final(self)@ == old(self)@.resized(new_size as nat),
    {
        let new_size: u8 = if new_size < 64 {
            new_size as u8
        } else {
            64
        };
        let ghost n = new_size as nat;
        let ghost pred = |x: nat| x < n;
        if new_size == self.len {
            proof {
                self.lemma_filter_all(pred);
            }
            return ;
        }
        if new_size < self.len {
            proof {
                lemma_bit_low_mask(new_size as u64, 0);
            }
            let low = (1u64 << new_size as u64) - 1;
            let ghost old_mask = self.mask;
            self.mask = self.mask & low;
            let mut kept: Vec<u8> = Vec::new();
            let mut i: usize = 0;
            while i < self.order.len()
                invariant
                    0 <= i <= self.order@.len(),
                    new_size < 64,
                    n == new_size as nat,
                    pred == (|x: nat| x < n),
                    u8s_as_nats(kept@) == u8s_as_nats(self.order@.take(i as int)).filter(pred),
                decreases self.order@.len() - i,
            {
                let x = self.order[i];
                proof {
                    let s = u8s_as_nats(self.order@.take(i as int + 1));
                    assert(u8s_as_nats(self.order@.take(i as int)) =~= s.drop_last());
                    reveal_with_fuel(Seq::<_>::filter, 1);
                }
                if x < new_size {
                    kept.push(x);
                    proof {
                        assert(u8s_as_nats(kept@) =~= u8s_as_nats(kept@.drop_last()).push(
                            x as nat,
                        ));
                    }
                }
                i = i + 1;
            }
            proof {
                assert(self.order@.take(self.order@.len() as int) =~= self.order@);
                self@.order.filter_lemma(pred);
                lemma_filter_no_dup(self@.order, pred);
            }
            self.order = kept;
            proof {
                assert forall|j: u64| j < 64 implies (#[trigger] bit(self.mask, j)
                    <==> self@.hidden(j as nat)) by {
                    lemma_bit_and(old_mask, low, j);
                    lemma_bit_low_mask(new_size as u64, j);
                    lemma_filter_contains_iff(old(self)@.order, pred, j as nat);
                }
                assert forall|k: int| 0 <= k < self@.order.len() implies #[trigger] self@.order[k]
                    < self@.len by {
                    assert(pred(self@.order[k]));
                }
            }
        } else {
            proof {
                self.lemma_filter_all(pred);
            }
        }
        self.len = new_size;
    }

    proof fn lemma_filter_all(&self, pred: spec_fn(nat) -> bool)
        requires
            self.wf(),
            forall|x: nat| x < self@.len ==> #[trigger] pred(x),
        ensures
            self@.order.filter(pred) == self@.order,
    {
        assert forall|k: int| 0 <= k < self@.order.len() implies pred(#[trigger] self@.order[k]) by {
            assert(self@.order[k] < self@.len);
        }
        lemma_filter_keeps_all(self@.order, pred);
    }

    #[inline]
    pub fn mask_len(&self) -> (r: usize)
        ensures
            r == self@.len,
    {
        self.len as usize
    }

    /// Returns the hidden flag of each tracked column (`true` = hidden).
    #[inline]
    pub fn mask(&self) -> (r: Vec<bool>)
        requires
            self.wf(),
        ensures
            r@ == self@.hidden_mask(),
    {
        let mut r: Vec<bool> = Vec::new();
        let mut i: u8 = 0;
        while i < self.len
            invariant
                self.wf(),
                i <= self.len,
                r@ == self@.hidden_mask().take(i as int),
            decreases self.len - i,
        {
            proof {
                lemma_test_single(self.mask, i as u64);
            }
            r.push((self.mask & (1u64 << i as u64)) != 0);
            proof {
                assert(r@ =~= self@.hidden_mask().take(i as int + 1));
            }
            i = i + 1;
        }
        proof {
            assert(r@ =~= self@.hidden_mask());
        }
        r
    }

    /// A well-formed set's view is valid: at most 64 columns are tracked,
    /// each hidden column is tracked and stands once in the order stack,
    /// so at most the tracked columns are hidden, and every column at or
    /// past the tracked ones is visible.
    pub proof fn lemma_wf_valid(&self)
        requires
            self.wf(),
        ensures
            self@.valid(),
            self@.order.len() <= self@.len,
            forall|i: nat| i >= self@.len ==> #[trigger] self@.visible(i),
    {
        lemma_hidden_count(self@, self@.len);
        assert forall|i: nat| i >= self@.len implies #[trigger] self@.visible(i) by {
            if self@.hidden(i) {
                let k = choose|k: int| 0 <= k < self@.order.len() && self@.order[k] == i;
                assert(self@.order[k] < self@.len);
            }
        }
    }

    /// Return the number of visible (non-hidden) columns.
    #[inline]
    pub fn visible_count(&self) -> (r: usize)
        requires
            self.wf(),
        ensures
            r == self@.visible_below(self@.len),
            r == self@.len - self@.order.len(),
    {
        let v = !self.mask & self.valid_mask();
        proof {
            self.lemma_visible_bits(v);
            self.lemma_popcount_visible(v, 64);
            lemma_hidden_count(self@, self@.len);
        }
        count_ones(v) as usize
    }

    /// `(index, hidden)` pairs for every tracked column.
    pub fn iter(&self) -> (r: Vec<(usize, bool)>)
        requires
            self.wf(),
        ensures
            r@.len() == self@.len,
            forall|i: int| 0 <= i < r@.len() ==> #[trigger] r@[i] == (i as usize, self@.hidden(i as nat)),
    {
        let mut r: Vec<(usize, bool)> = Vec::new();
        let mut i: u8 = 0;
        while i < self.len
            invariant
                self.wf(),
                i <= self.len,
                r@.len() == i,
                forall|k: int| 0 <= k < i ==> #[trigger] r@[k] == (k as usize, self@.hidden(k as nat)),
            decreases self.len - i,
        {
            proof {
                lemma_test_single(self.mask, i as u64);
            }
            r.push((i as usize, (self.mask & (1u64 << i as u64)) != 0));
            i = i + 1;
        }
        r
    }

    /// Checks if column `value` is hidden.
    /// Returns false if out of bounds.
    #[inline]
    pub fn contains(&self, value: usize) -> (r: bool)
        requires
            self.wf(),
        ensures
            r == self@.hidden(value as nat),
    {
        if value >= self.len as usize {
            proof {
                self.lemma_hidden_below_len(value as nat);
            }
            false
        } else {
            proof {
                lemma_test_single(self.mask, value as u64);
            }
            (self.mask & (1u64 << value as u64)) != 0
        }
    }

    proof fn lemma_hidden_below_len(&self, i: nat)
        requires
            self.wf(),
        ensures
            self@.hidden(i) ==> i < self@.len,
    {
        if self@.hidden(i) {
            let k = choose|k: int| 0 <= k < self@.order.len() && self@.order[k] == i;
        }
    }

    /// Hides column `i` and adds it to the order stack.
    /// Does nothing if out of bounds or already hidden.
    pub fn set(&mut self, i: usize)
        requires
            old(self).wf(),
        ensures
            final(self).wf(),
            final(self)@ == old(self)@.with_hidden(i as nat),
    {
        if i >= self.len as usize || self.contains(i) {
            return ;
        }
        let ghost old_mask = self.mask;
        self.mask = self.mask | (1u64 << i as u64);
        self.order.push(i as u8);
        proof {
            assert(self@.order =~= old(self)@.order.push(i as nat));
            assert forall|j: u64| j < 64 implies (#[trigger] bit(self.mask, j) <==> self@.hidden(
                j as nat,
            )) by {
                lemma_bit_or(old_mask, 1u64 << i as u64, j);
                lemma_bit_single(i as u64, j);
                assert(self@.order.last() == i as nat);
                if old(self)@.hidden(j as nat) {
                    let k = choose|k: int|
                        0 <= k < old(self)@.order.len() && old(self)@.order[k] == j as nat;
                    assert(self@.order[k] == j as nat);
                }
            }
            assert forall|a: int, b: int|
                0 <= a < b < self@.order.len() implies self@.order[a] != self@.order[b] by {
                if b == self@.order.len() - 1 {
                    assert(old(self)@.order[a] == self@.order[a]);
                }
            }
        }
    }

    /// Unhides column `i` and removes it from the order stack.
    /// Does nothing if out of bounds or already visible.
    pub fn unset(&mut self, i: usize)
        requires
            old(self).wf(),
        ensures
            final(self).wf(),
            final(self)@.len == old(self)@.len,
            old(self)@.hidden(i as nat) ==> exists|p: int|
                0 <= p < old(self)@.order.len() && old(self)@.order[p] == i as nat
                    && final(self)@.order == old(self)@.order.remove(p),
            !old(self)@.hidden(i as nat) ==> final(self)@ == old(self)@,
    {
        if i >= self.len as usize || !self.contains(i) {
            return ;
        }
        let ghost old_mask = self.mask;
        self.mask = self.mask & !(1u64 << i as u64);
        let mut pos: usize = 0;
        while pos < self.order.len() && self.order[pos] != i as u8
            invariant
                self.order == old(self).order,
                self@.order == old(self)@.order,
                old(self)@.hidden(i as nat),
                pos <= self.order@.len(),
                forall|k: int| 0 <= k < pos ==> self@.order[k] != i as nat,
            decreases self.order@.len() - pos,
        {
            pos = pos + 1;
        }
        proof {
            if pos == self.order@.len() {
                let k = choose|k: int| 0 <= k < self@.order.len() && self@.order[k] == i as nat;
                assert(false);
            }
            assert(self@.order[pos as int] == i as nat);
        }
        self.order.remove(pos);
        proof {
            assert(self@.order =~= old(self)@.order.remove(pos as int));
            lemma_remove_no_dup(old(self)@.order, pos as int);
            assert forall|j: u64| j < 64 implies (#[trigger] bit(self.mask, j) <==> self@.hidden(
                j as nat,
            )) by {
                lemma_bit_and(old_mask, !(1u64 << i as u64), j);
                lemma_bit_not(1u64 << i as u64, j);
                lemma_bit_single(i as u64, j);
            }
            assert forall|k: int| 0 <= k < self@.order.len() implies #[trigger] self@.order[k]
                < self@.len by {
                if k < pos {
                    assert(self@.order[k] == old(self)@.order[k]);
                } else {
                    assert(self@.order[k] == old(self)@.order[k + 1]);
                }
            }
        }
    }

    /// Unhides the last inserted element and updates the mask.
    pub fn pop(&mut self) -> (r: Option<usize>)
        requires
            old(self).wf(),
        ensures
            final(self).wf(),
            final(self)@.len == old(self)@.len,
            old(self)@.order.len() == 0 ==> r is None && final(self)@ == old(self)@,
            old(self)@.order.len() > 0 ==> r == Some(old(self)@.order.last() as usize)
                && final(self)@.order == old(self)@.order.drop_last(),
    {
        if self.order.len() == 0 {
            return None;
        }
        let ghost old_mask = self.mask;
        proof {
            let n = old(self)@.order.len() - 1;
            assert(old(self)@.order[n] < old(self)@.len);
        }
        let value = self.order.pop().unwrap() as usize;
        self.mask = self.mask & !(1u64 << value as u64);
        proof {
            let n = old(self)@.order.len() - 1;
            assert(self@.order =~= old(self)@.order.drop_last());
            assert(old(self)@.order[n] == value as nat);
            assert(self@.order =~= old(self)@.order.remove(n));
            lemma_remove_no_dup(old(self)@.order, n);
            assert forall|j: u64| j < 64 implies (#[trigger] bit(self.mask, j) <==> self@.hidden(
                j as nat,
            )) by {
                lemma_bit_and(old_mask, !(1u64 << value as u64), j);
                lemma_bit_not(1u64 << value as u64, j);
                lemma_bit_single(value as u64, j);
            }
            assert forall|k: int| 0 <= k < self@.order.len() implies #[trigger] self@.order[k]
                < self@.len by {
                assert(self@.order[k] == old(self)@.order[k]);
            }
        }
        Some(value)
    }

    /// Clears all hidden state, making all columns visible.
    pub fn clear(&mut self)
        requires
            old(self).wf(),
        ensures
            final(self).wf(),
            final(self)@.len == old(self)@.len,
            final(self)@.order == Seq::<nat>::empty(),
    {
        self.order.clear();
        self.mask = 0;
        proof {
            assert(self@.order =~= Seq::<nat>::empty());
            assert forall|j: u64| j < 64 implies (#[trigger] bit(self.mask, j) <==> self@.hidden(
                j as nat,
            )) by {
                lemma_bit_all_and_none(j);
            }
        }
    }

    /// Returns the first visible index >= `n`.
    pub fn next_gap(&self, n: usize) -> (r: usize)
        requires
            self.wf(),
        ensures
            r == self@.next_gap(n as nat),
            r >= n,
            self@.visible(r as nat),
            forall|j: nat| n <= j < r ==> self@.hidden(j),
    {
        if n >= self.len as usize {
            proof {
                self.lemma_hidden_below_len(n as nat);
            }
            return n;
        }
        let n_and_above = !0u64 << n as u64;
        let valid = self.valid_mask();
        let available = !self.mask & valid & n_and_above;
        proof {
            assert forall|j: u64| j < 64 implies #[trigger] bit(available, j) == (self@.visible(
                j as nat,
            ) && j < self@.len && j >= n) by {
                lemma_bit_and(!self.mask & valid, n_and_above, j);
                lemma_bit_and(!self.mask, valid, j);
                lemma_bit_not(self.mask, j);
                lemma_bit_high_mask(n as u64, j);
            }
            lemma_lowest_bit(available);
        }
        let r = if available == 0 {
            proof {
                assert forall|j: nat| n <= j < self@.len implies self@.hidden(j) by {
                    assert(!bit(available, j as u64));
                }
                self.lemma_hidden_below_len(self@.len);
            }
            self.len as usize
        } else {
            let t = available.trailing_zeros() as usize;
            proof {
                assert(bit(available, t as u64));
                assert forall|j: nat| n <= j < t implies self@.hidden(j) by {
                    assert(!bit(available, j as u64));
                }
            }
            t
        };
        proof {
            self.lemma_next_gap_spec(n as nat, r as nat);
        }
        r
    }

    proof fn lemma_next_gap_spec(&self, n: nat, r: nat)
        requires
            self.wf(),
            n <= r,
            self@.visible(r),
            forall|j: nat| n <= j < r ==> self@.hidden(j),
        ensures
            self@.next_gap(n) == r,
        decreases r - n,
    {
        if n < r {
            self.lemma_hidden_below_len(n);
            self.lemma_next_gap_spec(n + 1, r);
        }
    }

    /// Returns the first visible index < `n`.
    pub fn prev_gap(&self, n: usize) -> (r: Option<usize>)
        requires
            self.wf(),
        ensures
            r == opt_usize(self@.prev_gap(n as nat)),
            self@.prev_gap(n as nat) matches Some(x) ==> x < n,
            match r {
                Some(x) => x < n && self@.visible(x as nat) && forall|j: nat|
                    x < j < n ==> self@.hidden(j),
                None => forall|j: nat| j < n ==> self@.hidden(j),
            },
    {
        proof {
            self.lemma_prev_gap_bound(n as nat);
        }
        if n == 0 {
            return None;
        }
        if n > self.len as usize {
            proof {
                self.lemma_hidden_below_len((n - 1) as nat);
            }
            return Some(n - 1);
        }
        let strictly_below = Self::mask_below(n);
        let valid = self.valid_mask();
        let available = !self.mask & valid & strictly_below;
        proof {
            assert forall|j: u64| j < 64 implies #[trigger] bit(available, j) == (self@.visible(
                j as nat,
            ) && j < self@.len && j < n) by {
                lemma_bit_and(!self.mask & valid, strictly_below, j);
                lemma_bit_and(!self.mask, valid, j);
                lemma_bit_not(self.mask, j);
            }
            lemma_lowest_bit(available);
        }
        let r = if available == 0 {
            proof {
                assert forall|j: nat| j < n implies self@.hidden(j) by {
                    assert(!bit(available, j as u64));
                }
                self.lemma_prev_gap_none(n as nat);
            }
            None
        } else {
            let lz = available.leading_zeros();
            proof {
                lemma_highest_bit(available);
            }
            let h = 63 - lz as usize;
            proof {
                assert(bit(available, h as u64));
                assert forall|j: nat| h < j < n implies self@.hidden(j) by {
                    assert(!bit(available, j as u64));
                }
                self.lemma_prev_gap_some(n as nat, h as nat);
            }
            Some(h)
        };
        r
    }

    proof fn lemma_prev_gap_bound(&self, n: nat)
        ensures
            self@.prev_gap(n) matches Some(x) ==> x < n,
        decreases n,
    {
        if n > 0 {
            self.lemma_prev_gap_bound((n - 1) as nat);
        }
    }

    proof fn lemma_prev_gap_none(&self, n: nat)
        requires
            forall|j: nat| j < n ==> self@.hidden(j),
        ensures
            self@.prev_gap(n) is None,
        decreases n,
    {
        if n > 0 {
            self.lemma_prev_gap_none((n - 1) as nat);
        }
    }

    proof fn lemma_prev_gap_some(&self, n: nat, h: nat)
        requires
            h < n,
            self@.visible(h),
            forall|j: nat| h < j < n ==> self@.hidden(j),
        ensures
            self@.prev_gap(n) == Some(h),
        decreases n,
    {
        if n - 1 > h {
            self.lemma_prev_gap_some((n - 1) as nat, h);
        }
    }

    /// Like [`Self::next_gap`], but wraps around to index 0.
    pub fn next_gap_wrapping(&self, n: usize) -> (r: usize)
        requires
            self.wf(),
        ensures
            r == if self@.next_gap(n as nat) < self@.len {
                self@.next_gap(n as nat)
            } else {
                self@.next_gap(0)
            },
    {
        let candidate = self.next_gap(n);
        if candidate < self.len as usize {
            candidate
        } else {
            self.next_gap(0)
        }
    }

    /// Like [`Self::prev_gap`], but wraps around to the end of the mask.
    pub fn prev_gap_wrapping(&self, n: usize) -> (r: Option<usize>)
        requires
            self.wf(),
        ensures
            r == if self@.prev_gap(n as nat) matches Some(x) && x < self@.len {
                opt_usize(self@.prev_gap(n as nat))
            } else {
                opt_usize(self@.prev_gap(self@.len))
            },
    {
        match self.prev_gap(n) {
            Some(idx) if idx < self.len as usize => Some(idx),
            _ => self.prev_gap(self.len as usize),
        }
    }

    /// Returns the zero-indexed `k`-th visible column index.
    pub fn nth_gap(&self, k: usize) -> (r: usize)
        requires
            self.wf(),
            k + self@.order.len() <= usize::MAX,
        ensures
            self@.visible(r as nat),
            self@.visible_below(r as nat) == k,
    {
        let visible = !self.mask & self.valid_mask();
        proof {
            self.lemma_visible_bits(visible);
            self.lemma_popcount_visible(visible, 64);
        }
        let visible_in_mask = count_ones(visible) as usize;
        if k < visible_in_mask {
            let mut val = visible;
            let mut i: usize = 0;
            while i < k
                invariant
                    self.wf(),
                    i <= k,
                    k < visible_in_mask,
                    visible_in_mask == self@.visible_below(self@.len),
                    forall|j: u64| j < 64 ==> #[trigger] bit(val, j) == (j < self@.len
                        && self@.visible(j as nat) && self@.visible_below(j as nat) >= i),
                decreases k - i,
            {
                proof {
                    self.lemma_exists_visible_with_count(i as nat);
                    let w = choose|w: nat|
                        w < self@.len && self@.visible(w) && self@.visible_below(w) == i;
                    assert(bit(val, w as u64));
                    lemma_lowest_bit(val);
                    let t = u64_trailing_zeros(val) as nat;
                    self.lemma_count_pins(w, t, i as nat);
                    assert forall|j: u64| j < 64 implies #[trigger] bit(val & ((val - 1) as u64), j)
                        == (j < self@.len && self@.visible(j as nat) && self@.visible_below(
                        j as nat,
                    ) >= i + 1) by {
                        lemma_clear_lowest(val, j);
                        if j < self@.len && self@.visible(j as nat) && self@.visible_below(j as nat)
                            >= i && j != w {
                            self.lemma_count_distinct(w, j as nat);
                        }
                    }
                }
                val = val & (val - 1);
                i = i + 1;
            }
            proof {
                self.lemma_exists_visible_with_count(k as nat);
                let w = choose|w: nat|
                    w < self@.len && self@.visible(w) && self@.visible_below(w) == k;
                assert(bit(val, w as u64));
                lemma_lowest_bit(val);
                let t = u64_trailing_zeros(val) as nat;
                self.lemma_count_pins(w, t, k as nat);
            }
            val.trailing_zeros() as usize
        } else {
            let remaining = k - visible_in_mask;
            proof {
                lemma_hidden_count(self@, self@.len);
                self.lemma_hidden_below_len((self.len as usize + remaining) as nat);
                self.lemma_visible_below_past_len(remaining as nat);
            }
            self.len as usize + remaining
        }
    }

    /// If `x` is visible, returns how many visible columns exist before `x`.
    pub fn gap_index(&self, x: usize) -> (r: Option<usize>)
        requires
            self.wf(),
        ensures
            r == if self@.hidden(x as nat) {
                None::<usize>
            } else {
                Some(self@.visible_below(x as nat) as usize)
            },
    {
        if self.contains(x) {
            return None;
        }
        if x <= self.len as usize {
            let vm = !self.mask & self.valid_mask();
            let visible_below = vm & Self::mask_below(x);
            proof {
                self.lemma_visible_bits(vm);
                assert forall|j: u64| j < 64 implies #[trigger] bit(visible_below, j) == (j
                    < self@.len && self@.visible(j as nat) && j < x) by {
                    lemma_bit_and(vm, Self::mask_below_spec(x), j);
                }
                self.lemma_popcount_below_x(visible_below, x as nat);
            }
            Some(count_ones(visible_below) as usize)
        } else {
            let vm = !self.mask & self.valid_mask();
            proof {
                self.lemma_visible_bits(vm);
                self.lemma_popcount_visible(vm, 64);
                self.lemma_visible_below_past_len((x - self.len as usize) as nat);
                lemma_hidden_count(self@, self@.len);
            }
            let visible_in_mask = count_ones(vm) as usize;
            Some(visible_in_mask + (x - self.len as usize))
        }
    }

    // --- Internal Bitmask Helpers ---
    #[inline]
    fn valid_mask(&self) -> (r: u64)
        requires
            self.wf(),
        ensures
            r == (if self.len == 64 {
                !0u64
            } else {
                ((1u64 << self.len as u64) - 1) as u64
            }),
            forall|j: u64| j < 64 ==> #[trigger] bit(r, j) == (j < self@.len),
    {
        if self.len == 64 {
            proof {
                assert forall|j: u64| j < 64 implies #[trigger] bit(!0u64, j) == (j < self@.len) by {
                    lemma_bit_all_and_none(j);
                }
            }
            !0
        } else {
            proof {
                assert forall|j: u64| j < 64 implies #[trigger] bit(
                    ((1u64 << self.len as u64) - 1) as u64,
                    j,
                ) == (j < self@.len) by {
                    lemma_bit_low_mask(self.len as u64, j);
                }
                lemma_bit_low_mask(self.len as u64, 0);
            }
            (1u64 << self.len as u64) - 1
        }
    }

    spec fn mask_below_spec(n: usize) -> u64 {
        if n >= 64 {
            !0u64
        } else {
            ((1u64 << n as u64) - 1) as u64
        }
    }

    #[inline]
    fn mask_below(n: usize) -> (r: u64)
        ensures
            r == Self::mask_below_spec(n),
            forall|j: u64| j < 64 ==> #[trigger] bit(r, j) == (j < n),
    {
        if n >= 64 {
            proof {
                assert forall|j: u64| j < 64 implies #[trigger] bit(!0u64, j) == (j < n) by {
                    lemma_bit_all_and_none(j);
                }
            }
            !0
        } else {
            proof {
                assert forall|j: u64| j < 64 implies #[trigger] bit(
                    ((1u64 << n as u64) - 1) as u64,
                    j,
                ) == (j < n) by {
                    lemma_bit_low_mask(n as u64, j);
                }
                lemma_bit_low_mask(n as u64, 0);
            }
            (1u64 << n as u64) - 1
        }
    }

    // --- Proofs relating the bitfield to the view ---
    proof fn lemma_visible_bits(&self, v: u64)
        requires
            self.wf(),
            v == !self.mask & (if self.len == 64 {
                !0u64
            } else {
                ((1u64 << self.len as u64) - 1) as u64
            }),
        ensures
            forall|j: u64| j < 64 ==> #[trigger] bit(v, j) == (j < self@.len && self@.visible(
                j as nat,
            )),
    {
        assert forall|j: u64| j < 64 implies #[trigger] bit(v, j) == (j < self@.len
            && self@.visible(j as nat)) by {
            let vm = if self.len == 64 {
                !0u64
            } else {
                ((1u64 << self.len as u64) - 1) as u64
            };
            lemma_bit_and(!self.mask, vm, j);
            lemma_bit_not(self.mask, j);
            if self.len == 64 {
                lemma_bit_all_and_none(j);
            } else {
                lemma_bit_low_mask(self.len as u64, j);
            }
        }
    }

    proof fn lemma_popcount_visible(&self, v: u64, m: nat)
        requires
            self.wf(),
            self@.len <= m <= 64,
            forall|j: u64| j < 64 ==> #[trigger] bit(v, j) == (j < self@.len && self@.visible(
                j as nat,
            )),
        ensures
            popcount_below(v, m) == self@.visible_below(self@.len),
    {
        lemma_popcount_stable(v, self@.len, m);
        self.lemma_popcount_prefix(v, self@.len);
    }

    proof fn lemma_popcount_prefix(&self, v: u64, n: nat)
        requires
            n <= self@.len <= 64,
            forall|j: u64| j < 64 ==> #[trigger] bit(v, j) == (j < self@.len && self@.visible(
                j as nat,
            )),
        ensures
            popcount_below(v, n) == self@.visible_below(n),
        decreases n,
    {
        if n > 0 {
            self.lemma_popcount_prefix(v, (n - 1) as nat);
            assert(bit(v, (n - 1) as u64) == self@.visible((n - 1) as nat));
        }
    }

    proof fn lemma_popcount_below_x(&self, v: u64, x: nat)
        requires
            x <= self@.len <= 64,
            forall|j: u64| j < 64 ==> #[trigger] bit(v, j) == (j < self@.len && self@.visible(
                j as nat,
            ) && j < x),
        ensures
            popcount_below(v, 64) == self@.visible_below(x),
    {
        lemma_popcount_stable(v, x, 64);
        self.lemma_popcount_prefix_x(v, x, x);
    }

    proof fn lemma_popcount_prefix_x(&self, v: u64, n: nat, x: nat)
        requires
            n <= x <= self@.len <= 64,
            forall|j: u64| j < 64 ==> #[trigger] bit(v, j) == (j < self@.len && self@.visible(
                j as nat,
            ) && j < x),
        ensures
            popcount_below(v, n) == self@.visible_below(n),
        decreases n,
    {
        if n > 0 {
            self.lemma_popcount_prefix_x(v, (n - 1) as nat, x);
            assert(bit(v, (n - 1) as u64) == self@.visible((n - 1) as nat));
        }
    }

    /// Every index at or past `len` is visible, so the count grows by one per index there.
    proof fn lemma_visible_below_past_len(&self, extra: nat)
        requires
            self.wf(),
        ensures
            self@.visible_below(self@.len + extra) == self@.visible_below(self@.len) + extra,
        decreases extra,
    {
        if extra > 0 {
            self.lemma_visible_below_past_len((extra - 1) as nat);
            self.lemma_hidden_below_len((self@.len + extra - 1) as nat);
        }
    }

    /// For `c` below the number of visible columns under `len`, some visible
    /// column under `len` has exactly `c` visible columns before it.
    proof fn lemma_exists_visible_with_count(&self, c: nat)
        requires
            self.wf(),
            c < self@.visible_below(self@.len),
        ensures
            exists|w: nat| w < self@.len && self@.visible(w) && self@.visible_below(w) == c,
    {
        self.lemma_exists_visible_with_count_to(c, self@.len);
    }

    proof fn lemma_exists_visible_with_count_to(&self, c: nat, n: nat)
        requires
            c < self@.visible_below(n),
        ensures
            exists|w: nat| w < n && self@.visible(w) && self@.visible_below(w) == c,
        decreases n,
    {
        let p = (n - 1) as nat;
        if self@.visible_below(p) > c {
            self.lemma_exists_visible_with_count_to(c, p);
        } else {
            assert(self@.visible(p) && self@.visible_below(p) == c);
        }
    }

    /// `visible_below` never decreases, and strictly increases past a visible index.
    proof fn lemma_visible_below_mono(&self, a: nat, b: nat)
        requires
            a <= b,
        ensures
            self@.visible_below(a) <= self@.visible_below(b),
            a < b && self@.visible(a) ==> self@.visible_below(a) < self@.visible_below(b),
        decreases b - a,
    {
        if a < b {
            self.lemma_visible_below_mono(a, (b - 1) as nat);
        }
    }

    proof fn lemma_count_distinct(&self, w: nat, j: nat)
        requires
            self@.visible(w),
            self@.visible(j),
            w != j,
        ensures
            self@.visible_below(w) != self@.visible_below(j),
    {
        if w < j {
            self.lemma_visible_below_mono(w, j);
        } else {
            self.lemma_visible_below_mono(j, w);
        }
    }

    /// If `w` carries the lowest remaining count `c` and `t` is the lowest set
    /// bit of a mask holding the visible columns with count at least `c`, then `t == w`.
    proof fn lemma_count_pins(&self, w: nat, t: nat, c: nat)
        requires
            w < self@.len,
            self@.visible(w),
            self@.visible_below(w) == c,
            t <= w,
            t < self@.len,
            self@.visible(t),
            self@.visible_below(t) >= c,
        ensures
            t == w,
    {
        if t < w {
            self.lemma_visible_below_mono(t, w);
        }
    }
}

/// Each hidden index below `n` is counted once by the order stack.
proof fn lemma_hidden_count(v: HiddenView, n: nat)
    requires
        v.valid(),
        n == v.len,
    ensures
        v.visible_below(n) == n - v.order.len(),
{
    lemma_hidden_count_general(v.order, n);
    lemma_visible_below_is_complement(v, n);
}

spec fn hidden_below(s: Seq<nat>, n: nat) -> nat
    decreases n,
{
    if n == 0 {
        0
    } else {
        hidden_below(s, (n - 1) as nat) + if s.contains((n - 1) as nat) {
            1nat
        } else {
            0nat
        }
    }
}

proof fn lemma_visible_below_is_complement(v: HiddenView, n: nat)
    ensures
        v.visible_below(n) + hidden_below(v.order, n) == n,
    decreases n,
{
    if n > 0 {
        lemma_visible_below_is_complement(v, (n - 1) as nat);
    }
}

proof fn lemma_hidden_count_general(s: Seq<nat>, n: nat)
    requires
        s.no_duplicates(),
        forall|k: int| 0 <= k < s.len() ==> #[trigger] s[k] < n,
    ensures
        hidden_below(s, n) == s.len(),
    decreases s.len(),
{
    if s.len() > 0 {
        let x = s.last();
        let t = s.drop_last();
        assert forall|k: int| 0 <= k < t.len() implies #[trigger] t[k] < n by {
            assert(t[k] == s[k]);
        }
        assert(t.no_duplicates()) by {
            assert forall|a: int, b: int| 0 <= a < b < t.len() implies t[a] != t[b] by {
                assert(t[a] == s[a] && t[b] == s[b]);
            }
        }
        lemma_hidden_count_general(t, n);
        assert(s[s.len() - 1] < n);
        assert(!t.contains(x)) by {
            if t.contains(x) {
                let k = choose|k: int| 0 <= k < t.len() && t[k] == x;
                assert(s[k] == x && s[s.len() - 1] == x);
            }
        }
        assert(s =~= t.push(x));
        lemma_hidden_below_push(t, x, n);
    } else {
        lemma_hidden_below_empty(s, n);
    }
}

proof fn lemma_hidden_below_empty(s: Seq<nat>, n: nat)
    requires
        s.len() == 0,
    ensures
        hidden_below(s, n) == 0,
    decreases n,
{
    if n > 0 {
        lemma_hidden_below_empty(s, (n - 1) as nat);
    }
}

proof fn lemma_hidden_below_push(t: Seq<nat>, x: nat, n: nat)
    requires
        !t.contains(x),
        x < n,
    ensures
        hidden_below(t.push(x), n) == hidden_below(t, n) + 1,
    decreases n,
{
    let s = t.push(x);
    let p = (n - 1) as nat;
    assert(s.contains(p) == (t.contains(p) || p == x)) by {
        if s.contains(p) {
            let k = choose|k: int| 0 <= k < s.len() && s[k] == p;
            if k < t.len() {
                assert(t[k] == p);
            }
        }
        if t.contains(p) {
            let k = choose|k: int| 0 <= k < t.len() && t[k] == p;
            assert(s[k] == p);
        }
        if p == x {
            assert(s[t.len() as int] == p);
        }
    }
    if x < p {
        lemma_hidden_below_push(t, x, p);
    } else {
        lemma_hidden_below_unchanged(t, x, p);
    }
}

proof fn lemma_hidden_below_unchanged(t: Seq<nat>, x: nat, n: nat)
    requires
        n <= x,
    ensures
        hidden_below(t.push(x), n) == hidden_below(t, n),
    decreases n,
{
    if n > 0 {
        let s = t.push(x);
        let p = (n - 1) as nat;
        assert(s.contains(p) == t.contains(p)) by {
            if s.contains(p) {
                let k = choose|k: int| 0 <= k < s.len() && s[k] == p;
                if k < t.len() {
                    assert(t[k] == p);
                }
            }
            if t.contains(p) {
                let k = choose|k: int| 0 <= k < t.len() && t[k] == p;
                assert(s[k] == p);
            }
        }
        lemma_hidden_below_unchanged(t, x, p);
    }
}

proof fn lemma_remove_no_dup(s: Seq<nat>, p: int)
    requires
        s.no_duplicates(),
        0 <= p < s.len(),
    ensures
        s.remove(p).no_duplicates(),
        forall|x: nat| #[trigger] s.remove(p).contains(x) == (s.contains(x) && x != s[p]),
{
    let r = s.remove(p);
    assert forall|a: int, b: int| 0 <= a < b < r.len() implies r[a] != r[b] by {
        let ia = if a < p {
            a
        } else {
            a + 1
        };
        let ib = if b < p {
            b
        } else {
            b + 1
        };
        assert(r[a] == s[ia] && r[b] == s[ib]);
    }
    assert forall|x: nat| #[trigger] r.contains(x) == (s.contains(x) && x != s[p]) by {
        if r.contains(x) {
            let k = choose|k: int| 0 <= k < r.len() && r[k] == x;
            let ik = if k < p {
                k
            } else {
                k + 1
            };
            assert(s[ik] == x);
        }
        if s.contains(x) && x != s[p] {
            let k = choose|k: int| 0 <= k < s.len() && s[k] == x;
            if k < p {
                assert(r[k] == x);
            } else {
                assert(r[k - 1] == x);
            }
        }
    }
}

proof fn lemma_filter_no_dup<A>(s: Seq<A>, pred: spec_fn(A) -> bool)
    requires
        s.no_duplicates(),
    ensures
        s.filter(pred).no_duplicates(),
    decreases s.len(),
{
    reveal_with_fuel(Seq::<_>::filter, 1);
    if s.len() > 0 {
        let t = s.drop_last();
        assert(t.no_duplicates()) by {
            assert forall|a: int, b: int| 0 <= a < b < t.len() implies t[a] != t[b] by {
                assert(t[a] == s[a] && t[b] == s[b]);
            }
        }
        lemma_filter_no_dup(t, pred);
        let f = t.filter(pred);
        if pred(s.last()) {
            t.filter_lemma(pred);
            assert forall|a: int, b: int| 0 <= a < b < f.push(s.last()).len() implies f.push(
                s.last(),
            )[a] != f.push(s.last())[b] by {
                if b == f.len() {
                    let x = f[a];
                    assert(f.contains(x));
                    lemma_filter_contains_iff(t, pred, x);
                    let k = choose|k: int| 0 <= k < t.len() && t[k] == x;
                    assert(s[k] == x);
                }
            }
        }
    }
}

pub(crate) proof fn lemma_filter_contains_iff<A>(s: Seq<A>, pred: spec_fn(A) -> bool, x: A)
    ensures
        s.filter(pred).contains(x) == (s.contains(x) && pred(x)),
{
    s.filter_lemma(pred);
    if s.filter(pred).contains(x) {
        s.lemma_filter_contains_rev(pred, x);
    }
    if s.contains(x) && pred(x) {
        let k = choose|k: int| 0 <= k < s.len() && s[k] == x;
        assert(s.filter(pred).contains(s[k]));
    }
}

proof fn lemma_filter_keeps_all(s: Seq<nat>, pred: spec_fn(nat) -> bool)
    requires
        forall|k: int| 0 <= k < s.len() ==> pred(#[trigger] s[k]),
    ensures
        s.filter(pred) == s,
    decreases s.len(),
{
    reveal_with_fuel(Seq::<_>::filter, 1);
    if s.len() > 0 {
        let t = s.drop_last();
        assert forall|k: int| 0 <= k < t.len() implies pred(#[trigger] t[k]) by {
            assert(t[k] == s[k]);
        }
        lemma_filter_keeps_all(t, pred);
        assert(pred(s[s.len() - 1]));
        assert(s =~= t.push(s.last()));
    }
}

impl Default for HiddenColumns {
    /// The default tracks three columns, all visible.
    fn default() -> (r: Self)
        ensures
            r.wf(),
            r@.len == 3,
            r@.order == Seq::<nat>::empty(),
    {
        Self::new_with_size(3)
    }
}

impl HiddenColumns {
    /// Builds a `HiddenColumns` at max capacity (64 columns) with the given
    /// column indices hidden, in sequence. Returns `None` when an index is out
    /// of range (`>= 64`).
    pub fn from_iter(indices: Vec<usize>) -> (r: Option<Self>)
        ensures
            r is None <==> exists|k: int| 0 <= k < indices@.len() && indices@[k] >= 64,
            r matches Some(h) ==> h.wf() && h@.len == 64 && h@.order == hide_in_sequence(
                Seq::<nat>::empty(),
                indices@,
            ),
    {
        let mut columns = Self::new_with_size(64);
        let mut i: usize = 0;
        while i < indices.len()
            invariant
                i <= indices@.len(),
                columns.wf(),
                columns@.len == 64,
                columns@.order == hide_in_sequence(Seq::<nat>::empty(), indices@.take(i as int)),
                forall|k: int| 0 <= k < i ==> indices@[k] < 64,
            decreases indices@.len() - i,
        {
            let x = indices[i];
            if x >= 64 {
                return None;
            }
            proof {
                assert(indices@.take(i as int + 1).drop_last() =~= indices@.take(i as int));
            }
            columns.set(x);
            i = i + 1;
        }
        proof {
            assert(indices@.take(indices@.len() as int) =~= indices@);
        }
        Some(columns)
    }
}

/// The order stack after hiding `indices` one after another (indices below 64,
/// at max capacity): each index not yet hidden is pushed.
pub open spec fn hide_in_sequence(order: Seq<nat>, indices: Seq<usize>) -> Seq<nat>
    decreases indices.len(),
{
    if indices.len() == 0 {
        order
    } else {
        let before = hide_in_sequence(order, indices.drop_last());
        let x = indices.last() as nat;
        if before.contains(x) {
            before
        } else {
            before.push(x)
        }
    }
}


// ------------------------------------------------------------------------
// Selections
#[verifier::external_type_specification]
#[verifier::external_body]
#[verifier::reject_recursive_types(T)]
#[verifier::reject_recursive_types(S)]
pub struct ExIndexSet<T, S>(indexmap::IndexSet<T, S>);

/// The items of an `IndexSet<u32>`, in insertion order.
pub uninterp spec fn index_set_items(s: indexmap::IndexSet<u32>) -> Seq<u32>;

/// `IndexSet::new`: an empty set.
#[verifier::external_body]
fn index_set_new() -> (r: indexmap::IndexSet<u32>)
    ensures
        index_set_items(r) == Seq::<u32>::empty(),
{
    indexmap::IndexSet::new()
}

/// `IndexSet::len`: the number of items.
#[verifier::external_body]
fn index_set_len(s: &indexmap::IndexSet<u32>) -> (r: usize)
    ensures
        r == index_set_items(*s).len(),
{
    s.len()
}

/// `IndexSet::contains`: whether an equal item is in the set.
#[verifier::external_body]
fn index_set_contains(s: &indexmap::IndexSet<u32>, x: u32) -> (r: bool)
    ensures
        r == index_set_items(*s).contains(x),
{
    s.contains(&x)
}

/// `IndexSet::get_index`: the item at position `i` in insertion order.
#[verifier::external_body]
fn index_set_get_index(s: &indexmap::IndexSet<u32>, i: usize) -> (r: Option<u32>)
    ensures
        r == if i < index_set_items(*s).len() {
            Some(index_set_items(*s)[i as int])
        } else {
            None::<u32>
        },
{
    s.get_index(i).copied()
}

/// `IndexSet::clear`: removes all items.
#[verifier::external_body]
fn index_set_clear(s: &mut indexmap::IndexSet<u32>)
    ensures
        index_set_items(*final(s)) == Seq::<u32>::empty(),
{
    s.clear()
}

/// `IndexSet::shift_remove`: removes `x` if present, the items after it
/// moving up one place in order; returns whether it was present.
#[verifier::external_body]
fn index_set_shift_remove(s: &mut indexmap::IndexSet<u32>, x: u32) -> (r: bool)
    ensures
        r == index_set_items(*old(s)).contains(x),
        index_set_items(*final(s)) == index_set_items(*old(s)).filter(|y: u32| y != x),
{
    s.shift_remove(&x)
}

/// `IndexSet::insert`: an item already present leaves the set unchanged and
/// returns `false`; otherwise the item is appended and `true` is returned.
#[verifier::external_body]
fn index_set_insert(s: &mut indexmap::IndexSet<u32>, x: u32) -> (r: bool)
    ensures
        r == !index_set_items(*old(s)).contains(x),
        index_set_items(*final(s)) == if index_set_items(*old(s)).contains(x) {
            index_set_items(*old(s))
        } else {
            index_set_items(*old(s)).push(x)
        },
{
    s.insert(x)
}

/// `s` with each item of `xs` appended, in order, unless already present.
pub open spec fn insert_all(s: Seq<u32>, xs: Seq<u32>) -> Seq<u32>
    decreases xs.len(),
{
    if xs.len() == 0 {
        s
    } else {
        let before = insert_all(s, xs.drop_last());
        if before.contains(xs.last()) {
            before
        } else {
            before.push(xs.last())
        }
    }
}

/// Whether every index of `xs` is selected in `s`, with no more indices than selections.
pub open spec fn all_selected(s: Seq<u32>, xs: Seq<u32>) -> bool {
    xs.len() <= s.len() && forall|k: int| 0 <= k < xs.len() ==> s.contains(#[trigger] xs[k])
}

/// The selection after toggling the group `xs`: cleared when the whole group
/// is already selected, else the group is added.
pub open spec fn cycled(s: Seq<u32>, xs: Seq<u32>) -> Seq<u32> {
    if all_selected(s, xs) {
        Seq::empty()
    } else {
        insert_all(s, xs)
    }
}

/// A set of nucleo `u32` indices representing the items the user has selected,
/// in selection order.
pub struct Selector {
    inner: indexmap::IndexSet<u32>,
}

impl View for Selector {
    type V = Seq<u32>;

    closed spec fn view(&self) -> Seq<u32> {
        index_set_items(self.inner)
    }
}

impl Selector {
    pub open spec fn wf(&self) -> bool {
        self@.no_duplicates()
    }

    pub fn new() -> (r: Self)
        ensures
            r.wf(),
            r@ == Seq::<u32>::empty(),
    {
        Selector { inner: index_set_new() }
    }

    pub fn len(&self) -> (r: usize)
        ensures
            r == self@.len(),
    {
        index_set_len(&self.inner)
    }

    pub fn contains(&self, x: u32) -> (r: bool)
        ensures
            r == self@.contains(x),
    {
        index_set_contains(&self.inner, x)
    }

    /// The selected indices in selection order.
    pub fn items(&self) -> (r: Vec<u32>)
        ensures
            r@ == self@,
    {
        let mut r: Vec<u32> = Vec::new();
        let n = self.len();
        let mut i: usize = 0;
        while i < n
            invariant
                n == self@.len(),
                i <= n,
                r@ == self@.take(i as int),
            decreases n - i,
        {
            let x = index_set_get_index(&self.inner, i).unwrap();
            r.push(x);
            proof {
                assert(r@ =~= self@.take(i as int + 1));
            }
            i = i + 1;
        }
        proof {
            assert(r@ =~= self@);
        }
        r
    }

    /// Selects `x`; returns whether it was newly selected.
    pub fn insert(&mut self, x: u32) -> (r: bool)
        requires
            old(self).wf(),
        ensures
            final(self).wf(),
            r == !old(self)@.contains(x),
            final(self)@ == if old(self)@.contains(x) {
                old(self)@
            } else {
                old(self)@.push(x)
            },
    {
        let r = index_set_insert(&mut self.inner, x);
        proof {
            lemma_push_new_no_dup(old(self)@, x);
        }
        r
    }

    /// Deselects `x`, keeping the order of the others; returns whether it
    /// was selected.
    pub fn shift_remove(&mut self, x: u32) -> (r: bool)
        requires
            old(self).wf(),
        ensures
            final(self).wf(),
            r == old(self)@.contains(x),
            final(self)@ == old(self)@.filter(|y: u32| y != x),
    {
        let r = index_set_shift_remove(&mut self.inner, x);
        proof {
            lemma_filter_no_dup(old(self)@, |y: u32| y != x);
        }
        r
    }

    pub fn clear(&mut self)
        ensures
            final(self).wf(),
            final(self)@ == Seq::<u32>::empty(),
    {
        index_set_clear(&mut self.inner);
    }

    /// Selects each of `indices` in order (already selected ones are kept in place).
    pub fn extend(&mut self, indices: &Vec<u32>)
        requires
            old(self).wf(),
        ensures
            final(self).wf(),
            final(self)@ == insert_all(old(self)@, indices@),
    {
        let mut i: usize = 0;
        while i < indices.len()
            invariant
                i <= indices@.len(),
                self.wf(),
                self@ == insert_all(old(self)@, indices@.take(i as int)),
            decreases indices@.len() - i,
        {
            let ghost before = self@;
            index_set_insert(&mut self.inner, indices[i]);
            proof {
                assert(indices@.take(i as int + 1).drop_last() =~= indices@.take(i as int));
                lemma_push_new_no_dup(before, indices@[i as int]);
            }
            i = i + 1;
        }
        proof {
            assert(indices@.take(indices@.len() as int) =~= indices@);
        }
    }

    /// Toggles a whole group: when every index of `indices` is already
    /// selected (and there are no more of them than selections), all
    /// selections are cleared; otherwise the indices are added.
    pub fn cycle_all_bg(&mut self, indices: &Vec<u32>)
        requires
            old(self).wf(),
        ensures
            final(self).wf(),
            final(self)@ == cycled(old(self)@, indices@),
    {
        let len = indices.len();
        if len <= self.len() {
            let mut all = true;
            let mut i: usize = 0;
            while i < len
                invariant
                    len == indices@.len(),
                    i <= len,
                    all <==> forall|k: int| 0 <= k < i ==> self@.contains(#[trigger] indices@[k]),
                decreases len - i,
            {
                if !self.contains(indices[i]) {
                    all = false;
                }
                i = i + 1;
            }
            if all {
                self.clear();
                return ;
            }
        }
        self.extend(indices);
    }
}

proof fn lemma_push_new_no_dup(s: Seq<u32>, x: u32)
    requires
        s.no_duplicates(),
    ensures
        !s.contains(x) ==> s.push(x).no_duplicates(),
{
    if !s.contains(x) {
        assert forall|a: int, b: int| 0 <= a < b < s.push(x).len() implies s.push(x)[a] != s.push(
            x,
        )[b] by {
            if b == s.len() {
                assert(s[a] == s.push(x)[a]);
            }
        }
    }
}


// ------------------------------------------------------------------------
// Laws

/// Hiding a tracked, visible column and then popping the order stack gives
/// that column back and restores the previous state.
pub proof fn law_pop_undoes_set(h: HiddenView, i: nat)
    requires
        h.valid(),
        i < h.len,
        h.visible(i),
    ensures
        h.with_hidden(i).order.len() > 0,
        h.with_hidden(i).order.last() == i,
        h.with_hidden(i).order.drop_last() == h.order,
        h.with_hidden(i).len == h.len,
{
    assert(h.order.push(i).drop_last() =~= h.order);
}

/// The results of `n` pops in turn, and the view left: each pop gives the
/// last column hidden and makes it visible; on an empty stack, `None` and
/// no change.
pub open spec fn popped(h: HiddenView, n: nat) -> (Seq<Option<nat>>, HiddenView)
    decreases n,
{
    if n == 0 {
        (Seq::empty(), h)
    } else {
        let p = popped(h, (n - 1) as nat);
        if p.1.order.len() == 0 {
            (p.0.push(None), p.1)
        } else {
            (p.0.push(Some(p.1.order.last())), HiddenView { len: p.1.len, order: p.1.order.drop_last() })
        }
    }
}

proof fn lemma_popped(h: HiddenView, n: nat)
    requires
        n <= h.order.len(),
    ensures
        popped(h, n).0 == Seq::new(n, |k: int| Some(h.order[h.order.len() - 1 - k])),
        popped(h, n).1 == (HiddenView { len: h.len, order: h.order.take(h.order.len() - n) }),
    decreases n,
{
    if n == 0 {
        assert(h.order.take(h.order.len() as int) =~= h.order);
        assert(Seq::new(0, |k: int| Some(h.order[h.order.len() - 1 - k])) =~= Seq::<Option<nat>>::empty());
    } else {
        lemma_popped(h, (n - 1) as nat);
        let m = h.order.len() - (n - 1);
        assert(h.order.take(m).drop_last() =~= h.order.take(m - 1));
        assert(Seq::new((n - 1) as nat, |k: int| Some(h.order[h.order.len() - 1 - k])).push(
            Some(h.order.take(m).last()),
        ) =~= Seq::new(n, |k: int| Some(h.order[h.order.len() - 1 - k])));
    }
}

proof fn lemma_all_visible_below(h: HiddenView, n: nat)
    requires
        h.order.len() == 0,
    ensures
        h.visible_below(n) == n,
    decreases n,
{
    if n > 0 {
        lemma_all_visible_below(h, (n - 1) as nat);
    }
}

/// Popping repeatedly gives every hidden column once, the most recently
/// hidden first, then `None`; the number of tracked columns never changes,
/// and at the end every tracked column is visible.
pub proof fn law_pops_give_each_hidden_column_once(h: HiddenView)
    requires
        h.valid(),
    ensures
        ({
            let n = h.order.len();
            let p = popped(h, n + 1);
            &&& p.0 == Seq::new(n, |k: int| Some(h.order[n - 1 - k])).push(None)
            &&& forall|a: int, b: int| 0 <= a < b < n ==> p.0[a] != p.0[b]
            &&& forall|i: nat| i < h.len ==> (h.hidden(i) <==> exists|k: int| 0 <= k < n && p.0[k] == Some(i))
            &&& p.1.len == h.len
            &&& p.1.order.len() == 0
            &&& p.1.visible_below(p.1.len) == p.1.len
        }),
{
    let n = h.order.len();
    lemma_popped(h, n);
    assert(h.order.take(0) =~= Seq::<nat>::empty());
    let p = popped(h, n + 1);
    let s = Seq::new(n, |k: int| Some(h.order[n - 1 - k]));
    assert(p.0 == s.push(None));
    assert forall|a: int, b: int| 0 <= a < b < n implies p.0[a] != p.0[b] by {
        assert(p.0[a] == s[a] && p.0[b] == s[b]);
    }
    assert forall|i: nat| i < h.len implies (h.hidden(i) <==> exists|k: int| 0 <= k < n && p.0[k] == Some(i)) by {
        if h.hidden(i) {
            let j = choose|j: int| 0 <= j < n && h.order[j] == i;
            assert(p.0[n - 1 - j] == s[n - 1 - j]);
        }
        if exists|k: int| 0 <= k < n && p.0[k] == Some(i) {
            let k = choose|k: int| 0 <= k < n && p.0[k] == Some(i);
            assert(p.0[k] == s[k]);
            assert(h.order[n - 1 - k] == i);
        }
    }
    lemma_all_visible_below(p.1, p.1.len);
}

/// Hiding a column keeps the set well formed, and hiding it again changes nothing.
pub proof fn law_set_is_idempotent(h: HiddenView, i: nat)
    requires
        h.valid(),
    ensures
        h.with_hidden(i).valid(),
        h.with_hidden(i).with_hidden(i) == h.with_hidden(i),
{
    if i < h.len && h.visible(i) {
        let o = h.order.push(i);
        assert(o[o.len() - 1] == i);
        assert(o.contains(i));
        assert forall|a: int, b: int| 0 <= a < b < o.len() implies o[a] != o[b] by {
            if b == o.len() - 1 {
                assert(h.order[a] == o[a]);
            }
        }
        assert forall|k: int| 0 <= k < o.len() implies #[trigger] o[k] < h.len by {
            if k < h.order.len() {
                assert(o[k] == h.order[k]);
            }
        }
    }
}

/// A visible column is the only visible one with its number of visible
/// columns before it; so `nth_gap(gap_index(x)) == x` for every visible `x`.
pub proof fn law_gap_index_is_injective(h: &HiddenColumns, x: nat, y: nat)
    requires
        h.wf(),
        h@.visible(x),
        h@.visible(y),
        h@.visible_below(x) == h@.visible_below(y),
    ensures
        x == y,
{
    if x != y {
        h.lemma_count_distinct(x, y);
    }
}

/// Growing never drops a hidden column, and resizing to `a` and then to a
/// size `b <= a` is the same as resizing to `b` at once: a hidden column in
/// range survives a grow-then-shrink round trip.
pub proof fn law_resize_composes(h: HiddenView, a: nat, b: nat)
    requires
        h.valid(),
        b <= a,
    ensures
        h.len <= a ==> h.resized(a).order == h.order,
        h.resized(a).resized(b) == h.resized(b),
{
    let la: nat = if a < 64 {
        a
    } else {
        64nat
    };
    let lb: nat = if b < 64 {
        b
    } else {
        64nat
    };
    let pa = |x: nat| x < la;
    let pb = |x: nat| x < lb;
    if h.len <= a {
        assert forall|k: int| 0 <= k < h.order.len() implies pa(#[trigger] h.order[k]) by {
            assert(h.order[k] < h.len);
        }
        lemma_filter_keeps_all(h.order, pa);
    }
    lemma_filter_twice(h.order, pa, pb);
    assert forall|x: nat| #[trigger] pa(x) && pb(x) <==> pb(x) by {}
    assert((|x: nat| pa(x) && pb(x)) =~= pb);
}

proof fn lemma_filter_twice(s: Seq<nat>, p: spec_fn(nat) -> bool, q: spec_fn(nat) -> bool)
    ensures
        s.filter(p).filter(q) == s.filter(|x: nat| p(x) && q(x)),
    decreases s.len(),
{
    reveal_with_fuel(Seq::<_>::filter, 1);
    if s.len() > 0 {
        lemma_filter_twice(s.drop_last(), p, q);
        let t = s.drop_last();
        assert(s.filter(p) == if p(s.last()) {
            t.filter(p).push(s.last())
        } else {
            t.filter(p)
        });
        if p(s.last()) {
            assert(t.filter(p).push(s.last()).drop_last() =~= t.filter(p));
        }
    }
}

/// Toggling a group of distinct indices twice, starting from a selection
/// that does not hold the whole group, leaves nothing selected.
pub proof fn law_cycle_twice_clears(s: Seq<u32>, xs: Seq<u32>)
    requires
        s.no_duplicates(),
        xs.no_duplicates(),
        !all_selected(s, xs),
    ensures
        cycled(cycled(s, xs), xs) == Seq::<u32>::empty(),
{
    let r = insert_all(s, xs);
    lemma_insert_all_props(s, xs);
    xs.unique_seq_to_set();
    r.unique_seq_to_set();
    assert(xs.to_set().subset_of(r.to_set())) by {
        assert forall|x: u32| xs.to_set().contains(x) implies r.to_set().contains(x) by {
            let k = choose|k: int| 0 <= k < xs.len() && xs[k] == x;
            assert(r.contains(xs[k]));
        }
    }
    vstd::set_lib::lemma_len_subset(xs.to_set(), r.to_set());
    assert(all_selected(r, xs));
}

/// Adding a group keeps the selection free of duplicates and selects every
/// index of the group.
pub proof fn lemma_insert_all_props(s: Seq<u32>, xs: Seq<u32>)
    requires
        s.no_duplicates(),
    ensures
        insert_all(s, xs).no_duplicates(),
        forall|k: int| 0 <= k < xs.len() ==> insert_all(s, xs).contains(#[trigger] xs[k]),
        forall|x: u32| s.contains(x) ==> #[trigger] insert_all(s, xs).contains(x),
    decreases xs.len(),
{
    if xs.len() > 0 {
        let t = xs.drop_last();
        lemma_insert_all_props(s, t);
        let before = insert_all(s, t);
        lemma_push_new_no_dup(before, xs.last());
        assert forall|k: int| 0 <= k < xs.len() implies insert_all(s, xs).contains(
            #[trigger] xs[k],
        ) by {
            if k < xs.len() - 1 {
                assert(before.contains(t[k]));
                if !before.contains(xs.last()) {
                    let j = choose|j: int| 0 <= j < before.len() && before[j] == t[k];
                    assert(before.push(xs.last())[j] == t[k]);
                }
            } else {
                if !before.contains(xs.last()) {
                    assert(before.push(xs.last())[before.len() as int] == xs.last());
                }
            }
        }
        assert forall|x: u32| s.contains(x) implies #[trigger] insert_all(s, xs).contains(x) by {
            assert(before.contains(x));
            if !before.contains(xs.last()) {
                let j = choose|j: int| 0 <= j < before.len() && before[j] == x;
                assert(before.push(xs.last())[j] == x);
            }
        }
    }
}

} // verus!

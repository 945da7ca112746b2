//! In-place lexicographic permutation stepping.

use vstd::prelude::*;

verus! {

use vstd::seq_lib::lemma_multiset_commutative;

/// Swapping two positions leaves the multiset of elements unchanged.
proof fn lemma_swap_multiset(s: Seq<i64>, a: int, b: int)
    requires
        0 <= a < s.len(),
        0 <= b < s.len(),
        a != b,
    ensures
        s.update(a, s[b]).update(b, s[a]).to_multiset() == s.to_multiset(),
{
    broadcast use vstd::seq_lib::to_multiset_update;
    broadcast use vstd::multiset::group_multiset_axioms;
    broadcast use vstd::multiset::group_multiset_properties;
    broadcast use vstd::seq_lib::to_multiset_contains;

    let s1 = s.update(a, s[b]);
    assert(s1[b] == s[b] && s1[a] == s[b]);
    assert(s.to_multiset().contains(s[a]) && s.to_multiset().contains(s[b]));
    assert(s1.update(b, s[a]).to_multiset() =~= s.to_multiset());
}

/// Steps a sequence to its next or previous permutation in lexicographic
/// order; returns `false` (leaving the sequence unchanged) when there is
/// none.  Either way the result is a rearrangement of the input.
pub trait LexicalPermutation {
    /// The stepped elements.
    spec fn perm_view(&self) -> Seq<i64>;

    fn next_permutation(&mut self) -> (changed: bool)
        ensures
            final(self).perm_view().len() == old(self).perm_view().len(),
            final(self).perm_view().to_multiset() == old(self).perm_view().to_multiset(),
            !changed ==> final(self).perm_view() == old(self).perm_view(),
    ;

    fn prev_permutation(&mut self) -> (changed: bool)
        ensures
            final(self).perm_view().len() == old(self).perm_view().len(),
            final(self).perm_view().to_multiset() == old(self).perm_view().to_multiset(),
            !changed ==> final(self).perm_view() == old(self).perm_view(),
    ;
}

/// Reverses `v[from..]` in place.
fn reverse_tail(v: &mut Vec<i64>, from: usize)
    requires
        from <= old(v)@.len(),
    ensures
        final(v)@.len() == old(v)@.len(),
        final(v)@.to_multiset() == old(v)@.to_multiset(),
{
    let mut a = from;
    let mut b = v.len();
    while b - a > 1
        invariant
            v@.len() == old(v)@.len(),
            a <= b,
            b <= v@.len(),
            v@.to_multiset() == old(v)@.to_multiset(),
        decreases b - a,
    {
        b = b - 1;
        let x = v[a];
        let y = v[b];
        proof {
            lemma_swap_multiset(v@, a as int, b as int);
        }
        v.set(a, y);
        v.set(b, x);
        a = a + 1;
    }
}

impl LexicalPermutation for Vec<i64> {
    open spec fn perm_view(&self) -> Seq<i64> {
        self@
    }

    /// The classic descent-point algorithm: find the last ascent, swap in
    /// the next larger tail element, sort the tail ascending by reversal.
    fn next_permutation(&mut self) -> (changed: bool) {
        let n = self.len();
        if n <= 1 {
            return false;
        }
        let mut i = n - 1;
        while i > 0 && self[i - 1] >= self[i]
            invariant
                i < n,
                n == self@.len(),
                n >= 2,
            decreases i,
        {
            i = i - 1;
        }
        if i == 0 {
            return false;
        }
        let mut j = n - 1;
        while j > i && self[j] <= self[i - 1]
            invariant
                1 <= i <= j < n,
                n == self@.len(),
            decreases j,
        {
            j = j - 1;
        }
        let x = self[i - 1];
        let y = self[j];
        proof {
            lemma_swap_multiset(self@, i - 1, j as int);
        }
        self.set(i - 1, y);
        self.set(j, x);
        reverse_tail(self, i);
        true
    }

    /// Mirror image of `next_permutation`.
    fn prev_permutation(&mut self) -> (changed: bool) {
        let n = self.len();
        if n <= 1 {
            return false;
        }
        let mut i = n - 1;
        while i > 0 && self[i - 1] <= self[i]
            invariant
                i < n,
                n == self@.len(),
                n >= 2,
            decreases i,
        {
            i = i - 1;
        }
        if i == 0 {
            return false;
        }
        reverse_tail(self, i);
        let mut j = n - 1;
        while j > i && self[j - 1] < self[i - 1]
            invariant
                1 <= i <= j < n,
                n == self@.len(),
            decreases j,
        {
            j = j - 1;
        }
        let x = self[i - 1];
        let y = self[j];
        proof {
            lemma_swap_multiset(self@, i - 1, j as int);
        }
        self.set(i - 1, y);
        self.set(j, x);
        true
    }
}

} // verus!

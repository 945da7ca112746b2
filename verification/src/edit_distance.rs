//! Levenshtein distance between two sequences.

use vstd::prelude::*;

verus! {

/// Minimum of three counts.
pub open spec fn min3(a: nat, b: nat, c: nat) -> nat {
    if a <= b && a <= c {
        a
    } else if b <= c {
        b
    } else {
        c
    }
}

/// The edit distance: fewest single-element insertions, deletions and
/// substitutions turning `s` into `t`.
pub open spec fn edit_spec<T>(s: Seq<T>, t: Seq<T>) -> nat
    decreases s.len() + t.len(),
{
    if s.len() == 0 {
        t.len()
    } else if t.len() == 0 {
        s.len()
    } else {
        let c: nat = if s.last() == t.last() {
            0
        } else {
            1
        };
        min3(
            edit_spec(s.drop_last(), t) + 1,
            edit_spec(s, t.drop_last()) + 1,
            edit_spec(s.drop_last(), t.drop_last()) + c,
        )
    }
}

/// The distance never exceeds the total length.
pub proof fn lemma_edit_bound<T>(s: Seq<T>, t: Seq<T>)
    ensures
        edit_spec(s, t) <= s.len() + t.len(),
    decreases s.len() + t.len(),
{
    if s.len() != 0 && t.len() != 0 {
        lemma_edit_bound(s.drop_last(), t);
        lemma_edit_bound(s, t.drop_last());
        lemma_edit_bound(s.drop_last(), t.drop_last());
    }
}

/// Computes the edit distance by the usual two-row dynamic program.
pub fn edit_distance<T: Copy + PartialEq>(s: &Vec<T>, t: &Vec<T>) -> (r: usize)
    requires
        vstd::laws_eq::obeys_concrete_eq::<T>(),
        s@.len() + t@.len() < usize::MAX,
    ensures
        r == edit_spec(s@, t@),
{
    proof {
        reveal(vstd::laws_eq::obeys_concrete_eq);
    }
    let n = s.len();
    let m = t.len();
    let mut prev: Vec<usize> = Vec::new();
    let mut j: usize = 0;
    while j <= m
        invariant
            prev@.len() == j,
            j <= m + 1,
            m == t@.len(),
            m < usize::MAX,
            forall|q: int|
                0 <= q < j ==> #[trigger] prev@[q] == edit_spec(
                    s@.subrange(0, 0),
                    t@.subrange(0, q),
                ),
        decreases m + 1 - j,
    {
        proof {
            assert(t@.subrange(0, j as int).len() == j as nat);
        }
        prev.push(j);
        j = j + 1;
    }
    let mut i: usize = 1;
    while i <= n
        invariant
            1 <= i <= n + 1,
            n == s@.len(),
            m == t@.len(),
            n + m < usize::MAX,
            prev@.len() == m + 1,
            vstd::laws_eq::obeys_concrete_eq::<T>(),
            forall|q: int|
                0 <= q <= m ==> #[trigger] prev@[q] == edit_spec(
                    s@.subrange(0, i - 1),
                    t@.subrange(0, q),
                ),
        decreases n + 1 - i,
    {
        let mut cur: Vec<usize> = Vec::new();
        proof {
            assert(s@.subrange(0, i as int).len() == i as nat);
            assert(t@.subrange(0, 0).len() == 0);
        }
        cur.push(i);
        let mut j: usize = 1;
        while j <= m
            invariant
                1 <= i <= n,
                1 <= j <= m + 1,
                n == s@.len(),
                m == t@.len(),
                n + m < usize::MAX,
                prev@.len() == m + 1,
                cur@.len() == j,
                vstd::laws_eq::obeys_concrete_eq::<T>(),
                forall|q: int|
                    0 <= q <= m ==> #[trigger] prev@[q] == edit_spec(
                        s@.subrange(0, i - 1),
                        t@.subrange(0, q),
                    ),
                forall|q: int|
                    0 <= q < j ==> #[trigger] cur@[q] == edit_spec(
                        s@.subrange(0, i as int),
                        t@.subrange(0, q),
                    ),
            decreases m + 1 - j,
        {
            proof {
                reveal(vstd::laws_eq::obeys_concrete_eq);
                lemma_edit_bound(s@.subrange(0, i - 1), t@.subrange(0, j as int));
                lemma_edit_bound(s@.subrange(0, i as int), t@.subrange(0, j - 1));
                lemma_edit_bound(s@.subrange(0, i - 1), t@.subrange(0, j - 1));
                assert(s@.subrange(0, i - 1).len() <= n && t@.subrange(0, j as int).len() <= m);
                assert(s@.subrange(0, i as int).drop_last() =~= s@.subrange(0, i - 1));
                assert(t@.subrange(0, j as int).drop_last() =~= t@.subrange(0, j - 1));
                assert(s@.subrange(0, i as int).last() == s@[i - 1]);
                assert(t@.subrange(0, j as int).last() == t@[j - 1]);
            }
            let c: usize = if s[i - 1] == t[j - 1] {
                0
            } else {
                1
            };
            let del = prev[j] + 1;
            let ins = cur[j - 1] + 1;
            let sub = prev[j - 1] + c;
            let best = if del <= ins && del <= sub {
                del
            } else if ins <= sub {
                ins
            } else {
                sub
            };
            cur.push(best);
            j = j + 1;
        }
        prev = cur;
        i = i + 1;
    }
    proof {
        assert(s@.subrange(0, n as int) =~= s@);
        assert(t@.subrange(0, m as int) =~= t@);
    }
    prev[m]
}

} // verus!

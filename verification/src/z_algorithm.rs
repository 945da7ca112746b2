//! Z-array: longest common prefix of a string and each of its suffixes.

use vstd::prelude::*;

verus! {

/// The first `k` characters of the suffix at `i` match the prefix of `s`.
pub open spec fn match_len(s: Seq<char>, i: int, k: int) -> bool {
    forall|j: int| 0 <= j < k ==> s[j] == #[trigger] s[i + j]
}

/// `z[i]` is the length of the longest common prefix of `s` and `s[i..]`,
/// except that `z[0]` is defined as the length of `s`.
pub fn z_algorithm(s: &Vec<char>) -> (z: Vec<usize>)
    ensures
        z@.len() == s@.len(),
        s@.len() > 0 ==> z@[0] == s@.len(),
        forall|i: int|
            1 <= i < s@.len() ==> 0 <= #[trigger] z@[i] && i + z@[i] <= s@.len() && match_len(
                s@,
                i,
                z@[i] as int,
            ) && (i + z@[i] == s@.len() || s@[z@[i] as int] != s@[i + z@[i]]),
{
    let n = s.len();
    let mut z: Vec<usize> = Vec::new();
    if n == 0 {
        return z;
    }
    z.push(n);
    let mut i: usize = 1;
    while i < n
        invariant
            1 <= i <= n,
            n == s@.len(),
            z@.len() == i,
            z@[0] == n,
            forall|t: int|
                1 <= t < i ==> 0 <= #[trigger] z@[t] && t + z@[t] <= n && match_len(
                    s@,
                    t,
                    z@[t] as int,
                ) && (t + z@[t] == n || s@[z@[t] as int] != s@[t + z@[t]]),
        decreases n - i,
    {
        let mut k: usize = 0;
        while i + k < n && s[k] == s[i + k]
            invariant
                1 <= i < n,
                0 <= k,
                i + k <= n,
                n == s@.len(),
                match_len(s@, i as int, k as int),
            decreases n - i - k,
        {
            k = k + 1;
        }
        z.push(k);
        i = i + 1;
    }
    z
}

} // verus!

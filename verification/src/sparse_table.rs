//! Idempotent range queries over a static array by doubling blocks.

use vstd::prelude::*;

verus! {

use vstd::arithmetic::power2::pow2;

/// Which extremum a table reports.
#[derive(Clone, Copy, PartialEq, Eq, Structural, Debug)]
pub enum OperationType {
    Min,
    Max,
}

/// Precomputed block extrema: `table[i][k]` holds the index of the extremum
/// of `data[i .. i + 2^k]`.
pub struct SparseTable {
    data: Vec<i64>,
    table: Vec<Vec<usize>>,
    logs: Vec<usize>,
    pows: Vec<usize>,
    op: OperationType,
}

impl SparseTable {
    /// `r` indexes an extremum (per the configured comparison) of
    /// `data[lo .. hi]`.
    pub closed spec fn is_extremal(self, r: int, lo: int, hi: int) -> bool {
        forall|x: int|
            lo <= x < hi ==> (match self.op {
                OperationType::Min => self.data@[r] <= #[trigger] self.data@[x],
                OperationType::Max => self.data@[r] >= #[trigger] self.data@[x],
            })
    }

    /// Table shape: `logs` are monotone floor logarithms tight to within a
    /// factor of two, `pows` the powers of two, every stored index stays
    /// inside its block and the array, and every full block's entry indexes
    /// an extremum of that block.
    pub closed spec fn wf(self) -> bool {
        &&& 1 <= self.data@.len() <= 0x4000_0000
        &&& self.logs@.len() == self.data@.len() + 1
        &&& self.pows@.len() == 32
        &&& forall|j: int| 0 <= j < 32 ==> #[trigger] self.pows@[j] == pow2(j as nat)
        &&& forall|i: int| 0 <= i <= self.data@.len() ==> #[trigger] self.logs@[i] <= 30
        &&& forall|i: int|
            1 <= i <= self.data@.len() ==> pow2(#[trigger] self.logs@[i] as nat) <= i
        &&& forall|a: int, b: int|
            1 <= a <= b <= self.data@.len() ==> #[trigger] self.logs@[a] <= #[trigger] self.logs@[b]
        &&& self.table@.len() == self.data@.len()
        &&& forall|i: int|
            0 <= i < self.table@.len() ==> (#[trigger] self.table@[i])@.len() == self.logs@[
            self.data@.len() as int] + 1
        &&& forall|i: int|
            1 <= i <= self.data@.len() ==> i < pow2((#[trigger] self.logs@[i] + 1) as nat)
        &&& forall|i: int, k: int|
            0 <= i < self.table@.len() && 0 <= k < self.table@[i]@.len() ==> i <= (
            #[trigger] self.table@[i]@[k]) && self.table@[i]@[k] < self.data@.len()
                && self.table@[i]@[k] < i + pow2(k as nat)
        &&& forall|i: int, k: int|
            0 <= i < self.table@.len() && 0 <= k < self.table@[i]@.len() && i + pow2(k as nat)
                <= self.data@.len() ==> self.is_extremal(
                (#[trigger] self.table@[i]@[k]) as int,
                i,
                i + pow2(k as nat),
            )
    }

    /// The configured comparison.
    pub closed spec fn operation(self) -> OperationType {
        self.op
    }

    /// Number of elements.
    pub closed spec fn len(self) -> int {
        self.data@.len() as int
    }

    /// The underlying array.
    pub closed spec fn contents(self) -> Seq<i64> {
        self.data@
    }

    /// Builds the doubling table for `v` under the chosen comparison.
    pub fn new(v: &Vec<i64>, op: OperationType) -> (r: SparseTable)
        requires
            1 <= v@.len() <= 0x4000_0000,
        ensures
            r.wf(),
            r.len() == v@.len(),
            r.contents() == v@,
            r.operation() == op,
    {
        let n = v.len();
        let mut data: Vec<i64> = Vec::new();
        let mut i: usize = 0;
        while i < n
            invariant
                data@.len() == i,
                i <= n,
                n == v@.len(),
                forall|j: int| 0 <= j < i ==> #[trigger] data@[j] == v@[j],
            decreases n - i,
        {
            data.push(v[i]);
            i = i + 1;
        }
        proof {
            assert(data@ =~= v@);
        }
        let mut pows: Vec<usize> = Vec::new();
        pows.push(1);
        proof {
            vstd::arithmetic::power2::lemma2_to64();
        }
        let mut j: usize = 1;
        while j < 32
            invariant
                pows@.len() == j,
                1 <= j <= 32,
                forall|t: int| 0 <= t < j ==> #[trigger] pows@[t] == pow2(t as nat),
            decreases 32 - j,
        {
            proof {
                vstd::arithmetic::power2::lemma_pow2_unfold(j as nat);
                vstd::arithmetic::power2::lemma2_to64();
                vstd::arithmetic::power2::lemma2_to64_rest();
                if j < 31 {
                    vstd::arithmetic::power2::lemma_pow2_strictly_increases(j as nat, 31);
                }
            }
            let prev = pows[j - 1];
            pows.push(prev * 2);
            j = j + 1;
        }
        let mut logs: Vec<usize> = Vec::new();
        logs.push(0);
        if n >= 1 {
            logs.push(0);
        }
        proof {
            vstd::arithmetic::power2::lemma2_to64();
        }
        let mut i: usize = 2;
        while i <= n
            invariant
                logs@.len() == i,
                2 <= i <= n + 1,
                n <= 0x4000_0000,
                forall|t: int| 0 <= t < i ==> #[trigger] logs@[t] <= 30,
                forall|t: int| 1 <= t < i ==> pow2(#[trigger] logs@[t] as nat) <= t,
                forall|t: int| 1 <= t < i ==> t < pow2((#[trigger] logs@[t] + 1) as nat),
                forall|a: int, b: int| 1 <= a <= b < i ==> logs@[a] <= logs@[b],
                forall|t: int| 2 <= t < i ==> #[trigger] logs@[t] == logs@[t / 2] + 1,
            decreases n + 1 - i,
        {
            let half = logs[i / 2];
            proof {
                vstd::arithmetic::power2::lemma_pow2_unfold(half as nat + 1);
                vstd::arithmetic::power2::lemma_pow2_unfold(half as nat + 2);
                if half + 1 > 30 {
                    vstd::arithmetic::power2::lemma2_to64();
                    vstd::arithmetic::power2::lemma2_to64_rest();
                    if half as nat + 1 > 31 {
                        vstd::arithmetic::power2::lemma_pow2_strictly_increases(
                            31,
                            half as nat + 1,
                        );
                    }
                    assert(pow2(half as nat + 1) >= 0x8000_0000);
                    assert(false);
                }
            }
            logs.push(half + 1);
            proof {
                assert forall|a: int, b: int| 1 <= a <= b < i + 1 implies logs@[a] <= logs@[
                b] by {
                    if b == i && a < i {
                        assert(logs@[a] <= logs@[i - 1]);
                        if i >= 3 {
                            assert(logs@[i - 1] == logs@[(i - 1) / 2] + 1);
                            assert(logs@[(i - 1) / 2] <= logs@[i as int / 2]);
                        }
                    }
                }
            }
            i = i + 1;
        }
        let width = logs[n] + 1;
        let mut table: Vec<Vec<usize>> = Vec::new();
        let mut i: usize = 0;
        while i < n
            invariant
                table@.len() == i,
                i <= n,
                1 <= n <= 0x4000_0000,
                n == v@.len(),
                data@ == v@,
                logs@.len() == n + 1,
                pows@.len() == 32,
                forall|j2: int| 0 <= j2 < 32 ==> #[trigger] pows@[j2] == pow2(j2 as nat),
                forall|t: int| 0 <= t <= n ==> #[trigger] logs@[t] <= 30,
                forall|t: int| 1 <= t <= n ==> pow2(#[trigger] logs@[t] as nat) <= t,
                forall|t: int| 1 <= t <= n ==> t < pow2((#[trigger] logs@[t] + 1) as nat),
                forall|a: int, b: int| 1 <= a <= b <= n ==> logs@[a] <= logs@[b],
                width == logs@[n as int] + 1,
                width <= 31,
                forall|r: int| 0 <= r < i ==> (#[trigger] table@[r])@.len() == width,
                forall|r: int, k: int|
                    0 <= r < i && 0 <= k < width ==> (#[trigger] table@[r]@[k]) == r,
            decreases n - i,
        {
            let mut row: Vec<usize> = Vec::new();
            let mut k: usize = 0;
            while k < width
                invariant
                    row@.len() == k,
                    k <= width,
                    i < n,
                    forall|t: int| 0 <= t < k ==> #[trigger] row@[t] == i,
                decreases width - k,
            {
                row.push(i);
                k = k + 1;
            }
            table.push(row);
            i = i + 1;
        }
        let mut st = SparseTable { data, table, logs, pows, op };
        proof {
            assert forall|r: int, t: int|
                0 <= r < n && 0 <= t < width implies r <= (#[trigger] st.table@[r]@[t])
                && st.table@[r]@[t] < n && st.table@[r]@[t] < r + pow2(t as nat) by {
                vstd::arithmetic::power2::lemma_pow2_pos(t as nat);
            }
        }
        // fill level k from the two overlapping level k-1 blocks
        let mut k: usize = 1;
        while k < width
            invariant
                st.data@.len() == n,
                st.logs@.len() == n + 1,
                st.pows@.len() == 32,
                forall|j2: int| 0 <= j2 < 32 ==> #[trigger] st.pows@[j2] == pow2(j2 as nat),
                forall|t: int| 0 <= t <= n ==> #[trigger] st.logs@[t] <= 30,
                forall|t: int| 1 <= t <= n ==> pow2(#[trigger] st.logs@[t] as nat) <= t,
                forall|t: int| 1 <= t <= n ==> t < pow2((#[trigger] st.logs@[t] + 1) as nat),
                forall|a: int, b: int| 1 <= a <= b <= n ==> st.logs@[a] <= st.logs@[b],
                st.table@.len() == n,
                1 <= n <= 0x4000_0000,
                width == st.logs@[n as int] + 1,
                1 <= k <= width,
                width <= 31,
                st.data@ == v@,
                st.op == op,
                forall|r: int| 0 <= r < n ==> (#[trigger] st.table@[r])@.len() == width,
                forall|r: int, t: int|
                    0 <= r < n && 0 <= t < width ==> r <= (#[trigger] st.table@[r]@[t])
                        && st.table@[r]@[t] < n && st.table@[r]@[t] < r + pow2(t as nat),
                forall|r: int, t: int|
                    0 <= r < n && 0 <= t < k && r + pow2(t as nat) <= n ==> st.is_extremal(
                        (#[trigger] st.table@[r]@[t]) as int,
                        r,
                        r + pow2(t as nat),
                    ),
            decreases width - k,
        {
            let p = self_pow(&st.pows, k - 1);
            proof {
                vstd::arithmetic::power2::lemma_pow2_pos((k - 1) as nat);
                vstd::arithmetic::power2::lemma2_to64();
                vstd::arithmetic::power2::lemma2_to64_rest();
                if k < 31 {
                    vstd::arithmetic::power2::lemma_pow2_strictly_increases(
                        (k - 1) as nat,
                        30,
                    );
                }
                assert(p <= 0x4000_0000);
            }
            let mut i: usize = 0;
            while i < n
                invariant
                    st.data@.len() == n,
                    st.logs@.len() == n + 1,
                    st.pows@.len() == 32,
                    forall|j2: int| 0 <= j2 < 32 ==> #[trigger] st.pows@[j2] == pow2(j2 as nat),
                    forall|t: int| 0 <= t <= n ==> #[trigger] st.logs@[t] <= 30,
                    forall|t: int| 1 <= t <= n ==> pow2(#[trigger] st.logs@[t] as nat) <= t,
                    forall|t: int| 1 <= t <= n ==> t < pow2((#[trigger] st.logs@[t] + 1) as nat),
                    forall|a: int, b: int| 1 <= a <= b <= n ==> st.logs@[a] <= st.logs@[b],
                    st.table@.len() == n,
                    1 <= n <= 0x4000_0000,
                    width == st.logs@[n as int] + 1,
                    1 <= k < width,
                    width <= 31,
                    i <= n,
                    st.data@ == v@,
                    st.op == op,
                    p == pow2((k - 1) as nat),
                    1 <= p <= 0x4000_0000,
                    forall|r: int| 0 <= r < n ==> (#[trigger] st.table@[r])@.len() == width,
                    forall|r: int, t: int|
                        0 <= r < n && 0 <= t < width ==> r <= (#[trigger] st.table@[r]@[t])
                            && st.table@[r]@[t] < n && st.table@[r]@[t] < r + pow2(t as nat),
                    forall|r: int, t: int|
                        0 <= r < n && 0 <= t < width && r + pow2(t as nat) <= n && (t < k || (t
                            == k && r < i)) ==> st.is_extremal(
                            (#[trigger] st.table@[r]@[t]) as int,
                            r,
                            r + pow2(t as nat),
                        ),
                decreases n - i,
            {
                proof {
                    vstd::arithmetic::power2::lemma_pow2_unfold(k as nat);
                }
                if i + p < n {
                    let v1 = st.table[i][k - 1];
                    let v2 = st.table[i + p][k - 1];
                    let better = if matches!(st.op, OperationType::Min) {
                        if st.data[v1] < st.data[v2] {
                            v1
                        } else {
                            v2
                        }
                    } else {
                        if st.data[v1] > st.data[v2] {
                            v1
                        } else {
                            v2
                        }
                    };
                    proof {
                        if i + pow2(k as nat) <= n {
                            // both halves are full blocks, so the chosen
                            // index beats every element of the union
                            assert(st.is_extremal(v1 as int, i as int, i + p));
                            assert(st.is_extremal(v2 as int, i + p, i + 2 * p));
                            assert forall|x: int| i <= x < i + pow2(k as nat) implies (match op {
                                OperationType::Min => st.data@[better as int]
                                    <= #[trigger] st.data@[x],
                                OperationType::Max => st.data@[better as int]
                                    >= st.data@[x],
                            }) by {
                                assert(st.data@[x] == st.data@[x]);
                            }
                        }
                    }
                    let ghost pre = st.table@;
                    let mut row: Vec<usize> = Vec::new();
                    core::mem::swap(&mut row, &mut st.table[i]);
                    row.set(k, better);
                    core::mem::swap(&mut row, &mut st.table[i]);
                    proof {
                        assert forall|r: int, t: int|
                            0 <= r < n && 0 <= t < width && r + pow2(t as nat) <= n && (t < k
                                || (t == k && r < i + 1)) implies st.is_extremal(
                                (#[trigger] st.table@[r]@[t]) as int,
                                r,
                                r + pow2(t as nat),
                            ) by {
                            if r == i as int && t == k {
                            } else {
                                assert(st.table@[r]@[t] == pre[r]@[t]);
                            }
                        }
                    }
                }
                i = i + 1;
            }
            k = k + 1;
        }
        st
    }

    /// Index of the extremum of the closed range `data[s ..= t]`: the
    /// returned position lies inside the range, and its value is minimal
    /// (resp. maximal) among the range's values per the configured
    /// comparison.
    pub fn query(&self, s: usize, t: usize) -> (r: usize)
        requires
            self.wf(),
            s <= t < self.len(),
        ensures
            s <= r <= t,
            self.operation() == OperationType::Min ==> forall|x: int|
                s <= x <= t ==> self.contents()[r as int] <= #[trigger] self.contents()[x],
            self.operation() == OperationType::Max ==> forall|x: int|
                s <= x <= t ==> self.contents()[r as int] >= #[trigger] self.contents()[x],
    {
        let d = t - s + 1;
        let k = self.logs[d];
        let p = self_pow(&self.pows, k);
        proof {
            assert(pow2(self.logs@[d as int] as nat) <= d);
            assert(d < pow2((self.logs@[d as int] + 1) as nat));
            vstd::arithmetic::power2::lemma_pow2_unfold((k + 1) as nat);
            // the two full blocks overlap and cover the whole closed range
            assert(s + p <= t + 1 && t + 1 - p >= s && s + p >= t + 1 - p);
            assert(self.is_extremal(
                self.table@[s as int]@[k as int] as int,
                s as int,
                s + pow2(k as nat),
            ));
            assert(self.is_extremal(
                self.table@[t + 1 - p]@[k as int] as int,
                t + 1 - p,
                t + 1 - p + pow2(k as nat),
            ));
        }
        let v1 = self.table[s][k];
        let v2 = self.table[t + 1 - p][k];
        if matches!(self.op, OperationType::Min) {
            if self.data[v1] < self.data[v2] {
                v1
            } else {
                v2
            }
        } else {
            if self.data[v1] > self.data[v2] {
                v1
            } else {
                v2
            }
        }
    }
}

/// Reads a precomputed power of two.
fn self_pow(pows: &Vec<usize>, k: usize) -> (p: usize)
    requires
        pows@.len() == 32,
        k < 32,
        forall|j: int| 0 <= j < 32 ==> #[trigger] pows@[j] == pow2(j as nat),
    ensures
        p == pow2(k as nat),
{
    pows[k]
}

} // verus!

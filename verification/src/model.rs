//! The adaptive order-0 frequency model: one occurrence count per byte value,
//! all starting at 1 (Laplace smoothing), with a derived cumulative table.
//! Encoder and decoder each own a copy and must apply identical updates in
//! identical order to stay synchronized. The cumulative table is a pure
//! function of the occurrence table, recomputed after every update rather
//! than stored alongside it.

use vstd::prelude::*;
use vstd::pervasive::VecAdditionalExecFns;

verus! {

/// Sum of the first `n` occurrence counts; `sum_prefix(occ, s)` and
/// `sum_prefix(occ, s + 1)` delimit symbol `s`'s cumulative range.
pub open spec fn sum_prefix(occ: Seq<u64>, n: int) -> int
    decreases n,
{
    if n <= 0 {
        0
    } else {
        sum_prefix(occ, n - 1) + occ[n - 1]
    }
}

pub proof fn lemma_sum_prefix_le(occ: Seq<u64>, m: int, n: int)
    requires
        0 <= m <= n,
    ensures
        sum_prefix(occ, m) <= sum_prefix(occ, n),
    decreases n,
{
    if n > m {
        lemma_sum_prefix_le(occ, m, n - 1);
    }
}

pub proof fn lemma_sum_prefix_update(occ: Seq<u64>, s: int, v: u64, n: int)
    requires
        0 <= s < occ.len(),
        n <= occ.len(),
    ensures
        sum_prefix(occ.update(s, v), n) == sum_prefix(occ, n) + if s < n {
            v - occ[s]
        } else {
            0
        },
    decreases n,
{
    if n > 0 {
        lemma_sum_prefix_update(occ, s, v, n - 1);
    }
}

/// The adaptive frequency model over the 256-byte alphabet.
pub struct FrequencyModel {
    occurrences: Vec<u64>,
    total: u64,
}

impl FrequencyModel {
    /// The occurrence table, one count per byte value.
    pub closed spec fn counts(&self) -> Seq<u64> {
        self.occurrences@
    }

    /// The sum of all occurrence counts.
    pub closed spec fn total_count(&self) -> int {
        self.total as int
    }

    /// Well-formed: 256 strictly positive counts whose sum is `total`.
    pub open spec fn wf(&self) -> bool {
        &&& self.counts().len() == 256
        &&& forall|i: int| 0 <= i < 256 ==> #[trigger] self.counts()[i] >= 1
        &&& self.total_count() == sum_prefix(self.counts(), 256)
    }

    /// A fresh model: every count 1, total 256, so that every byte value has a
    /// strictly positive probability from the start.
    pub fn init() -> (m: Self)
        ensures
            m.wf(),
            m.counts() == Seq::new(256, |i: int| 1u64),
            m.total_count() == 256,
    {
        let occurrences: Vec<u64> = vec![1u64; 256];
        proof {
            assert(occurrences@ =~= Seq::new(256, |i: int| 1u64));
            lemma_sum_prefix_all_ones(occurrences@, 256);
        }
        FrequencyModel { occurrences, total: 256 }
    }

    /// Record one more occurrence of `symbol`: its count and the total each
    /// grow by 1.
    pub fn update(&mut self, symbol: u8)
        requires
            old(self).wf(),
            old(self).total_count() < 0x4000_0000_0000_0000,
        ensures
            final(self).wf(),
            final(self).counts() == old(self).counts().update(
                symbol as int,
                (old(self).counts()[symbol as int] + 1) as u64,
            ),
            final(self).total_count() == old(self).total_count() + 1,
    {
        proof {
            lemma_sum_prefix_le(self.counts(), symbol as int + 1, 256);
            lemma_sum_prefix_le(self.counts(), symbol as int, symbol as int + 1);
            lemma_sum_prefix_nonneg(self.counts(), symbol as int);
        }
        let c: u64 = self.occurrences[symbol as usize];
        self.occurrences.set(symbol as usize, c + 1);
        proof {
            lemma_sum_prefix_update(old(self).counts(), symbol as int, (c + 1) as u64, 256);
        }
        self.total = self.total + 1;
    }

    /// The sum of all occurrence counts, as a machine integer.
    pub fn total(&self) -> (t: u64)
        ensures
            t == self.total_count(),
    {
        self.total
    }

    /// The symbol's half-open cumulative range `[low, high)` within
    /// `[0, total)`.
    pub fn lookup(&self, symbol: u8) -> (r: (u64, u64))
        requires
            self.wf(),
        ensures
            r.0 == sum_prefix(self.counts(), symbol as int),
            r.1 == sum_prefix(self.counts(), symbol as int + 1),
            r.0 < r.1 <= self.total_count(),
    {
        let mut acc: u64 = 0;
        let mut i: usize = 0;
        while i < symbol as usize
            invariant
                self.wf(),
                i <= symbol as usize <= 255,
                acc == sum_prefix(self.counts(), i as int),
            decreases symbol as usize - i,
        {
            proof {
                lemma_sum_prefix_nonneg(self.counts(), i as int);
                lemma_sum_prefix_le(self.counts(), i as int + 1, 256);
            }
            acc = acc + self.occurrences[i];
            i = i + 1;
        }
        proof {
            lemma_sum_prefix_nonneg(self.counts(), symbol as int);
            lemma_sum_prefix_le(self.counts(), symbol as int + 1, 256);
        }
        let high: u64 = acc + self.occurrences[symbol as usize];
        (acc, high)
    }

    /// The full cumulative table: 257 prefix sums, so that symbol `s` owns
    /// `[c[s], c[s + 1])`.
    pub fn cumulative(&self) -> (c: Vec<u64>)
        requires
            self.wf(),
        ensures
            c@.len() == 257,
            forall|i: int| 0 <= i < 257 ==> #[trigger] c@[i] == sum_prefix(self.counts(), i),
    {
        let mut c: Vec<u64> = Vec::new();
        let mut acc: u64 = 0;
        c.push(0);
        let mut i: usize = 0;
        while i < 256
            invariant
                self.wf(),
                i <= 256,
                acc == sum_prefix(self.counts(), i as int),
                c@.len() == i + 1,
                forall|k: int| 0 <= k < c@.len() ==> #[trigger] c@[k] == sum_prefix(self.counts(), k),
            decreases 256 - i,
        {
            proof {
                lemma_sum_prefix_nonneg(self.counts(), i as int);
                lemma_sum_prefix_le(self.counts(), i as int + 1, 256);
            }
            acc = acc + self.occurrences[i];
            c.push(acc);
            i = i + 1;
        }
        c
    }
}

pub proof fn lemma_sum_prefix_nonneg(occ: Seq<u64>, n: int)
    ensures
        sum_prefix(occ, n) >= 0,
    decreases n,
{
    if n > 0 {
        lemma_sum_prefix_nonneg(occ, n - 1);
    }
}

pub proof fn lemma_sum_prefix_all_ones(occ: Seq<u64>, n: int)
    requires
        0 <= n <= occ.len(),
        forall|i: int| 0 <= i < occ.len() ==> #[trigger] occ[i] == 1,
    ensures
        sum_prefix(occ, n) == n,
    decreases n,
{
    if n > 0 {
        lemma_sum_prefix_all_ones(occ, n - 1);
    }
}

/// With every count at least 1, the prefix sum is at least its length.
pub proof fn lemma_sum_prefix_pos(occ: Seq<u64>, n: int)
    requires
        0 <= n <= occ.len(),
        forall|i: int| 0 <= i < occ.len() ==> #[trigger] occ[i] >= 1,
    ensures
        sum_prefix(occ, n) >= n,
    decreases n,
{
    if n > 0 {
        lemma_sum_prefix_pos(occ, n - 1);
    }
}

} // verus!

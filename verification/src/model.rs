//! The adaptive cumulative-frequency model.
//!
//! A [`Model`] keeps one occurrence count per alphabet symbol (every count
//! starts at 1, so no symbol ever has zero probability mass) and the running
//! total of all counts.  The probability interval of a symbol `s` is the pair
//! of cumulative counts `(cum(s), cum(s + 1))`, as a fraction of `total`.

use vstd::prelude::*;

verus! {

/// Where the end-of-stream sentinel symbol sits in the alphabet.
pub enum EOF {
    /// Use the given index as the EOF symbol.
    Specify(u32),
    /// Use index 0.
    Start,
    /// Use the last index of the alphabet.
    End,
    /// Append one extra symbol to the alphabet and use it as EOF.
    EndAddOne,
}

/// The sum of the first `n` entries of `s`.
pub open spec fn cum(s: Seq<u64>, n: int) -> int
    decreases n,
{
    if n <= 0 {
        0
    } else {
        cum(s, n - 1) + s[n - 1]
    }
}

/// Adaptive frequency model: per-symbol counts, their running total, and the
/// index of the EOF sentinel.
pub struct Model {
    pub count: Vec<u64>,
    pub total: u64,
    pub eof: u32,
}

impl Model {
    /// The per-symbol counts.
    pub open spec fn counts(&self) -> Seq<u64> {
        self.count@
    }

    /// The number of symbols in the alphabet, EOF included.
    pub open spec fn num_symbols(&self) -> int {
        self.count@.len() as int
    }

    /// The sum of all counts.
    pub open spec fn total_val(&self) -> u64 {
        self.total
    }

    /// The index of the EOF sentinel.
    pub open spec fn eof_val(&self) -> u32 {
        self.eof
    }

    /// Every count is at least 1, the total is the sum of the counts, and the
    /// EOF index is in bounds.
    pub open spec fn wf(&self) -> bool {
        &&& 1 <= self.count@.len() <= u32::MAX as int
        &&& (self.eof as int) < self.count@.len()
        &&& self.total as int == cum(self.count@, self.count@.len() as int)
        &&& forall|i: int| 0 <= i < self.count@.len() ==> 1 <= #[trigger] self.count@[i]
    }

    /// Builds a model with `num_symbols` counts of 1 each; `EndAddOne`
    /// appends one more slot for EOF.  The EOF index is fixed by the policy.
    pub fn new(num_symbols: u32, eof: EOF) -> (r: Model)
        requires
            1 <= num_symbols,
            (eof matches EOF::Specify(index) ==> index < num_symbols),
            (eof is EndAddOne ==> num_symbols < u32::MAX),
        ensures
            r.wf(),
            r.num_symbols() == if eof is EndAddOne {
                num_symbols + 1
            } else {
                num_symbols as int
            },
            forall|i: int| 0 <= i < r.num_symbols() ==> #[trigger] r.counts()[i] == 1,
            r.total_val() as int == r.num_symbols(),
            r.eof_val() == (match eof {
                EOF::Specify(index) => index,
                EOF::Start => 0,
                EOF::End => (num_symbols - 1) as u32,
                EOF::EndAddOne => num_symbols,
            }),
    {
        let mut count: Vec<u64> = Vec::new();
        let mut i: u32 = 0;
        while i < num_symbols
            invariant
                i <= num_symbols,
                count@.len() == i as int,
                forall|j: int| 0 <= j < i as int ==> #[trigger] count@[j] == 1,
            decreases num_symbols - i,
        {
            count.push(1u64);
            i = i + 1;
        }
        let eof: u32 = match eof {
            EOF::Specify(index) => index,
            EOF::Start => 0,
            EOF::End => num_symbols - 1,
            EOF::EndAddOne => {
                count.push(1u64);
                num_symbols
            },
        };
        let total: u64 = count.len() as u64;
        proof {
            lemma_cum_all_ones(count@, count@.len() as int);
        }
        Model { count, total, eof }
    }

    /// Observes `symbol` once: its count and the total both grow by exactly 1
    /// and no other count changes.
    pub fn update_symbol(&mut self, symbol: u32)
        requires
            old(self).wf(),
            (symbol as int) < old(self).num_symbols(),
            old(self).total_val() < u64::MAX,
        ensures
            final(self).wf(),
            final(self).counts() == old(self).counts().update(
                symbol as int,
                (old(self).counts()[symbol as int] + 1) as u64,
            ),
            final(self).total_val() == old(self).total_val() + 1,
            final(self).eof_val() == old(self).eof_val(),
            final(self).num_symbols() == old(self).num_symbols(),
    {
        proof {
            lemma_cum_entry_bound(self.count@, symbol as int);
        }
        self.total = self.total + 1;
        let idx: usize = symbol as usize;
        let c: u64 = self.count[idx];
        self.count[idx] = c + 1;
        proof {
            lemma_cum_update(
                old(self).count@,
                symbol as int,
                (old(self).count@[symbol as int] + 1) as u64,
                old(self).count@.len() as int,
            );
        }
    }

    /// The sum of the first `n` counts.
    fn prefix_total(&self, n: usize) -> (r: u64)
        requires
            self.wf(),
            n <= self.count@.len(),
        ensures
            r as int == cum(self.counts(), n as int),
    {
        let mut acc: u64 = 0;
        let mut i: usize = 0;
        while i < n
            invariant
                self.wf(),
                i <= n <= self.count@.len(),
                acc as int == cum(self.count@, i as int),
            decreases n - i,
        {
            proof {
                lemma_cum_monotone(self.count@, i + 1, self.count@.len() as int);
            }
            acc = acc + self.count[i];
            i = i + 1;
        }
        acc
    }

    /// The cumulative count just above `symbol`: `cum(symbol + 1)`.
    pub fn high(&self, symbol: u32) -> (r: u64)
        requires
            self.wf(),
            (symbol as int) < self.num_symbols(),
        ensures
            r as int == cum(self.counts(), symbol as int + 1),
    {
        self.prefix_total(symbol as usize + 1)
    }

    /// The cumulative count below `symbol`: `cum(symbol)`.
    pub fn low(&self, symbol: u32) -> (r: u64)
        requires
            self.wf(),
            (symbol as int) < self.num_symbols(),
        ensures
            r as int == cum(self.counts(), symbol as int),
    {
        proof {
            lemma_cum_nonneg(self.counts(), symbol as int);
        }
        let high = self.prefix_total(symbol as usize + 1);
        high - self.count[symbol as usize]
    }

    /// The cumulative interval of `symbol`, as counts out of `total`:
    /// `(cum(symbol), cum(symbol + 1))`.  The interval is never empty and
    /// lies inside `[0, total]`.
    pub fn prob(&self, symbol: u32) -> (r: (u64, u64))
        requires
            self.wf(),
            (symbol as int) < self.num_symbols(),
        ensures
            r.0 as int == cum(self.counts(), symbol as int),
            r.1 as int == cum(self.counts(), symbol as int + 1),
            r.0 < r.1,
            r.1 <= self.total_val(),
    {
        proof {
            lemma_cum_monotone(self.counts(), symbol as int + 1, self.num_symbols());
            lemma_cum_nonneg(self.counts(), symbol as int);
        }
        let high = self.prefix_total(symbol as usize + 1);
        let low = high - self.count[symbol as usize];
        (low, high)
    }

    /// The sum of all counts.
    pub fn total(&self) -> (r: u64)
        ensures
            r == self.total_val(),
    {
        self.total
    }

    /// The index of the EOF sentinel.
    pub fn eof(&self) -> (r: u32)
        ensures
            r == self.eof_val(),
    {
        self.eof
    }
}

/// Prefix sums only grow: `cum(s, a) <= cum(s, b)` for `a <= b` within `s`.
pub proof fn lemma_cum_monotone(s: Seq<u64>, a: int, b: int)
    requires
        0 <= a <= b <= s.len(),
    ensures
        cum(s, a) <= cum(s, b),
    decreases b - a,
{
    if a < b {
        lemma_cum_monotone(s, a, b - 1);
    }
}

/// Each entry is at most the full sum: `cum(s, i) + s[i] <= cum(s, len)`.
pub proof fn lemma_cum_entry_bound(s: Seq<u64>, i: int)
    requires
        0 <= i < s.len(),
    ensures
        cum(s, i) + s[i] <= cum(s, s.len() as int),
        0 <= cum(s, i),
{
    lemma_cum_nonneg(s, i);
    lemma_cum_monotone(s, i + 1, s.len() as int);
}

/// Prefix sums of unsigned entries are non-negative.
pub proof fn lemma_cum_nonneg(s: Seq<u64>, n: int)
    requires
        n <= s.len(),
    ensures
        0 <= cum(s, n),
    decreases n,
{
    if n > 0 {
        lemma_cum_nonneg(s, n - 1);
    }
}

/// A sequence of `n` ones sums to `n`.
proof fn lemma_cum_all_ones(s: Seq<u64>, n: int)
    requires
        0 <= n <= s.len(),
        forall|j: int| 0 <= j < s.len() ==> #[trigger] s[j] == 1,
    ensures
        cum(s, n) == n,
    decreases n,
{
    if n > 0 {
        lemma_cum_all_ones(s, n - 1);
    }
}

/// Raising entry `i` to `v` changes a prefix sum that covers `i` by
/// `v - s[i]`, and leaves shorter prefixes alone.
pub proof fn lemma_cum_update(s: Seq<u64>, i: int, v: u64, n: int)
    requires
        0 <= i < s.len(),
        n <= s.len(),
    ensures
        n <= i ==> cum(s.update(i, v), n) == cum(s, n),
        i < n ==> cum(s.update(i, v), n) == cum(s, n) + v - s[i],
    decreases n,
{
    if n > 0 {
        lemma_cum_update(s, i, v, n - 1);
    }
}

/// The cumulative intervals of consecutive symbols tile `[0, total)` with no
/// gaps or overlaps: symbol `s` owns the non-empty slice
/// `[cum(s), cum(s + 1))`, the first slice starts at 0, and the last ends at
/// the total.
pub proof fn lemma_probability_partition(m: Model, s: int)
    requires
        m.wf(),
        0 <= s < m.num_symbols(),
    ensures
        cum(m.counts(), s) < cum(m.counts(), s + 1),
        cum(m.counts(), s + 1) == cum(m.counts(), s) + m.counts()[s],
        cum(m.counts(), 0) == 0,
        cum(m.counts(), m.num_symbols()) == m.total_val(),
        0 <= cum(m.counts(), s),
        cum(m.counts(), s + 1) <= m.total_val(),
{
    lemma_cum_entry_bound(m.counts(), s);
}

/// The cumulative distribution is monotone: for `s1 < s2` the upper bound of
/// `s1`'s interval is at most the lower bound of `s2`'s.
pub proof fn lemma_cumulative_monotone(m: Model, s1: int, s2: int)
    requires
        m.wf(),
        0 <= s1 < s2 < m.num_symbols(),
    ensures
        cum(m.counts(), s1 + 1) <= cum(m.counts(), s2),
{
    lemma_cum_monotone(m.counts(), s1 + 1, s2);
}

} // verus!

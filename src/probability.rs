use rand::Rng;
use vstd::prelude::*;

verus! {

/// Rates (the discount factor, learning rates, probabilities) are counts of
/// millionths: `RATE_ONE` stands for 1.
pub const RATE_ONE: u64 = 1_000_000;

/// Why a weighted sampler could not be built.
#[derive(Debug, Clone, Copy, PartialEq, Eq, Structural)]
pub enum ArgumentError {
    /// A weight is zero, or there is no weight at all.
    NonPositive,
    /// The weights add up to more than `u64::MAX`.
    NotFinite,
    /// Items and weights differ in number.
    SizeMismatch,
}

/// Sum of the first `n` weights.
pub open spec fn prefix_sum(w: Seq<u64>, n: int) -> int
    decreases n,
{
    if n <= 0 || w.len() == 0 {
        0
    } else {
        prefix_sum(w, n - 1) + w[n - 1] as int
    }
}

/// Sum of all the weights.
pub open spec fn total_weight(w: Seq<u64>) -> int {
    prefix_sum(w, w.len() as int)
}

/// Every weight is positive.
pub open spec fn all_positive(w: Seq<u64>) -> bool {
    forall|i: int| 0 <= i < w.len() ==> w[i] > 0
}

/// A draw `u` from `[0, total)` selects entry `i`: `u` falls into the `i`-th
/// interval `[prefix_sum(w, i), prefix_sum(w, i + 1))`, whose length is `w[i]`.
pub open spec fn selects(w: Seq<u64>, u: int, i: int) -> bool {
    &&& 0 <= i < w.len()
    &&& prefix_sum(w, i) <= u < prefix_sum(w, i + 1)
}

proof fn lemma_prefix_monotone(w: Seq<u64>, a: int, b: int)
    requires
        0 <= a <= b <= w.len(),
    ensures
        prefix_sum(w, a) <= prefix_sum(w, b),
    decreases b - a,
{
    if a < b {
        lemma_prefix_monotone(w, a, b - 1);
    }
}

proof fn lemma_prefix_strict(w: Seq<u64>, a: int, b: int)
    requires
        0 <= a < b <= w.len(),
        all_positive(w),
    ensures
        prefix_sum(w, a) < prefix_sum(w, b),
    decreases b - a,
{
    if a < b - 1 {
        lemma_prefix_strict(w, a, b - 1);
    }
}

/// Each draw from `[0, total)` selects exactly one entry, and entry `i` is
/// selected by exactly the `w[i]` draws of its interval; a draw is therefore
/// mapped to entry `i` with probability `w[i] / total`.
pub proof fn lemma_selection_exact(w: Seq<u64>, u: int)
    requires
        all_positive(w),
        w.len() > 0,
        0 <= u < total_weight(w),
    ensures
        exists|i: int| selects(w, u, i),
        forall|i: int, j: int| selects(w, u, i) && selects(w, u, j) ==> i == j,
        forall|i: int|
            0 <= i < w.len() ==> prefix_sum(w, i + 1) - prefix_sum(w, i) == w[i] as int,
    decreases w.len(),
{
    assert forall|i: int, j: int| selects(w, u, i) && selects(w, u, j) implies i == j by {
        if i < j {
            lemma_prefix_monotone(w, i + 1, j);
        } else if j < i {
            lemma_prefix_monotone(w, j + 1, i);
        }
    }
    let n = w.len() as int;
    if u >= prefix_sum(w, n - 1) {
        assert(selects(w, u, n - 1));
    } else {
        let w2 = w.subrange(0, n - 1);
        assert forall|k: int| 0 <= k <= n - 1 implies prefix_sum(w2, k) == prefix_sum(w, k) by {
            lemma_prefix_prefix(w, w2, k);
        }
        assert(n > 1);
        lemma_selection_exact(w2, u);
        let i = choose|i: int| selects(w2, u, i);
        assert(selects(w, u, i));
    }
}

proof fn lemma_prefix_prefix(w: Seq<u64>, w2: Seq<u64>, k: int)
    requires
        w2.len() <= w.len(),
        0 <= k <= w2.len(),
        forall|j: int| 0 <= j < w2.len() ==> w2[j] == w[j],
    ensures
        prefix_sum(w2, k) == prefix_sum(w, k),
    decreases k,
{
    if k > 0 {
        lemma_prefix_prefix(w, w2, k - 1);
    }
}

/// Relies on rand's `thread_rng().gen_range(0..bound)`: a uniformly drawn value
/// of `[0, bound)`; it panics on an empty range.
#[verifier::external_body]
fn draw_below(bound: u64) -> (r: u64)
    requires
        bound > 0,
    ensures
        r < bound,
{
    rand::thread_rng().gen_range(0..bound)
}

/// Whether the draw `u` of `[0, RATE_ONE)` lands on heads for a coin that
/// shows heads with `probability` millionths.
pub fn coin_at(u: u64, probability: u64) -> (r: bool)
    ensures
        r == (u < probability),
{
    u < probability
}

/// Throws a coin that shows heads (`true`) with `probability` millionths.
pub fn throw_coin(probability: u64) -> (r: bool)
    ensures
        probability == 0 ==> !r,
        probability >= RATE_ONE ==> r,
{
    let u = draw_below(RATE_ONE);
    coin_at(u, probability)
}

/// A weighted sampler: item `i` is drawn with probability `w[i] / total`.
/// It holds the weights and their running totals, in input order.
pub struct Distribution<V: Copy> {
    weights: Vec<u64>,
    cumulative: Vec<u64>,
    values: Vec<V>,
}

impl<V: Copy> Distribution<V> {
    /// The items, in input order.
    pub closed spec fn items(&self) -> Seq<V> {
        self.values@
    }

    /// The weights, in input order.
    pub closed spec fn weights(&self) -> Seq<u64> {
        self.weights@
    }

    pub closed spec fn wf(&self) -> bool {
        &&& self.weights@.len() == self.values@.len()
        &&& self.cumulative@.len() == self.values@.len()
        &&& self.values@.len() > 0
        &&& all_positive(self.weights@)
        &&& total_weight(self.weights@) <= u64::MAX
        &&& forall|i: int|
            0 <= i < self.cumulative@.len() ==> #[trigger] self.cumulative@[i] == prefix_sum(
                self.weights@,
                i + 1,
            )
    }

    /// Facts of a well-formed sampler that its users rely on.
    pub proof fn lemma_wf(&self)
        requires
            self.wf(),
        ensures
            self.items().len() == self.weights().len(),
            self.items().len() > 0,
            all_positive(self.weights()),
            0 < self.total() <= u64::MAX,
    {
        lemma_prefix_strict(self.weights@, 0, self.weights@.len() as int);
    }

    pub open spec fn total(&self) -> int {
        total_weight(self.weights())
    }

    /// Builds a sampler from items and their weights, in that order.
    pub fn new(items: Vec<V>, weights: Vec<u64>) -> (r: Result<Self, ArgumentError>)
        ensures
            items@.len() != weights@.len() ==> r == Err::<Self, _>(ArgumentError::SizeMismatch),
            items@.len() == weights@.len() && (weights@.len() == 0 || !all_positive(weights@))
                ==> r == Err::<Self, _>(ArgumentError::NonPositive),
            items@.len() == weights@.len() && weights@.len() > 0 && all_positive(weights@)
                && total_weight(weights@) > u64::MAX ==> r == Err::<Self, _>(
                ArgumentError::NotFinite,
            ),
            r matches Ok(d) ==> d.wf() && d.items() == items@ && d.weights() == weights@,
            items@.len() == weights@.len() && weights@.len() > 0 && all_positive(weights@)
                && total_weight(weights@) <= u64::MAX ==> r is Ok,
    {
        if items.len() != weights.len() {
            return Err(ArgumentError::SizeMismatch);
        }
        if weights.len() == 0 {
            return Err(ArgumentError::NonPositive);
        }
        let mut i: usize = 0;
        while i < weights.len()
            invariant
                i <= weights@.len(),
                items@.len() == weights@.len(),
                forall|j: int| 0 <= j < i ==> weights@[j] > 0,
            decreases weights@.len() - i,
        {
            if weights[i] == 0 {
                return Err(ArgumentError::NonPositive);
            }
            i = i + 1;
        }
        let mut cumulative: Vec<u64> = Vec::new();
        let mut sum: u64 = 0;
        let mut k: usize = 0;
        while k < weights.len()
            invariant
                k <= weights@.len(),
                items@.len() == weights@.len(),
                all_positive(weights@),
                sum as int == prefix_sum(weights@, k as int),
                cumulative@.len() == k,
                forall|j: int|
                    0 <= j < k ==> #[trigger] cumulative@[j] == prefix_sum(weights@, j + 1),
            decreases weights@.len() - k,
        {
            if sum > u64::MAX - weights[k] {
                proof {
                    lemma_prefix_monotone(weights@, k + 1, weights@.len() as int);
                }
                return Err(ArgumentError::NotFinite);
            }
            sum = sum + weights[k];
            cumulative.push(sum);
            k = k + 1;
        }
        Ok(Distribution { weights, cumulative, values: items })
    }

    /// Builds a sampler from `(weight, item)` pairs, in that order.
    pub fn from(distribution: Vec<(u64, V)>) -> (r: Result<Self, ArgumentError>)
        ensures
            (distribution@.len() == 0 || !all_positive(distribution@.map_values(|p: (u64, V)| p.0)))
                ==> r == Err::<Self, _>(ArgumentError::NonPositive),
            distribution@.len() > 0 && all_positive(distribution@.map_values(|p: (u64, V)| p.0))
                && total_weight(distribution@.map_values(|p: (u64, V)| p.0)) > u64::MAX
                ==> r == Err::<Self, _>(ArgumentError::NotFinite),
            r matches Ok(d) ==> d.wf() && d.items() == distribution@.map_values(|p: (u64, V)| p.1)
                && d.weights() == distribution@.map_values(|p: (u64, V)| p.0),
            distribution@.len() > 0 && all_positive(distribution@.map_values(|p: (u64, V)| p.0))
                && total_weight(distribution@.map_values(|p: (u64, V)| p.0)) <= u64::MAX
                ==> r is Ok,
    {
        let mut items: Vec<V> = Vec::new();
        let mut weights: Vec<u64> = Vec::new();
        let mut i: usize = 0;
        while i < distribution.len()
            invariant
                i <= distribution@.len(),
                items@ == distribution@.subrange(0, i as int).map_values(|p: (u64, V)| p.1),
                weights@ == distribution@.subrange(0, i as int).map_values(|p: (u64, V)| p.0),
            decreases distribution@.len() - i,
        {
            let (w, v) = distribution[i];
            items.push(v);
            weights.push(w);
            i = i + 1;
            assert(items@ =~= distribution@.subrange(0, i as int).map_values(|p: (u64, V)| p.1));
            assert(weights@ =~= distribution@.subrange(0, i as int).map_values(|p: (u64, V)| p.0));
        }
        assert(distribution@.subrange(0, i as int) =~= distribution@);
        Self::new(items, weights)
    }

    pub fn num_items(&self) -> (r: usize)
        requires
            self.wf(),
        ensures
            r == self.items().len(),
    {
        self.values.len()
    }

    pub fn item(&self, i: usize) -> (r: V)
        requires
            i < self.items().len(),
        ensures
            r == self.items()[i as int],
    {
        self.values[i]
    }

    /// Index of the entry that the draw `u` selects (binary search over the
    /// running totals).
    pub fn index_at(&self, u: u64) -> (i: usize)
        requires
            self.wf(),
            u < self.total(),
        ensures
            selects(self.weights(), u as int, i as int),
    {
        let mut lo: usize = 0;
        let mut hi: usize = self.cumulative.len() - 1;
        proof {
            assert(self.cumulative@[hi as int] == prefix_sum(self.weights@, hi + 1));
        }
        while lo < hi
            invariant
                self.wf(),
                lo <= hi < self.cumulative@.len(),
                (u as int) < prefix_sum(self.weights@, hi + 1),
                prefix_sum(self.weights@, lo as int) <= u,
            decreases hi - lo,
        {
            let mid = lo + (hi - lo) / 2;
            assert(self.cumulative@[mid as int] == prefix_sum(self.weights@, mid + 1));
            if u < self.cumulative[mid] {
                hi = mid;
            } else {
                lo = mid + 1;
            }
        }
        lo
    }

    /// The item that the draw `u` selects.
    pub fn sample_at(&self, u: u64) -> (r: V)
        requires
            self.wf(),
            u < self.total(),
        ensures
            exists|i: int|
                0 <= i < self.items().len() && selects(self.weights(), u as int, i) && r
                    == self.items()[i],
    {
        let i = self.index_at(u);
        self.values[i]
    }

    /// Draws one item: item `i` with probability `w[i] / total`.
    pub fn sample(&self) -> (r: V)
        requires
            self.wf(),
        ensures
            exists|u: int, i: int|
                0 <= u < self.total() && 0 <= i < self.items().len() && selects(
                    self.weights(),
                    u,
                    i,
                ) && r == self.items()[i],
    {
        proof {
            lemma_prefix_strict(self.weights@, 0, self.weights@.len() as int);
        }
        let u = draw_below(self.cumulative[self.cumulative.len() - 1]);
        proof {
            let n = self.cumulative@.len() - 1;
            assert(self.cumulative@[n] == prefix_sum(self.weights@, n + 1));
        }
        self.sample_at(u)
    }
}

} // verus!

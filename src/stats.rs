//! Reduction of raw cycle samples to one statistic.
use vstd::prelude::*;
use vstd::relations::{sorted_by, total_ordering};
use vstd::seq_lib::{group_to_multiset_ensures, lemma_sorted_unique};

verus! {

/// A statistical function selecting a single value from raw benchmark results.
#[derive(Debug, Clone, Copy, PartialEq, Eq, Structural, Hash, PartialOrd, Ord)]
pub enum Sta {
    /// Median benchmark value.
    Mdn,
    /// Minimum benchmark value.
    Min,
    /// Maximum benchmark value.
    Max,
    /// Average benchmark value.
    Avg,
}

impl Default for Sta {
    fn default() -> (r: Sta)
        ensures
            r == Sta::Mdn,
    {
        Sta::Mdn
    }
}

/// The order of samples.
pub open spec fn sample_order() -> spec_fn(u64, u64) -> bool {
    |a: u64, b: u64| a <= b
}

/// The samples in ascending order.
pub open spec fn ordered(s: Seq<u64>) -> Seq<u64> {
    s.sort_by(sample_order())
}

/// The sample at the middle index of the ascending order; for an even count
/// this is the upper of the two middle samples.
pub open spec fn median_of(s: Seq<u64>) -> u64 {
    ordered(s)[(s.len() / 2) as int]
}

pub open spec fn minimum_of(s: Seq<u64>) -> u64 {
    ordered(s)[0]
}

pub open spec fn maximum_of(s: Seq<u64>) -> u64 {
    ordered(s)[s.len() - 1]
}

/// The sum of the samples.
pub open spec fn total(s: Seq<u64>) -> int
    decreases s.len(),
{
    if s.len() == 0 {
        0
    } else {
        total(s.drop_last()) + s.last()
    }
}

/// The sum divided by the count, truncated.
pub open spec fn average_of(s: Seq<u64>) -> u64 {
    (total(s) / s.len() as int) as u64
}

/// The value that statistic `sta` selects from the samples.
pub open spec fn statistic(sta: Sta, s: Seq<u64>) -> u64 {
    match sta {
        Sta::Mdn => median_of(s),
        Sta::Min => minimum_of(s),
        Sta::Max => maximum_of(s),
        Sta::Avg => average_of(s),
    }
}

impl Sta {
    pub open spec fn spec_code(self) -> u64 {
        match self {
            Sta::Mdn => 0,
            Sta::Min => 1,
            Sta::Max => 2,
            Sta::Avg => 3,
        }
    }

    /// A number that stands for the statistic in identities.
    pub fn code(&self) -> (r: u64)
        ensures
            r == self.spec_code(),
    {
        match self {
            Sta::Mdn => 0,
            Sta::Min => 1,
            Sta::Max => 2,
            Sta::Avg => 3,
        }
    }

    /// Applies the statistic to a non-empty sample vector.
    pub fn reduce(&self, vals: &Vec<u64>) -> (r: u64)
        requires
            vals@.len() > 0,
        ensures
            r == statistic(*self, vals@),
    {
        match self {
            Sta::Mdn => median(vals),
            Sta::Min => minimum(vals),
            Sta::Max => maximum(vals),
            Sta::Avg => average(vals),
        }
    }
}

proof fn lemma_sample_order_total()
    ensures
        total_ordering(sample_order()),
{
}

/// The ascending order is sorted, and every sample lies between its first
/// and last element, which are samples themselves.
pub proof fn lemma_ordered(s: Seq<u64>)
    requires
        s.len() > 0,
    ensures
        ordered(s).len() == s.len(),
        forall|i: int, j: int| 0 <= i <= j < s.len() ==> ordered(s)[i] <= ordered(s)[j],
        forall|i: int| 0 <= i < s.len() ==> ordered(s)[0] <= #[trigger] s[i] <= ordered(s)[s.len() - 1],
        s.contains(ordered(s)[0]),
        s.contains(ordered(s)[s.len() - 1]),
{
    broadcast use group_to_multiset_ensures;

    lemma_sample_order_total();
    s.lemma_sort_by_ensures(sample_order());
    let o = ordered(s);
    assert(o.len() == s.len()) by {
        assert(o.to_multiset().len() == s.to_multiset().len());
    }
    assert forall|i: int, j: int| 0 <= i <= j < s.len() implies o[i] <= o[j] by {
        if i < j {
            assert(sample_order()(o[i], o[j]));
        }
    }
    assert forall|i: int| 0 <= i < s.len() implies o[0] <= #[trigger] s[i] <= o[s.len() - 1] by {
        assert(s.to_multiset().count(s[i]) > 0);
        assert(o.to_multiset().count(s[i]) > 0);
        let k = choose|k: int| 0 <= k < o.len() && o[k] == s[i];
    }
    assert(o.to_multiset().count(o[0]) > 0);
    assert(o.to_multiset().count(o[s.len() - 1]) > 0);
}

/// The ascending order of the samples, as a new vector.
fn sorted_samples(vals: &Vec<u64>) -> (r: Vec<u64>)
    ensures
        r@ == ordered(vals@),
{
    let mut out: Vec<u64> = Vec::new();
    let n = vals.len();
    let mut i: usize = 0;
    assert(vals@.subrange(0, 0) =~= out@);
    while i < n
        invariant
            n == vals@.len(),
            i <= n,
            forall|a: int, b: int| 0 <= a < b < out@.len() ==> out@[a] <= out@[b],
            out@.to_multiset() == vals@.subrange(0, i as int).to_multiset(),
        decreases n - i,
    {
        let x = vals[i];
        let mut lo: usize = 0;
        let mut hi: usize = out.len();
        while lo < hi
            invariant
                lo <= hi <= out@.len(),
                forall|a: int, b: int| 0 <= a < b < out@.len() ==> out@[a] <= out@[b],
                forall|j: int| 0 <= j < lo ==> out@[j] <= x,
                forall|j: int| hi <= j < out@.len() ==> out@[j] > x,
            decreases hi - lo,
        {
            let mid = lo + (hi - lo) / 2;
            if out[mid] <= x {
                lo = mid + 1;
            } else {
                hi = mid;
            }
        }
        let ghost prev = out@;
        out.insert(lo, x);
        proof {
            assert(vals@.subrange(0, i + 1) =~= vals@.subrange(0, i as int).push(x));
            vstd::seq_lib::to_multiset_insert(prev, lo as int, x);
            vstd::seq_lib::to_multiset_build(vals@.subrange(0, i as int), x);
            assert forall|a: int, b: int| 0 <= a < b < out@.len() implies out@[a] <= out@[b] by {
                if a < lo && b > lo {
                    assert(out@[a] == prev[a]);
                    assert(out@[b] == prev[b - 1]);
                }
            }
        }
        i = i + 1;
    }
    proof {
        assert(vals@.subrange(0, n as int) =~= vals@);
        lemma_sample_order_total();
        vals@.lemma_sort_by_ensures(sample_order());
        assert(sorted_by(out@, sample_order()));
        lemma_sorted_unique(out@, ordered(vals@), sample_order());
    }
    out
}

fn median(vals: &Vec<u64>) -> (r: u64)
    requires
        vals@.len() > 0,
    ensures
        r == median_of(vals@),
{
    let o = sorted_samples(vals);
    proof {
        lemma_ordered(vals@);
    }
    o[vals.len() / 2]
}

fn minimum(vals: &Vec<u64>) -> (r: u64)
    requires
        vals@.len() > 0,
    ensures
        r == minimum_of(vals@),
{
    let mut m = vals[0];
    let mut i: usize = 1;
    while i < vals.len()
        invariant
            1 <= i <= vals@.len(),
            vals@.contains(m),
            forall|j: int| 0 <= j < i ==> m <= vals@[j],
        decreases vals@.len() - i,
    {
        if vals[i] < m {
            m = vals[i];
        }
        i = i + 1;
    }
    proof {
        lemma_ordered(vals@);
        let k = choose|k: int| 0 <= k < vals@.len() && vals@[k] == ordered(vals@)[0];
        let q = choose|q: int| 0 <= q < vals@.len() && vals@[q] == m;
        assert(ordered(vals@)[0] <= vals@[q]);
    }
    m
}

fn maximum(vals: &Vec<u64>) -> (r: u64)
    requires
        vals@.len() > 0,
    ensures
        r == maximum_of(vals@),
{
    let mut m = vals[0];
    let mut i: usize = 1;
    while i < vals.len()
        invariant
            1 <= i <= vals@.len(),
            vals@.contains(m),
            forall|j: int| 0 <= j < i ==> m >= vals@[j],
        decreases vals@.len() - i,
    {
        if vals[i] > m {
            m = vals[i];
        }
        i = i + 1;
    }
    proof {
        lemma_ordered(vals@);
        let k = choose|k: int| 0 <= k < vals@.len() && vals@[k] == ordered(vals@)[vals@.len() - 1];
        let q = choose|q: int| 0 <= q < vals@.len() && vals@[q] == m;
        assert(ordered(vals@)[vals@.len() - 1] >= vals@[q]);
    }
    m
}

proof fn lemma_total_bounds(s: Seq<u64>, lo: int, hi: int)
    requires
        forall|i: int| 0 <= i < s.len() ==> lo <= #[trigger] s[i] <= hi,
    ensures
        s.len() * lo <= total(s) <= s.len() * hi,
    decreases s.len(),
{
    if s.len() > 0 {
        let p = s.drop_last();
        assert forall|i: int| 0 <= i < p.len() implies lo <= #[trigger] p[i] <= hi by {
            assert(p[i] == s[i]);
        }
        lemma_total_bounds(p, lo, hi);
        let n = p.len() as int;
        assert(lo <= s[n] <= hi);
        assert((n + 1) * lo == n * lo + lo) by (nonlinear_arith);
        assert((n + 1) * hi == n * hi + hi) by (nonlinear_arith);
    }
}

fn average(vals: &Vec<u64>) -> (r: u64)
    requires
        vals@.len() > 0,
    ensures
        r == average_of(vals@),
{
    let n = vals.len();
    let mut sum: u128 = 0;
    let mut i: usize = 0;
    while i < n
        invariant
            n == vals@.len(),
            i <= n,
            sum == total(vals@.subrange(0, i as int)),
            sum <= i * 0xffff_ffff_ffff_ffffu64,
        decreases n - i,
    {
        proof {
            let q = vals@.subrange(0, i + 1);
            assert(q.drop_last() =~= vals@.subrange(0, i as int));
            assert(sum + vals@[i as int] <= (i + 1) * 0xffff_ffff_ffff_ffffu64) by (nonlinear_arith)
                requires
                    sum <= i * 0xffff_ffff_ffff_ffffu64,
                    vals@[i as int] <= 0xffff_ffff_ffff_ffffu64,
            ;
            assert((i + 1) * 0xffff_ffff_ffff_ffffu64 < 0x1_0000_0000_0000_0000_0000_0000_0000_0000)
                by (nonlinear_arith)
                requires
                    i < 0x1_0000_0000_0000_0000,
            ;
        }
        sum = sum + vals[i] as u128;
        i = i + 1;
    }
    assert(vals@.subrange(0, n as int) =~= vals@);
    let len = n as u128;
    proof {
        assert(sum / len <= 0xffff_ffff_ffff_ffffu64) by (nonlinear_arith)
            requires
                sum <= len * 0xffff_ffff_ffff_ffffu64,
                len > 0,
        ;
    }
    (sum / len) as u64
}

/// For any non-empty samples the minimum is at most the median and the
/// average, and both are at most the maximum.
pub proof fn lemma_statistic_order(s: Seq<u64>)
    requires
        s.len() > 0,
    ensures
        minimum_of(s) <= median_of(s) <= maximum_of(s),
        minimum_of(s) <= average_of(s) <= maximum_of(s),
{
    lemma_ordered(s);
    let lo = minimum_of(s) as int;
    let hi = maximum_of(s) as int;
    lemma_total_bounds(s, lo, hi);
    let n = s.len() as int;
    let t = total(s);
    assert(lo <= t / n <= hi) by (nonlinear_arith)
        requires
            n * lo <= t <= n * hi,
            n > 0,
    ;
}

} // verus!

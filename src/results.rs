//! What a run produces: raw samples per entry, statistic values per
//! selection, and comparisons of two selections.
use vstd::prelude::*;
use vstd::string::StringExecFns;
use crate::label::{Label, NoPayload, EnumStructVal};
use crate::stats::{Sta, statistic};
use crate::text::{count_text, fmt_count, fmt_tenths, join, joined, tenths_text};

verus! {

/// Why a registration, a run or a comparison failed.
#[derive(Debug)]
pub enum BenErr<L> {
    /// A registration was asked for with no labels.
    EmptyLabels,
    /// A run was asked for with zero iterations.
    ZeroIterations,
    /// A selection names a label set that was never registered.
    MissingRegistration(Vec<L>),
    /// A registration produced no benchmark functions.
    EmptyBenchmarks(Vec<L>),
    /// A registration produced benchmark functions of different label kinds.
    InconsistentLabels(Vec<L>),
    /// The samples that came back for a registration are not those planned.
    IncompleteResults(Vec<L>),
    /// A comparison names a selection identity that the query does not hold.
    MissingSelection(u64),
    /// The two selections of a comparison differ in length.
    UnevenLengths(usize, usize),
    /// The two selections of a comparison differ in label at an index.
    UnequalLabels(usize, L, L),
}

/// Results of running a single benchmark function `itr` times.
pub struct Ben<L> {
    pub lbl: L,
    pub vals: Vec<u64>,
}

impl<L: Label> Ben<L> {
    pub fn new(lbl: L, vals: Vec<u64>) -> (r: Self)
        ensures
            r.lbl == lbl,
            r.vals@ == vals@,
    {
        Ben { lbl, vals }
    }
}

/// The raw results of one registration.
pub struct Reg<L> {
    pub lbls: Vec<L>,
    pub bens: Vec<Ben<L>>,
}

impl<L: Label> Reg<L> {
    pub fn new(lbls: &[L]) -> (r: Self)
        ensures
            r.lbls@ == lbls@,
            r.bens@.len() == 0,
    {
        Reg { lbls: copy_lbls(lbls), bens: Vec::new() }
    }
}

/// Copies a label slice into a vector.
pub(crate) fn copy_lbls<L: Label>(lbls: &[L]) -> (r: Vec<L>)
    ensures
        r@ == lbls@,
{
    let mut out: Vec<L> = Vec::new();
    let mut i: usize = 0;
    while i < lbls.len()
        invariant
            i <= lbls@.len(),
            out@ == lbls@.subrange(0, i as int),
        decreases lbls@.len() - i,
    {
        out.push(lbls[i]);
        assert(lbls@.subrange(0, i + 1) =~= lbls@.subrange(0, i as int).push(lbls@[i as int]));
        i = i + 1;
    }
    assert(lbls@.subrange(0, lbls@.len() as int) =~= lbls@);
    out
}

/// A statistic value derived from a raw benchmark result.
#[derive(Debug, Clone)]
pub struct StaVal<L> {
    /// The label of the benchmark function.
    pub lbl: L,
    /// The value the statistical function selected.
    pub val: u64,
}

impl<L: Label> StaVal<L> {
    pub fn new(lbl: L, val: u64) -> (r: Self)
        ensures
            r.lbl == lbl,
            r.val == val,
    {
        StaVal { lbl, val }
    }
}

/// The statistic values of the entries of `bens`, in the order of `bens`.
pub open spec fn reduced<L: Label>(sta: Sta, bens: Seq<Ben<L>>) -> Seq<StaVal<L>> {
    Seq::new(bens.len(), |i: int| StaVal { lbl: bens[i].lbl, val: statistic(sta, bens[i].vals@) })
}

/// The values are in ascending order of their labels' ranks.
pub open spec fn by_label<L: Label>(s: Seq<StaVal<L>>) -> bool {
    forall|i: int, j: int| 0 <= i < j < s.len() ==> s[i].lbl.rank() <= s[j].lbl.rank()
}

/// Reduces each raw result to statistic `sta` and orders the values by label.
pub fn sta_vals<L: Label>(sta: Sta, bens: &Vec<Ben<L>>) -> (r: Vec<StaVal<L>>)
    requires
        forall|i: int| 0 <= i < bens@.len() ==> (#[trigger] bens@[i]).vals@.len() > 0,
    ensures
        by_label(r@),
        r@.to_multiset() == reduced(sta, bens@).to_multiset(),
{
    let mut out: Vec<StaVal<L>> = Vec::new();
    let n = bens.len();
    let mut i: usize = 0;
    assert(reduced(sta, bens@).subrange(0, 0) =~= out@);
    while i < n
        invariant
            n == bens@.len(),
            i <= n,
            forall|j: int| 0 <= j < bens@.len() ==> (#[trigger] bens@[j]).vals@.len() > 0,
            by_label(out@),
            out@.to_multiset() == reduced(sta, bens@).subrange(0, i as int).to_multiset(),
        decreases n - i,
    {
        let v = StaVal::new(bens[i].lbl, sta.reduce(&bens[i].vals));
        let k = v.lbl.key();
        let mut lo: usize = 0;
        let mut hi: usize = out.len();
        while lo < hi
            invariant
                lo <= hi <= out@.len(),
                k == v.lbl.rank(),
                by_label(out@),
                forall|j: int| 0 <= j < lo ==> out@[j].lbl.rank() <= k,
                forall|j: int| hi <= j < out@.len() ==> out@[j].lbl.rank() > k,
            decreases hi - lo,
        {
            let mid = lo + (hi - lo) / 2;
            if out[mid].lbl.key() <= k {
                lo = mid + 1;
            } else {
                hi = mid;
            }
        }
        let ghost prev = out@;
        out.insert(lo, v);
        proof {
            let red = reduced(sta, bens@);
            assert(red.subrange(0, i + 1) =~= red.subrange(0, i as int).push(v));
            vstd::seq_lib::to_multiset_insert(prev, lo as int, v);
            vstd::seq_lib::to_multiset_build(red.subrange(0, i as int), v);
            assert forall|a: int, b: int| 0 <= a < b < out@.len() implies out@[a].lbl.rank()
                <= out@[b].lbl.rank() by {
                if a < lo && b > lo {
                    assert(out@[a] == prev[a]);
                    assert(out@[b] == prev[b - 1]);
                }
            }
        }
        i = i + 1;
    }
    assert(reduced(sta, bens@).subrange(0, n as int) =~= reduced(sta, bens@));
    out
}

/// A selection's result: its labels, statistic, and values ordered by label.
pub struct Sel<L> {
    pub lbls: Vec<L>,
    pub sta: Sta,
    pub vals: Vec<StaVal<L>>,
}

impl<L: Label> Sel<L> {
    pub fn new(lbls: &[L], sta: Sta, vals: Vec<StaVal<L>>) -> (r: Self)
        ensures
            r.lbls@ == lbls@,
            r.sta == sta,
            r.vals@ == vals@,
    {
        Sel { lbls: copy_lbls(lbls), sta, vals }
    }
}

/// The labels of statistic values.
pub open spec fn lbls_of<L: Label>(s: Seq<StaVal<L>>) -> Seq<L> {
    Seq::new(s.len(), |i: int| s[i].lbl)
}

/// The numbers of statistic values.
pub open spec fn nums_of<L: Label>(s: Seq<StaVal<L>>) -> Seq<u64> {
    Seq::new(s.len(), |i: int| s[i].val)
}

/// The ratio of the larger to the smaller value, with the smaller floored
/// at one, in tenths rounded half up.
pub open spec fn ratio_tenths(a: u64, b: u64) -> nat {
    let hi: nat = if a < b {
        b as nat
    } else {
        a as nat
    };
    let lo: nat = if a < b {
        a as nat
    } else {
        b as nat
    };
    let den: nat = if lo == 0 {
        1
    } else {
        lo
    };
    ((20 * hi + den) / (2 * den)) as nat
}

/// Returns the comparison ratio `max(a, b) / max(1, min(a, b))` in tenths,
/// rounded half up; `50` reads as `5.0`.
pub fn ratio(a: u64, b: u64) -> (r: u128)
    ensures
        r == ratio_tenths(a, b),
{
    let (lo, hi) = if a < b {
        (a, b)
    } else {
        (b, a)
    };
    let den: u128 = if lo == 0 {
        1
    } else {
        lo as u128
    };
    (20 * (hi as u128) + den) / (2 * den)
}

/// The ratio does not depend on the order of its arguments.
pub proof fn lemma_ratio_symmetric(a: u64, b: u64)
    ensures
        ratio_tenths(a, b) == ratio_tenths(b, a),
{
}

/// A zero value counts as one cycle, so the ratio stays finite: against
/// zero the ratio is the other value itself.
pub proof fn lemma_ratio_floor(b: u64)
    ensures
        ratio_tenths(0, b) == 10 * b,
{
    assert((20 * (b as nat) + 1) / 2 == 10 * (b as nat));
}

/// The comparison of two selections.
pub struct Cmp<L> {
    /// The entry labels, in order, of both selections.
    pub hdr_lbls: Vec<L>,
    /// The label set of the first selection.
    pub a_lbls: Vec<L>,
    /// The label set of the second selection.
    pub b_lbls: Vec<L>,
    pub a_vals: Vec<u64>,
    pub b_vals: Vec<u64>,
    /// Ratio of larger to smaller value at each index, in tenths.
    pub ratios: Vec<u128>,
}

impl<L: Label> Cmp<L> {
    pub fn new(
        hdr_lbls: Vec<L>,
        a_lbls: Vec<L>,
        b_lbls: Vec<L>,
        a_vals: Vec<u64>,
        b_vals: Vec<u64>,
        ratios: Vec<u128>,
    ) -> (r: Self)
        ensures
            r.hdr_lbls@ == hdr_lbls@,
            r.a_lbls@ == a_lbls@,
            r.b_lbls@ == b_lbls@,
            r.a_vals@ == a_vals@,
            r.b_vals@ == b_vals@,
            r.ratios@ == ratios@,
    {
        Cmp { hdr_lbls, a_lbls, b_lbls, a_vals, b_vals, ratios }
    }
}

/// `c` is the comparison of `a` with `b`: both have the same entry labels in
/// order, which head `c`; then both label sets, both value rows, and the
/// ratio at every index.
pub open spec fn compared<L: Label>(c: Cmp<L>, a: Sel<L>, b: Sel<L>) -> bool {
    &&& lbls_of(a.vals@) == lbls_of(b.vals@)
    &&& c.hdr_lbls@ == lbls_of(a.vals@)
    &&& c.a_lbls@ == a.lbls@
    &&& c.b_lbls@ == b.lbls@
    &&& c.a_vals@ == nums_of(a.vals@)
    &&& c.b_vals@ == nums_of(b.vals@)
    &&& c.ratios@.len() == a.vals@.len()
    &&& forall|i: int|
        0 <= i < c.ratios@.len() ==> c.ratios@[i] == ratio_tenths(a.vals@[i].val, b.vals@[i].val)
}

/// Compares two selections whose values are ordered by label: they must have
/// the same length and the same label at every index.
pub fn compare<L: Label>(a: &Sel<L>, b: &Sel<L>) -> (r: Result<Cmp<L>, BenErr<L>>)
    ensures
        a.vals@.len() != b.vals@.len() <==> r matches Err(BenErr::UnevenLengths(_, _)),
        r matches Err(BenErr::UnevenLengths(x, y)) ==> x == a.vals@.len() && y == b.vals@.len(),
        r matches Err(BenErr::UnequalLabels(i, x, y)) ==> {
            &&& a.vals@.len() == b.vals@.len()
            &&& 0 <= i < a.vals@.len()
            &&& x == a.vals@[i as int].lbl && y == b.vals@[i as int].lbl && x != y
            &&& forall|j: int| 0 <= j < i ==> a.vals@[j].lbl == b.vals@[j].lbl
        },
        r is Ok <==> (a.vals@.len() == b.vals@.len() && lbls_of(a.vals@) == lbls_of(b.vals@)),
        r matches Err(e) ==> (e is UnevenLengths || e is UnequalLabels),
        r matches Ok(c) ==> compared(c, *a, *b),
{
    let n = a.vals.len();
    if n != b.vals.len() {
        return Err(BenErr::UnevenLengths(n, b.vals.len()));
    }
    let mut hdr: Vec<L> = Vec::new();
    let mut av: Vec<u64> = Vec::new();
    let mut bv: Vec<u64> = Vec::new();
    let mut ratios: Vec<u128> = Vec::new();
    let mut i: usize = 0;
    while i < n
        invariant
            n == a.vals@.len() == b.vals@.len(),
            i <= n,
            forall|j: int| 0 <= j < i ==> a.vals@[j].lbl == b.vals@[j].lbl,
            hdr@ == lbls_of(a.vals@).subrange(0, i as int),
            av@ == nums_of(a.vals@).subrange(0, i as int),
            bv@ == nums_of(b.vals@).subrange(0, i as int),
            ratios@.len() == i,
            forall|j: int|
                0 <= j < i ==> ratios@[j] == ratio_tenths(a.vals@[j].val, b.vals@[j].val),
        decreases n - i,
    {
        let x = StaVal::new(a.vals[i].lbl, a.vals[i].val);
        let y = StaVal::new(b.vals[i].lbl, b.vals[i].val);
        if x.lbl.key() != y.lbl.key() {
            assert(lbls_of(a.vals@)[i as int] != lbls_of(b.vals@)[i as int]);
            return Err(BenErr::UnequalLabels(i, x.lbl, y.lbl));
        }
        proof {
            L::lemma_rank_injective(x.lbl, y.lbl);
        }
        hdr.push(x.lbl);
        av.push(x.val);
        bv.push(y.val);
        ratios.push(ratio(x.val, y.val));
        proof {
            assert(lbls_of(a.vals@).subrange(0, i + 1) =~= lbls_of(a.vals@).subrange(
                0,
                i as int,
            ).push(x.lbl));
            assert(nums_of(a.vals@).subrange(0, i + 1) =~= nums_of(a.vals@).subrange(
                0,
                i as int,
            ).push(x.val));
            assert(nums_of(b.vals@).subrange(0, i + 1) =~= nums_of(b.vals@).subrange(
                0,
                i as int,
            ).push(y.val));
        }
        i = i + 1;
    }
    proof {
        assert(lbls_of(a.vals@).subrange(0, n as int) =~= lbls_of(a.vals@));
        assert(nums_of(a.vals@).subrange(0, n as int) =~= nums_of(a.vals@));
        assert(nums_of(b.vals@).subrange(0, n as int) =~= nums_of(b.vals@));
        assert(lbls_of(a.vals@) =~= lbls_of(b.vals@));
    }
    let a_lbls = copy_lbls(a.lbls.as_slice());
    let b_lbls = copy_lbls(b.lbls.as_slice());
    Ok(Cmp::new(hdr, a_lbls, b_lbls, av, bv, ratios))
}

/// The caption of the ratio row.
pub open spec fn ratio_caption() -> Seq<char> {
    "ratio (max / min)"@
}

impl<L: Label> Cmp<L> {
    /// The table of the comparison, row by row: a header with the kind of the
    /// entry labels and each label's payload, a row of values for each
    /// selection headed by its label set, and a row of ratios. Fails when an
    /// entry label carries no payload.
    pub fn rows(&self) -> (r: Result<Vec<Vec<String>>, NoPayload>)
        ensures
            r is Err <==> exists|i: int|
                0 <= i < self.hdr_lbls@.len() && (#[trigger] self.hdr_lbls@[i]).payload() is None,
            r matches Ok(rows) ==> {
                &&& rows@.len() == 4
                &&& rows@[0]@.len() == self.hdr_lbls@.len() + 1
                &&& rows@[0]@[0]@ == if self.hdr_lbls@.len() > 0 {
                    self.hdr_lbls@[0].shown_kind()
                } else {
                    Seq::<char>::empty()
                }
                &&& forall|i: int|
                    0 <= i < self.hdr_lbls@.len() ==> rows@[0]@[i + 1]@ == count_text(
                        (#[trigger] self.hdr_lbls@[i]).payload()->0 as nat,
                    )
                &&& rows@[1]@.len() == self.a_vals@.len() + 1
                &&& rows@[1]@[0]@ == joined(self.a_lbls@, ',')
                &&& forall|i: int|
                    0 <= i < self.a_vals@.len() ==> rows@[1]@[i + 1]@ == count_text(
                        #[trigger] self.a_vals@[i] as nat,
                    )
                &&& rows@[2]@.len() == self.b_vals@.len() + 1
                &&& rows@[2]@[0]@ == joined(self.b_lbls@, ',')
                &&& forall|i: int|
                    0 <= i < self.b_vals@.len() ==> rows@[2]@[i + 1]@ == count_text(
                        #[trigger] self.b_vals@[i] as nat,
                    )
                &&& rows@[3]@.len() == self.ratios@.len() + 1
                &&& rows@[3]@[0]@ == ratio_caption()
                &&& forall|i: int|
                    0 <= i < self.ratios@.len() ==> rows@[3]@[i + 1]@ == tenths_text(
                        #[trigger] self.ratios@[i] as nat,
                    )
            },
    {
        let mut hdr: Vec<String> = Vec::new();
        if self.hdr_lbls.len() > 0 {
            hdr.push(self.hdr_lbls[0].kind_text());
        } else {
            hdr.push(String::new());
        }
        let mut i: usize = 0;
        while i < self.hdr_lbls.len()
            invariant
                i <= self.hdr_lbls@.len(),
                hdr@.len() == i + 1,
                hdr@[0]@ == if self.hdr_lbls@.len() > 0 {
                    self.hdr_lbls@[0].shown_kind()
                } else {
                    Seq::<char>::empty()
                },
                forall|j: int|
                    0 <= j < i ==> (#[trigger] self.hdr_lbls@[j]).payload() is Some && hdr@[j + 1]@
                        == count_text(self.hdr_lbls@[j].payload()->0 as nat),
            decreases self.hdr_lbls@.len() - i,
        {
            match self.hdr_lbls[i].val() {
                Err(e) => {
                    return Err(e);
                },
                Ok(v) => {
                    hdr.push(fmt_count(v as u64));
                },
            }
            i = i + 1;
        }
        let a_row = Self::value_row(join(&self.a_lbls, ','), &self.a_vals);
        let b_row = Self::value_row(join(&self.b_lbls, ','), &self.b_vals);
        let mut r_row: Vec<String> = Vec::new();
        r_row.push(String::from_str("ratio (max / min)"));
        let mut k: usize = 0;
        while k < self.ratios.len()
            invariant
                k <= self.ratios@.len(),
                r_row@.len() == k + 1,
                r_row@[0]@ == ratio_caption(),
                forall|j: int|
                    0 <= j < k ==> r_row@[j + 1]@ == tenths_text(#[trigger] self.ratios@[j] as nat),
            decreases self.ratios@.len() - k,
        {
            r_row.push(fmt_tenths(self.ratios[k]));
            k = k + 1;
        }
        let mut rows: Vec<Vec<String>> = Vec::new();
        rows.push(hdr);
        rows.push(a_row);
        rows.push(b_row);
        rows.push(r_row);
        Ok(rows)
    }

    fn value_row(head: String, vals: &Vec<u64>) -> (r: Vec<String>)
        ensures
            r@.len() == vals@.len() + 1,
            r@[0]@ == head@,
            forall|j: int| 0 <= j < vals@.len() ==> r@[j + 1]@ == count_text(#[trigger] vals@[j] as nat),
    {
        let mut row: Vec<String> = Vec::new();
        let ghost h = head@;
        row.push(head);
        let mut k: usize = 0;
        while k < vals.len()
            invariant
                k <= vals@.len(),
                row@.len() == k + 1,
                row@[0]@ == h,
                forall|j: int| 0 <= j < k ==> row@[j + 1]@ == count_text(#[trigger] vals@[j] as nat),
            decreases vals@.len() - k,
        {
            row.push(fmt_count(vals[k]));
            k = k + 1;
        }
        row
    }
}

} // verus!

//! The verified part of running a plan: splitting the tasks over workers,
//! grouping the samples that come back by registration, and reducing them to
//! selections and comparisons.
use vstd::prelude::*;
use crate::ident::seq_hash;
use crate::label::Label;
use crate::query::{QryBld, sel_key};
use crate::results::{BenErr, Ben, Cmp, Reg, Sel, by_label, compare, compared, lbls_of, reduced, sta_vals};
use crate::study::{Grp, grp_ids};

verus! {

/// Where range `k` starts when `n` tasks are split over `w` workers: the
/// first `n % w` ranges hold one task more than the others.
pub open spec fn range_start(n: nat, w: nat, k: nat) -> nat {
    k * (n / w) + if k < n % w {
        k
    } else {
        n % w
    }
}

proof fn lemma_range_step(n: nat, w: nat, k: nat)
    requires
        w > 0,
        k < w,
    ensures
        range_start(n, w, k + 1) == range_start(n, w, k) + n / w + if k < n % w {
            1nat
        } else {
            0nat
        },
        range_start(n, w, k + 1) <= n,
{
    let q = n / w;
    let m = n % w;
    assert((k + 1) * q == k * q + q) by (nonlinear_arith);
    assert(n == w * q + m) by (nonlinear_arith)
        requires
            q == n / w,
            m == n % w,
            w > 0,
    ;
    assert((k + 1) * q <= w * q) by (nonlinear_arith)
        requires
            k + 1 <= w,
    ;
}

proof fn lemma_range_end(n: nat, w: nat)
    requires
        w > 0,
    ensures
        range_start(n, w, w) == n,
{
    assert(n == w * (n / w) + n % w) by (nonlinear_arith)
        requires
            w > 0,
    ;
}

/// Splits `n` tasks into `workers` contiguous ranges whose sizes differ by
/// at most one; returns each range as (start, end).
pub fn partition(workers: usize, n: usize) -> (r: Vec<(usize, usize)>)
    requires
        workers > 0,
    ensures
        r@.len() == workers,
        forall|k: int|
            0 <= k < workers ==> (#[trigger] r@[k]).0 == range_start(n as nat, workers as nat, k as nat)
                && r@[k].1 == range_start(n as nat, workers as nat, (k + 1) as nat),
        range_start(n as nat, workers as nat, workers as nat) == n,
{
    let q = n / workers;
    let m = n % workers;
    let mut out: Vec<(usize, usize)> = Vec::new();
    let mut cur: usize = 0;
    let mut k: usize = 0;
    proof {
        lemma_range_end(n as nat, workers as nat);
    }
    while k < workers
        invariant
            q == n / workers,
            m == n % workers,
            k <= workers,
            workers > 0,
            out@.len() == k,
            cur == range_start(n as nat, workers as nat, k as nat),
            forall|j: int|
                0 <= j < k ==> (#[trigger] out@[j]).0 == range_start(n as nat, workers as nat, j as nat)
                    && out@[j].1 == range_start(n as nat, workers as nat, (j + 1) as nat),
        decreases workers - k,
    {
        proof {
            lemma_range_step(n as nat, workers as nat, k as nat);
        }
        let size = if k < m {
            q + 1
        } else {
            q
        };
        let next = cur + size;
        out.push((cur, next));
        cur = next;
        k = k + 1;
    }
    out
}

/// Hands out the tasks to `workers` workers: worker `k` gets the tasks of
/// range `k` of `partition(workers, tasks.len())`, in order.
pub fn split<T>(tasks: Vec<T>, workers: usize) -> (r: Vec<Vec<T>>)
    requires
        workers > 0,
    ensures
        r@.len() == workers,
        forall|k: int|
            0 <= k < workers ==> (#[trigger] r@[k])@ == tasks@.subrange(
                range_start(tasks@.len(), workers as nat, k as nat) as int,
                range_start(tasks@.len(), workers as nat, (k + 1) as nat) as int,
            ),
{
    let n = tasks.len();
    let ghost all = tasks@;
    let rngs = partition(workers, n);
    let mut rest = tasks;
    let mut out: Vec<Vec<T>> = Vec::new();
    let mut k: usize = 0;
    while k < workers
        invariant
            n == all.len(),
            rngs@.len() == workers,
            forall|j: int|
                0 <= j < workers ==> (#[trigger] rngs@[j]).0 == range_start(n as nat, workers as nat, j as nat)
                    && rngs@[j].1 == range_start(n as nat, workers as nat, (j + 1) as nat),
            range_start(n as nat, workers as nat, workers as nat) == n,
            k <= workers,
            out@.len() == k,
            k < workers ==> rest@ == all.subrange(rngs@[k as int].0 as int, n as int),
            forall|j: int|
                0 <= j < k ==> (#[trigger] out@[j])@ == all.subrange(
                    range_start(n as nat, workers as nat, j as nat) as int,
                    range_start(n as nat, workers as nat, (j + 1) as nat) as int,
                ),
        decreases workers - k,
    {
        let (lo, hi) = rngs[k];
        proof {
            lemma_range_step(n as nat, workers as nat, k as nat);
        }
        let mut chunk: Vec<T> = Vec::new();
        let mut t: usize = lo;
        while t < hi
            invariant
                lo <= t <= hi <= n == all.len(),
                chunk@ == all.subrange(lo as int, t as int),
                rest@ == all.subrange(t as int, n as int),
            decreases hi - t,
        {
            let x = rest.remove(0);
            chunk.push(x);
            assert(all.subrange(lo as int, t + 1) =~= all.subrange(lo as int, t as int).push(x));
            assert(rest@ =~= all.subrange(t + 1, n as int));
            t = t + 1;
        }
        out.push(chunk);
        k = k + 1;
        proof {
            if k < workers {
                assert(rngs@[k as int].0 == hi);
            }
        }
    }
    out
}

/// The samples that came back for registration `id`, in arrival order.
pub open spec fn bens_for<L>(rs: Seq<(u64, Ben<L>)>, id: u64) -> Seq<Ben<L>>
    decreases rs.len(),
{
    if rs.len() == 0 {
        Seq::<Ben<L>>::empty()
    } else {
        let p = bens_for(rs.drop_last(), id);
        if rs.last().0 == id {
            p.push(rs.last().1)
        } else {
            p
        }
    }
}

/// Registration `g` got exactly its planned number of results, each with
/// `itr` samples.
pub open spec fn complete<L>(g: Grp<L>, bs: Seq<Ben<L>>, itr: u16) -> bool {
    &&& bs.len() == g.n
    &&& forall|i: int| 0 <= i < bs.len() ==> (#[trigger] bs[i]).vals@.len() == itr
}

/// Groups the results by planned registration, in arrival order, and checks
/// that each registration got exactly its planned results, of `itr` samples
/// each. Results for other identities are dropped.
pub fn group_results<L: Label>(grps: &Vec<Grp<L>>, itr: u16, results: Vec<(u64, Ben<L>)>) -> (r:
    Result<Vec<Reg<L>>, BenErr<L>>)
    requires
        grp_ids(grps@).no_duplicates(),
    ensures
        r is Ok <==> forall|k: int|
            0 <= k < grps@.len() ==> complete(
                #[trigger] grps@[k],
                bens_for(results@, grps@[k].reg_id),
                itr,
            ),
        r matches Ok(rs) ==> {
            &&& rs@.len() == grps@.len()
            &&& forall|k: int|
                #![trigger rs@[k]]
                0 <= k < rs@.len() ==> rs@[k].lbls@ == grps@[k].lbls@ && rs@[k].bens@ == bens_for(
                    results@,
                    grps@[k].reg_id,
                )
        },
        r matches Err(e) ==> e is IncompleteResults,
        r matches Err(BenErr::IncompleteResults(v)) ==> exists|k: int|
            0 <= k < grps@.len() && v@ == (#[trigger] grps@[k]).lbls@ && !complete(
                grps@[k],
                bens_for(results@, grps@[k].reg_id),
                itr,
            ),
{
    let ghost all = results@;
    let g = grps.len();
    let mut groups: Vec<Vec<Ben<L>>> = Vec::new();
    let mut k: usize = 0;
    while k < g
        invariant
            g == grps@.len(),
            k <= g,
            groups@.len() == k,
            forall|j: int| 0 <= j < k ==> (#[trigger] groups@[j])@ == Seq::<Ben<L>>::empty(),
        decreases g - k,
    {
        groups.push(Vec::new());
        k = k + 1;
    }
    let mut rest = results;
    let n = rest.len();
    let mut i: usize = 0;
    assert(all.subrange(0, 0) =~= Seq::<(u64, Ben<L>)>::empty());
    while rest.len() > 0
        invariant
            g == grps@.len(),
            grp_ids(grps@).no_duplicates(),
            n == all.len(),
            i <= n,
            rest@ == all.subrange(i as int, n as int),
            groups@.len() == g,
            forall|j: int|
                0 <= j < g ==> (#[trigger] groups@[j])@ == bens_for(
                    all.subrange(0, i as int),
                    grps@[j].reg_id,
                ),
        decreases rest@.len(),
    {
        let x = rest.remove(0);
        let (id, b) = x;
        let ghost pre = all.subrange(0, i as int);
        assert(all.subrange(0, i + 1) =~= pre.push(x));
        assert(all.subrange(0, i + 1).drop_last() =~= pre);
        let mut j: usize = 0;
        while j < g && grps[j].reg_id != id
            invariant
                j <= g == grps@.len(),
                forall|w: int| 0 <= w < j ==> grps@[w].reg_id != id,
            decreases g - j,
        {
            j = j + 1;
        }
        let ghost before = groups@;
        if j < g {
            let mut v = groups.remove(j);
            v.push(b);
            groups.insert(j, v);
            proof {
                assert forall|w: int| 0 <= w < g && w != j implies grps@[w].reg_id != id by {
                    assert(grp_ids(grps@)[w] != grp_ids(grps@)[j as int]);
                }
            }
        }
        proof {
            assert forall|w: int| 0 <= w < g implies (#[trigger] groups@[w])@ == bens_for(
                all.subrange(0, i + 1),
                grps@[w].reg_id,
            ) by {
                if w != j && j < g {
                    assert(groups@[w] == before[w]);
                }
            }
        }
        i = i + 1;
        assert(rest@ =~= all.subrange(i as int, n as int));
    }
    assert(all.subrange(0, n as int) =~= all);
    let mut regs: Vec<Reg<L>> = Vec::new();
    let mut k: usize = 0;
    while groups.len() > 0
        invariant
            all == results@,
            g == grps@.len(),
            k <= g,
            k + groups@.len() == g,
            forall|j: int|
                0 <= j < groups@.len() ==> (#[trigger] groups@[j])@ == bens_for(all, grps@[k + j].reg_id),
            regs@.len() == k,
            forall|j: int|
                #![trigger regs@[j]]
                0 <= j < k ==> regs@[j].lbls@ == grps@[j].lbls@ && regs@[j].bens@ == bens_for(
                    all,
                    grps@[j].reg_id,
                ) && complete(grps@[j], bens_for(all, grps@[j].reg_id), itr),
        decreases groups@.len(),
    {
        let ghost gs = groups@;
        let bens = groups.remove(0);
        assert(bens@ == gs[0]@);
        let ok = check_group(&grps[k], &bens, itr);
        if !ok {
            assert(bens@ == bens_for(all, grps@[k as int].reg_id));
            assert(!complete(grps@[k as int], bens_for(all, grps@[k as int].reg_id), itr));
            return Err(BenErr::IncompleteResults(crate::results::copy_lbls(grps[k].lbls.as_slice())));
        }
        let reg = Reg { lbls: crate::results::copy_lbls(grps[k].lbls.as_slice()), bens };
        regs.push(reg);
        proof {
            assert forall|j: int| 0 <= j < groups@.len() implies (#[trigger] groups@[j])@ == bens_for(
                all,
                grps@[k + 1 + j].reg_id,
            ) by {
                assert(groups@[j] == gs[j + 1]);
            }
        }
        k = k + 1;
    }
    assert forall|j: int| 0 <= j < grps@.len() implies complete(
        #[trigger] grps@[j],
        bens_for(all, grps@[j].reg_id),
        itr,
    ) by {
        assert(regs@[j].lbls@ == grps@[j].lbls@);
    }
    Ok(regs)
}

fn check_group<L: Label>(grp: &Grp<L>, bens: &Vec<Ben<L>>, itr: u16) -> (r: bool)
    ensures
        r == complete(*grp, bens@, itr),
{
    if bens.len() != grp.n {
        return false;
    }
    let mut i: usize = 0;
    while i < bens.len()
        invariant
            i <= bens@.len(),
            forall|j: int| 0 <= j < i ==> (#[trigger] bens@[j]).vals@.len() == itr,
        decreases bens@.len() - i,
    {
        if bens[i].vals.len() != itr as usize {
            return false;
        }
        i = i + 1;
    }
    true
}

/// The outcome of a query run: each selection's result with its identity,
/// in the query's order, and the comparisons in declaration order.
pub struct Qry<L> {
    pub sels: Vec<(u64, Sel<L>)>,
    pub cmps: Vec<Cmp<L>>,
}

impl<L: Label> Qry<L> {
    pub fn new() -> (r: Self)
        ensures
            r.sels@.len() == 0,
            r.cmps@.len() == 0,
    {
        Qry { sels: Vec::new(), cmps: Vec::new() }
    }
}

/// `x` is the result of selection `s` over the samples `bens` of its
/// registration: the values of statistic `s.1`, one per entry, ordered by label.
pub open spec fn selected<L: Label>(x: (u64, Sel<L>), s: (Seq<L>, crate::stats::Sta), bens: Seq<Ben<L>>) -> bool {
    &&& x.0 == sel_key(s)
    &&& x.1.lbls@ == s.0
    &&& x.1.sta == s.1
    &&& by_label(x.1.vals@)
    &&& x.1.vals@.to_multiset() == reduced(s.1, bens).to_multiset()
}

/// `x` answers comparison request `c`: it compares selection results that
/// carry the two requested identities.
pub open spec fn answers<L: Label>(sels: Seq<(u64, Sel<L>)>, c: crate::query::CmpBld, x: Cmp<L>) -> bool {
    exists|ia: int, ib: int|
        #![trigger sels[ia], sels[ib]]
        0 <= ia < sels.len() && 0 <= ib < sels.len() && sels[ia].0 == c.a_sel_id && sels[ib].0
            == c.b_sel_id && compared(x, sels[ia].1, sels[ib].1)
}

/// Position of the first selection result with identity `id`; the length
/// when there is none.
pub open spec fn first_sel<L>(sels: Seq<(u64, Sel<L>)>, id: u64) -> int
    decreases sels.len(),
{
    if sels.len() == 0 {
        0
    } else if sels[0].0 == id {
        0
    } else {
        1 + first_sel(sels.drop_first(), id)
    }
}

/// Comparison request `c` can be answered from `sels`: both identities are
/// there, and the first results with them have the same labels in order.
pub open spec fn comparable<L: Label>(sels: Seq<(u64, Sel<L>)>, c: crate::query::CmpBld) -> bool {
    let ia = first_sel(sels, c.a_sel_id);
    let ib = first_sel(sels, c.b_sel_id);
    &&& ia < sels.len()
    &&& ib < sels.len()
    &&& lbls_of(sels[ia].1.vals@) == lbls_of(sels[ib].1.vals@)
}

/// `sels` holds the result of every selection of `qry`, in order, over the
/// samples in `results`.
pub open spec fn all_selected<L: Label>(
    sels: Seq<(u64, Sel<L>)>,
    qry: Seq<(Seq<L>, crate::stats::Sta)>,
    results: Seq<(u64, Ben<L>)>,
) -> bool {
    &&& sels.len() == qry.len()
    &&& forall|i: int|
        0 <= i < sels.len() ==> selected(#[trigger] sels[i], qry[i], bens_for(results, seq_hash(qry[i].0)))
}

proof fn lemma_first_sel<L>(sels: Seq<(u64, Sel<L>)>, id: u64, i: int)
    requires
        0 <= i <= sels.len(),
        forall|j: int| 0 <= j < i ==> (#[trigger] sels[j]).0 != id,
        i < sels.len() ==> sels[i].0 == id,
    ensures
        first_sel(sels, id) == i,
    decreases i,
{
    if i > 0 {
        assert(sels[0].0 != id);
        lemma_first_sel(sels.drop_first(), id, i - 1);
    }
}

/// Reduces the samples of a run to the result of every selection of the query.
pub fn select_all<L: Label>(
    qry: &QryBld<L>,
    grps: &Vec<Grp<L>>,
    itr: u16,
    results: Vec<(u64, Ben<L>)>,
) -> (r: Result<Vec<(u64, Sel<L>)>, BenErr<L>>)
    requires
        grp_ids(grps@).no_duplicates(),
    ensures
        itr == 0 <==> r matches Err(BenErr::ZeroIterations),
        r is Ok <==> {
            &&& itr > 0
            &&& forall|k: int|
                0 <= k < grps@.len() ==> complete(
                    #[trigger] grps@[k],
                    bens_for(results@, grps@[k].reg_id),
                    itr,
                )
            &&& forall|s: int|
                0 <= s < qry.sels().len() ==> grp_ids(grps@).contains(
                    seq_hash(#[trigger] qry.sels()[s].0),
                )
        },
        r matches Ok(sels) ==> all_selected(sels@, qry.sels(), results@),
        r matches Err(BenErr::MissingRegistration(v)) ==> exists|s: int|
            0 <= s < qry.sels().len() && v@ == (#[trigger] qry.sels()[s]).0 && !grp_ids(
                grps@,
            ).contains(seq_hash(qry.sels()[s].0)),
        r matches Err(BenErr::IncompleteResults(v)) ==> exists|k: int|
            0 <= k < grps@.len() && v@ == (#[trigger] grps@[k]).lbls@ && !complete(
                grps@[k],
                bens_for(results@, grps@[k].reg_id),
                itr,
            ),
        r matches Err(e) ==> (e is ZeroIterations || e is IncompleteResults || e is MissingRegistration),
{
    if itr == 0 {
        return Err(BenErr::ZeroIterations);
    }
    let ghost all = results@;
    let regs = match group_results(grps, itr, results) {
        Err(e) => {
            return Err(e);
        },
        Ok(x) => x,
    };
    let ghost sels_spec = qry.sels();
    let mut sels: Vec<(u64, Sel<L>)> = Vec::new();
    let mut s: usize = 0;
    while s < qry.sel_blds.len()
        invariant
            itr > 0,
            all == results@,
            sels_spec == qry.sels(),
            regs@.len() == grps@.len(),
            forall|k: int|
                #![trigger regs@[k]]
                0 <= k < regs@.len() ==> regs@[k].lbls@ == grps@[k].lbls@ && regs@[k].bens@ == bens_for(
                    all,
                    grps@[k].reg_id,
                ),
            forall|k: int|
                0 <= k < grps@.len() ==> complete(#[trigger] grps@[k], bens_for(all, grps@[k].reg_id), itr),
            s <= sels_spec.len(),
            forall|j: int| 0 <= j < s ==> grp_ids(grps@).contains(seq_hash(#[trigger] sels_spec[j].0)),
            sels@.len() == s,
            forall|i: int|
                0 <= i < s ==> selected(
                    #[trigger] sels@[i],
                    sels_spec[i],
                    bens_for(all, seq_hash(sels_spec[i].0)),
                ),
        decreases sels_spec.len() - s,
    {
        let sb = &qry.sel_blds[s];
        assert(sels_spec[s as int] == sb.view_pair());
        let rid = sb.reg_id();
        let mut k: usize = 0;
        while k < grps.len() && grps[k].reg_id != rid
            invariant
                k <= grps@.len(),
                forall|w: int| 0 <= w < k ==> grps@[w].reg_id != rid,
            decreases grps@.len() - k,
        {
            k = k + 1;
        }
        if k == grps.len() {
            proof {
                if grp_ids(grps@).contains(rid) {
                    let w = choose|w: int| 0 <= w < grp_ids(grps@).len() && grp_ids(grps@)[w] == rid;
                    assert(grps@[w].reg_id == rid);
                }
            }
            return Err(BenErr::MissingRegistration(crate::results::copy_lbls(sb.lbls.as_slice())));
        }
        assert(grp_ids(grps@)[k as int] == rid);
        let bens = &regs[k].bens;
        assert(complete(grps@[k as int], bens_for(all, grps@[k as int].reg_id), itr));
        assert(forall|j: int| 0 <= j < bens@.len() ==> (#[trigger] bens@[j]).vals@.len() == itr);
        let vals = sta_vals(sb.sta, bens);
        let sel = Sel::new(sb.lbls.as_slice(), sb.sta, vals);
        let id = sb.id();
        sels.push((id, sel));
        s = s + 1;
    }
    Ok(sels)
}

/// Answers every comparison request from the selection results, in order;
/// each request takes the first result with each of its two identities.
pub fn compare_all<L: Label>(cmp_blds: &Vec<crate::query::CmpBld>, sels: &Vec<(u64, Sel<L>)>) -> (r:
    Result<Vec<Cmp<L>>, BenErr<L>>)
    ensures
        r is Ok <==> forall|c: int| 0 <= c < cmp_blds@.len() ==> comparable(sels@, #[trigger] cmp_blds@[c]),
        r matches Ok(cmps) ==> {
            &&& cmps@.len() == cmp_blds@.len()
            &&& forall|c: int|
                0 <= c < cmps@.len() ==> compared(
                    #[trigger] cmps@[c],
                    sels@[first_sel(sels@, cmp_blds@[c].a_sel_id)].1,
                    sels@[first_sel(sels@, cmp_blds@[c].b_sel_id)].1,
                )
        },
        r matches Err(BenErr::MissingSelection(id)) ==> exists|c: int|
            0 <= c < cmp_blds@.len() && ((#[trigger] cmp_blds@[c]).a_sel_id == id
                || cmp_blds@[c].b_sel_id == id) && first_sel(sels@, id) >= sels@.len(),
        r matches Err(BenErr::UnevenLengths(x, y)) ==> exists|c: int|
            0 <= c < cmp_blds@.len() && first_sel(sels@, (#[trigger] cmp_blds@[c]).a_sel_id)
                < sels@.len() && first_sel(sels@, cmp_blds@[c].b_sel_id) < sels@.len() && x
                == sels@[first_sel(sels@, cmp_blds@[c].a_sel_id)].1.vals@.len() && y
                == sels@[first_sel(sels@, cmp_blds@[c].b_sel_id)].1.vals@.len() && x != y,
        r matches Err(BenErr::UnequalLabels(i, x, y)) ==> exists|c: int|
            0 <= c < cmp_blds@.len() && first_sel(sels@, (#[trigger] cmp_blds@[c]).a_sel_id)
                < sels@.len() && first_sel(sels@, cmp_blds@[c].b_sel_id) < sels@.len() && x
                == sels@[first_sel(sels@, cmp_blds@[c].a_sel_id)].1.vals@[i as int].lbl && y
                == sels@[first_sel(sels@, cmp_blds@[c].b_sel_id)].1.vals@[i as int].lbl && x != y,
        r matches Err(e) ==> (e is MissingSelection || e is UnevenLengths || e is UnequalLabels),
{
    let mut cmps: Vec<Cmp<L>> = Vec::new();
    let mut c: usize = 0;
    while c < cmp_blds.len()
        invariant
            c <= cmp_blds@.len(),
            cmps@.len() == c,
            forall|j: int| 0 <= j < c ==> comparable(sels@, #[trigger] cmp_blds@[j]),
            forall|j: int|
                0 <= j < c ==> compared(
                    #[trigger] cmps@[j],
                    sels@[first_sel(sels@, cmp_blds@[j].a_sel_id)].1,
                    sels@[first_sel(sels@, cmp_blds@[j].b_sel_id)].1,
                ),
        decreases cmp_blds@.len() - c,
    {
        let a_id = cmp_blds[c].a_sel_id;
        let b_id = cmp_blds[c].b_sel_id;
        let ia = match sel_pos(sels, a_id) {
            None => {
                proof {
                    lemma_first_sel(sels@, a_id, sels@.len() as int);
                    assert(!comparable(sels@, cmp_blds@[c as int]));
                }
                return Err(BenErr::MissingSelection(a_id));
            },
            Some(i) => i,
        };
        let ib = match sel_pos(sels, b_id) {
            None => {
                proof {
                    lemma_first_sel(sels@, b_id, sels@.len() as int);
                    assert(!comparable(sels@, cmp_blds@[c as int]));
                }
                return Err(BenErr::MissingSelection(b_id));
            },
            Some(i) => i,
        };
        proof {
            lemma_first_sel(sels@, a_id, ia as int);
            lemma_first_sel(sels@, b_id, ib as int);
        }
        let cmp = match compare(&sels[ia].1, &sels[ib].1) {
            Err(e) => {
                proof {
                    let va = sels@[ia as int].1.vals@;
                    let vb = sels@[ib as int].1.vals@;
                    assert(lbls_of(va).len() == va.len());
                    assert(lbls_of(vb).len() == vb.len());
                    assert(lbls_of(va) != lbls_of(vb));
                    assert(!comparable(sels@, cmp_blds@[c as int]));
                }
                return Err(e);
            },
            Ok(x) => x,
        };
        let ghost cmps0 = cmps@;
        cmps.push(cmp);
        proof {
            assert forall|j: int| 0 <= j < c + 1 implies compared(
                #[trigger] cmps@[j],
                sels@[first_sel(sels@, cmp_blds@[j].a_sel_id)].1,
                sels@[first_sel(sels@, cmp_blds@[j].b_sel_id)].1,
            ) by {
                if j < c {
                    assert(cmps@[j] == cmps0[j]);
                }
            }
        }
        c = c + 1;
    }
    Ok(cmps)
}

/// Reduces the samples of a run to the query's selections and comparisons:
/// `select_all`, then `compare_all` on its results.
pub fn summarize<L: Label>(
    qry: &QryBld<L>,
    grps: &Vec<Grp<L>>,
    itr: u16,
    results: Vec<(u64, Ben<L>)>,
) -> (r: Result<Qry<L>, BenErr<L>>)
    requires
        grp_ids(grps@).no_duplicates(),
    ensures
        itr == 0 <==> r matches Err(BenErr::ZeroIterations),
        r matches Ok(q) ==> {
            &&& all_selected(q.sels@, qry.sels(), results@)
            &&& q.cmps@.len() == qry.cmp_blds@.len()
            &&& forall|c: int|
                0 <= c < q.cmps@.len() ==> answers(q.sels@, qry.cmp_blds@[c], #[trigger] q.cmps@[c])
        },
        r matches Err(BenErr::MissingRegistration(v)) ==> exists|s: int|
            0 <= s < qry.sels().len() && v@ == (#[trigger] qry.sels()[s]).0 && !grp_ids(
                grps@,
            ).contains(seq_hash(qry.sels()[s].0)),
        r matches Err(BenErr::IncompleteResults(v)) ==> exists|k: int|
            0 <= k < grps@.len() && v@ == (#[trigger] grps@[k]).lbls@ && !complete(
                grps@[k],
                bens_for(results@, grps@[k].reg_id),
                itr,
            ),
        r matches Err(e) ==> (e is MissingSelection || e is UnevenLengths || e is UnequalLabels)
            ==> exists|sels: Seq<(u64, Sel<L>)>|
            all_selected(sels, qry.sels(), results@) && exists|c: int|
                0 <= c < qry.cmp_blds@.len() && !comparable(sels, #[trigger] qry.cmp_blds@[c]),
        r matches Err(e) ==> !(e is EmptyLabels || e is EmptyBenchmarks || e is InconsistentLabels),
{
    let ghost all = results@;
    let sels = match select_all(qry, grps, itr, results) {
        Err(e) => {
            return Err(e);
        },
        Ok(x) => x,
    };
    let cmps = match compare_all(&qry.cmp_blds, &sels) {
        Err(e) => {
            assert(all_selected(sels@, qry.sels(), all));
            return Err(e);
        },
        Ok(x) => x,
    };
    proof {
        assert forall|c: int| 0 <= c < cmps@.len() implies answers(
            sels@,
            qry.cmp_blds@[c],
            #[trigger] cmps@[c],
        ) by {
            assert(comparable(sels@, qry.cmp_blds@[c]));
            let ia = first_sel(sels@, qry.cmp_blds@[c].a_sel_id);
            let ib = first_sel(sels@, qry.cmp_blds@[c].b_sel_id);
            lemma_first_sel_found(sels@, qry.cmp_blds@[c].a_sel_id);
            lemma_first_sel_found(sels@, qry.cmp_blds@[c].b_sel_id);
            assert(sels@[ia].0 == qry.cmp_blds@[c].a_sel_id);
            assert(sels@[ib].0 == qry.cmp_blds@[c].b_sel_id);
        }
    }
    Ok(Qry { sels, cmps })
}

proof fn lemma_first_sel_found<L>(sels: Seq<(u64, Sel<L>)>, id: u64)
    ensures
        0 <= first_sel(sels, id) <= sels.len(),
        first_sel(sels, id) < sels.len() ==> sels[first_sel(sels, id)].0 == id,
    decreases sels.len(),
{
    if sels.len() > 0 && sels[0].0 != id {
        let rest = sels.drop_first();
        lemma_first_sel_found(rest, id);
        assert(first_sel(sels, id) == 1 + first_sel(rest, id));
        if first_sel(rest, id) < rest.len() {
            assert(sels[1 + first_sel(rest, id)] == rest[first_sel(rest, id)]);
        }
    }
}

/// Index of the first selection result with identity `id`.
fn sel_pos<L: Label>(sels: &Vec<(u64, Sel<L>)>, id: u64) -> (r: Option<usize>)
    ensures
        r matches Some(i) ==> i < sels@.len() && sels@[i as int].0 == id && forall|j: int|
            0 <= j < i ==> (#[trigger] sels@[j]).0 != id,
        r is None ==> forall|i: int| 0 <= i < sels@.len() ==> (#[trigger] sels@[i]).0 != id,
{
    let mut i: usize = 0;
    while i < sels.len()
        invariant
            i <= sels@.len(),
            forall|j: int| 0 <= j < i ==> (#[trigger] sels@[j]).0 != id,
        decreases sels@.len() - i,
    {
        if sels[i].0 == id {
            return Some(i);
        }
        i = i + 1;
    }
    None
}

} // verus!

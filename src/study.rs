//! A benchmark study: registrations of labelled benchmark functions, and the
//! planning of a run of a query against them.
//!
//! The benchmark functions are values of a type `F` that this module only
//! stores and hands out; calling and timing them is the caller's part. A
//! registration's entries come from its population callback of type `P`,
//! which every run calls afresh for the registrations it uses; planning the
//! run then takes those entries as its tasks.
use vstd::prelude::*;
use crate::ident::{hash_lbls, reg_id_of, seq_hash};
use crate::label::{Label, distinct, normalized, unq_srt};
use crate::query::QryBld;
use crate::results::{BenErr, copy_lbls};

verus! {

/// One benchmark function with its label, belonging to registration `reg_id`.
pub struct BenBld<L, F> {
    pub reg_id: u64,
    pub lbl: L,
    pub f: F,
}

impl<L: Label, F> BenBld<L, F> {
    pub fn new(reg_id: u64, lbl: L, f: F) -> (r: Self)
        ensures
            r.reg_id == reg_id,
            r.lbl == lbl,
            r.f == f,
    {
        BenBld { reg_id, lbl, f }
    }
}

/// A registration: a canonical label set, its identity, and its entries.
pub struct RegBld<L, F> {
    pub id: u64,
    pub lbls: Vec<L>,
    pub ben_blds: Vec<BenBld<L, F>>,
}

/// A population callback may be called with any registration handle.
pub open spec fn callable<L, F, P: FnOnce(&mut RegBld<L, F>)>(p: P) -> bool {
    forall|h: &mut RegBld<L, F>| p.requires((h,))
}

/// Every entry of `bs` carries registration identity `id`.
pub open spec fn stamped<L, F>(bs: Seq<BenBld<L, F>>, id: u64) -> bool {
    forall|i: int| 0 <= i < bs.len() ==> (#[trigger] bs[i]).reg_id == id
}

/// The entries `bs`, each stamped with registration identity `id`.
pub open spec fn restamped<L, F>(bs: Seq<BenBld<L, F>>, id: u64) -> Seq<BenBld<L, F>> {
    Seq::new(bs.len(), |i: int| BenBld { reg_id: id, lbl: bs[i].lbl, f: bs[i].f })
}

impl<L: Label, F> RegBld<L, F> {
    pub fn new(lbls: &[L]) -> (r: Self)
        ensures
            r.lbls@ == normalized(lbls@),
            r.id == reg_id_of(lbls@),
            r.ben_blds@.len() == 0,
    {
        let l = unq_srt(lbls);
        let id = hash_lbls(&l);
        RegBld { id, lbls: l, ben_blds: Vec::new() }
    }

    /// Appends a benchmark function with label `lbl`.
    pub fn ins(&mut self, lbl: L, f: F) -> (r: &mut Self)
        ensures
            r.id == old(self).id,
            r.lbls@ == old(self).lbls@,
            r.ben_blds@ == old(self).ben_blds@.push(BenBld { reg_id: old(self).id, lbl, f }),
            *final(self) == *final(r),
    {
        let b = BenBld::new(self.id, lbl, f);
        self.ben_blds.push(b);
        self
    }

    /// A fresh handle for a population callback: this registration's identity
    /// and labels, and no entries.
    pub fn handle(&self) -> (h: Self)
        ensures
            h.id == self.id,
            h.lbls@ == self.lbls@,
            h.ben_blds@.len() == 0,
    {
        RegBld { id: self.id, lbls: copy_lbls(self.lbls.as_slice()), ben_blds: Vec::new() }
    }

    /// Appends the entries of `h`, in order, stamped with this registration's
    /// identity.
    pub fn absorb(&mut self, h: Self)
        ensures
            final(self).id == old(self).id,
            final(self).lbls@ == old(self).lbls@,
            final(self).ben_blds@ == old(self).ben_blds@ + restamped(h.ben_blds@, old(self).id),
    {
        let ghost hb = h.ben_blds@;
        let ghost start = self.ben_blds@;
        let mut added = h.ben_blds;
        let n = added.len();
        while added.len() > 0
            invariant
                self.id == old(self).id,
                self.lbls@ == old(self).lbls@,
                n == hb.len(),
                added@.len() <= n,
                added@ == hb.subrange(n - added@.len(), n as int),
                self.ben_blds@ == start + restamped(hb.subrange(0, n - added@.len()), self.id),
            decreases added@.len(),
        {
            let b = added.remove(0);
            let BenBld { reg_id: _, lbl, f } = b;
            let id = self.id;
            self.ben_blds.push(BenBld { reg_id: id, lbl, f });
            assert(restamped(hb.subrange(0, n - added@.len()), id) =~= restamped(
                hb.subrange(0, n - added@.len() - 1),
                id,
            ).push(BenBld { reg_id: id, lbl, f }));
            assert(added@ =~= hb.subrange(n - added@.len(), n as int));
        }
        assert(hb.subrange(0, n as int) =~= hb);
    }

    /// Runs the population callback on a fresh handle, then appends what it
    /// inserted, stamped with this registration's identity.
    pub fn ins_ben_blds<Q: FnOnce(&mut RegBld<L, F>)>(&mut self, f: Q)
        requires
            callable(f),
        ensures
            final(self).id == old(self).id,
            final(self).lbls@ == old(self).lbls@,
            exists|bs: Seq<BenBld<L, F>>|
                final(self).ben_blds@ == old(self).ben_blds@ + #[trigger] restamped(bs, old(self).id),
    {
        let mut h = self.handle();
        f(&mut h);
        let ghost hb = h.ben_blds@;
        self.absorb(h);
        assert(self.ben_blds@ == old(self).ben_blds@ + restamped(hb, old(self).id));
    }
}

/// `regs` holds a registration with identity `id`.
pub open spec fn registered<L>(regs: Seq<(u64, Seq<L>)>, id: u64) -> bool {
    exists|i: int| 0 <= i < regs.len() && (#[trigger] regs[i]).0 == id
}

/// The registrations after registering label set `lbls`: the first
/// registration of an identity wins, later ones change nothing.
pub open spec fn add_registration<L: Label>(regs: Seq<(u64, Seq<L>)>, lbls: Seq<L>) -> Seq<(u64, Seq<L>)> {
    if registered(regs, reg_id_of(lbls)) {
        regs
    } else {
        regs.push((reg_id_of(lbls), normalized(lbls)))
    }
}

/// Position of the first registration with identity `id`; the length when
/// there is none.
pub open spec fn pos_of<L>(regs: Seq<(u64, Seq<L>)>, id: u64) -> int
    decreases regs.len(),
{
    if regs.len() == 0 {
        0
    } else if regs[0].0 == id {
        0
    } else {
        1 + pos_of(regs.drop_first(), id)
    }
}

proof fn lemma_pos_of<L>(regs: Seq<(u64, Seq<L>)>, id: u64, k: int)
    requires
        0 <= k < regs.len(),
        regs[k].0 == id,
        forall|j: int| 0 <= j < k ==> (#[trigger] regs[j]).0 != id,
    ensures
        pos_of(regs, id) == k,
    decreases k,
{
    if k > 0 {
        assert(regs[0].0 != id);
        lemma_pos_of(regs.drop_first(), id, k - 1);
    }
}

/// The registration identity of each selection, in order.
pub open spec fn sel_reg_ids<L: Label>(sels: Seq<(Seq<L>, crate::stats::Sta)>) -> Seq<u64> {
    Seq::new(sels.len(), |s: int| seq_hash(sels[s].0))
}

/// The registrations a query uses: the distinct identities its selections
/// read, in order of first reference.
pub open spec fn used_ids<L: Label>(sels: Seq<(Seq<L>, crate::stats::Sta)>) -> Seq<u64> {
    distinct(sel_reg_ids(sels))
}

/// The entries of the registrations `ids`, one registration after another.
pub open spec fn gathered<L, F>(
    ents: Seq<Seq<BenBld<L, F>>>,
    regs: Seq<(u64, Seq<L>)>,
    ids: Seq<u64>,
) -> Seq<BenBld<L, F>>
    decreases ids.len(),
{
    if ids.len() == 0 {
        Seq::<BenBld<L, F>>::empty()
    } else {
        gathered(ents, regs, ids.drop_last()) + ents[pos_of(regs, ids.last())]
    }
}

/// The entries are all of the kind of the first.
pub open spec fn uniform<L: Label, F>(bs: Seq<BenBld<L, F>>) -> bool {
    forall|i: int| 0 <= i < bs.len() ==> (#[trigger] bs[i]).lbl.kind_of() == bs[0].lbl.kind_of()
}

/// Entries that a run can use: at least one, all of one label kind.
pub open spec fn entries_ok<L: Label, F>(bs: Seq<BenBld<L, F>>) -> bool {
    bs.len() > 0 && uniform(bs)
}

/// A registration as planned for a run: its identity, labels, and the
/// number of tasks it contributes.
pub struct Grp<L> {
    pub reg_id: u64,
    pub lbls: Vec<L>,
    pub n: usize,
}

/// The identities of the planned registrations, in order.
pub open spec fn grp_ids<L>(gs: Seq<Grp<L>>) -> Seq<u64> {
    Seq::new(gs.len(), |k: int| gs[k].reg_id)
}

/// What a run executes: the iteration count, the tasks, and the
/// registrations they come from. The tasks of registration `grps[k]` stand
/// together, after those of `grps[0..k]`.
pub struct Plan<L, F> {
    pub itr: u16,
    pub tasks: Vec<BenBld<L, F>>,
    pub grps: Vec<Grp<L>>,
}


/// Checks the entries of a populated registration: there is at least one,
/// and all have labels of one kind.
pub fn check_entries<L: Label, F>(lbls: &Vec<L>, ben_blds: &Vec<BenBld<L, F>>) -> (r: Result<
    (),
    BenErr<L>,
>)
    ensures
        ben_blds@.len() == 0 <==> r matches Err(BenErr::EmptyBenchmarks(_)),
        r matches Err(BenErr::EmptyBenchmarks(v)) ==> v@ == lbls@,
        r matches Err(BenErr::InconsistentLabels(v)) ==> v@ == lbls@,
        r is Ok <==> (ben_blds@.len() > 0 && uniform(ben_blds@)),
        r matches Err(e) ==> (e is EmptyBenchmarks || e is InconsistentLabels),
{
    if ben_blds.len() == 0 {
        return Err(BenErr::EmptyBenchmarks(copy_lbls(lbls.as_slice())));
    }
    let k = ben_blds[0].lbl.kind();
    let mut i: usize = 1;
    while i < ben_blds.len()
        invariant
            1 <= i <= ben_blds@.len(),
            k == ben_blds@[0].lbl.kind_of(),
            forall|j: int| 0 <= j < i ==> (#[trigger] ben_blds@[j]).lbl.kind_of() == k,
        decreases ben_blds@.len() - i,
    {
        if ben_blds[i].lbl.kind() != k {
            assert(!uniform(ben_blds@)) by {
                assert(ben_blds@[i as int].lbl.kind_of() != ben_blds@[0].lbl.kind_of());
            }
            return Err(BenErr::InconsistentLabels(copy_lbls(lbls.as_slice())));
        }
        i = i + 1;
    }
    Ok(())
}

/// A benchmark study.
pub struct Stdy<L, F, P> {
    reg_blds: Vec<RegBld<L, F>>,
    pops: Vec<P>,
}

impl<L: Label, F, P: FnOnce(&mut RegBld<L, F>) + Copy> Stdy<L, F, P> {
    /// The registrations, by identity and label set, in registration order.
    pub closed spec fn regs(&self) -> Seq<(u64, Seq<L>)> {
        Seq::new(self.reg_blds@.len(), |i: int| (self.reg_blds@[i].id, self.reg_blds@[i].lbls@))
    }

    /// The population callback of each registration, in registration order.
    pub closed spec fn callbacks(&self) -> Seq<P> {
        self.pops@
    }

    /// The current entries of each registration, in registration order.
    pub closed spec fn entries(&self) -> Seq<Seq<BenBld<L, F>>> {
        Seq::new(self.reg_blds@.len(), |i: int| self.reg_blds@[i].ben_blds@)
    }

    /// Identities are unique and stamped on every entry; callbacks can be
    /// called.
    pub closed spec fn wf(&self) -> bool {
        &&& self.reg_blds@.len() == self.pops@.len()
        &&& forall|i: int, j: int|
            0 <= i < j < self.reg_blds@.len() ==> self.reg_blds@[i].id != self.reg_blds@[j].id
        &&& forall|i: int, j: int|
            0 <= i < self.reg_blds@.len() && 0 <= j < self.reg_blds@[i].ben_blds@.len()
                ==> (#[trigger] self.reg_blds@[i].ben_blds@[j]).reg_id == self.reg_blds@[i].id
        &&& forall|i: int| 0 <= i < self.pops@.len() ==> callable(#[trigger] self.pops@[i])
    }

    pub fn new() -> (r: Self)
        ensures
            r.wf(),
            r.regs().len() == 0,
            r.callbacks().len() == 0,
    {
        let r = Stdy { reg_blds: Vec::new(), pops: Vec::new() };
        assert(r.regs() =~= Seq::<(u64, Seq<L>)>::empty());
        r
    }

    /// Index of the registration with identity `id`.
    fn find_reg(&self, id: u64) -> (r: Option<usize>)
        ensures
            r matches Some(k) ==> k < self.reg_blds@.len() && self.reg_blds@[k as int].id == id,
            r is None ==> !registered(self.regs(), id),
    {
        let mut k: usize = 0;
        while k < self.reg_blds.len()
            invariant
                k <= self.reg_blds@.len(),
                forall|j: int| 0 <= j < k ==> self.reg_blds@[j].id != id,
            decreases self.reg_blds@.len() - k,
        {
            if self.reg_blds[k].id == id {
                return Some(k);
            }
            k = k + 1;
        }
        assert(!registered(self.regs(), id)) by {
            if registered(self.regs(), id) {
                let i = choose|i: int| 0 <= i < self.regs().len() && (#[trigger] self.regs()[i]).0 == id;
                assert(self.reg_blds@[i].id == id);
            }
        }
        None
    }

    /// Registers label set `lbls` with population callback `f`. An empty
    /// label set is refused; a label set whose identity is registered already
    /// changes nothing. A new registration starts without entries.
    pub fn reg_bld(&mut self, lbls: &[L], f: P) -> (r: Result<(), BenErr<L>>)
        requires
            old(self).wf(),
            callable(f),
        ensures
            final(self).wf(),
            lbls@.len() == 0 <==> r matches Err(BenErr::EmptyLabels),
            r is Err ==> r matches Err(BenErr::EmptyLabels),
            lbls@.len() == 0 ==> final(self).regs() == old(self).regs(),
            lbls@.len() > 0 ==> final(self).regs() == add_registration(old(self).regs(), lbls@),
            lbls@.len() > 0 && !registered(old(self).regs(), reg_id_of(lbls@)) ==> {
                &&& final(self).callbacks() == old(self).callbacks().push(f)
                &&& final(self).entries() == old(self).entries().push(Seq::<BenBld<L, F>>::empty())
            },
            lbls@.len() == 0 || registered(old(self).regs(), reg_id_of(lbls@)) ==> {
                &&& final(self).callbacks() == old(self).callbacks()
                &&& final(self).entries() == old(self).entries()
            },
    {
        if lbls.len() == 0 {
            return Err(BenErr::EmptyLabels);
        }
        let reg = RegBld::new(lbls);
        match self.find_reg(reg.id) {
            Some(k) => {
                assert(self.regs()[k as int].0 == reg.id);
            },
            None => {
                let ghost before = self.regs();
                let ghost ents = self.entries();
                assert(reg.ben_blds@ =~= Seq::<BenBld<L, F>>::empty());
                self.reg_blds.push(reg);
                self.pops.push(f);
                assert(self.regs() =~= before.push((reg_id_of(lbls@), normalized(lbls@))));
                assert(self.entries() =~= ents.push(Seq::<BenBld<L, F>>::empty()));
                assert forall|i: int, j: int| 0 <= i < j < self.reg_blds@.len() implies self.reg_blds@[i].id
                    != self.reg_blds@[j].id by {
                    if j == self.reg_blds@.len() - 1 {
                        assert(before[i].0 == self.reg_blds@[i].id);
                    }
                }
            },
        }
        Ok(())
    }


    /// The distinct registration identities that the selections read, in
    /// order of first reference, with the index of each registration.
    fn pick(&self, qry: &QryBld<L>) -> (r: Result<(Vec<u64>, Vec<usize>), BenErr<L>>)
        requires
            self.wf(),
        ensures
            r matches Err(BenErr::MissingRegistration(_)) <==> exists|s: int|
                0 <= s < qry.sels().len() && !registered(
                    self.regs(),
                    seq_hash(#[trigger] qry.sels()[s].0),
                ),
            r matches Err(BenErr::MissingRegistration(v)) ==> exists|s: int|
                0 <= s < qry.sels().len() && v@ == (#[trigger] qry.sels()[s]).0 && !registered(
                    self.regs(),
                    seq_hash(qry.sels()[s].0),
                ),
            r matches Err(e) ==> e is MissingRegistration,
            r matches Ok((ids, idxs)) ==> {
                &&& ids@ == crate::label::distinct(sel_reg_ids(qry.sels()))
                &&& idxs@.len() == ids@.len()
                &&& forall|q: int|
                    0 <= q < idxs@.len() ==> (#[trigger] idxs@[q]) < self.reg_blds@.len()
                        && self.reg_blds@[idxs@[q] as int].id == ids@[q]
            },
    {
        let ghost hs = sel_reg_ids(qry.sels());
        let mut ids: Vec<u64> = Vec::new();
        let mut idxs: Vec<usize> = Vec::new();
        let mut s: usize = 0;
        while s < qry.sel_blds.len()
            invariant
                self.wf(),
                hs == sel_reg_ids(qry.sels()),
                s <= hs.len(),
                forall|j: int| 0 <= j < s ==> registered(self.regs(), #[trigger] hs[j]),
                ids@ == crate::label::distinct(hs.subrange(0, s as int)),
                idxs@.len() == ids@.len(),
                forall|q: int|
                    0 <= q < idxs@.len() ==> (#[trigger] idxs@[q]) < self.reg_blds@.len()
                        && self.reg_blds@[idxs@[q] as int].id == ids@[q],
            decreases hs.len() - s,
        {
            let rid = qry.sel_blds[s].reg_id();
            assert(hs[s as int] == rid);
            match self.find_reg(rid) {
                None => {
                    assert(qry.sels()[s as int].0 == qry.sel_blds@[s as int].lbls@);
                    return Err(
                        BenErr::MissingRegistration(copy_lbls(qry.sel_blds[s].lbls.as_slice())),
                    );
                },
                Some(k) => {
                    assert(self.regs()[k as int].0 == rid);
                    let mut seen = false;
                    let mut q: usize = 0;
                    while q < ids.len()
                        invariant
                            q <= ids@.len(),
                            seen <==> exists|w: int| 0 <= w < q && ids@[w] == rid,
                        decreases ids@.len() - q,
                    {
                        if ids[q] == rid {
                            seen = true;
                        }
                        q = q + 1;
                    }
                    let ghost pre = hs.subrange(0, s as int);
                    assert(hs.subrange(0, s + 1) =~= pre.push(rid));
                    assert(hs.subrange(0, s + 1).drop_last() =~= pre);
                    if !seen {
                        ids.push(rid);
                        idxs.push(k);
                        assert(!crate::label::distinct(pre).contains(rid));
                    } else {
                        proof {
                            let w = choose|w: int| 0 <= w < q && ids@[w] == rid;
                            assert(crate::label::distinct(pre)[w] == rid);
                        }
                    }
                },
            }
            s = s + 1;
        }
        assert(hs.subrange(0, hs.len() as int) =~= hs);
        proof {
            if exists|j: int| 0 <= j < qry.sels().len() && !registered(self.regs(), seq_hash(#[trigger] qry.sels()[j].0)) {
                let j = choose|j: int| 0 <= j < qry.sels().len() && !registered(self.regs(), seq_hash(#[trigger] qry.sels()[j].0));
                assert(registered(self.regs(), hs[j]));
            }
        }
        Ok((ids, idxs))
    }


    /// Replaces the entries of registration `k` with those its callback
    /// inserts on a fresh handle.
    fn repopulate(&mut self, k: usize)
        requires
            old(self).wf(),
            k < old(self).reg_blds@.len(),
        ensures
            final(self).wf(),
            final(self).regs() == old(self).regs(),
            final(self).callbacks() == old(self).callbacks(),
            final(self).entries() == old(self).entries().update(k as int, final(self).entries()[k as int]),
            stamped(final(self).entries()[k as int], old(self).regs()[k as int].0),
    {
        let p = self.pops[k];
        let ghost before = self.reg_blds@;
        let rb = self.reg_blds.remove(k);
        let RegBld { id, lbls, ben_blds: _ } = rb;
        let mut fresh = RegBld { id, lbls, ben_blds: Vec::new() };
        fresh.ins_ben_blds(p);
        proof {
            let bs = choose|bs: Seq<BenBld<L, F>>|
                fresh.ben_blds@ == Seq::<BenBld<L, F>>::empty() + #[trigger] restamped(bs, id);
            assert(fresh.ben_blds@ =~= restamped(bs, id));
        }
        self.reg_blds.insert(k, fresh);
        assert(self.reg_blds@ =~= before.update(k as int, fresh));
        assert(self.regs() =~= old(self).regs());
        assert(self.entries() =~= old(self).entries().update(k as int, fresh.ben_blds@));
        assert forall|i: int, j: int|
            0 <= i < self.reg_blds@.len() && 0 <= j < self.reg_blds@[i].ben_blds@.len() implies (
            #[trigger] self.reg_blds@[i].ben_blds@[j]).reg_id == self.reg_blds@[i].id by {
            if i != k {
                assert(self.reg_blds@[i] == old(self).reg_blds@[i]);
            }
        }
    }

    /// Whether a selection of `qry` reads registration `id`.
    fn references(qry: &QryBld<L>, id: u64) -> (r: bool)
        ensures
            r == sel_reg_ids(qry.sels()).contains(id),
    {
        let mut s: usize = 0;
        while s < qry.sel_blds.len()
            invariant
                s <= qry.sel_blds@.len(),
                forall|j: int| 0 <= j < s ==> sel_reg_ids(qry.sels())[j] != id,
            decreases qry.sel_blds@.len() - s,
        {
            let rid = qry.sel_blds[s].reg_id();
            assert(qry.sels()[s as int].0 == qry.sel_blds@[s as int].lbls@);
            if rid == id {
                assert(sel_reg_ids(qry.sels())[s as int] == id);
                return true;
            }
            s = s + 1;
        }
        false
    }

    /// Calls, once each, the population callback of every registration that
    /// `qry` uses, on a fresh handle; each such registration's entries become
    /// what its callback inserted. Other registrations are left as they are.
    pub fn populate(&mut self, qry: &QryBld<L>)
        requires
            old(self).wf(),
        ensures
            final(self).wf(),
            final(self).regs() == old(self).regs(),
            final(self).callbacks() == old(self).callbacks(),
            forall|i: int|
                0 <= i < old(self).regs().len() ==> if sel_reg_ids(qry.sels()).contains(
                    old(self).regs()[i].0,
                ) {
                    stamped(final(self).entries()[i], old(self).regs()[i].0)
                } else {
                    final(self).entries()[i] == old(self).entries()[i]
                },
    {
        let ghost regs0 = self.regs();
        let ghost ents0 = self.entries();
        let mut i: usize = 0;
        while i < self.reg_blds.len()
            invariant
                self.wf(),
                self.regs() == regs0,
                self.callbacks() == old(self).callbacks(),
                regs0 == old(self).regs(),
                ents0 == old(self).entries(),
                i <= regs0.len(),
                self.entries().len() == regs0.len(),
                forall|j: int|
                    0 <= j < regs0.len() ==> if j < i && sel_reg_ids(qry.sels()).contains(regs0[j].0) {
                        stamped(#[trigger] self.entries()[j], regs0[j].0)
                    } else {
                        self.entries()[j] == ents0[j]
                    },
            decreases regs0.len() - i,
        {
            let id = self.reg_blds[i].id;
            assert(id == regs0[i as int].0);
            if Self::references(qry, id) {
                let ghost mid = self.entries();
                self.repopulate(i);
                proof {
                    assert forall|j: int| 0 <= j < regs0.len() && j != i implies self.entries()[j] == mid[j] by {}
                }
            }
            i = i + 1;
        }
    }

    /// Takes the entries of registration `k` out, leaving it without entries.
    fn drain(&mut self, k: usize) -> (r: Vec<BenBld<L, F>>)
        requires
            old(self).wf(),
            k < old(self).reg_blds@.len(),
        ensures
            final(self).wf(),
            final(self).regs() == old(self).regs(),
            final(self).callbacks() == old(self).callbacks(),
            final(self).entries() == old(self).entries().update(k as int, Seq::<BenBld<L, F>>::empty()),
            r@ == old(self).entries()[k as int],
    {
        let ghost before = self.reg_blds@;
        let rb = self.reg_blds.remove(k);
        let RegBld { id, lbls, ben_blds } = rb;
        let empty = RegBld { id, lbls, ben_blds: Vec::new() };
        self.reg_blds.insert(k, empty);
        assert(self.reg_blds@ =~= before.update(k as int, empty));
        assert(self.regs() =~= old(self).regs());
        assert(self.entries() =~= old(self).entries().update(k as int, Seq::<BenBld<L, F>>::empty()));
        assert forall|i: int, j: int|
            0 <= i < self.reg_blds@.len() && 0 <= j < self.reg_blds@[i].ben_blds@.len() implies (
            #[trigger] self.reg_blds@[i].ben_blds@[j]).reg_id == self.reg_blds@[i].id by {
            assert(i != k);
            assert(self.reg_blds@[i] == old(self).reg_blds@[i]);
        }
        ben_blds
    }

    /// Plans a run of `qry` with `itr` iterations from the registrations'
    /// current entries: every selection's registration must exist, the
    /// iteration count must not be zero, and every used registration must
    /// hold entries of one label kind. On success the used registrations give
    /// up their entries, in order of first reference, as the run's tasks; on
    /// failure nothing changes.
    pub fn plan(&mut self, qry: &QryBld<L>, itr: u16) -> (r: Result<Plan<L, F>, BenErr<L>>)
        requires
            old(self).wf(),
        ensures
            final(self).wf(),
            final(self).regs() == old(self).regs(),
            final(self).callbacks() == old(self).callbacks(),
            r matches Err(BenErr::MissingRegistration(_)) <==> exists|s: int|
                0 <= s < qry.sels().len() && !registered(
                    old(self).regs(),
                    seq_hash(#[trigger] qry.sels()[s].0),
                ),
            r matches Err(BenErr::MissingRegistration(v)) ==> exists|s: int|
                0 <= s < qry.sels().len() && v@ == (#[trigger] qry.sels()[s]).0 && !registered(
                    old(self).regs(),
                    seq_hash(qry.sels()[s].0),
                ),
            r matches Err(BenErr::ZeroIterations) <==> (itr == 0 && forall|s: int|
                0 <= s < qry.sels().len() ==> registered(
                    old(self).regs(),
                    seq_hash(#[trigger] qry.sels()[s].0),
                )),
            r is Ok <==> {
                &&& itr > 0
                &&& forall|s: int|
                    0 <= s < qry.sels().len() ==> registered(
                        old(self).regs(),
                        seq_hash(#[trigger] qry.sels()[s].0),
                    )
                &&& forall|q: int|
                    0 <= q < used_ids(qry.sels()).len() ==> entries_ok(
                        old(self).entries()[pos_of(old(self).regs(), #[trigger] used_ids(qry.sels())[q])],
                    )
            },
            r matches Err(BenErr::EmptyBenchmarks(v)) ==> exists|q: int|
                0 <= q < used_ids(qry.sels()).len() && v@ == old(self).regs()[pos_of(
                    old(self).regs(),
                    #[trigger] used_ids(qry.sels())[q],
                )].1 && old(self).entries()[pos_of(old(self).regs(), used_ids(qry.sels())[q])].len()
                    == 0,
            r matches Err(BenErr::InconsistentLabels(v)) ==> exists|q: int|
                0 <= q < used_ids(qry.sels()).len() && v@ == old(self).regs()[pos_of(
                    old(self).regs(),
                    #[trigger] used_ids(qry.sels())[q],
                )].1 && old(self).entries()[pos_of(old(self).regs(), used_ids(qry.sels())[q])].len()
                    > 0 && !uniform(
                    old(self).entries()[pos_of(old(self).regs(), used_ids(qry.sels())[q])],
                ),
            r matches Err(e) ==> (e is ZeroIterations || e is MissingRegistration
                || e is EmptyBenchmarks || e is InconsistentLabels),
            r is Err ==> final(self).entries() == old(self).entries(),
            r matches Ok(p) ==> {
                &&& p.itr == itr
                &&& grp_ids(p.grps@) == used_ids(qry.sels())
                &&& grp_ids(p.grps@).no_duplicates()
                &&& forall|k: int|
                    0 <= k < p.grps@.len() ==> (#[trigger] p.grps@[k]).n == old(self).entries()[pos_of(
                        old(self).regs(),
                        p.grps@[k].reg_id,
                    )].len() && p.grps@[k].lbls@ == old(self).regs()[pos_of(
                        old(self).regs(),
                        p.grps@[k].reg_id,
                    )].1
                &&& p.tasks@ == gathered(old(self).entries(), old(self).regs(), used_ids(qry.sels()))
                &&& forall|i: int|
                    0 <= i < old(self).regs().len() ==> (#[trigger] final(self).entries()[i]) == if used_ids(
                        qry.sels(),
                    ).contains(old(self).regs()[i].0) {
                        Seq::<BenBld<L, F>>::empty()
                    } else {
                        old(self).entries()[i]
                    }
            },
    {
        let ghost regs0 = self.regs();
        let ghost ents0 = self.entries();
        let ghost used = used_ids(qry.sels());
        let (ids, idxs) = match self.pick(qry) {
            Err(e) => {
                return Err(e);
            },
            Ok(x) => x,
        };
        proof {
            crate::label::lemma_distinct(sel_reg_ids(qry.sels()));
            assert forall|q: int| 0 <= q < idxs@.len() implies (#[trigger] idxs@[q]) == pos_of(
                regs0,
                ids@[q],
            ) by {
                let k = idxs@[q] as int;
                assert forall|j: int| 0 <= j < k implies (#[trigger] regs0[j]).0 != ids@[q] by {
                    assert(regs0[j].0 == self.reg_blds@[j].id);
                }
                lemma_pos_of(regs0, ids@[q], k);
            }
        }
        assert(forall|s: int|
            0 <= s < qry.sels().len() ==> registered(regs0, seq_hash(#[trigger] qry.sels()[s].0)));
        if itr == 0 {
            return Err(BenErr::ZeroIterations);
        }
        let mut q: usize = 0;
        while q < ids.len()
            invariant
                itr > 0,
                forall|s: int|
                    0 <= s < qry.sels().len() ==> registered(regs0, seq_hash(#[trigger] qry.sels()[s].0)),
                self.wf(),
                self.regs() == regs0,
                self.entries() == ents0,
                regs0 == old(self).regs(),
                ents0 == old(self).entries(),
                ids@ == used,
                idxs@.len() == ids@.len(),
                forall|w: int|
                    0 <= w < idxs@.len() ==> (#[trigger] idxs@[w]) < self.reg_blds@.len()
                        && self.reg_blds@[idxs@[w] as int].id == ids@[w] && idxs@[w] == pos_of(
                        regs0,
                        ids@[w],
                    ),
                q <= ids@.len(),
                used == used_ids(qry.sels()),
                forall|w: int|
                    0 <= w < q ==> entries_ok(ents0[pos_of(regs0, #[trigger] used_ids(qry.sels())[w])]),
            decreases ids@.len() - q,
        {
            let k = idxs[q];
            match check_entries(&self.reg_blds[k].lbls, &self.reg_blds[k].ben_blds) {
                Err(e) => {
                    assert(ents0[k as int] == self.reg_blds@[k as int].ben_blds@);
                    assert(regs0[k as int].1 == self.reg_blds@[k as int].lbls@);
                    assert(used_ids(qry.sels())[q as int] == ids@[q as int]);
                    assert(!entries_ok(ents0[pos_of(regs0, used_ids(qry.sels())[q as int])]));
                    return Err(e);
                },
                Ok(()) => {},
            }
            assert(ents0[k as int] == self.reg_blds@[k as int].ben_blds@);
            q = q + 1;
        }
        let mut tasks: Vec<BenBld<L, F>> = Vec::new();
        let mut grps: Vec<Grp<L>> = Vec::new();
        let mut q: usize = 0;
        assert(grp_ids(grps@) =~= ids@.subrange(0, 0));
        assert(tasks@ =~= gathered(ents0, regs0, ids@.subrange(0, 0)));
        assert forall|i: int| 0 <= i < regs0.len() implies (#[trigger] self.entries()[i]) == if ids@.subrange(
            0,
            0,
        ).contains(regs0[i].0) {
            Seq::<BenBld<L, F>>::empty()
        } else {
            ents0[i]
        } by {}
        while q < ids.len()
            invariant
                self.wf(),
                self.regs() == regs0,
                self.callbacks() == old(self).callbacks(),
                regs0 == old(self).regs(),
                ents0 == old(self).entries(),
                itr > 0,
                ids@ == used,
                used.no_duplicates(),
                idxs@.len() == ids@.len(),
                forall|w: int|
                    0 <= w < idxs@.len() ==> (#[trigger] idxs@[w]) < regs0.len() && regs0[idxs@[w] as int].0
                        == ids@[w] && idxs@[w] == pos_of(regs0, ids@[w]),
                forall|a: int, b: int| 0 <= a < b < regs0.len() ==> regs0[a].0 != regs0[b].0,
                q <= ids@.len(),
                tasks@ == gathered(ents0, regs0, ids@.subrange(0, q as int)),
                grp_ids(grps@) == ids@.subrange(0, q as int),
                forall|k: int|
                    0 <= k < q ==> (#[trigger] grps@[k]).n == ents0[idxs@[k] as int].len()
                        && grps@[k].lbls@ == regs0[idxs@[k] as int].1,
                forall|i: int|
                    0 <= i < regs0.len() ==> (#[trigger] self.entries()[i]) == if ids@.subrange(
                        0,
                        q as int,
                    ).contains(regs0[i].0) {
                        Seq::<BenBld<L, F>>::empty()
                    } else {
                        ents0[i]
                    },
            decreases ids@.len() - q,
        {
            let k = idxs[q];
            let ghost pre = ids@.subrange(0, q as int);
            assert(!pre.contains(ids@[q as int])) by {
                if pre.contains(ids@[q as int]) {
                    let w = choose|w: int| 0 <= w < pre.len() && pre[w] == ids@[q as int];
                    assert(ids@[w] == ids@[q as int]);
                }
            }
            assert(self.entries()[k as int] == ents0[k as int]);
            let id = self.reg_blds[k].id;
            assert(id == self.regs()[k as int].0);
            let lbls = copy_lbls(self.reg_blds[k].lbls.as_slice());
            assert(lbls@ == regs0[k as int].1);
            let ghost mid = self.entries();
            let mut entries = self.drain(k);
            let ghost got = entries@;
            let ghost base = tasks@;
            let n = entries.len();
            while entries.len() > 0
                invariant
                    n == got.len(),
                    entries@.len() <= n,
                    tasks@ == base + got.subrange(0, n - entries@.len()),
                    entries@ == got.subrange(n - entries@.len(), n as int),
                decreases entries@.len(),
            {
                let b = entries.remove(0);
                tasks.push(b);
                assert(got.subrange(0, n - entries@.len()) =~= got.subrange(
                    0,
                    n - entries@.len() - 1,
                ).push(b));
                assert(entries@ =~= got.subrange(n - entries@.len(), n as int));
            }
            assert(got.subrange(0, n as int) =~= got);
            let g = Grp { reg_id: id, lbls, n };
            let ghost gs0 = grps@;
            assert(gs0.len() == q);
            grps.push(g);
            proof {
                let nxt = ids@.subrange(0, q + 1);
                assert(nxt.drop_last() =~= pre);
                assert(nxt.last() == ids@[q as int]);
                assert(tasks@ =~= gathered(ents0, regs0, nxt));
                assert forall|i: int| 0 <= i < q + 1 implies grp_ids(grps@)[i] == nxt[i] by {
                    if i < q {
                        assert(grps@[i] == gs0[i]);
                        assert(grp_ids(gs0)[i] == pre[i]);
                    }
                }
                assert(grp_ids(grps@) =~= nxt);
                assert forall|kk: int| 0 <= kk < q + 1 implies (#[trigger] grps@[kk]).n
                    == ents0[idxs@[kk] as int].len() && grps@[kk].lbls@ == regs0[idxs@[kk] as int].1 by {
                    if kk < q {
                        assert(grps@[kk] == gs0[kk]);
                    }
                }
                assert forall|i: int| 0 <= i < regs0.len() implies (#[trigger] self.entries()[i]) == if nxt.contains(
                    regs0[i].0,
                ) {
                    Seq::<BenBld<L, F>>::empty()
                } else {
                    ents0[i]
                } by {
                    assert(nxt.contains(regs0[i].0) <==> (pre.contains(regs0[i].0) || regs0[i].0
                        == ids@[q as int])) by {
                        vstd::seq_lib::lemma_seq_contains_after_push(pre, ids@[q as int], regs0[i].0);
                        assert(nxt =~= pre.push(ids@[q as int]));
                    }
                    if i != k {
                        assert(self.entries()[i] == mid[i]);
                        assert(regs0[i].0 != regs0[k as int].0);
                    }
                }
            }
            q = q + 1;
        }
        proof {
            assert(ids@.subrange(0, ids@.len() as int) =~= ids@);
            assert forall|kk: int| 0 <= kk < grps@.len() implies (#[trigger] grps@[kk]).n
                == ents0[pos_of(regs0, grps@[kk].reg_id)].len() && grps@[kk].lbls@ == regs0[pos_of(
                regs0,
                grps@[kk].reg_id,
            )].1 by {
                assert(grp_ids(grps@)[kk] == ids@[kk]);
            }
        }
        Ok(Plan { itr, tasks, grps })
    }
}

} // verus!

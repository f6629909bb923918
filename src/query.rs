//! Declarative queries: selections (label set and statistic) and
//! comparisons (ordered pairs of selections). Nothing runs here.
use vstd::prelude::*;
use crate::ident::{hash_lbls, mix, mix_word, sel_id_of, seq_hash};
use crate::label::{Label, lemma_normalize_idempotent, lemma_normalized_members, normalized, same_members, unq_srt};
use crate::stats::Sta;

verus! {

/// A selection request: a canonical label set and a statistic.
pub struct SelBld<L> {
    pub lbls: Vec<L>,
    pub sta: Sta,
}

/// The identity of a selection, given its canonical labels and statistic.
pub open spec fn sel_key<L: Label>(s: (Seq<L>, Sta)) -> u64 {
    mix(seq_hash(s.0), s.1.spec_code())
}

/// The selections after adding `s`: unchanged when one with the same
/// identity is there already, else `s` appended.
pub open spec fn add_selection<L: Label>(ss: Seq<(Seq<L>, Sta)>, s: (Seq<L>, Sta)) -> Seq<
    (Seq<L>, Sta),
> {
    if exists|i: int| 0 <= i < ss.len() && sel_key(#[trigger] ss[i]) == sel_key(s) {
        ss
    } else {
        ss.push(s)
    }
}

impl<L: Label> SelBld<L> {
    pub open spec fn view_pair(&self) -> (Seq<L>, Sta) {
        (self.lbls@, self.sta)
    }

    pub fn new(lbls: &[L], sta: Sta) -> (r: Self)
        ensures
            r.lbls@ == normalized(lbls@),
            r.sta == sta,
    {
        SelBld { lbls: unq_srt(lbls), sta }
    }

    /// Hash id for selection `labels` and `statistic`.
    pub fn id(&self) -> (r: u64)
        ensures
            r == sel_key(self.view_pair()),
    {
        mix_word(hash_lbls(&self.lbls), self.sta.code())
    }

    /// Hash id for selection `labels`: the identity of the registration it reads.
    pub fn reg_id(&self) -> (r: u64)
        ensures
            r == seq_hash(self.lbls@),
    {
        hash_lbls(&self.lbls)
    }
}

/// A comparison request between two selections, by identity.
#[derive(Debug, Clone, Copy, PartialEq, Eq, Structural)]
pub struct CmpBld {
    pub a_sel_id: u64,
    pub b_sel_id: u64,
}

impl CmpBld {
    pub fn new(a_sel_id: u64, b_sel_id: u64) -> (r: Self)
        ensures
            r.a_sel_id == a_sel_id,
            r.b_sel_id == b_sel_id,
    {
        CmpBld { a_sel_id, b_sel_id }
    }
}

/// A query under construction: selections, deduplicated by identity and
/// kept in the order first declared, and comparisons in declaration order.
pub struct QryBld<L> {
    pub sel_blds: Vec<SelBld<L>>,
    pub cmp_blds: Vec<CmpBld>,
}

impl<L: Label> QryBld<L> {
    /// The selections as label sequences with statistics.
    pub open spec fn sels(&self) -> Seq<(Seq<L>, Sta)> {
        Seq::new(self.sel_blds@.len(), |i: int| self.sel_blds@[i].view_pair())
    }

    pub fn new() -> (r: Self)
        ensures
            r.sels().len() == 0,
            r.cmp_blds@.len() == 0,
    {
        QryBld { sel_blds: Vec::new(), cmp_blds: Vec::new() }
    }

    /// Selects the labels with the median statistic; returns the selection's identity.
    pub fn sel(&mut self, lbls: &[L]) -> (r: u64)
        ensures
            r == sel_id_of(lbls@, Sta::Mdn),
            final(self).sels() == add_selection(old(self).sels(), (normalized(lbls@), Sta::Mdn)),
            final(self).cmp_blds@ == old(self).cmp_blds@,
    {
        self.sel_sta(lbls, Sta::Mdn)
    }

    /// Selects the labels with statistic `sta`; returns the selection's identity.
    pub fn sel_sta(&mut self, lbls: &[L], sta: Sta) -> (r: u64)
        ensures
            r == sel_id_of(lbls@, sta),
            final(self).sels() == add_selection(old(self).sels(), (normalized(lbls@), sta)),
            final(self).cmp_blds@ == old(self).cmp_blds@,
    {
        let sel = SelBld::new(lbls, sta);
        let sel_id = sel.id();
        let ghost ss = old(self).sels();
        let mut found = false;
        let mut i: usize = 0;
        while i < self.sel_blds.len()
            invariant
                i <= self.sel_blds@.len(),
                self.sels() == ss,
                sel_id == sel_key(sel.view_pair()),
                found <==> exists|j: int| 0 <= j < i && sel_key(#[trigger] ss[j]) == sel_id,
            decreases self.sel_blds@.len() - i,
        {
            let id = self.sel_blds[i].id();
            if id == sel_id {
                found = true;
            }
            assert(ss[i as int] == self.sel_blds@[i as int].view_pair());
            i = i + 1;
        }
        if !found {
            self.sel_blds.push(sel);
            assert(self.sels() =~= ss.push((normalized(lbls@), sta)));
        }
        proof {
            lemma_normalize_idempotent(lbls@);
        }
        sel_id
    }

    /// Appends a comparison of two selections; identities are checked when the query runs.
    pub fn cmp(&mut self, a_sel_id: u64, b_sel_id: u64)
        ensures
            final(self).cmp_blds@ == old(self).cmp_blds@.push(CmpBld { a_sel_id, b_sel_id }),
            final(self).sels() == old(self).sels(),
    {
        let c = CmpBld::new(a_sel_id, b_sel_id);
        self.cmp_blds.push(c);
        assert(self.sels() =~= old(self).sels());
    }
}

/// Selections of the same labels, in any order and with any repetition, and
/// the same statistic have the same identity; and adding the second to any
/// query that holds the first changes nothing.
pub proof fn lemma_select_twice<L: Label>(ss: Seq<(Seq<L>, Sta)>, a: Seq<L>, b: Seq<L>, sta: Sta)
    requires
        same_members(a, b),
    ensures
        sel_id_of(a, sta) == sel_id_of(b, sta),
        add_selection(add_selection(ss, (normalized(a), sta)), (normalized(b), sta))
            == add_selection(ss, (normalized(a), sta)),
{
    lemma_normalized_members(a, b);
    let once = add_selection(ss, (normalized(a), sta));
    if !(exists|i: int| 0 <= i < ss.len() && sel_key(#[trigger] ss[i]) == sel_key((normalized(a), sta))) {
        assert(sel_key(once[ss.len() as int]) == sel_key((normalized(b), sta)));
    }
}

} // verus!

//! Content-addressed identities of label sets and selections.
//!
//! An identity is a 64-bit FNV-1a style hash over the ranks of the canonical
//! label sequence, one 64-bit word per label; a selection mixes in the code
//! of its statistic. It depends on nothing but the labels and the statistic,
//! so it is the same in every run and on every machine.
use vstd::prelude::*;
use crate::label::{Label, normalized};
use crate::stats::Sta;

verus! {

/// The hash value before any word is mixed in.
pub const ID_SEED: u64 = 0xcbf2_9ce4_8422_2325;

/// The multiplier applied after each word.
pub const ID_PRIME: u64 = 0x0000_0100_0000_01b3;

/// Mixes one word into the hash: exclusive or, then multiply modulo 2^64.
pub open spec fn mix(h: u64, w: u64) -> u64 {
    ((h ^ w) as nat * ID_PRIME as nat % 0x1_0000_0000_0000_0000) as u64
}

/// The hash of a sequence of words, mixed in from first to last.
pub open spec fn fold_mix(ws: Seq<u64>) -> u64
    decreases ws.len(),
{
    if ws.len() == 0 {
        ID_SEED
    } else {
        mix(fold_mix(ws.drop_last()), ws.last())
    }
}

/// The ranks of the labels, in order.
pub open spec fn ranks_of<L: Label>(s: Seq<L>) -> Seq<u64> {
    Seq::new(s.len(), |i: int| s[i].rank())
}

/// The hash of a label sequence as it stands.
pub open spec fn seq_hash<L: Label>(s: Seq<L>) -> u64 {
    fold_mix(ranks_of(s))
}

/// The identity of a registration of label set `lbls`.
pub open spec fn reg_id_of<L: Label>(lbls: Seq<L>) -> u64 {
    seq_hash(normalized(lbls))
}

/// The identity of a selection of label set `lbls` with statistic `sta`.
pub open spec fn sel_id_of<L: Label>(lbls: Seq<L>, sta: Sta) -> u64 {
    mix(reg_id_of(lbls), sta.spec_code())
}

pub(crate) fn mix_word(h: u64, w: u64) -> (r: u64)
    ensures
        r == mix(h, w),
{
    (h ^ w).wrapping_mul(ID_PRIME)
}

/// Hashes the labels in the order given.
pub(crate) fn hash_lbls<L: Label>(lbls: &Vec<L>) -> (r: u64)
    ensures
        r == seq_hash(lbls@),
{
    let mut h: u64 = ID_SEED;
    let mut i: usize = 0;
    while i < lbls.len()
        invariant
            i <= lbls@.len(),
            h == fold_mix(ranks_of(lbls@.subrange(0, i as int))),
        decreases lbls@.len() - i,
    {
        let k = lbls[i].key();
        proof {
            let q = ranks_of(lbls@.subrange(0, i + 1));
            assert(q.drop_last() =~= ranks_of(lbls@.subrange(0, i as int)));
            assert(q.last() == k);
        }
        h = mix_word(h, k);
        i = i + 1;
    }
    assert(lbls@.subrange(0, lbls@.len() as int) =~= lbls@);
    h
}

} // verus!

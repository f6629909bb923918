//! Labels: the capability a caller's label type provides, and the canonical
//! form (duplicates removed, ordered by rank) that label sets take.
use vstd::prelude::*;
use vstd::relations::{sorted_by, total_ordering};
use vstd::seq_lib::{group_to_multiset_ensures, lemma_sorted_unique};

verus! {

/// The error of a payload request on a label kind that carries no payload.
#[derive(Debug, Clone, Copy, PartialEq, Eq)]
pub struct NoPayload;

/// Access to the number that a data-carrying label variant holds,
/// e.g. `Len(3)` holds `3`.
pub trait EnumStructVal {
    /// The payload of this label, if its kind carries one.
    spec fn payload(&self) -> Option<u32>;

    /// Returns the payload, or `NoPayload` for a kind without one.
    fn val(&self) -> (r: Result<u32, NoPayload>)
        ensures
            self.payload() matches Some(v) ==> r == Ok::<u32, NoPayload>(v),
            self.payload() is None ==> r is Err,
    ;
}

/// A label used to group, select and order benchmark functions.
///
/// Labels are totally ordered by `rank`, which is injective, and each label
/// has a `kind` (its variant tag) that does not depend on its payload.
pub trait Label: Copy + EnumStructVal {
    /// Position of the label in the total order of labels.
    spec fn rank(&self) -> u64;

    /// The variant tag of the label.
    spec fn kind_of(&self) -> u32;

    /// The label as shown to a reader, e.g. `len(16)`.
    spec fn shown(&self) -> Seq<char>;

    /// The label's kind as shown to a reader, e.g. `len`.
    spec fn shown_kind(&self) -> Seq<char>;

    /// Distinct labels have distinct ranks.
    proof fn lemma_rank_injective(a: Self, b: Self)
        ensures
            a.rank() == b.rank() ==> a == b,
    ;

    fn key(&self) -> (r: u64)
        ensures
            r == self.rank(),
    ;

    fn kind(&self) -> (r: u32)
        ensures
            r == self.kind_of(),
    ;

    fn text(&self) -> (r: String)
        ensures
            r@ == self.shown(),
    ;

    fn kind_text(&self) -> (r: String)
        ensures
            r@ == self.shown_kind(),
    ;
}

/// The order of labels by rank.
pub open spec fn by_rank<L: Label>() -> spec_fn(L, L) -> bool {
    |a: L, b: L| a.rank() <= b.rank()
}

/// Ranks strictly ascend along `s`.
pub open spec fn increasing<L: Label>(s: Seq<L>) -> bool {
    forall|i: int, j: int| 0 <= i < j < s.len() ==> s[i].rank() < s[j].rank()
}

/// `a` and `b` hold the same elements, regardless of order and repetition.
pub open spec fn same_members<A>(a: Seq<A>, b: Seq<A>) -> bool {
    forall|x: A| a.contains(x) <==> b.contains(x)
}

/// The first occurrence of each element of `s`, in order.
pub open spec fn distinct<A>(s: Seq<A>) -> Seq<A>
    decreases s.len(),
{
    if s.len() == 0 {
        s
    } else {
        let d = distinct(s.drop_last());
        if d.contains(s.last()) {
            d
        } else {
            d.push(s.last())
        }
    }
}

/// The canonical form of a label set: duplicates removed, sorted by rank.
pub open spec fn normalized<L: Label>(s: Seq<L>) -> Seq<L> {
    distinct(s).sort_by(by_rank::<L>())
}

/// Position of the first label of kind `k` in `s`; `s.len()` when there is none.
pub open spec fn kind_index<L: Label>(s: Seq<L>, k: u32) -> int
    decreases s.len(),
{
    if s.len() == 0 {
        0
    } else if s[0].kind_of() == k {
        0
    } else {
        1 + kind_index(s.drop_first(), k)
    }
}

pub proof fn lemma_by_rank_total<L: Label>()
    ensures
        total_ordering(by_rank::<L>()),
{
    assert forall|a: L, b: L|
        #[trigger] by_rank::<L>()(a, b) && #[trigger] by_rank::<L>()(b, a) implies a == b by {
        L::lemma_rank_injective(a, b);
    }
}

pub proof fn lemma_distinct<A>(s: Seq<A>)
    ensures
        distinct(s).no_duplicates(),
        same_members(distinct(s), s),
    decreases s.len(),
{
    broadcast use vstd::seq_lib::group_seq_properties;

    if s.len() > 0 {
        let p = s.drop_last();
        let d = distinct(p);
        lemma_distinct(p);
        assert(s =~= p.push(s.last()));
        assert forall|x: A| distinct(s).contains(x) <==> s.contains(x) by {
            assert(s.contains(x) <==> p.push(s.last()).contains(x));
            if !d.contains(s.last()) {
                assert(distinct(s).contains(x) <==> d.push(s.last()).contains(x));
            }
        }
    }
}

proof fn lemma_increasing_no_duplicates<L: Label>(s: Seq<L>)
    requires
        increasing(s),
    ensures
        s.no_duplicates(),
{
}

proof fn lemma_same_multiset<A>(a: Seq<A>, b: Seq<A>)
    requires
        a.no_duplicates(),
        b.no_duplicates(),
        same_members(a, b),
    ensures
        a.to_multiset() == b.to_multiset(),
{
    broadcast use group_to_multiset_ensures;

    a.lemma_multiset_has_no_duplicates();
    b.lemma_multiset_has_no_duplicates();
    assert forall|x: A| a.to_multiset().count(x) == b.to_multiset().count(x) by {
        if a.contains(x) {
            assert(a.to_multiset().contains(x));
            assert(b.to_multiset().contains(x));
        }
    }
    assert(a.to_multiset() =~= b.to_multiset());
}

/// The canonical form ascends strictly by rank and holds exactly the labels of `s`.
pub proof fn lemma_normalized<L: Label>(s: Seq<L>)
    ensures
        increasing(normalized(s)),
        same_members(normalized(s), s),
{
    broadcast use group_to_multiset_ensures;

    lemma_by_rank_total::<L>();
    lemma_distinct(s);
    let d = distinct(s);
    let n = normalized(s);
    d.lemma_sort_by_ensures(by_rank::<L>());
    assert forall|x: L| n.contains(x) <==> d.contains(x) by {
        assert(n.to_multiset().count(x) == d.to_multiset().count(x));
    }
    d.lemma_multiset_has_no_duplicates();
    assert forall|x: L| n.to_multiset().contains(x) implies n.to_multiset().count(x) == 1 by {
        assert(d.to_multiset().contains(x));
    }
    n.lemma_multiset_has_no_duplicates_conv();
    assert forall|i: int, j: int| 0 <= i < j < n.len() implies n[i].rank() < n[j].rank() by {
        assert(by_rank::<L>()(n[i], n[j]));
        L::lemma_rank_injective(n[i], n[j]);
    }
}

/// Two strictly rank-ascending sequences with the same labels are equal.
pub proof fn lemma_increasing_unique<L: Label>(a: Seq<L>, b: Seq<L>)
    requires
        increasing(a),
        increasing(b),
        same_members(a, b),
    ensures
        a == b,
{
    lemma_by_rank_total::<L>();
    lemma_increasing_no_duplicates(a);
    lemma_increasing_no_duplicates(b);
    lemma_same_multiset(a, b);
    assert(sorted_by(a, by_rank::<L>()));
    assert(sorted_by(b, by_rank::<L>()));
    lemma_sorted_unique(a, b, by_rank::<L>());
}

/// Label sets with the same labels have the same canonical form.
pub proof fn lemma_normalized_members<L: Label>(a: Seq<L>, b: Seq<L>)
    requires
        same_members(a, b),
    ensures
        normalized(a) == normalized(b),
{
    lemma_normalized(a);
    lemma_normalized(b);
    lemma_increasing_unique(normalized(a), normalized(b));
}

/// Normalising is idempotent: the canonical form of a canonical form is itself.
pub proof fn lemma_normalize_idempotent<L: Label>(s: Seq<L>)
    ensures
        normalized(normalized(s)) == normalized(s),
{
    lemma_normalized(s);
    lemma_normalized(normalized(s));
    lemma_increasing_unique(normalized(normalized(s)), normalized(s));
}

/// Normalising ignores order: two arrangements of the same labels, with the
/// same repetitions, normalise identically.
pub proof fn lemma_normalize_order_free<L: Label>(a: Seq<L>, b: Seq<L>)
    requires
        a.to_multiset() == b.to_multiset(),
    ensures
        normalized(a) == normalized(b),
{
    broadcast use group_to_multiset_ensures;

    assert forall|x: L| a.contains(x) <==> b.contains(x) by {
        assert(a.to_multiset().count(x) == b.to_multiset().count(x));
        assert(a.contains(x) <==> a.to_multiset().count(x) > 0);
        assert(b.contains(x) <==> b.to_multiset().count(x) > 0);
    }
    lemma_normalized_members(a, b);
}

/// Returns a unique and sorted list of labels.
pub fn unq_srt<L: Label>(lbls: &[L]) -> (r: Vec<L>)
    ensures
        r@ == normalized(lbls@),
{
    let mut out: Vec<L> = Vec::new();
    let n = lbls.len();
    let mut i: usize = 0;
    while i < n
        invariant
            n == lbls@.len(),
            i <= n,
            increasing(out@),
            same_members(out@, lbls@.subrange(0, i as int)),
        decreases n - i,
    {
        let x = lbls[i];
        let k = x.key();
        let mut p: usize = 0;
        while p < out.len() && out[p].key() < k
            invariant
                p <= out@.len(),
                k == x.rank(),
                forall|j: int| 0 <= j < p ==> out@[j].rank() < k,
            decreases out@.len() - p,
        {
            p = p + 1;
        }
        let ghost prev = out@;
        let ghost upto = lbls@.subrange(0, i as int);
        assert(lbls@.subrange(0, i + 1) =~= upto.push(x));
        if p < out.len() && out[p].key() == k {
            proof {
                L::lemma_rank_injective(prev[p as int], x);
                assert forall|y: L| prev.contains(y) <==> upto.push(x).contains(y) by {
                    vstd::seq_lib::lemma_seq_contains_after_push(upto, x, y);
                    if y == x {
                        assert(prev[p as int] == y);
                    }
                }
            }
        } else {
            out.insert(p, x);
            proof {
                assert forall|a: int, b: int| 0 <= a < b < out@.len() implies out@[a].rank()
                    < out@[b].rank() by {
                    if p < prev.len() {
                        assert(prev[p as int].rank() > k);
                    }
                    if a < p && b > p {
                        assert(out@[a] == prev[a]);
                        assert(out@[b] == prev[b - 1]);
                        if p < prev.len() {
                            assert(prev[p as int].rank() <= prev[b - 1].rank());
                        }
                    }
                }
                assert forall|y: L| out@.contains(y) <==> upto.push(x).contains(y) by {
                    vstd::seq_lib::lemma_seq_contains_after_push(upto, x, y);
                    if out@.contains(y) && y != x {
                        let j = choose|j: int| 0 <= j < out@.len() && out@[j] == y;
                        if j < p {
                            assert(prev[j] == y);
                        } else {
                            assert(prev[j - 1] == y);
                        }
                        assert(prev.contains(y));
                    }
                    if prev.contains(y) {
                        let j = choose|j: int| 0 <= j < prev.len() && prev[j] == y;
                        if j < p {
                            assert(out@[j] == y);
                        } else {
                            assert(out@[j + 1] == y);
                        }
                    }
                    if y == x {
                        assert(out@[p as int] == y);
                    }
                }
            }
        }
        i = i + 1;
    }
    proof {
        assert(lbls@.subrange(0, n as int) =~= lbls@);
        lemma_normalized(lbls@);
        lemma_increasing_unique(out@, normalized(lbls@));
    }
    out
}

/// Merges and returns a unique and sorted list of labels.
pub fn mrg_unq_srt<L: Label>(a: &[L], b: &[L]) -> (r: Vec<L>)
    ensures
        r@ == normalized(a@ + b@),
{
    let mut all: Vec<L> = Vec::new();
    let mut i: usize = 0;
    while i < a.len()
        invariant
            i <= a@.len(),
            all@ == a@.subrange(0, i as int),
        decreases a@.len() - i,
    {
        all.push(a[i]);
        i = i + 1;
    }
    let mut j: usize = 0;
    while j < b.len()
        invariant
            j <= b@.len(),
            all@ == a@ + b@.subrange(0, j as int),
        decreases b@.len() - j,
    {
        all.push(b[j]);
        j = j + 1;
    }
    assert(b@.subrange(0, b@.len() as int) =~= b@);
    unq_srt(all.as_slice())
}

proof fn lemma_kind_index<L: Label>(s: Seq<L>, k: u32, i: int)
    requires
        0 <= i <= s.len(),
        forall|j: int| 0 <= j < i ==> s[j].kind_of() != k,
        i < s.len() ==> s[i].kind_of() == k,
    ensures
        kind_index(s, k) == i,
    decreases i,
{
    if i > 0 {
        assert(s[0].kind_of() != k);
        lemma_kind_index(s.drop_first(), k, i - 1);
    }
}

/// Position of the first label of kind `k`, or the length when none has it.
fn kind_pos<L: Label>(lbls: &[L], k: u32) -> (r: usize)
    ensures
        r == kind_index(lbls@, k),
{
    let mut p: usize = 0;
    while p < lbls.len() && lbls[p].kind() != k
        invariant
            p <= lbls@.len(),
            forall|j: int| 0 <= j < p ==> lbls@[j].kind_of() != k,
        decreases lbls@.len() - p,
    {
        p = p + 1;
    }
    proof {
        lemma_kind_index(lbls@, k, p as int);
    }
    p
}

/// Returns the labels without the first one of the same kind as `l`.
///
/// Useful for data-carrying labels, e.g. `Len(u32)`.
pub fn clone_except<L: Label>(lbls: &[L], l: L) -> (r: Vec<L>)
    ensures
        kind_index(lbls@, l.kind_of()) < lbls@.len() ==> r@ == lbls@.remove(
            kind_index(lbls@, l.kind_of()),
        ),
        kind_index(lbls@, l.kind_of()) >= lbls@.len() ==> r@ == lbls@,
{
    let p = kind_pos(lbls, l.kind());
    let mut out: Vec<L> = Vec::new();
    let mut i: usize = 0;
    while i < lbls.len()
        invariant
            i <= lbls@.len(),
            p == kind_index(lbls@, l.kind_of()),
            i <= p ==> out@ == lbls@.subrange(0, i as int),
            i > p ==> out@ == lbls@.subrange(0, p as int) + lbls@.subrange(p + 1, i as int),
        decreases lbls@.len() - i,
    {
        if i != p {
            out.push(lbls[i]);
        }
        proof {
            if i > p {
                assert(lbls@.subrange(p + 1, i + 1) =~= lbls@.subrange(p + 1, i as int).push(
                    lbls@[i as int],
                ));
            }
            if i == p {
                assert(lbls@.subrange(p + 1, i + 1) =~= Seq::<L>::empty());
            }
        }
        i = i + 1;
    }
    proof {
        if p < lbls@.len() {
            assert(out@ =~= lbls@.remove(p as int));
        } else {
            assert(out@ =~= lbls@);
        }
    }
    out
}

/// Finds the first label of the same kind as `l`.
///
/// Useful for data-carrying labels, e.g. `Len(u32)`.
pub fn find<L: Label>(lbls: &[L], l: L) -> (r: Option<L>)
    ensures
        kind_index(lbls@, l.kind_of()) < lbls@.len() ==> r == Some(
            lbls@[kind_index(lbls@, l.kind_of())],
        ),
        kind_index(lbls@, l.kind_of()) >= lbls@.len() ==> r is None,
{
    let p = kind_pos(lbls, l.kind());
    if p < lbls.len() {
        Some(lbls[p])
    } else {
        None
    }
}

} // verus!

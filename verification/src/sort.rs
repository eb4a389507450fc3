//! Sorting of keyed entries.
use vstd::prelude::*;
use vstd::multiset::Multiset;
use vstd::seq_lib::{lemma_multiset_commutative, to_multiset_build};

verus! {

/// An item `id` with the `key` it is ordered by.
#[derive(Clone, Copy, Debug, PartialEq, Eq, Structural)]
pub struct SortEntry {
    pub key: u64,
    pub id: u32,
}

/// `a` comes no later than `b`: by key first, by id among equal keys.
pub open spec fn entry_le(a: SortEntry, b: SortEntry) -> bool {
    a.key < b.key || (a.key == b.key && a.id <= b.id)
}

/// Every entry comes no later than the entries behind it.
pub open spec fn sorted(s: Seq<SortEntry>) -> bool {
    forall|i: int, j: int| 0 <= i <= j < s.len() ==> entry_le(s[i], s[j])
}

/// Whether `a` comes no later than `b`.
pub fn precedes(a: &SortEntry, b: &SortEntry) -> (r: bool)
    ensures
        r == entry_le(*a, *b),
{
    a.key < b.key || (a.key == b.key && a.id <= b.id)
}

/// Merges two sorted lists into one.
pub fn merge(a: &Vec<SortEntry>, b: &Vec<SortEntry>) -> (out: Vec<SortEntry>)
    requires
        sorted(a@),
        sorted(b@),
        a.len() + b.len() <= usize::MAX,
    ensures
        sorted(out@),
        out@.to_multiset() == a@.to_multiset().add(b@.to_multiset()),
        out.len() == a.len() + b.len(),
{
    let mut out: Vec<SortEntry> = Vec::new();
    let mut i: usize = 0;
    let mut j: usize = 0;
    assert(a@.subrange(0, 0) =~= Seq::<SortEntry>::empty());
    assert(b@.subrange(0, 0) =~= Seq::<SortEntry>::empty());
    assert(Seq::<SortEntry>::empty().to_multiset() =~= Multiset::<SortEntry>::empty()) by {
        broadcast use vstd::seq_lib::group_to_multiset_ensures;

    }
    assert(out@.to_multiset() =~= a@.subrange(0, 0).to_multiset().add(
        b@.subrange(0, 0).to_multiset(),
    ));
    while i < a.len() || j < b.len()
        invariant
            i <= a.len(),
            j <= b.len(),
            out.len() == i + j,
            a.len() + b.len() <= usize::MAX,
            sorted(a@),
            sorted(b@),
            sorted(out@),
            out@.to_multiset() == a@.subrange(0, i as int).to_multiset().add(
                b@.subrange(0, j as int).to_multiset(),
            ),
            forall|k: int|
                0 <= k < out.len() ==> (i < a.len() ==> entry_le(#[trigger] out@[k], a@[i as int]))
                    && (j < b.len() ==> entry_le(out@[k], b@[j as int])),
        decreases a.len() - i + b.len() - j,
    {
        let take_left = if i < a.len() {
            if j < b.len() {
                precedes(&a[i], &b[j])
            } else {
                true
            }
        } else {
            false
        };
        let ghost before = out@;
        if take_left {
            let e = a[i];
            out.push(e);
            proof {
                assert(a@.subrange(0, i + 1) =~= a@.subrange(0, i as int).push(e));
                to_multiset_build(a@.subrange(0, i as int), e);
                to_multiset_build(before, e);
                assert(out@.to_multiset() =~= a@.subrange(0, i + 1).to_multiset().add(
                    b@.subrange(0, j as int).to_multiset(),
                ));
                assert forall|p: int, q: int| 0 <= p <= q < out@.len() implies entry_le(
                    out@[p],
                    out@[q],
                ) by {
                    if q < before.len() {
                        assert(entry_le(before[p], before[q]));
                    } else if p < before.len() {
                        assert(entry_le(before[p], a@[i as int]));
                    }
                }
                assert forall|k: int| 0 <= k < out@.len() implies (i + 1 < a.len() ==> entry_le(
                    #[trigger] out@[k],
                    a@[i + 1],
                )) && (j < b.len() ==> entry_le(out@[k], b@[j as int])) by {
                    if i + 1 < a.len() {
                        assert(entry_le(a@[i as int], a@[i + 1]));
                    }
                    if k < before.len() {
                        assert(entry_le(before[k], a@[i as int]));
                    }
                }
            }
            i = i + 1;
        } else {
            let e = b[j];
            out.push(e);
            proof {
                assert(b@.subrange(0, j + 1) =~= b@.subrange(0, j as int).push(e));
                to_multiset_build(b@.subrange(0, j as int), e);
                to_multiset_build(before, e);
                assert(out@.to_multiset() =~= a@.subrange(0, i as int).to_multiset().add(
                    b@.subrange(0, j + 1).to_multiset(),
                ));
                assert forall|p: int, q: int| 0 <= p <= q < out@.len() implies entry_le(
                    out@[p],
                    out@[q],
                ) by {
                    if q < before.len() {
                        assert(entry_le(before[p], before[q]));
                    } else if p < before.len() {
                        assert(entry_le(before[p], b@[j as int]));
                    }
                }
                assert forall|k: int| 0 <= k < out@.len() implies (i < a.len() ==> entry_le(
                    #[trigger] out@[k],
                    a@[i as int],
                )) && (j + 1 < b.len() ==> entry_le(out@[k], b@[j + 1])) by {
                    if j + 1 < b.len() {
                        assert(entry_le(b@[j as int], b@[j + 1]));
                    }
                    if k < before.len() {
                        assert(entry_le(before[k], b@[j as int]));
                    }
                }
            }
            j = j + 1;
        }
    }
    proof {
        assert(a@.subrange(0, i as int) =~= a@);
        assert(b@.subrange(0, j as int) =~= b@);
    }
    out
}

/// The entries of `v` from `lo` up to `hi`, sorted.
pub fn sort_range(v: &Vec<SortEntry>, lo: usize, hi: usize) -> (out: Vec<SortEntry>)
    requires
        lo <= hi <= v.len(),
    ensures
        sorted(out@),
        out@.to_multiset() == v@.subrange(lo as int, hi as int).to_multiset(),
        out.len() == hi - lo,
    decreases hi - lo,
{
    if hi - lo <= 1 {
        let mut out: Vec<SortEntry> = Vec::new();
        if hi - lo == 1 {
            out.push(v[lo]);
        }
        assert(out@ =~= v@.subrange(lo as int, hi as int));
        out
    } else {
        let mid: usize = lo + (hi - lo) / 2;
        let left = sort_range(v, lo, mid);
        let right = sort_range(v, mid, hi);
        proof {
            assert(v@.subrange(lo as int, hi as int) =~= v@.subrange(lo as int, mid as int)
                + v@.subrange(mid as int, hi as int));
            lemma_multiset_commutative(
                v@.subrange(lo as int, mid as int),
                v@.subrange(mid as int, hi as int),
            );
        }
        merge(&left, &right)
    }
}

/// The entries of `v` in ascending order: the same entries, each as often
/// as in `v`.
pub fn sort_entries(v: &Vec<SortEntry>) -> (out: Vec<SortEntry>)
    ensures
        sorted(out@),
        out@.to_multiset() == v@.to_multiset(),
        out.len() == v.len(),
{
    assert(v@.subrange(0, v.len() as int) =~= v@);
    sort_range(v, 0, v.len())
}

/// What a sort leaves of entries whose ids are their positions: every id
/// below the length occurs at exactly one place, and carries its key.
pub proof fn lemma_sorted_ids(input: Seq<SortEntry>, out: Seq<SortEntry>)
    requires
        forall|i: int| 0 <= i < input.len() ==> (#[trigger] input[i]).id == i,
        out.to_multiset() == input.to_multiset(),
    ensures
        out.len() == input.len(),
        forall|k: int| 0 <= k < out.len() ==> (#[trigger] out[k]).id < input.len(),
        forall|k: int| 0 <= k < out.len() ==> #[trigger] out[k] == input[out[k].id as int],
        forall|k: int, l: int|
            0 <= k < out.len() && 0 <= l < out.len() && k != l ==> (#[trigger] out[k]).id != (
            #[trigger] out[l]).id,
        forall|r: int| 0 <= r < input.len() ==> out.contains(#[trigger] input[r]),
{
    broadcast use vstd::seq_lib::group_to_multiset_ensures;

    vstd::seq_lib::to_multiset_len(out);
    vstd::seq_lib::to_multiset_len(input);
    assert forall|k: int| 0 <= k < out.len() implies (#[trigger] out[k]).id < input.len()
        && out[k] == input[out[k].id as int] by {
        assert(out.contains(out[k]));
        assert(out.to_multiset().count(out[k]) > 0);
        assert(input.to_multiset().count(out[k]) > 0);
        assert(input.contains(out[k]));
        let r = choose|r: int| 0 <= r < input.len() && input[r] == out[k];
        assert(input[r].id == r);
    }
    assert(input.no_duplicates()) by {
        assert forall|i: int, j: int|
            0 <= i < input.len() && 0 <= j < input.len() && i != j implies input[i]
            != input[j] by {
            assert(input[i].id == i && input[j].id == j);
        }
    }
    input.lemma_multiset_has_no_duplicates();
    out.lemma_multiset_has_no_duplicates_conv();
    assert forall|r: int| 0 <= r < input.len() implies out.contains(#[trigger] input[r]) by {
        assert(input.contains(input[r]));
        assert(input.to_multiset().count(input[r]) > 0);
    }
}

/// Entries have one sorted order only: two sorted lists of the same
/// entries are the same list.
pub proof fn lemma_sorted_order_unique(a: Seq<SortEntry>, b: Seq<SortEntry>)
    requires
        sorted(a),
        sorted(b),
        a.to_multiset() == b.to_multiset(),
    ensures
        a == b,
{
    let leq = |x: SortEntry, y: SortEntry| entry_le(x, y);
    assert(vstd::relations::total_ordering(leq));
    assert(vstd::relations::sorted_by(a, leq));
    assert(vstd::relations::sorted_by(b, leq));
    vstd::seq_lib::lemma_sorted_unique(a, b, leq);
}

} // verus!

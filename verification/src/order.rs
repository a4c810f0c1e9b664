//! Sortedness, batch sorting, and the uniqueness of sorted arrangements.

use vstd::prelude::*;
use vstd::multiset::Multiset;

verus! {

/// A sequence of records is in non-decreasing order.
pub open spec fn sorted(s: Seq<u64>) -> bool {
    forall|i: int, j: int| 0 <= i <= j < s.len() ==> s[i] <= s[j]
}

/// Moving one occurrence of `x` from `b` to `a` leaves the combined
/// multiset unchanged.
pub proof fn lemma_transfer_one(a: Multiset<u64>, b: Multiset<u64>, x: u64)
    requires
        b.count(x) >= 1,
    ensures
        a.insert(x).add(b.remove(x)) == a.add(b),
{
    broadcast use vstd::multiset::group_multiset_axioms;

    assert(a.insert(x).add(b.remove(x)) =~= a.add(b));
}

/// Index of a least element of a non-empty vector.
fn index_of_min(v: &Vec<u64>) -> (j: usize)
    requires
        v@.len() > 0,
    ensures
        j < v@.len(),
        forall|k: int| 0 <= k < v@.len() ==> v@[j as int] <= v@[k],
{
    let mut j: usize = 0;
    let mut i: usize = 1;
    while i < v.len()
        invariant
            0 < i <= v@.len(),
            j < i,
            forall|k: int| 0 <= k < i ==> v@[j as int] <= v@[k],
        decreases v@.len() - i,
    {
        if v[i] < v[j] {
            j = i;
        }
        i = i + 1;
    }
    j
}

/// Sort a batch of records in place, ascending; the records themselves are
/// kept, duplicates and all.
pub fn sort_batch(v: &mut Vec<u64>)
    ensures
        sorted(final(v)@),
        final(v)@.to_multiset() == old(v)@.to_multiset(),
        final(v)@.len() == old(v)@.len(),
{
    broadcast use vstd::seq_lib::group_to_multiset_ensures;

    let ghost orig = v@;
    let mut out: Vec<u64> = Vec::new();
    while v.len() > 0
        invariant
            sorted(out@),
            out@.to_multiset().add(v@.to_multiset()) == orig.to_multiset(),
            forall|p: int, q: int|
                0 <= p < out@.len() && 0 <= q < v@.len() ==> out@[p] <= v@[q],
        decreases v@.len(),
    {
        let j = index_of_min(v);
        let x = v[j];
        let ghost before_out = out@;
        let ghost before_v = v@;
        out.push(x);
        v.remove(j);
        proof {
            assert(before_v.contains(x)) by {
                assert(before_v[j as int] == x);
            }
            assert(before_v.to_multiset().count(x) > 0) by {
                vstd::seq_lib::to_multiset_contains(before_v, x);
            }
            assert(out@ == before_out.push(x));
            vstd::seq_lib::to_multiset_build(before_out, x);
            assert(v@ == before_v.remove(j as int));
            vstd::seq_lib::to_multiset_remove(before_v, j as int);
            lemma_transfer_one(before_out.to_multiset(), before_v.to_multiset(), x);
        }
    }
    proof {
        assert(v@.to_multiset().len() == 0);
        assert(out@.to_multiset().add(v@.to_multiset()) =~= out@.to_multiset()) by {
            broadcast use vstd::multiset::group_multiset_axioms;

            assert(v@.to_multiset() =~= Multiset::<u64>::empty());
        }
        assert(out@.to_multiset() == orig.to_multiset());
        assert(out@.to_multiset().len() == out@.len());
        assert(orig.to_multiset().len() == orig.len());
    }
    *v = out;
}

/// Law: a multiset of records has exactly one non-decreasing arrangement.
/// Two sorted sequences drawn from the same multiset are therefore equal,
/// element for element — which is why the sorted output of this crate does
/// not depend on how the input was cut into batches.
pub proof fn lemma_sorted_arrangement_unique(a: Seq<u64>, b: Seq<u64>)
    requires
        sorted(a),
        sorted(b),
        a.to_multiset() == b.to_multiset(),
    ensures
        a == b,
    decreases a.len(),
{
    broadcast use vstd::seq_lib::group_to_multiset_ensures;

    if a.len() == 0 {
        assert(b.to_multiset().len() == 0);
        assert(a =~= b);
    } else {
        assert(a.to_multiset().count(a.last()) > 0) by {
            assert(a.contains(a.last()));
        }
        assert(b.to_multiset().count(b.last()) > 0) by {
            assert(b.contains(b.last()));
        }
        // each final element is a maximum of the shared multiset, so they agree
        assert(b.contains(a.last()));
        assert(a.contains(b.last()));
        // each contains the other's maximum, so the final elements agree
        let ia = choose|i: int| 0 <= i < a.len() && a[i] == b.last();
        assert(b.last() <= a[ia] <= a.last());
        let ib = choose|i: int| 0 <= i < b.len() && b[i] == a.last();
        assert(a.last() <= b[ib] <= b.last());
        assert(a.last() == b.last());

        let a1 = a.drop_last();
        let b1 = b.drop_last();
        assert(a =~= a1.push(a.last()));
        assert(b =~= b1.push(b.last()));
        assert(a1.to_multiset().insert(a.last()) == a.to_multiset());
        assert(b1.to_multiset().insert(b.last()) == b.to_multiset());
        assert(a1.to_multiset() =~= b1.to_multiset()) by {
            broadcast use vstd::multiset::group_multiset_axioms;

            assert(forall|y: u64|
                a1.to_multiset().count(y) == a.to_multiset().remove(a.last()).count(y));
            assert(forall|y: u64|
                b1.to_multiset().count(y) == b.to_multiset().remove(b.last()).count(y));
        }
        lemma_sorted_arrangement_unique(a1, b1);
        assert(a =~= b);
    }
}

} // verus!

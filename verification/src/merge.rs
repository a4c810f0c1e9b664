//! K-way merging of sorted partitions through a min-priority queue.
//!
//! The queue holds (value, stream index) pairs; the value alone decides
//! priority, the stream index only says which reader to advance next.

use vstd::prelude::*;
use vstd::multiset::Multiset;
use crate::order::{sorted, lemma_transfer_one};

verus! {

/// One frontier element of the merge: the next unconsumed record of one
/// partition stream.
#[derive(Clone, Copy)]
pub struct Entry {
    pub value: u64,
    pub stream: usize,
}

/// The record values held by a frontier, as a multiset.
pub open spec fn entry_values(s: Seq<Entry>) -> Multiset<u64> {
    s.map_values(|e: Entry| e.value).to_multiset()
}

/// The views of a vector of partitions.
pub open spec fn part_views(parts: Seq<Vec<u64>>) -> Seq<Seq<u64>> {
    parts.map_values(|p: Vec<u64>| p@)
}

/// Every record across a sequence of partitions, as one multiset.
pub open spec fn all_values(parts: Seq<Seq<u64>>) -> Multiset<u64>
    decreases parts.len(),
{
    if parts.len() == 0 {
        Multiset::<u64>::empty()
    } else {
        all_values(parts.drop_last()).add(parts.last().to_multiset())
    }
}

/// Records of the first `k` streams that lie before each stream's cursor.
spec fn taken_values(parts: Seq<Seq<u64>>, pos: Seq<usize>, k: int) -> Multiset<u64>
    decreases k,
{
    if k <= 0 {
        Multiset::<u64>::empty()
    } else {
        taken_values(parts, pos, k - 1).add(parts[k - 1].take(pos[k - 1] as int).to_multiset())
    }
}

/// Count of records at or after the cursors of the first `k` streams.
spec fn rest_count(parts: Seq<Seq<u64>>, pos: Seq<usize>, k: int) -> int
    decreases k,
{
    if k <= 0 {
        0
    } else {
        rest_count(parts, pos, k - 1) + parts[k - 1].len() - pos[k - 1]
    }
}

pub proof fn lemma_empty_seq_multiset()
    ensures
        Seq::<u64>::empty().to_multiset() == Multiset::<u64>::empty(),
{
    broadcast use vstd::multiset::group_multiset_axioms;

    assert forall|v: u64| Seq::<u64>::empty().to_multiset().count(v) == 0 by {
        vstd::seq_lib::to_multiset_contains(Seq::<u64>::empty(), v);
    }
    assert(Seq::<u64>::empty().to_multiset() =~= Multiset::<u64>::empty());
}

proof fn lemma_entry_values_empty()
    ensures
        entry_values(Seq::<Entry>::empty()) == Multiset::<u64>::empty(),
{
    assert(Seq::<Entry>::empty().map_values(|e: Entry| e.value) =~= Seq::<u64>::empty());
    lemma_empty_seq_multiset();
}

proof fn lemma_entry_values_push(s: Seq<Entry>, e: Entry)
    ensures
        entry_values(s.push(e)) == entry_values(s).insert(e.value),
{
    assert(s.push(e).map_values(|x: Entry| x.value) =~= s.map_values(
        |x: Entry| x.value,
    ).push(e.value));
    vstd::seq_lib::to_multiset_build(s.map_values(|x: Entry| x.value), e.value);
}

proof fn lemma_entry_values_remove(s: Seq<Entry>, j: int)
    requires
        0 <= j < s.len(),
    ensures
        entry_values(s.remove(j)) == entry_values(s).remove(s[j].value),
{
    assert(s.remove(j).map_values(|x: Entry| x.value) =~= s.map_values(
        |x: Entry| x.value,
    ).remove(j));
    vstd::seq_lib::to_multiset_remove(s.map_values(|x: Entry| x.value), j);
}

proof fn lemma_entry_values_count(s: Seq<Entry>, j: int)
    requires
        0 <= j < s.len(),
    ensures
        entry_values(s).count(s[j].value) >= 1,
{
    let vals = s.map_values(|x: Entry| x.value);
    assert(vals[j] == s[j].value);
    assert(vals.contains(s[j].value));
    vstd::seq_lib::to_multiset_contains(vals, s[j].value);
}

proof fn lemma_cursor_congruence(parts: Seq<Seq<u64>>, pos1: Seq<usize>, pos2: Seq<usize>, k: int)
    requires
        forall|i: int| 0 <= i < k ==> pos1[i] == pos2[i],
    ensures
        taken_values(parts, pos1, k) == taken_values(parts, pos2, k),
        rest_count(parts, pos1, k) == rest_count(parts, pos2, k),
    decreases k,
{
    if k > 0 {
        lemma_cursor_congruence(parts, pos1, pos2, k - 1);
    }
}

proof fn lemma_rest_count_nonneg(parts: Seq<Seq<u64>>, pos: Seq<usize>, k: int)
    requires
        forall|i: int| 0 <= i < k ==> pos[i] <= parts[i].len(),
    ensures
        rest_count(parts, pos, k) >= 0,
    decreases k,
{
    if k > 0 {
        lemma_rest_count_nonneg(parts, pos, k - 1);
    }
}

/// Advancing one cursor moves exactly that one record into the taken side.
proof fn lemma_cursor_step(parts: Seq<Seq<u64>>, pos: Seq<usize>, k: int, i: int)
    requires
        0 <= i < k,
        k <= pos.len(),
        pos[i] < parts[i].len(),
        pos[i] + 1 <= usize::MAX,
    ensures
        taken_values(parts, pos.update(i, (pos[i] + 1) as usize), k) == taken_values(
            parts,
            pos,
            k,
        ).insert(parts[i][pos[i] as int]),
        rest_count(parts, pos.update(i, (pos[i] + 1) as usize), k) == rest_count(parts, pos, k)
            - 1,
    decreases k,
{
    broadcast use vstd::multiset::group_multiset_axioms;

    let x = parts[i][pos[i] as int];
    let pos2 = pos.update(i, (pos[i] + 1) as usize);
    if k - 1 > i {
        lemma_cursor_step(parts, pos, k - 1, i);
        assert(pos2[k - 1] == pos[k - 1]);
        assert(taken_values(parts, pos2, k) == taken_values(parts, pos, k - 1).insert(x).add(
            parts[k - 1].take(pos[k - 1] as int).to_multiset(),
        ));
        assert(taken_values(parts, pos, k - 1).insert(x).add(
            parts[k - 1].take(pos[k - 1] as int).to_multiset(),
        ) =~= taken_values(parts, pos, k).insert(x));
    } else {
        lemma_cursor_congruence(parts, pos, pos2, k - 1);
        let before = parts[i].take(pos[i] as int);
        assert(parts[i].take(pos2[i] as int) =~= before.push(x));
        vstd::seq_lib::to_multiset_build(before, x);
        assert(taken_values(parts, pos2, k) == taken_values(parts, pos, k - 1).add(
            before.to_multiset().insert(x),
        ));
        assert(taken_values(parts, pos, k - 1).add(before.to_multiset().insert(x))
            =~= taken_values(parts, pos, k).insert(x));
    }
}

/// With every cursor at the end of its stream, the taken records are all of
/// them.
proof fn lemma_cursor_complete(parts: Seq<Seq<u64>>, pos: Seq<usize>, k: int)
    requires
        0 <= k <= parts.len(),
        forall|i: int| 0 <= i < k ==> pos[i] == parts[i].len(),
    ensures
        taken_values(parts, pos, k) == all_values(parts.take(k)),
    decreases k,
{
    if k > 0 {
        lemma_cursor_complete(parts, pos, k - 1);
        assert(parts.take(k).drop_last() =~= parts.take(k - 1));
        assert(parts.take(k).last() == parts[k - 1]);
        assert(parts[k - 1].take(pos[k - 1] as int) =~= parts[k - 1]);
    } else {
        assert(parts.take(0) =~= Seq::<Seq<u64>>::empty());
    }
}

/// Min-priority queue over merge frontier entries, backed by a plain vector.
/// `pop_min` always removes and returns an entry of least value; which of
/// several equal-valued entries leaves first is not promised.
pub struct MergeQueue {
    entries: Vec<Entry>,
}

impl View for MergeQueue {
    type V = Seq<Entry>;

    closed spec fn view(&self) -> Seq<Entry> {
        self.entries@
    }
}

impl MergeQueue {
    pub fn new() -> (q: Self)
        ensures
            q@ == Seq::<Entry>::empty(),
    {
        MergeQueue { entries: Vec::new() }
    }

    pub fn len(&self) -> (n: usize)
        ensures
            n == self@.len(),
    {
        self.entries.len()
    }

    pub fn push(&mut self, value: u64, stream: usize)
        ensures
            final(self)@ == old(self)@.push(Entry { value, stream }),
    {
        self.entries.push(Entry { value, stream });
    }

    pub fn pop_min(&mut self) -> (r: Option<Entry>)
        ensures
            old(self)@.len() == 0 ==> r is None && final(self)@ == old(self)@,
            old(self)@.len() > 0 ==> {
                &&& r is Some
                &&& exists|j: int|
                    0 <= j < old(self)@.len() && old(self)@[j] == r->Some_0 && final(self)@ == old(
                        self,
                    )@.remove(j)
                &&& forall|k: int|
                    0 <= k < old(self)@.len() ==> r->Some_0.value <= old(self)@[k].value
            },
    {
        if self.entries.len() == 0 {
            None
        } else {
            let mut j: usize = 0;
            let mut i: usize = 1;
            while i < self.entries.len()
                invariant
                    0 < i <= self.entries@.len(),
                    j < i,
                    forall|k: int|
                        0 <= k < i ==> self.entries@[j as int].value <= self.entries@[k].value,
                decreases self.entries@.len() - i,
            {
                if self.entries[i].value < self.entries[j].value {
                    j = i;
                }
                i = i + 1;
            }
            let e = self.entries[j];
            self.entries.remove(j);
            proof {
                assert(0 <= (j as int) && (j as int) < old(self)@.len() && old(self)@[j as int]
                    == e && self@ == old(self)@.remove(j as int));
            }
            Some(e)
        }
    }
}

/// Merge sorted partitions into one fully sorted sequence holding every
/// record of every partition, duplicates preserved.
pub fn merge_partitions(parts: &Vec<Vec<u64>>) -> (out: Vec<u64>)
    requires
        forall|i: int| 0 <= i < parts@.len() ==> sorted(#[trigger] parts@[i]@),
    ensures
        sorted(out@),
        out@.to_multiset() == all_values(part_views(parts@)),
{
    let ghost pv = part_views(parts@);
    proof {
        assert forall|s: int| 0 <= s < pv.len() implies #[trigger] pv[s] == parts@[s]@ by {}
        assert(forall|s: int| 0 <= s < pv.len() ==> sorted(#[trigger] pv[s]));
    }
    let n = parts.len();
    let mut q = MergeQueue::new();
    let mut pos: Vec<usize> = Vec::new();
    let mut i: usize = 0;
    proof {
        lemma_entry_values_empty();
    }
    while i < n
        invariant
            i <= n,
            n == parts@.len(),
            pv == part_views(parts@),
            pv.len() == n,
            forall|s: int| 0 <= s < pv.len() ==> #[trigger] pv[s] == parts@[s]@,
            pos@.len() == i,
            forall|s: int| 0 <= s < i ==> #[trigger] pos@[s] <= pv[s].len(),
            forall|j: int|
                0 <= j < q@.len() ==> {
                    let e = #[trigger] q@[j];
                    &&& (e.stream as int) < i
                    &&& 1 <= pos@[e.stream as int] <= pv[e.stream as int].len()
                    &&& e.value == pv[e.stream as int][pos@[e.stream as int] - 1]
                },
            forall|j1: int, j2: int|
                0 <= j1 < j2 < q@.len() ==> q@[j1].stream != q@[j2].stream,
            forall|s: int|
                0 <= s < i && #[trigger] pos@[s] < pv[s].len() ==> exists|j: int|
                    0 <= j < q@.len() && q@[j].stream == s,
            entry_values(q@) == taken_values(pv, pos@, i as int),
        decreases n - i,
    {
        let ghost old_q = q@;
        let ghost old_pos = pos@;
        if parts[i].len() > 0 {
            let v = parts[i][0];
            q.push(v, i);
            pos.push(1);
            proof {
                broadcast use vstd::multiset::group_multiset_axioms;

                lemma_entry_values_push(old_q, Entry { value: v, stream: i });
                lemma_cursor_congruence(pv, old_pos, pos@, i as int);
                assert(pv[i as int].take(pos@[i as int] as int) =~= Seq::<u64>::empty().push(
                    pv[i as int][0],
                ));
                vstd::seq_lib::to_multiset_build(Seq::<u64>::empty(), pv[i as int][0]);
                lemma_empty_seq_multiset();
                assert(taken_values(pv, pos@, i + 1) == taken_values(pv, pos@, i as int).add(
                    Multiset::<u64>::empty().insert(v),
                ));
                assert(taken_values(pv, pos@, i as int).add(Multiset::<u64>::empty().insert(v))
                    =~= taken_values(pv, old_pos, i as int).insert(v));
                assert forall|s: int|
                    0 <= s < i + 1 && #[trigger] pos@[s] < pv[s].len() implies exists|k: int|
                    0 <= k < q@.len() && q@[k].stream == s by {
                    if s == i as int {
                        assert(q@[q@.len() - 1].stream == s);
                    } else {
                        let k0 = choose|k: int| 0 <= k < old_q.len() && old_q[k].stream == s;
                        assert(q@[k0] == old_q[k0]);
                    }
                }
            }
        } else {
            pos.push(0);
            proof {
                broadcast use vstd::multiset::group_multiset_axioms;

                lemma_cursor_congruence(pv, old_pos, pos@, i as int);
                assert(pv[i as int].take(0) =~= Seq::<u64>::empty());
                lemma_empty_seq_multiset();
                assert(taken_values(pv, pos@, i + 1) =~= taken_values(pv, old_pos, i as int));
            }
        }
        i = i + 1;
    }

    let mut out: Vec<u64> = Vec::new();
    proof {
        lemma_rest_count_nonneg(pv, pos@, n as int);
        broadcast use vstd::multiset::group_multiset_axioms;

        lemma_empty_seq_multiset();
        assert(out@ =~= Seq::<u64>::empty());
        assert(out@.to_multiset().add(entry_values(q@)) =~= entry_values(q@));
    }
    while q.len() > 0
        invariant
            n == parts@.len(),
            pv == part_views(parts@),
            pv.len() == n,
            forall|s: int| 0 <= s < pv.len() ==> #[trigger] pv[s] == parts@[s]@,
            forall|s: int| 0 <= s < n ==> sorted(#[trigger] pv[s]),
            pos@.len() == n,
            forall|s: int| 0 <= s < n ==> #[trigger] pos@[s] <= pv[s].len(),
            forall|j: int|
                0 <= j < q@.len() ==> {
                    let e = #[trigger] q@[j];
                    &&& (e.stream as int) < n
                    &&& 1 <= pos@[e.stream as int] <= pv[e.stream as int].len()
                    &&& e.value == pv[e.stream as int][pos@[e.stream as int] - 1]
                },
            forall|j1: int, j2: int|
                0 <= j1 < j2 < q@.len() ==> q@[j1].stream != q@[j2].stream,
            forall|s: int|
                0 <= s < n && #[trigger] pos@[s] < pv[s].len() ==> exists|j: int|
                    0 <= j < q@.len() && q@[j].stream == s,
            sorted(out@),
            forall|j: int|
                0 <= j < q@.len() && out@.len() > 0 ==> out@.last() <= #[trigger] q@[j].value,
            out@.to_multiset().add(entry_values(q@)) == taken_values(pv, pos@, n as int),
            rest_count(pv, pos@, n as int) >= 0,
        decreases rest_count(pv, pos@, n as int) + q@.len(),
    {
        let ghost q0 = q@;
        let ghost pos0 = pos@;
        let e = q.pop_min().unwrap();
        let ghost j = choose|j: int|
            0 <= j < q0.len() && q0[j] == e && q@ == q0.remove(j);
        proof {
            lemma_entry_values_remove(q0, j);
            lemma_entry_values_count(q0, j);
        }
        let ghost out0 = out@;
        out.push(e.value);
        proof {
            vstd::seq_lib::to_multiset_build(out0, e.value);
            lemma_transfer_one(out0.to_multiset(), entry_values(q0), e.value);
            assert(out@.to_multiset().add(entry_values(q@)) == taken_values(pv, pos0, n as int));
            // the popped minimum keeps the output sorted
            assert forall|p: int, r: int| 0 <= p <= r < out@.len() implies out@[p] <= out@[r] by {
                if r == out@.len() - 1 && p < r {
                    assert(out@[p] <= out0.last());
                }
            }
            // the removed entry was the only one of its stream
            assert forall|k: int| 0 <= k < q@.len() implies #[trigger] q@[k].stream != e.stream by {
                if k < j {
                    assert(q@[k] == q0[k]);
                } else {
                    assert(q@[k] == q0[k + 1]);
                }
            }
        }
        let s = e.stream;
        if pos[s] < parts[s].len() {
            let ghost q1 = q@;
            let v2 = parts[s][pos[s]];
            q.push(v2, s);
            pos.set(s, pos[s] + 1);
            proof {
                broadcast use vstd::multiset::group_multiset_axioms;

                lemma_entry_values_push(q1, Entry { value: v2, stream: s });
                lemma_cursor_step(pv, pos0, n as int, s as int);
                assert(pos@ == pos0.update(s as int, (pos0[s as int] + 1) as usize));
                assert(out@.to_multiset().add(entry_values(q1).insert(v2)) =~= out@.to_multiset().add(
                    entry_values(q1),
                ).insert(v2));
                assert(out@.to_multiset().add(entry_values(q@)) == taken_values(
                    pv,
                    pos@,
                    n as int,
                ));
                // the fresh entry is not below the value just written
                assert(pv[s as int][pos0[s as int] - 1] <= pv[s as int][pos0[s as int] as int]);
                // queue entries of other streams are untouched by the cursor move
                assert forall|k: int|
                    0 <= k < q@.len() implies {
                    let en = #[trigger] q@[k];
                    &&& (en.stream as int) < n
                    &&& 1 <= pos@[en.stream as int] <= pv[en.stream as int].len()
                    &&& en.value == pv[en.stream as int][pos@[en.stream as int] - 1]
                } by {
                    if k < q@.len() - 1 {
                        assert(q@[k] == q1[k]);
                        assert(q@[k].stream != s);
                    }
                }
                // every still-pending stream keeps a representative
                assert forall|t: int|
                    0 <= t < n && #[trigger] pos@[t] < pv[t].len() implies exists|k: int|
                    0 <= k < q@.len() && q@[k].stream == t by {
                    if t == s as int {
                        assert(q@[q@.len() - 1].stream == t);
                    } else {
                        assert(pos0[t] < pv[t].len());
                        let k0 = choose|k: int| 0 <= k < q0.len() && q0[k].stream == t;
                        if k0 < j {
                            assert(q@[k0] == q0[k0]);
                        } else {
                            assert(k0 != j);
                            assert(q@[k0 - 1] == q0[k0]);
                        }
                    }
                }
                lemma_rest_count_nonneg(pv, pos@, n as int);
            }
        } else {
            proof {
                // the stream is exhausted; no replacement entry is owed
                assert forall|t: int|
                    0 <= t < n && #[trigger] pos@[t] < pv[t].len() implies exists|k: int|
                    0 <= k < q@.len() && q@[k].stream == t by {
                    assert(t != s as int);
                    let k0 = choose|k: int| 0 <= k < q0.len() && q0[k].stream == t;
                    if k0 < j {
                        assert(q@[k0] == q0[k0]);
                    } else {
                        assert(k0 != j);
                        assert(q@[k0 - 1] == q0[k0]);
                    }
                }
            }
        }
    }
    proof {
        broadcast use vstd::multiset::group_multiset_axioms;

        assert(forall|s: int| 0 <= s < n ==> #[trigger] pos@[s] == pv[s].len());
        lemma_cursor_complete(pv, pos@, n as int);
        assert(pv.take(n as int) =~= pv);
        lemma_entry_values_empty();
        assert(q@ =~= Seq::<Entry>::empty());
        assert(out@.to_multiset().add(Multiset::<u64>::empty()) =~= out@.to_multiset());
    }
    out
}

} // verus!

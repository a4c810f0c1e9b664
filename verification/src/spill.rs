//! The batch spiller: records stream in one by one, and every time a batch
//! fills up it leaves as one sorted partition; a final short partition
//! carries whatever remains.

use vstd::prelude::*;
use crate::order::{sorted, sort_batch, lemma_sorted_arrangement_unique};
use crate::merge::{all_values, part_views, merge_partitions};

verus! {

/// Number of partitions a spill of `total` records in batches of `batch`
/// produces: `total / batch`, rounded up.
pub open spec fn spec_partition_count(total: int, batch: int) -> int {
    (total + batch - 1) / batch
}

/// Accumulates records into an in-memory batch of fixed capacity and gives
/// each batch back sorted the moment it is full.
pub struct Batcher {
    buf: Vec<u64>,
    cap: usize,
}

impl Batcher {
    #[verifier::type_invariant]
    spec fn inv(self) -> bool {
        1 <= self.cap && self.buf@.len() < self.cap
    }

    /// Records accepted but not yet handed back in a batch.
    pub closed spec fn pending(self) -> Seq<u64> {
        self.buf@
    }

    /// The batch capacity this batcher was built with.
    pub closed spec fn capacity(self) -> nat {
        self.cap as nat
    }

    pub fn new(batch_size: usize) -> (b: Self)
        requires
            batch_size >= 1,
        ensures
            b.pending() == Seq::<u64>::empty(),
            b.capacity() == batch_size,
    {
        Batcher { buf: Vec::new(), cap: batch_size }
    }

    /// Accept one record. When it fills the batch, the whole batch comes
    /// back sorted, ready to be spilled, and the buffer is empty again.
    pub fn push(&mut self, value: u64) -> (spilled: Option<Vec<u64>>)
        ensures
            final(self).capacity() == old(self).capacity(),
            match spilled {
                Some(batch) => {
                    &&& old(self).pending().len() + 1 == old(self).capacity()
                    &&& batch@.len() == old(self).capacity()
                    &&& sorted(batch@)
                    &&& batch@.to_multiset() == old(self).pending().push(value).to_multiset()
                    &&& final(self).pending() == Seq::<u64>::empty()
                },
                None => {
                    &&& old(self).pending().len() + 1 < old(self).capacity()
                    &&& final(self).pending() == old(self).pending().push(value)
                },
            },
    {
        proof {
            use_type_invariant(&*self);
        }
        if self.buf.len() + 1 == self.cap {
            let mut batch: Vec<u64> = Vec::new();
            core::mem::swap(&mut batch, &mut self.buf);
            batch.push(value);
            sort_batch(&mut batch);
            Some(batch)
        } else {
            let mut buf: Vec<u64> = Vec::new();
            core::mem::swap(&mut buf, &mut self.buf);
            buf.push(value);
            core::mem::swap(&mut buf, &mut self.buf);
            None
        }
    }

    /// Hand back whatever remains as one final short sorted batch; nothing
    /// comes back when the buffer is empty.
    pub fn finish(&mut self) -> (spilled: Option<Vec<u64>>)
        ensures
            final(self).capacity() == old(self).capacity(),
            final(self).pending() == Seq::<u64>::empty(),
            match spilled {
                Some(batch) => {
                    &&& old(self).pending().len() > 0
                    &&& batch@.len() == old(self).pending().len()
                    &&& sorted(batch@)
                    &&& batch@.to_multiset() == old(self).pending().to_multiset()
                },
                None => old(self).pending().len() == 0,
            },
    {
        proof {
            use_type_invariant(&*self);
        }
        let mut batch: Vec<u64> = Vec::new();
        core::mem::swap(&mut batch, &mut self.buf);
        if batch.len() > 0 {
            sort_batch(&mut batch);
            Some(batch)
        } else {
            None
        }
    }
}

proof fn lemma_all_values_push(parts: Seq<Seq<u64>>, p: Seq<u64>)
    ensures
        all_values(parts.push(p)) == all_values(parts).add(p.to_multiset()),
{
    assert(parts.push(p).drop_last() =~= parts);
    assert(parts.push(p).last() == p);
}

/// Cut the input into batches of `batch_size` and sort each: the partitions
/// a spill of `values` writes, in spill order.  Every partition but the last
/// is exactly full, none is empty, and together they hold exactly the input
/// records.
pub fn make_partitions(values: &Vec<u64>, batch_size: usize) -> (parts: Vec<Vec<u64>>)
    requires
        batch_size >= 1,
    ensures
        forall|i: int| 0 <= i < parts@.len() ==> sorted(#[trigger] parts@[i]@),
        forall|i: int|
            0 <= i < parts@.len() ==> 0 < #[trigger] parts@[i]@.len() <= batch_size,
        forall|i: int|
            0 <= i < parts@.len() - 1 ==> #[trigger] parts@[i]@.len() == batch_size,
        all_values(part_views(parts@)) == values@.to_multiset(),
        parts@.len() == spec_partition_count(values@.len() as int, batch_size as int),
{
    broadcast use vstd::seq_lib::group_to_multiset_ensures;

    let mut parts: Vec<Vec<u64>> = Vec::new();
    let mut b = Batcher::new(batch_size);
    let mut i: usize = 0;
    proof {
        crate::merge::lemma_empty_seq_multiset();
        assert(part_views(parts@) =~= Seq::<Seq<u64>>::empty());
        assert(all_values(part_views(parts@)).add(b.pending().to_multiset())
            =~= values@.take(0).to_multiset()) by {
            broadcast use vstd::multiset::group_multiset_axioms;

            assert(values@.take(0) =~= Seq::<u64>::empty());
        }
    }
    while i < values.len()
        invariant
            i <= values@.len(),
            batch_size >= 1,
            b.capacity() == batch_size,
            b.pending().len() < batch_size,
            forall|k: int| 0 <= k < parts@.len() ==> sorted(#[trigger] parts@[k]@),
            forall|k: int| 0 <= k < parts@.len() ==> #[trigger] parts@[k]@.len() == batch_size,
            parts@.len() * batch_size + b.pending().len() == i,
            all_values(part_views(parts@)).add(b.pending().to_multiset()) == values@.take(
                i as int,
            ).to_multiset(),
        decreases values@.len() - i,
    {
        broadcast use vstd::multiset::group_multiset_axioms;

        let ghost old_parts = parts@;
        let ghost old_pending = b.pending();
        let v = values[i];
        proof {
            assert(values@.take(i + 1) =~= values@.take(i as int).push(v));
            vstd::seq_lib::to_multiset_build(values@.take(i as int), v);
        }
        match b.push(v) {
            Some(batch) => {
                let ghost bs = batch@;
                parts.push(batch);
                proof {
                    assert(part_views(parts@) =~= part_views(old_parts).push(bs));
                    lemma_all_values_push(part_views(old_parts), bs);
                    vstd::seq_lib::to_multiset_build(old_pending, v);
                    crate::merge::lemma_empty_seq_multiset();
                    assert(all_values(part_views(parts@)).add(b.pending().to_multiset())
                        =~= values@.take(i + 1).to_multiset());
                    assert((old_parts.len() + 1) * batch_size == old_parts.len() * batch_size
                        + batch_size) by (nonlinear_arith);
                }
            },
            None => {
                proof {
                    vstd::seq_lib::to_multiset_build(old_pending, v);
                    assert(all_values(part_views(parts@)).add(b.pending().to_multiset())
                        =~= values@.take(i + 1).to_multiset());
                }
            },
        }
        i = i + 1;
    }
    let ghost parts_before = parts@;
    let ghost full_count = parts@.len() as int;
    let ghost leftover = b.pending().len() as int;
    let ghost total = values@.len() as int;
    proof {
        assert(values@.take(total) =~= values@);
    }
    match b.finish() {
        Some(batch) => {
            let ghost bs = batch@;
            parts.push(batch);
            proof {
                broadcast use vstd::multiset::group_multiset_axioms;

                assert(part_views(parts@) =~= part_views(parts_before).push(bs));
                lemma_all_values_push(part_views(parts_before), bs);
                crate::merge::lemma_empty_seq_multiset();
                assert(all_values(part_views(parts@)) =~= values@.to_multiset());
                // total = full_count * batch + leftover with 0 < leftover < batch,
                // so the count rounds up to full_count + 1
                assert((full_count + 1) * (batch_size as int) == full_count * (batch_size as int)
                    + batch_size) by (nonlinear_arith);
                assert(total + batch_size - 1 == (full_count + 1) * (batch_size as int) + (
                leftover - 1));
                vstd::arithmetic::div_mod::lemma_fundamental_div_mod_converse(
                    total + batch_size - 1,
                    batch_size as int,
                    full_count + 1,
                    leftover - 1,
                );
            }
        },
        None => {
            proof {
                broadcast use vstd::multiset::group_multiset_axioms;

                assert(all_values(part_views(parts@)) =~= values@.to_multiset());
                // total = full_count * batch exactly, so the count is full_count
                assert(total + batch_size - 1 == full_count * (batch_size as int) + (batch_size
                    - 1));
                vstd::arithmetic::div_mod::lemma_fundamental_div_mod_converse(
                    total + batch_size - 1,
                    batch_size as int,
                    full_count,
                    batch_size - 1,
                );
            }
        },
    }
    parts
}

/// Sort a whole data set through the spill-and-merge pipeline: the output
/// is the records of the input, nothing more and nothing less, in
/// non-decreasing order — whatever the batch size.
pub fn sort_values(values: &Vec<u64>, batch_size: usize) -> (out: Vec<u64>)
    requires
        batch_size >= 1,
    ensures
        sorted(out@),
        out@.to_multiset() == values@.to_multiset(),
        out@.len() == values@.len(),
{
    let parts = make_partitions(values, batch_size);
    let out = merge_partitions(&parts);
    proof {
        vstd::seq_lib::to_multiset_len(out@);
        vstd::seq_lib::to_multiset_len(values@);
    }
    out
}

/// Law: for a fixed input the output is one and the same, whatever batch
/// size produced it.  Any two outputs meeting the pipeline's contract for
/// the same input — sorted, and a rearrangement of the input — are equal.
pub proof fn lemma_batch_size_independent(values: Seq<u64>, out1: Seq<u64>, out2: Seq<u64>)
    requires
        sorted(out1),
        sorted(out2),
        out1.to_multiset() == values.to_multiset(),
        out2.to_multiset() == values.to_multiset(),
    ensures
        out1 == out2,
{
    lemma_sorted_arrangement_unique(out1, out2);
}

} // verus!

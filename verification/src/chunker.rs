//! The chunk producer: partitions an unbounded stream of parsed keys
//! into memory-bounded sorted runs.
//!
//! Keys arrive one at a time and accumulate in a buffer of fixed
//! capacity. When the buffer is full and one more key arrives, the
//! buffered keys are sorted and handed out as one run, and the buffer
//! restarts with the new key; after the last key, a final partial
//! buffer is sorted and handed out as a last, possibly smaller, run.
//! Runs therefore leave in creation order, each holding exactly
//! `capacity` keys except the last.

use vstd::prelude::*;

use crate::scheduler::{all_sorted, lemma_runs_mset_push, runs_mset, views};
use crate::sorting::{sort_spec, sorted, sort_run};

verus! {

broadcast use vstd::seq_lib::group_to_multiset_ensures;

/// A capacity-bounded buffer of keys awaiting their run. The buffer is
/// cleared, never reallocated, between fills.
pub struct ChunkProducer {
    buffer: Vec<u64>,
    capacity: usize,
}

impl ChunkProducer {
    /// The keys currently buffered, in arrival order.
    pub closed spec fn buffered(&self) -> Seq<u64> {
        self.buffer@
    }

    /// The fixed buffer capacity, counted in keys.
    pub closed spec fn cap(&self) -> int {
        self.capacity as int
    }

    /// The buffer never outgrows its capacity, which is at least one key.
    pub closed spec fn wf(&self) -> bool {
        self.buffer@.len() <= self.capacity && self.capacity >= 1
    }

    /// A fresh producer with an empty buffer for `capacity` keys.
    pub fn new(capacity: usize) -> (p: ChunkProducer)
        requires
            capacity >= 1,
        ensures
            p.wf(),
            p.buffered() == Seq::<u64>::empty(),
            p.cap() == capacity,
    {
        ChunkProducer { buffer: Vec::new(), capacity }
    }

    /// Accepts the next key of the input. If the buffer was full, its
    /// keys leave as one ascending-sorted run and the buffer restarts
    /// with the new key alone; otherwise the key is buffered and
    /// nothing leaves.
    pub fn push(&mut self, k: u64) -> (flushed: Option<Vec<u64>>)
        requires
            old(self).wf(),
        ensures
            final(self).wf(),
            final(self).cap() == old(self).cap(),
            match flushed {
                None => old(self).buffered().len() < old(self).cap() && final(self).buffered()
                    == old(self).buffered().push(k),
                Some(run) => old(self).buffered().len() == old(self).cap() && run@ == sort_spec(
                    old(self).buffered(),
                ) && sorted(run@) && run@.to_multiset() == old(self).buffered().to_multiset()
                    && run@.len() == old(self).cap() && final(self).buffered() == seq![k],
            },
    {
        if self.buffer.len() == self.capacity {
            let mut full: Vec<u64> = Vec::new();
            core::mem::swap(&mut full, &mut self.buffer);
            let run = sort_run(full);
            self.buffer.push(k);
            proof {
                assert(self.buffer@ =~= seq![k]);
            }
            Some(run)
        } else {
            self.buffer.push(k);
            None
        }
    }

    /// Ends the input. A non-empty residual buffer leaves as one final
    /// ascending-sorted run, possibly smaller than the capacity; an
    /// empty buffer yields nothing. Either way the buffer ends empty.
    pub fn finish(&mut self) -> (flushed: Option<Vec<u64>>)
        requires
            old(self).wf(),
        ensures
            final(self).wf(),
            final(self).cap() == old(self).cap(),
            final(self).buffered() == Seq::<u64>::empty(),
            match flushed {
                None => old(self).buffered().len() == 0,
                Some(run) => old(self).buffered().len() > 0 && run@ == sort_spec(
                    old(self).buffered(),
                ) && sorted(run@) && run@.to_multiset() == old(self).buffered().to_multiset()
                    && run@.len() == old(self).buffered().len(),
            },
    {
        if self.buffer.len() == 0 {
            None
        } else {
            let mut full: Vec<u64> = Vec::new();
            core::mem::swap(&mut full, &mut self.buffer);
            Some(sort_run(full))
        }
    }
}

/// The capacity-sized slice of the input that the run of the given
/// index is made from: a full slice, or whatever remains at the end.
pub open spec fn chunk_of(values: Seq<u64>, capacity: int, t: int) -> Seq<u64>
    recommends
        capacity >= 1,
        0 <= t,
        t * capacity <= values.len(),
{
    if (t + 1) * capacity <= values.len() {
        values.subrange(t * capacity, (t + 1) * capacity)
    } else {
        values.subrange(t * capacity, values.len() as int)
    }
}

/// Cuts a whole in-memory sequence of keys into sorted runs through a
/// [`ChunkProducer`] with the given capacity: the run of each index is
/// exactly its slice of the input, sorted ascending, so the runs are
/// each sorted, each hold at least one and at most `capacity` keys,
/// and together hold exactly the input's keys. An input of n >= 1 keys
/// yields ceiling(n / capacity) runs; an empty input yields no run at
/// all.
pub fn divide(values: &Vec<u64>, capacity: usize) -> (runs: Vec<Vec<u64>>)
    requires
        capacity >= 1,
    ensures
        all_sorted(views(runs@)),
        runs_mset(views(runs@)) == values@.to_multiset(),
        runs@.len() == 0 <==> values@.len() == 0,
        forall|t: int| 0 <= t < runs@.len() ==> 1 <= (#[trigger] runs@[t]@).len() <= capacity,
        forall|t: int|
            0 <= t < runs@.len() ==> (#[trigger] runs@[t]@) == sort_spec(
                chunk_of(values@, capacity as int, t),
            ),
        values@.len() >= 1 ==> runs@.len() == (values@.len() + capacity - 1) / (capacity as int),
{
    let mut producer = ChunkProducer::new(capacity);
    let mut runs: Vec<Vec<u64>> = Vec::new();
    let mut i: usize = 0;
    proof {
        assert(views(runs@) =~= Seq::<Seq<u64>>::empty());
        assert(runs_mset(views(runs@)) == vstd::multiset::Multiset::<u64>::empty());
        assert(values@.take(0) =~= Seq::<u64>::empty());
        assert(runs_mset(views(runs@)).add(producer.buffered().to_multiset()) =~= values@.take(
            0,
        ).to_multiset());
        assert(producer.buffered() =~= values@.subrange(0, 0));
    }
    while i < values.len()
        invariant
            i <= values@.len(),
            producer.wf(),
            producer.cap() == capacity,
            all_sorted(views(runs@)),
            runs_mset(views(runs@)).add(producer.buffered().to_multiset()) == values@.take(
                i as int,
            ).to_multiset(),
            runs@.len() * capacity + producer.buffered().len() == i,
            i >= 1 ==> producer.buffered().len() >= 1,
            i == 0 ==> runs@.len() == 0 && producer.buffered().len() == 0,
            forall|t: int| 0 <= t < runs@.len() ==> (#[trigger] runs@[t]@).len() == capacity,
            producer.buffered() == values@.subrange(runs@.len() * capacity, i as int),
            forall|t: int|
                0 <= t < runs@.len() ==> (#[trigger] runs@[t]@) == sort_spec(
                    chunk_of(values@, capacity as int, t),
                ),
        decreases values@.len() - i,
    {
        let ghost old_runs = runs@;
        let ghost old_buf = producer.buffered();
        match producer.push(values[i]) {
            Some(run) => {
                let ghost rv = run@;
                runs.push(run);
                proof {
                    assert(views(runs@) =~= views(old_runs).push(rv));
                    lemma_runs_mset_push(views(old_runs), rv);
                    let q0 = old_runs.len() as int;
                    assert((q0 + 1) * capacity == q0 * capacity + capacity) by (nonlinear_arith);
                    assert(chunk_of(values@, capacity as int, q0) == old_buf);
                    assert(producer.buffered() =~= values@.subrange(
                        (q0 + 1) * capacity,
                        i as int + 1,
                    ));
                    assert forall|t: int| 0 <= t < runs@.len() implies sorted(
                        #[trigger] views(runs@)[t],
                    ) by {
                        if t < runs@.len() - 1 {
                            assert(views(runs@)[t] == views(old_runs)[t]);
                        } else {
                            assert(views(runs@)[t] == rv);
                        }
                    }
                }
            },
            None => {
                proof {
                    assert(producer.buffered() =~= values@.subrange(
                        runs@.len() * capacity,
                        i as int + 1,
                    ));
                }
            },
        }
        proof {
            assert(values@.take(i as int + 1) =~= values@.take(i as int).push(values@[i as int]));
            assert(runs_mset(views(runs@)).add(producer.buffered().to_multiset())
                =~= values@.take(i as int + 1).to_multiset());
        }
        i = i + 1;
    }
    proof {
        assert(values@.take(values@.len() as int) =~= values@);
    }
    let ghost q = runs@.len() as int;
    let ghost r = producer.buffered().len() as int;
    let ghost pre_runs = runs@;
    let ghost pre_buf = producer.buffered();
    match producer.finish() {
        Some(run) => {
            let ghost rv = run@;
            runs.push(run);
            proof {
                assert(views(runs@) =~= views(pre_runs).push(rv));
                lemma_runs_mset_push(views(pre_runs), rv);
                assert(runs_mset(views(runs@)) =~= values@.to_multiset());
                assert forall|t: int| 0 <= t < runs@.len() implies sorted(
                    #[trigger] views(runs@)[t],
                ) by {
                    if t < runs@.len() - 1 {
                        assert(views(runs@)[t] == views(pre_runs)[t]);
                    } else {
                        assert(views(runs@)[t] == rv);
                    }
                }
                assert(values@.len() + capacity - 1 == q * capacity + r + (capacity - 1));
                assert((q + 1) * capacity == q * capacity + capacity) by (nonlinear_arith);
                assert(chunk_of(values@, capacity as int, q) == pre_buf);
                assert forall|t: int| 0 <= t < runs@.len() implies (#[trigger] runs@[t]@)
                    == sort_spec(chunk_of(values@, capacity as int, t)) by {
                    if t < runs@.len() - 1 {
                        assert(runs@[t]@ == pre_runs[t]@);
                    } else {
                        assert(runs@[t]@ == rv);
                    }
                }
                vstd::arithmetic::div_mod::lemma_fundamental_div_mod_converse(
                    values@.len() + capacity - 1,
                    capacity as int,
                    q + 1,
                    r - 1,
                );
            }
        },
        None => {
            proof {
                assert(runs_mset(views(runs@)).add(pre_buf.to_multiset()) =~= runs_mset(
                    views(runs@),
                ));
                assert(runs_mset(views(runs@)) =~= values@.to_multiset());
                assert(values@.len() == q * capacity);
                assert(values@.len() == 0) by {
                    if values@.len() >= 1 {
                        assert(false);
                    }
                }
                assert(q == 0) by {
                    if q >= 1 {
                        assert(q * capacity >= 1 * capacity) by (nonlinear_arith)
                            requires
                                q >= 1,
                                capacity >= 1,
                        ;
                    }
                }
            }
        },
    }
    runs
}

} // verus!

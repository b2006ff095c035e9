//! The merge scheduler: reduces a queue of sorted runs to a single
//! sorted run by repeatedly merging the two oldest runs and enqueueing
//! the result at the back. The queue shrinks by exactly one run per
//! step, so a queue of n runs terminates in exactly n - 1 steps.
//!
//! [`reduce`] is the whole reduction over in-memory runs. For runs that
//! live in files, [`MergeScheduler`] makes the same decisions — which
//! two runs to merge next, in first-in-first-out order, and when to
//! stop — while an unverified driver performs the file work between
//! steps.

use vstd::multiset::Multiset;
use vstd::prelude::*;

use crate::merge::merge_runs;
use crate::sorting::sorted;

verus! {

broadcast use vstd::seq_lib::group_to_multiset_ensures;

/// The views of a queue of runs.
pub open spec fn views(q: Seq<Vec<u64>>) -> Seq<Seq<u64>> {
    q.map_values(|v: Vec<u64>| v@)
}

/// Every key held anywhere in a queue of runs, with multiplicities.
pub open spec fn runs_mset(qs: Seq<Seq<u64>>) -> Multiset<u64>
    decreases qs.len(),
{
    if qs.len() == 0 {
        Multiset::empty()
    } else {
        qs[0].to_multiset().add(runs_mset(qs.skip(1)))
    }
}

/// Every run of the queue is internally sorted.
pub open spec fn all_sorted(qs: Seq<Seq<u64>>) -> bool {
    forall|i: int| 0 <= i < qs.len() ==> sorted(#[trigger] qs[i])
}

/// Enqueueing one more run adds exactly its keys to the queue's contents.
pub proof fn lemma_runs_mset_push(qs: Seq<Seq<u64>>, s: Seq<u64>)
    ensures
        runs_mset(qs.push(s)) == runs_mset(qs).add(s.to_multiset()),
    decreases qs.len(),
{
    if qs.len() == 0 {
        assert(qs.push(s)[0] == s);
        assert(qs.push(s).skip(1) =~= Seq::<Seq<u64>>::empty());
        assert(runs_mset(Seq::<Seq<u64>>::empty()) == Multiset::<u64>::empty());
        assert(runs_mset(qs.push(s)) =~= runs_mset(qs).add(s.to_multiset()));
    } else {
        assert(qs.push(s)[0] == qs[0]);
        assert(qs.push(s).skip(1) =~= qs.skip(1).push(s));
        lemma_runs_mset_push(qs.skip(1), s);
        assert(runs_mset(qs.push(s)) =~= runs_mset(qs).add(s.to_multiset()));
    }
}

/// Reduces a non-empty queue of sorted runs to one sorted run holding
/// every key of every run, and reports the number of merge steps taken:
/// always exactly one fewer than the number of runs. A queue of one run
/// is returned unchanged in zero steps.
pub fn reduce(queue: Vec<Vec<u64>>) -> (r: (Vec<u64>, usize))
    requires
        queue@.len() >= 1,
        all_sorted(views(queue@)),
    ensures
        sorted(r.0@),
        r.0@.to_multiset() == runs_mset(views(queue@)),
        r.1 == queue@.len() - 1,
{
    let mut q = queue;
    let n0 = q.len();
    proof {
        assert(queue@.len() == n0);
    }
    let mut steps: usize = 0;
    while q.len() > 1
        invariant
            q@.len() >= 1,
            all_sorted(views(q@)),
            runs_mset(views(q@)) == runs_mset(views(queue@)),
            steps + q@.len() == queue@.len(),
            queue@.len() <= usize::MAX as int,
        decreases q@.len(),
    {
        let ghost qs0 = views(q@);
        let a = q.remove(0);
        let ghost qs1 = views(q@);
        let b = q.remove(0);
        let ghost qs2 = views(q@);
        proof {
            assert(qs1 =~= qs0.skip(1));
            assert(qs2 =~= qs0.skip(2)) by {
                assert(qs2 =~= qs1.skip(1));
                assert(qs1.skip(1) =~= qs0.skip(1).skip(1));
                assert(qs0.skip(1).skip(1) =~= qs0.skip(2));
            }
            assert(a@ == qs0[0]);
            assert(b@ == qs0[1]) by {
                assert(qs1[0] == qs0.skip(1)[0]);
            }
        }
        let m = merge_runs(&a, &b);
        q.push(m);
        proof {
            assert(views(q@) =~= qs2.push(m@));
            lemma_runs_mset_push(qs2, m@);
            assert(runs_mset(qs0) == qs0[0].to_multiset().add(
                qs0[1].to_multiset().add(runs_mset(qs0.skip(2))),
            )) by {
                assert(qs0.skip(1)[0] == qs0[1]);
                assert(qs0.skip(1).skip(1) =~= qs0.skip(2));
                assert(qs0.skip(1).len() > 0);
                assert(runs_mset(qs0.skip(1)) == qs0.skip(1)[0].to_multiset().add(
                    runs_mset(qs0.skip(1).skip(1)),
                ));
                assert(runs_mset(qs0) == qs0[0].to_multiset().add(runs_mset(qs0.skip(1))));
            }
            assert(runs_mset(qs2.push(m@)) =~= runs_mset(qs0));
            assert forall|t: int| 0 <= t < views(q@).len() implies sorted(
                #[trigger] views(q@)[t],
            ) by {
                if t < views(q@).len() - 1 {
                    assert(views(q@)[t] == qs0[t + 2]);
                } else {
                    assert(views(q@)[t] == m@);
                }
            }
        }
        steps = steps + 1;
    }
    let ghost qsf = views(q@);
    let last = q.remove(0);
    proof {
        assert(qsf.len() == 1);
        assert(last@ == qsf[0]);
        assert(qsf.skip(1) =~= Seq::<Seq<u64>>::empty());
        assert(runs_mset(Seq::<Seq<u64>>::empty()) == Multiset::<u64>::empty());
        assert(runs_mset(qsf) =~= last@.to_multiset());
        assert(sorted(qsf[0]));
    }
    (last, steps)
}

/// The scheduling decisions for runs that live outside memory, named by
/// plain identifiers: a first-in-first-out queue that hands out the two
/// oldest runs for merging, takes the merged run at the back, and
/// reports when a single run remains.
pub struct MergeScheduler {
    pending: Vec<u64>,
    merges: usize,
}

impl MergeScheduler {
    /// The identifiers of the runs still to be combined, oldest first.
    pub closed spec fn queue(&self) -> Seq<u64> {
        self.pending@
    }

    /// How many merges have been handed out and completed.
    pub closed spec fn merges_done(&self) -> int {
        self.merges as int
    }

    /// A scheduler over the runs of `ids`, in their order, with no merge
    /// done yet.
    pub fn new(ids: Vec<u64>) -> (s: MergeScheduler)
        ensures
            s.queue() == ids@,
            s.merges_done() == 0,
    {
        MergeScheduler { pending: ids, merges: 0 }
    }

    /// How many runs are still pending.
    pub fn pending_count(&self) -> (n: usize)
        ensures
            n == self.queue().len(),
    {
        self.pending.len()
    }

    /// How many merges have been completed so far.
    pub fn merges_completed(&self) -> (n: usize)
        ensures
            n == self.merges_done(),
    {
        self.merges
    }

    /// Hands out the two oldest pending runs to be merged, removing them
    /// from the queue; or nothing, if fewer than two runs are pending.
    pub fn next_pair(&mut self) -> (p: Option<(u64, u64)>)
        ensures
            final(self).merges_done() == old(self).merges_done(),
            match p {
                Some(pair) => old(self).queue().len() >= 2 && pair.0 == old(self).queue()[0]
                    && pair.1 == old(self).queue()[1] && final(self).queue() == old(
                    self,
                ).queue().skip(2),
                None => old(self).queue().len() < 2 && final(self).queue() == old(self).queue(),
            },
    {
        if self.pending.len() < 2 {
            return None;
        }
        let x = self.pending.remove(0);
        let y = self.pending.remove(0);
        proof {
            assert(self.pending@ =~= old(self).pending@.skip(2));
        }
        Some((x, y))
    }

    /// Takes the identifier of a finished merged run at the back of the
    /// queue and counts the completed merge step.
    pub fn complete(&mut self, id: u64)
        requires
            old(self).merges_done() < usize::MAX,
        ensures
            final(self).queue() == old(self).queue().push(id),
            final(self).merges_done() == old(self).merges_done() + 1,
    {
        self.pending.push(id);
        self.merges = self.merges + 1;
    }

    /// The single surviving run, once exactly one is left.
    pub fn final_run(&self) -> (r: Option<u64>)
        ensures
            match r {
                Some(id) => self.queue().len() == 1 && id == self.queue()[0],
                None => self.queue().len() != 1,
            },
    {
        if self.pending.len() == 1 {
            Some(self.pending[0])
        } else {
            None
        }
    }
}

} // verus!

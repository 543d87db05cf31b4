//! The store in which the coordinator keeps the dataflows of its jobs.

use crate::event::{ResourceId, ResourceIdView};
use crate::graph::{Dataflow, DataflowView};
use vstd::prelude::*;

verus! {

/// Why the store did not do what it was asked.
#[derive(Debug, PartialEq, Eq)]
pub struct StorageError {
    pub message: String,
}

/// Where the coordinator keeps the dataflows of its jobs.
///
/// A store tells by [`DataflowStorage::takes`] which dataflows it takes, by
/// [`DataflowStorage::refusal`] what it says of one that it does not take, and by
/// [`DataflowStorage::drops`] which jobs it lets go. A store that tells nothing of
/// itself keeps nothing, takes nothing and drops nothing.
pub trait DataflowStorage {
    /// What is kept, by job.
    open spec fn saved(&self) -> Map<ResourceIdView, DataflowView> {
        Map::empty()
    }

    /// True when the store, as it is, takes `dataflow`.
    open spec fn takes(&self, dataflow: DataflowView) -> bool {
        false
    }

    /// The message with which the store, as it is, refuses `dataflow`.
    open spec fn refusal(&self, dataflow: DataflowView) -> Seq<char> {
        "the store takes no dataflow"@
    }

    /// True when the store, as it is, drops what it keeps for the job `job_id` when asked.
    open spec fn drops(&self, job_id: ResourceIdView) -> bool {
        false
    }

    /// Keeps `dataflow` under its job's id, where the store takes it. A dataflow that
    /// it does not take changes nothing, and is refused with the store's message.
    fn save(&mut self, dataflow: &Dataflow) -> (done: Result<(), StorageError>)
        ensures
            done is Ok <==> old(self).takes(dataflow@),
            done is Ok ==> final(self).saved() == old(self).saved().insert(
                dataflow@.job_id,
                dataflow@,
            ),
            done matches Err(error) ==> final(self).saved() == old(self).saved()
                && error.message@ == old(self).refusal(dataflow@),
    ;

    /// The dataflow kept for the job `job_id`, if there is one.
    fn get(&self, job_id: &ResourceId) -> (found: Option<Dataflow>)
        ensures
            match found {
                Some(dataflow) => self.saved().contains_key(job_id@) && dataflow@
                    == self.saved()[job_id@],
                None => !self.saved().contains_key(job_id@),
            },
    ;

    /// True when a dataflow is kept for the job `job_id`.
    fn contains(&self, job_id: &ResourceId) -> (yes: bool)
        ensures
            yes == self.saved().contains_key(job_id@),
    ;

    /// Drops what is kept for the job `job_id`, where the store drops it. A drop that
    /// fails changes nothing.
    fn delete(&mut self, job_id: &ResourceId) -> (done: Result<(), StorageError>)
        ensures
            done is Ok <==> old(self).drops(job_id@),
            done is Ok ==> final(self).saved() == old(self).saved().remove(job_id@),
            done is Err ==> final(self).saved() == old(self).saved(),
    ;
}

/// A store held in memory. It never fails.
#[derive(Debug, PartialEq, Eq)]
pub struct MemoryDataflowStorage {
    dataflows: Vec<Dataflow>,
}

/// What the run `dataflows` keeps, by job. Where two are of one job, the earlier counts.
spec fn kept_dataflows(dataflows: Seq<Dataflow>) -> Map<ResourceIdView, DataflowView>
    decreases dataflows.len(),
{
    if dataflows.len() == 0 {
        Map::empty()
    } else {
        kept_dataflows(dataflows.drop_first()).insert(dataflows[0]@.job_id, dataflows[0]@)
    }
}

/// True when none of the dataflows before `at` is of the job `job`.
spec fn no_job_before(dataflows: Seq<Dataflow>, job: ResourceIdView, at: int) -> bool {
    forall|j: int| 0 <= j < at && j < dataflows.len() ==> (#[trigger] dataflows[j])@.job_id != job
}

/// A job of which no dataflow is in the run is not kept.
proof fn lemma_kept_missing(dataflows: Seq<Dataflow>, job: ResourceIdView)
    requires
        no_job_before(dataflows, job, dataflows.len() as int),
    ensures
        !kept_dataflows(dataflows).contains_key(job),
    decreases dataflows.len(),
{
    if dataflows.len() != 0 {
        let tail = dataflows.drop_first();
        assert forall|j: int| 0 <= j < tail.len() implies (#[trigger] tail[j])@.job_id != job by {
            assert(tail[j] == dataflows[j + 1]);
        }
        lemma_kept_missing(tail, job);
    }
}

/// The first dataflow of a job is what is kept for the job.
proof fn lemma_kept_first(dataflows: Seq<Dataflow>, job: ResourceIdView, at: int)
    requires
        0 <= at < dataflows.len(),
        dataflows[at]@.job_id == job,
        no_job_before(dataflows, job, at),
    ensures
        kept_dataflows(dataflows).contains_key(job),
        kept_dataflows(dataflows)[job] == dataflows[at]@,
    decreases dataflows.len(),
{
    if at != 0 {
        let tail = dataflows.drop_first();
        assert(dataflows[0]@.job_id != job);
        assert forall|j: int| 0 <= j < at - 1 && j < tail.len() implies (
        #[trigger] tail[j])@.job_id != job by {
            assert(tail[j] == dataflows[j + 1]);
        }
        lemma_kept_first(tail, job, at - 1);
    }
}

/// A new dataflow in the place of the first of its job is what is kept for the job.
proof fn lemma_kept_update(dataflows: Seq<Dataflow>, at: int, dataflow: Dataflow)
    requires
        0 <= at < dataflows.len(),
        dataflows[at]@.job_id == dataflow@.job_id,
        no_job_before(dataflows, dataflow@.job_id, at),
    ensures
        kept_dataflows(dataflows.update(at, dataflow)) == kept_dataflows(dataflows).insert(
            dataflow@.job_id,
            dataflow@,
        ),
    decreases dataflows.len(),
{
    let tail = dataflows.drop_first();
    let after = dataflows.update(at, dataflow);
    if at == 0 {
        assert(after.drop_first() =~= tail);
        assert(kept_dataflows(after) =~= kept_dataflows(dataflows).insert(
            dataflow@.job_id,
            dataflow@,
        ));
    } else {
        assert(dataflows[0]@.job_id != dataflow@.job_id);
        assert forall|j: int| 0 <= j < at - 1 && j < tail.len() implies (
        #[trigger] tail[j])@.job_id != dataflow@.job_id by {
            assert(tail[j] == dataflows[j + 1]);
        }
        lemma_kept_update(tail, at - 1, dataflow);
        assert(after.drop_first() =~= tail.update(at - 1, dataflow));
        assert(kept_dataflows(after) =~= kept_dataflows(dataflows).insert(
            dataflow@.job_id,
            dataflow@,
        ));
    }
}

/// A new dataflow at the end, of a job of which none is in the run, is what is kept
/// for the job.
proof fn lemma_kept_push(dataflows: Seq<Dataflow>, dataflow: Dataflow)
    requires
        no_job_before(dataflows, dataflow@.job_id, dataflows.len() as int),
    ensures
        kept_dataflows(dataflows.push(dataflow)) == kept_dataflows(dataflows).insert(
            dataflow@.job_id,
            dataflow@,
        ),
    decreases dataflows.len(),
{
    let after = dataflows.push(dataflow);
    if dataflows.len() == 0 {
        assert(after.drop_first() =~= dataflows);
        assert(kept_dataflows(after) =~= kept_dataflows(dataflows).insert(
            dataflow@.job_id,
            dataflow@,
        ));
    } else {
        let tail = dataflows.drop_first();
        assert(dataflows[0]@.job_id != dataflow@.job_id);
        assert forall|j: int| 0 <= j < tail.len() implies (#[trigger] tail[j])@.job_id
            != dataflow@.job_id by {
            assert(tail[j] == dataflows[j + 1]);
        }
        lemma_kept_push(tail, dataflow);
        assert(after.drop_first() =~= tail.push(dataflow));
        assert(kept_dataflows(after) =~= kept_dataflows(dataflows).insert(
            dataflow@.job_id,
            dataflow@,
        ));
    }
}

/// The dataflows of `dataflows` that are not of the job `job`, in order.
spec fn without_job(dataflows: Seq<Dataflow>, job: ResourceIdView) -> Seq<Dataflow>
    decreases dataflows.len(),
{
    if dataflows.len() == 0 {
        Seq::empty()
    } else if dataflows[0]@.job_id == job {
        without_job(dataflows.drop_first(), job)
    } else {
        seq![dataflows[0]] + without_job(dataflows.drop_first(), job)
    }
}

/// With the dataflows of a job left out, the job is not kept, and all others are as
/// before.
proof fn lemma_kept_without(dataflows: Seq<Dataflow>, job: ResourceIdView)
    ensures
        kept_dataflows(without_job(dataflows, job)) == kept_dataflows(dataflows).remove(job),
    decreases dataflows.len(),
{
    if dataflows.len() == 0 {
        assert(kept_dataflows(without_job(dataflows, job)) =~= kept_dataflows(dataflows).remove(
            job,
        ));
    } else {
        let tail = dataflows.drop_first();
        lemma_kept_without(tail, job);
        if dataflows[0]@.job_id != job {
            let rest = without_job(tail, job);
            assert((seq![dataflows[0]] + rest).drop_first() =~= rest);
        }
        assert(kept_dataflows(without_job(dataflows, job)) =~= kept_dataflows(dataflows).remove(
            job,
        ));
    }
}

/// Leaving out from the front what is left out at the end.
proof fn lemma_without_push(dataflows: Seq<Dataflow>, last: Dataflow, job: ResourceIdView)
    ensures
        without_job(dataflows.push(last), job) == if last@.job_id == job {
            without_job(dataflows, job)
        } else {
            without_job(dataflows, job).push(last)
        },
    decreases dataflows.len(),
{
    reveal_with_fuel(without_job, 2);
    let after = dataflows.push(last);
    if dataflows.len() == 0 {
        assert(after.drop_first() =~= dataflows);
        assert(without_job(after, job) =~= if last@.job_id == job {
            without_job(dataflows, job)
        } else {
            without_job(dataflows, job).push(last)
        });
    } else {
        assert(after.drop_first() =~= dataflows.drop_first().push(last));
        lemma_without_push(dataflows.drop_first(), last, job);
        assert(without_job(after, job) =~= if last@.job_id == job {
            without_job(dataflows, job)
        } else {
            without_job(dataflows, job).push(last)
        });
    }
}

impl MemoryDataflowStorage {
    /// An empty store.
    pub fn new() -> (store: Self)
        ensures
            store.saved() == Map::<ResourceIdView, DataflowView>::empty(),
    {
        MemoryDataflowStorage { dataflows: Vec::new() }
    }

    /// The place of the first dataflow of the job `job_id`, if there is one.
    fn find(&self, job_id: &ResourceId) -> (at: Option<usize>)
        ensures
            match at {
                Some(i) => i < self.dataflows@.len() && self.dataflows@[i as int]@.job_id
                    == job_id@ && no_job_before(self.dataflows@, job_id@, i as int),
                None => no_job_before(self.dataflows@, job_id@, self.dataflows@.len() as int),
            },
    {
        let mut i: usize = 0;
        while i < self.dataflows.len()
            invariant
                i <= self.dataflows.len(),
                no_job_before(self.dataflows@, job_id@, i as int),
            decreases self.dataflows.len() - i,
        {
            if self.dataflows[i].job_id.same(job_id) {
                return Some(i);
            }
            i += 1;
        }
        None
    }
}

impl DataflowStorage for MemoryDataflowStorage {
    closed spec fn saved(&self) -> Map<ResourceIdView, DataflowView> {
        kept_dataflows(self.dataflows@)
    }

    open spec fn takes(&self, dataflow: DataflowView) -> bool {
        true
    }

    open spec fn drops(&self, job_id: ResourceIdView) -> bool {
        true
    }

    fn save(&mut self, dataflow: &Dataflow) -> (done: Result<(), StorageError>)
        ensures
            done is Ok,
    {
        let copy = dataflow.clone();
        match self.find(&dataflow.job_id) {
            Some(at) => {
                proof {
                    lemma_kept_update(self.dataflows@, at as int, copy);
                }
                self.dataflows.set(at, copy);
            },
            None => {
                proof {
                    lemma_kept_push(self.dataflows@, copy);
                }
                self.dataflows.push(copy);
            },
        }
        Ok(())
    }

    fn get(&self, job_id: &ResourceId) -> (found: Option<Dataflow>) {
        match self.find(job_id) {
            Some(at) => {
                proof {
                    lemma_kept_first(self.dataflows@, job_id@, at as int);
                }
                Some(self.dataflows[at].clone())
            },
            None => {
                proof {
                    lemma_kept_missing(self.dataflows@, job_id@);
                }
                None
            },
        }
    }

    fn contains(&self, job_id: &ResourceId) -> (yes: bool) {
        match self.find(job_id) {
            Some(at) => {
                proof {
                    lemma_kept_first(self.dataflows@, job_id@, at as int);
                }
                true
            },
            None => {
                proof {
                    lemma_kept_missing(self.dataflows@, job_id@);
                }
                false
            },
        }
    }

    fn delete(&mut self, job_id: &ResourceId) -> (done: Result<(), StorageError>)
        ensures
            done is Ok,
    {
        let mut left: Vec<Dataflow> = Vec::new();
        let mut i: usize = 0;
        assert(self.dataflows@.take(0) =~= Seq::<Dataflow>::empty());
        while i < self.dataflows.len()
            invariant
                i <= self.dataflows.len(),
                kept_dataflows(left@) == kept_dataflows(
                    without_job(self.dataflows@.take(i as int), job_id@),
                ),
            decreases self.dataflows.len() - i,
        {
            proof {
                assert(self.dataflows@.take(i + 1) =~= self.dataflows@.take(i as int).push(
                    self.dataflows@[i as int],
                ));
                lemma_without_push(
                    self.dataflows@.take(i as int),
                    self.dataflows@[i as int],
                    job_id@,
                );
            }
            if !self.dataflows[i].job_id.same(job_id) {
                let copy = self.dataflows[i].clone();
                proof {
                    lemma_kept_appended(
                        left@,
                        without_job(self.dataflows@.take(i as int), job_id@),
                        copy,
                        self.dataflows@[i as int],
                    );
                }
                left.push(copy);
            }
            i += 1;
        }
        proof {
            assert(self.dataflows@.take(i as int) =~= self.dataflows@);
            lemma_kept_without(self.dataflows@, job_id@);
        }
        self.dataflows = left;
        Ok(())
    }
}

/// Two runs that keep the same keep the same with one more dataflow at the end of
/// each, where the two added are alike.
proof fn lemma_kept_appended(a: Seq<Dataflow>, b: Seq<Dataflow>, x: Dataflow, y: Dataflow)
    requires
        kept_dataflows(a) == kept_dataflows(b),
        x@ == y@,
    ensures
        kept_dataflows(a.push(x)) == kept_dataflows(b.push(y)),
{
    lemma_kept_last(a, x);
    lemma_kept_last(b, y);
}

/// One more dataflow at the end is kept for its job where nothing was kept for it.
proof fn lemma_kept_last(dataflows: Seq<Dataflow>, last: Dataflow)
    ensures
        kept_dataflows(dataflows.push(last)) == if kept_dataflows(dataflows).contains_key(
            last@.job_id,
        ) {
            kept_dataflows(dataflows)
        } else {
            kept_dataflows(dataflows).insert(last@.job_id, last@)
        },
    decreases dataflows.len(),
{
    reveal_with_fuel(kept_dataflows, 2);
    let after = dataflows.push(last);
    let expected = if kept_dataflows(dataflows).contains_key(last@.job_id) {
        kept_dataflows(dataflows)
    } else {
        kept_dataflows(dataflows).insert(last@.job_id, last@)
    };
    if dataflows.len() == 0 {
        assert(after.drop_first() =~= dataflows);
        assert(kept_dataflows(after) =~= expected);
    } else {
        assert(after.drop_first() =~= dataflows.drop_first().push(last));
        lemma_kept_last(dataflows.drop_first(), last);
        assert(kept_dataflows(after) =~= expected);
    }
}

} // verus!

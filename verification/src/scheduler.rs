//! The executions of one job.

use crate::execution::{
    stops_on_terminate, Ack, DataflowStatus, Execution, ExecutionId, ExecutionIdView,
    ExecutionState, Heartbeat, HeartbeatStatus, SubdataflowDeploymentPlan,
    TaskDeploymentException,
};
use crate::graph::{HostAddr, HostAddrView};
use crate::rpc::RpcStatus;
use vstd::prelude::*;

verus! {

/// The executions of one job, no two of one id: see [`Scheduler::distinct`].
#[derive(Debug, PartialEq, Eq)]
pub struct Scheduler {
    pub executions: Vec<Execution>,
}

/// A worker that has to be told to stop an execution.
#[derive(Debug, PartialEq, Eq)]
pub struct StopRequest {
    pub execution_id: ExecutionId,
    pub target: HostAddr,
}

/// True when every execution is closed.
pub open spec fn all_closed(executions: Seq<Execution>) -> bool {
    forall|i: int|
        0 <= i < executions.len() ==> (#[trigger] executions[i]).status.state
            == ExecutionState::Closed
}

/// The status of a job whose termination was asked for: closed when all of its
/// executions are, closing until then.
pub open spec fn aggregate_status(executions: Seq<Execution>) -> DataflowStatus {
    if all_closed(executions) {
        DataflowStatus::Closed
    } else {
        DataflowStatus::Closing
    }
}

/// An execution after its termination was asked for.
pub open spec fn terminated(execution: Execution) -> Execution {
    Execution {
        status: HeartbeatStatus {
            state: if stops_on_terminate(execution.status.state) {
                ExecutionState::Closing
            } else {
                execution.status.state
            },
            ..execution.status
        },
        ..execution
    }
}

/// The executions whose workers have to be told to stop, in order.
pub open spec fn to_stop(executions: Seq<Execution>) -> Seq<(ExecutionIdView, HostAddrView)>
    decreases executions.len(),
{
    if executions.len() == 0 {
        Seq::empty()
    } else if stops_on_terminate(executions.last().status.state) {
        to_stop(executions.drop_last()).push((executions.last().id@, executions.last().target@))
    } else {
        to_stop(executions.drop_last())
    }
}

/// The models of a run of stop requests.
pub open spec fn stops_view(stops: Seq<StopRequest>) -> Seq<(ExecutionIdView, HostAddrView)> {
    Seq::new(stops.len(), |i: int| (stops[i].execution_id@, stops[i].target@))
}

/// True when no execution before `at` has the id `id`.
pub open spec fn none_before(executions: Seq<Execution>, id: ExecutionIdView, at: int) -> bool {
    forall|j: int| 0 <= j < at && j < executions.len() ==> (#[trigger] executions[j]).id@ != id
}

/// True when one of `executions` has the id `id`.
pub open spec fn has_execution(executions: Seq<Execution>, id: ExecutionIdView) -> bool {
    exists|i: int| 0 <= i < executions.len() && (#[trigger] executions[i]).id@ == id
}

/// True when no two of `executions` have one id.
pub open spec fn distinct_ids(executions: Seq<Execution>) -> bool
    decreases executions.len(),
{
    executions.len() == 0 || (!has_execution(executions.drop_last(), executions.last().id@)
        && distinct_ids(executions.drop_last()))
}

/// True when `execution` is the execution `id` on the worker `target`, new.
pub open spec fn is_fresh(execution: Execution, id: ExecutionIdView, target: HostAddrView) -> bool {
    &&& execution.id@ == id
    &&& execution.target@ == target
    &&& execution.status == (HeartbeatStatus {
        last_timestamp: 0,
        last_sequence: None,
        last_ack: None,
        missed: 0,
        state: ExecutionState::Initialized,
    })
}

/// True when `after` is `before` with the execution `id` on `target` added, new: at
/// the end, or in the place of the execution that had the id.
pub open spec fn is_added(
    before: Seq<Execution>,
    after: Seq<Execution>,
    id: ExecutionIdView,
    target: HostAddrView,
) -> bool {
    if has_execution(before, id) {
        exists|i: int|
            {
                &&& 0 <= i < before.len()
                &&& (#[trigger] before[i]).id@ == id
                &&& none_before(before, id, i)
                &&& after.len() == before.len()
                &&& is_fresh(after[i], id, target)
                &&& forall|j: int| 0 <= j < before.len() && j != i ==> #[trigger] after[j] == before[j]
            }
    } else {
        after.len() == before.len() + 1 && after.drop_last() == before && is_fresh(
            after.last(),
            id,
            target,
        )
    }
}

/// True when the two runs have the same ids in the same places.
pub open spec fn same_ids(a: Seq<Execution>, b: Seq<Execution>) -> bool {
    a.len() == b.len() && forall|i: int| 0 <= i < a.len() ==> (#[trigger] a[i]).id@ == b[i].id@
}

/// Runs with the same ids in the same places are distinct together.
pub proof fn lemma_same_ids(a: Seq<Execution>, b: Seq<Execution>)
    requires
        same_ids(a, b),
    ensures
        distinct_ids(a) == distinct_ids(b),
        forall|id: ExecutionIdView| has_execution(a, id) == has_execution(b, id),
    decreases a.len(),
{
    assert forall|id: ExecutionIdView| has_execution(a, id) == has_execution(b, id) by {
        if has_execution(a, id) {
            let i = choose|i: int| 0 <= i < a.len() && (#[trigger] a[i]).id@ == id;
            assert(b[i].id@ == id);
        }
        if has_execution(b, id) {
            let i = choose|i: int| 0 <= i < b.len() && (#[trigger] b[i]).id@ == id;
            assert(a[i].id@ == id);
        }
    }
    if a.len() != 0 {
        assert forall|i: int| 0 <= i < a.drop_last().len() implies (
        #[trigger] a.drop_last()[i]).id@ == b.drop_last()[i].id@ by {
            assert(a[i].id@ == b[i].id@);
        }
        lemma_same_ids(a.drop_last(), b.drop_last());
        assert(a[a.len() - 1].id@ == b[b.len() - 1].id@);
    }
}

impl Scheduler {
    /// True when no two executions have one id.
    pub open spec fn distinct(&self) -> bool {
        distinct_ids(self.executions@)
    }

    /// A scheduler with no execution.
    pub fn new() -> (scheduler: Scheduler)
        ensures
            scheduler.executions@.len() == 0,
            scheduler.distinct(),
    {
        Scheduler { executions: Vec::new() }
    }

    /// Records how the deployment of `plan` ended. Where the worker accepted, the
    /// execution is added, initialized, in the place of any that had its id; where
    /// it did not, nothing is added and the failure is reported.
    pub fn execute(&mut self, plan: &SubdataflowDeploymentPlan, accepted: Result<(), RpcStatus>) -> (done:
        Result<(), TaskDeploymentException>)
        ensures
            old(self).distinct() ==> final(self).distinct(),
            match accepted {
                Ok(_) => done is Ok && is_added(
                    old(self).executions@,
                    final(self).executions@,
                    plan.execution_id@,
                    plan.target@,
                ),
                Err(status) => {
                    &&& done == Err::<(), TaskDeploymentException>(
                        TaskDeploymentException::Rejected(status),
                    )
                    &&& final(self).executions@ == old(self).executions@
                },
            },
    {
        match accepted {
            Ok(_) => {
                let ghost before = self.executions@;
                let fresh = Execution::new(plan.execution_id.clone(), plan.target.clone());
                match self.find(&plan.execution_id) {
                    Some(at) => {
                        self.executions.set(at, fresh);
                        proof {
                            lemma_same_ids(before, self.executions@);
                            assert(before[at as int].id@ == plan.execution_id@);
                        }
                    },
                    None => {
                        self.executions.push(fresh);
                        proof {
                            assert(self.executions@.drop_last() =~= before);
                            assert(!has_execution(before, plan.execution_id@));
                        }
                    },
                }
                Ok(())
            },
            Err(status) => Err(TaskDeploymentException::Rejected(status)),
        }
    }

    /// The place of the first execution with the id `id`, if there is one.
    pub fn find(&self, id: &ExecutionId) -> (at: Option<usize>)
        ensures
            match at {
                Some(i) => i < self.executions@.len() && self.executions@[i as int].id@ == id@
                    && none_before(self.executions@, id@, i as int),
                None => none_before(self.executions@, id@, self.executions@.len() as int),
            },
    {
        let mut i: usize = 0;
        while i < self.executions.len()
            invariant
                i <= self.executions.len(),
                none_before(self.executions@, id@, i as int),
            decreases self.executions.len() - i,
        {
            if self.executions[i].id.same(id) {
                return Some(i);
            }
            i += 1;
        }
        None
    }

    /// The first execution with the id `id`, to be changed in place; none where the id
    /// is unknown.
    pub fn get_execution_mut(&mut self, id: &ExecutionId) -> (found: Option<&mut Execution>)
        ensures
            match found {
                Some(execution) => exists|i: int|
                    {
                        &&& 0 <= i < old(self).executions@.len()
                        &&& none_before(old(self).executions@, id@, i)
                        &&& #[trigger] old(self).executions@[i] == *execution
                        &&& execution.id@ == id@
                        &&& final(self).executions@ == old(self).executions@.update(
                            i,
                            *final(execution),
                        )
                    },
                None => none_before(old(self).executions@, id@, old(self).executions@.len() as int)
                    && final(self).executions@ == old(self).executions@,
            },
    {
        match self.find(id) {
            Some(i) => Some(&mut self.executions[i]),
            None => None,
        }
    }

    /// Asks every execution to end. Those that are initialized, running or suspect
    /// are closing from now on; their workers are to be told, in order. The status
    /// that comes back is that of the job: closed when every execution is.
    pub fn terminate_dataflow(&mut self) -> (out: (DataflowStatus, Vec<StopRequest>))
        ensures
            final(self).executions@.len() == old(self).executions@.len(),
            forall|i: int|
                0 <= i < old(self).executions@.len() ==> #[trigger] final(self).executions@[i]
                    == terminated(old(self).executions@[i]),
            stops_view(out.1@) == to_stop(old(self).executions@),
            out.0 == aggregate_status(final(self).executions@),
            old(self).distinct() ==> final(self).distinct(),
    {
        let mut stops: Vec<StopRequest> = Vec::new();
        let mut closed = true;
        let mut i: usize = 0;
        assert(stops_view(stops@) =~= to_stop(old(self).executions@.take(0)));
        while i < self.executions.len()
            invariant
                i <= self.executions.len(),
                self.executions@.len() == old(self).executions@.len(),
                forall|j: int|
                    0 <= j < i ==> #[trigger] self.executions@[j] == terminated(
                        old(self).executions@[j],
                    ),
                forall|j: int|
                    i <= j < self.executions@.len() ==> #[trigger] self.executions@[j] == old(self).executions@[j],
                stops_view(stops@) == to_stop(old(self).executions@.take(i as int)),
                closed == all_closed(self.executions@.take(i as int)),
            decreases self.executions.len() - i,
        {
            let ghost before = self.executions@;
            assert(old(self).executions@.take(i + 1).drop_last() =~= old(self).executions@.take(
                i as int,
            ));
            if self.executions[i].terminate() {
                let ghost listed = stops_view(stops@);
                stops.push(
                    StopRequest {
                        execution_id: self.executions[i].id.clone(),
                        target: self.executions[i].target.clone(),
                    },
                );
                assert(stops_view(stops@) =~= listed.push(
                    (old(self).executions@[i as int].id@, old(self).executions@[i as int].target@),
                ));
            }
            match self.executions[i].status.state {
                ExecutionState::Closed => {},
                _ => {
                    closed = false;
                },
            }
            proof {
                assert(self.executions@[i as int] == terminated(old(self).executions@[i as int]));
                let now = self.executions@.take(i + 1);
                let earlier = before.take(i as int);
                assert forall|j: int| 0 <= j < i implies now[j] == earlier[j] by {}
                if all_closed(now) {
                    assert forall|j: int| 0 <= j < earlier.len() implies (
                    #[trigger] earlier[j]).status.state == ExecutionState::Closed by {
                        assert(now[j].status.state == ExecutionState::Closed);
                    }
                }
                if all_closed(earlier) && self.executions@[i as int].status.state
                    == ExecutionState::Closed {
                    assert forall|j: int| 0 <= j < now.len() implies (
                    #[trigger] now[j]).status.state == ExecutionState::Closed by {
                        if j < i {
                            assert(earlier[j].status.state == ExecutionState::Closed);
                        }
                    }
                }
                if !all_closed(earlier) {
                    let j = choose|j: int|
                        0 <= j < earlier.len() && (#[trigger] earlier[j]).status.state
                            != ExecutionState::Closed;
                    assert(now[j].status.state != ExecutionState::Closed);
                }
                if self.executions@[i as int].status.state != ExecutionState::Closed {
                    assert(now[i as int].status.state != ExecutionState::Closed);
                }
            }
            i += 1;
        }
        proof {
            assert(old(self).executions@.take(i as int) =~= old(self).executions@);
            assert(self.executions@.take(i as int) =~= self.executions@);
        }
        proof {
            lemma_same_ids(old(self).executions@, self.executions@);
        }
        let status = if closed {
            DataflowStatus::Closed
        } else {
            DataflowStatus::Closing
        };
        (status, stops)
    }

    /// Closes every execution that is closing: the grace period is over. What comes
    /// back is the status of the job after that.
    pub fn force_close(&mut self) -> (status: DataflowStatus)
        ensures
            final(self).executions@ == forced(old(self).executions@),
            status == aggregate_status(final(self).executions@),
            old(self).distinct() ==> final(self).distinct(),
    {
        let mut closed = true;
        let mut i: usize = 0;
        while i < self.executions.len()
            invariant
                i <= self.executions.len(),
                self.executions@.len() == old(self).executions@.len(),
                forall|j: int|
                    0 <= j < i ==> #[trigger] self.executions@[j] == forced(
                        old(self).executions@,
                    )[j],
                forall|j: int|
                    i <= j < self.executions@.len() ==> #[trigger] self.executions@[j] == old(
                        self,
                    ).executions@[j],
                closed == all_closed(self.executions@.take(i as int)),
            decreases self.executions.len() - i,
        {
            let ghost before = self.executions@;
            match self.executions[i].status.state {
                ExecutionState::Closing => {
                    self.executions[i].force_close();
                },
                ExecutionState::Closed => {},
                _ => {
                    closed = false;
                },
            }
            proof {
                let now = self.executions@.take(i + 1);
                let earlier = before.take(i as int);
                assert forall|j: int| 0 <= j < i implies now[j] == earlier[j] by {}
                if all_closed(now) {
                    assert forall|j: int| 0 <= j < earlier.len() implies (
                    #[trigger] earlier[j]).status.state == ExecutionState::Closed by {
                        assert(now[j].status.state == ExecutionState::Closed);
                    }
                }
                if all_closed(earlier) && self.executions@[i as int].status.state
                    == ExecutionState::Closed {
                    assert forall|j: int| 0 <= j < now.len() implies (
                    #[trigger] now[j]).status.state == ExecutionState::Closed by {
                        if j < i {
                            assert(earlier[j].status.state == ExecutionState::Closed);
                        }
                    }
                }
                if !all_closed(earlier) {
                    let j = choose|j: int|
                        0 <= j < earlier.len() && (#[trigger] earlier[j]).status.state
                            != ExecutionState::Closed;
                    assert(now[j].status.state != ExecutionState::Closed);
                }
                if self.executions@[i as int].status.state != ExecutionState::Closed {
                    assert(now[i as int].status.state != ExecutionState::Closed);
                }
            }
            i += 1;
        }
        proof {
            assert(self.executions@.take(i as int) =~= self.executions@);
            assert(self.executions@ =~= forced(old(self).executions@));
            lemma_same_ids(old(self).executions@, self.executions@);
        }
        if closed {
            DataflowStatus::Closed
        } else {
            DataflowStatus::Closing
        }
    }

    /// Gives a heartbeat to the execution that it names. A heartbeat that names none,
    /// or one that is unknown, changes nothing.
    pub fn update_heartbeat_status(&mut self, heartbeat: &Heartbeat)
        ensures
            final(self).executions@ == heard(old(self).executions@, *heartbeat),
            old(self).distinct() ==> final(self).distinct(),
    {
        match &heartbeat.execution_id {
            Some(id) => {
                match self.find(id) {
                    Some(at) => {
                        self.executions[at].update_heartbeat_status(heartbeat);
                    },
                    None => {},
                }
            },
            None => {},
        }
        assert(self.executions@ =~= heard(old(self).executions@, *heartbeat));
        proof {
            lemma_same_ids(old(self).executions@, self.executions@);
        }
    }

    /// Gives an acknowledgement to the execution that it names. One that names none,
    /// or one that is unknown, changes nothing.
    pub fn ack(&mut self, ack: &Ack)
        ensures
            final(self).executions@ == acknowledged(old(self).executions@, *ack),
            old(self).distinct() ==> final(self).distinct(),
    {
        match &ack.execution_id {
            Some(id) => {
                match self.find(id) {
                    Some(at) => {
                        self.executions[at].ack(ack);
                    },
                    None => {},
                }
            },
            None => {},
        }
        assert(self.executions@ =~= acknowledged(old(self).executions@, *ack));
        proof {
            lemma_same_ids(old(self).executions@, self.executions@);
        }
    }
}

/// True when the execution at `i` is the one that a message for `id` is for: the
/// first with that id.
pub open spec fn is_addressed(executions: Seq<Execution>, id: Option<ExecutionId>, i: int) -> bool {
    id matches Some(named) && executions[i].id@ == named@ && none_before(executions, named@, i)
}

/// The executions after the grace period: those that were closing are closed.
pub open spec fn forced(executions: Seq<Execution>) -> Seq<Execution> {
    Seq::new(
        executions.len(),
        |i: int|
            if executions[i].status.state == ExecutionState::Closing {
                Execution {
                    status: HeartbeatStatus {
                        state: ExecutionState::Closed,
                        ..executions[i].status
                    },
                    ..executions[i]
                }
            } else {
                executions[i]
            },
    )
}

/// The executions after a heartbeat: the one that it is for takes it, the others stay.
pub open spec fn heard(executions: Seq<Execution>, heartbeat: Heartbeat) -> Seq<Execution> {
    Seq::new(
        executions.len(),
        |i: int|
            if is_addressed(executions, heartbeat.execution_id, i) {
                Execution {
                    status: crate::execution::after_heartbeat(
                        executions[i].status,
                        heartbeat.timestamp,
                        heartbeat.sequence,
                    ),
                    ..executions[i]
                }
            } else {
                executions[i]
            },
    )
}

/// The executions after an acknowledgement: the one that it is for takes it, the
/// others stay.
pub open spec fn acknowledged(executions: Seq<Execution>, ack: Ack) -> Seq<Execution> {
    Seq::new(
        executions.len(),
        |i: int|
            if is_addressed(executions, ack.execution_id, i) {
                Execution {
                    status: crate::execution::after_ack(executions[i].status, ack.sequence, ack.kind),
                    ..executions[i]
                }
            } else {
                executions[i]
            },
    )
}

} // verus!

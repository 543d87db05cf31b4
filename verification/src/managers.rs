//! The manager of one job, and the dispatcher that owns the managers of all jobs.

use crate::cluster::{hosts_view, live_hosts, partitioned, split, Cluster, Node};
use crate::event::{ResourceId, ResourceIdView};
use crate::execution::{
    Ack, AckResponderBuilder, DataflowStatus, ExecutionId, ExecutionIdView, ExecutionState,
    Heartbeat, HeartbeatBuilder, SubdataflowDeploymentPlan,
    TaskDeploymentException,
};
use crate::graph::{fault_of, Dataflow, DataflowView, HostAddr, HostAddrView, InvalidDataflow};
use crate::rpc::{RpcCode, RpcStatus};
use crate::scheduler::{
    acknowledged, aggregate_status, heard, is_added, stops_view, terminated, to_stop, Scheduler,
    StopRequest,
};
use crate::storage::{DataflowStorage, StorageError};
use vstd::prelude::*;
use vstd::string::StringExecFns;

verus! {

/// How far the deployment of a job has come after one more worker has answered.
#[derive(Debug, PartialEq, Eq)]
pub enum DeployStep {
    /// More subdataflows are to be deployed.
    Pending,
    /// Every subdataflow is deployed.
    Completed,
    /// A worker did not accept. No further subdataflow is deployed, and the workers
    /// that already run one are to be told to stop.
    Aborted { stops: Vec<StopRequest> },
}

/// One job as the coordinator runs it: its dataflow, its executions, and what is left
/// of its deployment.
#[derive(Debug, PartialEq, Eq)]
pub struct JobManager {
    pub dataflow: Dataflow,
    pub job_id: ResourceId,
    pub scheduler: Scheduler,
    /// Where this coordinator listens.
    pub location: HostAddr,
    /// What the workers are asked to run, in the order of deployment.
    pub plans: Vec<SubdataflowDeploymentPlan>,
    /// How many of the plans were handed to their workers.
    pub next: usize,
    /// Why the deployment was given up, where it was.
    pub failure: Option<TaskDeploymentException>,
}

/// True when `plan` asks the worker of `part` to run `part` as the subdataflow
/// number `index` of the job, with heartbeats as `heartbeat` says and
/// acknowledgements to the coordinator at `location`.
pub open spec fn plan_for(
    plan: SubdataflowDeploymentPlan,
    part: (HostAddrView, DataflowView),
    index: int,
    location: HostAddrView,
    heartbeat: HeartbeatBuilder,
    ack: AckResponderBuilder,
) -> bool {
    &&& plan.subdataflow@ == part.1
    &&& plan.target@ == part.0
    &&& plan.execution_id@ == (ExecutionIdView { job_id: part.1.job_id, sub_id: index as u32 })
    &&& hosts_view(plan.ack.nodes@) == seq![location]
    &&& plan.ack.delay == ack.delay
    &&& plan.ack.buf_size == ack.buf_size
    &&& plan.ack.connection_timeout == ack.connection_timeout
    &&& plan.ack.rpc_timeout == ack.rpc_timeout
    &&& hosts_view(plan.heartbeat.nodes@) == hosts_view(heartbeat.nodes@)
    &&& plan.heartbeat.period == heartbeat.period
    &&& plan.heartbeat.connection_timeout == heartbeat.connection_timeout
    &&& plan.heartbeat.rpc_timeout == heartbeat.rpc_timeout
}

/// True when `plans` are the plans for `parts`, in order.
pub open spec fn plans_for(
    plans: Seq<SubdataflowDeploymentPlan>,
    parts: Seq<(HostAddrView, DataflowView)>,
    location: HostAddrView,
    heartbeat: HeartbeatBuilder,
    ack: AckResponderBuilder,
) -> bool {
    &&& plans.len() == parts.len()
    &&& forall|i: int|
        0 <= i < plans.len() ==> plan_for(#[trigger] plans[i], parts[i], i, location, heartbeat, ack)
}

/// `df` with every operator given its worker among those of `workers` that are alive.
pub open spec fn with_workers(df: DataflowView, workers: Seq<Node>) -> DataflowView {
    DataflowView { nodes: partitioned(df.nodes, live_hosts(workers), df.job_id), ..df }
}

/// How the planning of a deployment ends once the dataflow is kept. With no worker
/// alive it fails and nothing changes; so it does with more parts than can be
/// numbered. Else it ends well: the manager holds the dataflow with its workers and
/// the plans for its parts, in order, none handed out yet. Nothing else of the
/// manager changes.
pub open spec fn planned(
    before: JobManager,
    after: JobManager,
    workers: Seq<Node>,
    heartbeat: HeartbeatBuilder,
    ack: AckResponderBuilder,
    done: Result<(), TaskDeploymentException>,
) -> bool {
    if live_hosts(workers).len() == 0 {
        done == Err::<(), TaskDeploymentException>(TaskDeploymentException::NoWorker) && after
            == before
    } else if split(with_workers(before.dataflow@, workers)).len() > u32::MAX {
        done == Err::<(), TaskDeploymentException>(TaskDeploymentException::TooManySubdataflows)
            && after == before
    } else {
        &&& done is Ok
        &&& after.job_id == before.job_id
        &&& after.location == before.location
        &&& after.scheduler == before.scheduler
        &&& after.failure == before.failure
        &&& after.dataflow@ == with_workers(before.dataflow@, workers)
        &&& plans_for(after.plans@, split(after.dataflow@), before.location@, heartbeat, ack)
        &&& after.next == 0
    }
}

impl JobManager {
    /// The manager of the job that `dataflow` describes, with nothing deployed yet.
    pub fn new(location: &HostAddr, dataflow: Dataflow) -> (manager: JobManager)
        ensures
            manager.dataflow == dataflow,
            manager.job_id@ == dataflow@.job_id,
            manager.location@ == location@,
            manager.scheduler.executions@.len() == 0,
            manager.scheduler.distinct(),
            manager.plans@.len() == 0,
            manager.next == 0,
            manager.failure is None,
    {
        let job_id = dataflow.job_id.clone();
        JobManager {
            dataflow,
            job_id,
            scheduler: Scheduler::new(),
            location: location.clone(),
            plans: Vec::new(),
            next: 0,
            failure: None,
        }
    }

    /// Prepares the deployment: keeps the dataflow in `storage` and, where the store
    /// took it, plans the deployment (see [`JobManager::plan_deployment`]). No worker
    /// is contacted. The dataflow is kept before anything else is done; where the store
    /// does not take it, nothing else is done.
    pub fn deploy_dataflow<D: DataflowStorage>(
        &mut self,
        cluster: &Cluster,
        storage: &mut D,
        heartbeat_builder: &HeartbeatBuilder,
        ack_builder: &AckResponderBuilder,
    ) -> (done: Result<(), TaskDeploymentException>)
        ensures
            if old(storage).takes(old(self).dataflow@) {
                &&& final(storage).saved() == old(storage).saved().insert(
                    old(self).dataflow@.job_id,
                    old(self).dataflow@,
                )
                &&& planned(
                    *old(self),
                    *final(self),
                    cluster.workers@,
                    *heartbeat_builder,
                    *ack_builder,
                    done,
                )
            } else {
                &&& final(storage).saved() == old(storage).saved()
                &&& *final(self) == *old(self)
                &&& done matches Err(TaskDeploymentException::StorageFailed(message))
                &&& message@ == old(storage).refusal(old(self).dataflow@)
            },
    {
        let saved = storage.save(&self.dataflow);
        self.plan_deployment(cluster, saved, heartbeat_builder, ack_builder)
    }

    /// Plans the deployment, given what the store made of the dataflow. Where the store
    /// refused it, the deployment fails with the store's message. Else every operator
    /// is given its worker, the dataflow is parted by worker, and one deployment is
    /// planned for each part, in order: see [`planned`].
    pub fn plan_deployment(
        &mut self,
        cluster: &Cluster,
        saved: Result<(), StorageError>,
        heartbeat_builder: &HeartbeatBuilder,
        ack_builder: &AckResponderBuilder,
    ) -> (done: Result<(), TaskDeploymentException>)
        ensures
            match saved {
                Err(error) => done == Err::<(), TaskDeploymentException>(
                    TaskDeploymentException::StorageFailed(error.message),
                ) && *final(self) == *old(self),
                Ok(_) => planned(
                    *old(self),
                    *final(self),
                    cluster.workers@,
                    *heartbeat_builder,
                    *ack_builder,
                    done,
                ),
            },
    {
        match saved {
            Ok(_) => {},
            Err(error) => {
                return Err(TaskDeploymentException::StorageFailed(error.message));
            },
        }
        let mut assigned = self.dataflow.clone();
        if !cluster.partition_dataflow(&mut assigned) {
            return Err(TaskDeploymentException::NoWorker);
        }
        let parts = cluster.split_into_subdataflow(&assigned);
        if parts.len() > u32::MAX as usize {
            return Err(TaskDeploymentException::TooManySubdataflows);
        }
        let ghost models = split(assigned@);
        let mut plans: Vec<SubdataflowDeploymentPlan> = Vec::new();
        let mut i: usize = 0;
        while i < parts.len()
            invariant
                i <= parts.len(),
                parts@.len() <= u32::MAX,
                models == crate::cluster::parts_view(parts@),
                plans@.len() == i,
                forall|j: int|
                    0 <= j < i ==> plan_for(
                        #[trigger] plans@[j],
                        models[j],
                        j,
                        self.location@,
                        *heartbeat_builder,
                        *ack_builder,
                    ),
            decreases parts.len() - i,
        {
            let mut ack = ack_builder.clone();
            let mut nodes: Vec<HostAddr> = Vec::new();
            nodes.push(self.location.clone());
            assert(hosts_view(nodes@) =~= seq![self.location@]);
            ack.nodes = nodes;
            let subdataflow = parts[i].1.clone();
            let plan = SubdataflowDeploymentPlan {
                execution_id: ExecutionId { job_id: subdataflow.job_id.clone(), sub_id: i as u32 },
                subdataflow,
                target: parts[i].0.clone(),
                ack,
                heartbeat: heartbeat_builder.clone(),
            };
            assert(models[i as int] == (parts@[i as int].0@, parts@[i as int].1@));
            plans.push(plan);
            i += 1;
        }
        self.dataflow = assigned;
        self.plans = plans;
        self.next = 0;
        Ok(())
    }

    /// The plan that is to be handed to its worker next; none when all were handed
    /// out or the deployment was given up.
    pub fn next_deployment(&self) -> (plan: Option<&SubdataflowDeploymentPlan>)
        ensures
            match plan {
                Some(p) => self.next < self.plans@.len() && *p == self.plans@[self.next as int],
                None => self.next >= self.plans@.len(),
            },
    {
        if self.next < self.plans.len() {
            Some(&self.plans[self.next])
        } else {
            None
        }
    }

    /// Records how the worker of the next plan answered. Where it accepted, the
    /// execution is added, initialized, and the next plan is up. Where it did not, the
    /// deployment is given up: no plan is up any more, the failure is kept, and every
    /// execution added so far is asked to end. With no plan up, nothing happens.
    pub fn deployed(&mut self, accepted: Result<(), RpcStatus>) -> (step: DeployStep)
        ensures
            old(self).scheduler.distinct() ==> final(self).scheduler.distinct(),
            final(self).dataflow == old(self).dataflow,
            final(self).job_id == old(self).job_id,
            final(self).location == old(self).location,
            final(self).plans == old(self).plans,
            old(self).next >= old(self).plans@.len() ==> *final(self) == *old(self) && step
                == DeployStep::Completed,
            old(self).next < old(self).plans@.len() ==> match accepted {
                Ok(_) => {
                    let plan = old(self).plans@[old(self).next as int];
                    &&& final(self).next == old(self).next + 1
                    &&& final(self).failure == old(self).failure
                    &&& step == (if final(self).next == old(self).plans@.len() {
                        DeployStep::Completed
                    } else {
                        DeployStep::Pending
                    })
                    &&& is_added(
                        old(self).scheduler.executions@,
                        final(self).scheduler.executions@,
                        plan.execution_id@,
                        plan.target@,
                    )
                },
                Err(status) => {
                    &&& final(self).next == old(self).plans@.len()
                    &&& final(self).failure == Some(TaskDeploymentException::Rejected(status))
                    &&& step matches DeployStep::Aborted { stops }
                    &&& stops_view(stops@) == to_stop(old(self).scheduler.executions@)
                    &&& final(self).scheduler.executions@.len() == old(self).scheduler.executions@.len()
                    &&& forall|i: int|
                        0 <= i < old(self).scheduler.executions@.len() ==> #[trigger] final(self).scheduler.executions@[i] == terminated(
                            old(self).scheduler.executions@[i],
                        )
                },
            },
    {
        if self.next >= self.plans.len() {
            return DeployStep::Completed;
        }
        match self.scheduler.execute(&self.plans[self.next], accepted) {
            Ok(_) => {
                self.next = self.next + 1;
                if self.next == self.plans.len() {
                    DeployStep::Completed
                } else {
                    DeployStep::Pending
                }
            },
            Err(error) => {
                self.next = self.plans.len();
                self.failure = Some(error);
                let (_, stops) = self.scheduler.terminate_dataflow();
                DeployStep::Aborted { stops }
            },
        }
    }

    /// True when every plan was handed out and accepted.
    pub fn is_deployed(&self) -> (yes: bool)
        ensures
            yes == (self.failure is None && self.next >= self.plans@.len()),
    {
        self.failure.is_none() && self.next >= self.plans.len()
    }

    /// Asks every execution of the job to end: see [`Scheduler::terminate_dataflow`].
    pub fn terminate_dataflow(&mut self) -> (out: (DataflowStatus, Vec<StopRequest>))
        ensures
            final(self).dataflow == old(self).dataflow,
            final(self).job_id == old(self).job_id,
            final(self).location == old(self).location,
            final(self).plans == old(self).plans,
            final(self).next == old(self).next,
            final(self).failure == old(self).failure,
            final(self).scheduler.executions@.len() == old(self).scheduler.executions@.len(),
            forall|i: int|
                0 <= i < old(self).scheduler.executions@.len() ==> #[trigger] final(self).scheduler.executions@[i] == terminated(old(self).scheduler.executions@[i]),
            stops_view(out.1@) == to_stop(old(self).scheduler.executions@),
            out.0 == aggregate_status(final(self).scheduler.executions@),
            old(self).scheduler.distinct() ==> final(self).scheduler.distinct(),
    {
        self.scheduler.terminate_dataflow()
    }

    /// Gives a heartbeat to the execution that it names: see
    /// [`Scheduler::update_heartbeat_status`].
    pub fn update_heartbeat_status(&mut self, heartbeat: &Heartbeat)
        ensures
            final(self).dataflow == old(self).dataflow,
            final(self).job_id == old(self).job_id,
            final(self).location == old(self).location,
            final(self).plans == old(self).plans,
            final(self).next == old(self).next,
            final(self).failure == old(self).failure,
            final(self).scheduler.executions@ == heard(old(self).scheduler.executions@, *heartbeat),
            old(self).scheduler.distinct() ==> final(self).scheduler.distinct(),
    {
        self.scheduler.update_heartbeat_status(heartbeat);
    }

    /// Gives an acknowledgement to the execution that it names: see [`Scheduler::ack`].
    pub fn ack_from_execution(&mut self, ack: &Ack)
        ensures
            final(self).dataflow == old(self).dataflow,
            final(self).job_id == old(self).job_id,
            final(self).location == old(self).location,
            final(self).plans == old(self).plans,
            final(self).next == old(self).next,
            final(self).failure == old(self).failure,
            final(self).scheduler.executions@ == acknowledged(old(self).scheduler.executions@, *ack),
            old(self).scheduler.distinct() ==> final(self).scheduler.distinct(),
    {
        self.scheduler.ack(ack);
    }
}

/// Why the dispatcher did not do what it was asked.
#[derive(Debug, PartialEq, Eq)]
pub enum DispatcherException {
    /// A call to a worker failed.
    Tonic(RpcStatus),
    /// The job could not be deployed.
    DeploymentError(TaskDeploymentException),
    /// A termination left the job in a status that it should have left behind.
    UnexpectedDataflowStatus(DataflowStatus),
    /// The dataflow was refused at submission.
    InvalidDataflow(InvalidDataflow),
}

/// The name of a status, as it stands in messages.
pub open spec fn status_name(status: DataflowStatus) -> Seq<char> {
    match status {
        DataflowStatus::Initialized => "Initialized"@,
        DataflowStatus::Running => "Running"@,
        DataflowStatus::Closing => "Closing"@,
        DataflowStatus::Closed => "Closed"@,
    }
}

/// The name of a fault of a dataflow, as it stands in messages.
pub open spec fn fault_name(fault: InvalidDataflow) -> Seq<char> {
    match fault {
        InvalidDataflow::NoOperators => "the dataflow has no operator"@,
        InvalidDataflow::DuplicateOperator => "two operators have one id"@,
        InvalidDataflow::MissingOperator => "an edge names an operator that is missing"@,
        InvalidDataflow::UnsupportedOperator => "an operator has no function to run"@,
        InvalidDataflow::Cyclic => "the edges go round in a circle"@,
        InvalidDataflow::InconsistentUpstreams => "the upstreams are not as the edges say"@,
    }
}

impl DispatcherException {
    /// The status that the API reports for this failure: the worker's own status for a
    /// failed call and for a refused deployment, `Internal` for a status that was not
    /// expected and for a failure of the store, `Unavailable` where no worker is alive,
    /// `InvalidArgument` for a dataflow that was refused.
    pub fn to_tonic_status(&self) -> (status: RpcStatus)
        ensures
            match *self {
                DispatcherException::Tonic(cause) => status.code == cause.code && status.message@
                    == cause.message@,
                DispatcherException::UnexpectedDataflowStatus(found) => status.code
                    == RpcCode::Internal && status.message@ == "unexpected dataflow status "@
                    + status_name(found),
                DispatcherException::DeploymentError(TaskDeploymentException::Rejected(cause)) =>
                    status.code == cause.code && status.message@ == cause.message@,
                DispatcherException::DeploymentError(TaskDeploymentException::NoWorker) =>
                    status.code == RpcCode::Unavailable && status.message@
                        == "no worker is alive"@,
                DispatcherException::DeploymentError(
                    TaskDeploymentException::StorageFailed(message),
                ) => status.code == RpcCode::Internal && status.message@ == message@,
                DispatcherException::DeploymentError(
                    TaskDeploymentException::TooManySubdataflows,
                ) => status.code == RpcCode::Internal && status.message@
                    == "the dataflow has too many parts"@,
                DispatcherException::DeploymentError(TaskDeploymentException::Incomplete) =>
                    status.code == RpcCode::Internal && status.message@
                        == "the deployment is not complete"@,
                DispatcherException::DeploymentError(TaskDeploymentException::NotPersisted) =>
                    status.code == RpcCode::Internal && status.message@
                        == "the dataflow is not kept"@,
                DispatcherException::InvalidDataflow(fault) => status.code
                    == RpcCode::InvalidArgument && status.message@ == fault_name(fault),
            },
    {
        match self {
            DispatcherException::Tonic(cause) => cause.clone(),
            DispatcherException::UnexpectedDataflowStatus(found) => {
                let name = match found {
                    DataflowStatus::Initialized => "Initialized",
                    DataflowStatus::Running => "Running",
                    DataflowStatus::Closing => "Closing",
                    DataflowStatus::Closed => "Closed",
                };
                let mut message = "unexpected dataflow status ".to_owned();
                message.append(name);
                RpcStatus { code: RpcCode::Internal, message }
            },
            DispatcherException::DeploymentError(TaskDeploymentException::Rejected(cause)) =>
                cause.clone(),
            DispatcherException::DeploymentError(TaskDeploymentException::NoWorker) => RpcStatus {
                code: RpcCode::Unavailable,
                message: "no worker is alive".to_owned(),
            },
            DispatcherException::DeploymentError(
                TaskDeploymentException::StorageFailed(message),
            ) => RpcStatus { code: RpcCode::Internal, message: message.clone() },
            DispatcherException::DeploymentError(TaskDeploymentException::TooManySubdataflows) =>
                RpcStatus {
                    code: RpcCode::Internal,
                    message: "the dataflow has too many parts".to_owned(),
                },
            DispatcherException::DeploymentError(TaskDeploymentException::Incomplete) => RpcStatus {
                code: RpcCode::Internal,
                message: "the deployment is not complete".to_owned(),
            },
            DispatcherException::DeploymentError(TaskDeploymentException::NotPersisted) => RpcStatus {
                code: RpcCode::Internal,
                message: "the dataflow is not kept".to_owned(),
            },
            DispatcherException::InvalidDataflow(fault) => RpcStatus {
                code: RpcCode::InvalidArgument,
                message: match fault {
                    InvalidDataflow::NoOperators => "the dataflow has no operator".to_owned(),
                    InvalidDataflow::DuplicateOperator => "two operators have one id".to_owned(),
                    InvalidDataflow::MissingOperator => "an edge names an operator that is missing".to_owned(),
                    InvalidDataflow::UnsupportedOperator => "an operator has no function to run".to_owned(),
                    InvalidDataflow::Cyclic => "the edges go round in a circle".to_owned(),
                    InvalidDataflow::InconsistentUpstreams => "the upstreams are not as the edges say".to_owned(),
                },
            },
        }
    }
}

/// True when one of `managers` runs the job `job`.
pub open spec fn has_job(managers: Seq<JobManager>, job: ResourceIdView) -> bool {
    exists|i: int| 0 <= i < managers.len() && (#[trigger] managers[i]).job_id@ == job
}

/// True when none of the managers before `at` runs the job `job`.
pub open spec fn no_manager_before(managers: Seq<JobManager>, job: ResourceIdView, at: int) -> bool {
    forall|j: int| 0 <= j < at && j < managers.len() ==> (#[trigger] managers[j]).job_id@ != job
}

/// The managers of the jobs other than `job`, in order.
pub open spec fn other_jobs(managers: Seq<JobManager>, job: ResourceIdView) -> Seq<JobManager>
    decreases managers.len(),
{
    if managers.len() == 0 {
        Seq::empty()
    } else if managers.last().job_id@ == job {
        other_jobs(managers.drop_last(), job)
    } else {
        other_jobs(managers.drop_last(), job).push(managers.last())
    }
}

/// True when every one of `executions` is closed once it was asked to end.
pub open spec fn ends_closed(executions: Seq<crate::execution::Execution>) -> bool {
    forall|e: int|
        0 <= e < executions.len() ==> terminated(#[trigger] executions[e]).status.state
            == ExecutionState::Closed
}

/// True when `after` is `before` with every execution asked to end, and nothing else
/// changed.
pub open spec fn asked_to_end(before: JobManager, after: JobManager) -> bool {
    &&& after.dataflow == before.dataflow
    &&& after.job_id == before.job_id
    &&& after.location == before.location
    &&& after.plans == before.plans
    &&& after.next == before.next
    &&& after.failure == before.failure
    &&& after.scheduler.executions@.len() == before.scheduler.executions@.len()
    &&& forall|e: int|
        0 <= e < before.scheduler.executions@.len() ==> #[trigger] after.scheduler.executions@[e]
            == terminated(before.scheduler.executions@[e])
}

/// A manager of the job in the place of another of the job changes nothing of the
/// managers of the other jobs.
proof fn lemma_other_jobs_update(
    managers: Seq<JobManager>,
    at: int,
    manager: JobManager,
    job: ResourceIdView,
)
    requires
        0 <= at < managers.len(),
        managers[at].job_id@ == job,
        manager.job_id@ == job,
    ensures
        other_jobs(managers.update(at, manager), job) == other_jobs(managers, job),
    decreases managers.len(),
{
    let changed = managers.update(at, manager);
    if at == managers.len() - 1 {
        assert(changed.drop_last() =~= managers.drop_last());
    } else {
        lemma_other_jobs_update(managers.drop_last(), at, manager, job);
        assert(changed.drop_last() =~= managers.drop_last().update(at, manager));
        assert(changed.last() == managers.last());
    }
}

/// Among the managers of the other jobs, none runs the job.
pub proof fn lemma_other_jobs(managers: Seq<JobManager>, job: ResourceIdView)
    ensures
        !has_job(other_jobs(managers, job), job),
        other_jobs(managers, job).len() <= managers.len(),
        !has_job(managers, job) ==> other_jobs(managers, job) == managers,
        forall|other: ResourceIdView|
            other != job ==> (has_job(other_jobs(managers, job), other) <==> has_job(
                managers,
                other,
            )),
    decreases managers.len(),
{
    let left = other_jobs(managers, job);
    if managers.len() != 0 {
        let shorter = managers.drop_last();
        let last = managers.last();
        lemma_other_jobs(shorter, job);
        let before = other_jobs(shorter, job);
        if has_job(left, job) {
            let i = choose|i: int| 0 <= i < left.len() && (#[trigger] left[i]).job_id@ == job;
            if i < before.len() {
                assert(before[i].job_id@ == job);
            }
        }
        if !has_job(managers, job) {
            assert(managers[managers.len() - 1].job_id@ != job);
            assert(!has_job(shorter, job)) by {
                if has_job(shorter, job) {
                    let i = choose|i: int|
                        0 <= i < shorter.len() && (#[trigger] shorter[i]).job_id@ == job;
                    assert(managers[i].job_id@ == job);
                }
            }
            assert(left =~= managers);
        }
        assert forall|other: ResourceIdView| other != job implies (has_job(left, other)
            <==> has_job(managers, other)) by {
            if has_job(left, other) {
                let i = choose|i: int| 0 <= i < left.len() && (#[trigger] left[i]).job_id@ == other;
                if i < before.len() {
                    assert(before[i].job_id@ == other);
                    assert(has_job(shorter, other));
                    let k = choose|k: int|
                        0 <= k < shorter.len() && (#[trigger] shorter[k]).job_id@ == other;
                    assert(managers[k].job_id@ == other);
                } else {
                    assert(managers[managers.len() - 1].job_id@ == other);
                }
            }
            if has_job(managers, other) {
                let k = choose|k: int|
                    0 <= k < managers.len() && (#[trigger] managers[k]).job_id@ == other;
                if k < shorter.len() {
                    assert(shorter[k].job_id@ == other);
                    assert(has_job(shorter, other));
                    assert(has_job(before, other));
                    let i = choose|i: int|
                        0 <= i < before.len() && (#[trigger] before[i]).job_id@ == other;
                    assert(left[i].job_id@ == other);
                } else {
                    assert(left[left.len() - 1].job_id@ == other);
                }
            }
        }
    }
}

/// What a termination makes of the status that it finds: a job that is closing or
/// closed has moved on; one that is still initialized or running has not, which is a
/// failure.
pub fn progress(status: DataflowStatus) -> (moved: Result<DataflowStatus, DispatcherException>)
    ensures
        moved == match status {
            DataflowStatus::Initialized => Err::<DataflowStatus, DispatcherException>(
                DispatcherException::UnexpectedDataflowStatus(status),
            ),
            DataflowStatus::Running => Err::<DataflowStatus, DispatcherException>(
                DispatcherException::UnexpectedDataflowStatus(status),
            ),
            DataflowStatus::Closing => Ok::<DataflowStatus, DispatcherException>(status),
            DataflowStatus::Closed => Ok::<DataflowStatus, DispatcherException>(status),
        },
{
    match status {
        DataflowStatus::Initialized => Err(DispatcherException::UnexpectedDataflowStatus(status)),
        DataflowStatus::Running => Err(DispatcherException::UnexpectedDataflowStatus(status)),
        DataflowStatus::Closing => Ok(status),
        DataflowStatus::Closed => Ok(status),
    }
}

/// The single owner of the coordinator's jobs: the cluster view, this coordinator's
/// address, the dataflow store, and the manager of every job that runs.
pub struct Dispatcher<D: DataflowStorage> {
    /// The managers of the jobs that run; no two of one job: see
    /// [`Dispatcher::distinct`].
    pub managers: Vec<JobManager>,
    pub cluster: Cluster,
    pub location: HostAddr,
    pub heartbeat: HeartbeatBuilder,
    pub ack: AckResponderBuilder,
    pub storage: D,
}

/// True when the store keeps a dataflow for every job that has a manager.
pub open spec fn all_persisted(
    managers: Seq<JobManager>,
    saved: Map<ResourceIdView, DataflowView>,
) -> bool {
    forall|i: int| 0 <= i < managers.len() ==> saved.contains_key((#[trigger] managers[i]).job_id@)
}

/// True when no two of `managers` run one job.
pub open spec fn distinct_jobs(managers: Seq<JobManager>) -> bool
    decreases managers.len(),
{
    managers.len() == 0 || (!has_job(managers.drop_last(), managers.last().job_id@)
        && distinct_jobs(managers.drop_last()))
}

/// True when the two runs of managers have the same jobs in the same places.
pub open spec fn same_jobs(a: Seq<JobManager>, b: Seq<JobManager>) -> bool {
    a.len() == b.len() && forall|i: int| 0 <= i < a.len() ==> (#[trigger] a[i]).job_id@
        == b[i].job_id@
}

/// Runs of managers with the same jobs in the same places are distinct together.
pub proof fn lemma_same_jobs(a: Seq<JobManager>, b: Seq<JobManager>)
    requires
        same_jobs(a, b),
    ensures
        distinct_jobs(a) == distinct_jobs(b),
        forall|job: ResourceIdView| has_job(a, job) == has_job(b, job),
    decreases a.len(),
{
    assert forall|job: ResourceIdView| has_job(a, job) == has_job(b, job) by {
        if has_job(a, job) {
            let i = choose|i: int| 0 <= i < a.len() && (#[trigger] a[i]).job_id@ == job;
            assert(b[i].job_id@ == job);
        }
        if has_job(b, job) {
            let i = choose|i: int| 0 <= i < b.len() && (#[trigger] b[i]).job_id@ == job;
            assert(a[i].job_id@ == job);
        }
    }
    if a.len() != 0 {
        assert forall|i: int| 0 <= i < a.drop_last().len() implies (
        #[trigger] a.drop_last()[i]).job_id@ == b.drop_last()[i].job_id@ by {
            assert(a[i].job_id@ == b[i].job_id@);
        }
        lemma_same_jobs(a.drop_last(), b.drop_last());
        assert(a[a.len() - 1].job_id@ == b[b.len() - 1].job_id@);
    }
}

/// Where no two managers run one job, no two of the managers of the other jobs do.
pub proof fn lemma_distinct_others(managers: Seq<JobManager>, job: ResourceIdView)
    requires
        distinct_jobs(managers),
    ensures
        distinct_jobs(other_jobs(managers, job)),
    decreases managers.len(),
{
    if managers.len() != 0 {
        let shorter = managers.drop_last();
        lemma_distinct_others(shorter, job);
        if managers.last().job_id@ != job {
            lemma_other_jobs(shorter, job);
            let left = other_jobs(shorter, job).push(managers.last());
            assert(left.drop_last() =~= other_jobs(shorter, job));
            assert(!has_job(other_jobs(shorter, job), managers.last().job_id@));
        }
    }
}

impl<D: DataflowStorage> Dispatcher<D> {
    /// True when no two managers in the map run one job.
    pub open spec fn distinct(&self) -> bool {
        distinct_jobs(self.managers@)
    }

    /// True when every job in the map has its dataflow in the store.
    pub open spec fn persisted(&self) -> bool {
        all_persisted(self.managers@, self.storage.saved())
    }

    /// A dispatcher with no job.
    pub fn new(
        cluster: Cluster,
        storage: D,
        heartbeat_builder: &HeartbeatBuilder,
        ack_builder: &AckResponderBuilder,
        location: HostAddr,
    ) -> (dispatcher: Self)
        ensures
            dispatcher.managers@.len() == 0,
            dispatcher.persisted(),
            dispatcher.distinct(),
            dispatcher.cluster == cluster,
            dispatcher.storage == storage,
            dispatcher.location == location,
    {
        Dispatcher {
            managers: Vec::new(),
            cluster,
            location,
            heartbeat: heartbeat_builder.clone(),
            ack: ack_builder.clone(),
            storage,
        }
    }

    /// The place of the first manager of the job `job_id`, if there is one.
    pub fn find(&self, job_id: &ResourceId) -> (at: Option<usize>)
        ensures
            match at {
                Some(i) => i < self.managers@.len() && self.managers@[i as int].job_id@ == job_id@
                    && no_manager_before(self.managers@, job_id@, i as int),
                None => !has_job(self.managers@, job_id@),
            },
    {
        let mut i: usize = 0;
        while i < self.managers.len()
            invariant
                i <= self.managers.len(),
                no_manager_before(self.managers@, job_id@, i as int),
            decreases self.managers.len() - i,
        {
            if self.managers[i].job_id.same(job_id) {
                return Some(i);
            }
            i += 1;
        }
        None
    }

    /// Takes the managers of the job `job_id` out of the map.
    pub fn remove_job(&mut self, job_id: &ResourceId)
        ensures
            final(self).managers@ == other_jobs(old(self).managers@, job_id@),
            !has_job(final(self).managers@, job_id@),
            old(self).persisted() ==> final(self).persisted(),
            old(self).distinct() ==> final(self).distinct(),
            final(self).cluster == old(self).cluster,
            final(self).location == old(self).location,
            final(self).heartbeat == old(self).heartbeat,
            final(self).ack == old(self).ack,
            final(self).storage == old(self).storage,
    {
        let ghost before = self.managers@;
        let mut i: usize = 0;
        let ghost mut k: int = 0;
        assert(before.take(0) =~= Seq::<JobManager>::empty());
        assert(self.managers@ =~= other_jobs(before.take(0), job_id@) + before.skip(0));
        while i < self.managers.len()
            invariant
                0 <= k <= before.len(),
                i == other_jobs(before.take(k), job_id@).len(),
                self.managers@ == other_jobs(before.take(k), job_id@) + before.skip(k),
                self.cluster == old(self).cluster,
                self.location == old(self).location,
                self.heartbeat == old(self).heartbeat,
                self.ack == old(self).ack,
                self.storage == old(self).storage,
            decreases before.len() - k,
        {
            proof {
                assert(k < before.len());
                assert(self.managers@[i as int] == before[k]);
                assert(before.take(k + 1).drop_last() =~= before.take(k));
            }
            if self.managers[i].job_id.same(job_id) {
                let ghost now = self.managers@;
                let _ = self.managers.remove(i);
                proof {
                    assert(self.managers@ =~= other_jobs(before.take(k + 1), job_id@) + before.skip(
                        k + 1,
                    ));
                    k = k + 1;
                }
            } else {
                proof {
                    assert(self.managers@ =~= other_jobs(before.take(k + 1), job_id@) + before.skip(
                        k + 1,
                    ));
                    k = k + 1;
                }
                i += 1;
            }
        }
        proof {
            assert(k == before.len());
            assert(before.take(k) =~= before);
            assert(self.managers@ =~= other_jobs(before, job_id@));
            lemma_other_jobs(before, job_id@);
            if old(self).distinct() {
                lemma_distinct_others(before, job_id@);
            }
            if old(self).persisted() {
                assert forall|i: int| 0 <= i < self.managers@.len() implies self.storage.saved().contains_key(
                    (#[trigger] self.managers@[i]).job_id@,
                ) by {
                    let other = self.managers@[i].job_id@;
                    assert(has_job(self.managers@, other));
                    assert(has_job(before, other));
                    let j = choose|j: int|
                        0 <= j < before.len() && (#[trigger] before[j]).job_id@ == other;
                    assert(old(self).storage.saved().contains_key(before[j].job_id@));
                }
            }
        }
    }

    /// Takes a job in: checks the dataflow, keeps it in the store, gives its operators
    /// their workers and plans the deployments. No worker is contacted: the manager
    /// that comes back holds the plans, which the caller hands to the workers one by
    /// one (see [`JobManager::next_deployment`] and [`JobManager::deployed`]) before it
    /// brings the manager back with [`Dispatcher::finish_dataflow`]. So a dataflow
    /// that was taken in is in the store before any deployment is tried.
    pub fn create_dataflow(&mut self, dataflow: Dataflow) -> (made: Result<
        JobManager,
        DispatcherException,
    >)
        ensures
            final(self).managers == old(self).managers,
            final(self).cluster == old(self).cluster,
            final(self).location == old(self).location,
            final(self).heartbeat == old(self).heartbeat,
            final(self).ack == old(self).ack,
            old(self).persisted() ==> final(self).persisted(),
            old(self).distinct() ==> final(self).distinct(),
            match fault_of(dataflow@) {
                Some(fault) => made == Err::<JobManager, DispatcherException>(
                    DispatcherException::InvalidDataflow(fault),
                ) && final(self).storage.saved() == old(self).storage.saved(),
                None => if !old(self).storage.takes(dataflow@) {
                    &&& final(self).storage.saved() == old(self).storage.saved()
                    &&& made matches Err(
                        DispatcherException::DeploymentError(
                            TaskDeploymentException::StorageFailed(message),
                        ),
                    )
                    &&& message@ == old(self).storage.refusal(dataflow@)
                } else {
                    &&& final(self).storage.saved() == old(self).storage.saved().insert(
                        dataflow@.job_id,
                        dataflow@,
                    )
                    &&& if live_hosts(old(self).cluster.workers@).len() == 0 {
                        made == Err::<JobManager, DispatcherException>(
                            DispatcherException::DeploymentError(TaskDeploymentException::NoWorker),
                        )
                    } else if split(with_workers(dataflow@, old(self).cluster.workers@)).len()
                        > u32::MAX {
                        made == Err::<JobManager, DispatcherException>(
                            DispatcherException::DeploymentError(
                                TaskDeploymentException::TooManySubdataflows,
                            ),
                        )
                    } else {
                        &&& made matches Ok(manager)
                        &&& manager.job_id@ == dataflow@.job_id
                        &&& manager.location@ == old(self).location@
                        &&& manager.scheduler.executions@.len() == 0
                        &&& manager.failure is None
                        &&& manager.next == 0
                        &&& manager.dataflow@ == with_workers(
                            dataflow@,
                            old(self).cluster.workers@,
                        )
                        &&& plans_for(
                            manager.plans@,
                            split(manager.dataflow@),
                            old(self).location@,
                            old(self).heartbeat,
                            old(self).ack,
                        )
                    }
                },
            },
    {
        match dataflow.validate() {
            Ok(_) => {},
            Err(fault) => {
                return Err(DispatcherException::InvalidDataflow(fault));
            },
        }
        let mut manager = JobManager::new(&self.location, dataflow);
        match manager.deploy_dataflow(&self.cluster, &mut self.storage, &self.heartbeat, &self.ack) {
            Ok(_) => Ok(manager),
            Err(error) => Err(DispatcherException::DeploymentError(error)),
        }
    }

    /// Takes the manager of a job back after its deployment. Where every plan was
    /// accepted and the store keeps the job's dataflow, the manager is in the map from
    /// now on, in the place of any that ran the same job. Where the deployment was
    /// given up or is not complete, or the dataflow is not kept, the job is not in the
    /// map, and the failure is reported.
    pub fn finish_dataflow(&mut self, manager: JobManager) -> (done: Result<
        (),
        DispatcherException,
    >)
        ensures
            final(self).cluster == old(self).cluster,
            final(self).location == old(self).location,
            final(self).heartbeat == old(self).heartbeat,
            final(self).ack == old(self).ack,
            final(self).storage == old(self).storage,
            old(self).persisted() ==> final(self).persisted(),
            old(self).distinct() ==> final(self).distinct(),
            done is Ok <==> manager.failure is None && manager.next >= manager.plans@.len()
                && old(self).storage.saved().contains_key(manager.job_id@),
            match done {
                Ok(_) => final(self).managers@ == other_jobs(
                    old(self).managers@,
                    manager.job_id@,
                ).push(manager),
                Err(error) => final(self).managers@ == other_jobs(
                    old(self).managers@,
                    manager.job_id@,
                ) && !has_job(final(self).managers@, manager.job_id@) && error == (
                match manager.failure {
                    Some(cause) => DispatcherException::DeploymentError(cause),
                    None => DispatcherException::DeploymentError(
                        if manager.next < manager.plans@.len() {
                            TaskDeploymentException::Incomplete
                        } else {
                            TaskDeploymentException::NotPersisted
                        },
                    ),
                }),
            },
    {
        self.remove_job(&manager.job_id);
        if manager.is_deployed() && self.storage.contains(&manager.job_id) {
            let ghost others = self.managers@;
            self.managers.push(manager);
            assert(self.managers@.drop_last() =~= others);
            return Ok(());
        }
        let incomplete = manager.next < manager.plans.len();
        match manager.failure {
            Some(cause) => Err(DispatcherException::DeploymentError(cause)),
            None => if incomplete {
                Err(DispatcherException::DeploymentError(TaskDeploymentException::Incomplete))
            } else {
                Err(DispatcherException::DeploymentError(TaskDeploymentException::NotPersisted))
            },
        }
    }

    /// Asks the job `job_id` to end. A job that is not in the map is closed already.
    /// Else every execution of the job is asked to end, and the workers to be told come
    /// back with the status of the job: closing while an execution is not closed,
    /// closed when all are. A job that is closed leaves the map, and its dataflow the
    /// store.
    pub fn terminate_dataflow(&mut self, job_id: &ResourceId) -> (out: Result<
        (DataflowStatus, Vec<StopRequest>),
        DispatcherException,
    >)
        ensures
            final(self).cluster == old(self).cluster,
            final(self).location == old(self).location,
            final(self).heartbeat == old(self).heartbeat,
            final(self).ack == old(self).ack,
            old(self).persisted() ==> final(self).persisted(),
            old(self).distinct() ==> final(self).distinct(),
            out is Ok,
            !has_job(old(self).managers@, job_id@) ==> (out matches Ok((status, stops)) && status
                == DataflowStatus::Closed && stops@.len() == 0 && final(self).managers@ == old(self).managers@ && final(self).storage == old(self).storage),
            has_job(old(self).managers@, job_id@) ==> exists|i: int|
                {
                    &&& 0 <= i < old(self).managers@.len()
                    &&& (#[trigger] old(self).managers@[i]).job_id@ == job_id@
                    &&& no_manager_before(old(self).managers@, job_id@, i)
                    &&& out matches Ok((status, stops))
                    &&& stops_view(stops@) == to_stop(old(self).managers@[i].scheduler.executions@)
                    &&& if ends_closed(old(self).managers@[i].scheduler.executions@) {
                        &&& status == DataflowStatus::Closed
                        &&& final(self).managers@ == other_jobs(old(self).managers@, job_id@)
                        &&& final(self).storage.saved() == (if old(self).storage.drops(job_id@) {
                            old(self).storage.saved().remove(job_id@)
                        } else {
                            old(self).storage.saved()
                        })
                    } else {
                        &&& status == DataflowStatus::Closing
                        &&& final(self).storage == old(self).storage
                        &&& final(self).managers@.len() == old(self).managers@.len()
                        &&& asked_to_end(old(self).managers@[i], final(self).managers@[i])
                        &&& forall|j: int|
                            0 <= j < old(self).managers@.len() && j != i ==> #[trigger] final(self).managers@[j] == old(self).managers@[j]
                    }
                },
    {
        let at = match self.find(job_id) {
            Some(at) => at,
            None => {
                return Ok((DataflowStatus::Closed, Vec::new()));
            },
        };
        let ghost before = self.managers@;
        let (status, stops) = self.managers[at].terminate_dataflow();
        proof {
            let executions = before[at as int].scheduler.executions@;
            let after = self.managers@[at as int].scheduler.executions@;
            if ends_closed(executions) {
                assert forall|e: int| 0 <= e < after.len() implies (
                #[trigger] after[e]).status.state == ExecutionState::Closed by {
                    assert(after[e] == terminated(executions[e]));
                }
            } else {
                let e = choose|e: int|
                    0 <= e < executions.len() && terminated(#[trigger] executions[e]).status.state
                        != ExecutionState::Closed;
                assert(after[e] == terminated(executions[e]));
            }
            assert(self.managers@ =~= before.update(at as int, self.managers@[at as int]));
            lemma_other_jobs_update(before, at as int, self.managers@[at as int], job_id@);
            lemma_same_jobs(before, self.managers@);
        }
        match progress(status) {
            Err(error) => Err(error),
            Ok(DataflowStatus::Closed) => {
                self.remove_job(job_id);
                let _ = self.storage.delete(job_id);
                Ok((status, stops))
            },
            Ok(_) => Ok((status, stops)),
        }
    }

    /// The dataflow of the job `job_id`, as the store has it.
    pub fn get_dataflow(&self, job_id: &ResourceId) -> (found: Option<Dataflow>)
        ensures
            match found {
                Some(dataflow) => self.storage.saved().contains_key(job_id@) && dataflow@
                    == self.storage.saved()[job_id@],
                None => !self.storage.saved().contains_key(job_id@),
            },
    {
        self.storage.get(job_id)
    }

    /// Gives a heartbeat to the job that it names, which gives it to the execution
    /// that it names. A heartbeat for an unknown job or execution changes nothing.
    pub fn update_task_manager_heartbeat_status(&mut self, heartbeat: &Heartbeat)
        ensures
            final(self).cluster == old(self).cluster,
            final(self).location == old(self).location,
            final(self).heartbeat == old(self).heartbeat,
            final(self).ack == old(self).ack,
            final(self).storage == old(self).storage,
            old(self).persisted() ==> final(self).persisted(),
            old(self).distinct() ==> final(self).distinct(),
            final(self).managers@.len() == old(self).managers@.len(),
            forall|i: int|
                0 <= i < old(self).managers@.len() ==> {
                    let before = #[trigger] old(self).managers@[i];
                    let after = final(self).managers@[i];
                    if heartbeat.execution_id matches Some(id) && before.job_id@ == id@.job_id
                        && no_manager_before(old(self).managers@, id@.job_id, i) {
                        &&& after.job_id == before.job_id
                        &&& after.dataflow == before.dataflow
                        &&& after.plans == before.plans
                        &&& after.next == before.next
                        &&& after.failure == before.failure
                        &&& after.scheduler.executions@ == heard(
                            before.scheduler.executions@,
                            *heartbeat,
                        )
                    } else {
                        after == before
                    }
                },
    {
        match &heartbeat.execution_id {
            Some(id) => {
                match self.find(&id.job_id) {
                    Some(at) => {
                        let ghost before = self.managers@;
                        self.managers[at].update_heartbeat_status(heartbeat);
                        proof {
                            lemma_same_jobs(before, self.managers@);
                        }
                    },
                    None => {},
                }
            },
            None => {},
        }
    }

    /// Gives an acknowledgement to the job that it names, which gives it to the
    /// execution that it names. One for an unknown job or execution changes nothing.
    pub fn ack_from_task_manager(&mut self, ack: Ack)
        ensures
            final(self).cluster == old(self).cluster,
            final(self).location == old(self).location,
            final(self).heartbeat == old(self).heartbeat,
            final(self).ack == old(self).ack,
            final(self).storage == old(self).storage,
            old(self).persisted() ==> final(self).persisted(),
            old(self).distinct() ==> final(self).distinct(),
            final(self).managers@.len() == old(self).managers@.len(),
            forall|i: int|
                0 <= i < old(self).managers@.len() ==> {
                    let before = #[trigger] old(self).managers@[i];
                    let after = final(self).managers@[i];
                    if ack.execution_id matches Some(id) && before.job_id@ == id@.job_id
                        && no_manager_before(old(self).managers@, id@.job_id, i) {
                        &&& after.job_id == before.job_id
                        &&& after.dataflow == before.dataflow
                        &&& after.plans == before.plans
                        &&& after.next == before.next
                        &&& after.failure == before.failure
                        &&& after.scheduler.executions@ == acknowledged(
                            before.scheduler.executions@,
                            ack,
                        )
                    } else {
                        after == before
                    }
                },
    {
        match &ack.execution_id {
            Some(id) => {
                match self.find(&id.job_id) {
                    Some(at) => {
                        let ghost before = self.managers@;
                        self.managers[at].ack_from_execution(&ack);
                        proof {
                            lemma_same_jobs(before, self.managers@);
                        }
                    },
                    None => {},
                }
            },
            None => {},
        }
    }
}

} // verus!

//! One subdataflow's run on a worker as the coordinator follows it: heartbeats,
//! acknowledgements, and the states from initialized to closed.

use crate::cluster::hosts_view;
use crate::event::{ResourceId, ResourceIdView};
use crate::graph::{Dataflow, HostAddr};
use crate::rpc::RpcStatus;
use vstd::prelude::*;

verus! {

/// Model of an [`ExecutionId`].
pub struct ExecutionIdView {
    pub job_id: ResourceIdView,
    pub sub_id: u32,
}

/// The identity of one subdataflow's run, from deployment to termination.
#[derive(Debug, PartialEq, Eq)]
pub struct ExecutionId {
    pub job_id: ResourceId,
    /// Unique within the job.
    pub sub_id: u32,
}

impl View for ExecutionId {
    type V = ExecutionIdView;

    open spec fn view(&self) -> ExecutionIdView {
        ExecutionIdView { job_id: self.job_id@, sub_id: self.sub_id }
    }
}

impl Clone for ExecutionId {
    fn clone(&self) -> (copy: Self)
        ensures
            copy@ == self@,
    {
        ExecutionId { job_id: self.job_id.clone(), sub_id: self.sub_id }
    }
}

impl ExecutionId {
    /// True when the two name one execution.
    pub fn same(&self, other: &ExecutionId) -> (same: bool)
        ensures
            same == (self@ == other@),
    {
        self.sub_id == other.sub_id && self.job_id.same(&other.job_id)
    }
}

/// Where a job stands, as the coordinator reports it.
#[derive(Clone, Copy, Debug, PartialEq, Eq, Structural)]
pub enum DataflowStatus {
    Initialized,
    Running,
    Closing,
    Closed,
}

/// Where one execution stands.
#[derive(Clone, Copy, Debug, PartialEq, Eq, Structural)]
pub enum ExecutionState {
    /// Planned and accepted by the worker; no heartbeat seen yet.
    Initialized,
    /// Heartbeats are seen.
    Running,
    /// Heartbeats were missed past the first threshold.
    Suspect,
    /// Termination was asked for.
    Closing,
    /// The worker acknowledged the termination, or was out of reach for too long.
    Closed,
}

/// Who sends a heartbeat.
#[derive(Clone, Copy, Debug, PartialEq, Eq, Structural)]
pub enum NodeType {
    JobManager,
    TaskWorker,
}

/// The liveness message of an execution.
#[derive(Debug, PartialEq, Eq)]
pub struct Heartbeat {
    pub execution_id: Option<ExecutionId>,
    /// Milliseconds since the epoch, by the sender's clock.
    pub timestamp: u64,
    pub sequence: u64,
    pub node_type: NodeType,
}

/// What an acknowledgement answers.
#[derive(Clone, Copy, Debug, PartialEq, Eq, Structural)]
pub enum AckKind {
    Heartbeat,
    Deployment,
    Termination,
}

/// The answer to a control message.
#[derive(Debug, PartialEq, Eq)]
pub struct Ack {
    pub execution_id: Option<ExecutionId>,
    pub sequence: u64,
    pub kind: AckKind,
}

/// What the coordinator knows of an execution's liveness.
#[derive(Clone, Copy, Debug, PartialEq, Eq, Structural)]
pub struct HeartbeatStatus {
    /// The latest time stamp among the heartbeats taken.
    pub last_timestamp: u64,
    /// The sequence number of the last heartbeat taken.
    pub last_sequence: Option<u64>,
    /// The highest sequence number acknowledged.
    pub last_ack: Option<u64>,
    /// How many heartbeats in a row were missed.
    pub missed: u32,
    pub state: ExecutionState,
}

/// True when a heartbeat with the number `sequence` is news: it is beyond the last
/// one taken.
pub open spec fn is_news(status: HeartbeatStatus, sequence: u64) -> bool {
    match status.last_sequence {
        Some(last) => last < sequence,
        None => true,
    }
}

/// The status after a heartbeat. One that is no news, or comes when the execution
/// is closed, changes nothing. One that is news is taken: the time stamp never goes
/// back, the count of missed heartbeats starts again, and an execution that was
/// initialized or suspect runs.
pub open spec fn after_heartbeat(status: HeartbeatStatus, timestamp: u64, sequence: u64) -> HeartbeatStatus {
    if !is_news(status, sequence) || status.state == ExecutionState::Closed {
        status
    } else {
        HeartbeatStatus {
            last_timestamp: if timestamp > status.last_timestamp {
                timestamp
            } else {
                status.last_timestamp
            },
            last_sequence: Some(sequence),
            last_ack: status.last_ack,
            missed: 0,
            state: match status.state {
                ExecutionState::Initialized => ExecutionState::Running,
                ExecutionState::Suspect => ExecutionState::Running,
                other => other,
            },
        }
    }
}

/// The status after a run of heartbeats, each given by its time stamp and its number.
pub open spec fn after_heartbeats(status: HeartbeatStatus, beats: Seq<(u64, u64)>) -> HeartbeatStatus
    decreases beats.len(),
{
    if beats.len() == 0 {
        status
    } else {
        after_heartbeat(after_heartbeats(status, beats.drop_last()), beats.last().0, beats.last().1)
    }
}

/// The numbers of the heartbeats of a run that were taken, in the order of the run.
pub open spec fn taken_numbers(status: HeartbeatStatus, beats: Seq<(u64, u64)>) -> Seq<u64>
    decreases beats.len(),
{
    if beats.len() == 0 {
        Seq::empty()
    } else {
        let before = after_heartbeats(status, beats.drop_last());
        let earlier = taken_numbers(status, beats.drop_last());
        if after_heartbeat(before, beats.last().0, beats.last().1).last_sequence
            != before.last_sequence {
            earlier.push(beats.last().1)
        } else {
            earlier
        }
    }
}

/// Whatever heartbeats come in whatever order, the numbers of those that are taken
/// grow strictly, from beyond the number that was taken last before them; and the
/// time stamp that is kept never goes back.
pub proof fn lemma_heartbeats_increase(status: HeartbeatStatus, beats: Seq<(u64, u64)>)
    ensures
        forall|i: int, j: int|
            0 <= i < j < taken_numbers(status, beats).len() ==> taken_numbers(status, beats)[i]
                < taken_numbers(status, beats)[j],
        forall|i: int|
            0 <= i < taken_numbers(status, beats).len() ==> is_news(
                status,
                #[trigger] taken_numbers(status, beats)[i],
            ),
        after_heartbeats(status, beats).last_sequence == (if taken_numbers(status, beats).len()
            == 0 {
            status.last_sequence
        } else {
            Some(taken_numbers(status, beats).last())
        }),
        after_heartbeats(status, beats).last_timestamp >= status.last_timestamp,
    decreases beats.len(),
{
    if beats.len() != 0 {
        lemma_heartbeats_increase(status, beats.drop_last());
    }
}

/// The status after an acknowledgement: the highest number acknowledged is kept, and
/// an execution that is closing is closed by the acknowledgement of its termination.
pub open spec fn after_ack(status: HeartbeatStatus, sequence: u64, kind: AckKind) -> HeartbeatStatus {
    HeartbeatStatus {
        last_ack: match status.last_ack {
            Some(last) if last >= sequence => Some(last),
            _ => Some(sequence),
        },
        state: if status.state == ExecutionState::Closing && kind == AckKind::Termination {
            ExecutionState::Closed
        } else {
            status.state
        },
        ..status
    }
}

/// The status after one more heartbeat was missed. From `close_after` misses in a
/// row the execution is closed; from `suspect_after`, one that was initialized or
/// running is suspect.
pub open spec fn after_miss(status: HeartbeatStatus, suspect_after: u32, close_after: u32) -> HeartbeatStatus {
    let missed = if status.missed < u32::MAX {
        (status.missed + 1) as u32
    } else {
        status.missed
    };
    if status.state == ExecutionState::Closed {
        status
    } else if missed >= close_after {
        HeartbeatStatus { missed, state: ExecutionState::Closed, ..status }
    } else if missed >= suspect_after && (status.state == ExecutionState::Initialized
        || status.state == ExecutionState::Running) {
        HeartbeatStatus { missed, state: ExecutionState::Suspect, ..status }
    } else {
        HeartbeatStatus { missed, ..status }
    }
}

/// True when an execution in this state is asked to stop by a termination.
pub open spec fn stops_on_terminate(state: ExecutionState) -> bool {
    state == ExecutionState::Initialized || state == ExecutionState::Running || state
        == ExecutionState::Suspect
}

/// One subdataflow's run on a worker, as the coordinator tracks it.
#[derive(Debug, PartialEq, Eq)]
pub struct Execution {
    pub id: ExecutionId,
    /// The worker that runs it.
    pub target: HostAddr,
    pub status: HeartbeatStatus,
}

impl Execution {
    /// A new execution, initialized.
    pub fn new(id: ExecutionId, target: HostAddr) -> (execution: Execution)
        ensures
            execution.id == id,
            execution.target == target,
            execution.status == (HeartbeatStatus {
                last_timestamp: 0,
                last_sequence: None,
                last_ack: None,
                missed: 0,
                state: ExecutionState::Initialized,
            }),
    {
        Execution {
            id,
            target,
            status: HeartbeatStatus {
                last_timestamp: 0,
                last_sequence: None,
                last_ack: None,
                missed: 0,
                state: ExecutionState::Initialized,
            },
        }
    }

    /// Takes a heartbeat: see [`after_heartbeat`]. The numbers of the heartbeats taken
    /// grow strictly, and the time stamp never goes back.
    pub fn update_heartbeat_status(&mut self, heartbeat: &Heartbeat)
        ensures
            final(self).id == old(self).id,
            final(self).target == old(self).target,
            final(self).status == after_heartbeat(
                old(self).status,
                heartbeat.timestamp,
                heartbeat.sequence,
            ),
            final(self).status.last_timestamp >= old(self).status.last_timestamp,
            final(self).status.last_sequence != old(self).status.last_sequence ==> is_news(
                old(self).status,
                heartbeat.sequence,
            ) && final(self).status.last_sequence == Some(heartbeat.sequence),
    {
        let news = match self.status.last_sequence {
            Some(last) => last < heartbeat.sequence,
            None => true,
        };
        if !news {
            return;
        }
        match self.status.state {
            ExecutionState::Closed => {
                return;
            },
            ExecutionState::Initialized => {
                self.status.state = ExecutionState::Running;
            },
            ExecutionState::Suspect => {
                self.status.state = ExecutionState::Running;
            },
            _ => {},
        }
        if heartbeat.timestamp > self.status.last_timestamp {
            self.status.last_timestamp = heartbeat.timestamp;
        }
        self.status.last_sequence = Some(heartbeat.sequence);
        self.status.missed = 0;
    }

    /// Takes an acknowledgement: see [`after_ack`]. Taking one twice is taking it once.
    pub fn ack(&mut self, ack: &Ack)
        ensures
            final(self).id == old(self).id,
            final(self).target == old(self).target,
            final(self).status == after_ack(old(self).status, ack.sequence, ack.kind),
            after_ack(final(self).status, ack.sequence, ack.kind) == final(self).status,
    {
        let keep = match self.status.last_ack {
            Some(last) => last >= ack.sequence,
            None => false,
        };
        if !keep {
            self.status.last_ack = Some(ack.sequence);
        }
        match (self.status.state, ack.kind) {
            (ExecutionState::Closing, AckKind::Termination) => {
                self.status.state = ExecutionState::Closed;
            },
            _ => {},
        }
    }

    /// Counts one more missed heartbeat: see [`after_miss`].
    pub fn miss_heartbeat(&mut self, suspect_after: u32, close_after: u32)
        ensures
            final(self).id == old(self).id,
            final(self).target == old(self).target,
            final(self).status == after_miss(old(self).status, suspect_after, close_after),
    {
        match self.status.state {
            ExecutionState::Closed => {
                return;
            },
            _ => {},
        }
        if self.status.missed < u32::MAX {
            self.status.missed = self.status.missed + 1;
        }
        if self.status.missed >= close_after {
            self.status.state = ExecutionState::Closed;
        } else if self.status.missed >= suspect_after {
            match self.status.state {
                ExecutionState::Initialized => {
                    self.status.state = ExecutionState::Suspect;
                },
                ExecutionState::Running => {
                    self.status.state = ExecutionState::Suspect;
                },
                _ => {},
            }
        }
    }

    /// Asks the execution to end. One that is initialized, running or suspect is
    /// closing from now on, and its worker has to be told; others stay as they are.
    pub fn terminate(&mut self) -> (tell_worker: bool)
        ensures
            final(self).id == old(self).id,
            final(self).target == old(self).target,
            tell_worker == stops_on_terminate(old(self).status.state),
            final(self).status == (HeartbeatStatus {
                state: if tell_worker {
                    ExecutionState::Closing
                } else {
                    old(self).status.state
                },
                ..old(self).status
            }),
    {
        match self.status.state {
            ExecutionState::Closing => false,
            ExecutionState::Closed => false,
            _ => {
                self.status.state = ExecutionState::Closing;
                true
            },
        }
    }

    /// Closes the execution whatever its state: the grace period is over.
    pub fn force_close(&mut self)
        ensures
            final(self).id == old(self).id,
            final(self).target == old(self).target,
            final(self).status == (HeartbeatStatus {
                state: ExecutionState::Closed,
                ..old(self).status
            }),
    {
        self.status.state = ExecutionState::Closed;
    }
}

/// Gives the heartbeats of one execution their numbers.
#[derive(Debug, PartialEq, Eq)]
pub struct HeartbeatEmitter {
    pub execution_id: ExecutionId,
    /// The number of the next heartbeat.
    pub next_sequence: u64,
}

impl HeartbeatEmitter {
    /// An emitter whose first heartbeat has the number 0.
    pub fn new(execution_id: ExecutionId) -> (emitter: HeartbeatEmitter)
        ensures
            emitter.execution_id == execution_id,
            emitter.next_sequence == 0,
    {
        HeartbeatEmitter { execution_id, next_sequence: 0 }
    }

    /// The next heartbeat, sent at `now`. Each has the number after that of the one
    /// before; when the numbers are used up, there is no further heartbeat.
    pub fn emit(&mut self, now: u64) -> (heartbeat: Option<Heartbeat>)
        ensures
            final(self).execution_id == old(self).execution_id,
            match heartbeat {
                Some(hb) => {
                    &&& old(self).next_sequence < u64::MAX
                    &&& hb.sequence == old(self).next_sequence
                    &&& hb.timestamp == now
                    &&& hb.node_type == NodeType::TaskWorker
                    &&& hb.execution_id matches Some(id) && id@ == old(self).execution_id@
                    &&& final(self).next_sequence == old(self).next_sequence + 1
                },
                None => old(self).next_sequence == u64::MAX && final(self).next_sequence
                    == u64::MAX,
            },
    {
        if self.next_sequence == u64::MAX {
            return None;
        }
        let sequence = self.next_sequence;
        self.next_sequence = sequence + 1;
        Some(
            Heartbeat {
                execution_id: Some(self.execution_id.clone()),
                timestamp: now,
                sequence,
                node_type: NodeType::TaskWorker,
            },
        )
    }
}

/// Answers the control messages that an execution receives.
#[derive(Debug, PartialEq, Eq)]
pub struct AckResponder {
    pub execution_id: ExecutionId,
}

impl AckResponder {
    pub fn new(execution_id: ExecutionId) -> (responder: AckResponder)
        ensures
            responder.execution_id == execution_id,
    {
        AckResponder { execution_id }
    }

    /// The acknowledgement of the control message with the number `sequence`: it names
    /// this execution and that number.
    pub fn respond(&self, sequence: u64, kind: AckKind) -> (ack: Ack)
        ensures
            ack.execution_id matches Some(id) && id@ == self.execution_id@,
            ack.sequence == sequence,
            ack.kind == kind,
    {
        Ack { execution_id: Some(self.execution_id.clone()), sequence, kind }
    }
}

/// Where and how often an execution sends its heartbeats. Times are in milliseconds.
#[derive(Debug, PartialEq, Eq)]
pub struct HeartbeatBuilder {
    pub nodes: Vec<HostAddr>,
    pub period: u64,
    pub connection_timeout: u64,
    pub rpc_timeout: u64,
}

/// Where and how an execution sends its acknowledgements. Times are in milliseconds.
#[derive(Debug, PartialEq, Eq)]
pub struct AckResponderBuilder {
    pub delay: u64,
    pub buf_size: usize,
    pub nodes: Vec<HostAddr>,
    pub connection_timeout: u64,
    pub rpc_timeout: u64,
}

/// A copy of a run of addresses.
pub fn clone_hosts(hosts: &Vec<HostAddr>) -> (copy: Vec<HostAddr>)
    ensures
        hosts_view(copy@) == hosts_view(hosts@),
{
    let mut copy: Vec<HostAddr> = Vec::new();
    let mut i: usize = 0;
    while i < hosts.len()
        invariant
            i <= hosts.len(),
            copy@.len() == i,
            forall|j: int| 0 <= j < i ==> (#[trigger] copy@[j])@ == hosts@[j]@,
        decreases hosts.len() - i,
    {
        copy.push(hosts[i].clone());
        i += 1;
    }
    assert(hosts_view(copy@) =~= hosts_view(hosts@));
    copy
}

impl Clone for HeartbeatBuilder {
    fn clone(&self) -> (copy: Self)
        ensures
            hosts_view(copy.nodes@) == hosts_view(self.nodes@),
            copy.period == self.period,
            copy.connection_timeout == self.connection_timeout,
            copy.rpc_timeout == self.rpc_timeout,
    {
        HeartbeatBuilder {
            nodes: clone_hosts(&self.nodes),
            period: self.period,
            connection_timeout: self.connection_timeout,
            rpc_timeout: self.rpc_timeout,
        }
    }
}

impl Clone for AckResponderBuilder {
    fn clone(&self) -> (copy: Self)
        ensures
            hosts_view(copy.nodes@) == hosts_view(self.nodes@),
            copy.delay == self.delay,
            copy.buf_size == self.buf_size,
            copy.connection_timeout == self.connection_timeout,
            copy.rpc_timeout == self.rpc_timeout,
    {
        AckResponderBuilder {
            delay: self.delay,
            buf_size: self.buf_size,
            nodes: clone_hosts(&self.nodes),
            connection_timeout: self.connection_timeout,
            rpc_timeout: self.rpc_timeout,
        }
    }
}

/// What a worker is asked to run: one subdataflow, with where its heartbeats and
/// acknowledgements go.
#[derive(Debug, PartialEq, Eq)]
pub struct SubdataflowDeploymentPlan {
    pub subdataflow: Dataflow,
    pub execution_id: ExecutionId,
    /// The worker that is to run the subdataflow.
    pub target: HostAddr,
    pub ack: AckResponderBuilder,
    pub heartbeat: HeartbeatBuilder,
}

impl Clone for SubdataflowDeploymentPlan {
    fn clone(&self) -> (copy: Self)
        ensures
            copy.subdataflow@ == self.subdataflow@,
            copy.execution_id@ == self.execution_id@,
            copy.target@ == self.target@,
    {
        SubdataflowDeploymentPlan {
            subdataflow: self.subdataflow.clone(),
            execution_id: self.execution_id.clone(),
            target: self.target.clone(),
            ack: self.ack.clone(),
            heartbeat: self.heartbeat.clone(),
        }
    }
}

/// Why a worker does not run a subdataflow.
#[derive(Debug, PartialEq, Eq)]
pub enum TaskDeploymentException {
    /// The dataflow could not be persisted.
    StorageFailed(String),
    /// No worker is alive.
    NoWorker,
    /// The dataflow has more parts than can be numbered.
    TooManySubdataflows,
    /// Not every part of the dataflow was handed to its worker.
    Incomplete,
    /// The store does not keep the job's dataflow.
    NotPersisted,
    /// The worker refused, or could not be reached.
    Rejected(RpcStatus),
}

} // verus!

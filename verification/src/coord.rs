//! The coordinator that has each worker create its part of a job.

use crate::cluster::{live_hosts, parts_view, partitioned, split, Cluster, NodeConfig};
use crate::graph::{Dataflow, DataflowView, HostAddr, HostAddrView};
use crate::rpc::{code_number, RpcCode};
use vstd::prelude::*;

verus! {

/// Where the coordinator keeps its jobs.
#[derive(Clone, Copy, Debug, PartialEq, Eq, Structural)]
pub enum JobStorage {
    PgSQL,
}

/// What the coordinator is started with.
#[derive(Debug, PartialEq, Eq)]
pub struct CoordinatorConfig {
    pub port: usize,
    pub cluster: Vec<NodeConfig>,
}

/// Marks a failure of the coordinator that has no further detail.
#[derive(Clone, Copy, Debug, PartialEq, Eq, Structural)]
pub struct CoordinatorException {}

/// A failure as the API reports it: the number of a status code, and a message for
/// people.
#[derive(Debug, PartialEq, Eq)]
pub struct ApiError {
    pub code: i32,
    pub msg: String,
}

/// What a worker answers to a request: a status as in HTTP, and a message where the
/// status is not the one of success.
#[derive(Debug, PartialEq, Eq)]
pub struct WorkerResponse {
    pub status: i32,
    pub err_msg: String,
}

/// The status of success.
pub const SUCCESS: i32 = 200;

pub const BAD_REQUEST: i32 = 400;

pub const NOT_FOUND: i32 = 404;

pub const SERVICE_UNAVAILABLE: i32 = 503;

pub const GATEWAY_TIMEOUT: i32 = 504;

/// The status code that stands for a worker's status.
pub open spec fn rpc_code_of(status: i32) -> RpcCode {
    if status == SUCCESS {
        RpcCode::Success
    } else if status == BAD_REQUEST {
        RpcCode::InvalidArgument
    } else if status == NOT_FOUND {
        RpcCode::NotFound
    } else if status == SERVICE_UNAVAILABLE {
        RpcCode::Unavailable
    } else if status == GATEWAY_TIMEOUT {
        RpcCode::DeadlineExceeded
    } else {
        RpcCode::Internal
    }
}

/// The status code that stands for a worker's status.
pub fn to_rpc_code(status: i32) -> (code: RpcCode)
    ensures
        code == rpc_code_of(status),
{
    if status == SUCCESS {
        RpcCode::Success
    } else if status == BAD_REQUEST {
        RpcCode::InvalidArgument
    } else if status == NOT_FOUND {
        RpcCode::NotFound
    } else if status == SERVICE_UNAVAILABLE {
        RpcCode::Unavailable
    } else if status == GATEWAY_TIMEOUT {
        RpcCode::DeadlineExceeded
    } else {
        RpcCode::Internal
    }
}

/// The coordinator of a cluster: it parts a job among the workers and has each
/// worker create its part.
#[derive(Debug, PartialEq, Eq)]
pub struct Coordinator {
    pub job_storage: JobStorage,
    pub cluster: Cluster,
}

impl Coordinator {
    /// The coordinator of the cluster that the configuration names.
    pub fn new(job_storage: JobStorage, cluster_config: &Vec<NodeConfig>) -> (coordinator: Self)
        ensures
            coordinator.job_storage == job_storage,
            coordinator.cluster.workers@.len() == cluster_config@.len(),
            forall|i: int|
                0 <= i < cluster_config@.len() ==> (#[trigger] coordinator.cluster.workers@[i]).alive
                    && coordinator.cluster.workers@[i].host_addr@ == (HostAddrView {
                    host: cluster_config@[i].host@,
                    port: cluster_config@[i].port,
                }),
    {
        Coordinator { job_storage, cluster: Cluster::new(cluster_config) }
    }

    /// Parts `dataflow` among the workers that are alive: what comes back is what each
    /// worker is to be asked to create, in the order of the requests. With no worker
    /// alive, the job is refused as not available. How the requests are sent and what
    /// their replies make of the job is told by [`Submission`].
    pub fn create_dataflow(&mut self, dataflow: Dataflow) -> (requests: Result<
        Vec<(HostAddr, Dataflow)>,
        ApiError,
    >)
        ensures
            *final(self) == *old(self),
            match requests {
                Ok(parts) => live_hosts(old(self).cluster.workers@).len() > 0 && parts_view(parts@)
                    == split(
                    DataflowView {
                        nodes: partitioned(
                            dataflow@.nodes,
                            live_hosts(old(self).cluster.workers@),
                            dataflow@.job_id,
                        ),
                        ..dataflow@
                    },
                ),
                Err(error) => live_hosts(old(self).cluster.workers@).len() == 0 && error.code
                    == code_number(RpcCode::Unavailable) && error.msg@ == "no worker is alive"@,
            },
    {
        let mut assigned = dataflow;
        if self.cluster.partition_dataflow(&mut assigned) {
            Ok(self.cluster.split_into_subdataflow(&assigned))
        } else {
            Err(
                ApiError {
                    code: RpcCode::Unavailable.number(),
                    msg: "no worker is alive".to_owned(),
                },
            )
        }
    }

    /// What a worker's answer to a request means: success where the call went through
    /// and the worker reports success; else the failure of the call, or the worker's
    /// status as a status code with the worker's message.
    pub fn check_response(response: Result<WorkerResponse, ApiError>) -> (checked: Result<
        (),
        ApiError,
    >)
        ensures
            match response {
                Ok(answer) => if answer.status == SUCCESS {
                    checked is Ok
                } else {
                    checked matches Err(error) && error.code == code_number(
                        rpc_code_of(answer.status),
                    ) && error.msg == answer.err_msg
                },
                Err(failure) => checked == Err::<(), ApiError>(failure),
            },
    {
        match response {
            Ok(answer) => {
                if answer.status == SUCCESS {
                    Ok(())
                } else {
                    Err(ApiError { code: to_rpc_code(answer.status).number(), msg: answer.err_msg })
                }
            },
            Err(failure) => Err(failure),
        }
    }
}

/// True when a reply says that the worker did what it was asked.
pub open spec fn is_success(reply: Result<WorkerResponse, ApiError>) -> bool {
    reply matches Ok(answer) && answer.status == SUCCESS
}

/// True when `error` is what a reply that is no success means: the failure of the
/// call, or the worker's status as a status code with the worker's message.
pub open spec fn is_failure_of(reply: Result<WorkerResponse, ApiError>, error: ApiError) -> bool {
    match reply {
        Ok(answer) => error.code == code_number(rpc_code_of(answer.status)) && error.msg
            == answer.err_msg,
        Err(failure) => error == failure,
    }
}

/// A job on its way to the workers: the requests, in order, how many of them were
/// answered with success, and the first failure, after which no request is sent.
#[derive(Debug, PartialEq, Eq)]
pub struct Submission {
    pub requests: Vec<(HostAddr, Dataflow)>,
    /// How many requests were sent and answered with success.
    pub next: usize,
    /// The first reply that was no success, as a failure.
    pub failure: Option<ApiError>,
}

impl Submission {
    /// True when a request is to be sent: none has failed, and not all were sent.
    pub open spec fn awaits(&self) -> bool {
        self.failure is None && self.next < self.requests@.len()
    }

    /// The submission of `requests`, none of them sent yet.
    pub fn new(requests: Vec<(HostAddr, Dataflow)>) -> (submission: Submission)
        ensures
            submission.requests == requests,
            submission.next == 0,
            submission.failure is None,
    {
        Submission { requests, next: 0, failure: None }
    }

    /// The request that is to be sent next: the first that was not sent, as long as no
    /// reply was a failure.
    pub fn next_request(&self) -> (request: Option<&(HostAddr, Dataflow)>)
        ensures
            match request {
                Some(r) => self.awaits() && *r == self.requests@[self.next as int],
                None => !self.awaits(),
            },
    {
        if self.failure.is_none() && self.next < self.requests.len() {
            Some(&self.requests[self.next])
        } else {
            None
        }
    }

    /// Takes the reply to the request that was sent last. A success makes the next
    /// request due; anything else is the failure of the submission, and ends it. With
    /// no request due, a reply changes nothing.
    pub fn replied(&mut self, reply: Result<WorkerResponse, ApiError>)
        ensures
            final(self).requests == old(self).requests,
            if !old(self).awaits() {
                *final(self) == *old(self)
            } else if is_success(reply) {
                final(self).next == old(self).next + 1 && final(self).failure is None
            } else {
                final(self).next == old(self).next && (final(self).failure matches Some(error)
                    && is_failure_of(reply, error))
            },
    {
        if self.failure.is_some() || self.next >= self.requests.len() {
            return;
        }
        match Coordinator::check_response(reply) {
            Ok(_) => {
                self.next = self.next + 1;
            },
            Err(error) => {
                self.failure = Some(error);
            },
        }
    }

    /// How the submission ended: with the first failure; well, when every request was
    /// answered with success; not yet, while a request is due.
    pub fn result(self) -> (ended: Option<Result<(), ApiError>>)
        ensures
            ended == match self.failure {
                Some(error) => Some(Err::<(), ApiError>(error)),
                None => if self.next >= self.requests@.len() {
                    Some(Ok::<(), ApiError>(()))
                } else {
                    None::<Result<(), ApiError>>
                },
            },
    {
        let all = self.next >= self.requests.len();
        match self.failure {
            Some(error) => Some(Err(error)),
            None => if all {
                Some(Ok(()))
            } else {
                None
            },
        }
    }
}

} // verus!

//! The coordinator's answers to the events and probes that reach its API.

use crate::cluster::Cluster;
use crate::coord::{ApiError, Coordinator, SUCCESS};
use crate::rpc::RpcCode;
use vstd::prelude::*;

verus! {

/// The message of a successful answer.
pub open spec fn success_msg() -> Seq<char> {
    "success"@
}

/// What is asked of the coordinator's probe.
#[derive(Clone, Copy, Debug, PartialEq, Eq, Structural)]
pub enum ProbeType {
    Readiness,
    Liveness,
}

/// How far the handling of an event came.
#[derive(Debug, PartialEq, Eq)]
pub enum EventOutcome {
    /// The body of the request could not be read.
    BadBody,
    /// The event asks for nothing that the coordinator does.
    NotASubmission,
    /// The cluster view was in use.
    ClusterBusy,
    /// A job was submitted, and this came of it.
    Submitted(Result<(), ApiError>),
}

/// What the coordinator answers to an event.
#[derive(Debug, PartialEq, Eq)]
pub enum EventReply {
    Success { code: i32, msg: String },
    Fail(RpcCode),
    /// No answer is sent.
    Nothing,
}

/// The coordinator's API: the coordinator and the view of the cluster.
#[derive(Debug, PartialEq, Eq)]
pub struct CoordinatorApiImpl {
    pub coordinator: Coordinator,
    pub cluster: Cluster,
}

impl CoordinatorApiImpl {
    pub fn new(coordinator: Coordinator, cluster: Cluster) -> (api: CoordinatorApiImpl)
        ensures
            api.coordinator == coordinator,
            api.cluster == cluster,
    {
        CoordinatorApiImpl { coordinator, cluster }
    }

    /// The answer to an event: success for a job that was submitted; `Internal` where
    /// the submission failed, `Unavailable` where the cluster view was in use,
    /// `InvalidArgument` for a body that cannot be read; none for any other event.
    pub fn handle_event(&self, outcome: EventOutcome) -> (reply: EventReply)
        ensures
            match outcome {
                EventOutcome::BadBody => reply == EventReply::Fail(RpcCode::InvalidArgument),
                EventOutcome::NotASubmission => reply == EventReply::Nothing,
                EventOutcome::ClusterBusy => reply == EventReply::Fail(RpcCode::Unavailable),
                EventOutcome::Submitted(Ok(_)) => reply matches EventReply::Success { code, msg }
                    && code == SUCCESS && msg@ == success_msg(),
                EventOutcome::Submitted(Err(_)) => reply == EventReply::Fail(RpcCode::Internal),
            },
    {
        match outcome {
            EventOutcome::BadBody => EventReply::Fail(RpcCode::InvalidArgument),
            EventOutcome::NotASubmission => EventReply::Nothing,
            EventOutcome::ClusterBusy => EventReply::Fail(RpcCode::Unavailable),
            EventOutcome::Submitted(Ok(_)) => EventReply::Success {
                code: SUCCESS,
                msg: "success".to_owned(),
            },
            EventOutcome::Submitted(Err(_)) => EventReply::Fail(RpcCode::Internal),
        }
    }

    /// What a probe sets off. Every probe is answered at once, before anything else is
    /// done; a probe of readiness then has the workers probed, a probe of liveness
    /// has nothing done.
    pub fn probe(&self, probe_type: ProbeType) -> (refresh: bool)
        ensures
            refresh == (probe_type == ProbeType::Readiness),
    {
        match probe_type {
            ProbeType::Readiness => true,
            ProbeType::Liveness => false,
        }
    }
}

} // verus!

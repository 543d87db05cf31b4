//! The API server's part in creating and showing dataflows: what it asks of the
//! coordinator, and what it makes of the answer.

use crate::coord::ApiError;
use crate::event::ResourceId;
use crate::graph::Dataflow;
use crate::rpc::{code_number, RpcStatus};
use vstd::prelude::*;

verus! {

/// What the API server answers where it does not answer well.
#[derive(Debug, PartialEq, Eq)]
pub enum HttpFault {
    BadRequest(String),
    InternalServerError(ApiError),
}

/// Where a resource stands.
#[derive(Clone, Copy, Debug, PartialEq, Eq, Structural)]
pub enum ResourceStatusEnum {
    Starting,
    Running,
    Failure,
    Stopping,
    Deleted,
}

/// The kinds of resource.
#[derive(Clone, Copy, Debug, PartialEq, Eq, Structural)]
pub enum ResourceTypeEnum {
    Dataflow,
}

/// The request to create a resource.
#[derive(Debug, PartialEq, Eq)]
pub struct CreateResourceRequest {
    pub namespace: String,
    pub resource_type: ResourceTypeEnum,
    /// The dataflow to create, where the resource is one.
    pub dataflow: Option<Dataflow>,
}

/// The answer to the request to create a resource.
#[derive(Clone, Copy, Debug, PartialEq, Eq, Structural)]
pub struct CreateResourceResponse {
    pub status: ResourceStatusEnum,
}

/// A resource as the API shows it.
#[derive(Debug, PartialEq, Eq)]
pub struct Resource {
    pub resource_id: ResourceId,
    pub resource_type: ResourceTypeEnum,
}

/// The answer to the request for a resource.
#[derive(Debug, PartialEq, Eq)]
pub struct GetResourceResponse {
    pub resource: Option<Resource>,
}

/// True when the request holds no dataflow, or one without operators.
pub open spec fn is_dataflow_empty(dataflow: Option<Dataflow>) -> bool {
    match dataflow {
        Some(df) => df.nodes@.len() == 0,
        None => true,
    }
}

/// The failure of a call, as the API reports it.
pub fn api_error(status: RpcStatus) -> (error: ApiError)
    ensures
        error.code == code_number(status.code),
        error.msg == status.message,
{
    ApiError { code: status.code.number(), msg: status.message }
}

/// The dataflow that a request asks to create, as the job `resource_id`. A request
/// without a dataflow, or with one that has no operator, is a bad request.
pub fn create_dataflow(req: CreateResourceRequest, resource_id: String) -> (submitted: Result<
    Dataflow,
    HttpFault,
>)
    ensures
        match submitted {
            Ok(dataflow) => req.dataflow matches Some(asked) && asked.nodes@.len() != 0
                && dataflow.meta == asked.meta && dataflow.nodes == asked.nodes
                && dataflow.job_id.resource_id == resource_id && dataflow.job_id.namespace_id
                == asked.job_id.namespace_id,
            Err(fault) => is_dataflow_empty(req.dataflow) && (fault matches HttpFault::BadRequest(
                message,
            ) && message@ == "empty dataflow"@),
        },
{
    match req.dataflow {
        Some(asked) => {
            if asked.nodes.len() == 0 {
                Err(HttpFault::BadRequest("empty dataflow".to_owned()))
            } else {
                Ok(
                    Dataflow {
                        job_id: ResourceId {
                            resource_id,
                            namespace_id: asked.job_id.namespace_id,
                        },
                        meta: asked.meta,
                        nodes: asked.nodes,
                    },
                )
            }
        },
        None => Err(HttpFault::BadRequest("empty dataflow".to_owned())),
    }
}

/// The answer to a request to create a dataflow, given how the coordinator answered:
/// the resource is starting, or the server failed with the coordinator's failure.
pub fn created(answer: Result<(), RpcStatus>) -> (reply: Result<CreateResourceResponse, HttpFault>)
    ensures
        match answer {
            Ok(_) => reply == Ok::<CreateResourceResponse, HttpFault>(
                CreateResourceResponse { status: ResourceStatusEnum::Starting },
            ),
            Err(status) => reply matches Err(HttpFault::InternalServerError(error)) && error.code
                == code_number(status.code) && error.msg == status.message,
        },
{
    match answer {
        Ok(_) => Ok(CreateResourceResponse { status: ResourceStatusEnum::Starting }),
        Err(status) => Err(HttpFault::InternalServerError(api_error(status))),
    }
}

/// The answer to a request for a dataflow, given how the coordinator answered: the
/// resource of the dataflow's job; a bad request where the coordinator has no such
/// dataflow; the coordinator's failure as a failure of the server.
pub fn get_dataflow(answer: Result<Option<Dataflow>, RpcStatus>) -> (reply: Result<
    GetResourceResponse,
    HttpFault,
>)
    ensures
        match answer {
            Ok(Some(dataflow)) => reply matches Ok(response) && response.resource matches Some(
                resource,
            ) && resource.resource_id == dataflow.job_id && resource.resource_type
                == ResourceTypeEnum::Dataflow,
            Ok(None) => reply matches Err(HttpFault::BadRequest(message)) && message@
                == "empty graph response"@,
            Err(status) => reply matches Err(HttpFault::InternalServerError(error)) && error.code
                == code_number(status.code) && error.msg == status.message,
        },
{
    match answer {
        Ok(Some(dataflow)) => Ok(
            GetResourceResponse {
                resource: Some(
                    Resource {
                        resource_id: dataflow.job_id,
                        resource_type: ResourceTypeEnum::Dataflow,
                    },
                ),
            },
        ),
        Ok(None) => Err(HttpFault::BadRequest("empty graph response".to_owned())),
        Err(status) => Err(HttpFault::InternalServerError(api_error(status))),
    }
}

} // verus!

use lightflus::api::{CoordinatorApiImpl, EventOutcome, EventReply, ProbeType};
use lightflus::apiserver::{
    api_error, create_dataflow, created, get_dataflow, CreateResourceRequest,
    CreateResourceResponse, GetResourceResponse, HttpFault, Resource, ResourceStatusEnum,
    ResourceTypeEnum,
};
use lightflus::cluster::{Cluster, NodeConfig};
use lightflus::coord::{
    to_rpc_code, ApiError, Coordinator, CoordinatorConfig, CoordinatorException, JobStorage,
    Submission, WorkerResponse, SUCCESS,
};
use lightflus::edge::{
    batch_write, channel_capacity, local_write, remote_payload, remote_write, OutEdgeError,
    DEFAULT_CHANNEL_SIZE,
};
use lightflus::event::{KeyedDataEvent, LocalEvent, ResourceId};
use lightflus::graph::{Dataflow, DataflowMeta, Details, Func, HostAddr, OperatorInfo};
use lightflus::rpc::{RetryDecision, RetryPolicy, RpcCode, RpcStatus};

fn config(ports: &[u16]) -> Vec<NodeConfig> {
    ports.iter().map(|p| NodeConfig { host: "worker".to_string(), port: *p }).collect()
}

fn pipeline(id: &str) -> Dataflow {
    let node = |id: u32, upstreams: &[u32]| OperatorInfo {
        operator_id: id,
        host_addr: None,
        upstreams: upstreams.to_vec(),
        details: Some(Details::Filter(Some(Func { function: "f".to_string() }))),
    };
    Dataflow {
        job_id: ResourceId { resource_id: id.to_string(), namespace_id: "team".to_string() },
        meta: vec![DataflowMeta { center: 0, neighbors: vec![1] }],
        nodes: vec![node(0, &[]), node(1, &[0])],
    }
}

fn status(code: RpcCode, message: &str) -> RpcStatus {
    RpcStatus { code, message: message.to_string() }
}

#[test]
fn the_coordinator_knows_the_cluster_of_its_configuration() {
    let config = CoordinatorConfig { port: 8791, cluster: config(&[1, 2]) };
    let coordinator = Coordinator::new(JobStorage::PgSQL, &config.cluster);
    assert_eq!(coordinator.job_storage, JobStorage::PgSQL);
    assert_eq!(coordinator.cluster, Cluster::new(&config.cluster));
    assert_eq!(coordinator.cluster.workers.len(), 2);
    assert_eq!(coordinator.cluster.workers[1].host_addr, HostAddr { host: "worker".to_string(), port: 2 });
    assert!(coordinator.cluster.workers.iter().all(|w| w.alive));
    assert_eq!(CoordinatorException {}, CoordinatorException {});
}

#[test]
fn the_coordinator_parts_a_job_among_the_workers() {
    let mut coordinator = Coordinator::new(JobStorage::PgSQL, &config(&[1, 2, 3]));
    let requests = coordinator.create_dataflow(pipeline("j")).unwrap();
    let mut assigned = pipeline("j");
    assert!(coordinator.cluster.partition_dataflow(&mut assigned));
    assert_eq!(requests, coordinator.cluster.split_into_subdataflow(&assigned));
    let operators: usize = requests.iter().map(|r| r.1.nodes.len()).sum();
    assert_eq!(operators, 2);
    for (worker, part) in &requests {
        assert!(part.nodes.iter().all(|n| n.host_addr.as_ref() == Some(worker)));
    }

    let mut alone = Coordinator::new(JobStorage::PgSQL, &config(&[]));
    assert_eq!(
        alone.create_dataflow(pipeline("j")),
        Err(ApiError { code: 14, msg: "no worker is alive".to_string() })
    );
}

#[test]
fn a_worker_answer_is_success_or_its_status() {
    let answer = |status: i32, err_msg: &str| WorkerResponse { status, err_msg: err_msg.to_string() };
    assert_eq!(SUCCESS, 200);
    assert_eq!(Coordinator::check_response(Ok(answer(200, ""))), Ok(()));
    assert_eq!(Coordinator::check_response(Ok(answer(200, "ignored"))), Ok(()));
    let cases = [(400, 3), (404, 5), (503, 14), (504, 4), (500, 13), (0, 13), (-1, 13), (201, 13)];
    for (worker_status, code) in cases {
        assert_eq!(
            Coordinator::check_response(Ok(answer(worker_status, "went wrong"))),
            Err(ApiError { code, msg: "went wrong".to_string() })
        );
        assert_eq!(to_rpc_code(worker_status).number(), code);
    }
    assert_eq!(to_rpc_code(200), RpcCode::Success);
    let failure = ApiError { code: 14, msg: "no route".to_string() };
    assert_eq!(
        Coordinator::check_response(Err(ApiError { code: 14, msg: "no route".to_string() })),
        Err(failure)
    );
}

fn three_requests() -> Vec<(HostAddr, Dataflow)> {
    (1..=3u16)
        .map(|port| (HostAddr { host: "worker".to_string(), port }, pipeline("j")))
        .collect()
}

fn success() -> Result<WorkerResponse, ApiError> {
    Ok(WorkerResponse { status: 200, err_msg: String::new() })
}

#[test]
fn a_job_is_created_when_every_worker_says_so() {
    let mut submission = Submission::new(three_requests());
    assert_eq!(submission.next, 0);
    let mut asked = vec![];
    while let Some((worker, _)) = submission.next_request() {
        asked.push(worker.port);
        submission.replied(success());
    }
    assert_eq!(asked, vec![1, 2, 3]);
    // with no request due, a reply changes nothing
    submission.replied(Err(ApiError { code: 14, msg: "late".to_string() }));
    assert_eq!(submission.next, 3);
    assert_eq!(submission.result(), Some(Ok(())));
    assert_eq!(Submission::new(vec![]).result(), Some(Ok(())));
}

#[test]
fn a_job_fails_with_the_first_failing_reply() {
    let mut submission = Submission::new(three_requests());
    assert_eq!(submission.next_request().map(|r| r.0.port), Some(1));
    submission.replied(success());
    assert_eq!(submission.next_request().map(|r| r.0.port), Some(2));
    submission.replied(Ok(WorkerResponse { status: 503, err_msg: "busy".to_string() }));
    // no request follows the failure, and a later reply does not change it
    assert_eq!(submission.next_request(), None);
    submission.replied(success());
    submission.replied(Err(ApiError { code: 4, msg: "too slow".to_string() }));
    assert_eq!(submission.next, 1);
    assert_eq!(submission.next_request(), None);
    assert_eq!(submission.result(), Some(Err(ApiError { code: 14, msg: "busy".to_string() })));

    let mut cut = Submission::new(three_requests());
    cut.replied(Err(ApiError { code: 14, msg: "no route".to_string() }));
    assert_eq!(cut.result(), Some(Err(ApiError { code: 14, msg: "no route".to_string() })));
    let mut open = Submission::new(three_requests());
    open.replied(success());
    assert_eq!(open.result(), None);
}

#[test]
fn events_are_answered_by_their_outcome() {
    let coordinator = Coordinator::new(JobStorage::PgSQL, &config(&[1]));
    let api = CoordinatorApiImpl::new(coordinator, Cluster::new(&config(&[1])));
    assert_eq!(api.cluster.workers.len(), 1);
    assert_eq!(api.coordinator.cluster.workers.len(), 1);
    assert_eq!(
        api.handle_event(EventOutcome::Submitted(Ok(()))),
        EventReply::Success { code: 200, msg: "success".to_string() }
    );
    assert_eq!(
        api.handle_event(EventOutcome::Submitted(Err(ApiError { code: 3, msg: "bad".to_string() }))),
        EventReply::Fail(RpcCode::Internal)
    );
    assert_eq!(api.handle_event(EventOutcome::ClusterBusy), EventReply::Fail(RpcCode::Unavailable));
    assert_eq!(api.handle_event(EventOutcome::BadBody), EventReply::Fail(RpcCode::InvalidArgument));
    assert_eq!(api.handle_event(EventOutcome::NotASubmission), EventReply::Nothing);
}

#[test]
fn a_probe_of_readiness_has_the_workers_probed() {
    let coordinator = Coordinator::new(JobStorage::PgSQL, &config(&[1]));
    let api = CoordinatorApiImpl::new(coordinator, Cluster::new(&config(&[1])));
    assert!(api.probe(ProbeType::Readiness));
    assert!(!api.probe(ProbeType::Liveness));
}

#[test]
fn a_dataflow_is_submitted_under_a_new_id() {
    let request = |dataflow: Option<Dataflow>| CreateResourceRequest {
        namespace: "team".to_string(),
        resource_type: ResourceTypeEnum::Dataflow,
        dataflow,
    };
    let mut expected = pipeline("old");
    expected.job_id.resource_id = "fresh".to_string();
    assert_eq!(create_dataflow(request(Some(pipeline("old"))), "fresh".to_string()), Ok(expected));
    let bad = Err(HttpFault::BadRequest("empty dataflow".to_string()));
    assert_eq!(create_dataflow(request(None), "fresh".to_string()), bad);
    let mut empty = pipeline("old");
    empty.nodes.clear();
    assert_eq!(create_dataflow(request(Some(empty)), "fresh".to_string()), bad);
}

#[test]
fn the_api_server_answers_by_what_the_coordinator_said() {
    assert_eq!(created(Ok(())), Ok(CreateResourceResponse { status: ResourceStatusEnum::Starting }));
    assert_eq!(
        created(Err(status(RpcCode::Unavailable, "down"))),
        Err(HttpFault::InternalServerError(ApiError { code: 14, msg: "down".to_string() }))
    );
    assert_eq!(
        get_dataflow(Ok(Some(pipeline("j")))),
        Ok(GetResourceResponse {
            resource: Some(Resource {
                resource_id: pipeline("j").job_id,
                resource_type: ResourceTypeEnum::Dataflow
            })
        })
    );
    assert_eq!(get_dataflow(Ok(None)), Err(HttpFault::BadRequest("empty graph response".to_string())));
    assert_eq!(
        get_dataflow(Err(status(RpcCode::NotFound, "no such job"))),
        Err(HttpFault::InternalServerError(ApiError { code: 5, msg: "no such job".to_string() }))
    );
    assert_eq!(
        api_error(status(RpcCode::Internal, "boom")),
        ApiError { code: 13, msg: "boom".to_string() }
    );
}

#[test]
fn status_codes_have_their_numbers() {
    let codes = [
        (RpcCode::Success, 0),
        (RpcCode::Unknown, 2),
        (RpcCode::InvalidArgument, 3),
        (RpcCode::DeadlineExceeded, 4),
        (RpcCode::NotFound, 5),
        (RpcCode::Internal, 13),
        (RpcCode::Unavailable, 14),
    ];
    for (code, number) in codes {
        assert_eq!(code.number(), number);
        assert_eq!(RpcCode::from_number(number), code);
        assert_eq!(
            code.is_transport(),
            code == RpcCode::Unavailable || code == RpcCode::DeadlineExceeded
        );
    }
    for number in [-1, 1, 6, 12, 15, 200] {
        assert_eq!(RpcCode::from_number(number), RpcCode::Unknown);
    }
    assert_eq!(status(RpcCode::Internal, "x").clone(), status(RpcCode::Internal, "x"));
}

#[test]
fn a_closed_channel_fails_the_write() {
    assert_eq!(
        local_write(Ok(()), Some(Err("channel closed".to_string()))),
        Err(OutEdgeError::SendToLocalFailed("channel closed".to_string()))
    );
    assert_eq!(local_write(Ok(()), Some(Ok(()))), Ok(()));
    assert_eq!(local_write(Ok(()), None), Ok(()));
    assert_eq!(
        local_write(Err("depth limit exceeded".to_string()), None),
        Err(OutEdgeError::EncodeError("depth limit exceeded".to_string()))
    );
    assert_eq!(
        local_write(Err("depth limit exceeded".to_string()), Some(Err("closed".to_string()))),
        Err(OutEdgeError::EncodeError("depth limit exceeded".to_string()))
    );
    assert_eq!(OutEdgeError::from("x".to_string()), OutEdgeError::EncodeError("x".to_string()));
}

#[test]
fn a_remote_edge_sends_data_and_drops_the_end_of_the_job() {
    let mut batch = KeyedDataEvent::default();
    batch.from_operator_id = 4;
    assert_eq!(
        remote_payload(LocalEvent::KeyedDataStreamEvent(batch.clone())),
        Some(batch)
    );
    let end = LocalEvent::Terminate {
        job_id: ResourceId { resource_id: "j".to_string(), namespace_id: String::new() },
        to: 2,
    };
    assert_eq!(remote_payload(end), None);
    assert_eq!(remote_write(None), Ok(()));
    assert_eq!(remote_write(Some(Ok(()))), Ok(()));
    assert_eq!(
        remote_write(Some(Err(status(RpcCode::DeadlineExceeded, "too slow")))),
        Err(OutEdgeError::SendToRemoteFailed(status(RpcCode::DeadlineExceeded, "too slow")))
    );
}

#[test]
fn a_batch_ends_with_its_first_failure() {
    let local = |m: &str| Err(OutEdgeError::SendToLocalFailed(m.to_string()));
    assert_eq!(batch_write(vec![]), Ok(()));
    assert_eq!(batch_write(vec![Ok(()), Ok(())]), Ok(()));
    assert_eq!(batch_write(vec![Ok(()), local("first"), Ok(()), local("second")]), local("first"));
    assert_eq!(batch_write(vec![local("only")]), local("only"));
}

#[test]
fn errors_of_edges_have_their_text() {
    assert_eq!(
        OutEdgeError::SendToLocalFailed("channel closed".to_string()).to_string(),
        "SendToLocalFailed: channel closed"
    );
    assert_eq!(
        OutEdgeError::SendToRemoteFailed(status(RpcCode::Unavailable, "no route")).to_string(),
        "SendToRemoteFailed: Unavailable: no route"
    );
    assert_eq!(
        OutEdgeError::EncodeError("depth limit exceeded".to_string()).to_string(),
        "RmpEncodeError: depth limit exceeded"
    );
    let names = [
        (RpcCode::Success, "Ok"),
        (RpcCode::Unknown, "Unknown"),
        (RpcCode::InvalidArgument, "InvalidArgument"),
        (RpcCode::DeadlineExceeded, "DeadlineExceeded"),
        (RpcCode::NotFound, "NotFound"),
        (RpcCode::Internal, "Internal"),
    ];
    for (code, name) in names {
        assert_eq!(
            OutEdgeError::SendToRemoteFailed(status(code, "")).to_string(),
            format!("SendToRemoteFailed: {}: ", name)
        );
    }
}

#[test]
fn a_local_channel_has_a_thousand_slots_by_default() {
    assert_eq!(DEFAULT_CHANNEL_SIZE, 1000);
    assert_eq!(channel_capacity(0), 1000);
    assert_eq!(channel_capacity(10), 10);
    assert_eq!(channel_capacity(1), 1);
}

#[test]
fn retries_wait_twice_as_long_each_time() {
    let policy = RetryPolicy::standard();
    assert_eq!(policy, RetryPolicy { max_retries: 3, base_ms: 100, factor: 2, jitter_percent: 20 });
    assert_eq!(policy.nominal_wait_ms(0), Some(100));
    assert_eq!(policy.nominal_wait_ms(1), Some(200));
    assert_eq!(policy.nominal_wait_ms(2), Some(400));
    assert_eq!(policy.nominal_wait_ms(10), Some(102400));
    assert_eq!(
        policy.decide(RpcCode::Unavailable, 0),
        RetryDecision::RetryAfter { min_ms: 80, max_ms: 120 }
    );
    assert_eq!(
        policy.decide(RpcCode::DeadlineExceeded, 1),
        RetryDecision::RetryAfter { min_ms: 160, max_ms: 240 }
    );
    assert_eq!(
        policy.decide(RpcCode::Unavailable, 2),
        RetryDecision::RetryAfter { min_ms: 320, max_ms: 480 }
    );
    assert_eq!(policy.decide(RpcCode::Unavailable, 3), RetryDecision::GiveUp);
    assert_eq!(policy.decide(RpcCode::Unavailable, 4), RetryDecision::GiveUp);
}

#[test]
fn only_failures_of_the_transport_are_tried_again() {
    let policy = RetryPolicy::standard();
    for code in [
        RpcCode::Success,
        RpcCode::Unknown,
        RpcCode::InvalidArgument,
        RpcCode::NotFound,
        RpcCode::Internal,
    ] {
        assert_eq!(policy.decide(code, 0), RetryDecision::GiveUp);
    }
}

#[test]
fn waits_that_cannot_be_told_end_the_retries() {
    let steep = RetryPolicy { max_retries: 100, base_ms: 1, factor: 1 << 32, jitter_percent: 0 };
    assert_eq!(steep.nominal_wait_ms(1), Some(1 << 32));
    assert_eq!(steep.nominal_wait_ms(2), None);
    assert_eq!(steep.nominal_wait_ms(50), None);
    assert_eq!(
        steep.decide(RpcCode::Unavailable, 1),
        RetryDecision::RetryAfter { min_ms: 1 << 32, max_ms: 1 << 32 }
    );
    assert_eq!(steep.decide(RpcCode::Unavailable, 2), RetryDecision::GiveUp);
    let wide = RetryPolicy { max_retries: 1, base_ms: u64::MAX, factor: 2, jitter_percent: 20 };
    assert_eq!(wide.decide(RpcCode::Unavailable, 0), RetryDecision::GiveUp);
    let exact = RetryPolicy { max_retries: 1, base_ms: u64::MAX, factor: 2, jitter_percent: 0 };
    assert_eq!(
        exact.decide(RpcCode::Unavailable, 0),
        RetryDecision::RetryAfter { min_ms: u64::MAX, max_ms: u64::MAX }
    );
    let odd = RetryPolicy { max_retries: 1, base_ms: 7, factor: 3, jitter_percent: 150 };
    assert_eq!(odd.decide(RpcCode::Unavailable, 0), RetryDecision::GiveUp);
    let still = RetryPolicy { max_retries: 9, base_ms: 7, factor: 0, jitter_percent: 50 };
    assert_eq!(still.nominal_wait_ms(3), Some(0));
    assert_eq!(
        still.decide(RpcCode::Unavailable, 0),
        RetryDecision::RetryAfter { min_ms: 3, max_ms: 10 }
    );
}

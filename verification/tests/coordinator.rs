use lightflus::cluster::{hash_bytes, position_of, Cluster, NodeConfig, FNV_OFFSET, FNV_PRIME};
use lightflus::event::ResourceId;
use lightflus::execution::{
    Ack, AckKind, AckResponderBuilder, DataflowStatus, Execution, ExecutionId, ExecutionState,
    Heartbeat, HeartbeatBuilder, HeartbeatEmitter, HeartbeatStatus, NodeType,
    SubdataflowDeploymentPlan, TaskDeploymentException,
};
use lightflus::execution::AckResponder;
use lightflus::graph::{
    Dataflow, DataflowMeta, Details, Func, HostAddr, InvalidDataflow, OperatorInfo,
};
use lightflus::managers::{DeployStep, Dispatcher, DispatcherException, JobManager};
use lightflus::rpc::{RpcCode, RpcStatus};
use lightflus::scheduler::{Scheduler, StopRequest};
use lightflus::storage::{DataflowStorage, MemoryDataflowStorage, StorageError};

fn addr(host: &str, port: u16) -> HostAddr {
    HostAddr { host: host.to_string(), port }
}

fn job(id: &str) -> ResourceId {
    ResourceId { resource_id: id.to_string(), namespace_id: "ns".to_string() }
}

fn node(id: u32, upstreams: &[u32]) -> OperatorInfo {
    OperatorInfo {
        operator_id: id,
        host_addr: None,
        upstreams: upstreams.to_vec(),
        details: Some(Details::Mapper(Some(Func { function: "function f(a) { return a }".to_string() }))),
    }
}

fn meta(center: u32, neighbors: &[u32]) -> DataflowMeta {
    DataflowMeta { center, neighbors: neighbors.to_vec() }
}

/// 0 -> 1, 0 -> 2, 1 -> 3, 2 -> 3
fn diamond(id: &str) -> Dataflow {
    Dataflow {
        job_id: job(id),
        meta: vec![meta(0, &[1, 2]), meta(1, &[3]), meta(2, &[3])],
        nodes: vec![node(0, &[]), node(1, &[0]), node(2, &[0]), node(3, &[1, 2])],
    }
}

fn cluster_of(ports: &[u16]) -> Cluster {
    let config: Vec<NodeConfig> =
        ports.iter().map(|p| NodeConfig { host: "worker".to_string(), port: *p }).collect();
    Cluster::new(&config)
}

fn builders() -> (HeartbeatBuilder, AckResponderBuilder) {
    (
        HeartbeatBuilder {
            nodes: vec![addr("coordinator", 8791)],
            period: 3000,
            connection_timeout: 3,
            rpc_timeout: 5,
        },
        AckResponderBuilder {
            delay: 3,
            buf_size: 10,
            nodes: vec![addr("elsewhere", 1)],
            connection_timeout: 3,
            rpc_timeout: 5,
        },
    )
}

fn dispatcher(ports: &[u16]) -> Dispatcher<MemoryDataflowStorage> {
    let (heartbeat, ack) = builders();
    Dispatcher::new(
        cluster_of(ports),
        MemoryDataflowStorage::new(),
        &heartbeat,
        &ack,
        addr("coordinator", 8791),
    )
}

fn reference_fnv(seed: u64, bytes: &[u8]) -> u64 {
    let mut hash = seed;
    for b in bytes {
        hash ^= *b as u64;
        hash = hash.wrapping_mul(0x0000_0100_0000_01b3);
    }
    hash
}

fn expected_place(job: &ResourceId, operator_id: u32, live: usize) -> usize {
    let hash = reference_fnv(
        reference_fnv(
            reference_fnv(0xcbf2_9ce4_8422_2325, job.resource_id.as_bytes()),
            job.namespace_id.as_bytes(),
        ),
        &operator_id.to_le_bytes(),
    );
    (hash % live as u64) as usize
}

#[test]
fn a_sound_dataflow_is_accepted() {
    assert_eq!(diamond("a").validate(), Ok(()));
    let single = Dataflow { job_id: job("a"), meta: vec![], nodes: vec![node(5, &[])] };
    assert_eq!(single.validate(), Ok(()));
    let mut with_ends = diamond("a");
    with_ends.nodes[0].details = Some(Details::Source);
    with_ends.nodes[3].details = Some(Details::Sink);
    assert_eq!(with_ends.validate(), Ok(()));
}

#[test]
fn a_malformed_dataflow_is_refused() {
    let empty = Dataflow { job_id: job("a"), meta: vec![], nodes: vec![] };
    assert_eq!(empty.validate(), Err(InvalidDataflow::NoOperators));

    let mut twice = diamond("a");
    twice.nodes.push(node(2, &[0]));
    assert_eq!(twice.validate(), Err(InvalidDataflow::DuplicateOperator));

    // an edge to an operator that the dataflow does not have
    let mut dangling = diamond("a");
    dangling.meta.push(meta(3, &[7]));
    assert_eq!(dangling.validate(), Err(InvalidDataflow::MissingOperator));
    let mut no_center = diamond("a");
    no_center.meta.push(meta(8, &[]));
    assert_eq!(no_center.validate(), Err(InvalidDataflow::MissingOperator));

    for details in [None, Some(Details::Mapper(None)), Some(Details::Reducer(None))] {
        let mut unsupported = diamond("a");
        unsupported.nodes[1].details = details;
        assert_eq!(unsupported.validate(), Err(InvalidDataflow::UnsupportedOperator));
    }

    let mut circle = diamond("a");
    circle.meta.push(meta(3, &[0]));
    circle.nodes[0].upstreams = vec![3];
    assert_eq!(circle.validate(), Err(InvalidDataflow::Cyclic));
    let own = Dataflow { job_id: job("a"), meta: vec![meta(1, &[1])], nodes: vec![node(1, &[1])] };
    assert_eq!(own.validate(), Err(InvalidDataflow::Cyclic));
    let pair = Dataflow {
        job_id: job("a"),
        meta: vec![meta(1, &[2]), meta(2, &[1])],
        nodes: vec![node(1, &[2]), node(2, &[1])],
    };
    assert_eq!(pair.validate(), Err(InvalidDataflow::Cyclic));

    let mut missing_upstream = diamond("a");
    missing_upstream.nodes[3].upstreams = vec![1];
    assert_eq!(missing_upstream.validate(), Err(InvalidDataflow::InconsistentUpstreams));
    let mut extra_upstream = diamond("a");
    extra_upstream.nodes[1].upstreams = vec![0, 2];
    assert_eq!(extra_upstream.validate(), Err(InvalidDataflow::InconsistentUpstreams));
}

#[test]
fn the_parts_of_the_check_can_be_asked_alone() {
    let df = diamond("a");
    assert!(df.edges_resolved());
    assert!(df.upstreams_matched());
    assert!(df.edge_exists(0, 2));
    assert!(!df.edge_exists(2, 0));
    assert!(!df.edge_exists(0, 3));
    assert!(lightflus::graph::ids_unique(&df.nodes));
    assert!(lightflus::graph::all_runnable(&df.nodes));
    assert!(lightflus::graph::ids_resolve(&df.nodes, &vec![0, 3]));
    assert!(!lightflus::graph::ids_resolve(&df.nodes, &vec![0, 4]));
    assert!(lightflus::graph::contains_id(&vec![4, 5], 5));
    assert!(!lightflus::graph::contains_id(&vec![4, 5], 6));
    assert_eq!(lightflus::graph::find_node(&df.nodes, 2), Some(2));
    assert_eq!(lightflus::graph::find_node(&df.nodes, 9), None);
}

#[test]
fn the_hash_is_fnv_1a() {
    assert_eq!(FNV_OFFSET, 0xcbf2_9ce4_8422_2325);
    assert_eq!(FNV_PRIME, 0x0000_0100_0000_01b3);
    assert_eq!(hash_bytes(FNV_OFFSET, b""), 0xcbf2_9ce4_8422_2325);
    assert_eq!(hash_bytes(FNV_OFFSET, b"a"), 0xaf63_dc4c_8601_ec8c);
    assert_eq!(hash_bytes(FNV_OFFSET, b"foobar"), 0x8594_4171_f739_67e8);
    assert_eq!(hash_bytes(hash_bytes(FNV_OFFSET, b"foo"), b"bar"), 0x8594_4171_f739_67e8);
}

#[test]
fn the_cluster_keeps_what_the_probes_find() {
    let mut cluster = cluster_of(&[1, 2, 3]);
    assert_eq!(cluster.workers.len(), 3);
    assert!(cluster.workers.iter().all(|w| w.alive));
    assert_eq!(cluster.live_workers(), vec![addr("worker", 1), addr("worker", 2), addr("worker", 3)]);
    cluster.set_liveness(&addr("worker", 2), false);
    assert_eq!(cluster.live_workers(), vec![addr("worker", 1), addr("worker", 3)]);
    assert_eq!(cluster.get_node(&addr("worker", 2)).map(|n| n.alive), Some(false));
    assert_eq!(cluster.get_node(&addr("worker", 3)).map(|n| n.alive), Some(true));
    assert!(cluster.get_node(&addr("worker", 4)).is_none());
    assert!(cluster.get_node(&addr("other", 1)).is_none());
    cluster.set_liveness(&addr("worker", 9), false);
    cluster.set_liveness(&addr("worker", 2), true);
    assert_eq!(cluster.live_workers().len(), 3);
    assert_eq!(position_of(&cluster.live_workers(), &addr("worker", 3)), Some(2));
    assert_eq!(position_of(&cluster.live_workers(), &addr("worker", 7)), None);
}

#[test]
fn operators_get_their_workers_by_hash() {
    let cluster = cluster_of(&[1, 2, 3]);
    let mut df = diamond("job-1");
    let before = diamond("job-1");
    assert!(cluster.partition_dataflow(&mut df));
    assert_eq!(df.job_id, before.job_id);
    assert_eq!(df.meta, before.meta);
    let live = cluster.live_workers();
    for (i, n) in df.nodes.iter().enumerate() {
        let place = expected_place(&before.job_id, n.operator_id, 3);
        assert_eq!(n.host_addr, Some(addr("worker", live[place].port)));
        assert_eq!(n.operator_id, before.nodes[i].operator_id);
        assert_eq!(n.upstreams, before.nodes[i].upstreams);
        assert_eq!(n.details, before.nodes[i].details);
    }
    // a second time, every operator stays where it is
    let first = df.clone();
    assert!(cluster.partition_dataflow(&mut df));
    assert_eq!(df, first);
}

#[test]
fn an_operator_stays_with_a_worker_that_is_alive() {
    let mut cluster = cluster_of(&[1, 2, 3]);
    let mut df = diamond("job-1");
    for n in df.nodes.iter_mut() {
        n.host_addr = Some(addr("worker", 3));
    }
    df.nodes[2].host_addr = Some(addr("gone", 9));
    assert!(cluster.partition_dataflow(&mut df));
    let place = expected_place(&df.job_id, 2, 3);
    for n in df.nodes.iter() {
        if n.operator_id == 2 {
            assert_eq!(n.host_addr, Some(cluster.live_workers()[place].clone()));
        } else {
            assert_eq!(n.host_addr, Some(addr("worker", 3)));
        }
    }
    // the worker dies: its operators move to workers that are alive
    cluster.set_liveness(&addr("worker", 3), false);
    assert!(cluster.partition_dataflow(&mut df));
    let live = cluster.live_workers();
    for n in df.nodes.iter() {
        let host = n.host_addr.as_ref().unwrap();
        assert!(live.contains(host));
    }
}

#[test]
fn with_no_worker_alive_nothing_is_given() {
    let mut cluster = cluster_of(&[1]);
    cluster.set_liveness(&addr("worker", 1), false);
    let mut df = diamond("job-1");
    assert!(!cluster.partition_dataflow(&mut df));
    assert_eq!(df, diamond("job-1"));
    assert!(!cluster_of(&[]).partition_dataflow(&mut df));
    assert_eq!(df, diamond("job-1"));
}

#[test]
fn a_dataflow_is_parted_by_worker() {
    let cluster = cluster_of(&[1, 2]);
    let mut df = diamond("j");
    let hosts = [addr("worker", 2), addr("worker", 1), addr("worker", 1), addr("worker", 2)];
    for (n, h) in df.nodes.iter_mut().zip(hosts.iter()) {
        n.host_addr = Some(h.clone());
    }
    let parts = cluster.split_into_subdataflow(&df);
    assert_eq!(parts.len(), 2);
    // the worker of the first center comes first
    assert_eq!(parts[0].0, addr("worker", 2));
    assert_eq!(parts[0].1.job_id, df.job_id);
    assert_eq!(parts[0].1.nodes, vec![df.nodes[0].clone(), df.nodes[3].clone()]);
    assert_eq!(parts[0].1.meta, vec![meta(0, &[1, 2])]);
    assert_eq!(parts[1].0, addr("worker", 1));
    assert_eq!(parts[1].1.nodes, vec![df.nodes[1].clone(), df.nodes[2].clone()]);
    assert_eq!(parts[1].1.meta, vec![meta(1, &[3]), meta(2, &[3])]);
    assert_eq!(df.part_of(&addr("worker", 1)), parts[1].1);
    assert!(df.part_of(&addr("worker", 7)).nodes.is_empty());
}

#[test]
fn operators_without_a_worker_are_in_no_part() {
    let cluster = cluster_of(&[1, 2]);
    let mut df = diamond("j");
    df.nodes[3].host_addr = Some(addr("worker", 1));
    let parts = cluster.split_into_subdataflow(&df);
    assert_eq!(parts.len(), 1);
    assert_eq!(parts[0].0, addr("worker", 1));
    assert_eq!(parts[0].1.nodes, vec![df.nodes[3].clone()]);
    assert!(parts[0].1.meta.is_empty());
    assert!(cluster.split_into_subdataflow(&diamond("j")).is_empty());
    assert_eq!(lightflus::cluster::worker_of(&df.nodes, 3), Some(&addr("worker", 1)));
    assert_eq!(lightflus::cluster::worker_of(&df.nodes, 0), None);
    assert_eq!(lightflus::cluster::worker_of(&df.nodes, 9), None);
}

fn execution_id(job_id: &str, sub_id: u32) -> ExecutionId {
    ExecutionId { job_id: job(job_id), sub_id }
}

fn heartbeat(job_id: &str, sub_id: u32, timestamp: u64, sequence: u64) -> Heartbeat {
    Heartbeat {
        execution_id: Some(execution_id(job_id, sub_id)),
        timestamp,
        sequence,
        node_type: NodeType::TaskWorker,
    }
}

fn ack(job_id: &str, sub_id: u32, sequence: u64, kind: AckKind) -> Ack {
    Ack { execution_id: Some(execution_id(job_id, sub_id)), sequence, kind }
}

#[test]
fn an_execution_runs_from_its_first_heartbeat() {
    let mut execution = Execution::new(execution_id("j", 0), addr("worker", 1));
    assert_eq!(
        execution.status,
        HeartbeatStatus {
            last_timestamp: 0,
            last_sequence: None,
            last_ack: None,
            missed: 0,
            state: ExecutionState::Initialized
        }
    );
    execution.update_heartbeat_status(&heartbeat("j", 0, 100, 0));
    assert_eq!(execution.status.state, ExecutionState::Running);
    assert_eq!(execution.status.last_sequence, Some(0));
    assert_eq!(execution.status.last_timestamp, 100);
}

#[test]
fn heartbeats_out_of_order_are_ignored() {
    let mut execution = Execution::new(execution_id("j", 0), addr("worker", 1));
    let mut taken = vec![];
    for (timestamp, sequence) in [(100, 3), (90, 2), (120, 3), (110, 5), (105, 6), (200, 4), (300, 7)] {
        let before = execution.status;
        execution.update_heartbeat_status(&heartbeat("j", 0, timestamp, sequence));
        assert!(execution.status.last_timestamp >= before.last_timestamp);
        if execution.status.last_sequence != before.last_sequence {
            taken.push(sequence);
        } else {
            assert_eq!(execution.status, before);
        }
    }
    assert_eq!(taken, vec![3, 5, 6, 7]);
    assert!(taken.windows(2).all(|w| w[0] < w[1]));
    // the time stamp of a heartbeat that was taken never takes the clock back
    assert_eq!(execution.status.last_timestamp, 300);
    assert_eq!(execution.status.last_sequence, Some(7));
}

#[test]
fn missed_heartbeats_make_suspect_and_then_close() {
    let mut execution = Execution::new(execution_id("j", 0), addr("worker", 1));
    execution.update_heartbeat_status(&heartbeat("j", 0, 1, 1));
    execution.miss_heartbeat(2, 4);
    assert_eq!((execution.status.missed, execution.status.state), (1, ExecutionState::Running));
    execution.miss_heartbeat(2, 4);
    assert_eq!((execution.status.missed, execution.status.state), (2, ExecutionState::Suspect));
    // a heartbeat brings it back
    execution.update_heartbeat_status(&heartbeat("j", 0, 2, 2));
    assert_eq!((execution.status.missed, execution.status.state), (0, ExecutionState::Running));
    for _ in 0..3 {
        execution.miss_heartbeat(2, 4);
    }
    assert_eq!((execution.status.missed, execution.status.state), (3, ExecutionState::Suspect));
    execution.miss_heartbeat(2, 4);
    assert_eq!((execution.status.missed, execution.status.state), (4, ExecutionState::Closed));
    // closed is the end
    execution.miss_heartbeat(2, 4);
    execution.update_heartbeat_status(&heartbeat("j", 0, 9, 9));
    assert_eq!((execution.status.missed, execution.status.state), (4, ExecutionState::Closed));
    assert_eq!(execution.status.last_sequence, Some(2));
    let mut full = Execution::new(execution_id("j", 1), addr("worker", 1));
    full.status.missed = u32::MAX;
    full.miss_heartbeat(u32::MAX, u32::MAX);
    assert_eq!((full.status.missed, full.status.state), (u32::MAX, ExecutionState::Closed));
}

#[test]
fn acknowledgements_are_taken_once() {
    let mut execution = Execution::new(execution_id("j", 0), addr("worker", 1));
    execution.ack(&ack("j", 0, 4, AckKind::Heartbeat));
    assert_eq!(execution.status.last_ack, Some(4));
    let once = execution.status;
    execution.ack(&ack("j", 0, 4, AckKind::Heartbeat));
    assert_eq!(execution.status, once);
    execution.ack(&ack("j", 0, 2, AckKind::Deployment));
    assert_eq!(execution.status, once);
    execution.ack(&ack("j", 0, 6, AckKind::Termination));
    assert_eq!(execution.status.last_ack, Some(6));
    assert_eq!(execution.status.state, ExecutionState::Initialized);
}

#[test]
fn an_execution_closes_when_its_termination_is_acknowledged() {
    let mut execution = Execution::new(execution_id("j", 0), addr("worker", 1));
    assert!(execution.terminate());
    assert_eq!(execution.status.state, ExecutionState::Closing);
    assert!(!execution.terminate());
    execution.ack(&ack("j", 0, 1, AckKind::Heartbeat));
    assert_eq!(execution.status.state, ExecutionState::Closing);
    execution.update_heartbeat_status(&heartbeat("j", 0, 5, 5));
    assert_eq!(execution.status.state, ExecutionState::Closing);
    execution.ack(&ack("j", 0, 2, AckKind::Termination));
    assert_eq!(execution.status.state, ExecutionState::Closed);
    assert!(!execution.terminate());
    assert_eq!(execution.status.state, ExecutionState::Closed);

    let mut late = Execution::new(execution_id("j", 1), addr("worker", 1));
    late.update_heartbeat_status(&heartbeat("j", 1, 1, 1));
    late.miss_heartbeat(1, 9);
    assert_eq!(late.status.state, ExecutionState::Suspect);
    assert!(late.terminate());
    assert_eq!(late.status.state, ExecutionState::Closing);
    late.force_close();
    assert_eq!(late.status.state, ExecutionState::Closed);
}

#[test]
fn control_messages_are_acknowledged_by_number() {
    let responder = AckResponder::new(execution_id("j", 3));
    assert_eq!(responder.respond(7, AckKind::Termination), ack("j", 3, 7, AckKind::Termination));
    assert_eq!(responder.respond(0, AckKind::Heartbeat), ack("j", 3, 0, AckKind::Heartbeat));
}

#[test]
fn executions_that_do_not_close_in_time_are_closed() {
    let mut scheduler = Scheduler::new();
    assert_eq!(scheduler.force_close(), DataflowStatus::Closed);
    scheduler.execute(&plan("j", 0, 1), Ok(())).unwrap();
    scheduler.execute(&plan("j", 1, 2), Ok(())).unwrap();
    scheduler.get_execution_mut(&execution_id("j", 0)).unwrap().terminate();
    assert_eq!(scheduler.force_close(), DataflowStatus::Closing);
    let states: Vec<ExecutionState> = scheduler.executions.iter().map(|e| e.status.state).collect();
    assert_eq!(states, vec![ExecutionState::Closed, ExecutionState::Initialized]);
    scheduler.terminate_dataflow();
    assert_eq!(scheduler.force_close(), DataflowStatus::Closed);
    assert!(scheduler.executions.iter().all(|e| e.status.state == ExecutionState::Closed));
}

#[test]
fn events_go_to_the_neighbors_of_their_operator() {
    let df = diamond("j");
    assert_eq!(df.neighbors(0), vec![1, 2]);
    assert_eq!(df.neighbors(1), vec![3]);
    assert_eq!(df.neighbors(3), Vec::<u32>::new());
    assert_eq!(df.neighbors(9), Vec::<u32>::new());
    let mut twice = diamond("j");
    twice.meta.push(meta(0, &[3]));
    assert_eq!(twice.neighbors(0), vec![1, 2, 3]);
    assert!(df.is_local(2));
    assert!(!df.is_local(4));

    let mut event = lightflus::event::KeyedDataEvent::default();
    event.job_id = job("j");
    event.from_operator_id = 0;
    event.event_time = 5;
    let sent = event.forward(&df.neighbors(0));
    assert_eq!(sent.len(), 2);
    for (copy, to) in sent.iter().zip([1u32, 2]) {
        let mut expected = event.clone();
        expected.to_operator_id = Some(to);
        assert_eq!(*copy, expected);
    }
    assert!(event.forward(&vec![]).is_empty());
}

#[test]
fn heartbeats_are_numbered_upward() {
    let mut emitter = HeartbeatEmitter::new(execution_id("j", 2));
    let mut last: Option<u64> = None;
    for now in [10, 20, 20, 15] {
        let hb = emitter.emit(now).unwrap();
        assert_eq!(hb.execution_id, Some(execution_id("j", 2)));
        assert_eq!(hb.timestamp, now);
        if let Some(before) = last {
            assert_eq!(hb.sequence, before + 1);
        } else {
            assert_eq!(hb.sequence, 0);
        }
        last = Some(hb.sequence);
    }
    emitter.next_sequence = u64::MAX - 1;
    assert_eq!(emitter.emit(1).map(|hb| hb.sequence), Some(u64::MAX - 1));
    assert_eq!(emitter.emit(2), None);
    assert_eq!(emitter.emit(3), None);
    assert_eq!(emitter.next_sequence, u64::MAX);
}

fn plan(job_id: &str, sub_id: u32, port: u16) -> SubdataflowDeploymentPlan {
    let (heartbeat, ack) = builders();
    SubdataflowDeploymentPlan {
        subdataflow: diamond(job_id),
        execution_id: execution_id(job_id, sub_id),
        target: addr("worker", port),
        ack,
        heartbeat,
    }
}

fn unavailable() -> RpcStatus {
    RpcStatus { code: RpcCode::Unavailable, message: "connection refused".to_string() }
}

#[test]
fn the_scheduler_adds_what_the_worker_accepts() {
    let mut scheduler = Scheduler::new();
    assert_eq!(scheduler.execute(&plan("j", 0, 1), Ok(())), Ok(()));
    assert_eq!(
        scheduler.execute(&plan("j", 1, 2), Err(unavailable())),
        Err(TaskDeploymentException::Rejected(unavailable()))
    );
    assert_eq!(scheduler.executions, vec![Execution::new(execution_id("j", 0), addr("worker", 1))]);
    assert_eq!(scheduler.find(&execution_id("j", 0)), Some(0));
    assert_eq!(scheduler.find(&execution_id("j", 1)), None);
    assert_eq!(scheduler.find(&execution_id("k", 0)), None);
    assert!(scheduler.get_execution_mut(&execution_id("j", 1)).is_none());
    scheduler.get_execution_mut(&execution_id("j", 0)).unwrap().force_close();
    assert_eq!(scheduler.executions[0].status.state, ExecutionState::Closed);
}

#[test]
fn the_scheduler_gives_messages_to_the_execution_they_name() {
    let mut scheduler = Scheduler::new();
    scheduler.execute(&plan("j", 0, 1), Ok(())).unwrap();
    scheduler.execute(&plan("j", 1, 2), Ok(())).unwrap();
    scheduler.update_heartbeat_status(&heartbeat("j", 1, 50, 1));
    scheduler.update_heartbeat_status(&heartbeat("j", 7, 50, 1));
    scheduler.update_heartbeat_status(&Heartbeat {
        execution_id: None,
        timestamp: 1,
        sequence: 1,
        node_type: NodeType::JobManager,
    });
    assert_eq!(scheduler.executions[0].status.state, ExecutionState::Initialized);
    assert_eq!(scheduler.executions[1].status.state, ExecutionState::Running);
    scheduler.ack(&ack("j", 0, 3, AckKind::Deployment));
    scheduler.ack(&ack("x", 0, 9, AckKind::Deployment));
    scheduler.ack(&Ack { execution_id: None, sequence: 9, kind: AckKind::Heartbeat });
    assert_eq!(scheduler.executions[0].status.last_ack, Some(3));
    assert_eq!(scheduler.executions[1].status.last_ack, None);
}

#[test]
fn a_job_is_closed_when_all_its_executions_are() {
    let mut scheduler = Scheduler::new();
    assert_eq!(scheduler.terminate_dataflow(), (DataflowStatus::Closed, vec![]));
    scheduler.execute(&plan("j", 0, 1), Ok(())).unwrap();
    scheduler.execute(&plan("j", 1, 2), Ok(())).unwrap();
    scheduler.execute(&plan("j", 2, 3), Ok(())).unwrap();
    scheduler.update_heartbeat_status(&heartbeat("j", 1, 50, 1));
    scheduler.get_execution_mut(&execution_id("j", 2)).unwrap().force_close();
    let (status, stops) = scheduler.terminate_dataflow();
    assert_eq!(status, DataflowStatus::Closing);
    assert_eq!(
        stops,
        vec![
            StopRequest { execution_id: execution_id("j", 0), target: addr("worker", 1) },
            StopRequest { execution_id: execution_id("j", 1), target: addr("worker", 2) },
        ]
    );
    let states: Vec<ExecutionState> = scheduler.executions.iter().map(|e| e.status.state).collect();
    assert_eq!(states, vec![ExecutionState::Closing, ExecutionState::Closing, ExecutionState::Closed]);
    // asked again, nobody is told again
    assert_eq!(scheduler.terminate_dataflow(), (DataflowStatus::Closing, vec![]));
    scheduler.ack(&ack("j", 0, 1, AckKind::Termination));
    assert_eq!(scheduler.terminate_dataflow().0, DataflowStatus::Closing);
    scheduler.ack(&ack("j", 1, 1, AckKind::Termination));
    assert_eq!(scheduler.terminate_dataflow(), (DataflowStatus::Closed, vec![]));
}

#[test]
fn the_store_keeps_the_last_dataflow_of_a_job() {
    let mut store = MemoryDataflowStorage::new();
    assert_eq!(store.get(&job("a")), None);
    store.save(&diamond("a")).unwrap();
    store.save(&diamond("b")).unwrap();
    let mut changed = diamond("a");
    changed.nodes[0].host_addr = Some(addr("worker", 1));
    store.save(&changed).unwrap();
    assert_eq!(store.get(&job("a")), Some(changed));
    assert_eq!(store.get(&job("b")), Some(diamond("b")));
    assert_eq!(store.get(&job("c")), None);
    assert!(store.contains(&job("a")));
    assert!(!store.contains(&job("c")));
    store.delete(&job("a")).unwrap();
    store.delete(&job("c")).unwrap();
    assert_eq!(store.get(&job("a")), None);
    assert_eq!(store.get(&job("b")), Some(diamond("b")));
    // the namespace is part of the job's identity
    let other = ResourceId { resource_id: "b".to_string(), namespace_id: "other".to_string() };
    assert_eq!(store.get(&other), None);
}

fn deploy_all(manager: &mut JobManager) -> Vec<SubdataflowDeploymentPlan> {
    let mut handed = vec![];
    loop {
        let next = match manager.next_deployment() {
            Some(plan) => plan.clone(),
            None => break,
        };
        handed.push(next);
        manager.deployed(Ok(()));
    }
    handed
}

#[test]
fn a_dataflow_is_in_the_store_before_it_is_deployed() {
    let mut dispatcher = dispatcher(&[1, 2, 3]);
    let manager = dispatcher.create_dataflow(diamond("j")).unwrap();
    // no worker was asked yet, and the dataflow is kept as it was submitted
    assert_eq!(manager.next, 0);
    assert!(manager.scheduler.executions.is_empty());
    assert_eq!(dispatcher.get_dataflow(&job("j")), Some(diamond("j")));
    assert_eq!(dispatcher.storage.get(&job("j")), Some(diamond("j")));
    assert!(dispatcher.managers.is_empty());
    assert_eq!(dispatcher.find(&job("j")), None);
}

#[test]
fn a_job_is_planned_part_by_part() {
    let mut dispatcher = dispatcher(&[1, 2, 3]);
    let mut manager = dispatcher.create_dataflow(diamond("j")).unwrap();
    let mut assigned = diamond("j");
    assert!(dispatcher.cluster.partition_dataflow(&mut assigned));
    assert_eq!(manager.dataflow, assigned);
    assert_eq!(manager.job_id, job("j"));
    assert_eq!(manager.location, addr("coordinator", 8791));
    let parts = dispatcher.cluster.split_into_subdataflow(&assigned);
    assert!(!parts.is_empty());
    assert_eq!(manager.plans.len(), parts.len());
    let (heartbeat, ack) = builders();
    for (i, (plan, part)) in manager.plans.iter().zip(parts.iter()).enumerate() {
        assert_eq!(plan.target, part.0);
        assert_eq!(plan.subdataflow, part.1);
        assert_eq!(plan.execution_id, execution_id("j", i as u32));
        assert_eq!(plan.heartbeat, heartbeat);
        // acknowledgements go back to this coordinator
        assert_eq!(plan.ack.nodes, vec![addr("coordinator", 8791)]);
        assert_eq!(plan.ack.delay, ack.delay);
        assert_eq!(plan.ack.buf_size, ack.buf_size);
    }
    assert!(!manager.is_deployed() || parts.is_empty());
    let mut steps = vec![];
    while manager.next_deployment().is_some() {
        steps.push(manager.deployed(Ok(())));
    }
    assert_eq!(steps.last(), Some(&DeployStep::Completed));
    assert!(steps[..steps.len() - 1].iter().all(|s| *s == DeployStep::Pending));
    assert!(manager.is_deployed());
    assert_eq!(manager.scheduler.executions.len(), parts.len());
    for (i, execution) in manager.scheduler.executions.iter().enumerate() {
        assert_eq!(execution.id, execution_id("j", i as u32));
        assert_eq!(execution.target, parts[i].0);
        assert_eq!(execution.status.state, ExecutionState::Initialized);
    }
    // with nothing left to deploy, an answer changes nothing
    assert_eq!(manager.deployed(Err(unavailable())), DeployStep::Completed);
    assert!(manager.is_deployed());
    assert_eq!(dispatcher.finish_dataflow(manager), Ok(()));
    assert_eq!(dispatcher.find(&job("j")), Some(0));
}

fn two_part_job(dispatcher: &mut Dispatcher<MemoryDataflowStorage>, id: &str) -> JobManager {
    // operators that sit on two workers already, so that the job has two parts
    let mut df = diamond(id);
    df.nodes[0].host_addr = Some(addr("worker", 1));
    df.nodes[1].host_addr = Some(addr("worker", 1));
    df.nodes[2].host_addr = Some(addr("worker", 2));
    df.nodes[3].host_addr = Some(addr("worker", 2));
    let manager = dispatcher.create_dataflow(df).unwrap();
    assert_eq!(manager.plans.len(), 2);
    assert_eq!(manager.plans[0].target, addr("worker", 1));
    assert_eq!(manager.plans[1].target, addr("worker", 2));
    manager
}

#[test]
fn a_failed_deployment_is_rolled_back() {
    let mut dispatcher = dispatcher(&[1, 2]);
    let mut manager = two_part_job(&mut dispatcher, "j");
    assert_eq!(manager.deployed(Ok(())), DeployStep::Pending);
    // the second worker cannot be reached
    let step = manager.deployed(Err(unavailable()));
    assert_eq!(
        step,
        DeployStep::Aborted {
            stops: vec![StopRequest { execution_id: execution_id("j", 0), target: addr("worker", 1) }]
        }
    );
    assert_eq!(manager.next_deployment(), None);
    assert!(!manager.is_deployed());
    assert_eq!(manager.scheduler.executions.len(), 1);
    assert_eq!(manager.scheduler.executions[0].status.state, ExecutionState::Closing);
    assert_eq!(
        dispatcher.finish_dataflow(manager),
        Err(DispatcherException::DeploymentError(TaskDeploymentException::Rejected(unavailable())))
    );
    assert!(dispatcher.managers.is_empty());
    assert_eq!(dispatcher.find(&job("j")), None);
}

#[test]
fn a_job_that_is_not_deployed_in_full_is_not_taken() {
    let mut dispatcher = dispatcher(&[1, 2]);
    let mut manager = two_part_job(&mut dispatcher, "j");
    assert_eq!(manager.deployed(Ok(())), DeployStep::Pending);
    assert_eq!(
        dispatcher.finish_dataflow(manager),
        Err(DispatcherException::DeploymentError(TaskDeploymentException::Incomplete))
    );
    assert!(dispatcher.managers.is_empty());
}

#[test]
fn a_job_whose_dataflow_is_not_kept_is_not_taken() {
    let mut dispatcher = dispatcher(&[1, 2]);
    let mut manager = two_part_job(&mut dispatcher, "j");
    deploy_all(&mut manager);
    dispatcher.storage.delete(&job("j")).unwrap();
    assert_eq!(
        dispatcher.finish_dataflow(manager),
        Err(DispatcherException::DeploymentError(TaskDeploymentException::NotPersisted))
    );
    assert!(dispatcher.managers.is_empty());
    // a manager that the dispatcher did not make is not taken either
    let stray = JobManager::new(&addr("coordinator", 8791), diamond("stray"));
    assert!(stray.is_deployed());
    assert!(dispatcher.finish_dataflow(stray).is_err());
    assert!(dispatcher.managers.is_empty());
}

#[test]
fn a_dataflow_that_cannot_be_deployed_is_refused() {
    let mut dispatcher = dispatcher(&[1, 2]);
    let mut circle = diamond("c");
    circle.meta.push(meta(3, &[0]));
    circle.nodes[0].upstreams = vec![3];
    assert_eq!(
        dispatcher.create_dataflow(circle),
        Err(DispatcherException::InvalidDataflow(InvalidDataflow::Cyclic))
    );
    assert_eq!(dispatcher.get_dataflow(&job("c")), None);

    dispatcher.cluster.set_liveness(&addr("worker", 1), false);
    dispatcher.cluster.set_liveness(&addr("worker", 2), false);
    assert_eq!(
        dispatcher.create_dataflow(diamond("j")),
        Err(DispatcherException::DeploymentError(TaskDeploymentException::NoWorker))
    );
    assert!(dispatcher.managers.is_empty());
}

/// A store that keeps nothing, takes nothing and drops nothing.
struct RefusingStorage;

impl DataflowStorage for RefusingStorage {
    fn save(&mut self, _dataflow: &Dataflow) -> Result<(), StorageError> {
        Err(StorageError { message: "the store takes no dataflow".to_string() })
    }

    fn get(&self, _job_id: &ResourceId) -> Option<Dataflow> {
        None
    }

    fn contains(&self, _job_id: &ResourceId) -> bool {
        false
    }

    fn delete(&mut self, _job_id: &ResourceId) -> Result<(), StorageError> {
        Err(StorageError { message: "the store drops no dataflow".to_string() })
    }
}

#[test]
fn a_dataflow_that_cannot_be_kept_is_not_deployed() {
    let (heartbeat, ack) = builders();
    let mut dispatcher =
        Dispatcher::new(cluster_of(&[1]), RefusingStorage, &heartbeat, &ack, addr("coordinator", 1));
    assert_eq!(
        dispatcher.create_dataflow(diamond("j")),
        Err(DispatcherException::DeploymentError(TaskDeploymentException::StorageFailed(
            "the store takes no dataflow".to_string()
        )))
    );
}

fn running_job(dispatcher: &mut Dispatcher<MemoryDataflowStorage>, id: &str) {
    let mut manager = two_part_job(dispatcher, id);
    let handed = deploy_all(&mut manager);
    assert_eq!(handed.len(), 2);
    assert_eq!(dispatcher.finish_dataflow(manager), Ok(()));
}

#[test]
fn a_job_leaves_the_map_when_it_is_closed() {
    let mut dispatcher = dispatcher(&[1, 2]);
    running_job(&mut dispatcher, "j");
    running_job(&mut dispatcher, "k");
    assert_eq!(dispatcher.managers.len(), 2);
    dispatcher.update_task_manager_heartbeat_status(&heartbeat("j", 0, 10, 1));
    dispatcher.update_task_manager_heartbeat_status(&heartbeat("zzz", 0, 10, 1));
    let j = dispatcher.find(&job("j")).unwrap();
    assert_eq!(dispatcher.managers[j].scheduler.executions[0].status.state, ExecutionState::Running);
    assert_eq!(
        dispatcher.managers[j].scheduler.executions[1].status.state,
        ExecutionState::Initialized
    );

    let (status, stops) = dispatcher.terminate_dataflow(&job("j")).unwrap();
    assert_eq!(status, DataflowStatus::Closing);
    assert_eq!(
        stops,
        vec![
            StopRequest { execution_id: execution_id("j", 0), target: addr("worker", 1) },
            StopRequest { execution_id: execution_id("j", 1), target: addr("worker", 2) },
        ]
    );
    assert!(dispatcher.find(&job("j")).is_some());
    assert!(dispatcher.get_dataflow(&job("j")).is_some());

    dispatcher.ack_from_task_manager(ack("j", 0, 1, AckKind::Termination));
    assert_eq!(dispatcher.terminate_dataflow(&job("j")).unwrap(), (DataflowStatus::Closing, vec![]));
    dispatcher.ack_from_task_manager(ack("j", 1, 1, AckKind::Termination));
    dispatcher.ack_from_task_manager(ack("nobody", 1, 1, AckKind::Termination));
    assert_eq!(dispatcher.terminate_dataflow(&job("j")).unwrap(), (DataflowStatus::Closed, vec![]));
    // closed: the job is gone from the map and from the store, the other job stays
    assert_eq!(dispatcher.find(&job("j")), None);
    assert_eq!(dispatcher.get_dataflow(&job("j")), None);
    assert_eq!(dispatcher.find(&job("k")), Some(0));
    let k = &dispatcher.managers[0];
    assert!(k.scheduler.executions.iter().all(|e| e.status.state == ExecutionState::Initialized));
    // a job that is not known is closed
    assert_eq!(dispatcher.terminate_dataflow(&job("j")).unwrap(), (DataflowStatus::Closed, vec![]));
    assert_eq!(dispatcher.terminate_dataflow(&job("x")).unwrap(), (DataflowStatus::Closed, vec![]));
    assert_eq!(dispatcher.managers.len(), 1);
}

#[test]
fn a_termination_has_to_move_the_job_on() {
    let progress = lightflus::managers::progress;
    assert_eq!(progress(DataflowStatus::Closing), Ok(DataflowStatus::Closing));
    assert_eq!(progress(DataflowStatus::Closed), Ok(DataflowStatus::Closed));
    assert_eq!(
        progress(DataflowStatus::Initialized),
        Err(DispatcherException::UnexpectedDataflowStatus(DataflowStatus::Initialized))
    );
    assert_eq!(
        progress(DataflowStatus::Running),
        Err(DispatcherException::UnexpectedDataflowStatus(DataflowStatus::Running))
    );
}

#[test]
fn a_job_submitted_again_takes_the_place_of_the_old_one() {
    let mut dispatcher = dispatcher(&[1, 2]);
    running_job(&mut dispatcher, "j");
    dispatcher.update_task_manager_heartbeat_status(&heartbeat("j", 0, 10, 1));
    running_job(&mut dispatcher, "j");
    assert_eq!(dispatcher.managers.len(), 1);
    assert_eq!(
        dispatcher.managers[0].scheduler.executions[0].status.state,
        ExecutionState::Initialized
    );
    dispatcher.remove_job(&job("j"));
    assert!(dispatcher.managers.is_empty());
}

#[test]
fn failures_are_reported_with_their_status() {
    let refused = DispatcherException::DeploymentError(TaskDeploymentException::Rejected(unavailable()));
    assert_eq!(refused.to_tonic_status(), unavailable());
    assert_eq!(DispatcherException::Tonic(unavailable()).to_tonic_status(), unavailable());
    let status = |code: RpcCode, message: &str| RpcStatus { code, message: message.to_string() };
    assert_eq!(
        DispatcherException::UnexpectedDataflowStatus(DataflowStatus::Running).to_tonic_status(),
        status(RpcCode::Internal, "unexpected dataflow status Running")
    );
    assert_eq!(
        DispatcherException::UnexpectedDataflowStatus(DataflowStatus::Initialized).to_tonic_status(),
        status(RpcCode::Internal, "unexpected dataflow status Initialized")
    );
    assert_eq!(
        DispatcherException::UnexpectedDataflowStatus(DataflowStatus::Closing).to_tonic_status(),
        status(RpcCode::Internal, "unexpected dataflow status Closing")
    );
    assert_eq!(
        DispatcherException::UnexpectedDataflowStatus(DataflowStatus::Closed).to_tonic_status(),
        status(RpcCode::Internal, "unexpected dataflow status Closed")
    );
    assert_eq!(
        DispatcherException::DeploymentError(TaskDeploymentException::NoWorker).to_tonic_status(),
        status(RpcCode::Unavailable, "no worker is alive")
    );
    assert_eq!(
        DispatcherException::DeploymentError(TaskDeploymentException::StorageFailed("full".to_string()))
            .to_tonic_status(),
        status(RpcCode::Internal, "full")
    );
    assert_eq!(
        DispatcherException::DeploymentError(TaskDeploymentException::TooManySubdataflows)
            .to_tonic_status(),
        status(RpcCode::Internal, "the dataflow has too many parts")
    );
    assert_eq!(
        DispatcherException::DeploymentError(TaskDeploymentException::Incomplete).to_tonic_status(),
        status(RpcCode::Internal, "the deployment is not complete")
    );
    assert_eq!(
        DispatcherException::DeploymentError(TaskDeploymentException::NotPersisted).to_tonic_status(),
        status(RpcCode::Internal, "the dataflow is not kept")
    );
    let faults = [
        (InvalidDataflow::NoOperators, "the dataflow has no operator"),
        (InvalidDataflow::DuplicateOperator, "two operators have one id"),
        (InvalidDataflow::MissingOperator, "an edge names an operator that is missing"),
        (InvalidDataflow::UnsupportedOperator, "an operator has no function to run"),
        (InvalidDataflow::Cyclic, "the edges go round in a circle"),
        (InvalidDataflow::InconsistentUpstreams, "the upstreams are not as the edges say"),
    ];
    for (fault, message) in faults {
        assert_eq!(
            DispatcherException::InvalidDataflow(fault).to_tonic_status(),
            status(RpcCode::InvalidArgument, message)
        );
    }
}

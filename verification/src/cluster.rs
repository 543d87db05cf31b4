//! The coordinator's view of the workers, the giving of workers to operators, and the
//! parting of a dataflow by worker.

use crate::event::ResourceIdView;
use crate::graph::{
    edges_resolve, fault_of, feeds, find_node, has_cycle, has_edge, has_node, is_cycle, is_edge,
    is_upstream, meta_view, nodes_view, runnable, unique_ids, upstreams_match, Dataflow,
    DataflowMeta, DataflowMetaView, DataflowView, HostAddr, HostAddrView, OperatorInfo,
    OperatorInfoView,
};
use vstd::bytes::{spec_u32_to_le_bytes, u32_to_le_bytes};
use vstd::prelude::*;
use vstd::utf8::encode_utf8;

verus! {

/// Where a worker listens, as the configuration names it.
#[derive(Debug, PartialEq, Eq)]
pub struct NodeConfig {
    pub host: String,
    pub port: u16,
}

/// One worker of the cluster, and whether the last probe found it alive.
#[derive(Debug, PartialEq, Eq)]
pub struct Node {
    pub host_addr: HostAddr,
    pub alive: bool,
}

/// The coordinator's view of the cluster: its workers, in the order of the
/// configuration.
#[derive(Debug, PartialEq, Eq)]
pub struct Cluster {
    pub workers: Vec<Node>,
}

/// The models of a run of addresses.
pub open spec fn hosts_view(hosts: Seq<HostAddr>) -> Seq<HostAddrView> {
    Seq::new(hosts.len(), |i: int| hosts[i]@)
}

/// The addresses of the workers that are alive, in the order of the cluster.
pub open spec fn live_hosts(workers: Seq<Node>) -> Seq<HostAddrView>
    decreases workers.len(),
{
    if workers.len() == 0 {
        Seq::empty()
    } else if workers.last().alive {
        live_hosts(workers.drop_last()).push(workers.last().host_addr@)
    } else {
        live_hosts(workers.drop_last())
    }
}

/// The 64-bit FNV-1a offset basis and prime.
pub const FNV_OFFSET: u64 = 0xcbf2_9ce4_8422_2325;

pub const FNV_PRIME: u64 = 0x0000_0100_0000_01b3;

/// FNV-1a over `bytes`, from the state `seed`.
pub open spec fn fnv1a(seed: u64, bytes: Seq<u8>) -> u64
    decreases bytes.len(),
{
    if bytes.len() == 0 {
        seed
    } else {
        (fnv1a(seed, bytes.drop_last()) ^ (bytes.last() as u64)).wrapping_mul(FNV_PRIME)
    }
}

/// The hash by which an operator is given its worker: FNV-1a over the job's id, its
/// namespace and the operator's id (four little-endian bytes).
pub open spec fn partition_hash(job: ResourceIdView, operator_id: u32) -> u64 {
    fnv1a(
        fnv1a(fnv1a(FNV_OFFSET, encode_utf8(job.resource_id)), encode_utf8(job.namespace_id)),
        spec_u32_to_le_bytes(operator_id),
    )
}

/// The worker that an operator is given: the one it has, where that one is alive;
/// else the live worker whose place is the operator's hash modulo their number.
pub open spec fn assigned(
    current: Option<HostAddrView>,
    live: Seq<HostAddrView>,
    job: ResourceIdView,
    operator_id: u32,
) -> HostAddrView
    recommends
        live.len() > 0,
{
    if current is Some && live.contains(current->0) {
        current->0
    } else {
        live[(partition_hash(job, operator_id) as int) % (live.len() as int)]
    }
}

/// The operators, each with the worker that it is given.
pub open spec fn partitioned(
    nodes: Seq<OperatorInfoView>,
    live: Seq<HostAddrView>,
    job: ResourceIdView,
) -> Seq<OperatorInfoView> {
    Seq::new(
        nodes.len(),
        |i: int|
            OperatorInfoView {
                host_addr: Some(assigned(nodes[i].host_addr, live, job, nodes[i].operator_id)),
                ..nodes[i]
            },
    )
}

/// FNV-1a over `bytes`, from the state `seed`.
pub fn hash_bytes(seed: u64, bytes: &[u8]) -> (hash: u64)
    ensures
        hash == fnv1a(seed, bytes@),
{
    let mut hash = seed;
    let mut i: usize = 0;
    while i < bytes.len()
        invariant
            i <= bytes.len(),
            hash == fnv1a(seed, bytes@.take(i as int)),
        decreases bytes.len() - i,
    {
        assert(bytes@.take(i + 1).drop_last() =~= bytes@.take(i as int));
        hash = (hash ^ (bytes[i] as u64)).wrapping_mul(FNV_PRIME);
        i += 1;
    }
    assert(bytes@.take(i as int) =~= bytes@);
    hash
}

/// The place of `addr` among `hosts`, if it is there.
pub fn position_of(hosts: &Vec<HostAddr>, addr: &HostAddr) -> (at: Option<usize>)
    ensures
        at matches Some(i) ==> i < hosts@.len() && hosts@[i as int]@ == addr@,
        at is Some <==> hosts_view(hosts@).contains(addr@),
{
    let mut i: usize = 0;
    while i < hosts.len()
        invariant
            i <= hosts.len(),
            forall|j: int| 0 <= j < i ==> (#[trigger] hosts@[j])@ != addr@,
        decreases hosts.len() - i,
    {
        if hosts[i].same(addr) {
            assert(hosts_view(hosts@)[i as int] == addr@);
            return Some(i);
        }
        i += 1;
    }
    assert forall|j: int| 0 <= j < hosts_view(hosts@).len() implies hosts_view(hosts@)[j]
        != addr@ by {
        assert(hosts@[j]@ != addr@);
    }
    None
}

impl Cluster {
    /// The cluster that the configuration names. Every worker counts as alive until a
    /// probe finds otherwise.
    pub fn new(cluster_config: &Vec<NodeConfig>) -> (cluster: Self)
        ensures
            cluster.workers@.len() == cluster_config@.len(),
            forall|i: int|
                0 <= i < cluster_config@.len() ==> (#[trigger] cluster.workers@[i]).alive
                    && cluster.workers@[i].host_addr@ == (HostAddrView {
                    host: cluster_config@[i].host@,
                    port: cluster_config@[i].port,
                }),
    {
        let mut workers: Vec<Node> = Vec::new();
        let mut i: usize = 0;
        while i < cluster_config.len()
            invariant
                i <= cluster_config.len(),
                workers@.len() == i,
                forall|j: int|
                    0 <= j < i ==> (#[trigger] workers@[j]).alive && workers@[j].host_addr@ == (
                    HostAddrView { host: cluster_config@[j].host@, port: cluster_config@[j].port }),
            decreases cluster_config.len() - i,
        {
            workers.push(
                Node {
                    host_addr: HostAddr {
                        host: cluster_config[i].host.clone(),
                        port: cluster_config[i].port,
                    },
                    alive: true,
                },
            );
            i += 1;
        }
        Cluster { workers }
    }

    /// The first worker that listens at `addr`, if there is one.
    pub fn get_node(&self, addr: &HostAddr) -> (node: Option<&Node>)
        ensures
            match node {
                Some(found) => exists|i: int|
                    0 <= i < self.workers@.len() && *found == #[trigger] self.workers@[i]
                        && found.host_addr@ == addr@ && forall|j: int|
                        0 <= j < i ==> (#[trigger] self.workers@[j]).host_addr@ != addr@,
                None => forall|i: int|
                    0 <= i < self.workers@.len() ==> (#[trigger] self.workers@[i]).host_addr@
                        != addr@,
            },
    {
        let mut i: usize = 0;
        while i < self.workers.len()
            invariant
                i <= self.workers.len(),
                forall|j: int| 0 <= j < i ==> (#[trigger] self.workers@[j]).host_addr@ != addr@,
            decreases self.workers.len() - i,
        {
            if self.workers[i].host_addr.same(addr) {
                return Some(&self.workers[i]);
            }
            i += 1;
        }
        None
    }

    /// Records what a probe found of the workers that listen at `addr`.
    pub fn set_liveness(&mut self, addr: &HostAddr, alive: bool)
        ensures
            final(self).workers@.len() == old(self).workers@.len(),
            forall|i: int|
                0 <= i < old(self).workers@.len() ==> (#[trigger] final(self).workers@[i]).host_addr
                    == old(self).workers@[i].host_addr && final(self).workers@[i].alive == (if old(self).workers@[i].host_addr@ == addr@ {
                    alive
                } else {
                    old(self).workers@[i].alive
                }),
    {
        let mut i: usize = 0;
        while i < self.workers.len()
            invariant
                i <= self.workers.len(),
                self.workers@.len() == old(self).workers@.len(),
                forall|j: int|
                    0 <= j < self.workers@.len() ==> (#[trigger] self.workers@[j]).host_addr == old(self).workers@[j].host_addr,
                forall|j: int|
                    0 <= j < i ==> (#[trigger] self.workers@[j]).alive == (if old(self).workers@[j].host_addr@ == addr@ {
                        alive
                    } else {
                        old(self).workers@[j].alive
                    }),
                forall|j: int|
                    i <= j < self.workers@.len() ==> (#[trigger] self.workers@[j]).alive == old(self).workers@[j].alive,
            decreases self.workers.len() - i,
        {
            if self.workers[i].host_addr.same(addr) {
                self.workers[i].alive = alive;
            }
            i += 1;
        }
    }

    /// The addresses of the workers that are alive, in the order of the cluster.
    pub fn live_workers(&self) -> (live: Vec<HostAddr>)
        ensures
            hosts_view(live@) == live_hosts(self.workers@),
    {
        let mut live: Vec<HostAddr> = Vec::new();
        let mut i: usize = 0;
        assert(hosts_view(live@) =~= live_hosts(self.workers@.take(0)));
        while i < self.workers.len()
            invariant
                i <= self.workers.len(),
                hosts_view(live@) == live_hosts(self.workers@.take(i as int)),
            decreases self.workers.len() - i,
        {
            assert(self.workers@.take(i + 1).drop_last() =~= self.workers@.take(i as int));
            if self.workers[i].alive {
                let ghost before = hosts_view(live@);
                live.push(self.workers[i].host_addr.clone());
                assert(hosts_view(live@) =~= before.push(self.workers@[i as int].host_addr@));
            }
            i += 1;
        }
        assert(self.workers@.take(i as int) =~= self.workers@);
        live
    }

    /// Gives every operator of `dataflow` its worker: see [`assigned`]. With no worker
    /// alive, nothing is given and the dataflow stays as it is.
    pub fn partition_dataflow(&self, dataflow: &mut Dataflow) -> (done: bool)
        ensures
            done == (live_hosts(self.workers@).len() > 0),
            done ==> final(dataflow)@ == (DataflowView {
                nodes: partitioned(
                    old(dataflow)@.nodes,
                    live_hosts(self.workers@),
                    old(dataflow)@.job_id,
                ),
                ..old(dataflow)@
            }),
            !done ==> final(dataflow)@ == old(dataflow)@,
    {
        let live = self.live_workers();
        if live.len() == 0 {
            return false;
        }
        let ghost hosts = hosts_view(live@);
        let ghost job = dataflow@.job_id;
        let ghost before = dataflow@.nodes;
        let seed = hash_bytes(
            hash_bytes(FNV_OFFSET, dataflow.job_id.resource_id.as_str().as_bytes()),
            dataflow.job_id.namespace_id.as_str().as_bytes(),
        );
        let mut i: usize = 0;
        while i < dataflow.nodes.len()
            invariant
                i <= dataflow.nodes.len(),
                live@.len() > 0,
                hosts == hosts_view(live@),
                dataflow.nodes@.len() == before.len(),
                dataflow@.job_id == job,
                dataflow@.meta == old(dataflow)@.meta,
                seed == fnv1a(
                    fnv1a(FNV_OFFSET, encode_utf8(job.resource_id)),
                    encode_utf8(job.namespace_id),
                ),
                forall|j: int|
                    0 <= j < i ==> (#[trigger] dataflow.nodes@[j])@ == partitioned(
                        before,
                        hosts,
                        job,
                    )[j],
                forall|j: int|
                    i <= j < before.len() ==> (#[trigger] dataflow.nodes@[j])@ == before[j],
            decreases dataflow.nodes.len() - i,
        {
            let keep = match &dataflow.nodes[i].host_addr {
                Some(addr) => position_of(&live, addr).is_some(),
                None => false,
            };
            if !keep {
                let id = u32_to_le_bytes(dataflow.nodes[i].operator_id);
                let hash = hash_bytes(seed, id.as_slice());
                let place = (hash % (live.len() as u64)) as usize;
                assert(hosts[place as int] == live@[place as int]@);
                dataflow.nodes[i].host_addr = Some(live[place].clone());
            }
            i += 1;
        }
        assert(dataflow@.nodes =~= partitioned(before, hosts, job));
        true
    }
}

/// The worker of the operator `id`: that of the first operator with that id; none
/// where there is no such operator, or it has no worker yet.
pub open spec fn host_of(nodes: Seq<OperatorInfoView>, id: u32) -> Option<HostAddrView>
    decreases nodes.len(),
{
    if nodes.len() == 0 {
        None
    } else if nodes[0].operator_id == id {
        nodes[0].host_addr
    } else {
        host_of(nodes.drop_first(), id)
    }
}

/// The workers in the order in which a deployment meets them: for each adjacency
/// list in order the worker of its center, then the worker of each operator.
pub open spec fn visit(df: DataflowView) -> Seq<Option<HostAddrView>> {
    Seq::new(df.meta.len(), |m: int| host_of(df.nodes, df.meta[m].center)) + Seq::new(
        df.nodes.len(),
        |i: int| df.nodes[i].host_addr,
    )
}

/// `seen`, with `host` added at the end where it is a worker not yet seen.
pub open spec fn note(seen: Seq<HostAddrView>, host: Option<HostAddrView>) -> Seq<HostAddrView> {
    if host is Some && !seen.contains(host->0) {
        seen.push(host->0)
    } else {
        seen
    }
}

/// The workers met on a visit, each once, in the order in which they were first met.
pub open spec fn first_seen(visited: Seq<Option<HostAddrView>>) -> Seq<HostAddrView>
    decreases visited.len(),
{
    if visited.len() == 0 {
        Seq::empty()
    } else {
        note(first_seen(visited.drop_last()), visited.last())
    }
}

/// The operators that `host` runs, in order.
pub open spec fn hosted_nodes(nodes: Seq<OperatorInfoView>, host: HostAddrView) -> Seq<
    OperatorInfoView,
>
    decreases nodes.len(),
{
    if nodes.len() == 0 {
        Seq::empty()
    } else if nodes.last().host_addr == Some(host) {
        hosted_nodes(nodes.drop_last(), host).push(nodes.last())
    } else {
        hosted_nodes(nodes.drop_last(), host)
    }
}

/// The adjacency lists whose center `host` runs, in order.
pub open spec fn hosted_meta(
    meta: Seq<DataflowMetaView>,
    nodes: Seq<OperatorInfoView>,
    host: HostAddrView,
) -> Seq<DataflowMetaView>
    decreases meta.len(),
{
    if meta.len() == 0 {
        Seq::empty()
    } else if host_of(nodes, meta.last().center) == Some(host) {
        hosted_meta(meta.drop_last(), nodes, host).push(meta.last())
    } else {
        hosted_meta(meta.drop_last(), nodes, host)
    }
}

/// The part of a dataflow that `host` runs. Its adjacency lists keep all their
/// neighbors: an edge to an operator on another worker is a remote edge at both ends.
pub open spec fn subdataflow(df: DataflowView, host: HostAddrView) -> DataflowView {
    DataflowView {
        job_id: df.job_id,
        meta: hosted_meta(df.meta, df.nodes, host),
        nodes: hosted_nodes(df.nodes, host),
    }
}

/// The subdataflows of a dataflow, each with its worker, in the order in which a
/// deployment meets the workers.
pub open spec fn split(df: DataflowView) -> Seq<(HostAddrView, DataflowView)> {
    Seq::new(
        first_seen(visit(df)).len(),
        |j: int| (first_seen(visit(df))[j], subdataflow(df, first_seen(visit(df))[j])),
    )
}

/// The models of subdataflows with their workers.
pub open spec fn parts_view(parts: Seq<(HostAddr, Dataflow)>) -> Seq<(HostAddrView, DataflowView)> {
    Seq::new(parts.len(), |j: int| (parts[j].0@, parts[j].1@))
}

/// The first operator with an id has the worker of that id.
pub proof fn lemma_host_of_first(nodes: Seq<OperatorInfoView>, id: u32, at: int)
    requires
        0 <= at < nodes.len(),
        nodes[at].operator_id == id,
        forall|j: int| 0 <= j < at ==> (#[trigger] nodes[j]).operator_id != id,
    ensures
        host_of(nodes, id) == nodes[at].host_addr,
    decreases nodes.len(),
{
    if at != 0 {
        let tail = nodes.drop_first();
        assert(nodes[0].operator_id != id);
        assert forall|j: int| 0 <= j < at - 1 implies (#[trigger] tail[j]).operator_id != id by {
            assert(tail[j] == nodes[j + 1]);
        }
        lemma_host_of_first(tail, id, at - 1);
    }
}

/// An id that no operator has has no worker.
pub proof fn lemma_host_of_none(nodes: Seq<OperatorInfoView>, id: u32)
    requires
        forall|j: int| 0 <= j < nodes.len() ==> (#[trigger] nodes[j]).operator_id != id,
    ensures
        host_of(nodes, id) is None,
    decreases nodes.len(),
{
    if nodes.len() != 0 {
        let tail = nodes.drop_first();
        assert(nodes[0].operator_id != id);
        assert forall|j: int| 0 <= j < tail.len() implies (#[trigger] tail[j]).operator_id
            != id by {
            assert(tail[j] == nodes[j + 1]);
        }
        lemma_host_of_none(tail, id);
    }
}

/// The worker of the operator `id`, if it has one.
pub fn worker_of(nodes: &Vec<OperatorInfo>, id: u32) -> (host: Option<&HostAddr>)
    ensures
        crate::graph::option_addr_view(
            match host {
                Some(h) => Some(*h),
                None => None,
            },
        ) == host_of(nodes_view(nodes@), id),
{
    match find_node(nodes, id) {
        Some(at) => {
            proof {
                assert forall|j: int| 0 <= j < at implies (#[trigger] nodes_view(
                    nodes@,
                )[j]).operator_id != id by {
                    assert(nodes@[j].operator_id != id);
                }
                lemma_host_of_first(nodes_view(nodes@), id, at as int);
            }
            match &nodes[at].host_addr {
                Some(h) => Some(h),
                None => None,
            }
        },
        None => {
            proof {
                lemma_host_of_none(nodes_view(nodes@), id);
            }
            None
        },
    }
}

/// Adds `host` at the end of `seen` where it is a worker not yet seen.
fn note_host(seen: &mut Vec<HostAddr>, host: Option<&HostAddr>)
    ensures
        hosts_view(final(seen)@) == note(
            hosts_view(old(seen)@),
            match host {
                Some(h) => Some(h@),
                None => None,
            },
        ),
{
    match host {
        Some(h) => {
            if position_of(seen, h).is_none() {
                let ghost before = hosts_view(seen@);
                seen.push(h.clone());
                assert(hosts_view(seen@) =~= before.push(h@));
            }
        },
        None => {},
    }
}

impl Cluster {
    /// Parts a dataflow whose operators have their workers into the subdataflows that
    /// the workers run, in the order in which they are to be deployed.
    pub fn split_into_subdataflow(&self, dataflow: &Dataflow) -> (parts: Vec<(HostAddr, Dataflow)>)
        ensures
            parts_view(parts@) == split(dataflow@),
    {
        let ghost df = dataflow@;
        let ghost centers = Seq::new(df.meta.len(), |m: int| host_of(df.nodes, df.meta[m].center));
        let ghost owners = Seq::new(df.nodes.len(), |i: int| df.nodes[i].host_addr);
        let mut hosts: Vec<HostAddr> = Vec::new();
        let mut m: usize = 0;
        assert(hosts_view(hosts@) =~= first_seen(centers.take(0)));
        while m < dataflow.meta.len()
            invariant
                m <= dataflow.meta.len(),
                df == dataflow@,
                centers == Seq::new(df.meta.len(), |m: int| host_of(df.nodes, df.meta[m].center)),
                hosts_view(hosts@) == first_seen(centers.take(m as int)),
            decreases dataflow.meta.len() - m,
        {
            assert(centers.take(m + 1).drop_last() =~= centers.take(m as int));
            assert(df.meta[m as int] == dataflow.meta@[m as int]@);
            note_host(&mut hosts, worker_of(&dataflow.nodes, dataflow.meta[m].center));
            m += 1;
        }
        assert(centers.take(m as int) =~= centers);
        assert(centers + owners.take(0) =~= centers);
        let mut i: usize = 0;
        while i < dataflow.nodes.len()
            invariant
                i <= dataflow.nodes.len(),
                df == dataflow@,
                owners == Seq::new(df.nodes.len(), |i: int| df.nodes[i].host_addr),
                hosts_view(hosts@) == first_seen(centers + owners.take(i as int)),
            decreases dataflow.nodes.len() - i,
        {
            assert((centers + owners.take(i + 1)).drop_last() =~= centers + owners.take(i as int));
            assert(df.nodes[i as int] == dataflow.nodes@[i as int]@);
            note_host(
                &mut hosts,
                match &dataflow.nodes[i].host_addr {
                    Some(h) => Some(h),
                    None => None,
                },
            );
            i += 1;
        }
        assert(owners.take(i as int) =~= owners);
        assert(hosts_view(hosts@) == first_seen(visit(df)));
        let mut parts: Vec<(HostAddr, Dataflow)> = Vec::new();
        let mut j: usize = 0;
        while j < hosts.len()
            invariant
                j <= hosts.len(),
                df == dataflow@,
                parts@.len() == j,
                forall|k: int|
                    0 <= k < j ==> (#[trigger] parts@[k]).0@ == hosts@[k]@ && parts@[k].1@
                        == subdataflow(df, hosts@[k]@),
            decreases hosts.len() - j,
        {
            let part = dataflow.part_of(&hosts[j]);
            parts.push((hosts[j].clone(), part));
            j += 1;
        }
        assert(parts_view(parts@) =~= split(df));
        parts
    }
}

impl Dataflow {
    /// The part of this dataflow that `host` runs.
    pub fn part_of(&self, host: &HostAddr) -> (part: Dataflow)
        ensures
            part@ == subdataflow(self@, host@),
    {
        let ghost df = self@;
        let mut nodes: Vec<OperatorInfo> = Vec::new();
        let mut i: usize = 0;
        assert(nodes_view(nodes@) =~= hosted_nodes(df.nodes.take(0), host@));
        while i < self.nodes.len()
            invariant
                i <= self.nodes.len(),
                df == self@,
                nodes_view(nodes@) == hosted_nodes(df.nodes.take(i as int), host@),
            decreases self.nodes.len() - i,
        {
            assert(df.nodes.take(i + 1).drop_last() =~= df.nodes.take(i as int));
            assert(df.nodes[i as int] == self.nodes@[i as int]@);
            let here = match &self.nodes[i].host_addr {
                Some(h) => h.same(host),
                None => false,
            };
            if here {
                let ghost before = nodes_view(nodes@);
                nodes.push(self.nodes[i].clone());
                assert(nodes_view(nodes@) =~= before.push(df.nodes[i as int]));
            }
            i += 1;
        }
        assert(df.nodes.take(i as int) =~= df.nodes);
        let mut meta: Vec<DataflowMeta> = Vec::new();
        let mut m: usize = 0;
        assert(meta_view(meta@) =~= hosted_meta(df.meta.take(0), df.nodes, host@));
        while m < self.meta.len()
            invariant
                m <= self.meta.len(),
                df == self@,
                meta_view(meta@) == hosted_meta(df.meta.take(m as int), df.nodes, host@),
            decreases self.meta.len() - m,
        {
            assert(df.meta.take(m + 1).drop_last() =~= df.meta.take(m as int));
            assert(df.meta[m as int] == self.meta@[m as int]@);
            let here = match worker_of(&self.nodes, self.meta[m].center) {
                Some(h) => h.same(host),
                None => false,
            };
            if here {
                let ghost before = meta_view(meta@);
                meta.push(self.meta[m].clone());
                assert(meta_view(meta@) =~= before.push(df.meta[m as int]));
            }
            m += 1;
        }
        assert(df.meta.take(m as int) =~= df.meta);
        Dataflow { job_id: self.job_id.clone(), meta, nodes }
    }
}

/// The operators that a worker runs are the operators that were given to it.
pub proof fn lemma_hosted_nodes(nodes: Seq<OperatorInfoView>, host: HostAddrView)
    ensures
        forall|i: int|
            0 <= i < hosted_nodes(nodes, host).len() ==> (#[trigger] hosted_nodes(
                nodes,
                host,
            )[i]).host_addr == Some(host) && nodes.contains(hosted_nodes(nodes, host)[i]),
        forall|j: int|
            0 <= j < nodes.len() && (#[trigger] nodes[j]).host_addr == Some(host)
                ==> hosted_nodes(nodes, host).contains(nodes[j]),
    decreases nodes.len(),
{
    let part = hosted_nodes(nodes, host);
    if nodes.len() != 0 {
        let shorter = nodes.drop_last();
        let before = hosted_nodes(shorter, host);
        lemma_hosted_nodes(shorter, host);
        assert forall|i: int| 0 <= i < part.len() implies (#[trigger] part[i]).host_addr == Some(
            host,
        ) && nodes.contains(part[i]) by {
            if i < before.len() {
                assert(part[i] == before[i]);
                assert(shorter.contains(before[i]));
                let k = choose|k: int| 0 <= k < shorter.len() && shorter[k] == before[i];
                assert(nodes[k] == part[i]);
            } else {
                assert(nodes[nodes.len() - 1] == part[i]);
            }
        }
        assert forall|j: int|
            0 <= j < nodes.len() && (#[trigger] nodes[j]).host_addr == Some(host) implies part.contains(
            nodes[j],
        ) by {
            if j < shorter.len() {
                assert(shorter[j] == nodes[j]);
                assert(before.contains(shorter[j]));
                let k = choose|k: int| 0 <= k < before.len() && before[k] == shorter[j];
                assert(part[k] == nodes[j]);
            } else {
                assert(part[part.len() - 1] == nodes[j]);
            }
        }
    }
}

/// The workers met on a visit are met once each, and each worker that was visited is
/// among them.
pub proof fn lemma_first_seen(visited: Seq<Option<HostAddrView>>)
    ensures
        first_seen(visited).no_duplicates(),
        forall|i: int|
            0 <= i < visited.len() && (#[trigger] visited[i]) is Some ==> first_seen(
                visited,
            ).contains(visited[i]->0),
        forall|j: int|
            0 <= j < first_seen(visited).len() ==> visited.contains(
                Some(#[trigger] first_seen(visited)[j]),
            ),
    decreases visited.len(),
{
    let seen = first_seen(visited);
    if visited.len() != 0 {
        let shorter = visited.drop_last();
        let before = first_seen(shorter);
        lemma_first_seen(shorter);
        assert forall|i: int| 0 <= i < visited.len() && (#[trigger] visited[i]) is Some implies seen.contains(
            visited[i]->0,
        ) by {
            if i < shorter.len() {
                assert(shorter[i] == visited[i]);
                assert(before.contains(visited[i]->0));
                let k = choose|k: int| 0 <= k < before.len() && before[k] == visited[i]->0;
                assert(seen[k] == visited[i]->0);
            } else if before.contains(visited[i]->0) {
            } else {
                assert(seen[seen.len() - 1] == visited[i]->0);
            }
        }
        assert forall|j: int| 0 <= j < seen.len() implies visited.contains(
            Some(#[trigger] seen[j]),
        ) by {
            if j < before.len() {
                assert(seen[j] == before[j]);
                assert(shorter.contains(Some(before[j])));
                let k = choose|k: int| 0 <= k < shorter.len() && shorter[k] == Some(before[j]);
                assert(visited[k] == Some(seen[j]));
            } else {
                assert(visited[visited.len() - 1] == Some(seen[j]));
            }
        }
    }
}

/// The parts of a dataflow are the parts of its workers: no worker has two parts,
/// every operator of a part sits on the part's worker, and every operator that has a
/// worker is in the part of that worker.
pub proof fn lemma_split_parts(df: DataflowView)
    ensures
        forall|i: int, j: int|
            0 <= i < j < split(df).len() ==> (#[trigger] split(df)[i]).0 != (#[trigger] split(
                df,
            )[j]).0,
        forall|p: int, i: int|
            0 <= p < split(df).len() && 0 <= i < split(df)[p].1.nodes.len() ==> (
            #[trigger] split(df)[p].1.nodes[i]).host_addr == Some(split(df)[p].0),
        forall|k: int|
            0 <= k < df.nodes.len() && (#[trigger] df.nodes[k]).host_addr is Some ==> exists|
                p: int,
            |
                0 <= p < split(df).len() && (#[trigger] split(df)[p]).0
                    == df.nodes[k].host_addr->0 && split(df)[p].1.nodes.contains(df.nodes[k]),
{
    let hosts = first_seen(visit(df));
    lemma_first_seen(visit(df));
    assert forall|p: int, i: int|
        0 <= p < split(df).len() && 0 <= i < split(df)[p].1.nodes.len() implies (
    #[trigger] split(df)[p].1.nodes[i]).host_addr == Some(split(df)[p].0) by {
        lemma_hosted_nodes(df.nodes, hosts[p]);
    }
    assert forall|k: int|
        0 <= k < df.nodes.len() && (#[trigger] df.nodes[k]).host_addr is Some implies exists|
        p: int,
    |
        0 <= p < split(df).len() && (#[trigger] split(df)[p]).0 == df.nodes[k].host_addr->0
            && split(df)[p].1.nodes.contains(df.nodes[k]) by {
        let host = df.nodes[k].host_addr->0;
        let at = df.meta.len() + k;
        assert(visit(df)[at] == df.nodes[k].host_addr);
        assert(hosts.contains(host));
        let p = choose|p: int| 0 <= p < hosts.len() && hosts[p] == host;
        lemma_hosted_nodes(df.nodes, host);
        assert(split(df)[p].0 == host);
    }
}

/// Giving the operators their workers changes nothing of what the check of a
/// dataflow looks at: a dataflow that was accepted stays acceptable.
pub proof fn lemma_partition_keeps_faults(
    df: DataflowView,
    live: Seq<HostAddrView>,
)
    ensures
        fault_of(DataflowView { nodes: partitioned(df.nodes, live, df.job_id), ..df })
            == fault_of(df),
        forall|i: int|
            0 <= i < df.nodes.len() ==> (#[trigger] partitioned(
                df.nodes,
                live,
                df.job_id,
            )[i]).host_addr is Some,
{
    let nodes = partitioned(df.nodes, live, df.job_id);
    let after = DataflowView { nodes, ..df };
    assert forall|id: u32| has_node(nodes, id) == has_node(df.nodes, id) by {
        if has_node(nodes, id) {
            let i = choose|i: int| 0 <= i < nodes.len() && (#[trigger] nodes[i]).operator_id == id;
            assert(df.nodes[i].operator_id == id);
        }
        if has_node(df.nodes, id) {
            let i = choose|i: int|
                0 <= i < df.nodes.len() && (#[trigger] df.nodes[i]).operator_id == id;
            assert(nodes[i].operator_id == id);
        }
    }
    assert(unique_ids(nodes) == unique_ids(df.nodes)) by {
        if unique_ids(df.nodes) {
            assert forall|i: int, j: int| 0 <= i < j < nodes.len() implies (
            #[trigger] nodes[i]).operator_id != (#[trigger] nodes[j]).operator_id by {
                assert(df.nodes[i].operator_id != df.nodes[j].operator_id);
            }
        }
        if unique_ids(nodes) {
            assert forall|i: int, j: int| 0 <= i < j < df.nodes.len() implies (
            #[trigger] df.nodes[i]).operator_id != (#[trigger] df.nodes[j]).operator_id by {
                assert(nodes[i].operator_id != nodes[j].operator_id);
            }
        }
    }
    assert(edges_resolve(after) == edges_resolve(df)) by {
        if edges_resolve(df) {
            assert forall|m: int| 0 <= m < after.meta.len() implies has_node(
                after.nodes,
                (#[trigger] after.meta[m]).center,
            ) && forall|k: int|
                0 <= k < after.meta[m].neighbors.len() ==> has_node(
                    after.nodes,
                    #[trigger] after.meta[m].neighbors[k],
                ) by {
                assert(has_node(df.nodes, df.meta[m].center));
                assert forall|k: int| 0 <= k < after.meta[m].neighbors.len() implies has_node(
                    after.nodes,
                    #[trigger] after.meta[m].neighbors[k],
                ) by {
                    assert(has_node(df.nodes, df.meta[m].neighbors[k]));
                }
            }
        }
        if edges_resolve(after) {
            assert forall|m: int| 0 <= m < df.meta.len() implies has_node(
                df.nodes,
                (#[trigger] df.meta[m]).center,
            ) && forall|k: int|
                0 <= k < df.meta[m].neighbors.len() ==> has_node(
                    df.nodes,
                    #[trigger] df.meta[m].neighbors[k],
                ) by {
                assert(has_node(after.nodes, after.meta[m].center));
                assert forall|k: int| 0 <= k < df.meta[m].neighbors.len() implies has_node(
                    df.nodes,
                    #[trigger] df.meta[m].neighbors[k],
                ) by {
                    assert(has_node(after.nodes, after.meta[m].neighbors[k]));
                }
            }
        }
    }
    assert((forall|i: int| 0 <= i < nodes.len() ==> runnable(#[trigger] nodes[i])) == (forall|
        i: int,
    |
        0 <= i < df.nodes.len() ==> runnable(#[trigger] df.nodes[i]))) by {
        if forall|i: int| 0 <= i < df.nodes.len() ==> runnable(#[trigger] df.nodes[i]) {
            assert forall|i: int| 0 <= i < nodes.len() implies runnable(#[trigger] nodes[i]) by {
                assert(runnable(df.nodes[i]));
            }
        }
        if forall|i: int| 0 <= i < nodes.len() ==> runnable(#[trigger] nodes[i]) {
            assert forall|i: int| 0 <= i < df.nodes.len() implies runnable(
                #[trigger] df.nodes[i],
            ) by {
                assert(runnable(nodes[i]));
            }
        }
    }
    assert forall|from: u32, to: u32| has_edge(after, from, to) == has_edge(df, from, to) by {
        if has_edge(df, from, to) {
            let (m, k) = choose|m: int, k: int| #[trigger]
                is_edge(df, m, k) && df.meta[m].center == from && df.meta[m].neighbors[k] == to;
            assert(is_edge(after, m, k));
        }
        if has_edge(after, from, to) {
            let (m, k) = choose|m: int, k: int| #[trigger]
                is_edge(after, m, k) && after.meta[m].center == from && after.meta[m].neighbors[k]
                    == to;
            assert(is_edge(df, m, k));
        }
    }
    assert(has_cycle(after) == has_cycle(df)) by {
        assert forall|path: Seq<u32>| is_cycle(after, path) == is_cycle(df, path) by {
            if is_cycle(df, path) {
                assert forall|i: int| 0 <= i < path.len() - 1 implies has_edge(
                    after,
                    #[trigger] path[i],
                    path[i + 1],
                ) by {
                    assert(has_edge(df, path[i], path[i + 1]));
                }
            }
            if is_cycle(after, path) {
                assert forall|i: int| 0 <= i < path.len() - 1 implies has_edge(
                    df,
                    #[trigger] path[i],
                    path[i + 1],
                ) by {
                    assert(has_edge(after, path[i], path[i + 1]));
                }
            }
        }
        if has_cycle(df) {
            let path = choose|path: Seq<u32>| is_cycle(df, path);
            assert(is_cycle(after, path));
        }
        if has_cycle(after) {
            let path = choose|path: Seq<u32>| is_cycle(after, path);
            assert(is_cycle(df, path));
        }
    }
    assert(upstreams_match(after) == upstreams_match(df)) by {
        if upstreams_match(df) {
            assert forall|b: int, u: int| #[trigger] is_upstream(after, b, u) implies has_edge(
                after,
                after.nodes[b].upstreams[u],
                after.nodes[b].operator_id,
            ) by {
                assert(is_upstream(df, b, u));
            }
            assert forall|m: int, k: int, b: int| #[trigger]
                feeds(after, m, k, b) implies after.nodes[b].upstreams.contains(
                after.meta[m].center,
            ) by {
                assert(feeds(df, m, k, b));
            }
        }
        if upstreams_match(after) {
            assert forall|b: int, u: int| #[trigger] is_upstream(df, b, u) implies has_edge(
                df,
                df.nodes[b].upstreams[u],
                df.nodes[b].operator_id,
            ) by {
                assert(is_upstream(after, b, u));
            }
            assert forall|m: int, k: int, b: int| #[trigger]
                feeds(df, m, k, b) implies df.nodes[b].upstreams.contains(df.meta[m].center) by {
                assert(feeds(after, m, k, b));
            }
        }
    }
}

} // verus!

//! A job's dataflow: its operators and the edges between them, and the check that a
//! dataflow passes before it is taken in.

use crate::event::{ResourceId, ResourceIdView};
use vstd::prelude::*;

verus! {

/// Model of a [`HostAddr`].
pub struct HostAddrView {
    pub host: Seq<char>,
    pub port: u16,
}

/// Where a worker or a coordinator listens.
#[derive(Debug, PartialEq, Eq)]
pub struct HostAddr {
    pub host: String,
    pub port: u16,
}

impl View for HostAddr {
    type V = HostAddrView;

    open spec fn view(&self) -> HostAddrView {
        HostAddrView { host: self.host@, port: self.port }
    }
}

impl Clone for HostAddr {
    fn clone(&self) -> (copy: Self)
        ensures
            copy@ == self@,
    {
        HostAddr { host: self.host.clone(), port: self.port }
    }
}

impl HostAddr {
    /// True when the two name one place.
    pub fn same(&self, other: &HostAddr) -> (same: bool)
        ensures
            same == (self@ == other@),
    {
        self.host == other.host && self.port == other.port
    }
}

/// The body of a user's function, in the scripting language.
#[derive(Debug, PartialEq, Eq)]
pub struct Func {
    pub function: String,
}

impl Clone for Func {
    fn clone(&self) -> (copy: Self)
        ensures
            copy.function@ == self.function@,
    {
        Func { function: self.function.clone() }
    }
}

/// What an operator does, with the user's function where it has one.
#[derive(Debug, PartialEq, Eq)]
pub enum Details {
    Source,
    Sink,
    Mapper(Option<Func>),
    Filter(Option<Func>),
    KeyBy(Option<Func>),
    Reducer(Option<Func>),
    FlatMap(Option<Func>),
}

/// The five kinds of operator that run a user's function.
#[derive(Clone, Copy, Debug, PartialEq, Eq, Structural)]
pub enum OperatorKind {
    Mapper,
    Filter,
    KeyBy,
    Reducer,
    FlatMap,
}

/// Model of [`Details`]: the kind, and the function's text where there is one.
pub enum DetailsView {
    Source,
    Sink,
    Operator { kind: OperatorKind, function: Option<Seq<char>> },
}

/// The text of a function that may be absent.
pub open spec fn function_text(func: Option<Func>) -> Option<Seq<char>> {
    match func {
        Some(f) => Some(f.function@),
        None => None,
    }
}

impl View for Details {
    type V = DetailsView;

    open spec fn view(&self) -> DetailsView {
        match self {
            Details::Source => DetailsView::Source,
            Details::Sink => DetailsView::Sink,
            Details::Mapper(f) => DetailsView::Operator {
                kind: OperatorKind::Mapper,
                function: function_text(*f),
            },
            Details::Filter(f) => DetailsView::Operator {
                kind: OperatorKind::Filter,
                function: function_text(*f),
            },
            Details::KeyBy(f) => DetailsView::Operator {
                kind: OperatorKind::KeyBy,
                function: function_text(*f),
            },
            Details::Reducer(f) => DetailsView::Operator {
                kind: OperatorKind::Reducer,
                function: function_text(*f),
            },
            Details::FlatMap(f) => DetailsView::Operator {
                kind: OperatorKind::FlatMap,
                function: function_text(*f),
            },
        }
    }
}

/// A copy of a function that may be absent.
fn clone_func(func: &Option<Func>) -> (copy: Option<Func>)
    ensures
        function_text(copy) == function_text(*func),
{
    match func {
        Some(f) => Some(f.clone()),
        None => None,
    }
}

impl Clone for Details {
    fn clone(&self) -> (copy: Self)
        ensures
            copy@ == self@,
    {
        match self {
            Details::Source => Details::Source,
            Details::Sink => Details::Sink,
            Details::Mapper(f) => Details::Mapper(clone_func(f)),
            Details::Filter(f) => Details::Filter(clone_func(f)),
            Details::KeyBy(f) => Details::KeyBy(clone_func(f)),
            Details::Reducer(f) => Details::Reducer(clone_func(f)),
            Details::FlatMap(f) => Details::FlatMap(clone_func(f)),
        }
    }
}

/// Model of an [`OperatorInfo`].
pub struct OperatorInfoView {
    pub operator_id: u32,
    pub host_addr: Option<HostAddrView>,
    pub upstreams: Seq<u32>,
    pub details: Option<DetailsView>,
}

/// One operator of a dataflow.
#[derive(Debug, PartialEq, Eq)]
pub struct OperatorInfo {
    /// Unique within the dataflow.
    pub operator_id: u32,
    /// The worker that runs the operator, once one is assigned.
    pub host_addr: Option<HostAddr>,
    /// The operators whose output this one reads.
    pub upstreams: Vec<u32>,
    pub details: Option<Details>,
}

/// The model of an address that may be absent.
pub open spec fn option_addr_view(addr: Option<HostAddr>) -> Option<HostAddrView> {
    match addr {
        Some(a) => Some(a@),
        None => None,
    }
}

/// The model of details that may be absent.
pub open spec fn option_details_view(details: Option<Details>) -> Option<DetailsView> {
    match details {
        Some(d) => Some(d@),
        None => None,
    }
}

impl View for OperatorInfo {
    type V = OperatorInfoView;

    open spec fn view(&self) -> OperatorInfoView {
        OperatorInfoView {
            operator_id: self.operator_id,
            host_addr: option_addr_view(self.host_addr),
            upstreams: self.upstreams@,
            details: option_details_view(self.details),
        }
    }
}

impl Clone for OperatorInfo {
    fn clone(&self) -> (copy: Self)
        ensures
            copy@ == self@,
    {
        OperatorInfo {
            operator_id: self.operator_id,
            host_addr: match &self.host_addr {
                Some(addr) => Some(addr.clone()),
                None => None,
            },
            upstreams: self.upstreams.clone(),
            details: match &self.details {
                Some(details) => Some(details.clone()),
                None => None,
            },
        }
    }
}

/// The models of a run of operators.
pub open spec fn nodes_view(nodes: Seq<OperatorInfo>) -> Seq<OperatorInfoView> {
    Seq::new(nodes.len(), |i: int| nodes[i]@)
}

/// Model of a [`DataflowMeta`].
pub struct DataflowMetaView {
    pub center: u32,
    pub neighbors: Seq<u32>,
}

/// One adjacency list: the operators that read what `center` sends on.
#[derive(Debug, PartialEq, Eq)]
pub struct DataflowMeta {
    pub center: u32,
    pub neighbors: Vec<u32>,
}

impl View for DataflowMeta {
    type V = DataflowMetaView;

    open spec fn view(&self) -> DataflowMetaView {
        DataflowMetaView { center: self.center, neighbors: self.neighbors@ }
    }
}

impl Clone for DataflowMeta {
    fn clone(&self) -> (copy: Self)
        ensures
            copy@ == self@,
    {
        DataflowMeta { center: self.center, neighbors: self.neighbors.clone() }
    }
}

/// The models of a run of adjacency lists.
pub open spec fn meta_view(meta: Seq<DataflowMeta>) -> Seq<DataflowMetaView> {
    Seq::new(meta.len(), |i: int| meta[i]@)
}

/// Model of a [`Dataflow`].
pub struct DataflowView {
    pub job_id: ResourceIdView,
    pub meta: Seq<DataflowMetaView>,
    pub nodes: Seq<OperatorInfoView>,
}

/// A job's operators and the edges between them. A subdataflow is a dataflow too: the
/// part of a job that one worker runs.
#[derive(Debug, PartialEq, Eq)]
pub struct Dataflow {
    pub job_id: ResourceId,
    /// The adjacency lists, sources first.
    pub meta: Vec<DataflowMeta>,
    /// The operators; each id occurs once.
    pub nodes: Vec<OperatorInfo>,
}

impl View for Dataflow {
    type V = DataflowView;

    open spec fn view(&self) -> DataflowView {
        DataflowView {
            job_id: self.job_id@,
            meta: meta_view(self.meta@),
            nodes: nodes_view(self.nodes@),
        }
    }
}

/// A copy of a run of operators.
pub fn clone_nodes(nodes: &Vec<OperatorInfo>) -> (copy: Vec<OperatorInfo>)
    ensures
        nodes_view(copy@) == nodes_view(nodes@),
{
    let mut copy: Vec<OperatorInfo> = Vec::new();
    let mut i: usize = 0;
    while i < nodes.len()
        invariant
            i <= nodes.len(),
            copy@.len() == i,
            forall|j: int| 0 <= j < i ==> (#[trigger] copy@[j])@ == nodes@[j]@,
        decreases nodes.len() - i,
    {
        copy.push(nodes[i].clone());
        i += 1;
    }
    assert(nodes_view(copy@) =~= nodes_view(nodes@));
    copy
}

/// A copy of a run of adjacency lists.
pub fn clone_meta(meta: &Vec<DataflowMeta>) -> (copy: Vec<DataflowMeta>)
    ensures
        meta_view(copy@) == meta_view(meta@),
{
    let mut copy: Vec<DataflowMeta> = Vec::new();
    let mut i: usize = 0;
    while i < meta.len()
        invariant
            i <= meta.len(),
            copy@.len() == i,
            forall|j: int| 0 <= j < i ==> (#[trigger] copy@[j])@ == meta@[j]@,
        decreases meta.len() - i,
    {
        copy.push(meta[i].clone());
        i += 1;
    }
    assert(meta_view(copy@) =~= meta_view(meta@));
    copy
}

impl Clone for Dataflow {
    fn clone(&self) -> (copy: Self)
        ensures
            copy@ == self@,
    {
        Dataflow {
            job_id: self.job_id.clone(),
            meta: clone_meta(&self.meta),
            nodes: clone_nodes(&self.nodes),
        }
    }
}

/// True when some operator of `nodes` has the id `id`.
pub open spec fn has_node(nodes: Seq<OperatorInfoView>, id: u32) -> bool {
    exists|i: int| 0 <= i < nodes.len() && (#[trigger] nodes[i]).operator_id == id
}

/// True when each id occurs once among `nodes`.
pub open spec fn unique_ids(nodes: Seq<OperatorInfoView>) -> bool {
    forall|i: int, j: int|
        0 <= i < j < nodes.len() ==> (#[trigger] nodes[i]).operator_id != (
        #[trigger] nodes[j]).operator_id
}

/// True when every operator that the adjacency lists name is among the operators.
pub open spec fn edges_resolve(df: DataflowView) -> bool {
    forall|m: int|
        0 <= m < df.meta.len() ==> has_node(df.nodes, (#[trigger] df.meta[m]).center) && forall|
            k: int,
        |
            0 <= k < df.meta[m].neighbors.len() ==> has_node(
                df.nodes,
                #[trigger] df.meta[m].neighbors[k],
            )
}

/// True when the operator is a source or a sink, or is of one of the five kinds and has
/// a function to run.
pub open spec fn runnable(node: OperatorInfoView) -> bool {
    match node.details {
        Some(DetailsView::Source) => true,
        Some(DetailsView::Sink) => true,
        Some(DetailsView::Operator { function, .. }) => function is Some,
        None => false,
    }
}

/// Why a dataflow is refused at submission.
#[derive(Clone, Copy, Debug, PartialEq, Eq, Structural)]
pub enum InvalidDataflow {
    /// It has no operator.
    NoOperators,
    /// Two of its operators have one id.
    DuplicateOperator,
    /// An adjacency list names an operator that it does not have.
    MissingOperator,
    /// One of its operators has no details, or no function to run.
    UnsupportedOperator,
    /// Its edges go round in a circle.
    Cyclic,
    /// An operator's upstreams are not the operators from which an edge leads to it.
    InconsistentUpstreams,
}

/// The first fault of a dataflow, in the order of [`InvalidDataflow`]; none where it
/// can be accepted.
pub open spec fn fault_of(df: DataflowView) -> Option<InvalidDataflow> {
    if df.nodes.len() == 0 {
        Some(InvalidDataflow::NoOperators)
    } else if !unique_ids(df.nodes) {
        Some(InvalidDataflow::DuplicateOperator)
    } else if !edges_resolve(df) {
        Some(InvalidDataflow::MissingOperator)
    } else if !(forall|i: int| 0 <= i < df.nodes.len() ==> runnable(#[trigger] df.nodes[i])) {
        Some(InvalidDataflow::UnsupportedOperator)
    } else if has_cycle(df) {
        Some(InvalidDataflow::Cyclic)
    } else if !upstreams_match(df) {
        Some(InvalidDataflow::InconsistentUpstreams)
    } else {
        None
    }
}

/// True when `u` is the place of an upstream in the list of the operator at `b`.
pub open spec fn is_upstream(df: DataflowView, b: int, u: int) -> bool {
    0 <= b < df.nodes.len() && 0 <= u < df.nodes[b].upstreams.len()
}

/// True when the edge `k` of the list `m` leads to the operator at `b`.
pub open spec fn feeds(df: DataflowView, m: int, k: int, b: int) -> bool {
    is_edge(df, m, k) && 0 <= b < df.nodes.len() && df.nodes[b].operator_id
        == df.meta[m].neighbors[k]
}

/// True when the upstreams of every operator are the operators from which an edge
/// leads to it: each upstream has such an edge, and each such edge has its upstream.
pub open spec fn upstreams_match(df: DataflowView) -> bool {
    &&& forall|b: int, u: int| #[trigger]
        is_upstream(df, b, u) ==> has_edge(df, df.nodes[b].upstreams[u], df.nodes[b].operator_id)
    &&& forall|m: int, k: int, b: int| #[trigger]
        feeds(df, m, k, b) ==> df.nodes[b].upstreams.contains(df.meta[m].center)
}

/// True when the neighbor `k` of the adjacency list `m` is an edge of the dataflow.
pub open spec fn is_edge(df: DataflowView, m: int, k: int) -> bool {
    0 <= m < df.meta.len() && 0 <= k < df.meta[m].neighbors.len()
}

/// True when every edge leads from an operator of lower rank to one of higher rank.
pub open spec fn ranked(df: DataflowView, rank: spec_fn(u32) -> int) -> bool {
    forall|m: int, k: int| #[trigger]
        is_edge(df, m, k) ==> rank(df.meta[m].center) < rank(df.meta[m].neighbors[k])
}

/// True when the operators can be ranked so that every edge leads upward. A dataflow
/// that can be ranked has no cycle: see [`lemma_acyclic_no_cycle`].
pub open spec fn acyclic(df: DataflowView) -> bool {
    exists|rank: spec_fn(u32) -> int| ranked(df, rank)
}

/// True when the dataflow has an edge from the operator `from` to the operator `to`.
pub open spec fn has_edge(df: DataflowView, from: u32, to: u32) -> bool {
    exists|m: int, k: int| #[trigger]
        is_edge(df, m, k) && df.meta[m].center == from && df.meta[m].neighbors[k] == to
}

/// True when each operator of `path` has an edge to the next.
pub open spec fn is_walk(df: DataflowView, path: Seq<u32>) -> bool {
    forall|i: int| 0 <= i < path.len() - 1 ==> has_edge(df, #[trigger] path[i], path[i + 1])
}

/// True when `path` is a walk of one edge or more that ends where it began.
pub open spec fn is_cycle(df: DataflowView, path: Seq<u32>) -> bool {
    path.len() >= 2 && is_walk(df, path) && path.first() == path.last()
}

/// True when some walk along the edges of the dataflow comes back to where it began.
pub open spec fn has_cycle(df: DataflowView) -> bool {
    exists|path: Seq<u32>| is_cycle(df, path)
}

/// Along a walk the rank grows.
proof fn lemma_walk_climbs(df: DataflowView, rank: spec_fn(u32) -> int, path: Seq<u32>, at: int)
    requires
        ranked(df, rank),
        is_walk(df, path),
        1 <= at < path.len(),
    ensures
        rank(path[0]) < rank(path[at]),
    decreases at,
{
    assert(has_edge(df, path[at - 1], path[at - 1 + 1]));
    let (m, k) = choose|m: int, k: int| #[trigger]
        is_edge(df, m, k) && df.meta[m].center == path[at - 1] && df.meta[m].neighbors[k]
            == path[at];
    assert(is_edge(df, m, k));
    if at > 1 {
        lemma_walk_climbs(df, rank, path, at - 1);
    }
}

/// A dataflow whose operators can be ranked has no cycle.
pub proof fn lemma_acyclic_no_cycle(df: DataflowView)
    requires
        acyclic(df),
    ensures
        !has_cycle(df),
{
    if has_cycle(df) {
        let path = choose|path: Seq<u32>| is_cycle(df, path);
        let rank = choose|rank: spec_fn(u32) -> int| ranked(df, rank);
        lemma_walk_climbs(df, rank, path, path.len() - 1);
    }
}

/// How many of the marks are set.
spec fn marked(marks: Seq<bool>) -> nat
    decreases marks.len(),
{
    if marks.len() == 0 {
        0
    } else {
        marked(marks.drop_last()) + if marks.last() {
            1nat
        } else {
            0nat
        }
    }
}

/// No more marks are set than there are; with all set, each is set; one more set
/// is one more.
proof fn lemma_marked(marks: Seq<bool>)
    ensures
        marked(marks) <= marks.len(),
        marked(marks) == marks.len() ==> forall|i: int| 0 <= i < marks.len() ==> marks[i],
        forall|i: int|
            0 <= i < marks.len() && !marks[i] ==> marked(#[trigger] marks.update(i, true))
                == marked(marks) + 1,
    decreases marks.len(),
{
    if marks.len() != 0 {
        let shorter = marks.drop_last();
        lemma_marked(shorter);
        assert forall|i: int| 0 <= i < marks.len() && marked(marks) == marks.len() implies marks[i] by {
            if i < shorter.len() {
                assert(shorter[i] == marks[i]);
            }
        }
        assert forall|i: int| 0 <= i < marks.len() && !marks[i] implies marked(
            #[trigger] marks.update(i, true),
        ) == marked(marks) + 1 by {
            let after = marks.update(i, true);
            if i < shorter.len() {
                assert(after.drop_last() =~= shorter.update(i, true));
                assert(shorter[i] == marks[i]);
            } else {
                assert(after.drop_last() =~= shorter);
            }
        }
    }
}

/// With every mark set, as many are set as there are.
proof fn lemma_all_marked(marks: Seq<bool>)
    requires
        forall|i: int| 0 <= i < marks.len() ==> marks[i],
    ensures
        marked(marks) == marks.len(),
    decreases marks.len(),
{
    if marks.len() != 0 {
        assert(marks[marks.len() - 1]);
        lemma_all_marked(marks.drop_last());
    }
}

/// True when the edge `k` of the list `m` leads from the operator at `a` to the one
/// at `b`.
spec fn edge_at(df: DataflowView, m: int, k: int, a: int, b: int) -> bool {
    &&& is_edge(df, m, k)
    &&& 0 <= a < df.nodes.len()
    &&& 0 <= b < df.nodes.len()
    &&& df.nodes[a].operator_id == df.meta[m].center
    &&& df.nodes[b].operator_id == df.meta[m].neighbors[k]
}

/// True when every edge to the operator at `i` comes from an operator that was
/// taken out.
spec fn node_free(df: DataflowView, taken: Seq<bool>, i: int) -> bool {
    forall|m: int, k: int, a: int| #[trigger] edge_at(df, m, k, a, i) ==> taken[a]
}

/// True when `rank` tells the order in which the operators were taken out: each at
/// a time before `count`, and each only after all from which an edge leads to it.
spec fn taken_in_order(df: DataflowView, taken: Seq<bool>, rank: Seq<int>, count: int) -> bool {
    &&& taken.len() == df.nodes.len()
    &&& rank.len() == df.nodes.len()
    &&& forall|i: int| 0 <= i < taken.len() && taken[i] ==> 0 <= #[trigger] rank[i] < count
    &&& forall|m: int, k: int, a: int, b: int| #[trigger]
        edge_at(df, m, k, a, b) && taken[b] ==> taken[a] && rank[a] < rank[b]
}

/// The place of the operator with the id `id`.
spec fn place_of(nodes: Seq<OperatorInfoView>, id: u32) -> int {
    choose|i: int| 0 <= i < nodes.len() && (#[trigger] nodes[i]).operator_id == id
}

/// When every operator was taken out in order, the dataflow is acyclic.
proof fn lemma_all_taken(df: DataflowView, taken: Seq<bool>, rank: Seq<int>, count: int)
    requires
        edges_resolve(df),
        taken_in_order(df, taken, rank, count),
        forall|i: int| 0 <= i < taken.len() ==> taken[i],
    ensures
        acyclic(df),
{
    let by_id = |id: u32| rank[place_of(df.nodes, id)];
    assert forall|m: int, k: int| #[trigger] is_edge(df, m, k) implies by_id(df.meta[m].center)
        < by_id(df.meta[m].neighbors[k]) by {
        assert(has_node(df.nodes, df.meta[m].center));
        assert(has_node(df.nodes, df.meta[m].neighbors[k]));
        let a = place_of(df.nodes, df.meta[m].center);
        let b = place_of(df.nodes, df.meta[m].neighbors[k]);
        assert(edge_at(df, m, k, a, b));
    }
    assert(ranked(df, by_id));
}

/// True when an edge leads to the operator at `i` from the operator at `a`, which is
/// left.
spec fn feeds_from_left(df: DataflowView, taken: Seq<bool>, a: int, i: int) -> bool {
    exists|m: int, k: int| #[trigger] edge_at(df, m, k, a, i) && !taken[a]
}

/// An operator that is left and from which an edge leads to the operator at `i`.
spec fn feeder(df: DataflowView, taken: Seq<bool>, i: int) -> int {
    choose|a: int| feeds_from_left(df, taken, a, i)
}

/// The walk against the edges that begins at `start` and goes `steps` times to a
/// feeder that is left.
spec fn back_walk(df: DataflowView, taken: Seq<bool>, start: int, steps: nat) -> Seq<int>
    decreases steps,
{
    if steps == 0 {
        seq![start]
    } else {
        let before = back_walk(df, taken, start, (steps - 1) as nat);
        before.push(feeder(df, taken, before.last()))
    }
}

/// Where no operator that is left is free, the walk against the edges never leaves
/// the operators that are left, and each of its steps goes against an edge.
proof fn lemma_back_walk(df: DataflowView, taken: Seq<bool>, start: int, steps: nat)
    requires
        taken.len() == df.nodes.len(),
        0 <= start < taken.len(),
        !taken[start],
        forall|i: int| 0 <= i < taken.len() && !taken[i] ==> !node_free(df, taken, i),
    ensures
        back_walk(df, taken, start, steps).len() == steps + 1,
        forall|t: int|
            0 <= t <= steps ==> 0 <= (#[trigger] back_walk(df, taken, start, steps)[t])
                < taken.len() && !taken[back_walk(df, taken, start, steps)[t]],
        forall|t: int|
            0 <= t < steps ==> feeds_from_left(
                df,
                taken,
                back_walk(df, taken, start, steps)[t + 1],
                #[trigger] back_walk(df, taken, start, steps)[t],
            ),
    decreases steps,
{
    if steps != 0 {
        let before = back_walk(df, taken, start, (steps - 1) as nat);
        lemma_back_walk(df, taken, start, (steps - 1) as nat);
        let last = before[steps - 1];
        assert(!node_free(df, taken, last));
        let (m, k, a) = choose|m: int, k: int, a: int| #[trigger]
            edge_at(df, m, k, a, last) && !taken[a];
        assert(feeds_from_left(df, taken, a, last));
        let next = feeder(df, taken, last);
        assert(feeds_from_left(df, taken, next, last));
        let (m2, k2) = choose|m2: int, k2: int| #[trigger]
            edge_at(df, m2, k2, next, last) && !taken[next];
        assert(edge_at(df, m2, k2, next, last));
        let walk = before.push(next);
        assert forall|t: int| 0 <= t <= steps implies 0 <= (#[trigger] walk[t]) < taken.len()
            && !taken[walk[t]] by {
            if t < steps {
                assert(walk[t] == before[t]);
            }
        }
        assert forall|t: int| 0 <= t < steps implies feeds_from_left(
            df,
            taken,
            walk[t + 1],
            #[trigger] walk[t],
        ) by {
            if t < steps - 1 {
                assert(walk[t] == before[t] && walk[t + 1] == before[t + 1]);
            }
        }
    }
}

/// More places than there are numbers to put in them: two places hold one number.
proof fn lemma_repeats(walk: Seq<int>, n: int) -> (pair: (int, int))
    requires
        0 <= n < walk.len(),
        forall|t: int| 0 <= t < walk.len() ==> 0 <= #[trigger] walk[t] < n,
    ensures
        0 <= pair.0 < pair.1 < walk.len(),
        walk[pair.0] == walk[pair.1],
{
    if walk.no_duplicates() {
        walk.unique_seq_to_set();
        vstd::set_lib::lemma_int_range(0, n);
        let range = vstd::set_lib::set_int_range(0, n);
        assert forall|x: int| walk.to_set().contains(x) implies range.contains(x) by {
            let t = choose|t: int| 0 <= t < walk.len() && walk[t] == x;
            assert(0 <= walk[t] < n);
        }
        vstd::set_lib::lemma_len_subset(walk.to_set(), range);
        assert(false);
    }
    let (i, j) = choose|i: int, j: int|
        0 <= i < walk.len() && 0 <= j < walk.len() && i != j && walk[i] == walk[j];
    if i < j {
        (i, j)
    } else {
        (j, i)
    }
}

/// When operators are left and none of them is free, the dataflow has a cycle.
proof fn lemma_stuck(df: DataflowView, taken: Seq<bool>)
    requires
        taken.len() == df.nodes.len(),
        exists|i: int| 0 <= i < taken.len() && !taken[i],
        forall|i: int| 0 <= i < taken.len() && !taken[i] ==> !node_free(df, taken, i),
    ensures
        has_cycle(df),
{
    let n = taken.len();
    let start = choose|i: int| 0 <= i < taken.len() && !taken[i];
    let walk = back_walk(df, taken, start, n);
    lemma_back_walk(df, taken, start, n);
    let (i, j) = lemma_repeats(walk, n as int);
    let path = Seq::new((j - i + 1) as nat, |t: int| df.nodes[walk[j - t]].operator_id);
    assert forall|t: int| 0 <= t < path.len() - 1 implies has_edge(
        df,
        #[trigger] path[t],
        path[t + 1],
    ) by {
        let to = j - t - 1;
        assert(feeds_from_left(df, taken, walk[to + 1], walk[to]));
        let (m, k) = choose|m: int, k: int| #[trigger]
            edge_at(df, m, k, walk[to + 1], walk[to]) && !taken[walk[to + 1]];
        assert(is_edge(df, m, k));
    }
    assert(is_cycle(df, path));
}

/// The place of the operator `id` among `nodes`, if it is there.
pub fn find_node(nodes: &Vec<OperatorInfo>, id: u32) -> (at: Option<usize>)
    ensures
        match at {
            Some(i) => i < nodes@.len() && nodes@[i as int].operator_id == id && forall|j: int|
                0 <= j < i ==> (#[trigger] nodes@[j]).operator_id != id,
            None => true,
        },
        at is Some <==> has_node(nodes_view(nodes@), id),
{
    let mut i: usize = 0;
    while i < nodes.len()
        invariant
            i <= nodes.len(),
            forall|j: int| 0 <= j < i ==> (#[trigger] nodes@[j]).operator_id != id,
        decreases nodes.len() - i,
    {
        if nodes[i].operator_id == id {
            assert(nodes_view(nodes@)[i as int].operator_id == id);
            return Some(i);
        }
        i += 1;
    }
    assert forall|j: int| 0 <= j < nodes_view(nodes@).len() implies (#[trigger] nodes_view(
        nodes@,
    )[j]).operator_id != id by {
        assert(nodes@[j].operator_id != id);
    }
    None
}

impl OperatorInfo {
    /// True when the operator can run: see [`runnable`].
    pub fn is_runnable(&self) -> (yes: bool)
        ensures
            yes == runnable(self@),
    {
        match &self.details {
            Some(Details::Source) => true,
            Some(Details::Sink) => true,
            Some(Details::Mapper(f)) => f.is_some(),
            Some(Details::Filter(f)) => f.is_some(),
            Some(Details::KeyBy(f)) => f.is_some(),
            Some(Details::Reducer(f)) => f.is_some(),
            Some(Details::FlatMap(f)) => f.is_some(),
            None => false,
        }
    }
}

/// True when `id` is one of `ids`.
pub fn contains_id(ids: &Vec<u32>, id: u32) -> (yes: bool)
    ensures
        yes == ids@.contains(id),
{
    let mut i: usize = 0;
    while i < ids.len()
        invariant
            i <= ids.len(),
            forall|j: int| 0 <= j < i ==> ids@[j] != id,
        decreases ids.len() - i,
    {
        if ids[i] == id {
            return true;
        }
        i += 1;
    }
    false
}

/// True when each id occurs once among `nodes`.
pub fn ids_unique(nodes: &Vec<OperatorInfo>) -> (yes: bool)
    ensures
        yes == unique_ids(nodes_view(nodes@)),
{
    let ghost models = nodes_view(nodes@);
    let mut i: usize = 0;
    while i < nodes.len()
        invariant
            i <= nodes.len(),
            models == nodes_view(nodes@),
            forall|a: int, b: int|
                0 <= a < b < i ==> (#[trigger] models[a]).operator_id != (
                #[trigger] models[b]).operator_id,
        decreases nodes.len() - i,
    {
        match find_node(nodes, nodes[i].operator_id) {
            Some(first) => {
                if first != i {
                    assert(models[first as int].operator_id == models[i as int].operator_id);
                    return false;
                }
                assert forall|a: int| 0 <= a < i implies (#[trigger] models[a]).operator_id
                    != models[i as int].operator_id by {
                    assert(nodes@[a].operator_id != nodes@[i as int].operator_id);
                }
            },
            None => {
                assert(models[i as int].operator_id == nodes@[i as int].operator_id);
                return false;
            },
        }
        i += 1;
    }
    true
}

/// True when every one of `ids` is the id of one of `nodes`.
pub fn ids_resolve(nodes: &Vec<OperatorInfo>, ids: &Vec<u32>) -> (yes: bool)
    ensures
        yes == (forall|k: int| 0 <= k < ids@.len() ==> has_node(nodes_view(nodes@), #[trigger] ids@[k])),
{
    let mut k: usize = 0;
    while k < ids.len()
        invariant
            k <= ids.len(),
            forall|b: int| 0 <= b < k ==> has_node(nodes_view(nodes@), #[trigger] ids@[b]),
        decreases ids.len() - k,
    {
        if find_node(nodes, ids[k]).is_none() {
            return false;
        }
        k += 1;
    }
    true
}

/// True when every operator of `nodes` can run.
pub fn all_runnable(nodes: &Vec<OperatorInfo>) -> (yes: bool)
    ensures
        yes == (forall|i: int|
            0 <= i < nodes@.len() ==> runnable(#[trigger] nodes_view(nodes@)[i])),
{
    let mut i: usize = 0;
    while i < nodes.len()
        invariant
            i <= nodes.len(),
            forall|a: int| 0 <= a < i ==> runnable(#[trigger] nodes_view(nodes@)[a]),
        decreases nodes.len() - i,
    {
        if !nodes[i].is_runnable() {
            assert(!runnable(nodes_view(nodes@)[i as int]));
            return false;
        }
        i += 1;
    }
    true
}

/// The operators that read what the operator `operator_id` sends on: the neighbors
/// of every adjacency list whose center it is, in order.
pub open spec fn neighbors_of(meta: Seq<DataflowMetaView>, operator_id: u32) -> Seq<u32>
    decreases meta.len(),
{
    if meta.len() == 0 {
        Seq::empty()
    } else if meta.last().center == operator_id {
        neighbors_of(meta.drop_last(), operator_id) + meta.last().neighbors
    } else {
        neighbors_of(meta.drop_last(), operator_id)
    }
}

impl Dataflow {
    /// The operators that read what the operator `operator_id` sends on.
    pub fn neighbors(&self, operator_id: u32) -> (neighbors: Vec<u32>)
        ensures
            neighbors@ == neighbors_of(self@.meta, operator_id),
    {
        let ghost meta = self@.meta;
        let mut neighbors: Vec<u32> = Vec::new();
        let mut m: usize = 0;
        assert(meta.take(0) =~= Seq::<DataflowMetaView>::empty());
        while m < self.meta.len()
            invariant
                m <= self.meta.len(),
                meta == self@.meta,
                neighbors@ == neighbors_of(meta.take(m as int), operator_id),
            decreases self.meta.len() - m,
        {
            assert(meta.take(m + 1).drop_last() =~= meta.take(m as int));
            assert(meta[m as int] == self.meta@[m as int]@);
            if self.meta[m].center == operator_id {
                let ghost before = neighbors@;
                let mut k: usize = 0;
                while k < self.meta[m].neighbors.len()
                    invariant
                        m < self.meta.len(),
                        k <= self.meta@[m as int].neighbors@.len(),
                        neighbors@ == before + self.meta@[m as int].neighbors@.take(k as int),
                    decreases self.meta@[m as int].neighbors@.len() - k,
                {
                    neighbors.push(self.meta[m].neighbors[k]);
                    assert(self.meta@[m as int].neighbors@.take(k + 1)
                        =~= self.meta@[m as int].neighbors@.take(k as int).push(
                        self.meta@[m as int].neighbors@[k as int],
                    ));
                    k += 1;
                }
                assert(self.meta@[m as int].neighbors@.take(k as int)
                    =~= self.meta@[m as int].neighbors@);
            }
            m += 1;
        }
        assert(meta.take(m as int) =~= meta);
        neighbors
    }

    /// True when the operator `operator_id` is one of this dataflow's own: an edge to
    /// it stays on the worker of a subdataflow, an edge to any other leaves the worker.
    pub fn is_local(&self, operator_id: u32) -> (yes: bool)
        ensures
            yes == has_node(self@.nodes, operator_id),
    {
        find_node(&self.nodes, operator_id).is_some()
    }

    /// True when every operator that the adjacency lists name is among the operators.
    pub fn edges_resolved(&self) -> (yes: bool)
        ensures
            yes == edges_resolve(self@),
    {
        let mut m: usize = 0;
        while m < self.meta.len()
            invariant
                m <= self.meta.len(),
                forall|a: int|
                    0 <= a < m ==> has_node(self@.nodes, (#[trigger] self@.meta[a]).center)
                        && forall|k: int|
                        0 <= k < self@.meta[a].neighbors.len() ==> has_node(
                            self@.nodes,
                            #[trigger] self@.meta[a].neighbors[k],
                        ),
            decreases self.meta.len() - m,
        {
            assert(self@.meta[m as int] == self.meta@[m as int]@);
            if find_node(&self.nodes, self.meta[m].center).is_none() {
                return false;
            }
            if !ids_resolve(&self.nodes, &self.meta[m].neighbors) {
                proof {
                    let k = choose|k: int|
                        0 <= k < self.meta@[m as int].neighbors@.len() && !has_node(
                            nodes_view(self.nodes@),
                            #[trigger] self.meta@[m as int].neighbors@[k],
                        );
                    assert(!has_node(self@.nodes, self@.meta[m as int].neighbors[k]));
                }
                return false;
            }
            m += 1;
        }
        true
    }

    /// True when every edge to the operator at `i` comes from an operator that was
    /// taken out.
    fn is_free(&self, taken: &Vec<bool>, i: usize) -> (free: bool)
        requires
            taken@.len() == self.nodes@.len(),
            i < self.nodes@.len(),
            edges_resolve(self@),
            unique_ids(self@.nodes),
        ensures
            free == node_free(self@, taken@, i as int),
    {
        let ghost df = self@;
        let id = self.nodes[i].operator_id;
        let mut m: usize = 0;
        while m < self.meta.len()
            invariant
                m <= self.meta.len(),
                df == self@,
                taken@.len() == self.nodes@.len(),
                i < self.nodes@.len(),
                id == self.nodes@[i as int].operator_id,
                edges_resolve(df),
                unique_ids(df.nodes),
                forall|m2: int, k: int, a: int|
                    m2 < m && #[trigger] edge_at(df, m2, k, a, i as int) ==> taken@[a],
            decreases self.meta.len() - m,
        {
            assert(df.meta[m as int] == self.meta@[m as int]@);
            let mut k: usize = 0;
            while k < self.meta[m].neighbors.len()
                invariant
                    m < self.meta.len(),
                    k <= self.meta@[m as int].neighbors@.len(),
                    df == self@,
                    taken@.len() == self.nodes@.len(),
                    i < self.nodes@.len(),
                    id == self.nodes@[i as int].operator_id,
                    edges_resolve(df),
                    unique_ids(df.nodes),
                    forall|m2: int, k2: int, a: int|
                        m2 < m && #[trigger] edge_at(df, m2, k2, a, i as int) ==> taken@[a],
                    forall|k2: int, a: int|
                        k2 < k && #[trigger] edge_at(df, m as int, k2, a, i as int) ==> taken@[a],
                decreases self.meta@[m as int].neighbors@.len() - k,
            {
                assert(df.meta[m as int] == self.meta@[m as int]@);
                if self.meta[m].neighbors[k] == id {
                    match find_node(&self.nodes, self.meta[m].center) {
                        Some(from) => {
                            assert(df.nodes[from as int] == self.nodes@[from as int]@);
                            assert(df.nodes[i as int] == self.nodes@[i as int]@);
                            if !taken[from] {
                                assert(edge_at(df, m as int, k as int, from as int, i as int));
                                return false;
                            }
                            assert forall|a: int| #[trigger]
                                edge_at(df, m as int, k as int, a, i as int) implies taken@[a] by {
                                if a != from {
                                    if a < from {
                                        assert(df.nodes[a].operator_id != df.nodes[from as int].operator_id);
                                    } else {
                                        assert(df.nodes[from as int].operator_id != df.nodes[a].operator_id);
                                    }
                                }
                            }
                        },
                        None => {
                            assert(is_edge(df, m as int, k as int));
                            assert(has_node(df.nodes, df.meta[m as int].center));
                        },
                    }
                } else {
                    assert forall|a: int| #[trigger]
                        edge_at(df, m as int, k as int, a, i as int) implies taken@[a] by {
                        assert(df.nodes[i as int] == self.nodes@[i as int]@);
                    }
                }
                k += 1;
            }
            m += 1;
        }
        true
    }

    /// The place of an operator that is left and free, if there is one.
    fn find_free(&self, taken: &Vec<bool>) -> (found: Option<usize>)
        requires
            taken@.len() == self.nodes@.len(),
            edges_resolve(self@),
            unique_ids(self@.nodes),
        ensures
            match found {
                Some(i) => i < taken@.len() && !taken@[i as int] && node_free(
                    self@,
                    taken@,
                    i as int,
                ),
                None => forall|i: int|
                    0 <= i < taken@.len() && !taken@[i] ==> !node_free(self@, taken@, i),
            },
    {
        let mut i: usize = 0;
        while i < self.nodes.len()
            invariant
                i <= self.nodes.len(),
                taken@.len() == self.nodes@.len(),
                edges_resolve(self@),
                unique_ids(self@.nodes),
                forall|j: int| 0 <= j < i && !taken@[j] ==> !node_free(self@, taken@, j),
            decreases self.nodes.len() - i,
        {
            if !taken[i] && self.is_free(taken, i) {
                return Some(i);
            }
            i += 1;
        }
        None
    }

    /// True when the dataflow has no cycle. Operators to which no edge leads from an
    /// operator that is left are taken out one by one. When none is left in the end,
    /// the order in which they went ranks them; when some are left and none of them
    /// is free, a walk against the edges among them comes back to where it was.
    fn has_no_cycle(&self) -> (yes: bool)
        requires
            edges_resolve(self@),
            unique_ids(self@.nodes),
        ensures
            yes == !has_cycle(self@),
            yes == acyclic(self@),
    {
        let ghost df = self@;
        let n = self.nodes.len();
        let mut taken: Vec<bool> = Vec::new();
        let mut i: usize = 0;
        while i < n
            invariant
                i <= n,
                taken@.len() == i,
                forall|j: int| 0 <= j < i ==> !taken@[j],
                marked(taken@) == 0,
            decreases n - i,
        {
            let ghost before = taken@;
            taken.push(false);
            assert(taken@.drop_last() =~= before);
            i += 1;
        }
        let ghost mut rank: Seq<int> = Seq::new(n as nat, |i: int| 0);
        let mut count: usize = 0;
        while count < n
            invariant
                n == self.nodes@.len(),
                df == self@,
                edges_resolve(df),
                unique_ids(df.nodes),
                count <= n,
                count == marked(taken@),
                taken_in_order(df, taken@, rank, count as int),
            decreases n - count,
        {
            proof {
                lemma_marked(taken@);
            }
            match self.find_free(&taken) {
                Some(free) => {
                    proof {
                        let before = taken@;
                        let after = before.update(free as int, true);
                        let ranks = rank.update(free as int, count as int);
                        assert forall|m: int, k: int, a: int, b: int| #[trigger]
                            edge_at(df, m, k, a, b) && after[b] implies after[a] && ranks[a]
                            < ranks[b] by {
                            if b == free {
                                assert(before[a]);
                            } else {
                                assert(before[b]);
                            }
                        }
                        rank = ranks;
                    }
                    taken.set(free, true);
                    count += 1;
                },
                None => {
                    proof {
                        if forall|i: int| 0 <= i < taken@.len() ==> taken@[i] {
                            lemma_all_marked(taken@);
                        }
                        lemma_stuck(df, taken@);
                        if acyclic(df) {
                            lemma_acyclic_no_cycle(df);
                        }
                    }
                    return false;
                },
            }
        }
        proof {
            lemma_marked(taken@);
            lemma_all_taken(df, taken@, rank, count as int);
            lemma_acyclic_no_cycle(df);
        }
        true
    }

    /// True when the dataflow has an edge from the operator `from` to the operator `to`.
    pub fn edge_exists(&self, from: u32, to: u32) -> (yes: bool)
        ensures
            yes == has_edge(self@, from, to),
    {
        let ghost df = self@;
        let mut m: usize = 0;
        while m < self.meta.len()
            invariant
                m <= self.meta.len(),
                df == self@,
                forall|m2: int, k: int|
                    m2 < m && #[trigger] is_edge(df, m2, k) ==> !(df.meta[m2].center == from
                        && df.meta[m2].neighbors[k] == to),
            decreases self.meta.len() - m,
        {
            assert(df.meta[m as int] == self.meta@[m as int]@);
            if self.meta[m].center == from && contains_id(&self.meta[m].neighbors, to) {
                proof {
                    let k = choose|k: int|
                        0 <= k < self.meta@[m as int].neighbors@.len()
                            && self.meta@[m as int].neighbors@[k] == to;
                    assert(is_edge(df, m as int, k));
                }
                return true;
            }
            m += 1;
        }
        false
    }

    /// True when the upstreams of every operator are the operators from which an edge
    /// leads to it.
    pub fn upstreams_matched(&self) -> (yes: bool)
        ensures
            yes == upstreams_match(self@),
    {
        let ghost df = self@;
        let mut b: usize = 0;
        while b < self.nodes.len()
            invariant
                b <= self.nodes.len(),
                df == self@,
                forall|b2: int, u: int|
                    b2 < b && #[trigger] is_upstream(df, b2, u) ==> has_edge(
                        df,
                        df.nodes[b2].upstreams[u],
                        df.nodes[b2].operator_id,
                    ),
            decreases self.nodes.len() - b,
        {
            assert(df.nodes[b as int] == self.nodes@[b as int]@);
            let mut u: usize = 0;
            while u < self.nodes[b].upstreams.len()
                invariant
                    b < self.nodes.len(),
                    u <= self.nodes@[b as int].upstreams@.len(),
                    df == self@,
                    df.nodes[b as int] == self.nodes@[b as int]@,
                    forall|u2: int|
                        u2 < u && #[trigger] is_upstream(df, b as int, u2) ==> has_edge(
                            df,
                            df.nodes[b as int].upstreams[u2],
                            df.nodes[b as int].operator_id,
                        ),
                decreases self.nodes@[b as int].upstreams@.len() - u,
            {
                if !self.edge_exists(self.nodes[b].upstreams[u], self.nodes[b].operator_id) {
                    assert(is_upstream(df, b as int, u as int));
                    return false;
                }
                u += 1;
            }
            b += 1;
        }
        let mut m: usize = 0;
        while m < self.meta.len()
            invariant
                m <= self.meta.len(),
                df == self@,
                forall|m2: int, k: int, b2: int|
                    m2 < m && #[trigger] feeds(df, m2, k, b2) ==> df.nodes[b2].upstreams.contains(
                        df.meta[m2].center,
                    ),
            decreases self.meta.len() - m,
        {
            assert(df.meta[m as int] == self.meta@[m as int]@);
            let mut k: usize = 0;
            while k < self.meta[m].neighbors.len()
                invariant
                    m < self.meta.len(),
                    k <= self.meta@[m as int].neighbors@.len(),
                    df == self@,
                    df.meta[m as int] == self.meta@[m as int]@,
                    forall|k2: int, b2: int|
                        k2 < k && #[trigger] feeds(df, m as int, k2, b2) ==> df.nodes[b2].upstreams.contains(
                            df.meta[m as int].center,
                        ),
                decreases self.meta@[m as int].neighbors@.len() - k,
            {
                let mut b: usize = 0;
                while b < self.nodes.len()
                    invariant
                        m < self.meta.len(),
                        k < self.meta@[m as int].neighbors@.len(),
                        b <= self.nodes.len(),
                        df == self@,
                        df.meta[m as int] == self.meta@[m as int]@,
                        forall|b2: int|
                            b2 < b && #[trigger] feeds(df, m as int, k as int, b2)
                                ==> df.nodes[b2].upstreams.contains(df.meta[m as int].center),
                    decreases self.nodes.len() - b,
                {
                    assert(df.nodes[b as int] == self.nodes@[b as int]@);
                    if self.nodes[b].operator_id == self.meta[m].neighbors[k] && !contains_id(
                        &self.nodes[b].upstreams,
                        self.meta[m].center,
                    ) {
                        assert(feeds(df, m as int, k as int, b as int));
                        return false;
                    }
                    b += 1;
                }
                k += 1;
            }
            m += 1;
        }
        true
    }

    /// Checks the dataflow as it is submitted: it has operators, each id once, every
    /// edge between operators that it has, every operator can run, the edges do not
    /// go round in a circle, and the upstreams of the operators are as the edges say.
    pub fn validate(&self) -> (checked: Result<(), InvalidDataflow>)
        ensures
            checked == match fault_of(self@) {
                Some(fault) => Err::<(), InvalidDataflow>(fault),
                None => Ok::<(), InvalidDataflow>(()),
            },
    {
        if self.nodes.len() == 0 {
            Err(InvalidDataflow::NoOperators)
        } else if !ids_unique(&self.nodes) {
            Err(InvalidDataflow::DuplicateOperator)
        } else if !self.edges_resolved() {
            Err(InvalidDataflow::MissingOperator)
        } else if !all_runnable(&self.nodes) {
            Err(InvalidDataflow::UnsupportedOperator)
        } else if !self.has_no_cycle() {
            Err(InvalidDataflow::Cyclic)
        } else if !self.upstreams_matched() {
            Err(InvalidDataflow::InconsistentUpstreams)
        } else {
            Ok(())
        }
    }
}

} // verus!

//! The call graph of a handler: which computations are invoked, which values
//! come from outside, where control forks on a result, and which value goes
//! where.

use crate::component::ComponentDb;
use crate::component::ComponentId;
use crate::language::TypeView;
use crate::language::ResolvedType;
use crate::shape::at_rest;
use crate::shape::edges_within;
use crate::shape::fits;
use crate::shape::fresh_walk;
use crate::shape::incoming;
use crate::shape::nodes_within;
use crate::shape::post_order_new;
use crate::shape::post_order_next;
use crate::shape::post_order_next_reversed;
use crate::shape::leads;
use crate::shape::predecessor_lists;
use crate::shape::reached_from;
use crate::shape::reaches;
use crate::shape::shape_add_edge;
use crate::shape::shape_add_node;
use crate::shape::shape_edges;
use crate::shape::shape_incoming;
use crate::shape::shape_new;
use crate::shape::shape_node_count;
use crate::shape::shape_successors;
use crate::shape::step_node;
use crate::shape::step_walk;
use crate::shape::successor_lists;
use crate::shape::successors;
use crate::shape::walk_at;
use crate::shape::walk_of;
use crate::shape::without_cycle;
use crate::shape::PostOrder;
use crate::shape::Shape;
use crate::shape::Walk;
use vstd::prelude::*;
use vstd::set_lib::lemma_int_range;
use vstd::set_lib::lemma_len_subset;
use vstd::set_lib::lemma_subset_equality;
use vstd::set_lib::set_int_range;

verus! {

/// How often the value of a node may be computed in one handler.
#[derive(Clone, Copy, Debug, PartialEq, Eq, Hash, Structural)]
pub enum NumberOfAllowedInvocations {
    /// Once: the value is bound to a variable, and its users share it.
    Single,
    /// As often as it is used: the computation is repeated for each user.
    Multiple,
}

/// A node of a call graph.
#[derive(Clone, Debug, PartialEq, Eq, Hash)]
pub enum CallGraphNode {
    /// The invocation of a constructor, a handler or a transformer.
    Compute { component_id: ComponentId, n_allowed_invocations: NumberOfAllowedInvocations },
    /// A value that the caller of the generated handler supplies.
    InputParameter(ResolvedType),
    /// The fork on the result of a fallible node.
    MatchBranching,
}

/// A [`CallGraphNode`] as the verifier sees it.
pub enum NodeView {
    Compute { component_id: ComponentId, n_allowed_invocations: NumberOfAllowedInvocations },
    InputParameter(TypeView),
    MatchBranching,
}

impl View for CallGraphNode {
    type V = NodeView;

    open spec fn view(&self) -> NodeView {
        match self {
            CallGraphNode::Compute { component_id, n_allowed_invocations } => NodeView::Compute {
                component_id: *component_id,
                n_allowed_invocations: *n_allowed_invocations,
            },
            CallGraphNode::InputParameter(type_) => NodeView::InputParameter(type_@),
            CallGraphNode::MatchBranching => NodeView::MatchBranching,
        }
    }
}

/// How the value that an edge carries is handed to its user.
#[derive(Clone, Copy, Debug, PartialEq, Eq, Hash, Structural)]
pub enum CallGraphEdgeMetadata {
    /// The user takes the value itself.
    Move,
    /// The user takes a shared reference to the value.
    SharedBorrow,
}

/// Nodes and edges, not yet tied to a root. Nodes are numbered from zero in
/// the order in which they were added, and so are edges.
pub struct RawCallGraph {
    nodes: Vec<CallGraphNode>,
    edge_metadata: Vec<CallGraphEdgeMetadata>,
    shape: Shape,
}

/// An edge that enters a node: where it comes from and how it hands its value
/// over.
#[derive(Clone, Copy, Debug, PartialEq, Eq, Structural)]
pub struct IncomingEdge {
    pub source: usize,
    pub metadata: CallGraphEdgeMetadata,
}

/// The order in which a walk over `neighbors` hands out nodes, from the state
/// `walk` on and for at most `fuel` nodes.
pub open spec fn visit_order(neighbors: Seq<Seq<int>>, walk: Walk, fuel: nat) -> Seq<int>
    decreases fuel,
{
    if fuel == 0 {
        Seq::empty()
    } else {
        match step_node(neighbors, walk) {
            Some(node) => seq![node] + visit_order(
                neighbors,
                step_walk(neighbors, walk),
                (fuel - 1) as nat,
            ),
            None => Seq::empty(),
        }
    }
}

/// The state in which a walk over `neighbors` is left once it has handed out
/// [`visit_order`].
pub open spec fn walk_after(neighbors: Seq<Seq<int>>, walk: Walk, fuel: nat) -> Walk
    decreases fuel,
{
    if fuel == 0 {
        walk
    } else {
        match step_node(neighbors, walk) {
            Some(_) => walk_after(neighbors, step_walk(neighbors, walk), (fuel - 1) as nat),
            None => step_walk(neighbors, walk),
        }
    }
}

/// What holds of the nodes `order` that a walk over `neighbors` hands out from
/// the state `walk` on: none twice, none that was finished before, and each
/// reached from a node that was on the stack.
pub open spec fn handed_out(neighbors: Seq<Seq<int>>, walk: Walk, order: Seq<int>) -> bool {
    &&& order.no_duplicates()
    &&& forall|k: int|
        0 <= k < order.len() ==> !walk.finished.contains(#[trigger] order[k]) && reached_from(
            neighbors,
            walk.stack,
            order[k],
        )
}

/// The nodes of `order` come after what they lead to: each neighbour of a
/// node of `order` comes before that node, or is one of `finished`.
pub open spec fn in_post_order(neighbors: Seq<Seq<int>>, finished: Set<int>, order: Seq<int>) -> bool {
    forall|i: int, k: int|
        0 <= i < order.len() && 0 <= order[i] < neighbors.len() && 0 <= k
            < neighbors[order[i]].len() ==> finished.contains(#[trigger] neighbors[order[i]][k])
            || order.take(i).contains(neighbors[order[i]][k])
}

/// Where a walk over `neighbors` without cycle begins in `walk`, at rest, the
/// nodes `order` that it hands out come after what they lead to.
pub open spec fn comes_in_post_order(neighbors: Seq<Seq<int>>, walk: Walk, order: Seq<int>) -> bool {
    at_rest(walk, neighbors.len()) && without_cycle(neighbors) ==> in_post_order(
        neighbors,
        walk.finished,
        order,
    )
}

/// A sequence that holds `count` different nodes of the first `count` holds
/// each of them.
pub proof fn lemma_holds_every_node(order: Seq<int>, count: nat, node: int)
    requires
        order.no_duplicates(),
        order.len() == count,
        nodes_within(order, count),
        0 <= node < count,
    ensures
        order.contains(node),
{
    let held = order.to_set();
    let all = set_int_range(0, count as int);
    order.unique_seq_to_set();
    lemma_int_range(0, count as int);
    assert(held.subset_of(all)) by {
        assert forall|x: int| held.contains(x) implies all.contains(x) by {
            let k = choose|k: int| 0 <= k < order.len() && order[k] == x;
            assert(0 <= order[k] < count);
        }
    }
    lemma_len_subset(held, all);
    lemma_subset_equality(held, all);
    assert(all.contains(node));
}

/// Every node on the stack of `walk` is finished.
pub open spec fn all_finished(walk: Walk) -> bool {
    forall|i: int| 0 <= i < walk.stack.len() ==> walk.finished.contains(#[trigger] walk.stack[i])
}

/// From a node without neighbours nothing is reached but the node itself.
pub proof fn lemma_reaches_nothing(neighbors: Seq<Seq<int>>, from: int, to: int)
    requires
        reaches(neighbors, from, to),
        0 <= from < neighbors.len() ==> neighbors[from].len() == 0,
    ensures
        to == from,
{
    let walk = choose|walk: Seq<int>| leads(neighbors, walk, from, to);
    if walk.len() > 1 {
        assert(0 <= walk[0] < neighbors.len() && neighbors[walk[0]].contains(walk[1]));
    }
}

/// Every node is reached from itself.
pub proof fn lemma_reaches_itself(neighbors: Seq<Seq<int>>, node: int)
    ensures
        reaches(neighbors, node, node),
{
    assert(leads(neighbors, seq![node], node, node));
}

/// What is reached from a node that is reached is reached.
pub proof fn lemma_reaches_on(neighbors: Seq<Seq<int>>, from: int, by: int, to: int)
    requires
        reaches(neighbors, from, by),
        reaches(neighbors, by, to),
    ensures
        reaches(neighbors, from, to),
{
    let first = choose|walk: Seq<int>| leads(neighbors, walk, from, by);
    let second = choose|walk: Seq<int>| leads(neighbors, walk, by, to);
    let whole = first + second.drop_first();
    assert forall|k: int| 0 <= k < whole.len() - 1 implies 0 <= #[trigger] whole[k]
        < neighbors.len() && neighbors[whole[k]].contains(whole[k + 1]) by {
        if k < first.len() - 1 {
            assert(whole[k] == first[k] && whole[k + 1] == first[k + 1]);
        } else {
            let j = k - first.len() + 1;
            assert(whole[k] == second[j]);
            assert(whole[k + 1] == second[j + 1]);
        }
    }
    assert(leads(neighbors, whole, from, to));
}

/// What is reached from a stack whose nodes are reached from an earlier stack
/// is reached from the earlier stack.
pub proof fn lemma_reached_through(
    neighbors: Seq<Seq<int>>,
    first: Seq<int>,
    second: Seq<int>,
    node: int,
)
    requires
        forall|j: int| 0 <= j < second.len() ==> reached_from(neighbors, first, #[trigger] second[j]),
        reached_from(neighbors, second, node),
    ensures
        reached_from(neighbors, first, node),
{
    let j = choose|j: int| 0 <= j < second.len() && reaches(neighbors, #[trigger] second[j], node);
    assert(reached_from(neighbors, first, second[j]));
    let i = choose|i: int| 0 <= i < first.len() && reaches(neighbors, #[trigger] first[i], second[j]);
    lemma_reaches_on(neighbors, first[i], second[j], node);
}

/// A call graph as the verifier sees it: the nodes, the edges as `(source,
/// target)` and what each edge says of how its value is handed over, all in
/// the order in which they were added.
pub struct GraphView {
    pub nodes: Seq<NodeView>,
    pub edges: Seq<(int, int)>,
    pub edge_metadata: Seq<CallGraphEdgeMetadata>,
}

impl GraphView {
    /// The successors of each node, as a walk along the edges meets them.
    pub open spec fn successor_lists(self) -> Seq<Seq<int>> {
        successor_lists(self.edges, self.nodes.len())
    }

    /// The predecessors of each node, as a walk against the edges meets them.
    pub open spec fn predecessor_lists(self) -> Seq<Seq<int>> {
        predecessor_lists(self.edges, self.nodes.len())
    }

    /// The neighbours of each node as a walk meets them: its predecessors
    /// where the walk goes against the edges, else its successors.
    pub open spec fn neighbor_lists(self, reversed: bool) -> Seq<Seq<int>> {
        if reversed {
            self.predecessor_lists()
        } else {
            self.successor_lists()
        }
    }

    /// The edges that enter `node`, the edge added last first.
    pub open spec fn incoming_edges(self, node: int) -> Seq<IncomingEdge> {
        incoming(self.edges, node).map_values(
            |e: (int, int)| IncomingEdge { source: e.0 as usize, metadata: self.edge_metadata[e.1] },
        )
    }

    /// Every invocation among the nodes is that of one of the first
    /// `components` components.
    pub open spec fn refers_to(self, components: nat) -> bool {
        forall|i: int|
            0 <= i < self.nodes.len() ==> (#[trigger] self.nodes[i]
                matches NodeView::Compute { component_id, .. } ==> component_id.0 < components)
    }
}

impl View for RawCallGraph {
    type V = GraphView;

    open spec fn view(&self) -> GraphView {
        GraphView {
            nodes: self.nodes(),
            edges: self.edges(),
            edge_metadata: self.edge_metadata(),
        }
    }
}

/// `nodes` as mathematical integers.
pub open spec fn as_ints(nodes: Seq<usize>) -> Seq<int> {
    nodes.map_values(|n: usize| n as int)
}

impl RawCallGraph {
    /// The nodes, in the order in which they were added.
    pub closed spec fn nodes(&self) -> Seq<NodeView> {
        self.nodes@.map_values(|n: CallGraphNode| n@)
    }

    /// The edges as `(source, target)`, in the order in which they were added.
    pub closed spec fn edges(&self) -> Seq<(int, int)> {
        shape_edges(self.shape)
    }

    /// What each edge says of how its value is handed over.
    pub closed spec fn edge_metadata(&self) -> Seq<CallGraphEdgeMetadata> {
        self.edge_metadata@
    }

    /// The graph is consistent: each edge has its metadata and joins two nodes
    /// of the graph.
    pub closed spec fn wf(&self) -> bool {
        &&& shape_node_count(self.shape) == self.nodes@.len()
        &&& self.edge_metadata@.len() == shape_edges(self.shape).len()
        &&& edges_within(shape_edges(self.shape), self.nodes@.len())
        &&& self.nodes@.len() <= u32::MAX
        &&& self.edge_metadata@.len() <= u32::MAX
    }

    /// `walk` can go on over this graph.
    pub closed spec fn admits(&self, walk: PostOrder) -> bool {
        fits(walk, shape_node_count(self.shape))
    }

    /// What a consistent graph keeps to: each edge has its metadata and joins
    /// two nodes of the graph, and nodes and edges are within what `u32`
    /// counts.
    pub proof fn lemma_wf(&self)
        requires
            self.wf(),
        ensures
            edges_within(self@.edges, self@.nodes.len()),
            self@.edge_metadata.len() == self@.edges.len(),
            self@.nodes.len() <= u32::MAX,
            self@.edges.len() <= u32::MAX,
    {
    }

    /// A graph without nodes.
    pub fn new() -> (graph: RawCallGraph)
        ensures
            graph.wf(),
            graph.nodes() == Seq::<NodeView>::empty(),
            graph.edges() == Seq::<(int, int)>::empty(),
            graph.edge_metadata() == Seq::<CallGraphEdgeMetadata>::empty(),
    {
        RawCallGraph { nodes: Vec::new(), edge_metadata: Vec::new(), shape: shape_new() }
    }

    /// The number of nodes.
    pub fn node_count(&self) -> (count: usize)
        ensures
            count == self.nodes().len(),
    {
        self.nodes.len()
    }

    /// The number of edges.
    pub fn edge_count(&self) -> (count: usize)
        ensures
            count == self.edge_metadata().len(),
    {
        self.edge_metadata.len()
    }

    /// The node with the index `index`.
    pub fn node(&self, index: usize) -> (node: &CallGraphNode)
        requires
            index < self.nodes().len(),
        ensures
            node@ == self.nodes()[index as int],
    {
        &self.nodes[index]
    }

    /// Adds `node` and returns its index; `None`, and nothing added, where the
    /// graph holds `u32::MAX` nodes already.
    pub fn add_node(&mut self, node: CallGraphNode) -> (index: Option<usize>)
        requires
            old(self).wf(),
        ensures
            final(self).wf(),
            final(self).edges() == old(self).edges(),
            final(self).edge_metadata() == old(self).edge_metadata(),
            old(self).nodes().len() < u32::MAX ==> index == Some(old(self).nodes().len() as usize)
                && final(self).nodes() == old(self).nodes().push(node@),
            old(self).nodes().len() >= u32::MAX ==> index is None && final(self).nodes() == old(
                self,
            ).nodes(),
    {
        if self.nodes.len() >= u32::MAX as usize {
            return None;
        }
        let index = shape_add_node(&mut self.shape);
        self.nodes.push(node);
        Some(index)
    }

    /// Adds an edge from `source` to `target` and returns its index; `None`,
    /// and nothing added, where one of the two is no node of the graph or the
    /// graph holds `u32::MAX` edges already.
    pub fn add_edge(&mut self, source: usize, target: usize, metadata: CallGraphEdgeMetadata) -> (index:
        Option<usize>)
        requires
            old(self).wf(),
        ensures
            final(self).wf(),
            final(self).nodes() == old(self).nodes(),
            index is Some <==> source < old(self).nodes().len() && target < old(self).nodes().len()
                && old(self).edges().len() < u32::MAX,
            index is Some ==> {
                &&& index == Some(old(self).edges().len() as usize)
                &&& final(self).edges() == old(self).edges().push((source as int, target as int))
                &&& final(self).edge_metadata() == old(self).edge_metadata().push(metadata)
            },
            index is None ==> {
                &&& final(self).edges() == old(self).edges()
                &&& final(self).edge_metadata() == old(self).edge_metadata()
            },
    {
        if source >= self.nodes.len() || target >= self.nodes.len() || self.edge_metadata.len()
            >= u32::MAX as usize {
            return None;
        }
        let index = shape_add_edge(&mut self.shape, source, target);
        self.edge_metadata.push(metadata);
        Some(index)
    }

    /// The targets of the edges that leave `node`, the edge added last first.
    pub fn successors(&self, node: usize) -> (targets: Vec<usize>)
        requires
            self.wf(),
            node < self.nodes().len(),
        ensures
            as_ints(targets@) == successors(self.edges(), node as int),
            forall|i: int| 0 <= i < targets@.len() ==> targets@[i] < self.nodes().len(),
    {
        let targets = shape_successors(&self.shape, node);
        proof {
            lemma_successors_within(self.edges(), self.nodes().len(), node as int);
            assert forall|i: int| 0 <= i < targets@.len() implies targets@[i] < self.nodes().len() by {
                assert(as_ints(targets@)[i] == targets@[i] as int);
            }
        }
        targets
    }

    /// The edges that enter `node`, the edge added last first.
    pub fn incoming(&self, node: usize) -> (edges: Vec<IncomingEdge>)
        requires
            self.wf(),
            node < self.nodes().len(),
        ensures
            edges@ == self@.incoming_edges(node as int),
            forall|i: int| 0 <= i < edges@.len() ==> (#[trigger] edges@[i]).source < self.nodes().len(),
    {
        let raw = shape_incoming(&self.shape, node);
        let ghost expected = incoming(self.edges(), node as int);
        let ghost raw_ints = raw@.map_values(|e: (usize, usize)| (e.0 as int, e.1 as int));
        proof {
            lemma_incoming_within(self.edges(), self.nodes().len(), node as int);
            assert(raw_ints.len() == raw@.len());
        }
        let mut edges: Vec<IncomingEdge> = Vec::new();
        let mut i: usize = 0;
        while i < raw.len()
            invariant
                self.wf(),
                i <= raw.len(),
                raw_ints == raw@.map_values(|e: (usize, usize)| (e.0 as int, e.1 as int)),
                raw_ints == expected,
                expected == incoming(self.edges(), node as int),
                forall|k: int|
                    0 <= k < expected.len() ==> 0 <= (#[trigger] expected[k]).0 < self.nodes().len()
                        && 0 <= expected[k].1 < self.edges().len(),
                edges@.len() == i,
                forall|k: int|
                    0 <= k < i ==> #[trigger] edges@[k] == self@.incoming_edges(node as int)[k],
            decreases raw.len() - i,
        {
            let (source, edge) = raw[i];
            proof {
                assert(raw_ints[i as int] == (source as int, edge as int));
                assert(expected[i as int] == (source as int, edge as int));
            }
            edges.push(IncomingEdge { source, metadata: self.edge_metadata[edge] });
            i = i + 1;
        }
        proof {
            assert(edges@ =~= self@.incoming_edges(node as int));
            assert forall|k: int| 0 <= k < edges@.len() implies (#[trigger] edges@[k]).source
                < self.nodes().len() by {
                assert(expected[k].0 < self.nodes().len());
            }
        }
        edges
    }

    /// A walk that has seen nothing yet and starts at `start`.
    pub fn walk_from(&self, start: usize) -> (walk: PostOrder)
        requires
            self.wf(),
            start < self.nodes().len(),
        ensures
            walk_of(walk) == fresh_walk(start as int),
            self.admits(walk),
    {
        let walk = post_order_new(&self.shape, start);
        proof {
            assert(walk_of(walk).stack =~= seq![start as int]);
        }
        walk
    }

    /// Moves `walk` to `start`: what it has seen stays, and it goes on from
    /// `start`.
    pub fn move_to(&self, walk: &mut PostOrder, start: usize)
        requires
            self.wf(),
            self.admits(*old(walk)),
            start < self.nodes().len(),
        ensures
            self.admits(*final(walk)),
            walk_of(*final(walk)) == crate::shape::moved_to(walk_of(*old(walk)), start as int),
    {
        crate::shape::post_order_move_to(walk, start);
    }

    /// A copy of `walk`.
    pub fn fork(&self, walk: &PostOrder) -> (copy: PostOrder)
        requires
            self.admits(*walk),
        ensures
            self.admits(copy),
            walk_of(copy) == walk_of(*walk),
    {
        crate::shape::post_order_clone(walk)
    }

    /// Lets `walk` run until it has no node left, and returns the nodes in the
    /// order in which it handed them out. The walk goes against the edges where
    /// `reversed` says so, else along them. It takes no more steps than the
    /// graph has nodes: it hands out no node twice.
    fn exhaust(&self, walk: &mut PostOrder, reversed: bool) -> (order: Vec<usize>)
        requires
            self.wf(),
            self.admits(*old(walk)),
        ensures
            self.admits(*final(walk)),
            as_ints(order@) == visit_order(
                self@.neighbor_lists(reversed),
                walk_of(*old(walk)),
                self.nodes().len(),
            ),
            walk_of(*final(walk)) == walk_after(
                self@.neighbor_lists(reversed),
                walk_of(*old(walk)),
                self.nodes().len(),
            ),
            handed_out(self@.neighbor_lists(reversed), walk_of(*old(walk)), as_ints(order@)),
            walk_of(*final(walk)).finished == walk_of(*old(walk)).finished.union(
                as_ints(order@).to_set(),
            ),
            walk_of(*old(walk)).discovered.subset_of(walk_of(*final(walk)).discovered),
            order@.len() == 0 ==> all_finished(walk_of(*old(walk))),
            forall|j: int|
                0 <= j < walk_of(*old(walk)).stack.len() ==> walk_of(*final(walk)).finished.contains(
                    #[trigger] walk_of(*old(walk)).stack[j],
                ),
            comes_in_post_order(
                self@.neighbor_lists(reversed),
                walk_of(*old(walk)),
                as_ints(order@),
            ),
            at_rest(walk_of(*old(walk)), self.nodes().len()) ==> walk_of(*final(walk)).discovered
                == walk_of(*final(walk)).finished,
            forall|i: int| 0 <= i < order@.len() ==> order@[i] < self.nodes().len(),
            order@.len() <= self.nodes().len(),
    {
        let ghost neighbors = self@.neighbor_lists(reversed);
        let ghost start = walk_of(*walk);
        let ghost mut taken: nat = 0;
        let ghost total = visit_order(neighbors, walk_of(*walk), self.nodes().len());
        let ghost end = walk_after(neighbors, walk_of(*walk), self.nodes().len());
        let mut order: Vec<usize> = Vec::new();
        let mut fuel: usize = self.nodes.len();
        let mut done = false;
        proof {
            assert(start.finished.union(as_ints(order@).to_set()) =~= start.finished);
            assert forall|j: int| 0 <= j < start.stack.len() implies reached_from(
                neighbors,
                start.stack,
                #[trigger] start.stack[j],
            ) by {
                lemma_reaches_itself(neighbors, start.stack[j]);
            }
        }
        while fuel > 0
            invariant
                self.wf(),
                self.admits(*walk),
                neighbors == self@.neighbor_lists(reversed),
                start == walk_of(*old(walk)),
                fuel <= self.nodes().len(),
                forall|i: int| 0 <= i < order@.len() ==> order@[i] < self.nodes().len(),
                !done ==> total == as_ints(order@) + visit_order(
                    neighbors,
                    walk_of(*walk),
                    fuel as nat,
                ),
                !done ==> end == walk_after(neighbors, walk_of(*walk), fuel as nat),
                done ==> fuel == 0 && total == as_ints(order@) && end == walk_of(*walk),
                handed_out(neighbors, start, as_ints(order@)),
                walk_of(*walk).finished == start.finished.union(as_ints(order@).to_set()),
                start.discovered.subset_of(walk_of(*walk).discovered),
                !done ==> fuel + order@.len() == self.nodes().len(),
                !done && order@.len() == 0 ==> walk_of(*walk) == start,
                done && order@.len() == 0 ==> all_finished(start),
                neighbors.len() == self.nodes().len(),
                order@.len() <= self.nodes().len(),
                nodes_within(start.stack, self.nodes().len()),
                forall|j: int|
                    0 <= j < start.stack.len() ==> walk_of(*walk).finished.contains(
                        #[trigger] start.stack[j],
                    ) || (!done && walk_of(*walk).stack.contains(start.stack[j])),
                walk_of(*walk) == walk_at(neighbors, start, taken),
                at_rest(start, self.nodes().len()) ==> forall|x: int|
                    walk_of(*walk).discovered.contains(x) && !walk_of(*walk).finished.contains(x)
                        ==> #[trigger] walk_of(*walk).stack.contains(x),
                done ==> walk_of(*walk).stack.len() == 0,
                comes_in_post_order(neighbors, start, as_ints(order@)),
                forall|j: int|
                    0 <= j < walk_of(*walk).stack.len() ==> reached_from(
                        neighbors,
                        start.stack,
                        #[trigger] walk_of(*walk).stack[j],
                    ),
            decreases fuel,
        {
            let ghost before = walk_of(*walk);
            let ghost fuel_before = fuel as nat;
            let ghost so_far = as_ints(order@);
            let next = if reversed {
                post_order_next_reversed(walk, &self.shape)
            } else {
                post_order_next(walk, &self.shape)
            };
            proof {
                assert forall|j: int| 0 <= j < walk_of(*walk).stack.len() implies reached_from(
                    neighbors,
                    start.stack,
                    #[trigger] walk_of(*walk).stack[j],
                ) by {
                    lemma_reached_through(neighbors, start.stack, before.stack, walk_of(*walk).stack[j]);
                }
                assert forall|j: int| 0 <= j < start.stack.len() implies walk_of(
                    *walk,
                ).finished.contains(#[trigger] start.stack[j]) || (next is Some && walk_of(
                    *walk,
                ).stack.contains(start.stack[j])) by {
                    let x = start.stack[j];
                    if !before.finished.contains(x) {
                        let i = choose|i: int| 0 <= i < before.stack.len() && before.stack[i] == x;
                        assert(walk_of(*walk).finished.contains(before.stack[i]) || walk_of(
                            *walk,
                        ).stack.contains(before.stack[i]));
                        if next is None && walk_of(*walk).stack.contains(x) {
                            let k = choose|k: int|
                                0 <= k < walk_of(*walk).stack.len() && walk_of(*walk).stack[k] == x;
                        }
                    }
                }
                assert(walk_at(neighbors, start, taken) == before);
                assert(walk_of(*walk) == step_walk(neighbors, before));
                assert(walk_of(*walk) == walk_at(neighbors, start, taken + 1));
                taken = taken + 1;
            }
            match next {
                Some(node) => {
                    order.push(node);
                    fuel = fuel - 1;
                    proof {
                        let now = as_ints(order@);
                        assert(now =~= so_far + seq![node as int]);
                        assert(so_far + (seq![node as int] + visit_order(
                            neighbors,
                            walk_of(*walk),
                            fuel as nat,
                        )) =~= so_far + seq![node as int] + visit_order(
                            neighbors,
                            walk_of(*walk),
                            fuel as nat,
                        ));
                        lemma_reached_through(neighbors, start.stack, before.stack, node as int);
                        assert(!so_far.contains(node as int)) by {
                            if so_far.contains(node as int) {
                                assert(so_far.to_set().contains(node as int));
                            }
                        }
                        assert(now.to_set() =~= so_far.to_set().insert(node as int)) by {
                            assert forall|x: int| now.to_set().contains(x) <==> so_far.to_set().insert(
                                node as int,
                            ).contains(x) by {
                                if now.contains(x) {
                                    let k = choose|k: int| 0 <= k < now.len() && now[k] == x;
                                    if k < so_far.len() {
                                        assert(so_far[k] == x);
                                    }
                                }
                                if so_far.contains(x) {
                                    let k = choose|k: int| 0 <= k < so_far.len() && so_far[k] == x;
                                    assert(now[k] == x);
                                }
                                assert(now[now.len() - 1] == node as int);
                            }
                        }
                        assert(walk_of(*walk).finished =~= start.finished.union(now.to_set()));
                        assert forall|i: int, j: int|
                            0 <= i < now.len() && 0 <= j < now.len() && i != j implies now[i]
                            != now[j] by {
                            if i < so_far.len() && j < so_far.len() {
                                assert(so_far[i] != so_far[j]);
                            } else if i < so_far.len() {
                                assert(so_far.contains(so_far[i]));
                            } else {
                                assert(so_far.contains(so_far[j]));
                            }
                        }
                        assert forall|k: int| 0 <= k < now.len() implies !start.finished.contains(
                            #[trigger] now[k],
                        ) && reached_from(neighbors, start.stack, now[k]) by {
                            if k < so_far.len() {
                                assert(now[k] == so_far[k]);
                            }
                        }
                        if at_rest(start, neighbors.len()) && without_cycle(neighbors) {
                            assert forall|i: int, k: int|
                                0 <= i < now.len() && 0 <= now[i] < neighbors.len() && 0 <= k
                                    < neighbors[now[i]].len() implies start.finished.contains(
                                #[trigger] neighbors[now[i]][k],
                            ) || now.take(i).contains(neighbors[now[i]][k]) by {
                                let to = neighbors[now[i]][k];
                                if i < so_far.len() {
                                    assert(now[i] == so_far[i]);
                                    assert(now.take(i) =~= so_far.take(i));
                                } else {
                                    assert(now[i] == node as int);
                                    assert(now.take(i) =~= so_far);
                                    assert(walk_of(*walk).finished.contains(to));
                                    if to == node as int {
                                        lemma_reaches_itself(neighbors, to);
                                    }
                                    if !start.finished.contains(to) {
                                        assert(now.to_set().contains(to));
                                        assert(so_far.to_set().contains(to));
                                    }
                                }
                            }
                        }
                    }
                },
                None => {
                    done = true;
                    fuel = 0;
                    proof {
                        assert(step_node(neighbors, before) is None);
                        assert(walk_of(*walk) == step_walk(neighbors, before));
                        assert(visit_order(neighbors, before, fuel_before) =~= Seq::<int>::empty());
                        assert(end == walk_after(neighbors, before, fuel_before));
                        assert(so_far + Seq::<int>::empty() =~= so_far);
                    }
                },
            }
        }
        proof {
            if !done {
                assert(as_ints(order@) + Seq::<int>::empty() =~= as_ints(order@));
                assert forall|j: int| 0 <= j < start.stack.len() implies walk_of(
                    *walk,
                ).finished.contains(#[trigger] start.stack[j]) by {
                    lemma_holds_every_node(as_ints(order@), self.nodes().len(), start.stack[j]);
                    assert(as_ints(order@).to_set().contains(start.stack[j]));
                }
            }
            if at_rest(start, self.nodes().len()) {
                let end = walk_of(*walk);
                assert forall|x: int| end.discovered.contains(x) implies end.finished.contains(x) by {
                    if !end.finished.contains(x) {
                        assert(end.stack.contains(x));
                        let k = choose|k: int| 0 <= k < end.stack.len() && end.stack[k] == x;
                        assert(0 <= end.stack[k] < self.nodes().len());
                        lemma_holds_every_node(as_ints(order@), self.nodes().len(), x);
                        assert(as_ints(order@).to_set().contains(x));
                    }
                }
                assert(end.discovered =~= end.finished);
            }
        }
        order
    }

    /// Lets `walk` run along the edges until it has no node left, and returns
    /// the nodes in the order in which it handed them out: none twice, and,
    /// where the graph has no cycle and the walk began at rest, each after
    /// its successors.
    pub fn drain(&self, walk: &mut PostOrder) -> (order: Vec<usize>)
        requires
            self.wf(),
            self.admits(*old(walk)),
        ensures
            self.admits(*final(walk)),
            as_ints(order@) == visit_order(
                self@.successor_lists(),
                walk_of(*old(walk)),
                self.nodes().len(),
            ),
            walk_of(*final(walk)) == walk_after(
                self@.successor_lists(),
                walk_of(*old(walk)),
                self.nodes().len(),
            ),
            handed_out(self@.successor_lists(), walk_of(*old(walk)), as_ints(order@)),
            comes_in_post_order(self@.successor_lists(), walk_of(*old(walk)), as_ints(order@)),
            at_rest(walk_of(*old(walk)), self.nodes().len()) ==> walk_of(*final(walk)).discovered
                == walk_of(*final(walk)).finished,
            walk_of(*final(walk)).finished == walk_of(*old(walk)).finished.union(
                as_ints(order@).to_set(),
            ),
            walk_of(*old(walk)).discovered.subset_of(walk_of(*final(walk)).discovered),
            order@.len() == 0 ==> all_finished(walk_of(*old(walk))),
            forall|j: int|
                0 <= j < walk_of(*old(walk)).stack.len() ==> walk_of(*final(walk)).finished.contains(
                    #[trigger] walk_of(*old(walk)).stack[j],
                ),
            forall|i: int| 0 <= i < order@.len() ==> order@[i] < self.nodes().len(),
            order@.len() <= self.nodes().len(),
    {
        self.exhaust(walk, false)
    }

    /// Lets `walk` run against the edges until it has no node left, and
    /// returns the nodes in the order in which it handed them out: none twice,
    /// and, where the graph has no cycle and the walk began at rest, each
    /// after its predecessors.
    pub fn drain_reversed(&self, walk: &mut PostOrder) -> (order: Vec<usize>)
        requires
            self.wf(),
            self.admits(*old(walk)),
        ensures
            self.admits(*final(walk)),
            as_ints(order@) == visit_order(
                self@.predecessor_lists(),
                walk_of(*old(walk)),
                self.nodes().len(),
            ),
            walk_of(*final(walk)) == walk_after(
                self@.predecessor_lists(),
                walk_of(*old(walk)),
                self.nodes().len(),
            ),
            handed_out(self@.predecessor_lists(), walk_of(*old(walk)), as_ints(order@)),
            comes_in_post_order(self@.predecessor_lists(), walk_of(*old(walk)), as_ints(order@)),
            at_rest(walk_of(*old(walk)), self.nodes().len()) ==> walk_of(*final(walk)).discovered
                == walk_of(*final(walk)).finished,
            walk_of(*final(walk)).finished == walk_of(*old(walk)).finished.union(
                as_ints(order@).to_set(),
            ),
            walk_of(*old(walk)).discovered.subset_of(walk_of(*final(walk)).discovered),
            order@.len() == 0 ==> all_finished(walk_of(*old(walk))),
            forall|j: int|
                0 <= j < walk_of(*old(walk)).stack.len() ==> walk_of(*final(walk)).finished.contains(
                    #[trigger] walk_of(*old(walk)).stack[j],
                ),
            forall|i: int| 0 <= i < order@.len() ==> order@[i] < self.nodes().len(),
            order@.len() <= self.nodes().len(),
    {
        self.exhaust(walk, true)
    }
}

/// `types` as the verifier sees them.
pub open spec fn as_types(types: Seq<&ResolvedType>) -> Seq<TypeView> {
    types.map_values(|t: &ResolvedType| t@)
}

/// `position` is where `type_` occurs first in `types`.
pub open spec fn is_first_position(types: Seq<TypeView>, type_: TypeView, position: int) -> bool {
    &&& 0 <= position < types.len()
    &&& types[position] == type_
    &&& forall|j: int| 0 <= j < position ==> #[trigger] types[j] != type_
}

/// Where `type_` occurs first in `types`, if it occurs.
pub open spec fn type_position(types: Seq<TypeView>, type_: TypeView) -> Option<int> {
    if exists|i: int| is_first_position(types, type_, i) {
        Some(choose|i: int| is_first_position(types, type_, i))
    } else {
        None
    }
}

/// The types of the input parameters among `nodes`, each once, in the order in
/// which the nodes first name them.
pub open spec fn required_inputs(nodes: Seq<NodeView>) -> Seq<TypeView>
    decreases nodes.len(),
{
    if nodes.len() == 0 {
        Seq::empty()
    } else {
        let earlier = required_inputs(nodes.drop_last());
        match nodes.last() {
            NodeView::InputParameter(type_) => if earlier.contains(type_) {
                earlier
            } else {
                earlier.push(type_)
            },
            _ => earlier,
        }
    }
}

/// Where `type_` occurs first in `types`, if it occurs.
///
/// The parameters of a handler are held in a vector and found by their type,
/// one after the other. Of a hash map with the type as its key the verifier
/// can show nothing, not even that a key that was entered is found: what is
/// found there depends on the hashing and the equality that `derive` wrote for
/// the type.
pub fn find_type(types: &Vec<&ResolvedType>, type_: &ResolvedType) -> (position: Option<usize>)
    ensures
        match position {
            Some(i) => type_position(as_types(types@), type_@) == Some(i as int),
            None => type_position(as_types(types@), type_@) is None,
        },
        position is Some <==> as_types(types@).contains(type_@),
{
    let mut i: usize = 0;
    while i < types.len()
        invariant
            i <= types.len(),
            forall|j: int| 0 <= j < i ==> #[trigger] as_types(types@)[j] != type_@,
        decreases types.len() - i,
    {
        if types[i].is_same_as(type_) {
            proof {
                lemma_first_position(as_types(types@), type_@, i as int);
            }
            return Some(i);
        }
        i = i + 1;
    }
    None
}

/// A type occurs first at one position only.
pub proof fn lemma_first_position(types: Seq<TypeView>, type_: TypeView, position: int)
    requires
        is_first_position(types, type_, position),
    ensures
        type_position(types, type_) == Some(position),
        types.contains(type_),
{
    let chosen = choose|i: int| is_first_position(types, type_, i);
    if chosen < position {
        assert(types[chosen] != type_);
    } else if position < chosen {
        assert(types[position] != type_);
    }
}

/// The types that [`required_inputs`] lists are distinct, and they are the
/// types of the input parameters among the nodes.
pub proof fn lemma_required_inputs(nodes: Seq<NodeView>)
    ensures
        required_inputs(nodes).no_duplicates(),
        forall|type_: TypeView|
            required_inputs(nodes).contains(type_) <==> nodes.contains(
                NodeView::InputParameter(type_),
            ),
    decreases nodes.len(),
{
    if nodes.len() > 0 {
        let rest = nodes.drop_last();
        let earlier = required_inputs(rest);
        let all = required_inputs(nodes);
        lemma_required_inputs(rest);
        assert forall|type_: TypeView| all.contains(type_) <==> nodes.contains(
            NodeView::InputParameter(type_),
        ) by {
            let wanted = NodeView::InputParameter(type_);
            assert(earlier.contains(type_) <==> rest.contains(wanted));
            if earlier.contains(type_) {
                let k = choose|k: int| 0 <= k < earlier.len() && earlier[k] == type_;
                assert(all[k] == type_);
                let w = choose|w: int| 0 <= w < rest.len() && rest[w] == wanted;
                assert(nodes[w] == wanted);
            } else {
                if all.contains(type_) {
                    let k = choose|k: int| 0 <= k < all.len() && all[k] == type_;
                    if k < earlier.len() {
                        assert(earlier[k] == type_);
                    }
                    assert(nodes[nodes.len() - 1] == wanted);
                }
                if nodes.contains(wanted) {
                    let w = choose|w: int| 0 <= w < nodes.len() && nodes[w] == wanted;
                    if w < rest.len() {
                        assert(rest[w] == wanted);
                    }
                    assert(all[all.len() - 1] == type_);
                }
            }
        }
    }
}

/// The call graph of a handler: the graph and its root, the node of the
/// handler itself.
pub struct CallGraph {
    pub call_graph: RawCallGraph,
    pub root_node_index: usize,
}

impl RawCallGraph {
    /// Every invocation among the nodes is that of a component of `components`.
    pub open spec fn refers_to(&self, components: &ComponentDb) -> bool {
        self@.refers_to(components@.len())
    }

    /// Whether every invocation among the nodes is that of a component of
    /// `components`.
    pub fn is_within(&self, components: &ComponentDb) -> (within: bool)
        ensures
            within == self.refers_to(components),
    {
        let mut i: usize = 0;
        while i < self.nodes.len()
            invariant
                i <= self.nodes.len(),
                forall|k: int|
                    0 <= k < i ==> (#[trigger] self.nodes()[k]
                        matches NodeView::Compute { component_id, .. } ==> component_id.0
                        < components@.len()),
            decreases self.nodes.len() - i,
        {
            proof {
                assert(self.nodes()[i as int] == self.nodes@[i as int]@);
            }
            match &self.nodes[i] {
                CallGraphNode::Compute { component_id, .. } => {
                    if component_id.0 >= components.len() {
                        return false;
                    }
                },
                _ => {},
            }
            i = i + 1;
        }
        true
    }

    /// The types of the input parameters of the graph, each once, in the order
    /// in which the nodes first name them.
    pub fn required_input_types(&self) -> (types: Vec<&ResolvedType>)
        ensures
            as_types(types@) == required_inputs(self.nodes()),
            as_types(types@).no_duplicates(),
    {
        let mut types: Vec<&ResolvedType> = Vec::new();
        let mut i: usize = 0;
        proof {
            assert(self.nodes().take(0) =~= Seq::<NodeView>::empty());
            assert(as_types(types@) =~= Seq::<TypeView>::empty());
        }
        while i < self.nodes.len()
            invariant
                i <= self.nodes.len(),
                as_types(types@) == required_inputs(self.nodes().take(i as int)),
            decreases self.nodes.len() - i,
        {
            let ghost earlier = as_types(types@);
            proof {
                assert(self.nodes().take(i + 1).drop_last() =~= self.nodes().take(i as int));
                assert(self.nodes().take(i + 1).last() == self.nodes()[i as int]);
            }
            match &self.nodes[i] {
                CallGraphNode::InputParameter(type_) => {
                    if find_type(&types, type_).is_none() {
                        types.push(type_);
                        proof {
                            assert(as_types(types@) =~= earlier.push(type_@));
                        }
                    }
                },
                _ => {},
            }
            i = i + 1;
        }
        proof {
            assert(self.nodes().take(self.nodes().len() as int) =~= self.nodes());
            lemma_required_inputs(self.nodes());
        }
        types
    }
}

impl CallGraph {
    /// The graph is consistent and its root is one of its nodes.
    pub open spec fn wf(&self) -> bool {
        &&& self.call_graph.wf()
        &&& self.root_node_index < self.call_graph.nodes().len()
    }

    /// The graph `call_graph` with the root `root_node_index`; `None` where the
    /// root is no node of the graph.
    pub fn new(call_graph: RawCallGraph, root_node_index: usize) -> (graph: Option<CallGraph>)
        requires
            call_graph.wf(),
        ensures
            graph is Some <==> root_node_index < call_graph.nodes().len(),
            graph matches Some(g) ==> g.wf() && g.call_graph == call_graph && g.root_node_index
                == root_node_index,
    {
        if root_node_index < call_graph.node_count() {
            Some(CallGraph { call_graph, root_node_index })
        } else {
            None
        }
    }

    /// The types of the values that the caller of the generated handler has to
    /// supply, each once, in the order in which the nodes first name them.
    pub fn required_input_types(&self) -> (types: Vec<&ResolvedType>)
        ensures
            as_types(types@) == required_inputs(self.call_graph.nodes()),
            as_types(types@).no_duplicates(),
    {
        self.call_graph.required_input_types()
    }
}

/// In a graph whose edges join its nodes, the successors of a node are nodes.
pub proof fn lemma_successors_within(edges: Seq<(int, int)>, count: nat, node: int)
    requires
        edges_within(edges, count),
    ensures
        nodes_within(successors(edges, node), count),
    decreases edges.len(),
{
    if edges.len() > 0 {
        let rest = edges.drop_last();
        assert forall|i: int| 0 <= i < rest.len() implies 0 <= (#[trigger] rest[i]).0 < count && 0
            <= rest[i].1 < count by {
            assert(rest[i] == edges[i]);
        }
        lemma_successors_within(rest, count, node);
        assert(0 <= edges[edges.len() - 1].1 < count);
    }
}

/// In a graph whose edges join its nodes, the edges that enter a node are
/// edges of the graph and come from nodes of the graph.
pub proof fn lemma_incoming_within(edges: Seq<(int, int)>, count: nat, node: int)
    requires
        edges_within(edges, count),
    ensures
        forall|k: int|
            0 <= k < incoming(edges, node).len() ==> 0 <= (#[trigger] incoming(edges, node)[k]).0
                < count && 0 <= incoming(edges, node)[k].1 < edges.len(),
    decreases edges.len(),
{
    if edges.len() > 0 {
        let rest = edges.drop_last();
        assert forall|i: int| 0 <= i < rest.len() implies 0 <= (#[trigger] rest[i]).0 < count && 0
            <= rest[i].1 < count by {
            assert(rest[i] == edges[i]);
        }
        lemma_incoming_within(rest, count, node);
        assert(0 <= edges[edges.len() - 1].0 < count);
        assert forall|k: int| 0 <= k < incoming(edges, node).len() implies 0 <= (#[trigger] incoming(
            edges,
            node,
        )[k]).0 < count && 0 <= incoming(edges, node)[k].1 < edges.len() by {
            if edges.last().1 == node {
                if k > 0 {
                    assert(incoming(edges, node)[k] == incoming(rest, node)[k - 1]);
                }
            } else {
                assert(incoming(edges, node)[k] == incoming(rest, node)[k]);
            }
        }
    }
}

} // verus!

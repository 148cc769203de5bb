//! The shape of a call graph: which node has an edge to which.
//!
//! The shape is kept in a `petgraph` graph with unit weights, and walked with
//! `petgraph`'s depth-first post-order traversal. Everything this module states
//! about `petgraph` and `fixedbitset` is believed, not proved: each such item
//! says in its documentation what it takes on trust.

use fixedbitset::FixedBitSet;
use petgraph::graph::Graph;
use petgraph::graph::NodeIndex;
use petgraph::visit::DfsPostOrder;
use petgraph::visit::EdgeRef;
use petgraph::visit::Reversed;
use petgraph::Directed;
use petgraph::Direction;
use vstd::prelude::*;

verus! {

/// `petgraph::graph::Graph`, opaque to the verifier.
#[verifier::external_type_specification]
#[verifier::external_body]
#[verifier::reject_recursive_types(N)]
#[verifier::reject_recursive_types(E)]
#[verifier::reject_recursive_types(Ty)]
#[verifier::reject_recursive_types(Ix)]
pub struct ExGraph<N, E, Ty, Ix>(Graph<N, E, Ty, Ix>);

/// `petgraph::Directed`, the marker of directed graphs.
#[verifier::external_type_specification]
#[verifier::external_body]
pub struct ExDirected(Directed);

/// `petgraph::graph::NodeIndex`, opaque to the verifier.
#[verifier::external_type_specification]
#[verifier::external_body]
#[verifier::reject_recursive_types(Ix)]
pub struct ExNodeIndex<Ix>(NodeIndex<Ix>);

/// `fixedbitset::FixedBitSet`, the visit map of `petgraph`'s traversals.
#[verifier::external_type_specification]
#[verifier::external_body]
pub struct ExFixedBitSet(FixedBitSet);

/// `petgraph::visit::DfsPostOrder`, opaque to the verifier.
#[verifier::external_type_specification]
#[verifier::external_body]
#[verifier::reject_recursive_types(N)]
#[verifier::reject_recursive_types(VM)]
pub struct ExDfsPostOrder<N, VM>(DfsPostOrder<N, VM>);

/// A directed graph without weights, indexed by `u32`.
pub type Shape = Graph<(), (), Directed, u32>;

/// A depth-first post-order traversal of a [`Shape`].
pub type PostOrder = DfsPostOrder<NodeIndex<u32>, FixedBitSet>;

/// The number of nodes of a shape. Its nodes are `0..shape_node_count(g)`.
pub uninterp spec fn shape_node_count(g: Shape) -> nat;

/// The edges of a shape as `(source, target)`, in the order in which they were added.
pub uninterp spec fn shape_edges(g: Shape) -> Seq<(int, int)>;

/// The stack of nodes that a traversal has still to look at, its top last.
pub uninterp spec fn post_order_stack(t: PostOrder) -> Seq<int>;

/// The nodes that a traversal has discovered.
pub uninterp spec fn post_order_discovered(t: PostOrder) -> Set<int>;

/// The nodes that a traversal has finished, that is, handed out.
pub uninterp spec fn post_order_finished(t: PostOrder) -> Set<int>;

/// The number of nodes that the visit maps of a traversal were made for.
pub uninterp spec fn post_order_capacity(t: PostOrder) -> nat;

/// One call of `DfsPostOrder::next`: from the neighbour lists of the graph that
/// is walked, and the stack, the discovered and the finished nodes before the
/// call, to the node handed out and the stack, the discovered and the finished
/// nodes after it.
pub uninterp spec fn post_order_step(
    neighbors: Seq<Seq<int>>,
    stack: Seq<int>,
    discovered: Set<int>,
    finished: Set<int>,
) -> (Option<int>, Seq<int>, Set<int>, Set<int>);

/// The targets of the edges that leave `node`, the edge added last first.
pub open spec fn successors(edges: Seq<(int, int)>, node: int) -> Seq<int>
    decreases edges.len(),
{
    if edges.len() == 0 {
        Seq::empty()
    } else if edges.last().0 == node {
        seq![edges.last().1] + successors(edges.drop_last(), node)
    } else {
        successors(edges.drop_last(), node)
    }
}

/// The edges that enter `node` as `(source, index of the edge)`, the edge added
/// last first.
pub open spec fn incoming(edges: Seq<(int, int)>, node: int) -> Seq<(int, int)>
    decreases edges.len(),
{
    if edges.len() == 0 {
        Seq::empty()
    } else if edges.last().1 == node {
        seq![(edges.last().0, edges.len() - 1)] + incoming(edges.drop_last(), node)
    } else {
        incoming(edges.drop_last(), node)
    }
}

/// The sources of the edges that enter `node`, the edge added last first.
pub open spec fn predecessors(edges: Seq<(int, int)>, node: int) -> Seq<int> {
    incoming(edges, node).map_values(|e: (int, int)| e.0)
}

/// For each of `count` nodes, its successors.
pub open spec fn successor_lists(edges: Seq<(int, int)>, count: nat) -> Seq<Seq<int>> {
    Seq::new(count, |node: int| successors(edges, node))
}

/// For each of `count` nodes, its predecessors.
pub open spec fn predecessor_lists(edges: Seq<(int, int)>, count: nat) -> Seq<Seq<int>> {
    Seq::new(count, |node: int| predecessors(edges, node))
}

/// Every edge joins two of the first `count` nodes.
pub open spec fn edges_within(edges: Seq<(int, int)>, count: nat) -> bool {
    forall|i: int|
        0 <= i < edges.len() ==> 0 <= (#[trigger] edges[i]).0 < count && 0 <= edges[i].1 < count
}

/// Every entry of `nodes` is one of the first `count` nodes.
pub open spec fn nodes_within(nodes: Seq<int>, count: nat) -> bool {
    forall|i: int| 0 <= i < nodes.len() ==> 0 <= #[trigger] nodes[i] < count
}

/// The state of a traversal, as the verifier sees it.
pub struct Walk {
    pub stack: Seq<int>,
    pub discovered: Set<int>,
    pub finished: Set<int>,
}

/// The state of `t`.
pub open spec fn walk_of(t: PostOrder) -> Walk {
    Walk {
        stack: post_order_stack(t),
        discovered: post_order_discovered(t),
        finished: post_order_finished(t),
    }
}

/// The node that the next step of `walk` hands out, if any.
pub open spec fn step_node(neighbors: Seq<Seq<int>>, walk: Walk) -> Option<int> {
    post_order_step(neighbors, walk.stack, walk.discovered, walk.finished).0
}

/// The state that the next step of `walk` leaves.
pub open spec fn step_walk(neighbors: Seq<Seq<int>>, walk: Walk) -> Walk {
    let after = post_order_step(neighbors, walk.stack, walk.discovered, walk.finished);
    Walk { stack: after.1, discovered: after.2, finished: after.3 }
}

/// `walk` after `DfsPostOrder::move_to(start)`.
pub open spec fn moved_to(walk: Walk, start: int) -> Walk {
    Walk { stack: seq![start], discovered: walk.discovered, finished: walk.finished }
}

/// A traversal that has seen nothing yet and starts at `start`.
pub open spec fn fresh_walk(start: int) -> Walk {
    Walk { stack: seq![start], discovered: Set::empty(), finished: Set::empty() }
}

/// `t` was made for a graph of `count` nodes and can take a step on it: the
/// nodes on its stack are nodes of the graph, and what it has finished it has
/// discovered.
pub open spec fn fits(t: PostOrder, count: nat) -> bool {
    &&& post_order_capacity(t) == count
    &&& nodes_within(post_order_stack(t), count)
    &&& post_order_finished(t).subset_of(post_order_discovered(t))
}

/// `walk` goes over `neighbors` from `from` to `to`: each of its nodes but the
/// last has the next among its neighbours.
pub open spec fn leads(neighbors: Seq<Seq<int>>, walk: Seq<int>, from: int, to: int) -> bool {
    &&& walk.len() >= 1
    &&& walk[0] == from
    &&& walk.last() == to
    &&& forall|k: int|
        0 <= k < walk.len() - 1 ==> 0 <= #[trigger] walk[k] < neighbors.len()
            && neighbors[walk[k]].contains(walk[k + 1])
}

/// `to` is reached from `from` over `neighbors`; every node is reached from
/// itself.
pub open spec fn reaches(neighbors: Seq<Seq<int>>, from: int, to: int) -> bool {
    exists|walk: Seq<int>| leads(neighbors, walk, from, to)
}

/// `node` is reached from a node of `stack`.
pub open spec fn reached_from(neighbors: Seq<Seq<int>>, stack: Seq<int>, node: int) -> bool {
    exists|i: int| 0 <= i < stack.len() && reaches(neighbors, #[trigger] stack[i], node)
}

/// Every edge leads from a node to one with a higher number.
pub open spec fn ascending(edges: Seq<(int, int)>) -> bool {
    forall|e: int| 0 <= e < edges.len() ==> (#[trigger] edges[e]).0 < edges[e].1
}

/// No node is reached from one of its neighbours: `neighbors` has no cycle.
pub open spec fn without_cycle(neighbors: Seq<Seq<int>>) -> bool {
    forall|n: int, k: int|
        0 <= n < neighbors.len() && 0 <= k < neighbors[n].len() ==> !reaches(
            neighbors,
            #[trigger] neighbors[n][k],
            n,
        )
}

/// A traversal in the state `walk` is between two nodes: whatever it has
/// discovered it has finished, and its stack holds nodes of the first `count`.
pub open spec fn at_rest(walk: Walk, count: nat) -> bool {
    &&& walk.discovered == walk.finished
    &&& nodes_within(walk.stack, count)
}

/// The state of a traversal over `neighbors` that began in `origin`, after
/// `taken` steps.
pub open spec fn walk_at(neighbors: Seq<Seq<int>>, origin: Walk, taken: nat) -> Walk
    decreases taken,
{
    if taken == 0 {
        origin
    } else {
        step_walk(neighbors, walk_at(neighbors, origin, (taken - 1) as nat))
    }
}

/// Calls `Graph::new`: the new graph has no node and no edge.
#[verifier::external_body]
pub(crate) fn shape_new() -> (g: Shape)
    ensures
        shape_node_count(g) == 0,
        shape_edges(g) == Seq::<(int, int)>::empty(),
{
    Graph::new()
}

/// Calls `Graph::add_node`: the new node gets the next index, and the edges
/// stay. The call panics at `u32::MAX` nodes, which `requires` leaves out.
#[verifier::external_body]
pub(crate) fn shape_add_node(g: &mut Shape) -> (index: usize)
    requires
        shape_node_count(*old(g)) < u32::MAX,
    ensures
        index == shape_node_count(*old(g)),
        shape_node_count(*final(g)) == shape_node_count(*old(g)) + 1,
        shape_edges(*final(g)) == shape_edges(*old(g)),
{
    g.add_node(()).index()
}

/// Calls `Graph::add_edge`: the edge is added after those that are there, and
/// the nodes stay. The call panics where a node does not exist and at
/// `u32::MAX` edges, which `requires` leaves out.
#[verifier::external_body]
pub(crate) fn shape_add_edge(g: &mut Shape, source: usize, target: usize) -> (index: usize)
    requires
        source < shape_node_count(*old(g)),
        target < shape_node_count(*old(g)),
        shape_edges(*old(g)).len() < u32::MAX,
    ensures
        index == shape_edges(*old(g)).len(),
        shape_edges(*final(g)) == shape_edges(*old(g)).push((source as int, target as int)),
        shape_node_count(*final(g)) == shape_node_count(*old(g)),
{
    g.add_edge(NodeIndex::new(source), NodeIndex::new(target), ()).index()
}

/// Calls `Graph::neighbors_directed` with `Outgoing`, which lists the
/// neighbours in reverse order of their addition to the graph.
#[verifier::external_body]
pub(crate) fn shape_successors(g: &Shape, node: usize) -> (targets: Vec<usize>)
    requires
        node < shape_node_count(*g),
    ensures
        targets@.map_values(|n: usize| n as int) == successors(shape_edges(*g), node as int),
{
    g.neighbors_directed(NodeIndex::new(node), Direction::Outgoing).map(|n| n.index()).collect()
}

/// Calls `Graph::edges_directed` with `Incoming`, which lists the edges in
/// reverse order of their addition to the graph; of each edge the source and
/// the edge's index are kept.
#[verifier::external_body]
pub(crate) fn shape_incoming(g: &Shape, node: usize) -> (sources: Vec<(usize, usize)>)
    requires
        node < shape_node_count(*g),
    ensures
        sources@.map_values(|e: (usize, usize)| (e.0 as int, e.1 as int)) == incoming(
            shape_edges(*g),
            node as int,
        ),
{
    g.edges_directed(NodeIndex::new(node), Direction::Incoming).map(
        |e| (e.source().index(), e.id().index()),
    ).collect()
}

/// Calls `DfsPostOrder::new`: visit maps for the nodes of `g` with nothing in
/// them, and `start` alone on the stack.
#[verifier::external_body]
pub(crate) fn post_order_new(g: &Shape, start: usize) -> (t: PostOrder)
    requires
        start < shape_node_count(*g),
    ensures
        post_order_stack(t) == seq![start as int],
        post_order_discovered(t) == Set::<int>::empty(),
        post_order_finished(t) == Set::<int>::empty(),
        post_order_capacity(t) == shape_node_count(*g),
{
    DfsPostOrder::new(g, NodeIndex::new(start))
}

/// Calls `DfsPostOrder::move_to`: the stack becomes `start` alone, the visit
/// maps stay.
#[verifier::external_body]
pub(crate) fn post_order_move_to(t: &mut PostOrder, start: usize)
    requires
        start < post_order_capacity(*old(t)),
    ensures
        post_order_stack(*final(t)) == seq![start as int],
        post_order_discovered(*final(t)) == post_order_discovered(*old(t)),
        post_order_finished(*final(t)) == post_order_finished(*old(t)),
        post_order_capacity(*final(t)) == post_order_capacity(*old(t)),
{
    t.move_to(NodeIndex::new(start))
}

/// Calls `Clone::clone` of `DfsPostOrder`, which is derived: stack and visit
/// maps are copied.
#[verifier::external_body]
pub(crate) fn post_order_clone(t: &PostOrder) -> (copy: PostOrder)
    ensures
        post_order_stack(copy) == post_order_stack(*t),
        post_order_discovered(copy) == post_order_discovered(*t),
        post_order_finished(copy) == post_order_finished(*t),
        post_order_capacity(copy) == post_order_capacity(*t),
{
    t.clone()
}

/// Calls `FixedBitSet::contains` on the map of finished nodes.
#[verifier::external_body]
pub(crate) fn post_order_is_finished(t: &PostOrder, node: usize) -> (finished: bool)
    ensures
        finished == post_order_finished(*t).contains(node as int),
{
    t.finished.contains(node)
}

/// Calls `DfsPostOrder::next` on the graph itself, so that the traversal
/// follows the edges.
///
/// The outcome is [`post_order_step`] of the successor lists and the state
/// before. Beyond that the contract takes from the source and the
/// documentation of `next` what [`step_facts`] says. The call panics where a
/// node on the stack is beyond the visit maps, which `requires` leaves out.
#[verifier::external_body]
pub(crate) fn post_order_next(t: &mut PostOrder, g: &Shape) -> (node: Option<usize>)
    requires
        fits(*old(t), shape_node_count(*g)),
    ensures
        post_order_step(
            successor_lists(shape_edges(*g), shape_node_count(*g)),
            post_order_stack(*old(t)),
            post_order_discovered(*old(t)),
            post_order_finished(*old(t)),
        ) == (
            as_node(node),
            post_order_stack(*final(t)),
            post_order_discovered(*final(t)),
            post_order_finished(*final(t)),
        ),
        step_facts(
            successor_lists(shape_edges(*g), shape_node_count(*g)),
            *old(t),
            node,
            *final(t),
        ),
{
    t.next(g).map(|n| n.index())
}

/// Calls `DfsPostOrder::next` on `Reversed` of the graph, so that the traversal
/// follows the edges backwards.
///
/// The outcome is [`post_order_step`] of the predecessor lists and the state
/// before; the rest of the contract is that of [`post_order_next`].
#[verifier::external_body]
pub(crate) fn post_order_next_reversed(t: &mut PostOrder, g: &Shape) -> (node: Option<usize>)
    requires
        fits(*old(t), shape_node_count(*g)),
    ensures
        post_order_step(
            predecessor_lists(shape_edges(*g), shape_node_count(*g)),
            post_order_stack(*old(t)),
            post_order_discovered(*old(t)),
            post_order_finished(*old(t)),
        ) == (
            as_node(node),
            post_order_stack(*final(t)),
            post_order_discovered(*final(t)),
            post_order_finished(*final(t)),
        ),
        step_facts(
            predecessor_lists(shape_edges(*g), shape_node_count(*g)),
            *old(t),
            node,
            *final(t),
        ),
{
    t.next(Reversed(g)).map(|n| n.index())
}

/// A node handed out by a traversal, as a mathematical integer.
pub open spec fn as_node(node: Option<usize>) -> Option<int> {
    match node {
        Some(n) => Some(n as int),
        None => None,
    }
}

/// What holds of every step of a traversal over `neighbors`, from `before` to
/// `after`, that handed out `node`.
///
/// The traversal can take another step. What it has discovered it keeps.
/// Whatever it hands out or leaves on its stack is reached from a node that
/// was on its stack: it pushes nothing but neighbours of nodes that it pops.
/// A node that was on its stack is still there or is finished: a node is
/// popped only where it is marked finished or was so already.
///
/// In a traversal that began [`at_rest`], however many steps it has taken
/// since, a node that is discovered and not finished is on the stack: a node
/// is marked discovered while it is the top of the stack, and it is marked
/// finished when it is popped.
///
/// A node is handed out when it is marked finished for the first time: it was
/// not finished before, it is the one node that is finished now and was not,
/// and it is discovered.
///
/// The nodes come in postorder, which the documentation of `DfsPostOrder`
/// gives as "each node after all its descendants have been emitted". That is
/// stated of a traversal that began [`at_rest`] over a graph
/// [`without_cycle`], however many steps it has taken since: the neighbours of
/// the node that it hands out are all finished. A neighbour that was not
/// discovered when the node was is pushed above it and popped before it; one
/// that was discovered and not finished would lie below it on the stack and
/// lead to it, which is a cycle.
///
/// `None` is returned when the stack has run empty without that: nothing was
/// finished, and nothing was discovered, since a node that is discovered is
/// handed out before the stack runs empty.
pub open spec fn step_facts(
    neighbors: Seq<Seq<int>>,
    before: PostOrder,
    node: Option<usize>,
    after: PostOrder,
) -> bool {
    let count = post_order_capacity(before);
    &&& fits(after, count)
    &&& post_order_discovered(before).subset_of(post_order_discovered(after))
    &&& forall|j: int|
        0 <= j < post_order_stack(after).len() ==> reached_from(
            neighbors,
            post_order_stack(before),
            #[trigger] post_order_stack(after)[j],
        )
    &&& forall|i: int|
        0 <= i < post_order_stack(before).len() ==> post_order_finished(after).contains(
            #[trigger] post_order_stack(before)[i],
        ) || post_order_stack(after).contains(post_order_stack(before)[i])
    &&& forall|origin: Walk, taken: nat|
        at_rest(origin, count) && #[trigger] walk_at(neighbors, origin, taken) == walk_of(before)
            ==> forall|x: int|
            post_order_discovered(after).contains(x) && !post_order_finished(after).contains(x)
                ==> #[trigger] post_order_stack(after).contains(x)
    &&& match node {
        Some(n) => {
            &&& n < count
            &&& !post_order_finished(before).contains(n as int)
            &&& post_order_finished(after) == post_order_finished(before).insert(n as int)
            &&& post_order_discovered(after).contains(n as int)
            &&& reached_from(neighbors, post_order_stack(before), n as int)
            &&& forall|origin: Walk, taken: nat|
                at_rest(origin, count) && without_cycle(neighbors) && #[trigger] walk_at(
                    neighbors,
                    origin,
                    taken,
                ) == walk_of(before) ==> forall|k: int|
                    0 <= k < neighbors[n as int].len() ==> post_order_finished(after).contains(
                        #[trigger] neighbors[n as int][k],
                    )
        },
        None => {
            &&& post_order_stack(after).len() == 0
            &&& post_order_finished(after) == post_order_finished(before)
            &&& post_order_discovered(after) == post_order_discovered(before)
        },
    }
}

} // verus!

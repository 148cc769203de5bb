//! What every call graph that is built keeps to: its edges lead from earlier
//! nodes to later ones, so that it has no cycle, and each of its forks has one
//! edge in and two out, to the `Ok` and to the `Err` branch of a result.

use crate::builder::BuildState;
use crate::builder::Provided;
use crate::builder::Registered;
use crate::call_graph::GraphView;
use crate::call_graph::NodeView;
use crate::call_graph::NumberOfAllowedInvocations;
use crate::codegen_utils::type_views;
use crate::component::error_handler_of;
use crate::component::ComponentId;
use crate::computation::Computation;
use crate::computation::MatchResultVariant;
use crate::language::Callable;
use crate::language::Fallibility;
use crate::language::TypeView;
use crate::shape::incoming;
use crate::shape::successors;
use vstd::prelude::*;

verus! {

/// The edge with the index `e` leads from a node to one that was added later,
/// and not to an input parameter.
pub open spec fn edge_in_order(graph: GraphView, e: int) -> bool {
    &&& 0 <= graph.edges[e].0 < graph.edges[e].1 < graph.nodes.len()
    &&& !(graph.nodes[graph.edges[e].1] is InputParameter)
}

/// Where the edge with the index `e` leaves a fork, it leads to a branch of a
/// result.
pub open spec fn fork_leads_to_branch(registered: Registered, graph: GraphView, e: int) -> bool {
    graph.nodes[graph.edges[e].0] is MatchBranching ==> is_branch(
        registered,
        graph.nodes[graph.edges[e].1],
    )
}

/// `node` is the invocation of a component that names the branch `variant` of
/// a result.
pub open spec fn names_branch(registered: Registered, node: NodeView, variant: MatchResultVariant) -> bool {
    &&& node matches NodeView::Compute { component_id, .. }
    &&& registered.knows(component_id)
    &&& registered.components[component_id.0 as int] is Transformer
    &&& registered.computation(component_id) matches Computation::MatchResult(projection)
    &&& projection.variant == variant
}

/// The node `fork` has one edge in and two edges out, of which the first leads
/// to an `Ok` branch and the second to an `Err` branch.
pub open spec fn fork_shape(registered: Registered, graph: GraphView, fork: int) -> bool {
    let out = successors(graph.edges, fork);
    &&& incoming(graph.edges, fork).len() == 1
    &&& out.len() == 2
    &&& 0 <= out[0] < graph.nodes.len()
    &&& 0 <= out[1] < graph.nodes.len()
    &&& names_branch(registered, graph.nodes[out[1]], MatchResultVariant::OkVariant)
    &&& names_branch(registered, graph.nodes[out[0]], MatchResultVariant::ErrVariant)
}

/// `node` is the invocation of a component that names a branch of a result.
pub open spec fn is_branch(registered: Registered, node: NodeView) -> bool {
    &&& node matches NodeView::Compute { component_id, .. }
    &&& registered.knows(component_id)
    &&& registered.computation(component_id) is MatchResult
}

/// One edge enters the node `branch`, and it comes from a fork.
pub open spec fn branch_shape(graph: GraphView, branch: int) -> bool {
    let edges = incoming(graph.edges, branch);
    &&& edges.len() == 1
    &&& 0 <= edges[0].0 < graph.nodes.len()
    &&& graph.nodes[edges[0].0] is MatchBranching
}

/// What a call graph that is built keeps to.
///
/// Every edge leads from a node to one that was added later, and none to an
/// input parameter. Every fork has one edge in and two out, to an `Ok` and to
/// an `Err` branch; every branch of a result has one edge in, from a fork, and
/// a fork leads to nothing but branches.
/// Every invocation is that of a registered component, and may happen as
/// often as its value is used where the component is a transient constructor,
/// else once. No two input parameters have the same type.
pub open spec fn well_formed(registered: Registered, graph: GraphView) -> bool {
    &&& graph.nodes.len() <= u32::MAX
    &&& graph.edge_metadata.len() == graph.edges.len()
    &&& edges_in_order(registered, graph)
    &&& forks_and_branches(registered, graph)
    &&& invocations_registered(registered, graph)
    &&& distinct_inputs(graph)
}

/// Every edge of `graph` leads from a node to one that was added later, none
/// leads to an input parameter, and a fork leads to nothing but branches.
#[verifier::opaque]
pub open spec fn edges_in_order(registered: Registered, graph: GraphView) -> bool {
    &&& forall|e: int| 0 <= e < graph.edges.len() ==> #[trigger] edge_in_order(graph, e)
    &&& forall|e: int|
        0 <= e < graph.edges.len() ==> #[trigger] fork_leads_to_branch(registered, graph, e)
}

/// Every fork of `graph` has one edge in and two out, to an `Ok` and to an
/// `Err` branch, and every branch of a result has one edge in, from a fork.
#[verifier::opaque]
pub open spec fn forks_and_branches(registered: Registered, graph: GraphView) -> bool {
    &&& forall|m: int|
        0 <= m < graph.nodes.len() && #[trigger] graph.nodes[m] is MatchBranching ==> fork_shape(
            registered,
            graph,
            m,
        )
    &&& forall|b: int|
        0 <= b < graph.nodes.len() && is_branch(registered, #[trigger] graph.nodes[b])
            ==> branch_shape(graph, b)
}

/// Every invocation in `graph` is that of a registered component, and may
/// happen as often as its value is used where the component is a transient
/// constructor, else once.
#[verifier::opaque]
pub open spec fn invocations_registered(registered: Registered, graph: GraphView) -> bool {
    forall|i: int|
        0 <= i < graph.nodes.len() ==> (#[trigger] graph.nodes[i] matches NodeView::Compute {
            component_id,
            n_allowed_invocations,
        } ==> registered.knows(component_id) && n_allowed_invocations
            == registered.n_allowed_invocations(component_id))
}

/// No two input parameters of `graph` have the same type.
#[verifier::opaque]
pub open spec fn distinct_inputs(graph: GraphView) -> bool {
    forall|i: int, j: int|
        0 <= i < j < graph.nodes.len() && #[trigger] graph.nodes[i] is InputParameter
            ==> graph.nodes[i] != #[trigger] graph.nodes[j]
}

/// An edge of `graph` leads from `source` to `target`.
pub open spec fn has_edge(graph: GraphView, source: int, target: int) -> bool {
    exists|e: int| 0 <= e < graph.edges.len() && #[trigger] graph.edges[e] == (source, target)
}

/// `walk` follows the edges of `graph`: from each of its nodes an edge leads
/// to the next.
pub open spec fn is_walk(graph: GraphView, walk: Seq<int>) -> bool {
    forall|k: int| 0 <= k < walk.len() - 1 ==> has_edge(graph, #[trigger] walk[k], walk[k + 1])
}

/// A graph whose edges lead from earlier nodes to later ones has no cycle: no
/// walk along its edges comes back to where it started.
pub proof fn lemma_no_cycle(registered: Registered, graph: GraphView, walk: Seq<int>)
    requires
        well_formed(registered, graph),
        is_walk(graph, walk),
        walk.len() >= 2,
    ensures
        walk.first() < walk.last(),
    decreases walk.len(),
{
    reveal(edges_in_order);
    let k = walk.len() - 2;
    assert(has_edge(graph, walk[k], walk[k + 1]));
    let e = choose|e: int|
        0 <= e < graph.edges.len() && #[trigger] graph.edges[e] == (walk[k], walk[k + 1]);
    assert(edge_in_order(graph, e));
    assert(walk[k] < walk[k + 1]);
    if walk.len() > 2 {
        let shorter = walk.drop_last();
        assert forall|j: int| 0 <= j < shorter.len() - 1 implies has_edge(
            graph,
            #[trigger] shorter[j],
            shorter[j + 1],
        ) by {
            assert(has_edge(graph, walk[j], walk[j + 1]));
        }
        lemma_no_cycle(registered, graph, shorter);
        assert(shorter.last() == walk[k]);
    }
}

/// The successors of a node once an edge is added: the target of the edge
/// comes first where the edge leaves the node.
pub proof fn lemma_successors_push(edges: Seq<(int, int)>, edge: (int, int), node: int)
    ensures
        successors(edges.push(edge), node) == if edge.0 == node {
            seq![edge.1] + successors(edges, node)
        } else {
            successors(edges, node)
        },
{
    assert(edges.push(edge).drop_last() =~= edges);
}

/// The edges that enter a node once an edge is added: the edge comes first
/// where it enters the node.
pub proof fn lemma_incoming_push(edges: Seq<(int, int)>, edge: (int, int), node: int)
    ensures
        incoming(edges.push(edge), node) == if edge.1 == node {
            seq![(edge.0, edges.len() as int)] + incoming(edges, node)
        } else {
            incoming(edges, node)
        },
{
    assert(edges.push(edge).drop_last() =~= edges);
}

/// A node that no edge leaves has no successors, and a node that no edge
/// enters has no edge coming in.
pub proof fn lemma_untouched(edges: Seq<(int, int)>, node: int)
    ensures
        (forall|e: int| 0 <= e < edges.len() ==> (#[trigger] edges[e]).0 != node) ==> successors(
            edges,
            node,
        ).len() == 0,
        (forall|e: int| 0 <= e < edges.len() ==> (#[trigger] edges[e]).1 != node) ==> incoming(
            edges,
            node,
        ).len() == 0,
    decreases edges.len(),
{
    if edges.len() > 0 {
        let rest = edges.drop_last();
        lemma_untouched(rest, node);
        if forall|e: int| 0 <= e < edges.len() ==> (#[trigger] edges[e]).0 != node {
            assert forall|e: int| 0 <= e < rest.len() implies (#[trigger] rest[e]).0 != node by {
                assert(rest[e] == edges[e]);
            }
            assert(edges[edges.len() - 1].0 != node);
        }
        if forall|e: int| 0 <= e < edges.len() ==> (#[trigger] edges[e]).1 != node {
            assert forall|e: int| 0 <= e < rest.len() implies (#[trigger] rest[e]).1 != node by {
                assert(rest[e] == edges[e]);
            }
            assert(edges[edges.len() - 1].1 != node);
        }
    }
}

/// The nodes of `before` are the first nodes of `after`.
pub open spec fn grows(before: GraphView, after: GraphView) -> bool {
    &&& before.nodes.len() <= after.nodes.len()
    &&& forall|i: int| 0 <= i < before.nodes.len() ==> #[trigger] after.nodes[i] == before.nodes[i]
}

/// The node `node` can stand for a value: it is a node of the graph, and no
/// fork.
pub open spec fn is_value_node(graph: GraphView, node: usize) -> bool {
    &&& node < graph.nodes.len()
    &&& !(graph.nodes[node as int] is MatchBranching)
}

/// The graph so far is well formed, and the node of each constructor that has
/// one can stand for a value.
pub open spec fn state_ok(registered: Registered, state: BuildState) -> bool {
    &&& well_formed(registered, state.graph)
    &&& forall|id: int|
        0 <= id < state.memo.len() ==> (#[trigger] state.memo[id] matches Some(node)
            ==> is_value_node(state.graph, node))
}

/// A step of building from `before` to `after` that found `node` has kept the
/// nodes that were there, has left a state that is in order, and has found a
/// node that can stand for a value.
pub open spec fn step_ok(registered: Registered, before: BuildState, after: BuildState, node: usize) -> bool {
    &&& grows(before.graph, after.graph)
    &&& state_ok(registered, after)
    &&& is_value_node(after.graph, node)
}

/// What is at hand can stand for a value.
pub open spec fn provided_ok(graph: GraphView, provided: Option<Provided>) -> bool {
    provided matches Some(p) ==> is_value_node(graph, p.node)
}

/// Each of `nodes` can stand for a value.
pub open spec fn are_value_nodes(graph: GraphView, nodes: Seq<usize>) -> bool {
    forall|i: int| 0 <= i < nodes.len() ==> is_value_node(graph, #[trigger] nodes[i])
}

/// A well-formed graph stays well formed when a node is added that is no
/// fork, that may be invoked as its component says, and that is no input
/// parameter of a type that has one.
pub proof fn lemma_with_node(registered: Registered, graph: GraphView, node: NodeView)
    requires
        well_formed(registered, graph),
        !(node is MatchBranching),
        !is_branch(registered, node),
        node matches NodeView::Compute { component_id, n_allowed_invocations }
            ==> registered.knows(component_id) && n_allowed_invocations
            == registered.n_allowed_invocations(component_id),
        node is InputParameter ==> !graph.nodes.contains(node),
    ensures
        graph.with_node(node) matches Some((with, index)) ==> {
            &&& well_formed(registered, with)
            &&& grows(graph, with)
            &&& index == graph.nodes.len()
            &&& with.nodes == graph.nodes.push(node)
            &&& with.edges == graph.edges
            &&& is_value_node(with, index)
        },
{
    reveal(distinct_inputs);
    reveal(edges_in_order);
    reveal(forks_and_branches);
    reveal(invocations_registered);
    if let Some((with, index)) = graph.with_node(node) {
        assert forall|e: int| 0 <= e < with.edges.len() implies #[trigger] edge_in_order(with, e) by {
            assert(edge_in_order(graph, e));
        }
        assert forall|e: int| 0 <= e < with.edges.len() implies #[trigger] fork_leads_to_branch(
            registered,
            with,
            e,
        ) by {
            assert(edge_in_order(graph, e));
            assert(fork_leads_to_branch(registered, graph, e));
        }
        assert forall|m: int|
            0 <= m < with.nodes.len() && #[trigger] with.nodes[m] is MatchBranching implies fork_shape(
            registered,
            with,
            m,
        ) by {
            assert(graph.nodes[m] is MatchBranching);
            assert(fork_shape(registered, graph, m));
        }
        assert forall|b: int|
            0 <= b < with.nodes.len() && is_branch(
                registered,
                #[trigger] with.nodes[b],
            ) implies branch_shape(with, b) by {
            assert(is_branch(registered, graph.nodes[b]));
            assert(branch_shape(graph, b));
        }
        assert forall|i: int, j: int|
            0 <= i < j < with.nodes.len() && #[trigger] with.nodes[i] is InputParameter implies with.nodes[i]
            != #[trigger] with.nodes[j] by {
            if j < graph.nodes.len() {
                assert(graph.nodes[i] != graph.nodes[j]);
            } else {
                assert(graph.nodes[i] == with.nodes[i]);
                if node is InputParameter {
                    assert(!graph.nodes.contains(node));
                }
            }
        }
    }
}

/// A well-formed graph stays well formed when an edge is added that leads
/// from a node that stands for a value to a later node that is an invocation.
pub proof fn lemma_with_edge(registered: Registered, graph: GraphView, source: usize, target: usize)
    requires
        well_formed(registered, graph),
        source < target,
        is_value_node(graph, source),
        target < graph.nodes.len(),
        graph.nodes[target as int] is Compute,
        !is_branch(registered, graph.nodes[target as int]),
    ensures
        graph.with_edge(source, target) matches Some(with) ==> {
            &&& well_formed(registered, with)
            &&& with.nodes == graph.nodes
        },
{
    reveal(distinct_inputs);
    reveal(edges_in_order);
    reveal(forks_and_branches);
    reveal(invocations_registered);
    if let Some(with) = graph.with_edge(source, target) {
        let edge = (source as int, target as int);
        assert forall|e: int| 0 <= e < with.edges.len() implies #[trigger] edge_in_order(with, e) by {
            if e < graph.edges.len() {
                assert(edge_in_order(graph, e));
            }
        }
        assert forall|e: int| 0 <= e < with.edges.len() implies #[trigger] fork_leads_to_branch(
            registered,
            with,
            e,
        ) by {
            if e < graph.edges.len() {
                assert(fork_leads_to_branch(registered, graph, e));
            }
        }
        assert forall|m: int|
            0 <= m < with.nodes.len() && #[trigger] with.nodes[m] is MatchBranching implies fork_shape(
            registered,
            with,
            m,
        ) by {
            assert(fork_shape(registered, graph, m));
            lemma_successors_push(graph.edges, edge, m);
            lemma_incoming_push(graph.edges, edge, m);
        }
        assert forall|b: int|
            0 <= b < with.nodes.len() && is_branch(
                registered,
                #[trigger] with.nodes[b],
            ) implies branch_shape(with, b) by {
            assert(branch_shape(graph, b));
            lemma_incoming_push(graph.edges, edge, b);
        }
        assert forall|i: int, j: int|
            0 <= i < j < with.nodes.len() && #[trigger] with.nodes[i] is InputParameter implies with.nodes[i]
            != #[trigger] with.nodes[j] by {
            assert(graph.nodes[i] != graph.nodes[j]);
        }
    }
}

/// A well-formed graph stays well formed when edges are added that lead from
/// nodes that stand for values to a later node that is an invocation.
pub proof fn lemma_with_edges(
    registered: Registered,
    graph: GraphView,
    sources: Seq<usize>,
    target: usize,
)
    requires
        well_formed(registered, graph),
        are_value_nodes(graph, sources),
        forall|i: int| 0 <= i < sources.len() ==> #[trigger] sources[i] < target,
        target < graph.nodes.len(),
        graph.nodes[target as int] is Compute,
        !is_branch(registered, graph.nodes[target as int]),
    ensures
        graph.with_edges(sources, target) matches Some(with) ==> {
            &&& well_formed(registered, with)
            &&& with.nodes == graph.nodes
        },
    decreases sources.len(),
{
    if sources.len() > 0 {
        let earlier = sources.drop_last();
        assert forall|i: int| 0 <= i < earlier.len() implies is_value_node(
            graph,
            #[trigger] earlier[i],
        ) && earlier[i] < target by {
            assert(earlier[i] == sources[i]);
        }
        lemma_with_edges(registered, graph, earlier, target);
        if let Some(with) = graph.with_edges(earlier, target) {
            assert(is_value_node(graph, sources[sources.len() - 1]));
            lemma_with_edge(registered, with, sources.last(), target);
        }
    }
}

/// A well-formed graph stays well formed when the invocation of a known
/// component is added, into which edges lead from nodes that stand for
/// values.
pub proof fn lemma_with_invocation(
    registered: Registered,
    graph: GraphView,
    component: ComponentId,
    producers: Seq<usize>,
)
    requires
        well_formed(registered, graph),
        are_value_nodes(graph, producers),
        registered.knows(component),
        registered.computation(component) is Callable,
    ensures
        graph.with_invocation(
            component,
            registered.n_allowed_invocations(component),
            producers,
        ) matches Some((with, index)) ==> {
            &&& well_formed(registered, with)
            &&& grows(graph, with)
            &&& is_value_node(with, index)
        },
{
    let node = NodeView::Compute {
        component_id: component,
        n_allowed_invocations: registered.n_allowed_invocations(component),
    };
    lemma_with_node(registered, graph, node);
    if let Some((added, index)) = graph.with_node(node) {
        assert forall|i: int| 0 <= i < producers.len() implies is_value_node(
            added,
            #[trigger] producers[i],
        ) && producers[i] < index by {
            assert(is_value_node(graph, producers[i]));
        }
        lemma_with_edges(registered, added, producers, index);
    }
}

/// The first component from `from` on that names a branch of a result does
/// name it.
pub proof fn lemma_projection_of(
    registered: Registered,
    source: ComponentId,
    variant: MatchResultVariant,
    from: int,
)
    ensures
        registered.projection_of(source, variant, from) matches Some(id) ==> registered.projects(
            id,
            source,
            variant,
        ),
    decreases registered.components.len() - from,
{
    if 0 <= from < registered.components.len() {
        if !registered.projects(ComponentId(from as usize), source, variant) {
            lemma_projection_of(registered, source, variant, from + 1);
        }
    }
}

/// The first input parameter of a type from `from` on is an input parameter
/// of that type; where there is none, no node from `from` on is one.
pub proof fn lemma_input_parameter(graph: GraphView, type_: TypeView, from: int)
    requires
        0 <= from,
        graph.nodes.len() <= u32::MAX,
    ensures
        match graph.input_parameter(type_, from) {
            Some(node) => node < graph.nodes.len() && graph.nodes[node as int]
                == NodeView::InputParameter(type_),
            None => forall|i: int|
                from <= i < graph.nodes.len() ==> #[trigger] graph.nodes[i]
                    != NodeView::InputParameter(type_),
        },
    decreases graph.nodes.len() - from,
{
    if from < graph.nodes.len() {
        if graph.nodes[from] != NodeView::InputParameter(type_) {
            lemma_input_parameter(graph, type_, from + 1);
        }
    }
}

/// A well-formed graph stays well formed when the fork on the result of a
/// node that stands for a value is added, with the two branches of that
/// result.
pub proof fn lemma_with_fork(
    registered: Registered,
    graph: GraphView,
    node: usize,
    ok: ComponentId,
    err: ComponentId,
    source: ComponentId,
)
    requires
        well_formed(registered, graph),
        is_value_node(graph, node),
        registered.projects(ok, source, MatchResultVariant::OkVariant),
        registered.projects(err, source, MatchResultVariant::ErrVariant),
    ensures
        graph.with_fork(node, ok, err) matches Some((with, ok_node, err_node)) ==> {
            &&& well_formed(registered, with)
            &&& grows(graph, with)
            &&& is_value_node(with, ok_node)
            &&& is_value_node(with, err_node)
        },
{
    reveal(distinct_inputs);
    reveal(edges_in_order);
    reveal(forks_and_branches);
    reveal(invocations_registered);
    if let Some((with, ok_node, err_node)) = graph.with_fork(node, ok, err) {
        let single = NumberOfAllowedInvocations::Single;
        let fork = graph.nodes.len() as usize;
        let (forked, _) = graph.with_node(NodeView::MatchBranching)->0;
        let entered = forked.with_edge(node, fork)->0;
        let e1 = (node as int, fork as int);
        let (with_ok, _) = entered.with_node(
            NodeView::Compute { component_id: ok, n_allowed_invocations: single },
        )->0;
        assert(seq![fork].drop_last() =~= Seq::<usize>::empty());
        assert(with_ok.with_edges(seq![fork].drop_last(), ok_node) == Some(with_ok));
        let ok_joined = with_ok.with_edge(fork, ok_node)->0;
        let e2 = (fork as int, ok_node as int);
        let (with_err, _) = ok_joined.with_node(
            NodeView::Compute { component_id: err, n_allowed_invocations: single },
        )->0;
        assert(with_err.with_edges(seq![fork].drop_last(), err_node) == Some(with_err));
        let err_joined = with_err.with_edge(fork, err_node)->0;
        let e3 = (fork as int, err_node as int);
        assert(with == err_joined);
        assert(ok_node == fork + 1 && err_node == fork + 2);
        assert(with.edges =~= graph.edges.push(e1).push(e2).push(e3));
        assert(with.nodes =~= graph.nodes.push(NodeView::MatchBranching).push(
            NodeView::Compute { component_id: ok, n_allowed_invocations: single },
        ).push(NodeView::Compute { component_id: err, n_allowed_invocations: single }));
        assert forall|e: int| 0 <= e < with.edges.len() implies #[trigger] edge_in_order(with, e) by {
            if e < graph.edges.len() {
                assert(edge_in_order(graph, e));
            }
        }
        assert forall|e: int| 0 <= e < with.edges.len() implies #[trigger] fork_leads_to_branch(
            registered,
            with,
            e,
        ) by {
            if e < graph.edges.len() {
                assert(edge_in_order(graph, e));
                assert(fork_leads_to_branch(registered, graph, e));
            }
        }
        assert forall|m: int|
            0 <= m < with.nodes.len() && #[trigger] with.nodes[m] is MatchBranching implies fork_shape(
            registered,
            with,
            m,
        ) by {
            lemma_successors_push(graph.edges, e1, m);
            lemma_successors_push(graph.edges.push(e1), e2, m);
            lemma_successors_push(graph.edges.push(e1).push(e2), e3, m);
            lemma_incoming_push(graph.edges, e1, m);
            lemma_incoming_push(graph.edges.push(e1), e2, m);
            lemma_incoming_push(graph.edges.push(e1).push(e2), e3, m);
            if m < graph.nodes.len() {
                assert(graph.nodes[m] is MatchBranching);
                assert(fork_shape(registered, graph, m));
                let out = successors(graph.edges, m);
                assert(with.nodes[out[0]] == graph.nodes[out[0]]);
                assert(with.nodes[out[1]] == graph.nodes[out[1]]);
            } else {
                assert(m == fork);
                assert forall|e: int| 0 <= e < graph.edges.len() implies (#[trigger] graph.edges[e]).0
                    != m && graph.edges[e].1 != m by {
                    assert(edge_in_order(graph, e));
                }
                lemma_untouched(graph.edges, m);
                assert(successors(graph.edges, m) =~= Seq::<int>::empty());
                assert(incoming(graph.edges, m) =~= Seq::<(int, int)>::empty());
                let out = successors(with.edges, m);
                assert(out =~= seq![err_node as int, ok_node as int]);
            }
        }
        assert forall|b: int|
            0 <= b < with.nodes.len() && is_branch(
                registered,
                #[trigger] with.nodes[b],
            ) implies branch_shape(with, b) by {
            lemma_incoming_push(graph.edges, e1, b);
            lemma_incoming_push(graph.edges.push(e1), e2, b);
            lemma_incoming_push(graph.edges.push(e1).push(e2), e3, b);
            if b < graph.nodes.len() {
                assert(is_branch(registered, graph.nodes[b]));
                assert(branch_shape(graph, b));
                let from = incoming(graph.edges, b)[0].0;
                assert(with.nodes[from] == graph.nodes[from]);
            } else {
                assert forall|e: int| 0 <= e < graph.edges.len() implies (#[trigger] graph.edges[e]).1
                    != b by {
                    assert(edge_in_order(graph, e));
                }
                lemma_untouched(graph.edges, b);
                assert(incoming(graph.edges, b) =~= Seq::<(int, int)>::empty());
            }
        }
        assert forall|i: int, j: int|
            0 <= i < j < with.nodes.len() && #[trigger] with.nodes[i] is InputParameter implies with.nodes[i]
            != #[trigger] with.nodes[j] by {
            if j < graph.nodes.len() {
                assert(graph.nodes[i] != graph.nodes[j]);
            }
        }
    }
}

/// What grows from a graph that has grown has grown from the first.
pub proof fn lemma_grows(first: GraphView, second: GraphView, third: GraphView)
    requires
        grows(first, second),
        grows(second, third),
    ensures
        grows(first, third),
{
    assert forall|i: int| 0 <= i < first.nodes.len() implies #[trigger] third.nodes[i]
        == first.nodes[i] by {
        assert(second.nodes[i] == first.nodes[i]);
    }
}

/// A state that is in order stays so when its graph grows into one that is
/// well formed.
pub proof fn lemma_state_grows(registered: Registered, state: BuildState, graph: GraphView)
    requires
        state_ok(registered, state),
        grows(state.graph, graph),
        well_formed(registered, graph),
    ensures
        state_ok(registered, BuildState { graph, ..state }),
{
    assert forall|id: int| 0 <= id < state.memo.len() implies (#[trigger] state.memo[id]
        matches Some(node) ==> is_value_node(graph, node)) by {
        if let Some(node) = state.memo[id] {
            assert(is_value_node(state.graph, node));
            assert(graph.nodes[node as int] == state.graph.nodes[node as int]);
        }
    }
}

/// [`Registered::resolve`] keeps the state in order.
pub proof fn lemma_resolve(registered: Registered, fuel: nat, id: ComponentId, state: BuildState)
    requires
        state_ok(registered, state),
    ensures
        registered.resolve(fuel, id, state) matches Ok((after, node)) ==> step_ok(
            registered,
            state,
            after,
            node,
        ),
    decreases fuel, 0nat, 0nat,
{
    if id.0 >= state.memo.len() || id.0 >= state.in_progress.len() || !registered.knows(id) {
    } else if state.memo[id.0 as int] is Some {
    } else if state.in_progress[id.0 as int] {
    } else if fuel == 0 {
    } else {
        let started = BuildState {
            in_progress: state.in_progress.update(id.0 as int, true),
            ..state
        };
        assert(state_ok(registered, started));
        lemma_invoke(registered, (fuel - 1) as nat, id, None, started);
        if let Ok((invoked, node)) = registered.invoke((fuel - 1) as nat, id, None, started) {
            let is_fallible = registered.computation(id) matches Computation::Callable(
                Callable { fallibility: Fallibility::Fallible { .. }, .. },
            );
            if is_fallible {
                lemma_fork(registered, (fuel - 1) as nat, id, node, invoked);
            }
            let forked = if is_fallible {
                registered.fork((fuel - 1) as nat, id, node, invoked)
            } else {
                Ok((invoked, node))
            };
            if let Ok((done, value)) = forked {
                lemma_grows(state.graph, invoked.graph, done.graph);
                if id.0 < done.memo.len() && id.0 < done.in_progress.len() {
                    let after = BuildState {
                        memo: done.memo.update(id.0 as int, Some(value)),
                        in_progress: done.in_progress.update(id.0 as int, false),
                        ..done
                    };
                    assert forall|other: int| 0 <= other < after.memo.len() implies (
                    #[trigger] after.memo[other] matches Some(n) ==> is_value_node(after.graph, n)) by {
                        if other != id.0 {
                            assert(after.memo[other] == done.memo[other]);
                        }
                    }
                }
            }
        }
    }
}

/// [`Registered::fork`] keeps the state in order.
pub proof fn lemma_fork(
    registered: Registered,
    fuel: nat,
    id: ComponentId,
    node: usize,
    state: BuildState,
)
    requires
        state_ok(registered, state),
        is_value_node(state.graph, node),
    ensures
        registered.fork(fuel, id, node, state) matches Ok((after, ok_node)) ==> step_ok(
            registered,
            state,
            after,
            ok_node,
        ),
    decreases fuel, 4nat, 0nat,
{
    if let Some(handler) = error_handler_of(registered.components, id) {
        let ok = registered.projection_of(id, MatchResultVariant::OkVariant, 0);
        let err = registered.projection_of(id, MatchResultVariant::ErrVariant, 0);
        lemma_projection_of(registered, id, MatchResultVariant::OkVariant, 0);
        lemma_projection_of(registered, id, MatchResultVariant::ErrVariant, 0);
        if ok is Some && err is Some {
            let ok = ok->0;
            let err = err->0;
            lemma_with_fork(registered, state.graph, node, ok, err, id);
            if let Some((graph, ok_node, err_node)) = state.graph.with_fork(node, ok, err) {
                let forked = BuildState { graph, ..state };
                lemma_state_grows(registered, state, graph);
                let provided = Some(Provided { type_: registered.produced_type(err), node: err_node });
                lemma_invoke(registered, fuel, handler, provided, forked);
                if let Ok((handled, _)) = registered.invoke(fuel, handler, provided, forked) {
                    lemma_grows(state.graph, graph, handled.graph);
                    assert(handled.graph.nodes[ok_node as int] == graph.nodes[ok_node as int]);
                }
            }
        }
    }
}

/// [`Registered::invoke`] keeps the state in order, and what it finds is the
/// invocation of the component.
pub proof fn lemma_invoke(
    registered: Registered,
    fuel: nat,
    id: ComponentId,
    provided: Option<Provided>,
    state: BuildState,
)
    requires
        state_ok(registered, state),
        provided_ok(state.graph, provided),
    ensures
        registered.invoke(fuel, id, provided, state) matches Ok((after, node)) ==> {
            &&& step_ok(registered, state, after, node)
            &&& after.graph.nodes[node as int] matches NodeView::Compute { component_id, .. }
            &&& component_id == id
        },
    decreases fuel, 3nat, 0nat,
{
    if registered.knows(id) {
        if let Computation::Callable(callable) = registered.computation(id) {
            let types = type_views(callable.inputs@);
            lemma_resolve_inputs(registered, fuel, id, types, provided, state, Seq::empty());
            if let Ok((resolved, producers)) = registered.resolve_inputs(
                fuel,
                id,
                types,
                provided,
                state,
                Seq::empty(),
            ) {
                lemma_with_invocation(registered, resolved.graph, id, producers);
                if let Some((graph, node)) = resolved.graph.with_invocation(
                    id,
                    registered.n_allowed_invocations(id),
                    producers,
                ) {
                    lemma_state_grows(registered, resolved, graph);
                    lemma_grows(state.graph, resolved.graph, graph);
                    lemma_invocation_node(
                        resolved.graph,
                        id,
                        registered.n_allowed_invocations(id),
                        producers,
                    );
                }
            }
        }
    }
}

/// The node that [`GraphView::with_invocation`] adds is the invocation.
pub proof fn lemma_invocation_node(
    graph: GraphView,
    component: ComponentId,
    n_allowed_invocations: NumberOfAllowedInvocations,
    producers: Seq<usize>,
)
    ensures
        graph.with_invocation(component, n_allowed_invocations, producers) matches Some(
            (with, node),
        ) ==> node < with.nodes.len() && with.nodes[node as int] == (NodeView::Compute {
            component_id: component,
            n_allowed_invocations,
        }),
{
    let added = NodeView::Compute { component_id: component, n_allowed_invocations };
    if let Some((first, node)) = graph.with_node(added) {
        lemma_edges_keep_nodes(first, producers, node);
    }
}

/// Adding edges adds no node.
pub proof fn lemma_edges_keep_nodes(graph: GraphView, sources: Seq<usize>, target: usize)
    ensures
        graph.with_edges(sources, target) matches Some(with) ==> with.nodes == graph.nodes,
    decreases sources.len(),
{
    if sources.len() > 0 {
        lemma_edges_keep_nodes(graph, sources.drop_last(), target);
    }
}

/// [`Registered::resolve_inputs`] keeps the state in order, and what it finds
/// can stand for values.
pub proof fn lemma_resolve_inputs(
    registered: Registered,
    fuel: nat,
    consumer: ComponentId,
    types: Seq<TypeView>,
    provided: Option<Provided>,
    state: BuildState,
    producers: Seq<usize>,
)
    requires
        state_ok(registered, state),
        provided_ok(state.graph, provided),
        are_value_nodes(state.graph, producers),
    ensures
        registered.resolve_inputs(fuel, consumer, types, provided, state, producers) matches Ok(
            (after, all),
        ) ==> {
            &&& grows(state.graph, after.graph)
            &&& state_ok(registered, after)
            &&& are_value_nodes(after.graph, all)
        },
    decreases fuel, 2nat, types.len(),
{
    if types.len() > 0 {
        lemma_resolve_type(
            registered,
            fuel,
            consumer,
            producers.len() as usize,
            types[0],
            provided,
            state,
        );
        if let Ok((next, producer)) = registered.resolve_type(
            fuel,
            consumer,
            producers.len() as usize,
            types[0],
            provided,
            state,
        ) {
            let found = producers.push(producer);
            assert forall|i: int| 0 <= i < found.len() implies is_value_node(
                next.graph,
                #[trigger] found[i],
            ) by {
                if i < producers.len() {
                    assert(is_value_node(state.graph, producers[i]));
                    assert(next.graph.nodes[producers[i] as int] == state.graph.nodes[producers[i] as int]);
                }
            }
            if let Some(p) = provided {
                assert(next.graph.nodes[p.node as int] == state.graph.nodes[p.node as int]);
            }
            lemma_resolve_inputs(
                registered,
                fuel,
                consumer,
                types.drop_first(),
                provided,
                next,
                found,
            );
            if let Ok((after, all)) = registered.resolve_inputs(
                fuel,
                consumer,
                types.drop_first(),
                provided,
                next,
                found,
            ) {
                lemma_grows(state.graph, next.graph, after.graph);
            }
        }
    }
}

/// [`Registered::resolve_type`] keeps the state in order.
pub proof fn lemma_resolve_type(
    registered: Registered,
    fuel: nat,
    consumer: ComponentId,
    input: usize,
    type_: TypeView,
    provided: Option<Provided>,
    state: BuildState,
)
    requires
        state_ok(registered, state),
        provided_ok(state.graph, provided),
    ensures
        registered.resolve_type(fuel, consumer, input, type_, provided, state) matches Ok(
            (after, node),
        ) ==> step_ok(registered, state, after, node),
    decreases fuel, 1nat, 0nat,
{
    if provided is Some && provided->0.type_ == type_ {
    } else {
        let constructors = registered.constructors_of(type_, registered.components.len());
        if constructors.len() == 0 {
            if registered.externals.contains(type_) {
                lemma_input_parameter(state.graph, type_, 0);
                if state.graph.input_parameter(type_, 0) is None {
                    let node = NodeView::InputParameter(type_);
                    lemma_with_node(registered, state.graph, node);
                    if let Some((graph, index)) = state.graph.with_node(node) {
                        lemma_state_grows(registered, state, graph);
                    }
                }
            }
        } else if constructors.len() >= 2 {
        } else {
            lemma_resolve(registered, fuel, ComponentId(constructors[0]), state);
        }
    }
}

/// Every call graph that is built is well formed, and its root is the
/// invocation of the handler that it was built for.
///
/// So it has no cycle ([`lemma_no_cycle`]), and each of its forks has one edge
/// in and two out, to an `Ok` and to an `Err` branch.
pub proof fn lemma_call_graph_is_well_formed(registered: Registered, handler: ComponentId)
    ensures
        registered.call_graph(handler) matches Ok((graph, root)) ==> {
            &&& well_formed(registered, graph)
            &&& root < graph.nodes.len()
            &&& graph.nodes[root as int] matches NodeView::Compute { component_id, .. }
            &&& component_id == handler
        },
{
    assert(well_formed(registered, registered.start().graph)) by {
        reveal(distinct_inputs);
        reveal(edges_in_order);
        reveal(forks_and_branches);
        reveal(invocations_registered);
    }
    lemma_invoke(registered, registered.components.len(), handler, None, registered.start());
}

} // verus!

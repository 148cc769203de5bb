//! Where every error handler takes the error alone, the graph that is built
//! keeps its `Err` branches apart: what follows an `Err` branch is its
//! handler, into which no other edge leads and which leads to nothing.

use crate::builder::BuildState;
use crate::builder::Provided;
use crate::builder::Registered;
use crate::call_graph::GraphView;
use crate::call_graph::NodeView;
use crate::call_graph::NumberOfAllowedInvocations;
use crate::component::error_handler_of;
use crate::component::ComponentId;
use crate::computation::Computation;
use crate::computation::MatchResultVariant;
use crate::shape::edges_within;
use crate::shape::incoming;
use crate::codegen_utils::type_views;
use crate::language::Callable;
use crate::language::Fallibility;
use crate::language::TypeView;
use crate::well_formed::are_value_nodes;
use crate::well_formed::grows;
use crate::well_formed::is_value_node;
use crate::well_formed::lemma_fork;
use crate::well_formed::lemma_input_parameter;
use crate::well_formed::lemma_invoke;
use crate::well_formed::lemma_projection_of;
use crate::well_formed::lemma_resolve;
use crate::well_formed::lemma_resolve_inputs;
use crate::well_formed::lemma_resolve_type;
use crate::well_formed::lemma_state_grows;
use crate::well_formed::lemma_with_fork;
use crate::well_formed::lemma_with_invocation;
use crate::well_formed::provided_ok;
use crate::well_formed::state_ok;
use crate::well_formed::well_formed;
use crate::wiring::lemma_constructors_of;
use crate::well_formed::names_branch;
use vstd::prelude::*;

verus! {

/// The node `node` invokes a request handler or an error handler.
pub open spec fn handles(registered: Registered, node: NodeView) -> bool {
    &&& node matches NodeView::Compute { component_id, .. }
    &&& registered.knows(component_id)
    &&& registered.components[component_id.0 as int].is_handler()
}

/// The node `node` names the `Err` branch of a result.
pub open spec fn errs(registered: Registered, node: NodeView) -> bool {
    names_branch(registered, node, MatchResultVariant::ErrVariant)
}

/// The value of the node `node` may be taken by whoever needs it: the node is
/// no handler and no `Err` branch.
pub open spec fn shared(registered: Registered, node: NodeView) -> bool {
    !handles(registered, node) && !errs(registered, node)
}

/// No edge of `graph` leaves a handler, and an edge that leaves an `Err`
/// branch leads to a handler into which no other edge leads.
pub open spec fn sealed(registered: Registered, graph: GraphView) -> bool {
    &&& edges_within(graph.edges, graph.nodes.len())
    &&& forall|e: int|
        0 <= e < graph.edges.len() ==> !handles(
            registered,
            graph.nodes[(#[trigger] graph.edges[e]).0],
        )
    &&& forall|e: int|
        0 <= e < graph.edges.len() && errs(registered, graph.nodes[(#[trigger] graph.edges[e]).0])
            ==> handles(registered, graph.nodes[graph.edges[e].1]) && incoming(
            graph.edges,
            graph.edges[e].1,
        ).len() == 1
}

/// No edge of `graph` that leaves an `Err` branch leads to `target`.
pub open spec fn no_error_enters(registered: Registered, graph: GraphView, target: int) -> bool {
    forall|e: int|
        0 <= e < graph.edges.len() && errs(registered, graph.nodes[(#[trigger] graph.edges[e]).0])
            ==> graph.edges[e].1 != target
}

/// No edge enters a node that no edge leads to.
pub proof fn lemma_no_incoming(edges: Seq<(int, int)>, target: int)
    requires
        forall|e: int| 0 <= e < edges.len() ==> (#[trigger] edges[e]).1 != target,
    ensures
        incoming(edges, target).len() == 0,
    decreases edges.len(),
{
    if edges.len() > 0 {
        let rest = edges.drop_last();
        assert forall|e: int| 0 <= e < rest.len() implies (#[trigger] rest[e]).1 != target by {
            assert(rest[e] == edges[e]);
        }
        lemma_no_incoming(rest, target);
        assert(edges[edges.len() - 1].1 != target);
    }
}

/// A sealed graph stays sealed when an edge is added that leaves no handler,
/// to a node that no `Err` branch leads to; where the edge leaves an `Err`
/// branch, it leads to a handler that no edge has entered.
pub proof fn lemma_edge_seals(registered: Registered, graph: GraphView, source: usize, target: usize)
    requires
        sealed(registered, graph),
        source < graph.nodes.len(),
        target < graph.nodes.len(),
        !handles(registered, graph.nodes[source as int]),
        no_error_enters(registered, graph, target as int),
        errs(registered, graph.nodes[source as int]) ==> handles(
            registered,
            graph.nodes[target as int],
        ) && incoming(graph.edges, target as int).len() == 0,
    ensures
        graph.with_edge(source, target) matches Some(with) ==> {
            &&& sealed(registered, with)
            &&& with.nodes == graph.nodes
            &&& !errs(registered, graph.nodes[source as int]) ==> no_error_enters(
                registered,
                with,
                target as int,
            )
        },
{
    if let Some(with) = graph.with_edge(source, target) {
        let last = graph.edges.len() as int;
        assert(with.edges.drop_last() =~= graph.edges);
        assert(with.edges[last] == (source as int, target as int));
        assert forall|e: int| 0 <= e < with.edges.len() implies 0 <= (#[trigger] with.edges[e]).0
            < with.nodes.len() && 0 <= with.edges[e].1 < with.nodes.len() by {
            if e < last {
                assert(with.edges[e] == graph.edges[e]);
            }
        }
        assert forall|e: int| 0 <= e < with.edges.len() implies !handles(
            registered,
            with.nodes[(#[trigger] with.edges[e]).0],
        ) by {
            if e < last {
                assert(with.edges[e] == graph.edges[e]);
            }
        }
        assert forall|e: int|
            0 <= e < with.edges.len() && errs(
                registered,
                with.nodes[(#[trigger] with.edges[e]).0],
            ) implies handles(registered, with.nodes[with.edges[e].1]) && incoming(
            with.edges,
            with.edges[e].1,
        ).len() == 1 by {
            if e < last {
                assert(with.edges[e] == graph.edges[e]);
                assert(graph.edges[e].1 != target as int);
                assert(incoming(with.edges, graph.edges[e].1) == incoming(
                    graph.edges,
                    graph.edges[e].1,
                ));
            } else {
                assert(incoming(with.edges, target as int) == seq![(source as int, last)]
                    + incoming(graph.edges, target as int));
            }
        }
        if !errs(registered, graph.nodes[source as int]) {
            assert forall|e: int|
                0 <= e < with.edges.len() && errs(
                    registered,
                    with.nodes[(#[trigger] with.edges[e]).0],
                ) implies with.edges[e].1 != target as int by {
                if e < last {
                    assert(with.edges[e] == graph.edges[e]);
                }
            }
        }
    }
}

/// A sealed graph stays sealed when edges are added that leave nodes whose
/// values may be shared, to a node that no `Err` branch leads to.
pub proof fn lemma_edges_seal(registered: Registered, graph: GraphView, sources: Seq<usize>, target: usize)
    requires
        sealed(registered, graph),
        target < graph.nodes.len(),
        forall|j: int|
            0 <= j < sources.len() ==> (#[trigger] sources[j]) < graph.nodes.len() && shared(
                registered,
                graph.nodes[sources[j] as int],
            ),
        no_error_enters(registered, graph, target as int),
    ensures
        graph.with_edges(sources, target) matches Some(with) ==> {
            &&& sealed(registered, with)
            &&& with.nodes == graph.nodes
            &&& no_error_enters(registered, with, target as int)
        },
    decreases sources.len(),
{
    if sources.len() > 0 {
        let earlier = sources.drop_last();
        assert forall|j: int| 0 <= j < earlier.len() implies (#[trigger] earlier[j])
            < graph.nodes.len() && shared(registered, graph.nodes[earlier[j] as int]) by {
            assert(earlier[j] == sources[j]);
        }
        lemma_edges_seal(registered, graph, earlier, target);
        if let Some(first) = graph.with_edges(earlier, target) {
            assert(sources[sources.len() - 1] < graph.nodes.len());
            lemma_edge_seals(registered, first, sources.last(), target);
        }
    }
}

/// A sealed graph stays sealed when a node is added, which no edge enters.
pub proof fn lemma_node_seals(registered: Registered, graph: GraphView, node: NodeView)
    requires
        sealed(registered, graph),
    ensures
        graph.with_node(node) matches Some((with, index)) ==> {
            &&& sealed(registered, with)
            &&& grows(graph, with)
            &&& index == graph.nodes.len()
            &&& with.nodes[index as int] == node
            &&& with.edges == graph.edges
            &&& no_error_enters(registered, with, index as int)
            &&& incoming(with.edges, index as int).len() == 0
        },
{
    if let Some((with, index)) = graph.with_node(node) {
        assert forall|e: int| 0 <= e < with.edges.len() implies (#[trigger] with.edges[e]).1
            != index as int by {
            assert(0 <= graph.edges[e].1 < graph.nodes.len());
        }
        lemma_no_incoming(with.edges, index as int);
        assert forall|e: int| 0 <= e < with.edges.len() implies with.nodes[(
        #[trigger] with.edges[e]).0] == graph.nodes[graph.edges[e].0] && with.nodes[with.edges[e].1]
            == graph.nodes[graph.edges[e].1] by {
            assert(0 <= graph.edges[e].0 < graph.nodes.len());
            assert(0 <= graph.edges[e].1 < graph.nodes.len());
        }
    }
}

/// A sealed graph stays sealed when an invocation is added that takes values
/// that may be shared, or that handles the error of the one `Err` branch that
/// it takes.
pub proof fn lemma_invocation_seals(
    registered: Registered,
    graph: GraphView,
    component: ComponentId,
    n_allowed_invocations: NumberOfAllowedInvocations,
    producers: Seq<usize>,
)
    requires
        sealed(registered, graph),
        forall|j: int|
            0 <= j < producers.len() ==> (#[trigger] producers[j]) < graph.nodes.len() && !handles(
                registered,
                graph.nodes[producers[j] as int],
            ),
        (forall|j: int|
            0 <= j < producers.len() ==> !errs(
                registered,
                graph.nodes[(#[trigger] producers[j]) as int],
            )) || (producers.len() == 1 && handles(
            registered,
            NodeView::Compute { component_id: component, n_allowed_invocations },
        )),
    ensures
        graph.with_invocation(component, n_allowed_invocations, producers) matches Some(
            (with, node),
        ) ==> {
            &&& sealed(registered, with)
            &&& grows(graph, with)
            &&& node == graph.nodes.len()
            &&& with.nodes[node as int] == (NodeView::Compute {
                component_id: component,
                n_allowed_invocations,
            })
        },
{
    let added = NodeView::Compute { component_id: component, n_allowed_invocations };
    lemma_node_seals(registered, graph, added);
    if let Some((first, node)) = graph.with_node(added) {
        assert forall|j: int| 0 <= j < producers.len() implies first.nodes[(
        #[trigger] producers[j]) as int] == graph.nodes[producers[j] as int] by {}
        if forall|j: int|
            0 <= j < producers.len() ==> !errs(
                registered,
                graph.nodes[(#[trigger] producers[j]) as int],
            ) {
            assert forall|j: int| 0 <= j < producers.len() implies (#[trigger] producers[j])
                < first.nodes.len() && shared(registered, first.nodes[producers[j] as int]) by {
                assert(first.nodes[producers[j] as int] == graph.nodes[producers[j] as int]);
            }
            lemma_edges_seal(registered, first, producers, node);
        } else {
            let none = producers.drop_last();
            assert(none =~= Seq::<usize>::empty());
            assert(first.with_edges(none, node) == Some(first));
            assert(producers[0] < graph.nodes.len());
            assert(first.nodes[producers[0] as int] == graph.nodes[producers[0] as int]);
            lemma_edge_seals(registered, first, producers.last(), node);
        }
    }
}

/// A sealed graph stays sealed when the fork on the result of a node is
/// added, whose value may be shared: so may the value of the `Ok` branch, and
/// the `Err` branch is no handler.
pub proof fn lemma_fork_seals_graph(
    registered: Registered,
    graph: GraphView,
    node: usize,
    ok: ComponentId,
    err: ComponentId,
    source: ComponentId,
)
    requires
        sealed(registered, graph),
        node < graph.nodes.len(),
        shared(registered, graph.nodes[node as int]),
        registered.projects(ok, source, MatchResultVariant::OkVariant),
        registered.projects(err, source, MatchResultVariant::ErrVariant),
    ensures
        graph.with_fork(node, ok, err) matches Some((with, ok_node, err_node)) ==> {
            &&& sealed(registered, with)
            &&& grows(graph, with)
            &&& ok_node < with.nodes.len()
            &&& shared(registered, with.nodes[ok_node as int])
            &&& err_node < with.nodes.len()
            &&& !handles(registered, with.nodes[err_node as int])
        },
{
    lemma_node_seals(registered, graph, NodeView::MatchBranching);
    if let Some((first, fork)) = graph.with_node(NodeView::MatchBranching) {
        assert(first.nodes[node as int] == graph.nodes[node as int]);
        lemma_edge_seals(registered, first, node, fork);
        if let Some(second) = first.with_edge(node, fork) {
            let one = seq![fork];
            assert(one[0] == fork);
            lemma_invocation_seals(registered, second, ok, NumberOfAllowedInvocations::Single, one);
            if let Some((third, ok_node)) = second.with_invocation(
                ok,
                NumberOfAllowedInvocations::Single,
                one,
            ) {
                assert(third.nodes[fork as int] == second.nodes[fork as int]);
                lemma_invocation_seals(
                    registered,
                    third,
                    err,
                    NumberOfAllowedInvocations::Single,
                    one,
                );
                if let Some((with, err_node)) = third.with_invocation(
                    err,
                    NumberOfAllowedInvocations::Single,
                    one,
                ) {
                    assert(with.nodes[ok_node as int] == third.nodes[ok_node as int]);
                }
            }
        }
    }
}

/// The graph is sealed, and the value of the node of each constructor that
/// has one may be shared.
pub open spec fn sealed_state(registered: Registered, state: BuildState) -> bool {
    &&& sealed(registered, state.graph)
    &&& forall|id: int|
        0 <= id < state.memo.len() ==> (#[trigger] state.memo[id] matches Some(node) ==> node
            < state.graph.nodes.len() && shared(registered, state.graph.nodes[node as int]))
}

/// Every error handler takes one value: the error.
pub open spec fn errors_taken_alone(registered: Registered) -> bool {
    forall|c: int|
        0 <= c < registered.components.len() ==> (#[trigger] error_handler_of(
            registered.components,
            ComponentId(c as usize),
        ) matches Some(handler) ==> takes_one_value(registered, handler))
}

/// The component `id` is a handler that takes one value.
pub open spec fn takes_one_value(registered: Registered, id: ComponentId) -> bool {
    &&& registered.knows(id)
    &&& registered.components[id.0 as int].is_handler()
    &&& registered.computation(id) matches Computation::Callable(callable)
    &&& callable.inputs@.len() == 1
}

/// What is at hand is no handler, and is at hand for a handler that takes one
/// value.
pub open spec fn provided_for_handler(
    registered: Registered,
    graph: GraphView,
    provided: Option<Provided>,
    consumer: ComponentId,
) -> bool {
    provided matches Some(p) ==> p.node < graph.nodes.len() && !handles(
        registered,
        graph.nodes[p.node as int],
    ) && takes_one_value(registered, consumer)
}

/// Each of `producers` is a node whose value may be shared, or what is at
/// hand.
pub open spec fn may_be_taken(
    registered: Registered,
    graph: GraphView,
    provided: Option<Provided>,
    producers: Seq<usize>,
) -> bool {
    forall|j: int|
        0 <= j < producers.len() ==> (#[trigger] producers[j]) < graph.nodes.len() && (shared(
            registered,
            graph.nodes[producers[j] as int],
        ) || (provided matches Some(p) && producers[j] == p.node))
}

/// A state that is sealed stays so when the graph grows into a sealed graph.
pub proof fn lemma_sealed_state_grows(registered: Registered, state: BuildState, graph: GraphView)
    requires
        sealed_state(registered, state),
        grows(state.graph, graph),
        sealed(registered, graph),
    ensures
        sealed_state(registered, BuildState { graph, ..state }),
{
}

/// [`Registered::resolve`] keeps the graph sealed, and the value of the node
/// that it finds may be shared.
pub proof fn lemma_resolve_seals(registered: Registered, fuel: nat, id: ComponentId, state: BuildState)
    requires
        errors_taken_alone(registered),
        state_ok(registered, state),
        sealed_state(registered, state),
        registered.knows(id) ==> registered.components[id.0 as int] is Constructor,
    ensures
        registered.resolve(fuel, id, state) matches Ok((after, node)) ==> {
            &&& sealed_state(registered, after)
            &&& node < after.graph.nodes.len()
            &&& shared(registered, after.graph.nodes[node as int])
        },
    decreases fuel, 0nat, 0nat,
{
    if id.0 >= state.memo.len() || id.0 >= state.in_progress.len() || !registered.knows(id) {
    } else if state.memo[id.0 as int] is Some {
    } else if state.in_progress[id.0 as int] {
    } else if fuel == 0 {
    } else {
        let started = BuildState {
            in_progress: state.in_progress.update(id.0 as int, true),
            ..state
        };
        assert(state_ok(registered, started));
        assert(sealed_state(registered, started));
        lemma_invoke(registered, (fuel - 1) as nat, id, None, started);
        lemma_invoke_seals(registered, (fuel - 1) as nat, id, None, started);
        if let Ok((invoked, node)) = registered.invoke((fuel - 1) as nat, id, None, started) {
            assert(shared(registered, invoked.graph.nodes[node as int]));
            let is_fallible = registered.computation(id) matches Computation::Callable(
                Callable { fallibility: Fallibility::Fallible { .. }, .. },
            );
            if is_fallible {
                lemma_fork(registered, (fuel - 1) as nat, id, node, invoked);
                lemma_fork_seals(registered, (fuel - 1) as nat, id, node, invoked);
            }
            let forked = if is_fallible {
                registered.fork((fuel - 1) as nat, id, node, invoked)
            } else {
                Ok((invoked, node))
            };
            if let Ok((done, value)) = forked {
                if id.0 < done.memo.len() && id.0 < done.in_progress.len() {
                    let after = BuildState {
                        memo: done.memo.update(id.0 as int, Some(value)),
                        in_progress: done.in_progress.update(id.0 as int, false),
                        ..done
                    };
                    assert forall|other: int| 0 <= other < after.memo.len() implies (
                    #[trigger] after.memo[other] matches Some(n) ==> n < after.graph.nodes.len()
                        && shared(registered, after.graph.nodes[n as int])) by {
                        if other != id.0 {
                            assert(after.memo[other] == done.memo[other]);
                        }
                    }
                }
            }
        }
    }
}

/// [`Registered::fork`] keeps the graph sealed, and the value of the `Ok`
/// branch may be shared.
pub proof fn lemma_fork_seals(
    registered: Registered,
    fuel: nat,
    id: ComponentId,
    node: usize,
    state: BuildState,
)
    requires
        errors_taken_alone(registered),
        state_ok(registered, state),
        sealed_state(registered, state),
        is_value_node(state.graph, node),
        shared(registered, state.graph.nodes[node as int]),
        registered.knows(id),
    ensures
        registered.fork(fuel, id, node, state) matches Ok((after, ok_node)) ==> {
            &&& sealed_state(registered, after)
            &&& ok_node < after.graph.nodes.len()
            &&& shared(registered, after.graph.nodes[ok_node as int])
        },
    decreases fuel, 4nat, 0nat,
{
    if let Some(handler) = error_handler_of(registered.components, id) {
        assert(error_handler_of(registered.components, ComponentId(id.0 as int as usize)) == Some(
            handler,
        ));
        assert(takes_one_value(registered, handler));
        let ok = registered.projection_of(id, MatchResultVariant::OkVariant, 0);
        let err = registered.projection_of(id, MatchResultVariant::ErrVariant, 0);
        lemma_projection_of(registered, id, MatchResultVariant::OkVariant, 0);
        lemma_projection_of(registered, id, MatchResultVariant::ErrVariant, 0);
        if ok is Some && err is Some {
            let ok = ok->0;
            let err = err->0;
            lemma_with_fork(registered, state.graph, node, ok, err, id);
            lemma_fork_seals_graph(registered, state.graph, node, ok, err, id);
            if let Some((graph, ok_node, err_node)) = state.graph.with_fork(node, ok, err) {
                let forked = BuildState { graph, ..state };
                lemma_state_grows(registered, state, graph);
                lemma_sealed_state_grows(registered, state, graph);
                let provided = Some(Provided { type_: registered.produced_type(err), node: err_node });
                lemma_invoke(registered, fuel, handler, provided, forked);
                lemma_invoke_seals(registered, fuel, handler, provided, forked);
                if let Ok((handled, _)) = registered.invoke(fuel, handler, provided, forked) {
                    assert(handled.graph.nodes[ok_node as int] == graph.nodes[ok_node as int]);
                }
            }
        }
    }
}

/// [`Registered::invoke`] keeps the graph sealed.
pub proof fn lemma_invoke_seals(
    registered: Registered,
    fuel: nat,
    id: ComponentId,
    provided: Option<Provided>,
    state: BuildState,
)
    requires
        errors_taken_alone(registered),
        state_ok(registered, state),
        sealed_state(registered, state),
        provided_ok(state.graph, provided),
        provided_for_handler(registered, state.graph, provided, id),
    ensures
        registered.invoke(fuel, id, provided, state) matches Ok((after, node)) ==> sealed_state(
            registered,
            after,
        ),
    decreases fuel, 3nat, 0nat,
{
    if registered.knows(id) {
        if let Computation::Callable(callable) = registered.computation(id) {
            let types = type_views(callable.inputs@);
            lemma_resolve_inputs(registered, fuel, id, types, provided, state, Seq::empty());
            lemma_resolve_inputs_seal(registered, fuel, id, types, provided, state, Seq::empty());
            if let Ok((resolved, producers)) = registered.resolve_inputs(
                fuel,
                id,
                types,
                provided,
                state,
                Seq::empty(),
            ) {
                let n = registered.n_allowed_invocations(id);
                assert(producers.len() == types.len());
                assert forall|j: int| 0 <= j < producers.len() implies (#[trigger] producers[j])
                    < resolved.graph.nodes.len() && !handles(
                    registered,
                    resolved.graph.nodes[producers[j] as int],
                ) by {
                    if provided is Some && producers[j] == provided->0.node {
                        assert(resolved.graph.nodes[producers[j] as int]
                            == state.graph.nodes[producers[j] as int]);
                    }
                }
                if provided is None {
                    assert forall|j: int| 0 <= j < producers.len() implies !errs(
                        registered,
                        resolved.graph.nodes[(#[trigger] producers[j]) as int],
                    ) by {}
                }
                lemma_with_invocation(registered, resolved.graph, id, producers);
                lemma_invocation_seals(registered, resolved.graph, id, n, producers);
                if let Some((graph, node)) = resolved.graph.with_invocation(id, n, producers) {
                    lemma_sealed_state_grows(registered, resolved, graph);
                }
            }
        }
    }
}

/// [`Registered::resolve_inputs`] keeps the graph sealed, and finds a node
/// for each type: one whose value may be shared, or what is at hand.
pub proof fn lemma_resolve_inputs_seal(
    registered: Registered,
    fuel: nat,
    consumer: ComponentId,
    types: Seq<TypeView>,
    provided: Option<Provided>,
    state: BuildState,
    producers: Seq<usize>,
)
    requires
        errors_taken_alone(registered),
        state_ok(registered, state),
        sealed_state(registered, state),
        provided_ok(state.graph, provided),
        provided_for_handler(registered, state.graph, provided, consumer),
        are_value_nodes(state.graph, producers),
        may_be_taken(registered, state.graph, provided, producers),
    ensures
        registered.resolve_inputs(fuel, consumer, types, provided, state, producers) matches Ok(
            (after, all),
        ) ==> {
            &&& sealed_state(registered, after)
            &&& grows(state.graph, after.graph)
            &&& all.len() == producers.len() + types.len()
            &&& may_be_taken(registered, after.graph, provided, all)
        },
    decreases fuel, 2nat, types.len(),
{
    if types.len() > 0 {
        let input = producers.len() as usize;
        lemma_resolve_type(registered, fuel, consumer, input, types[0], provided, state);
        lemma_resolve_type_seals(registered, fuel, consumer, input, types[0], provided, state);
        if let Ok((next, producer)) = registered.resolve_type(
            fuel,
            consumer,
            input,
            types[0],
            provided,
            state,
        ) {
            let found = producers.push(producer);
            assert forall|j: int| 0 <= j < found.len() implies is_value_node(
                next.graph,
                #[trigger] found[j],
            ) by {
                if j < producers.len() {
                    assert(found[j] == producers[j]);
                    assert(is_value_node(state.graph, producers[j]));
                }
            }
            assert(may_be_taken(registered, next.graph, provided, found)) by {
                assert forall|j: int| 0 <= j < found.len() implies (#[trigger] found[j])
                    < next.graph.nodes.len() && (shared(
                    registered,
                    next.graph.nodes[found[j] as int],
                ) || (provided matches Some(p) && found[j] == p.node)) by {
                    if j < producers.len() {
                        assert(found[j] == producers[j]);
                        assert(next.graph.nodes[producers[j] as int]
                            == state.graph.nodes[producers[j] as int]);
                    }
                }
            }
            lemma_resolve_inputs_seal(
                registered,
                fuel,
                consumer,
                types.drop_first(),
                provided,
                next,
                found,
            );
        }
    }
}

/// [`Registered::resolve_type`] keeps the graph sealed, and finds a node
/// whose value may be shared, or what is at hand.
pub proof fn lemma_resolve_type_seals(
    registered: Registered,
    fuel: nat,
    consumer: ComponentId,
    input: usize,
    type_: TypeView,
    provided: Option<Provided>,
    state: BuildState,
)
    requires
        errors_taken_alone(registered),
        state_ok(registered, state),
        sealed_state(registered, state),
        provided_ok(state.graph, provided),
        provided_for_handler(registered, state.graph, provided, consumer),
    ensures
        registered.resolve_type(fuel, consumer, input, type_, provided, state) matches Ok(
            (after, node),
        ) ==> {
            &&& sealed_state(registered, after)
            &&& node < after.graph.nodes.len()
            &&& shared(registered, after.graph.nodes[node as int]) || (provided matches Some(p)
                && node == p.node)
        },
    decreases fuel, 1nat, 0nat,
{
    if provided is Some && provided->0.type_ == type_ {
    } else {
        let constructors = registered.constructors_of(type_, registered.components.len());
        if constructors.len() == 0 {
            if registered.externals.contains(type_) {
                lemma_input_parameter(state.graph, type_, 0);
                let added = NodeView::InputParameter(type_);
                lemma_node_seals(registered, state.graph, added);
                if let Some((graph, node)) = state.graph.with_node(added) {
                    lemma_sealed_state_grows(registered, state, graph);
                }
            }
        } else if constructors.len() == 1 {
            lemma_constructors_of(registered, type_, registered.components.len());
            assert(registered.constructs(ComponentId(constructors[0]), type_));
            lemma_resolve(registered, fuel, ComponentId(constructors[0]), state);
            lemma_resolve_seals(registered, fuel, ComponentId(constructors[0]), state);
        }
    }
}

/// Where every error handler takes the error alone, every call graph that is
/// built is sealed.
pub proof fn lemma_call_graph_is_sealed(registered: Registered, handler: ComponentId)
    requires
        errors_taken_alone(registered),
    ensures
        registered.call_graph(handler) matches Ok((graph, root)) ==> sealed(registered, graph),
{
    let start = registered.start();
    assert(well_formed(registered, start.graph)) by {
        reveal(crate::well_formed::distinct_inputs);
        reveal(crate::well_formed::edges_in_order);
        reveal(crate::well_formed::forks_and_branches);
        reveal(crate::well_formed::invocations_registered);
    }
    lemma_invoke_seals(registered, registered.components.len(), handler, None, start);
}

} // verus!

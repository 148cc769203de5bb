//! What every call graph that is built delivers: each invocation of a callable
//! has, for each input of the callable, an edge from a node whose value has
//! the type of the input.

use crate::builder::BuildState;
use crate::builder::Provided;
use crate::builder::Registered;
use crate::call_graph::GraphView;
use crate::call_graph::NodeView;
use crate::call_graph::NumberOfAllowedInvocations;
use crate::codegen_utils::type_views;
use crate::component::error_handler_of;
use crate::component::ComponentId;
use crate::computation::Computation;
use crate::computation::MatchResultVariant;
use crate::language::Callable;
use crate::language::Fallibility;
use crate::language::TypeView;
use crate::well_formed::grows;
use crate::well_formed::is_value_node;
use crate::well_formed::lemma_fork;
use crate::well_formed::lemma_input_parameter;
use crate::well_formed::lemma_invoke;
use crate::well_formed::lemma_projection_of;
use crate::well_formed::lemma_resolve_inputs;
use crate::well_formed::lemma_resolve_type;
use crate::well_formed::lemma_state_grows;
use crate::well_formed::lemma_with_fork;
use crate::well_formed::lemma_with_invocation;
use crate::well_formed::provided_ok;
use crate::well_formed::are_value_nodes;
use crate::well_formed::state_ok;
use crate::well_formed::well_formed;
use vstd::prelude::*;

verus! {

/// The type of the value of `node`: that of what its component returns, or of
/// the input parameter; a fork has no value.
pub open spec fn value_type(registered: Registered, node: NodeView) -> Option<TypeView> {
    match node {
        NodeView::Compute { component_id, .. } => Some(
            registered.computation(component_id).spec_output_type()@,
        ),
        NodeView::InputParameter(type_) => Some(type_),
        NodeView::MatchBranching => None,
    }
}

/// The node `node` of `graph` has a value of the type `type_`.
pub open spec fn carries(registered: Registered, graph: GraphView, node: usize, type_: TypeView) -> bool {
    &&& node < graph.nodes.len()
    &&& value_type(registered, graph.nodes[node as int]) == Some(type_)
}

/// An edge leads to `node` from a node that has a value of the type `type_`.
pub open spec fn has_input(registered: Registered, graph: GraphView, node: int, type_: TypeView) -> bool {
    exists|e: int|
        0 <= e < graph.edges.len() && (#[trigger] graph.edges[e]).1 == node && 0
            <= graph.edges[e].0 < graph.nodes.len() && value_type(
            registered,
            graph.nodes[graph.edges[e].0],
        ) == Some(type_)
}

/// `node` is the invocation of a registered callable.
pub open spec fn is_call(registered: Registered, node: NodeView) -> bool {
    &&& node matches NodeView::Compute { component_id, .. }
    &&& registered.knows(component_id)
    &&& registered.computation(component_id) is Callable
}

/// The types of what the callable that `node` invokes takes, in the order of
/// its signature.
pub open spec fn call_inputs(registered: Registered, node: NodeView) -> Seq<TypeView> {
    type_views(registered.computation(node->component_id)->Callable_0.inputs@)
}

/// The invocation `node` has an edge for the input number `k` of its callable.
pub open spec fn input_is_wired(registered: Registered, graph: GraphView, node: int, k: int) -> bool {
    has_input(registered, graph, node, call_inputs(registered, graph.nodes[node])[k])
}

/// Each invocation of a callable in `graph` has, for each input of the
/// callable, an edge from a node whose value has the type of the input.
#[verifier::opaque]
pub open spec fn wired(registered: Registered, graph: GraphView) -> bool {
    forall|i: int, k: int|
        0 <= i < graph.nodes.len() && is_call(registered, graph.nodes[i]) && 0 <= k < call_inputs(
            registered,
            graph.nodes[i],
        ).len() ==> #[trigger] input_is_wired(registered, graph, i, k)
}

/// The nodes and the edges of `before` are the first nodes and edges of
/// `after`.
pub open spec fn extends(before: GraphView, after: GraphView) -> bool {
    &&& grows(before, after)
    &&& before.edges.len() <= after.edges.len()
    &&& forall|e: int| 0 <= e < before.edges.len() ==> #[trigger] after.edges[e] == before.edges[e]
}

/// The graph is wired, and the node of each constructor that has one has a
/// value of the type that the constructor builds.
pub open spec fn wired_state(registered: Registered, state: BuildState) -> bool {
    &&& wired(registered, state.graph)
    &&& forall|id: int|
        0 <= id < state.memo.len() ==> (#[trigger] state.memo[id] matches Some(node) ==> carries(
            registered,
            state.graph,
            node,
            registered.produced_type(ComponentId(id as usize)),
        ))
}

/// What is at hand has a value of its type.
pub open spec fn provided_carries(
    registered: Registered,
    graph: GraphView,
    provided: Option<Provided>,
) -> bool {
    provided matches Some(p) ==> carries(registered, graph, p.node, p.type_)
}

/// Each of `nodes` has a value of the type at its position in `types`.
pub open spec fn carry(
    registered: Registered,
    graph: GraphView,
    nodes: Seq<usize>,
    types: Seq<TypeView>,
) -> bool {
    &&& nodes.len() == types.len()
    &&& forall|j: int|
        0 <= j < nodes.len() ==> carries(registered, graph, #[trigger] nodes[j], types[j])
}

/// An input that has its edge keeps it when the graph is extended.
pub proof fn lemma_has_input_extends(
    registered: Registered,
    before: GraphView,
    after: GraphView,
    node: int,
    type_: TypeView,
)
    requires
        extends(before, after),
        has_input(registered, before, node, type_),
    ensures
        has_input(registered, after, node, type_),
{
    let e = choose|e: int|
        0 <= e < before.edges.len() && (#[trigger] before.edges[e]).1 == node && 0
            <= before.edges[e].0 < before.nodes.len() && value_type(
            registered,
            before.nodes[before.edges[e].0],
        ) == Some(type_);
    assert(after.edges[e] == before.edges[e]);
    assert(after.nodes[before.edges[e].0] == before.nodes[before.edges[e].0]);
}

/// A wired graph stays wired when it is extended by nodes that are wired or
/// no invocations of callables.
pub proof fn lemma_wired_extends(registered: Registered, before: GraphView, after: GraphView)
    requires
        wired(registered, before),
        extends(before, after),
        forall|i: int, k: int|
            before.nodes.len() <= i < after.nodes.len() && is_call(registered, after.nodes[i]) && 0
                <= k < call_inputs(registered, after.nodes[i]).len() ==> #[trigger] input_is_wired(
                registered,
                after,
                i,
                k,
            ),
    ensures
        wired(registered, after),
{
    reveal(wired);
    assert forall|i: int, k: int|
        0 <= i < after.nodes.len() && is_call(registered, after.nodes[i]) && 0 <= k < call_inputs(
            registered,
            after.nodes[i],
        ).len() implies #[trigger] input_is_wired(registered, after, i, k) by {
        if i < before.nodes.len() {
            assert(after.nodes[i] == before.nodes[i]);
            assert(input_is_wired(registered, before, i, k));
            lemma_has_input_extends(
                registered,
                before,
                after,
                i,
                call_inputs(registered, before.nodes[i])[k],
            );
        }
    }
}

/// A node keeps its value when the graph grows.
pub proof fn lemma_carries_grows(
    registered: Registered,
    before: GraphView,
    after: GraphView,
    node: usize,
    type_: TypeView,
)
    requires
        grows(before, after),
        carries(registered, before, node, type_),
    ensures
        carries(registered, after, node, type_),
{
    assert(after.nodes[node as int] == before.nodes[node as int]);
}

/// A wired state stays wired when its graph grows into one that is wired.
pub proof fn lemma_wired_state_grows(registered: Registered, state: BuildState, graph: GraphView)
    requires
        wired_state(registered, state),
        grows(state.graph, graph),
        wired(registered, graph),
    ensures
        wired_state(registered, BuildState { graph, ..state }),
{
    assert forall|id: int| 0 <= id < state.memo.len() implies (#[trigger] state.memo[id]
        matches Some(node) ==> carries(
        registered,
        graph,
        node,
        registered.produced_type(ComponentId(id as usize)),
    )) by {
        if let Some(node) = state.memo[id] {
            lemma_carries_grows(
                registered,
                state.graph,
                graph,
                node,
                registered.produced_type(ComponentId(id as usize)),
            );
        }
    }
}

/// The edges that [`GraphView::with_edges`] adds: one from each source to the
/// target, in the order of the sources, after the edges that were there.
pub proof fn lemma_with_edges_adds(graph: GraphView, sources: Seq<usize>, target: usize)
    ensures
        graph.with_edges(sources, target) matches Some(with) ==> {
            &&& with.nodes == graph.nodes
            &&& with.edges == graph.edges + Seq::new(
                sources.len(),
                |k: int| (sources[k] as int, target as int),
            )
        },
    decreases sources.len(),
{
    if sources.len() == 0 {
        assert(graph.edges + Seq::new(0, |k: int| (sources[k] as int, target as int))
            =~= graph.edges);
    } else {
        let earlier = sources.drop_last();
        lemma_with_edges_adds(graph, earlier, target);
        if let Some(with) = graph.with_edges(sources, target) {
            let first = graph.with_edges(earlier, target)->0;
            assert(with.edges =~= graph.edges + Seq::new(
                sources.len(),
                |k: int| (sources[k] as int, target as int),
            )) by {
                assert(first.edges == graph.edges + Seq::new(
                    earlier.len(),
                    |k: int| (earlier[k] as int, target as int),
                ));
                assert(with.edges == first.edges.push((sources.last() as int, target as int)));
            }
        }
    }
}

/// A wired graph stays wired when the invocation of a callable is added, into
/// which edges lead from nodes that have values of the types of its inputs;
/// the new node has a value of the type that the callable returns.
pub proof fn lemma_invocation_is_wired(
    registered: Registered,
    graph: GraphView,
    component: ComponentId,
    n_allowed_invocations: NumberOfAllowedInvocations,
    producers: Seq<usize>,
)
    requires
        wired(registered, graph),
        registered.knows(component),
        registered.computation(component) is Callable,
        carry(
            registered,
            graph,
            producers,
            type_views(registered.computation(component)->Callable_0.inputs@),
        ),
    ensures
        graph.with_invocation(component, n_allowed_invocations, producers) matches Some(
            (with, index),
        ) ==> {
            &&& wired(registered, with)
            &&& extends(graph, with)
            &&& carries(
                registered,
                with,
                index,
                registered.computation(component)->Callable_0.output@,
            )
        },
{
    let node = NodeView::Compute { component_id: component, n_allowed_invocations };
    if let Some((with, index)) = graph.with_invocation(component, n_allowed_invocations, producers) {
        let (added, _) = graph.with_node(node)->0;
        lemma_with_edges_adds(added, producers, index);
        let inputs = type_views(registered.computation(component)->Callable_0.inputs@);
        assert(extends(graph, with));
        assert forall|i: int, k: int|
            graph.nodes.len() <= i < with.nodes.len() && is_call(registered, with.nodes[i]) && 0
                <= k < call_inputs(registered, with.nodes[i]).len() implies #[trigger] input_is_wired(
            registered,
            with,
            i,
            k,
        ) by {
            let e = graph.edges.len() + k;
            assert(with.edges[e] == (producers[k] as int, index as int));
            assert(carries(registered, graph, producers[k], inputs[k]));
            assert(with.nodes[producers[k] as int] == graph.nodes[producers[k] as int]);
        }
        lemma_wired_extends(registered, graph, with);
    }
}

/// A wired graph stays wired when a fork and its two branches are added; each
/// branch has a value of the type that its projection names.
pub proof fn lemma_fork_is_wired(
    registered: Registered,
    graph: GraphView,
    node: usize,
    ok: ComponentId,
    err: ComponentId,
    source: ComponentId,
)
    requires
        wired(registered, graph),
        registered.projects(ok, source, MatchResultVariant::OkVariant),
        registered.projects(err, source, MatchResultVariant::ErrVariant),
    ensures
        graph.with_fork(node, ok, err) matches Some((with, ok_node, err_node)) ==> {
            &&& wired(registered, with)
            &&& carries(registered, with, ok_node, registered.produced_type(ok))
            &&& carries(registered, with, err_node, registered.produced_type(err))
        },
{
    if let Some((with, ok_node, err_node)) = graph.with_fork(node, ok, err) {
        let single = NumberOfAllowedInvocations::Single;
        let fork = graph.nodes.len() as usize;
        let (forked, _) = graph.with_node(NodeView::MatchBranching)->0;
        let entered = forked.with_edge(node, fork)->0;
        let (with_ok, _) = entered.with_node(
            NodeView::Compute { component_id: ok, n_allowed_invocations: single },
        )->0;
        lemma_with_edges_adds(with_ok, seq![fork], ok_node);
        let ok_joined = with_ok.with_edges(seq![fork], ok_node)->0;
        let (with_err, _) = ok_joined.with_node(
            NodeView::Compute { component_id: err, n_allowed_invocations: single },
        )->0;
        lemma_with_edges_adds(with_err, seq![fork], err_node);
        assert(extends(graph, with));
        assert forall|i: int, k: int|
            graph.nodes.len() <= i < with.nodes.len() && is_call(registered, with.nodes[i]) && 0
                <= k < call_inputs(registered, with.nodes[i]).len() implies #[trigger] input_is_wired(
            registered,
            with,
            i,
            k,
        ) by {
            assert(i == fork || i == ok_node || i == err_node);
        }
        lemma_wired_extends(registered, graph, with);
    }
}

/// The constructors that [`Registered::constructors_of`] lists construct the
/// type.
pub proof fn lemma_constructors_of(registered: Registered, type_: TypeView, n: nat)
    ensures
        forall|i: int|
            0 <= i < registered.constructors_of(type_, n).len() ==> registered.constructs(
                ComponentId(#[trigger] registered.constructors_of(type_, n)[i]),
                type_,
            ),
    decreases n,
{
    if n > 0 {
        lemma_constructors_of(registered, type_, (n - 1) as nat);
        let earlier = registered.constructors_of(type_, (n - 1) as nat);
        assert forall|i: int| 0 <= i < registered.constructors_of(type_, n).len() implies registered.constructs(
            ComponentId(#[trigger] registered.constructors_of(type_, n)[i]),
            type_,
        ) by {
            if i < earlier.len() {
                assert(registered.constructors_of(type_, n)[i] == earlier[i]);
            }
        }
    }
}

/// [`Registered::resolve`] keeps the graph wired, and finds a node that has a
/// value of the type that the constructor builds.
pub proof fn lemma_resolve_wires(registered: Registered, fuel: nat, id: ComponentId, state: BuildState)
    requires
        state_ok(registered, state),
        wired_state(registered, state),
    ensures
        registered.resolve(fuel, id, state) matches Ok((after, node)) ==> {
            &&& wired_state(registered, after)
            &&& carries(registered, after.graph, node, registered.produced_type(id))
        },
    decreases fuel, 0nat, 0nat,
{
    if id.0 >= state.memo.len() || id.0 >= state.in_progress.len() || !registered.knows(id) {
    } else if state.memo[id.0 as int] is Some {
    } else if state.in_progress[id.0 as int] {
    } else if fuel == 0 {
    } else {
        let started = BuildState {
            in_progress: state.in_progress.update(id.0 as int, true),
            ..state
        };
        assert(state_ok(registered, started));
        assert(wired_state(registered, started));
        lemma_invoke(registered, (fuel - 1) as nat, id, None, started);
        lemma_invoke_wires(registered, (fuel - 1) as nat, id, None, started);
        if let Ok((invoked, node)) = registered.invoke((fuel - 1) as nat, id, None, started) {
            let is_fallible = registered.computation(id) matches Computation::Callable(
                Callable { fallibility: Fallibility::Fallible { .. }, .. },
            );
            if is_fallible {
                lemma_fork(registered, (fuel - 1) as nat, id, node, invoked);
                lemma_fork_wires(registered, (fuel - 1) as nat, id, node, invoked);
            }
            let forked = if is_fallible {
                registered.fork((fuel - 1) as nat, id, node, invoked)
            } else {
                Ok((invoked, node))
            };
            if let Ok((done, value)) = forked {
                if id.0 < done.memo.len() && id.0 < done.in_progress.len() {
                    let after = BuildState {
                        memo: done.memo.update(id.0 as int, Some(value)),
                        in_progress: done.in_progress.update(id.0 as int, false),
                        ..done
                    };
                    assert(carries(registered, done.graph, value, registered.produced_type(id)));
                    assert forall|other: int| 0 <= other < after.memo.len() implies (
                    #[trigger] after.memo[other] matches Some(n) ==> carries(
                        registered,
                        after.graph,
                        n,
                        registered.produced_type(ComponentId(other as usize)),
                    )) by {
                        if other != id.0 {
                            assert(after.memo[other] == done.memo[other]);
                        }
                    }
                }
            }
        }
    }
}

/// [`Registered::fork`] keeps the graph wired, and finds a node that has a
/// value of the type of the `Ok` branch.
pub proof fn lemma_fork_wires(
    registered: Registered,
    fuel: nat,
    id: ComponentId,
    node: usize,
    state: BuildState,
)
    requires
        state_ok(registered, state),
        wired_state(registered, state),
        is_value_node(state.graph, node),
        registered.knows(id),
        registered.computation(id) matches Computation::Callable(
            Callable { fallibility: Fallibility::Fallible { .. }, .. },
        ),
    ensures
        registered.fork(fuel, id, node, state) matches Ok((after, ok_node)) ==> {
            &&& wired_state(registered, after)
            &&& carries(registered, after.graph, ok_node, registered.produced_type(id))
        },
    decreases fuel, 4nat, 0nat,
{
    if let Some(handler) = error_handler_of(registered.components, id) {
        let ok = registered.projection_of(id, MatchResultVariant::OkVariant, 0);
        let err = registered.projection_of(id, MatchResultVariant::ErrVariant, 0);
        lemma_projection_of(registered, id, MatchResultVariant::OkVariant, 0);
        lemma_projection_of(registered, id, MatchResultVariant::ErrVariant, 0);
        if ok is Some && err is Some {
            let ok = ok->0;
            let err = err->0;
            lemma_with_fork(registered, state.graph, node, ok, err, id);
            lemma_fork_is_wired(registered, state.graph, node, ok, err, id);
            if let Some((graph, ok_node, err_node)) = state.graph.with_fork(node, ok, err) {
                let forked = BuildState { graph, ..state };
                lemma_state_grows(registered, state, graph);
                lemma_wired_state_grows(registered, state, graph);
                let provided = Some(Provided { type_: registered.produced_type(err), node: err_node });
                lemma_invoke(registered, fuel, handler, provided, forked);
                lemma_invoke_wires(registered, fuel, handler, provided, forked);
                if let Ok((handled, _)) = registered.invoke(fuel, handler, provided, forked) {
                    lemma_carries_grows(
                        registered,
                        graph,
                        handled.graph,
                        ok_node,
                        registered.produced_type(ok),
                    );
                }
            }
        }
    }
}

/// [`Registered::invoke`] keeps the graph wired, and the invocation that it
/// adds has a value of the type that the callable returns.
pub proof fn lemma_invoke_wires(
    registered: Registered,
    fuel: nat,
    id: ComponentId,
    provided: Option<Provided>,
    state: BuildState,
)
    requires
        state_ok(registered, state),
        wired_state(registered, state),
        provided_ok(state.graph, provided),
        provided_carries(registered, state.graph, provided),
    ensures
        registered.invoke(fuel, id, provided, state) matches Ok((after, node)) ==> {
            &&& wired_state(registered, after)
            &&& carries(
                registered,
                after.graph,
                node,
                registered.computation(id)->Callable_0.output@,
            )
        },
    decreases fuel, 3nat, 0nat,
{
    if registered.knows(id) {
        if let Computation::Callable(callable) = registered.computation(id) {
            let types = type_views(callable.inputs@);
            lemma_resolve_inputs(registered, fuel, id, types, provided, state, Seq::empty());
            assert(Seq::<TypeView>::empty() + types =~= types);
            lemma_resolve_inputs_wire(
                registered,
                fuel,
                id,
                types,
                provided,
                state,
                Seq::empty(),
                Seq::empty(),
            );
            if let Ok((resolved, producers)) = registered.resolve_inputs(
                fuel,
                id,
                types,
                provided,
                state,
                Seq::empty(),
            ) {
                let n = registered.n_allowed_invocations(id);
                lemma_with_invocation(registered, resolved.graph, id, producers);
                lemma_invocation_is_wired(registered, resolved.graph, id, n, producers);
                if let Some((graph, node)) = resolved.graph.with_invocation(id, n, producers) {
                    lemma_wired_state_grows(registered, resolved, graph);
                }
            }
        }
    }
}

/// [`Registered::resolve_inputs`] keeps the graph wired, and what it finds has
/// values of the types that were asked for.
pub proof fn lemma_resolve_inputs_wire(
    registered: Registered,
    fuel: nat,
    consumer: ComponentId,
    types: Seq<TypeView>,
    provided: Option<Provided>,
    state: BuildState,
    producers: Seq<usize>,
    found: Seq<TypeView>,
)
    requires
        state_ok(registered, state),
        wired_state(registered, state),
        provided_ok(state.graph, provided),
        provided_carries(registered, state.graph, provided),
        are_value_nodes(state.graph, producers),
        carry(registered, state.graph, producers, found),
    ensures
        registered.resolve_inputs(fuel, consumer, types, provided, state, producers) matches Ok(
            (after, all),
        ) ==> {
            &&& wired_state(registered, after)
            &&& carry(registered, after.graph, all, found + types)
        },
    decreases fuel, 2nat, types.len(),
{
    if types.len() == 0 {
        assert(found + types =~= found);
    } else {
        let input = producers.len() as usize;
        lemma_resolve_type(registered, fuel, consumer, input, types[0], provided, state);
        lemma_resolve_type_wires(registered, fuel, consumer, input, types[0], provided, state);
        if let Ok((next, producer)) = registered.resolve_type(
            fuel,
            consumer,
            input,
            types[0],
            provided,
            state,
        ) {
            let more = producers.push(producer);
            let types_found = found.push(types[0]);
            assert forall|j: int| 0 <= j < more.len() implies carries(
                registered,
                next.graph,
                #[trigger] more[j],
                types_found[j],
            ) && is_value_node(next.graph, more[j]) by {
                if j < producers.len() {
                    assert(is_value_node(state.graph, producers[j]));
                    lemma_carries_grows(
                        registered,
                        state.graph,
                        next.graph,
                        producers[j],
                        found[j],
                    );
                }
            }
            if let Some(p) = provided {
                lemma_carries_grows(registered, state.graph, next.graph, p.node, p.type_);
            }
            lemma_resolve_inputs_wire(
                registered,
                fuel,
                consumer,
                types.drop_first(),
                provided,
                next,
                more,
                types_found,
            );
            assert(types_found + types.drop_first() =~= found + types);
        }
    }
}

/// [`Registered::resolve_type`] keeps the graph wired, and finds a node that
/// has a value of the type that was asked for.
pub proof fn lemma_resolve_type_wires(
    registered: Registered,
    fuel: nat,
    consumer: ComponentId,
    input: usize,
    type_: TypeView,
    provided: Option<Provided>,
    state: BuildState,
)
    requires
        state_ok(registered, state),
        wired_state(registered, state),
        provided_ok(state.graph, provided),
        provided_carries(registered, state.graph, provided),
    ensures
        registered.resolve_type(fuel, consumer, input, type_, provided, state) matches Ok(
            (after, node),
        ) ==> {
            &&& wired_state(registered, after)
            &&& carries(registered, after.graph, node, type_)
        },
    decreases fuel, 1nat, 0nat,
{
    if provided is Some && provided->0.type_ == type_ {
    } else {
        let constructors = registered.constructors_of(type_, registered.components.len());
        if constructors.len() == 0 {
            if registered.externals.contains(type_) {
                lemma_input_parameter(state.graph, type_, 0);
                if state.graph.input_parameter(type_, 0) is None {
                    let node = NodeView::InputParameter(type_);
                    if let Some((graph, index)) = state.graph.with_node(node) {
                        assert(extends(state.graph, graph));
                        lemma_wired_extends(registered, state.graph, graph);
                        lemma_wired_state_grows(registered, state, graph);
                    }
                }
            }
        } else if constructors.len() >= 2 {
        } else {
            lemma_constructors_of(registered, type_, registered.components.len());
            assert(registered.constructs(ComponentId(constructors[0]), type_));
            lemma_resolve_wires(registered, fuel, ComponentId(constructors[0]), state);
        }
    }
}

/// Every call graph that is built is wired: each invocation of a callable has,
/// for each input of the callable, an edge from a node whose value has the
/// type of the input.
pub proof fn lemma_call_graph_is_wired(registered: Registered, handler: ComponentId)
    ensures
        registered.call_graph(handler) matches Ok((graph, root)) ==> wired(registered, graph),
{
    let start = registered.start();
    assert(wired(registered, start.graph)) by {
        reveal(wired);
    }
    assert(well_formed(registered, start.graph)) by {
        reveal(crate::well_formed::distinct_inputs);
        reveal(crate::well_formed::edges_in_order);
        reveal(crate::well_formed::forks_and_branches);
        reveal(crate::well_formed::invocations_registered);
    }
    lemma_invoke_wires(registered, registered.components.len(), handler, None, start);
}

} // verus!

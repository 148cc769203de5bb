//! What holds of everything that is generated.

use crate::builder::Registered;
use crate::call_graph::lemma_required_inputs;
use crate::call_graph::required_inputs;
use crate::call_graph::GraphView;
use crate::call_graph::NodeView;
use crate::call_graph::NumberOfAllowedInvocations;
use crate::emission::handler_for;
use crate::emission::parameters_for;
use crate::emission::EmitState;
use crate::emission::Env;
use crate::call_graph::is_first_position;
use crate::call_graph::lemma_incoming_within;
use crate::shape::edges_within;
use crate::call_graph::type_position;
use crate::call_graph::IncomingEdge;
use crate::component::hydrates;
use crate::computation::MatchResultVariant;
use crate::emission::dependencies;
use crate::shape::ascending;
use crate::shape::incoming;
use crate::shape::leads;
use crate::shape::predecessor_lists;
use crate::shape::predecessors;
use crate::shape::reaches;
use crate::shape::successor_lists;
use crate::shape::without_cycle;
use crate::shape::successors;
use crate::well_formed::edge_in_order;
use crate::well_formed::edges_in_order;
use crate::well_formed::forks_and_branches;
use crate::well_formed::fork_leads_to_branch;
use crate::well_formed::fork_shape;
use crate::well_formed::is_branch;
use crate::well_formed::names_branch;
use crate::well_formed::well_formed;
use crate::well_formed::invocations_registered;
use crate::wiring::call_inputs;
use crate::wiring::input_is_wired;
use crate::wiring::is_call;
use crate::wiring::value_type;
use crate::wiring::wired;
use crate::emission::node_type;
use crate::codegen_utils::arguments_for;
use crate::codegen_utils::call_syntax;
use crate::codegen_utils::call_text;
use crate::codegen_utils::statements;
use crate::emission::provided_for;
use crate::emission::is_err_branch;
use crate::arms::errors_are_handled_alone;
use crate::arms::lemma_handled_alone_is_apart;
use crate::handled::errors_taken_alone;
use crate::handled::errs;
use crate::handled::handles;
use crate::handled::lemma_call_graph_is_sealed;
use crate::handled::sealed;
use crate::emission::handler_is_owed;
use crate::well_formed::lemma_call_graph_is_well_formed;
use crate::wiring::lemma_call_graph_is_wired;
use crate::emission::branches_apart;
use crate::emission::fit_for;
use crate::emission::generable;
use crate::emission::is_branch_node;
use crate::emission::straight;
use crate::well_formed::branch_shape;
use crate::emission::stands_alone;
use crate::call_graph::as_ints;
use crate::call_graph::in_post_order;
use crate::language::rendered_callable_path;
use crate::text::terminated;
use crate::codegen_utils::dependency_types;
use crate::codegen_utils::type_views;
use crate::codegen_utils::DependencyView;
use crate::codegen_utils::entered;
use crate::codegen_utils::let_syntax;
use crate::codegen_utils::CodegenError;
use crate::codegen_utils::FragmentView;
use crate::component::Component;
use crate::component::ComponentId;
use crate::computation::Computation;
use crate::language::rendered_type;
use crate::language::TypeView;
use crate::text::variable_name;
use vstd::prelude::*;

verus! {

/// The nodes under which `bindings` holds a statement.
pub open spec fn bound_nodes(bindings: Seq<(usize, Seq<char>)>) -> Seq<usize> {
    bindings.map_values(|b: (usize, Seq<char>)| b.0)
}

/// Entering a statement under a node keeps the nodes that were bound, in their
/// order, and binds the node after them where it was not bound; where no node
/// was bound twice, none is afterwards.
pub proof fn lemma_entered(bindings: Seq<(usize, Seq<char>)>, node: usize, statement: Seq<char>)
    ensures
        bound_nodes(entered(bindings, node, statement)) == if bound_nodes(bindings).contains(node) {
            bound_nodes(bindings)
        } else {
            bound_nodes(bindings).push(node)
        },
        bound_nodes(bindings).no_duplicates() ==> bound_nodes(
            entered(bindings, node, statement),
        ).no_duplicates(),
    decreases bindings.len(),
{
    let after = entered(bindings, node, statement);
    if bindings.len() == 0 {
        assert(bound_nodes(after) =~= seq![node]);
        assert(bound_nodes(bindings) =~= Seq::<usize>::empty());
        assert(bound_nodes(bindings).push(node) =~= seq![node]);
    } else if bindings[0].0 == node {
        assert(bound_nodes(after) =~= bound_nodes(bindings));
        assert(bound_nodes(bindings)[0] == node);
    } else {
        let rest = bindings.drop_first();
        lemma_entered(rest, node, statement);
        assert(bound_nodes(bindings) =~= seq![bindings[0].0] + bound_nodes(rest));
        assert(bound_nodes(after) =~= seq![bindings[0].0] + bound_nodes(
            entered(rest, node, statement),
        ));
        if bound_nodes(bindings).contains(node) {
            let k = choose|k: int|
                0 <= k < bound_nodes(bindings).len() && bound_nodes(bindings)[k] == node;
            assert(bound_nodes(rest)[k - 1] == node);
        } else {
            if bound_nodes(rest).contains(node) {
                let k = choose|k: int| 0 <= k < bound_nodes(rest).len() && bound_nodes(rest)[k] == node;
                assert(bound_nodes(bindings)[k + 1] == node);
            }
            assert(seq![bindings[0].0] + bound_nodes(rest).push(node) =~= (seq![bindings[0].0]
                + bound_nodes(rest)).push(node));
        }
    }
    if bound_nodes(bindings).no_duplicates() {
        if !bound_nodes(bindings).contains(node) {
            let before = bound_nodes(bindings);
            assert forall|i: int, j: int|
                0 <= i < before.push(node).len() && 0 <= j < before.push(node).len() && i
                    != j implies before.push(node)[i] != before.push(node)[j] by {
                if i < before.len() && j < before.len() {
                } else if i < before.len() {
                    assert(before[i] != node);
                } else {
                    assert(before[j] != node);
                }
            }
        }
    }
}

/// The node `node` invokes a callable, and may do so `n` times.
pub open spec fn invokes_callable(env: Env, node: usize, n: NumberOfAllowedInvocations) -> bool {
    &&& env.graph.nodes[node as int] matches NodeView::Compute { n_allowed_invocations, .. }
    &&& n_allowed_invocations == n
    &&& env.component(node as int).is_callable()
}

/// A node that may be invoked once only is bound to a variable, unless the
/// walk started from it: a new variable stands for it, and the statement that
/// binds the variable to its call is entered under it.
pub proof fn lemma_single_is_bound(env: Env, start: usize, current: usize, state: EmitState)
    requires
        invokes_callable(env, current, NumberOfAllowedInvocations::Single),
        current != start,
    ensures
        env.emit_node(start, current, state) matches Ok(after) ==> {
            &&& after.next_variable == state.next_variable + 1
            &&& after.blocks.contains_key(current)
            &&& after.blocks[current] == FragmentView::VariableReference(
                variable_name(state.next_variable),
            )
            &&& call_text(
                env.component(current as int).callable(),
                env.names,
                env.node_type_inputs(current as int)->0,
                state.blocks,
            ) matches Ok(call)
            &&& after.bindings == entered(
                state.bindings,
                current,
                let_syntax(variable_name(state.next_variable), call),
            )
            &&& bound_nodes(after.bindings).contains(current)
        },
{
    if let Ok(after) = env.emit_node(start, current, state) {
        let call = call_text(
            env.component(current as int).callable(),
            env.names,
            env.node_type_inputs(current as int)->0,
            state.blocks,
        )->Ok_0;
        let statement = let_syntax(variable_name(state.next_variable), call);
        lemma_entered(state.bindings, current, statement);
        if !bound_nodes(state.bindings).contains(current) {
            let nodes = bound_nodes(state.bindings).push(current);
            assert(nodes[nodes.len() - 1] == current);
        }
    }
}

/// A node that may be invoked as often as it is used is bound to no variable:
/// its call stands for it, so that each of its users holds the call itself.
pub proof fn lemma_multiple_is_inlined(env: Env, start: usize, current: usize, state: EmitState)
    requires
        invokes_callable(env, current, NumberOfAllowedInvocations::Multiple),
    ensures
        env.emit_node(start, current, state) matches Ok(after) ==> {
            &&& after.next_variable == state.next_variable
            &&& after.bindings == state.bindings
            &&& call_text(
                env.component(current as int).callable(),
                env.names,
                env.node_type_inputs(current as int)->0,
                state.blocks,
            ) matches Ok(call)
            &&& after.blocks.contains_key(current)
            &&& after.blocks[current] == FragmentView::Statement(call)
            &&& after.blocks[current].expression() == call
        },
{
}

/// Where each of `inputs` has its argument, each has a dependency of its type
/// whose fragment is there.
pub proof fn lemma_arguments_are_there(
    dependencies: Seq<DependencyView>,
    blocks: Map<usize, FragmentView>,
    inputs: Seq<TypeView>,
)
    ensures
        arguments_for(dependencies, blocks, inputs) is Ok ==> forall|i: int|
            0 <= i < inputs.len() ==> has_fragment(dependencies, blocks, #[trigger] inputs[i]),
    decreases inputs.len(),
{
    if inputs.len() > 0 && arguments_for(dependencies, blocks, inputs) is Ok {
        let earlier = inputs.drop_last();
        lemma_arguments_are_there(dependencies, blocks, earlier);
        assert forall|i: int| 0 <= i < inputs.len() implies has_fragment(
            dependencies,
            blocks,
            #[trigger] inputs[i],
        ) by {
            if i < earlier.len() {
                assert(inputs[i] == earlier[i]);
            }
        }
    }
}

/// Among `dependencies` there is one of the type `input`, and `blocks` holds
/// the fragment of the first such.
pub open spec fn has_fragment(
    dependencies: Seq<DependencyView>,
    blocks: Map<usize, FragmentView>,
    input: TypeView,
) -> bool {
    type_position(dependency_types(dependencies), input) matches Some(position)
        && blocks.contains_key(dependencies[position].source)
}

/// The code of a node comes after the code of the nodes whose values it
/// takes: where the call of a callable is generated, a fragment stands for
/// each of its inputs already.
pub proof fn lemma_inputs_come_first(env: Env, start: usize, current: usize, state: EmitState)
    requires
        env.graph.nodes[current as int] is Compute,
        env.component(current as int).is_callable(),
    ensures
        env.emit_node(start, current, state) is Ok ==> {
            &&& env.node_type_inputs(current as int) matches Some(dependencies)
            &&& forall|i: int|
                0 <= i < env.component(current as int).callable().inputs@.len() ==> has_fragment(
                    dependencies,
                    state.blocks,
                    #[trigger] type_views(env.component(current as int).callable().inputs@)[i],
                )
        },
{
    if env.emit_node(start, current, state) is Ok {
        let dependencies = env.node_type_inputs(current as int)->0;
        lemma_arguments_are_there(
            dependencies,
            state.blocks,
            type_views(env.component(current as int).callable().inputs@),
        );
    }
}

/// A step for one node binds no node but that one, and binds it only where it
/// may be invoked once only and the walk did not start from it.
pub proof fn lemma_emit_node_binds(env: Env, start: usize, current: usize, state: EmitState)
    ensures
        env.emit_node(start, current, state) matches Ok(after) ==> {
            ||| after.bindings == state.bindings
            ||| {
                &&& invokes_callable(env, current, NumberOfAllowedInvocations::Single)
                &&& current != start
                &&& exists|statement: Seq<char>|
                    after.bindings == entered(state.bindings, current, statement)
            }
        },
{
    if let Ok(after) = env.emit_node(start, current, state) {
        if after.bindings != state.bindings {
            let call = call_text(
                env.component(current as int).callable(),
                env.names,
                env.node_type_inputs(current as int)->0,
                state.blocks,
            )->Ok_0;
            let statement = let_syntax(variable_name(state.next_variable), call);
            assert(after.bindings == entered(state.bindings, current, statement));
        }
    }
}

/// Among the statements of a body no node is bound twice, and every node that
/// is bound there is one that the walk handed out, that may be invoked once
/// only, and that the walk did not start from.
pub proof fn lemma_bound_once(
    env: Env,
    depth: nat,
    start: usize,
    order: Seq<usize>,
    state: EmitState,
    discovered: Set<int>,
    finished: Set<int>,
)
    requires
        bound_nodes(state.bindings).no_duplicates(),
    ensures
        env.emit_order(depth, start, order, state, discovered, finished) matches Ok(after) ==> {
            &&& bound_nodes(after.bindings).no_duplicates()
            &&& forall|node: usize| #[trigger]
                bound_nodes(after.bindings).contains(node) ==> bound_nodes(state.bindings).contains(
                    node,
                ) || (order.contains(node) && node != start && invokes_callable(
                    env,
                    node,
                    NumberOfAllowedInvocations::Single,
                ))
        },
    decreases order.len(),
{
    if order.len() > 0 {
        let current = order[0];
        let step = if env.graph.nodes[current as int] is MatchBranching {
            if current == start {
                env.emit_match(depth, current, state, discovered, finished)
            } else {
                Err(CodegenError::MisplacedMatchBranching)
            }
        } else {
            env.emit_node(start, current, state)
        };
        if let Ok(next) = step {
            if !(env.graph.nodes[current as int] is MatchBranching) {
                lemma_emit_node_binds(env, start, current, state);
                if next.bindings != state.bindings {
                    let statement = choose|statement: Seq<char>|
                        next.bindings == entered(state.bindings, current, statement);
                    lemma_entered(state.bindings, current, statement);
                }
            }
            lemma_bound_once(env, depth, start, order.drop_first(), next, discovered, finished);
            if let Ok(after) = env.emit_order(
                depth,
                start,
                order.drop_first(),
                next,
                discovered,
                finished,
            ) {
                assert forall|node: usize| #[trigger]
                    bound_nodes(after.bindings).contains(node) implies bound_nodes(
                    state.bindings,
                ).contains(node) || (order.contains(node) && node != start && invokes_callable(
                    env,
                    node,
                    NumberOfAllowedInvocations::Single,
                )) by {
                    if bound_nodes(next.bindings).contains(node) {
                        if !bound_nodes(state.bindings).contains(node) {
                            let k = choose|k: int|
                                0 <= k < bound_nodes(next.bindings).len() && bound_nodes(
                                    next.bindings,
                                )[k] == node;
                            assert(node == current);
                            assert(order[0] == node);
                        }
                    } else {
                        let k = choose|k: int|
                            0 <= k < order.drop_first().len() && order.drop_first()[k] == node;
                        assert(order[k + 1] == node);
                    }
                }
            }
        }
    }
}

/// A handler has a parameter for each type: the parameter of the type at
/// position `i` is the variable with number `i`.
pub proof fn lemma_parameters_for(types: Seq<TypeView>, names: Map<Seq<char>, Seq<char>>)
    ensures
        parameters_for(types, names) matches Some(parameters) ==> {
            &&& parameters.len() == types.len()
            &&& forall|i: int|
                0 <= i < types.len() ==> rendered_type(#[trigger] types[i], names) is Some
            &&& forall|i: int|
                0 <= i < types.len() ==> #[trigger] parameters[i] == (
                    variable_name(i as nat),
                    rendered_type(types[i], names)->0,
                )
        },
    decreases types.len(),
{
    if types.len() > 0 {
        let earlier = types.drop_last();
        lemma_parameters_for(earlier, names);
        if let Some(parameters) = parameters_for(types, names) {
            let first = parameters_for(earlier, names)->0;
            assert forall|i: int| 0 <= i < types.len() implies rendered_type(
                #[trigger] types[i],
                names,
            ) is Some by {
                if i < earlier.len() {
                    assert(types[i] == earlier[i]);
                }
            }
            assert forall|i: int| 0 <= i < types.len() implies #[trigger] parameters[i] == (
                variable_name(i as nat),
                rendered_type(types[i], names)->0,
            ) by {
                if i < earlier.len() {
                    assert(types[i] == earlier[i]);
                    assert(parameters[i] == first[i]);
                }
            }
        }
    }
}

/// The numbers of the variables only grow: what is generated for the nodes of
/// a walk names its variables from the number on that it starts with, so that
/// no name is handed out twice on the way.
pub proof fn lemma_numbers_only_grow(
    env: Env,
    depth: nat,
    start: usize,
    order: Seq<usize>,
    state: EmitState,
    discovered: Set<int>,
    finished: Set<int>,
)
    ensures
        env.emit_order(depth, start, order, state, discovered, finished) matches Ok(after)
            ==> state.next_variable <= after.next_variable,
    decreases order.len(),
{
    if order.len() > 0 {
        let current = order[0];
        let step = if env.graph.nodes[current as int] is MatchBranching {
            if current == start {
                env.emit_match(depth, current, state, discovered, finished)
            } else {
                Err(CodegenError::MisplacedMatchBranching)
            }
        } else {
            env.emit_node(start, current, state)
        };
        if let Ok(next) = step {
            assert(state.next_variable <= next.next_variable);
            lemma_numbers_only_grow(
                env,
                depth,
                start,
                order.drop_first(),
                next,
                discovered,
                finished,
            );
        }
    }
}

/// The parameters of the generated handler are the input parameters of the
/// graph: one for each type that an input parameter has, in the order in which
/// the nodes first name the types, the parameter at position `i` being the
/// variable with number `i`.
pub proof fn lemma_handler_parameters(
    graph: GraphView,
    root: int,
    names: Map<Seq<char>, Seq<char>>,
    components: Seq<Component>,
    computations: Seq<Computation>,
)
    ensures
        handler_for(graph, root, names, components, computations) matches Ok(handler) ==> {
            let types = required_inputs(graph.nodes);
            &&& handler.parameters.len() == types.len()
            &&& forall|i: int|
                0 <= i < types.len() ==> rendered_type(#[trigger] types[i], names) is Some
            &&& forall|i: int|
                0 <= i < types.len() ==> #[trigger] handler.parameters[i] == (
                    variable_name(i as nat),
                    rendered_type(types[i], names)->0,
                )
            &&& types.no_duplicates()
            &&& forall|type_: TypeView|
                types.contains(type_) <==> graph.nodes.contains(NodeView::InputParameter(type_))
        },
{
    let types = required_inputs(graph.nodes);
    lemma_parameters_for(types, names);
    lemma_required_inputs(graph.nodes);
    if let Ok(handler) = handler_for(graph, root, names, components, computations) {
        assert(handler.parameters == parameters_for(types, names)->0);
    }
}

/// Building the call graph of a handler again from the same registries gives
/// the same nodes, the same edges and the same root, and so the same handler
/// with the same variables.
pub proof fn lemma_rebuilding_changes_nothing(
    registered: Registered,
    handler: ComponentId,
    first: (GraphView, usize),
    second: (GraphView, usize),
    names: Map<Seq<char>, Seq<char>>,
)
    requires
        registered.call_graph(handler) == Ok::<(GraphView, usize), crate::builder::BuildError>(first),
        registered.call_graph(handler) == Ok::<(GraphView, usize), crate::builder::BuildError>(
            second,
        ),
    ensures
        first == second,
        handler_for(
            first.0,
            first.1 as int,
            names,
            registered.components,
            registered.computations,
        ) == handler_for(
            second.0,
            second.1 as int,
            names,
            registered.components,
            registered.computations,
        ),
{
}

/// `env` holds the registries that `registered` holds.
pub open spec fn generates_from(env: Env, registered: Registered) -> bool {
    &&& env.components == registered.components
    &&& env.computations == registered.computations
}

/// In a well-formed graph no fork is malformed: each leads to its two arms,
/// and one node leads to it.
pub proof fn lemma_forks_have_arms(registered: Registered, env: Env, fork: usize)
    requires
        well_formed(registered, env.graph),
        generates_from(env, registered),
        fork < env.graph.nodes.len(),
        env.graph.nodes[fork as int] is MatchBranching,
    ensures
        env.match_arms(fork as int) is Some,
        env.graph.incoming_edges(fork as int).len() == 1,
{
    assert(fork_shape(registered, env.graph, fork as int)) by {
        reveal(forks_and_branches);
    }
    let out = successors(env.graph.edges, fork as int);
    assert(env.variant_of(out[1]) == Some(MatchResultVariant::OkVariant)) by {
        assert(names_branch(registered, env.graph.nodes[out[1]], MatchResultVariant::OkVariant));
    }
    assert(env.variant_of(out[0]) == Some(MatchResultVariant::ErrVariant)) by {
        assert(names_branch(registered, env.graph.nodes[out[0]], MatchResultVariant::ErrVariant));
    }
}

/// A type that occurs among `types` has a first position there.
pub proof fn lemma_position_exists(types: Seq<TypeView>, type_: TypeView)
    requires
        types.contains(type_),
    ensures
        type_position(types, type_) is Some,
    decreases types.len(),
{
    if types[0] == type_ {
        assert(is_first_position(types, type_, 0));
    } else {
        let rest = types.drop_first();
        let k = choose|k: int| 0 <= k < types.len() && types[k] == type_;
        assert(rest[k - 1] == type_);
        lemma_position_exists(rest, type_);
        let position = choose|i: int| is_first_position(rest, type_, i);
        assert(is_first_position(rest, type_, position));
        assert forall|j: int| 0 <= j < position + 1 implies #[trigger] types[j] != type_ by {
            if j > 0 {
                assert(rest[j - 1] != type_);
            }
        }
        assert(types[position + 1] == rest[position]);
        assert(is_first_position(types, type_, position + 1));
    }
}

/// Where the handler has a parameter for each type that an input parameter of
/// the graph has, every input parameter finds its parameter.
pub proof fn lemma_input_parameters_are_bound(env: Env, start: usize, current: usize, state: EmitState)
    requires
        env.parameters == required_inputs(env.graph.nodes),
        current < env.graph.nodes.len(),
        env.graph.nodes[current as int] is InputParameter,
    ensures
        env.emit_node(start, current, state) is Ok,
{
    let type_ = env.graph.nodes[current as int]->InputParameter_0;
    lemma_required_inputs(env.graph.nodes);
    assert(env.graph.nodes.contains(NodeView::InputParameter(type_)));
    lemma_position_exists(env.parameters, type_);
}

/// Each edge that enters `node` is an edge of the graph that leads to `node`.
pub proof fn lemma_incoming_edges(edges: Seq<(int, int)>, node: int)
    ensures
        forall|k: int|
            0 <= k < incoming(edges, node).len() ==> {
                let entry = #[trigger] incoming(edges, node)[k];
                0 <= entry.1 < edges.len() && edges[entry.1] == (entry.0, node)
            },
    decreases edges.len(),
{
    if edges.len() > 0 {
        let rest = edges.drop_last();
        lemma_incoming_edges(rest, node);
        assert forall|k: int| 0 <= k < incoming(edges, node).len() implies {
            let entry = #[trigger] incoming(edges, node)[k];
            0 <= entry.1 < edges.len() && edges[entry.1] == (entry.0, node)
        } by {
            if edges.last().1 == node {
                if k > 0 {
                    let entry = incoming(rest, node)[k - 1];
                    assert(incoming(edges, node)[k] == entry);
                    assert(rest[entry.1] == edges[entry.1]);
                }
            } else {
                let entry = incoming(rest, node)[k];
                assert(incoming(edges, node)[k] == entry);
                assert(rest[entry.1] == edges[entry.1]);
            }
        }
    }
}

/// The first edges of `edges` carry values where all do.
pub proof fn lemma_dependencies_of_values(env: Env, edges: Seq<IncomingEdge>)
    requires
        forall|k: int|
            0 <= k < edges.len() ==> !(env.graph.nodes[(#[trigger] edges[k]).source as int]
                is MatchBranching),
    ensures
        dependencies(env.graph, env.components, env.computations, edges) is Some,
    decreases edges.len(),
{
    if edges.len() > 0 {
        let rest = edges.drop_last();
        assert forall|k: int| 0 <= k < rest.len() implies !(env.graph.nodes[(
        #[trigger] rest[k]).source as int] is MatchBranching) by {
            assert(rest[k] == edges[k]);
        }
        lemma_dependencies_of_values(env, rest);
        assert(!(env.graph.nodes[edges[edges.len() - 1].source as int] is MatchBranching));
    }
}

/// In a well-formed graph no edge leads from a fork to a node that is no
/// branch of a result.
pub proof fn lemma_values_enter(registered: Registered, graph: GraphView, current: int)
    requires
        well_formed(registered, graph),
        0 <= current < graph.nodes.len(),
        !is_branch(registered, graph.nodes[current]),
    ensures
        forall|k: int|
            0 <= k < graph.incoming_edges(current).len() ==> !(graph.nodes[(
            #[trigger] graph.incoming_edges(current)[k]).source as int] is MatchBranching),
{
    reveal(edges_in_order);
    let raw = incoming(graph.edges, current);
    let edges = graph.incoming_edges(current);
    lemma_incoming_edges(graph.edges, current);
    assert forall|k: int| 0 <= k < edges.len() implies !(graph.nodes[(
    #[trigger] edges[k]).source as int] is MatchBranching) by {
        let entry = raw[k];
        assert(edge_in_order(graph, entry.1));
        assert(fork_leads_to_branch(registered, graph, entry.1));
        assert(edges[k].source == entry.0 as usize);
    }
}

/// In a well-formed graph a fork is no input of a callable: every edge into
/// the invocation of a callable carries a value.
pub proof fn lemma_forks_are_no_inputs(registered: Registered, env: Env, current: usize)
    requires
        well_formed(registered, env.graph),
        generates_from(env, registered),
        current < env.graph.nodes.len(),
        env.graph.nodes[current as int] is Compute,
        env.component(current as int).is_callable(),
        hydrates(env.components, env.computations),
    ensures
        env.node_type_inputs(current as int) is Some,
{
    assert(!is_branch(registered, env.graph.nodes[current as int])) by {
        lemma_callable_is_no_branch(registered, env, current);
    }
    lemma_values_enter(registered, env.graph, current as int);
    lemma_dependencies_of_values(env, env.graph.incoming_edges(current as int));
}

/// The invocation of a callable is no branch of a result.
pub proof fn lemma_callable_is_no_branch(registered: Registered, env: Env, current: usize)
    requires
        generates_from(env, registered),
        hydrates(env.components, env.computations),
        env.graph.nodes[current as int] is Compute,
        env.component(current as int).is_callable(),
    ensures
        !is_branch(registered, env.graph.nodes[current as int]),
{
    let id = env.graph.nodes[current as int]->component_id;
    if registered.knows(id) {
        let component = env.components[id.0 as int];
        assert(component.is_handler() ==> env.computations[component.computation().0 as int]
            is Callable);
    }
}

/// Each edge into `node` is listed among the edges that enter it.
pub proof fn lemma_edge_is_incoming(edges: Seq<(int, int)>, e: int)
    requires
        0 <= e < edges.len(),
    ensures
        incoming(edges, edges[e].1).contains((edges[e].0, e)),
    decreases edges.len(),
{
    let node = edges[e].1;
    let rest = edges.drop_last();
    if e == edges.len() - 1 {
        assert(incoming(edges, node)[0] == (edges[e].0, e));
    } else {
        assert(rest[e] == edges[e]);
        lemma_edge_is_incoming(rest, e);
        let k = choose|k: int|
            0 <= k < incoming(rest, node).len() && incoming(rest, node)[k] == (edges[e].0, e);
        if edges.last().1 == node {
            assert(incoming(edges, node)[k + 1] == (edges[e].0, e));
        } else {
            assert(incoming(edges, node)[k] == (edges[e].0, e));
        }
    }
}

/// What the edges carry, one for one: each dependency comes from the source of
/// its edge and has the type of the value of that source.
pub proof fn lemma_dependencies_list(env: Env, edges: Seq<IncomingEdge>)
    ensures
        dependencies(env.graph, env.components, env.computations, edges) matches Some(found) ==> {
            &&& found.len() == edges.len()
            &&& forall|j: int|
                0 <= j < edges.len() ==> (#[trigger] found[j]).source == edges[j].source && Some(
                    found[j].type_,
                ) == node_type(
                    env.graph,
                    env.components,
                    env.computations,
                    edges[j].source as int,
                )
        },
    decreases edges.len(),
{
    if edges.len() > 0 {
        let rest = edges.drop_last();
        lemma_dependencies_list(env, rest);
        if let Some(found) = dependencies(env.graph, env.components, env.computations, edges) {
            let earlier = dependencies(env.graph, env.components, env.computations, rest)->0;
            assert forall|j: int| 0 <= j < edges.len() implies (#[trigger] found[j]).source
                == edges[j].source && Some(found[j].type_) == node_type(
                env.graph,
                env.components,
                env.computations,
                edges[j].source as int,
            ) by {
                if j < rest.len() {
                    assert(found[j] == earlier[j]);
                    assert(rest[j] == edges[j]);
                }
            }
        }
    }
}

/// Where each input has a dependency of its type, none is missing.
pub proof fn lemma_no_argument_is_missing(
    given: Seq<DependencyView>,
    blocks: Map<usize, FragmentView>,
    inputs: Seq<TypeView>,
)
    requires
        forall|k: int|
            0 <= k < inputs.len() ==> type_position(dependency_types(given), #[trigger] inputs[k])
                is Some,
    ensures
        arguments_for(given, blocks, inputs) != Err::<Seq<Seq<char>>, CodegenError>(
            CodegenError::MissingInput,
        ),
    decreases inputs.len(),
{
    if inputs.len() > 0 {
        let earlier = inputs.drop_last();
        assert forall|k: int| 0 <= k < earlier.len() implies type_position(
            dependency_types(given),
            #[trigger] earlier[k],
        ) is Some by {
            assert(earlier[k] == inputs[k]);
        }
        lemma_no_argument_is_missing(given, blocks, earlier);
        assert(type_position(dependency_types(given), inputs[inputs.len() - 1]) is Some);
    }
}

/// In a graph that is built no input of a callable is missing: the invocation
/// of a callable has a dependency of the type of each input of the callable.
pub proof fn lemma_no_input_is_missing(
    registered: Registered,
    env: Env,
    start: usize,
    current: usize,
    state: EmitState,
)
    requires
        well_formed(registered, env.graph),
        wired(registered, env.graph),
        generates_from(env, registered),
        hydrates(env.components, env.computations),
        current < env.graph.nodes.len(),
        env.graph.nodes[current as int] is Compute,
        env.component(current as int).is_callable(),
    ensures
        env.emit_node(start, current, state) != Err::<EmitState, CodegenError>(
            CodegenError::MissingInput,
        ),
{
    lemma_forks_are_no_inputs(registered, env, current);
    let given = env.node_type_inputs(current as int)->0;
    let inputs = type_views(env.component(current as int).callable().inputs@);
    assert forall|k: int| 0 <= k < inputs.len() implies type_position(
        dependency_types(given),
        #[trigger] inputs[k],
    ) is Some by {
        lemma_input_has_dependency(registered, env, current, k);
        lemma_position_exists(dependency_types(given), inputs[k]);
    }
    lemma_no_argument_is_missing(given, state.blocks, inputs);
}

/// In a graph that is built the invocation of a callable has a dependency of
/// the type of the input number `k` of the callable.
pub proof fn lemma_input_has_dependency(registered: Registered, env: Env, current: usize, k: int)
    requires
        well_formed(registered, env.graph),
        wired(registered, env.graph),
        generates_from(env, registered),
        hydrates(env.components, env.computations),
        current < env.graph.nodes.len(),
        env.graph.nodes[current as int] is Compute,
        env.component(current as int).is_callable(),
        env.node_type_inputs(current as int) is Some,
        0 <= k < env.component(current as int).callable().inputs@.len(),
    ensures
        dependency_types(env.node_type_inputs(current as int)->0).contains(
            type_views(env.component(current as int).callable().inputs@)[k],
        ),
{
    let graph = env.graph;
    let node = current as int;
    let id = graph.nodes[node]->component_id;
    let input = type_views(env.component(node).callable().inputs@)[k];
    assert(registered.knows(id)) by {
        reveal(invocations_registered);
    }
    assert(is_call(registered, graph.nodes[node]));
    assert(call_inputs(registered, graph.nodes[node])[k] == input);
    assert(input_is_wired(registered, graph, node, k)) by {
        reveal(wired);
    }
    let e = choose|e: int|
        0 <= e < graph.edges.len() && (#[trigger] graph.edges[e]).1 == node && 0
            <= graph.edges[e].0 < graph.nodes.len() && value_type(
            registered,
            graph.nodes[graph.edges[e].0],
        ) == Some(input);
    let source = graph.edges[e].0;
    lemma_edge_is_incoming(graph.edges, e);
    let raw = incoming(graph.edges, node);
    let j = choose|j: int| 0 <= j < raw.len() && raw[j] == (source, e);
    let edges = graph.incoming_edges(node);
    assert(edges[j].source == source as usize);
    lemma_dependencies_list(env, edges);
    let given = env.node_type_inputs(node)->0;
    assert(given[j].source == source as usize);
    assert(node_type(graph, env.components, env.computations, source) == Some(input)) by {
        lemma_node_type_is_value_type(registered, env, source);
    }
    assert(dependency_types(given)[j] == input);
}

/// The type that generation sees in a node is the type of its value.
pub proof fn lemma_node_type_is_value_type(registered: Registered, env: Env, node: int)
    requires
        well_formed(registered, env.graph),
        generates_from(env, registered),
        hydrates(env.components, env.computations),
        0 <= node < env.graph.nodes.len(),
    ensures
        node_type(env.graph, env.components, env.computations, node) == value_type(
            registered,
            env.graph.nodes[node],
        ),
{
    if let NodeView::Compute { component_id, .. } = env.graph.nodes[node] {
        assert(registered.knows(component_id)) by {
            reveal(invocations_registered);
        }
        let component = env.components[component_id.0 as int];
        assert(component.is_handler() ==> env.computations[component.computation().0 as int]
            is Callable);
    }
}

/// A handler without dependencies is a single call: where the root of the
/// graph stands alone and invokes a callable that takes nothing, the body that
/// is generated is the call of that callable without arguments, whatever
/// stood for other nodes before.
pub proof fn lemma_handler_without_dependencies(
    env: Env,
    root: usize,
    next_variable: nat,
    blocks: Map<usize, FragmentView>,
)
    requires
        root < env.graph.nodes.len(),
        env.graph.nodes[root as int] is Compute,
        stands_alone(env.graph, root as int),
        env.component(root as int).is_callable(),
        env.component(root as int).callable().inputs@.len() == 0,
        rendered_callable_path(env.component(root as int).callable(), env.names) is Some,
    ensures
        env.lone_body_text(root, next_variable, blocks) == Ok::<Seq<char>, CodegenError>(
            call_syntax(
                rendered_callable_path(env.component(root as int).callable(), env.names)->0,
                Seq::empty(),
                env.component(root as int).callable().is_async,
            ),
        ),
{
    let callable = env.component(root as int).callable();
    let edges = env.graph.incoming_edges(root as int);
    assert(edges.len() == 0);
    assert(env.node_type_inputs(root as int) == Some(Seq::<DependencyView>::empty()));
    assert(type_views(callable.inputs@) =~= Seq::<TypeView>::empty());
    let path = rendered_callable_path(callable, env.names)->0;
    let call = call_syntax(path, Seq::empty(), callable.is_async);
    assert(call_text(callable, env.names, Seq::empty(), blocks) == Ok::<Seq<char>, CodegenError>(
        call,
    ));
    let state = EmitState { next_variable, bindings: Seq::empty(), blocks };
    assert(env.emit_node(root, root, state) == Ok::<EmitState, CodegenError>(
        EmitState { blocks: blocks.insert(root, FragmentView::Statement(call)), ..state },
    ));
    assert(statements(Seq::<(usize, Seq<char>)>::empty()) =~= Seq::<Seq<char>>::empty());
    assert(terminated(Seq::<Seq<char>>::empty(), " "@) + call =~= call);
}

/// What one step generates for the node `current` after `state`, whether the
/// node is a fork or not.
pub open spec fn step(
    env: Env,
    depth: nat,
    start: usize,
    current: usize,
    state: EmitState,
    discovered: Set<int>,
    finished: Set<int>,
) -> Result<EmitState, CodegenError> {
    if env.graph.nodes[current as int] is MatchBranching {
        if current == start {
            env.emit_match(depth, current, state, discovered, finished)
        } else {
            Err(CodegenError::MisplacedMatchBranching)
        }
    } else {
        env.emit_node(start, current, state)
    }
}

/// `after` holds for every node but `current` what `before` holds for it.
pub open spec fn same_but(
    before: Map<usize, FragmentView>,
    after: Map<usize, FragmentView>,
    current: usize,
) -> bool {
    forall|x: usize|
        x != current ==> (#[trigger] after.contains_key(x) <==> before.contains_key(x)) && (
        before.contains_key(x) ==> after[x] == before[x])
}

/// A step changes what stands for its own node, and for no other.
pub proof fn lemma_step_frame(
    env: Env,
    depth: nat,
    start: usize,
    current: usize,
    state: EmitState,
    discovered: Set<int>,
    finished: Set<int>,
)
    ensures
        step(env, depth, start, current, state, discovered, finished) matches Ok(after)
            ==> same_but(state.blocks, after.blocks, current),
{
}

/// What stands for a node stays as it is while code is generated for other
/// nodes: a walk that does not hand out a node again neither binds it again
/// nor changes its fragment. So a value that was bound before a fork goes by
/// the same name in the arms and after them.
pub proof fn lemma_generated_stays(
    env: Env,
    depth: nat,
    start: usize,
    order: Seq<usize>,
    state: EmitState,
    discovered: Set<int>,
    finished: Set<int>,
    node: usize,
)
    requires
        !order.contains(node),
    ensures
        env.emit_order(depth, start, order, state, discovered, finished) matches Ok(after) ==> {
            &&& after.blocks.contains_key(node) <==> state.blocks.contains_key(node)
            &&& state.blocks.contains_key(node) ==> after.blocks[node] == state.blocks[node]
            &&& bound_nodes(after.bindings).contains(node) <==> bound_nodes(state.bindings).contains(
                node,
            )
        },
    decreases order.len(),
{
    if order.len() > 0 {
        let current = order[0];
        assert(order.contains(current));
        lemma_step_frame(env, depth, start, current, state, discovered, finished);
        if let Ok(next) = step(env, depth, start, current, state, discovered, finished) {
            assert(next.blocks.contains_key(node) <==> state.blocks.contains_key(node));
            if !(env.graph.nodes[current as int] is MatchBranching) {
                lemma_emit_node_binds(env, start, current, state);
                if next.bindings != state.bindings {
                    let statement = choose|statement: Seq<char>|
                        next.bindings == entered(state.bindings, current, statement);
                    lemma_entered(state.bindings, current, statement);
                    if !bound_nodes(state.bindings).contains(current) {
                        let nodes = bound_nodes(state.bindings);
                        if nodes.push(current).contains(node) {
                            let k = choose|k: int|
                                0 <= k < nodes.push(current).len() && nodes.push(current)[k]
                                    == node;
                            assert(nodes[k] == node);
                        }
                        if nodes.contains(node) {
                            let k = choose|k: int| 0 <= k < nodes.len() && nodes[k] == node;
                            assert(nodes.push(current)[k] == node);
                        }
                    }
                }
            }
            let rest = order.drop_first();
            if rest.contains(node) {
                let k = choose|k: int| 0 <= k < rest.len() && rest[k] == node;
                assert(order[k + 1] == node);
            }
            lemma_generated_stays(env, depth, start, rest, next, discovered, finished, node);
        }
    }
}

/// What is shared goes by a name, and what is built anew goes by its call:
/// the fragment of a callable that may be invoked once only and that has a
/// user is the name of a variable, and the fragment of a callable that may be
/// invoked as often as it is used is an expression.
pub open spec fn kept_apart(env: Env, blocks: Map<usize, FragmentView>) -> bool {
    &&& forall|x: usize| #[trigger]
        blocks.contains_key(x) && invokes_callable(env, x, NumberOfAllowedInvocations::Single)
            && successors(env.graph.edges, x as int).len() > 0 ==> blocks[x] is VariableReference
    &&& forall|x: usize| #[trigger]
        blocks.contains_key(x) && invokes_callable(env, x, NumberOfAllowedInvocations::Multiple)
            ==> blocks[x] is Statement
}

/// Over a whole walk what is shared goes by a name and what is built anew
/// goes by its call, where the walk starts from a fork or from a node without
/// users, as every walk of the generator does: each user of a value that may
/// be built once takes the variable that the value is bound to, and each user
/// of a value that is built anew takes a call of its own.
pub proof fn lemma_kept_apart(
    env: Env,
    depth: nat,
    start: usize,
    order: Seq<usize>,
    state: EmitState,
    discovered: Set<int>,
    finished: Set<int>,
)
    requires
        kept_apart(env, state.blocks),
        env.graph.nodes[start as int] is MatchBranching || successors(
            env.graph.edges,
            start as int,
        ).len() == 0,
    ensures
        env.emit_order(depth, start, order, state, discovered, finished) matches Ok(after)
            ==> kept_apart(env, after.blocks),
    decreases order.len(),
{
    if order.len() > 0 {
        let current = order[0];
        lemma_step_frame(env, depth, start, current, state, discovered, finished);
        if let Ok(next) = step(env, depth, start, current, state, discovered, finished) {
            assert(kept_apart(env, next.blocks)) by {
                assert forall|x: usize| #[trigger]
                    next.blocks.contains_key(x) && invokes_callable(
                        env,
                        x,
                        NumberOfAllowedInvocations::Single,
                    ) && successors(env.graph.edges, x as int).len() > 0 implies next.blocks[x]
                    is VariableReference by {
                    if x != current {
                        assert(state.blocks.contains_key(x));
                    }
                }
                assert forall|x: usize| #[trigger]
                    next.blocks.contains_key(x) && invokes_callable(
                        env,
                        x,
                        NumberOfAllowedInvocations::Multiple,
                    ) implies next.blocks[x] is Statement by {
                    if x != current {
                        assert(state.blocks.contains_key(x));
                    }
                }
            }
            lemma_kept_apart(env, depth, start, order.drop_first(), next, discovered, finished);
        }
    }
}

/// Each arm of a `match` starts from what was generated before the fork: the
/// branch is bound to its variable, and every other node stands for what it
/// stood for, so that an arm refers to a shared value by the name that it got
/// before the fork.
pub proof fn lemma_arms_start_from_what_is_generated(
    env: Env,
    blocks: Map<usize, FragmentView>,
    branch: usize,
    name: Seq<char>,
)
    requires
        kept_apart(env, blocks),
        !env.component(branch as int).is_callable(),
    ensures
        kept_apart(env, blocks.insert(branch, FragmentView::VariableReference(name))),
        same_but(blocks, blocks.insert(branch, FragmentView::VariableReference(name)), branch),
{
    let inside = blocks.insert(branch, FragmentView::VariableReference(name));
    assert forall|x: usize| #[trigger]
        inside.contains_key(x) && invokes_callable(env, x, NumberOfAllowedInvocations::Single)
            && successors(env.graph.edges, x as int).len() > 0 implies inside[x]
        is VariableReference by {
        if x != branch {
            assert(blocks.contains_key(x));
        }
    }
    assert forall|x: usize| #[trigger]
        inside.contains_key(x) && invokes_callable(
            env,
            x,
            NumberOfAllowedInvocations::Multiple,
        ) implies inside[x] is Statement by {
        if x != branch {
            assert(blocks.contains_key(x));
        }
    }
}

/// The target of an edge is among the successors of its source.
pub proof fn lemma_target_is_successor(edges: Seq<(int, int)>, e: int)
    requires
        0 <= e < edges.len(),
    ensures
        successors(edges, edges[e].0).contains(edges[e].1),
    decreases edges.len(),
{
    let node = edges[e].0;
    let rest = edges.drop_last();
    if e == edges.len() - 1 {
        assert(successors(edges, node)[0] == edges[e].1);
    } else {
        assert(rest[e] == edges[e]);
        lemma_target_is_successor(rest, e);
        let k = choose|k: int|
            0 <= k < successors(rest, node).len() && successors(rest, node)[k] == edges[e].1;
        if edges.last().0 == node {
            assert(successors(edges, node)[k + 1] == edges[e].1);
        } else {
            assert(successors(edges, node)[k] == edges[e].1);
        }
    }
}

/// The `match` of a fork is on the variable that the result is bound to: where
/// the node that leads to the fork invokes a callable that may be invoked once
/// only, what stands for it is the name of its variable, and that name is what
/// the `match` looks at.
pub proof fn lemma_match_is_on_the_variable(
    env: Env,
    depth: nat,
    fork: usize,
    state: EmitState,
    discovered: Set<int>,
    finished: Set<int>,
)
    requires
        kept_apart(env, state.blocks),
        env.graph.incoming_edges(fork as int).len() > 0,
        invokes_callable(
            env,
            env.graph.incoming_edges(fork as int)[0].source,
            NumberOfAllowedInvocations::Single,
        ),
        edges_within(env.graph.edges, env.graph.nodes.len()),
        env.graph.nodes.len() <= usize::MAX,
    ensures
        env.emit_match(depth, fork, state, discovered, finished) is Ok ==> {
            let source = env.graph.incoming_edges(fork as int)[0].source;
            &&& state.blocks.contains_key(source)
            &&& state.blocks[source] matches FragmentView::VariableReference(name)
            &&& state.blocks[source].expression() == name
        },
{
    if env.emit_match(depth, fork, state, discovered, finished) is Ok {
        let raw = incoming(env.graph.edges, fork as int);
        let source = env.graph.incoming_edges(fork as int)[0].source;
        lemma_incoming_edges(env.graph.edges, fork as int);
        lemma_incoming_within(env.graph.edges, env.graph.nodes.len(), fork as int);
        let entry = raw[0];
        assert(env.graph.edges[entry.1] == (entry.0, fork as int));
        lemma_target_is_successor(env.graph.edges, entry.1);
        assert(state.blocks.contains_key(source));
        assert(source as int == entry.0);
        assert(successors(env.graph.edges, source as int).len() > 0);
    }
}

/// Each successor of `node` is the target of an edge that leaves `node`.
pub proof fn lemma_successor_is_target(edges: Seq<(int, int)>, node: int, k: int)
    requires
        0 <= k < successors(edges, node).len(),
    ensures
        exists|e: int| 0 <= e < edges.len() && #[trigger] edges[e] == (node, successors(edges, node)[k]),
    decreases edges.len(),
{
    let rest = edges.drop_last();
    let last = edges.len() - 1;
    if edges.last().0 == node && k == 0 {
        assert(edges[last] == (node, successors(edges, node)[k]));
    } else {
        let j = if edges.last().0 == node {
            k - 1
        } else {
            k
        };
        assert(successors(edges, node)[k] == successors(rest, node)[j]);
        lemma_successor_is_target(rest, node, j);
        let e = choose|e: int|
            0 <= e < rest.len() && #[trigger] rest[e] == (node, successors(rest, node)[j]);
        assert(edges[e] == rest[e]);
    }
}

/// Along edges that ascend, a node leads to nodes with higher numbers only.
pub proof fn lemma_leads_upwards(edges: Seq<(int, int)>, count: nat, walk: Seq<int>, from: int, to: int)
    requires
        ascending(edges),
        leads(successor_lists(edges, count), walk, from, to),
    ensures
        from <= to,
        walk.len() > 1 ==> from < to,
    decreases walk.len(),
{
    if walk.len() > 1 {
        let lists = successor_lists(edges, count);
        let rest = walk.drop_first();
        assert(0 <= walk[0] < lists.len() && lists[walk[0]].contains(walk[1]));
        let k = choose|k: int| 0 <= k < lists[walk[0]].len() && lists[walk[0]][k] == walk[1];
        lemma_successor_is_target(edges, walk[0], k);
        assert forall|i: int| 0 <= i < rest.len() - 1 implies 0 <= #[trigger] rest[i] < lists.len()
            && lists[rest[i]].contains(rest[i + 1]) by {
            assert(rest[i] == walk[i + 1] && rest[i + 1] == walk[i + 2]);
        }
        assert(leads(lists, rest, walk[1], to));
        lemma_leads_upwards(edges, count, rest, walk[1], to);
    }
}

/// Against edges that ascend, a node leads to nodes with lower numbers only.
pub proof fn lemma_leads_downwards(
    edges: Seq<(int, int)>,
    count: nat,
    walk: Seq<int>,
    from: int,
    to: int,
)
    requires
        ascending(edges),
        leads(predecessor_lists(edges, count), walk, from, to),
    ensures
        to <= from,
        walk.len() > 1 ==> to < from,
    decreases walk.len(),
{
    if walk.len() > 1 {
        let lists = predecessor_lists(edges, count);
        let rest = walk.drop_first();
        assert(0 <= walk[0] < lists.len() && lists[walk[0]].contains(walk[1]));
        let k = choose|k: int| 0 <= k < lists[walk[0]].len() && lists[walk[0]][k] == walk[1];
        lemma_incoming_edges(edges, walk[0]);
        let entry = incoming(edges, walk[0])[k];
        assert(predecessors(edges, walk[0])[k] == entry.0);
        assert(edges[entry.1] == (entry.0, walk[0]));
        assert forall|i: int| 0 <= i < rest.len() - 1 implies 0 <= #[trigger] rest[i] < lists.len()
            && lists[rest[i]].contains(rest[i + 1]) by {
            assert(rest[i] == walk[i + 1] && rest[i + 1] == walk[i + 2]);
        }
        assert(leads(lists, rest, walk[1], to));
        lemma_leads_downwards(edges, count, rest, walk[1], to);
    }
}

/// A graph whose edges ascend has no cycle, neither along its edges nor
/// against them.
pub proof fn lemma_ascending_has_no_cycle(edges: Seq<(int, int)>, count: nat)
    requires
        ascending(edges),
    ensures
        without_cycle(successor_lists(edges, count)),
        without_cycle(predecessor_lists(edges, count)),
{
    let along = successor_lists(edges, count);
    let against = predecessor_lists(edges, count);
    assert forall|n: int, k: int| 0 <= n < along.len() && 0 <= k < along[n].len() implies !reaches(
        along,
        #[trigger] along[n][k],
        n,
    ) by {
        let next = along[n][k];
        if reaches(along, next, n) {
            let walk = choose|walk: Seq<int>| leads(along, walk, next, n);
            lemma_leads_upwards(edges, count, walk, next, n);
            lemma_successor_is_target(edges, n, k);
        }
    }
    assert forall|n: int, k: int|
        0 <= n < against.len() && 0 <= k < against[n].len() implies !reaches(
        against,
        #[trigger] against[n][k],
        n,
    ) by {
        let next = against[n][k];
        if reaches(against, next, n) {
            let walk = choose|walk: Seq<int>| leads(against, walk, next, n);
            lemma_leads_downwards(edges, count, walk, next, n);
            lemma_incoming_edges(edges, n);
            let entry = incoming(edges, n)[k];
            assert(predecessors(edges, n)[k] == entry.0);
            assert(edges[entry.1] == (entry.0, n));
        }
    }
}

/// A graph that was built has no cycle: each of its edges leads to a node that
/// was added later. So a walk over it, along the edges or against them, hands
/// out each node after the nodes that it leads to, and a node without
/// successors is found from every node.
pub proof fn lemma_built_has_no_cycle(registered: Registered, graph: GraphView)
    requires
        well_formed(registered, graph),
    ensures
        without_cycle(graph.successor_lists()),
        without_cycle(graph.predecessor_lists()),
{
    reveal(edges_in_order);
    assert forall|e: int| 0 <= e < graph.edges.len() implies (#[trigger] graph.edges[e]).0
        < graph.edges[e].1 by {
        assert(edge_in_order(graph, e));
    }
    lemma_ascending_has_no_cycle(graph.edges, graph.nodes.len());
}

/// Where each input has a dependency of its type and each dependency has its
/// code, every input has its argument.
pub proof fn lemma_arguments_are_found(
    given: Seq<DependencyView>,
    blocks: Map<usize, FragmentView>,
    inputs: Seq<TypeView>,
)
    requires
        forall|k: int|
            0 <= k < inputs.len() ==> type_position(dependency_types(given), #[trigger] inputs[k])
                is Some,
        forall|j: int| 0 <= j < given.len() ==> blocks.contains_key((#[trigger] given[j]).source),
    ensures
        arguments_for(given, blocks, inputs) is Ok,
    decreases inputs.len(),
{
    if inputs.len() > 0 {
        let earlier = inputs.drop_last();
        assert forall|k: int| 0 <= k < earlier.len() implies type_position(
            dependency_types(given),
            #[trigger] earlier[k],
        ) is Some by {
            assert(earlier[k] == inputs[k]);
        }
        lemma_arguments_are_found(given, blocks, earlier);
        let last = inputs[inputs.len() - 1];
        assert(type_position(dependency_types(given), last) is Some);
        let i = type_position(dependency_types(given), last)->0;
        assert(is_first_position(dependency_types(given), last, i));
        assert(blocks.contains_key(given[i].source));
    }
}

/// The code of every node that leads to a node of `order` is in `blocks`, or
/// the node that leads to it comes earlier in `order`.
pub open spec fn ready(env: Env, blocks: Map<usize, FragmentView>, order: Seq<usize>) -> bool {
    forall|i: int, k: int|
        0 <= i < order.len() && 0 <= k < env.graph.incoming_edges(order[i] as int).len() ==> {
            let source = (#[trigger] env.graph.incoming_edges(order[i] as int)[k]).source;
            blocks.contains_key(source) || order.take(i).contains(source)
        }
}

/// A node that has what it needs, after the nodes that lead to it, gets its
/// code: nothing that was generated is lost, and at most one variable is
/// named.
pub proof fn lemma_node_is_generated(env: Env, start: usize, current: usize, state: EmitState)
    requires
        current < env.graph.nodes.len(),
        provided_for(env, current as int),
        forall|k: int|
            0 <= k < env.graph.incoming_edges(current as int).len() ==> state.blocks.contains_key(
                (#[trigger] env.graph.incoming_edges(current as int)[k]).source,
            ),
        state.next_variable < usize::MAX,
    ensures
        env.emit_node(start, current, state) is Ok,
        env.emit_node(start, current, state)->Ok_0.blocks.contains_key(current),
        forall|x: usize| #[trigger]
            state.blocks.contains_key(x) ==> env.emit_node(
                start,
                current,
                state,
            )->Ok_0.blocks.contains_key(x),
        env.emit_node(start, current, state)->Ok_0.next_variable <= state.next_variable + 1,
{
    if env.graph.nodes[current as int] is Compute {
        let edges = env.graph.incoming_edges(current as int);
        let given = env.node_type_inputs(current as int)->0;
        let callable = env.component(current as int).callable();
        lemma_dependencies_list(env, edges);
        assert forall|j: int| 0 <= j < given.len() implies state.blocks.contains_key(
            (#[trigger] given[j]).source,
        ) by {
            assert(given[j].source == edges[j].source);
        }
        lemma_arguments_are_found(given, state.blocks, type_views(callable.inputs@));
    }
}

/// Nodes that have what they need, each after the nodes that lead to it, all
/// get their code, one after the other.
pub proof fn lemma_order_is_generated(
    env: Env,
    depth: nat,
    start: usize,
    order: Seq<usize>,
    state: EmitState,
    discovered: Set<int>,
    finished: Set<int>,
)
    requires
        forall|i: int|
            0 <= i < order.len() ==> (#[trigger] order[i]) < env.graph.nodes.len() && provided_for(
                env,
                order[i] as int,
            ),
        ready(env, state.blocks, order),
        state.next_variable + order.len() < usize::MAX,
    ensures
        env.emit_order(depth, start, order, state, discovered, finished) is Ok,
        forall|x: usize| #[trigger]
            state.blocks.contains_key(x) ==> env.emit_order(
                depth,
                start,
                order,
                state,
                discovered,
                finished,
            )->Ok_0.blocks.contains_key(x),
        forall|i: int|
            0 <= i < order.len() ==> env.emit_order(
                depth,
                start,
                order,
                state,
                discovered,
                finished,
            )->Ok_0.blocks.contains_key(#[trigger] order[i]),
    decreases order.len(),
{
    if order.len() > 0 {
        let current = order[0];
        let rest = order.drop_first();
        assert(provided_for(env, current as int));
        assert forall|k: int|
            0 <= k < env.graph.incoming_edges(current as int).len() implies state.blocks.contains_key(
            (#[trigger] env.graph.incoming_edges(current as int)[k]).source,
        ) by {
            let source = env.graph.incoming_edges(order[0] as int)[k].source;
            assert(order.take(0) =~= Seq::<usize>::empty());
            assert(!order.take(0).contains(source));
        }
        lemma_node_is_generated(env, start, current, state);
        let next = env.emit_node(start, current, state)->Ok_0;
        assert forall|i: int| 0 <= i < rest.len() implies (#[trigger] rest[i]) < env.graph.nodes.len()
            && provided_for(env, rest[i] as int) by {
            assert(rest[i] == order[i + 1]);
        }
        assert(ready(env, next.blocks, rest)) by {
            assert forall|i: int, k: int|
                0 <= i < rest.len() && 0 <= k < env.graph.incoming_edges(rest[i] as int).len() implies {
                let source = (#[trigger] env.graph.incoming_edges(rest[i] as int)[k]).source;
                next.blocks.contains_key(source) || rest.take(i).contains(source)
            } by {
                assert(rest[i] == order[i + 1]);
                let source = env.graph.incoming_edges(order[i + 1] as int)[k].source;
                if !state.blocks.contains_key(source) {
                    assert(order.take(i + 1).contains(source));
                    let earlier = order.take(i + 1);
                    let j = choose|j: int| 0 <= j < earlier.len() && earlier[j] == source;
                    if j > 0 {
                        assert(rest.take(i)[j - 1] == source);
                    }
                }
            }
        }
        lemma_order_is_generated(env, depth, start, rest, next, discovered, finished);
        let after = env.emit_order(depth, start, rest, next, discovered, finished)->Ok_0;
        assert(!(env.graph.nodes[current as int] is MatchBranching));
        assert(env.emit_order(depth, start, order, state, discovered, finished) == env.emit_order(
            depth,
            start,
            rest,
            next,
            discovered,
            finished,
        ));
        assert forall|x: usize| #[trigger] state.blocks.contains_key(x) implies after.blocks.contains_key(
            x,
        ) by {
            assert(next.blocks.contains_key(x));
        }
        assert forall|i: int| 0 <= i < order.len() implies after.blocks.contains_key(
            #[trigger] order[i],
        ) by {
            if i > 0 {
                assert(rest[i - 1] == order[i]);
            } else {
                assert(next.blocks.contains_key(current));
            }
        }
    } else {
        assert(env.emit_order(depth, start, order, state, discovered, finished) == Ok::<
            EmitState,
            CodegenError,
        >(state));
    }
}

/// Where a walk against the edges hands out its nodes after the nodes that
/// lead to them, and what was finished before has its code, the code of every
/// node that leads to a node of the walk is there in time.
pub proof fn lemma_post_order_is_ready(
    env: Env,
    blocks: Map<usize, FragmentView>,
    finished: Set<int>,
    order: Seq<usize>,
)
    requires
        edges_within(env.graph.edges, env.graph.nodes.len()),
        env.graph.nodes.len() <= usize::MAX,
        forall|i: int| 0 <= i < order.len() ==> (#[trigger] order[i]) < env.graph.nodes.len(),
        in_post_order(env.graph.predecessor_lists(), finished, as_ints(order)),
        forall|x: usize| finished.contains(x as int) ==> blocks.contains_key(x),
    ensures
        ready(env, blocks, order),
{
    let lists = env.graph.predecessor_lists();
    assert forall|i: int, k: int|
        0 <= i < order.len() && 0 <= k < env.graph.incoming_edges(order[i] as int).len() implies {
        let source = (#[trigger] env.graph.incoming_edges(order[i] as int)[k]).source;
        blocks.contains_key(source) || order.take(i).contains(source)
    } by {
        let node = order[i] as int;
        let entry = incoming(env.graph.edges, node)[k];
        let source = env.graph.incoming_edges(node)[k].source;
        lemma_incoming_within(env.graph.edges, env.graph.nodes.len(), node);
        assert(source == entry.0 as usize);
        assert(as_ints(order)[i] == node);
        assert(lists[node][k] == entry.0);
        assert(finished.contains(lists[as_ints(order)[i]][k]) || as_ints(order).take(i).contains(
            lists[as_ints(order)[i]][k],
        ));
        if !finished.contains(entry.0) {
            let earlier = as_ints(order).take(i);
            let j = choose|j: int| 0 <= j < earlier.len() && earlier[j] == entry.0;
            assert(as_ints(order)[j] == order[j] as int);
            assert(order.take(i)[j] == source);
        }
    }
}

/// A graph that was built and has no fork is straight, where every callable
/// that it invokes belongs to a package with a name and the variable names do
/// not run out: it has no branch of a result either, every input of a
/// callable finds a value of its type among the edges into the invocation,
/// and every input parameter finds its parameter. So code is generated for
/// it.
pub proof fn lemma_built_without_fork_is_straight(registered: Registered, env: Env, next_variable: nat)
    requires
        well_formed(registered, env.graph),
        wired(registered, env.graph),
        generates_from(env, registered),
        env.wf(),
        env.parameters == required_inputs(env.graph.nodes),
        forall|n: int|
            0 <= n < env.graph.nodes.len() ==> !(#[trigger] env.graph.nodes[n] is MatchBranching),
        forall|n: int|
            0 <= n < env.graph.nodes.len() && #[trigger] env.graph.nodes[n] is Compute && env.component(
                n,
            ).is_callable() ==> env.names.contains_key(env.component(n).callable().package_id@),
        next_variable + env.graph.nodes.len() < usize::MAX,
    ensures
        straight(env, next_variable),
{
    lemma_built_has_no_cycle(registered, env.graph);
    assert forall|n: int| 0 <= n < env.graph.nodes.len() implies #[trigger] provided_for(env, n) by {
        match env.graph.nodes[n] {
            NodeView::Compute { component_id, .. } => {
                assert(env.component(n).is_callable()) by {
                    reveal(invocations_registered);
                    reveal(forks_and_branches);
                    assert(registered.knows(component_id));
                    if !env.component(n).is_callable() {
                        assert(is_branch(registered, env.graph.nodes[n]));
                        assert(branch_shape(env.graph, n));
                    }
                }
                lemma_forks_are_no_inputs(registered, env, n as usize);
                let callable = env.component(n).callable();
                let given = env.node_type_inputs(n)->0;
                assert forall|k: int| 0 <= k < callable.inputs@.len() implies type_position(
                    dependency_types(given),
                    #[trigger] type_views(callable.inputs@)[k],
                ) is Some by {
                    lemma_input_has_dependency(registered, env, n as usize, k);
                    lemma_position_exists(dependency_types(given), type_views(callable.inputs@)[k]);
                }
            },
            NodeView::InputParameter(type_) => {
                lemma_required_inputs(env.graph.nodes);
                assert(env.graph.nodes.contains(NodeView::InputParameter(type_)));
                lemma_position_exists(env.parameters, type_);
            },
            NodeView::MatchBranching => {},
        }
    }
}

/// Every node of a graph that was built has what its code needs, where every
/// callable that the graph invokes belongs to a package with a name: every
/// fork leads to its two arms and follows a node that is no fork, every
/// branch follows its fork, every input of a callable finds a value of its
/// type among the edges into the invocation, and every input parameter finds
/// its parameter.
pub proof fn lemma_built_is_fit(registered: Registered, env: Env)
    requires
        well_formed(registered, env.graph),
        wired(registered, env.graph),
        generates_from(env, registered),
        env.wf(),
        env.parameters == required_inputs(env.graph.nodes),
        callables_are_named(env),
    ensures
        forall|n: int| 0 <= n < env.graph.nodes.len() ==> #[trigger] fit_for(env, n),
{
    assert forall|n: int| 0 <= n < env.graph.nodes.len() implies #[trigger] fit_for(env, n) by {
        match env.graph.nodes[n] {
            NodeView::Compute { component_id, .. } => {
                if env.component(n).is_callable() {
                    lemma_forks_are_no_inputs(registered, env, n as usize);
                    let callable = env.component(n).callable();
                    let given = env.node_type_inputs(n)->0;
                    assert forall|k: int| 0 <= k < callable.inputs@.len() implies type_position(
                        dependency_types(given),
                        #[trigger] type_views(callable.inputs@)[k],
                    ) is Some by {
                        lemma_input_has_dependency(registered, env, n as usize, k);
                        lemma_position_exists(
                            dependency_types(given),
                            type_views(callable.inputs@)[k],
                        );
                    }
                } else {
                    reveal(invocations_registered);
                    reveal(forks_and_branches);
                    assert(registered.knows(component_id));
                    assert(is_branch(registered, env.graph.nodes[n]));
                    assert(branch_shape(env.graph, n));
                }
            },
            NodeView::InputParameter(type_) => {
                lemma_required_inputs(env.graph.nodes);
                assert(env.graph.nodes.contains(NodeView::InputParameter(type_)));
                lemma_position_exists(env.parameters, type_);
            },
            NodeView::MatchBranching => {
                lemma_forks_have_arms(registered, env, n as usize);
                let entries = incoming(env.graph.edges, n);
                assert(entries.len() == env.graph.incoming_edges(n).len());
                lemma_incoming_edges(env.graph.edges, n);
                let entry = entries[0];
                assert(env.graph.edges[entry.1] == (entry.0, n));
                reveal(edges_in_order);
                assert(edge_in_order(env.graph, entry.1));
                assert(fork_leads_to_branch(registered, env.graph, entry.1));
            },
        }
    }
}

/// Code can be generated for a graph that was built, forks and all, where
/// every callable that it invokes belongs to a package with a name, the
/// variable names do not run out, its root is no branch of a result, and its
/// `Err` branches are apart from its other branches.
pub proof fn lemma_built_is_generable(registered: Registered, env: Env, root: int, next_variable: nat)
    requires
        well_formed(registered, env.graph),
        wired(registered, env.graph),
        generates_from(env, registered),
        env.wf(),
        env.parameters == required_inputs(env.graph.nodes),
        callables_are_named(env),
        branches_apart(env),
        !is_branch_node(env, root),
        next_variable + 3 * env.graph.nodes.len() < usize::MAX,
    ensures
        generable(env, root, next_variable),
{
    lemma_built_has_no_cycle(registered, env.graph);
    lemma_built_is_fit(registered, env);
}

/// What code is generated from for the handler `handler`, where a graph is
/// built for it: that graph, a parameter for each type that an input
/// parameter of the graph has, and the registries.
pub open spec fn built_env(registered: Registered, handler: ComponentId, names: Map<Seq<char>, Seq<char>>) -> Env {
    let (graph, _) = registered.call_graph(handler)->Ok_0;
    Env {
        graph,
        parameters: required_inputs(graph.nodes),
        names,
        components: registered.components,
        computations: registered.computations,
    }
}

/// The root of the graph that is built for the handler `handler`.
pub open spec fn built_root(registered: Registered, handler: ComponentId) -> usize {
    let (_, root) = registered.call_graph(handler)->Ok_0;
    root
}

/// Every callable that the graph invokes belongs to a package with a name.
pub open spec fn callables_are_named(env: Env) -> bool {
    forall|n: int|
        0 <= n < env.graph.nodes.len() && #[trigger] env.graph.nodes[n] is Compute && env.component(
            n,
        ).is_callable() ==> env.names.contains_key(env.component(n).callable().package_id@)
}

/// A handler is owed for every graph that is built, forks and all, where the
/// packages of its callables and of the types of the handler have names, the
/// variable names do not run out, and what handles an error takes, besides
/// the error, only values that are at hand wherever the error is
/// ([`branches_apart`]). Where an error handler takes the value of a
/// constructor that can fail and on whose value the failed constructor does
/// not depend, the generator can meet a branch that nothing has bound, and
/// then no handler is generated.
pub proof fn lemma_built_graph_gets_its_handler(
    registered: Registered,
    handler: ComponentId,
    names: Map<Seq<char>, Seq<char>>,
)
    requires
        registered.call_graph(handler) is Ok,
        hydrates(registered.components, registered.computations),
        callables_are_named(built_env(registered, handler, names)),
        branches_apart(built_env(registered, handler, names)),
        parameters_for(built_env(registered, handler, names).parameters, names) is Some,
        rendered_type(
            built_env(registered, handler, names).component(
                built_root(registered, handler) as int,
            ).spec_output_type()@,
            names,
        ) is Some,
        built_env(registered, handler, names).parameters.len() + 3 * built_env(
            registered,
            handler,
            names,
        ).graph.nodes.len() < usize::MAX,
    ensures
        handler_is_owed(
            built_env(registered, handler, names).graph,
            built_root(registered, handler) as int,
            names,
            registered.components,
            registered.computations,
        ),
{
    let env = built_env(registered, handler, names);
    let root = built_root(registered, handler);
    lemma_call_graph_is_well_formed(registered, handler);
    lemma_call_graph_is_wired(registered, handler);
    assert(env.graph.refers_to(env.components.len())) by {
        reveal(invocations_registered);
    }
    assert(registered.knows(handler) && registered.computation(handler) is Callable);
    assert(env.component(root as int).is_callable());
    lemma_built_is_generable(registered, env, root as int, env.parameters.len());
}

/// In a graph that was built and is sealed every error is handled alone.
pub proof fn lemma_sealed_is_handled_alone(registered: Registered, env: Env)
    requires
        well_formed(registered, env.graph),
        generates_from(env, registered),
        sealed(registered, env.graph),
    ensures
        errors_are_handled_alone(env),
{
    let edges = env.graph.edges;
    assert forall|e: int|
        0 <= e < edges.len() && is_err_branch(env, (#[trigger] edges[e]).0) implies incoming(
        edges,
        edges[e].1,
    ).len() == 1 && successors(edges, edges[e].1).len() == 0 by {
        let branch = edges[e].0;
        let target = edges[e].1;
        assert(0 <= branch < env.graph.nodes.len() && 0 <= target < env.graph.nodes.len());
        assert(errs(registered, env.graph.nodes[branch])) by {
            reveal(invocations_registered);
            reveal(forks_and_branches);
            assert(is_branch(registered, env.graph.nodes[branch]));
            assert(branch_shape(env.graph, branch));
            let fork = incoming(edges, branch)[0].0;
            assert(fork_shape(registered, env.graph, fork));
            lemma_incoming_edges(edges, branch);
            let entry = incoming(edges, branch)[0];
            lemma_target_is_successor(edges, entry.1);
            let out = successors(edges, fork);
            let k = choose|k: int| 0 <= k < out.len() && out[k] == branch;
            assert(k == 0 || k == 1);
            if k == 1 {
                assert(names_branch(
                    registered,
                    env.graph.nodes[out[1]],
                    MatchResultVariant::OkVariant,
                ));
            }
        }
        if successors(edges, target).len() > 0 {
            lemma_successor_is_target(edges, target, 0);
            let next = choose|next: int|
                0 <= next < edges.len() && #[trigger] edges[next] == (
                    target,
                    successors(edges, target)[0],
                );
            assert(!handles(registered, env.graph.nodes[edges[next].0]));
        }
    }
}

/// A handler is owed for every graph that is built, forks and all, from
/// components whose error handlers take the error alone, where the packages
/// of its callables and of the types of the handler have names and the
/// variable names do not run out.
pub proof fn lemma_errors_taken_alone_get_their_handler(
    registered: Registered,
    handler: ComponentId,
    names: Map<Seq<char>, Seq<char>>,
)
    requires
        registered.call_graph(handler) is Ok,
        hydrates(registered.components, registered.computations),
        errors_taken_alone(registered),
        callables_are_named(built_env(registered, handler, names)),
        parameters_for(built_env(registered, handler, names).parameters, names) is Some,
        rendered_type(
            built_env(registered, handler, names).component(
                built_root(registered, handler) as int,
            ).spec_output_type()@,
            names,
        ) is Some,
        built_env(registered, handler, names).parameters.len() + 3 * built_env(
            registered,
            handler,
            names,
        ).graph.nodes.len() < usize::MAX,
    ensures
        handler_is_owed(
            built_env(registered, handler, names).graph,
            built_root(registered, handler) as int,
            names,
            registered.components,
            registered.computations,
        ),
{
    let env = built_env(registered, handler, names);
    lemma_call_graph_is_well_formed(registered, handler);
    lemma_call_graph_is_wired(registered, handler);
    lemma_call_graph_is_sealed(registered, handler);
    assert(env.graph.refers_to(env.components.len())) by {
        reveal(invocations_registered);
    }
    lemma_built_is_fit(registered, env);
    lemma_sealed_is_handled_alone(registered, env);
    lemma_handled_alone_is_apart(env);
    lemma_built_graph_gets_its_handler(registered, handler, names);
}

} // verus!

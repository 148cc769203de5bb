//! From the call graph of a handler to the source of a function that invokes
//! every node in its turn: dependencies before their users, what may be built
//! once bound to a variable, and a `match` where a result forks.

use crate::call_graph::as_ints;
use crate::call_graph::as_types;
use crate::call_graph::CallGraph;
use crate::call_graph::CallGraphNode;
use crate::call_graph::find_type;
use crate::call_graph::IncomingEdge;
use crate::call_graph::NumberOfAllowedInvocations;
use crate::call_graph::RawCallGraph;
use crate::call_graph::required_inputs;
use crate::call_graph::visit_order;
use crate::call_graph::walk_after;
use crate::codegen_utils::as_dependencies;
use crate::codegen_utils::binding_entries;
use crate::codegen_utils::Bindings;
use crate::codegen_utils::bindings_insert;
use crate::codegen_utils::blocks_clone;
use crate::codegen_utils::blocks_get;
use crate::codegen_utils::blocks_insert;
use crate::codegen_utils::blocks_new;
use crate::codegen_utils::bindings_new;
use crate::codegen_utils::bindings_values;
use crate::codegen_utils::Blocks;
use crate::codegen_utils::codegen_call_block;
use crate::codegen_utils::CodegenError;
use crate::codegen_utils::Dependency;
use crate::codegen_utils::Fragment;
use crate::codegen_utils::fragments;
use crate::codegen_utils::is_text;
use crate::codegen_utils::let_syntax;
use crate::codegen_utils::statements;
use crate::codegen_utils::VariableNameGenerator;
use crate::component::ComponentDb;
use crate::component::hydrated_component;
use crate::computation::ComputationDb;
use crate::computation::MatchResultVariant;
use crate::emission::as_nodes;
use crate::emission::closure_body_text;
use crate::emission::closure_lone_text;
use crate::emission::lone_handler_for;
use crate::emission::dependencies;
use crate::emission::EmitState;
use crate::emission::Env;
use crate::emission::handler_for;
use crate::emission::handler_syntax;
use crate::emission::HandlerView;
use crate::emission::is_step;
use crate::emission::lemma_as_nodes;
use crate::emission::lemma_dependencies_prefix;
use crate::emission::lemma_parameters_prefix;
use crate::emission::match_syntax;
use crate::emission::node_type;
use crate::emission::node_type_inputs;
use crate::emission::parameter_declarations;
use crate::emission::parameters_for;
use crate::emission::stands_alone;
use crate::language::names_by_id;
use crate::language::PackageNames;
use crate::language::ResolvedType;
use crate::language::TypeView;
use crate::shape::as_node;
use crate::shape::fresh_walk;
use crate::shape::post_order_is_finished;
use crate::shape::PostOrder;
use crate::shape::reached_from;
use crate::shape::reaches;
use crate::call_graph::lemma_reaches_nothing;
use crate::shape::at_rest;
use crate::shape::leads;
use crate::call_graph::in_post_order;
use crate::call_graph::comes_in_post_order;
use crate::call_graph::GraphView;
use crate::reach::lemma_comes_before;
use crate::emission::holds_what_is_finished;
use crate::emission::owed;
use crate::codegen_utils::FragmentView;
use crate::emission::generable;
use crate::arms::lemma_root_is_owed;
use crate::emission::match_owed;
use crate::emission::fit_for;
use crate::arms::walked;
use crate::arms::planned;
use crate::arms::lemma_planned;
use crate::arms::lemma_finished_after;
use crate::arms::lemma_match_is_owed;
use crate::arms::lemma_step_is_generated;
use crate::call_graph::lemma_reaches_itself;
use crate::emission::provided_for;
use crate::emission::straight;
use crate::emission::handler_is_owed;
use crate::laws::lemma_order_is_generated;
use crate::laws::lemma_post_order_is_ready;
use crate::shape::without_cycle;
use crate::shape::successors;
use crate::shape::Walk;
use crate::shape::walk_of;
use crate::text::push_terminated;
use crate::text::terminated;
use crate::text::texts;
use crate::text::variable;
use vstd::prelude::*;
use vstd::string::StringExecFns;

verus! {

/// What code is generated from: the graph, the types for which the handler has
/// a parameter (the parameter of the type at position `i` is the variable with
/// number `i`), the names of the packages, and the two registries.
pub struct Inputs<'a> {
    pub call_graph: &'a RawCallGraph,
    pub parameter_bindings: &'a Vec<&'a ResolvedType>,
    pub package_id2name: &'a PackageNames,
    pub component_db: &'a ComponentDb,
    pub computation_db: &'a ComputationDb,
}

impl<'a> View for Inputs<'a> {
    type V = Env;

    open spec fn view(&self) -> Env {
        Env {
            graph: self.call_graph@,
            parameters: as_types(self.parameter_bindings@),
            names: names_by_id(*self.package_id2name),
            components: self.component_db@,
            computations: self.computation_db@,
        }
    }
}

/// What has been generated so far.
pub struct Emission {
    pub variable_name_generator: VariableNameGenerator,
    pub at_most_once_constructor_blocks: Bindings,
    pub blocks: Blocks,
}

impl View for Emission {
    type V = EmitState;

    open spec fn view(&self) -> EmitState {
        EmitState {
            next_variable: self.variable_name_generator@,
            bindings: binding_entries(self.at_most_once_constructor_blocks),
            blocks: fragments(self.blocks),
        }
    }
}

/// A parameter of the generated handler: its name and the syntax of its type.
#[derive(Clone, Debug, PartialEq, Eq)]
pub struct Parameter {
    pub name: String,
    pub type_: String,
}

/// The generated handler: its parameters, the syntax of the type that it
/// returns, and its body.
#[derive(Clone, Debug, PartialEq, Eq)]
pub struct HandlerFn {
    pub parameters: Vec<Parameter>,
    pub output_type: String,
    pub body: String,
}

impl View for HandlerFn {
    type V = HandlerView;

    open spec fn view(&self) -> HandlerView {
        HandlerView {
            parameters: self.parameters@.map_values(|p: Parameter| (p.name@, p.type_@)),
            output_type: self.output_type@,
            body: self.body@,
        }
    }
}

/// `syn::ItemFn`, the syntax tree of a function, opaque to the verifier.
#[verifier::external_type_specification]
#[verifier::external_body]
pub struct ExItemFn(syn::ItemFn);

/// `syn::Error`, opaque to the verifier.
#[verifier::external_type_specification]
#[verifier::external_body]
pub struct ExSynError(syn::Error);

/// Whether the parser of `syn` reads `source` as a function: whether
/// `syn::parse_str` for an `ItemFn` accepts it.
///
/// That depends on the text alone. `syn` has the text split into tokens by
/// `proc-macro2`, which this crate builds without its feature `proc-macro`:
/// so the lexer of `proc-macro2` itself reads the text in every process, and
/// the lexer of a compiler that expands macros is never asked.
pub uninterp spec fn item_fn_parses(source: Seq<char>) -> bool;

/// Calls `syn::parse_str` for an `ItemFn`: the syntax tree of the function
/// that `source` is, where the parser accepts the text, else the error of the
/// parser. Of the tree and of the error themselves nothing is claimed.
#[verifier::external_body]
pub(crate) fn parse_item_fn(source: &str) -> (parsed: Result<syn::ItemFn, syn::Error>)
    ensures
        parsed is Ok <==> item_fn_parses(source@),
{
    syn::parse_str::<syn::ItemFn>(source)
}

/// Generates the dependency closure of the root of `call_graph`: the handler
/// function, as a syntax tree.
///
/// Where [`handler_for`] gives an error, that is the error. Where it gives a
/// handler, the [source](HandlerFn::source) of that handler is handed to the
/// parser: the function is returned where the parser reads the source as one,
/// and [`CodegenError::Syntax`] where it does not.
///
/// Where a [handler is owed](handler_is_owed), the parser alone decides.
pub fn codegen_callable_closure(
    call_graph: &CallGraph,
    package_id2name: &PackageNames,
    component_db: &ComponentDb,
    computation_db: &ComputationDb,
) -> (function: Result<syn::ItemFn, CodegenError>)
    requires
        call_graph.wf(),
    ensures
        match handler_for(
            call_graph.call_graph@,
            call_graph.root_node_index as int,
            names_by_id(*package_id2name),
            component_db@,
            computation_db@,
        ) {
            Ok(handler) => if item_fn_parses(handler_syntax(handler)) {
                function is Ok
            } else {
                function == Err::<syn::ItemFn, CodegenError>(CodegenError::Syntax)
            },
            Err(e) => function == Err::<syn::ItemFn, CodegenError>(e),
        },
        handler_is_owed(
            call_graph.call_graph@,
            call_graph.root_node_index as int,
            names_by_id(*package_id2name),
            component_db@,
            computation_db@,
        ) ==> function is Ok || function == Err::<syn::ItemFn, CodegenError>(CodegenError::Syntax),
{
    let handler = match codegen_handler(call_graph, package_id2name, component_db, computation_db) {
        Ok(handler) => handler,
        Err(e) => {
            return Err(e);
        },
    };
    let source = handler.source();
    item_or_error(parse_item_fn(source.as_str()))
}

/// What becomes of the source of a handler once the parser has seen it: the
/// function, or [`CodegenError::Syntax`] where the parser refused it.
pub fn item_or_error(parsed: Result<syn::ItemFn, syn::Error>) -> (function: Result<
    syn::ItemFn,
    CodegenError,
>)
    ensures
        match parsed {
            Ok(item) => function == Ok::<syn::ItemFn, CodegenError>(item),
            Err(_) => function == Err::<syn::ItemFn, CodegenError>(CodegenError::Syntax),
        },
{
    match parsed {
        Ok(item) => Ok(item),
        Err(_) => Err(CodegenError::Syntax),
    }
}

/// Generates the handler of `call_graph`: its parameters, the type that it
/// returns, and its body.
///
/// A handler is returned where one [is owed](handler_is_owed): for a graph
/// without cycle whose nodes have what their code needs and in which what
/// handles an error takes, besides the error, only what is at hand wherever
/// the error is.
pub fn codegen_handler(
    call_graph: &CallGraph,
    package_id2name: &PackageNames,
    component_db: &ComponentDb,
    computation_db: &ComputationDb,
) -> (handler: Result<HandlerFn, CodegenError>)
    requires
        call_graph.wf(),
    ensures
        match handler {
            Ok(h) => handler_for(
                call_graph.call_graph@,
                call_graph.root_node_index as int,
                names_by_id(*package_id2name),
                component_db@,
                computation_db@,
            ) == Ok::<HandlerView, CodegenError>(h@),
            Err(e) => handler_for(
                call_graph.call_graph@,
                call_graph.root_node_index as int,
                names_by_id(*package_id2name),
                component_db@,
                computation_db@,
            ) == Err::<HandlerView, CodegenError>(e),
        },
        stands_alone(call_graph.call_graph@, call_graph.root_node_index as int)
            && !(call_graph.call_graph@.nodes[call_graph.root_node_index as int]
            is MatchBranching) ==> lone_handler_for(
            call_graph.call_graph@,
            call_graph.root_node_index as int,
            names_by_id(*package_id2name),
            component_db@,
            computation_db@,
        ) == handler_for(
            call_graph.call_graph@,
            call_graph.root_node_index as int,
            names_by_id(*package_id2name),
            component_db@,
            computation_db@,
        ),
        handler_is_owed(
            call_graph.call_graph@,
            call_graph.root_node_index as int,
            names_by_id(*package_id2name),
            component_db@,
            computation_db@,
        ) ==> handler is Ok,
        handler is Ok ==> (Env {
            graph: call_graph.call_graph@,
            parameters: required_inputs(call_graph.call_graph@.nodes),
            names: names_by_id(*package_id2name),
            components: component_db@,
            computations: computation_db@,
        }).body_order(
            call_graph.root_node_index as int,
            Set::<int>::empty(),
            Set::<int>::empty(),
        ).no_duplicates(),
{
    let input_parameter_types = call_graph.required_input_types();
    let ghost types = as_types(input_parameter_types@);
    let ghost names = names_by_id(*package_id2name);
    // Each input parameter has the variable with the number of its position;
    // the body goes on from there.
    let variable_generator = VariableNameGenerator::starting_at(input_parameter_types.len());
    let body = match codegen_callable_closure_body(
        call_graph.root_node_index,
        &call_graph.call_graph,
        &input_parameter_types,
        package_id2name,
        component_db,
        computation_db,
        variable_generator,
    ) {
        Ok(body) => body,
        Err(e) => {
            return Err(e);
        },
    };
    let mut parameters: Vec<Parameter> = Vec::new();
    let mut i: usize = 0;
    proof {
        assert(types.take(0) =~= Seq::<TypeView>::empty());
    }
    while i < input_parameter_types.len()
        invariant
            i <= input_parameter_types.len(),
            types == as_types(input_parameter_types@),
            types == required_inputs(call_graph.call_graph.nodes()),
            names == names_by_id(*package_id2name),
            closure_body_text(
                call_graph.call_graph@,
                call_graph.root_node_index as int,
                types,
                names,
                component_db@,
                computation_db@,
                types.len(),
            ) == Ok::<Seq<char>, CodegenError>(body@),
            stands_alone(call_graph.call_graph@, call_graph.root_node_index as int)
                && !(call_graph.call_graph@.nodes[call_graph.root_node_index as int]
                is MatchBranching) ==> closure_lone_text(
                call_graph.call_graph@,
                call_graph.root_node_index as int,
                types,
                names,
                component_db@,
                computation_db@,
                types.len(),
            ) == Ok::<Seq<char>, CodegenError>(body@),
            parameters_for(types.take(i as int), names) == Some(
                parameters@.map_values(|p: Parameter| (p.name@, p.type_@)),
            ),
        decreases input_parameter_types.len() - i,
    {
        proof {
            assert(types.take(i + 1).drop_last() =~= types.take(i as int));
            assert(types.take(i + 1).last() == input_parameter_types@[i as int]@);
            lemma_parameters_prefix(types, names, i + 1);
        }
        let type_ = match input_parameter_types[i].render(package_id2name) {
            Some(syntax) => syntax,
            None => {
                return Err(CodegenError::UnknownPackage);
            },
        };
        let ghost earlier = parameters@.map_values(|p: Parameter| (p.name@, p.type_@));
        let parameter = Parameter { name: variable(i), type_ };
        parameters.push(parameter);
        proof {
            assert(parameters@.map_values(|p: Parameter| (p.name@, p.type_@)) =~= earlier.push(
                (parameter.name@, parameter.type_@),
            ));
        }
        i = i + 1;
    }
    proof {
        assert(types.take(types.len() as int) =~= types);
    }
    let component_id = match call_graph.call_graph.node(call_graph.root_node_index) {
        CallGraphNode::Compute { component_id, .. } => *component_id,
        _ => {
            return Err(CodegenError::UnknownComponent);
        },
    };
    let output_type = match component_db.hydrated_component(
        component_id,
        computation_db,
    ).output_type().render(package_id2name) {
        Some(syntax) => syntax,
        None => {
            return Err(CodegenError::UnknownPackage);
        },
    };
    Ok(HandlerFn { parameters, output_type, body })
}

impl HandlerFn {
    /// The source of the handler.
    pub fn source(&self) -> (source: String)
        ensures
            source@ == handler_syntax(self@),
    {
        let mut declarations: Vec<String> = Vec::new();
        let mut i: usize = 0;
        while i < self.parameters.len()
            invariant
                i <= self.parameters.len(),
                texts(declarations@) == parameter_declarations(self@.parameters.take(i as int)),
            decreases self.parameters.len() - i,
        {
            let mut declaration = String::new();
            declaration.append(self.parameters[i].name.as_str());
            declaration.append(": ");
            declaration.append(self.parameters[i].type_.as_str());
            let ghost earlier = texts(declarations@);
            declarations.push(declaration);
            proof {
                let p = self@.parameters[i as int];
                assert(Seq::<char>::empty() + p.0 + ": "@ + p.1 == p.0 + ": "@ + p.1);
                assert(texts(declarations@) =~= earlier.push(declaration@));
                assert(parameter_declarations(self@.parameters.take(i + 1))
                    =~= parameter_declarations(self@.parameters.take(i as int)).push(
                    p.0 + ": "@ + p.1,
                ));
            }
            i = i + 1;
        }
        proof {
            assert(self@.parameters.take(self.parameters.len() as int) =~= self@.parameters);
        }
        let mut source = String::from_str("async fn handler(");
        crate::text::push_separated(&mut source, &declarations, ", ");
        source.append(") -> ");
        source.append(self.output_type.as_str());
        source.append(" { ");
        source.append(self.body.as_str());
        source.append(" }");
        source
    }
}

/// Generates the body of the handler whose call graph is `call_graph` with the
/// root `root_callable_node_index`.
///
/// A body is returned where the graph is [`straight`] or [`generable`].
pub fn codegen_callable_closure_body(
    root_callable_node_index: usize,
    call_graph: &RawCallGraph,
    parameter_bindings: &Vec<&ResolvedType>,
    package_id2name: &PackageNames,
    component_db: &ComponentDb,
    computation_db: &ComputationDb,
    variable_name_generator: VariableNameGenerator,
) -> (body: Result<String, CodegenError>)
    requires
        call_graph.wf(),
        root_callable_node_index < call_graph.nodes().len(),
    ensures
        is_text(
            body,
            closure_body_text(
                call_graph@,
                root_callable_node_index as int,
                as_types(parameter_bindings@),
                names_by_id(*package_id2name),
                component_db@,
                computation_db@,
                variable_name_generator@,
            ),
        ),
        stands_alone(call_graph@, root_callable_node_index as int)
            && !(call_graph@.nodes[root_callable_node_index as int] is MatchBranching) ==> is_text(
            body,
            closure_lone_text(
                call_graph@,
                root_callable_node_index as int,
                as_types(parameter_bindings@),
                names_by_id(*package_id2name),
                component_db@,
                computation_db@,
                variable_name_generator@,
            ),
        ),
        straight(
            (Env {
                graph: call_graph@,
                parameters: as_types(parameter_bindings@),
                names: names_by_id(*package_id2name),
                components: component_db@,
                computations: computation_db@,
            }),
            variable_name_generator@,
        ) ==> body is Ok,
        generable(
            (Env {
                graph: call_graph@,
                parameters: as_types(parameter_bindings@),
                names: names_by_id(*package_id2name),
                components: component_db@,
                computations: computation_db@,
            }),
            root_callable_node_index as int,
            variable_name_generator@,
        ) ==> body is Ok,
        body is Ok ==> (Env {
            graph: call_graph@,
            parameters: as_types(parameter_bindings@),
            names: names_by_id(*package_id2name),
            components: component_db@,
            computations: computation_db@,
        }).body_order(
            root_callable_node_index as int,
            Set::<int>::empty(),
            Set::<int>::empty(),
        ).no_duplicates(),
{
    if !call_graph.is_within(component_db) || !component_db.is_hydrated_from(computation_db) {
        return Err(CodegenError::UnknownComponent);
    }
    let cx = Inputs { call_graph, parameter_bindings, package_id2name, component_db, computation_db };
    let blocks = blocks_new();
    let dfs = call_graph.walk_from(root_callable_node_index);
    proof {
        if generable(cx@, root_callable_node_index as int, variable_name_generator@) {
            lemma_root_is_owed(
                cx@,
                root_callable_node_index as int,
                variable_name_generator@,
                walk_of(dfs),
            );
            assert(fragments(blocks) =~= Map::<usize, FragmentView>::empty());
        }
    }
    _codegen_callable_closure_body(
        &cx,
        call_graph.node_count(),
        root_callable_node_index,
        variable_name_generator,
        blocks,
        dfs,
    )
}

/// Generates the body for the node `node_index`: the statements that bind
/// what is built once, and then what stands for the node that the walk started
/// from.
///
/// A body is returned where the graph is [`straight`] and `blocks` holds the
/// code of what `dfs` has finished, and where a body is [`owed`]: the walk
/// then hands out each node after the nodes that lead to it, so that the code
/// of what a node depends on is there when the node has its turn, and the one
/// fork that it hands out is the node that it started from.
///
/// The walk of a body that is returned hands out no node twice and none that
/// `dfs` has finished; where the graph has no cycle and `dfs` is at rest, it
/// hands out each node after the nodes that lead to it.
pub fn _codegen_callable_closure_body(
    cx: &Inputs<'_>,
    depth: usize,
    node_index: usize,
    variable_name_generator: VariableNameGenerator,
    blocks: Blocks,
    dfs: PostOrder,
) -> (body: Result<String, CodegenError>)
    requires
        cx.call_graph.wf(),
        cx@.wf(),
        node_index < cx@.graph.nodes.len(),
        cx.call_graph.admits(dfs),
    ensures
        is_text(
            body,
            cx@.body_text(
                depth as nat,
                node_index as int,
                variable_name_generator@,
                fragments(blocks),
                walk_of(dfs).discovered,
                walk_of(dfs).finished,
            ),
        ),
        stands_alone(cx@.graph, node_index as int) && !(cx@.graph.nodes[node_index as int]
            is MatchBranching) && !walk_of(dfs).finished.contains(node_index as int) ==> is_text(
            body,
            cx@.lone_body_text(node_index, variable_name_generator@, fragments(blocks)),
        ),
        straight(cx@, variable_name_generator@) && holds_what_is_finished(
            fragments(blocks),
            walk_of(dfs),
        ) ==> body is Ok,
        owed(
            cx@,
            node_index as int,
            depth as nat,
            variable_name_generator@,
            fragments(blocks),
            walk_of(dfs),
        ) ==> body is Ok,
        body is Ok ==> cx@.body_order(
            node_index as int,
            walk_of(dfs).discovered,
            walk_of(dfs).finished,
        ).no_duplicates(),
        body is Ok ==> comes_in_post_order(
            cx@.graph.predecessor_lists(),
            (Walk {
                stack: seq![cx@.body_start(node_index as int, walk_of(dfs).finished)],
                discovered: walk_of(dfs).discovered,
                finished: walk_of(dfs).finished,
            }),
            as_ints(
                cx@.body_order(node_index as int, walk_of(dfs).discovered, walk_of(dfs).finished),
            ),
        ),
        body is Ok ==> forall|k: int|
            0 <= k < cx@.body_order(
                node_index as int,
                walk_of(dfs).discovered,
                walk_of(dfs).finished,
            ).len() ==> !walk_of(dfs).finished.contains(
                (#[trigger] cx@.body_order(
                    node_index as int,
                    walk_of(dfs).discovered,
                    walk_of(dfs).finished,
                )[k]) as int,
            ),
        body is Ok && owed(
            cx@,
            node_index as int,
            depth as nat,
            variable_name_generator@,
            fragments(blocks),
            walk_of(dfs),
        ) ==> planned(
            cx@,
            cx@.body_start(node_index as int, walk_of(dfs).finished),
            fragments(blocks),
            cx@.body_order(node_index as int, walk_of(dfs).discovered, walk_of(dfs).finished),
        ),
    decreases depth, 1nat,
{
    let ghost due = owed(
        cx@,
        node_index as int,
        depth as nat,
        variable_name_generator@,
        fragments(blocks),
        walk_of(dfs),
    );
    let ghost alone = stands_alone(cx@.graph, node_index as int) && !(cx@.graph.nodes[node_index as int]
        is MatchBranching) && !walk_of(dfs).finished.contains(node_index as int);
    let ghost plain = straight(cx@, variable_name_generator@) && holds_what_is_finished(
        fragments(blocks),
        walk_of(dfs),
    );
    proof {
        cx.call_graph.lemma_wf();
    }
    let terminal_index = match find_terminal_descendant(node_index, cx.call_graph) {
        Some(terminal) => terminal,
        None => {
            return Err(CodegenError::NoTerminalNode);
        },
    };
    // The walk starts from a fork that no other fork leads to, so that the code
    // for what leads to a fork is there when the fork has its turn. Where no
    // fork is left, it starts from the terminal node.
    let traversal_start_index = match find_match_branching_ancestor(
        terminal_index,
        cx.call_graph,
        &dfs,
    ) {
        Some(ancestor) => ancestor,
        None => terminal_index,
    };
    let ghost discovered = walk_of(dfs).discovered;
    let ghost finished = walk_of(dfs).finished;
    let ghost walk = Walk { stack: seq![traversal_start_index as int], discovered, finished };
    let ghost first = EmitState {
        next_variable: variable_name_generator@,
        bindings: Seq::empty(),
        blocks: fragments(blocks),
    };
    let mut traversal = dfs;
    cx.call_graph.move_to(&mut traversal, traversal_start_index);
    let order = cx.call_graph.drain_reversed(&mut traversal);
    let ghost after = walk_of(traversal);
    let mut state = Emission {
        variable_name_generator,
        at_most_once_constructor_blocks: bindings_new(),
        blocks,
    };
    let mut i: usize = 0;
    proof {
        lemma_as_nodes(order@);
        assert(order@.skip(0) =~= order@);
        if alone {
            // Nothing leads to the node, so the walk against the edges finds
            // no fork and hands out the node alone.
            let against = cx@.graph.predecessor_lists();
            assert(against[node_index as int].len() == 0);
            assert(terminal_index == node_index);
            if traversal_start_index != node_index {
                lemma_reaches_nothing(against, node_index as int, traversal_start_index as int);
            }
            assert(walk.stack[0] == node_index as int);
            assert(order@.len() > 0);
            let visited = as_ints(order@);
            assert forall|k: int| 0 <= k < visited.len() implies #[trigger] visited[k]
                == node_index as int by {
                lemma_reached_from_one(against, node_index as int, visited[k]);
                lemma_reaches_nothing(against, node_index as int, visited[k]);
            }
            if order@.len() > 1 {
                assert(visited[0] == visited[1]);
            }
            assert(order@ =~= seq![node_index]);
            assert(order@.drop_first() =~= Seq::<usize>::empty());
            assert(cx@.body_text(
                depth as nat,
                node_index as int,
                variable_name_generator@,
                fragments(blocks),
                discovered,
                finished,
            ) == cx@.lone_body_text(node_index, variable_name_generator@, fragments(blocks)));
        }
        if plain {
            // No node is a fork, so the walk starts from the terminal node, and
            // it hands out each node after the nodes that lead to it.
            assert(provided_for(cx@, traversal_start_index as int));
            assert(traversal_start_index == terminal_index);
            assert(at_rest(walk, cx@.graph.nodes.len()));
            assert(walk.stack[0] == traversal_start_index as int);
            lemma_post_order_is_ready(cx@, fragments(blocks), finished, order@);
            lemma_order_is_generated(
                cx@,
                depth as nat,
                traversal_start_index,
                order@,
                first,
                after.discovered,
                after.finished,
            );
            assert(after.finished.contains(traversal_start_index as int));
            if !finished.contains(traversal_start_index as int) {
                assert(as_ints(order@).to_set().contains(traversal_start_index as int));
                let k = choose|k: int|
                    0 <= k < as_ints(order@).len() && as_ints(order@)[k]
                        == traversal_start_index as int;
                assert(order@[k] == traversal_start_index);
            }
            assert(cx@.body_text(
                depth as nat,
                node_index as int,
                variable_name_generator@,
                fragments(blocks),
                discovered,
                finished,
            ) is Ok);
        }
        if due {
            lemma_reaches_itself(cx@.graph.predecessor_lists(), terminal_index as int);
            assert(walk.stack[0] == traversal_start_index as int);
            assert(at_rest(walk, cx@.graph.nodes.len()));
            assert(walked(
                cx@,
                node_index as int,
                finished,
                terminal_index as int,
                traversal_start_index as int,
                order@,
                after.finished,
            ));
            lemma_planned(
                cx@,
                node_index as int,
                depth as nat,
                variable_name_generator@,
                fragments(blocks),
                walk_of(dfs),
                terminal_index as int,
                traversal_start_index as int,
                order@,
                after.finished,
            );
            lemma_finished_after(
                cx@,
                node_index as int,
                finished,
                terminal_index as int,
                traversal_start_index as int,
                order@,
                after.finished,
            );
        }
    }
    proof {
        assert forall|k: int| 0 <= k < order@.len() implies !finished.contains(
            (#[trigger] order@[k]) as int,
        ) by {
            assert(as_ints(order@)[k] == order@[k] as int);
        }
        assert(order@.no_duplicates()) by {
            assert forall|a: int, b: int|
                0 <= a < order@.len() && 0 <= b < order@.len() && a != b implies order@[a]
                != order@[b] by {
                assert(as_ints(order@)[a] == order@[a] as int);
                assert(as_ints(order@)[b] == order@[b] as int);
            }
        }
    }
    while i < order.len()
        invariant
            cx.call_graph.wf(),
            cx@.wf(),
            order@.no_duplicates(),
            comes_in_post_order(cx@.graph.predecessor_lists(), walk, as_ints(order@)),
            forall|k: int| 0 <= k < order@.len() ==> !finished.contains((#[trigger] order@[k]) as int),
            due == owed(
                cx@,
                node_index as int,
                depth as nat,
                variable_name_generator@,
                fragments(blocks),
                walk_of(dfs),
            ),
            due ==> walked(
                cx@,
                node_index as int,
                finished,
                terminal_index as int,
                traversal_start_index as int,
                order@,
                after.finished,
            ),
            due ==> planned(cx@, traversal_start_index as int, fragments(blocks), order@),
            due ==> after.discovered == after.finished,
            due ==> variable_name_generator@ + order@.len() < usize::MAX,
            due ==> forall|j: int| 0 <= j < i ==> state@.blocks.contains_key(#[trigger] order@[j]),
            due ==> forall|x: usize| #[trigger]
                fragments(blocks).contains_key(x) ==> state@.blocks.contains_key(x),
            due && i < order.len() ==> state@.next_variable <= variable_name_generator@ + i,
            plain == (straight(cx@, variable_name_generator@) && holds_what_is_finished(
                fragments(blocks),
                walk_of(dfs),
            )),
            plain ==> cx@.body_text(
                depth as nat,
                node_index as int,
                variable_name_generator@,
                fragments(blocks),
                discovered,
                finished,
            ) is Ok,
            alone == (stands_alone(cx@.graph, node_index as int) && !(cx@.graph.nodes[node_index as int]
                is MatchBranching) && !walk_of(dfs).finished.contains(node_index as int)),
            alone ==> cx@.body_text(
                depth as nat,
                node_index as int,
                variable_name_generator@,
                fragments(blocks),
                discovered,
                finished,
            ) == cx@.lone_body_text(node_index, variable_name_generator@, fragments(blocks)),
            cx.call_graph.admits(traversal),
            after == walk_of(traversal),
            discovered == walk_of(dfs).discovered,
            finished == walk_of(dfs).finished,
            i <= order.len(),
            forall|k: int| 0 <= k < order@.len() ==> order@[k] < cx@.graph.nodes.len(),
            cx@.emit_order(
                depth as nat,
                traversal_start_index,
                order@,
                first,
                after.discovered,
                after.finished,
            ) == cx@.emit_order(
                depth as nat,
                traversal_start_index,
                order@.skip(i as int),
                state@,
                after.discovered,
                after.finished,
            ),
            order@ == as_nodes(
                visit_order(
                    cx@.graph.predecessor_lists(),
                    walk,
                    cx@.graph.nodes.len(),
                ),
            ),
            after == walk_after(
                cx@.graph.predecessor_lists(),
                walk,
                cx@.graph.nodes.len(),
            ),
            cx@.graph.terminal_descendant(node_index as int) == Some(terminal_index as int),
            traversal_start_index as int == match cx@.graph.match_branching_ancestor(
                terminal_index as int,
                finished,
            ) {
                Some(ancestor) => ancestor,
                None => terminal_index as int,
            },
            walk == (Walk { stack: seq![traversal_start_index as int], discovered, finished }),
            first == (EmitState {
                next_variable: variable_name_generator@,
                bindings: Seq::empty(),
                blocks: fragments(blocks),
            }),
        decreases order.len() - i,
    {
        let current_index = order[i];
        let ghost before = state@;
        proof {
            assert(order@.skip(i as int)[0] == current_index);
            assert(order@.skip(i as int).drop_first() =~= order@.skip(i + 1));
        }
        proof {
            if due {
                assert(fit_for(cx@, current_index as int));
                if cx@.graph.nodes[current_index as int] is MatchBranching {
                    assert(order@.last() == current_index);
                    lemma_match_is_owed(
                        cx@,
                        node_index as int,
                        depth as nat,
                        variable_name_generator@,
                        fragments(blocks),
                        walk_of(dfs),
                        terminal_index as int,
                        traversal_start_index as int,
                        order@,
                        after,
                        before,
                    );
                } else {
                    assert forall|k: int|
                        0 <= k < cx@.graph.incoming_edges(current_index as int).len() implies {
                        let source = (#[trigger] cx@.graph.incoming_edges(
                            current_index as int,
                        )[k]).source;
                        cx@.graph.nodes[source as int] is MatchBranching
                            || before.blocks.contains_key(source)
                    } by {
                        let source = cx@.graph.incoming_edges(order@[i as int] as int)[k].source;
                        if order@.take(i as int).contains(source) {
                            let earlier = order@.take(i as int);
                            let j = choose|j: int| 0 <= j < earlier.len() && earlier[j] == source;
                            assert(order@[j] == source);
                        }
                    }
                    lemma_step_is_generated(cx@, traversal_start_index, current_index, before);
                }
            }
        }
        let step = match cx.call_graph.node(current_index) {
            CallGraphNode::MatchBranching => {
                if current_index == traversal_start_index {
                    codegen_match(cx, depth, current_index, &mut state, &traversal)
                } else {
                    Err(CodegenError::MisplacedMatchBranching)
                }
            },
            _ => emit_node(cx, traversal_start_index, current_index, &mut state),
        };
        match step {
            Ok(_) => {},
            Err(e) => {
                proof {
                    assert(cx@.emit_order(
                        depth as nat,
                        traversal_start_index,
                        order@.skip(i as int),
                        before,
                        after.discovered,
                        after.finished,
                    ) == Err::<EmitState, CodegenError>(e));
                }
                return Err(e);
            },
        }
        i = i + 1;
    }
    let mut body = String::new();
    let at_most_once_constructors = bindings_values(&state.at_most_once_constructor_blocks);
    push_terminated(&mut body, &at_most_once_constructors, " ");
    proof {
        assert(Seq::<char>::empty() + terminated(texts(at_most_once_constructors@), " "@)
            == terminated(texts(at_most_once_constructors@), " "@));
    }
    match blocks_get(&state.blocks, traversal_start_index) {
        Some(fragment) => {
            fragment.push_tail(&mut body);
            Ok(body)
        },
        None => Err(CodegenError::MissingFragment),
    }
}

/// Generates the `match` for the fork `current`, with the bodies of its two
/// branches in its arms.
///
/// Each arm is generated from a copy of what has been generated and of the
/// walk: the two branches may depend on the same nodes, and each arm has to
/// hold the code for them.
///
/// The `match` is returned where it [is owed](match_owed).
pub fn codegen_match(
    cx: &Inputs<'_>,
    depth: usize,
    current: usize,
    state: &mut Emission,
    dfs: &PostOrder,
) -> (step: Result<(), CodegenError>)
    requires
        cx.call_graph.wf(),
        cx@.wf(),
        current < cx@.graph.nodes.len(),
        cx.call_graph.admits(*dfs),
    ensures
        is_step(
            step,
            final(state)@,
            cx@.emit_match(
                depth as nat,
                current,
                old(state)@,
                walk_of(*dfs).discovered,
                walk_of(*dfs).finished,
            ),
        ),
        match_owed(cx@, depth as nat, current, old(state)@, walk_of(*dfs)) ==> step is Ok,
    decreases depth, 0nat,
{
    if depth == 0 {
        return Err(CodegenError::NestingTooDeep);
    }
    let edges = cx.call_graph.incoming(current);
    let (ok_node, err_node) = match match_arms(cx, current) {
        Some(arms) => arms,
        None => {
            return Err(CodegenError::MalformedMatchBranching);
        },
    };
    if edges.len() == 0 {
        return Err(CodegenError::MalformedMatchBranching);
    }
    let result_node_index = edges[0].source;
    let mut block = String::from_str("match ");
    match blocks_get(&state.blocks, result_node_index) {
        Some(result_binding) => result_binding.push_expression(&mut block),
        None => {
            return Err(CodegenError::MissingFragment);
        },
    }
    let ghost scrutinee = fragments(state.blocks)[result_node_index].expression();
    let ok_name = match state.variable_name_generator.generate() {
        Some(name) => name,
        None => {
            return Err(CodegenError::TooManyVariables);
        },
    };
    let err_name = match state.variable_name_generator.generate() {
        Some(name) => name,
        None => {
            return Err(CodegenError::TooManyVariables);
        },
    };
    let mut ok_blocks = blocks_clone(&state.blocks);
    blocks_insert(&mut ok_blocks, ok_node, Fragment::VariableReference(ok_name.clone()));
    let ok_body = match _codegen_callable_closure_body(
        cx,
        depth - 1,
        ok_node,
        state.variable_name_generator.fork(),
        ok_blocks,
        cx.call_graph.fork(dfs),
    ) {
        Ok(body) => body,
        Err(e) => {
            return Err(e);
        },
    };
    let mut err_blocks = blocks_clone(&state.blocks);
    blocks_insert(&mut err_blocks, err_node, Fragment::VariableReference(err_name.clone()));
    let err_body = match _codegen_callable_closure_body(
        cx,
        depth - 1,
        err_node,
        state.variable_name_generator.fork(),
        err_blocks,
        cx.call_graph.fork(dfs),
    ) {
        Ok(body) => body,
        Err(e) => {
            return Err(e);
        },
    };
    // The `Ok` arm stands before the `Err` arm, in whichever order the graph
    // lists the two branches.
    block.append(" { Ok(");
    block.append(ok_name.as_str());
    block.append(") => { ");
    block.append(ok_body.as_str());
    block.append(" } Err(");
    block.append(err_name.as_str());
    block.append(") => { ");
    block.append(err_body.as_str());
    block.append(" } }");
    proof {
        assert(block@ == match_syntax(scrutinee, ok_name@, ok_body@, err_name@, err_body@));
    }
    blocks_insert(&mut state.blocks, current, Fragment::Block(block));
    Ok(())
}

/// Generates the code for the node `current`, which is no fork.
pub fn emit_node(cx: &Inputs<'_>, start: usize, current: usize, state: &mut Emission) -> (step:
    Result<(), CodegenError>)
    requires
        cx.call_graph.wf(),
        cx@.wf(),
        current < cx@.graph.nodes.len(),
    ensures
        is_step(step, final(state)@, cx@.emit_node(start, current, old(state)@)),
{
    match cx.call_graph.node(current) {
        CallGraphNode::Compute { component_id, n_allowed_invocations } => {
            let component = cx.component_db.hydrated_component(*component_id, cx.computation_db);
            match component.as_callable() {
                Some(callable) => {
                    let inputs = match get_node_type_inputs(
                        current,
                        cx.call_graph,
                        cx.component_db,
                        cx.computation_db,
                    ) {
                        Some(inputs) => inputs,
                        None => {
                            return Err(CodegenError::MatchBranchingAsInput);
                        },
                    };
                    let block = match codegen_call_block(
                        &inputs,
                        callable,
                        &state.blocks,
                        cx.package_id2name,
                    ) {
                        Ok(block) => block,
                        Err(e) => {
                            return Err(e);
                        },
                    };
                    let is_multiple = match n_allowed_invocations {
                        NumberOfAllowedInvocations::Multiple => true,
                        NumberOfAllowedInvocations::Single => false,
                    };
                    if current == start || is_multiple {
                        // The last node, or a value that is built anew for each
                        // of its users: the call itself stands for the node.
                        blocks_insert(&mut state.blocks, current, Fragment::Statement(block));
                    } else {
                        // The value is bound to a variable, and its users refer
                        // to it by that name.
                        let parameter_name = match state.variable_name_generator.generate() {
                            Some(name) => name,
                            None => {
                                return Err(CodegenError::TooManyVariables);
                            },
                        };
                        let statement = let_statement(&parameter_name, &block);
                        bindings_insert(
                            &mut state.at_most_once_constructor_blocks,
                            current,
                            statement,
                        );
                        blocks_insert(
                            &mut state.blocks,
                            current,
                            Fragment::VariableReference(parameter_name),
                        );
                    }
                    Ok(())
                },
                None => {
                    // The fork that leads here has bound the branch already.
                    if blocks_get(&state.blocks, current).is_some() {
                        Ok(())
                    } else {
                        Err(CodegenError::UnboundMatchResult)
                    }
                },
            }
        },
        CallGraphNode::InputParameter(input_type) => {
            match find_type(cx.parameter_bindings, input_type) {
                Some(position) => {
                    blocks_insert(
                        &mut state.blocks,
                        current,
                        Fragment::VariableReference(variable(position)),
                    );
                    Ok(())
                },
                None => Err(CodegenError::UnboundInputParameter),
            }
        },
        CallGraphNode::MatchBranching => Err(CodegenError::MisplacedMatchBranching),
    }
}

/// The branch of a result that the node `node` names, if it names one.
fn variant_of(cx: &Inputs<'_>, node: usize) -> (variant: Option<MatchResultVariant>)
    requires
        cx.call_graph.wf(),
        cx@.wf(),
        node < cx@.graph.nodes.len(),
    ensures
        variant == cx@.variant_of(node as int),
{
    match cx.call_graph.node(node) {
        CallGraphNode::Compute { component_id, .. } => {
            cx.component_db.hydrated_component(*component_id, cx.computation_db).as_variant()
        },
        _ => None,
    }
}

/// The two nodes that the fork `node` leads to, the `Ok` branch first.
fn match_arms(cx: &Inputs<'_>, node: usize) -> (arms: Option<(usize, usize)>)
    requires
        cx.call_graph.wf(),
        cx@.wf(),
        node < cx@.graph.nodes.len(),
    ensures
        arms == cx@.match_arms(node as int),
        arms matches Some((ok_node, err_node)) ==> ok_node < cx@.graph.nodes.len()
            && err_node < cx@.graph.nodes.len(),
{
    let variants = cx.call_graph.successors(node);
    proof {
        assert(as_ints(variants@).len() == variants@.len());
    }
    if variants.len() != 2 {
        return None;
    }
    proof {
        assert(as_ints(variants@)[0] == variants@[0] as int);
        assert(as_ints(variants@)[1] == variants@[1] as int);
    }
    match (variant_of(cx, variants[0]), variant_of(cx, variants[1])) {
        (Some(MatchResultVariant::OkVariant), Some(MatchResultVariant::ErrVariant)) => Some(
            (variants[0], variants[1]),
        ),
        (Some(MatchResultVariant::ErrVariant), Some(MatchResultVariant::OkVariant)) => Some(
            (variants[1], variants[0]),
        ),
        _ => None,
    }
}

/// `let name = expression;`
fn let_statement(name: &String, expression: &String) -> (statement: String)
    ensures
        statement@ == let_syntax(name@, expression@),
{
    let mut statement = String::from_str("let ");
    statement.append(name.as_str());
    statement.append(" = ");
    statement.append(expression.as_str());
    statement.append(";");
    statement
}

/// Returns a terminal descendant of `start_index`: the first node without
/// successors that a walk along the edges hands out; `None` where it hands out
/// no such node, as in a graph that is all cycle.
///
/// The node that is found has no successors and is reached from
/// `start_index` along the edges. Where `start_index` has no successors
/// itself, it is the node that is found. In a graph without cycle there is
/// such a node, and it is found.
pub fn find_terminal_descendant(start_index: usize, call_graph: &RawCallGraph) -> (terminal: Option<
    usize,
>)
    requires
        call_graph.wf(),
        start_index < call_graph.nodes().len(),
    ensures
        as_node(terminal) == call_graph@.terminal_descendant(start_index as int),
        terminal matches Some(t) ==> {
            &&& t < call_graph.nodes().len()
            &&& successors(call_graph@.edges, t as int).len() == 0
            &&& reaches(call_graph@.successor_lists(), start_index as int, t as int)
        },
        successors(call_graph@.edges, start_index as int).len() == 0 ==> terminal == Some(
            start_index,
        ),
        without_cycle(call_graph@.successor_lists()) ==> terminal is Some,
{
    let mut walk = call_graph.walk_from(start_index);
    let order = call_graph.drain(&mut walk);
    let ghost visited = as_ints(order@);
    let ghost neighbors = call_graph@.successor_lists();
    let mut i: usize = 0;
    proof {
        assert(visited.skip(0) =~= visited);
        assert(fresh_walk(start_index as int).stack[0] == start_index as int);
        assert(order@.len() > 0) by {
            if order@.len() == 0 {
                assert(fresh_walk(start_index as int).finished.contains(
                    fresh_walk(start_index as int).stack[0],
                ));
            }
        }
        assert forall|k: int| 0 <= k < visited.len() implies reaches(
            neighbors,
            start_index as int,
            #[trigger] visited[k],
        ) by {
            lemma_reached_from_one(neighbors, start_index as int, visited[k]);
        }
        if successors(call_graph@.edges, start_index as int).len() == 0 {
            lemma_reaches_nothing(neighbors, start_index as int, visited[0]);
        }
        if without_cycle(neighbors) {
            assert(fresh_walk(start_index as int).discovered =~= fresh_walk(
                start_index as int,
            ).finished);
            assert(at_rest(fresh_walk(start_index as int), neighbors.len()));
            assert(visited.take(0) =~= Seq::<int>::empty());
            if neighbors[visited[0]].len() > 0 {
                assert(!visited.take(0).contains(neighbors[visited[0]][0]));
            }
            assert(successors(call_graph@.edges, visited[0]).len() == 0);
        }
    }
    while i < order.len()
        invariant
            call_graph.wf(),
            i <= order.len(),
            order@.len() > 0,
            without_cycle(neighbors) ==> i == 0 && successors(call_graph@.edges, visited[0]).len()
                == 0,
            visited == as_ints(order@),
            neighbors == call_graph@.successor_lists(),
            visited == visit_order(
                call_graph@.successor_lists(),
                fresh_walk(start_index as int),
                call_graph.nodes().len(),
            ),
            forall|k: int| 0 <= k < order@.len() ==> order@[k] < call_graph.nodes().len(),
            forall|k: int|
                0 <= k < visited.len() ==> reaches(
                    neighbors,
                    start_index as int,
                    #[trigger] visited[k],
                ),
            successors(call_graph@.edges, start_index as int).len() == 0 ==> visited[0]
                == start_index as int,
            successors(call_graph@.edges, start_index as int).len() == 0 ==> i == 0,
            call_graph@.first_sink(visited) == call_graph@.first_sink(visited.skip(i as int)),
        decreases order.len() - i,
    {
        let node = order[i];
        proof {
            assert(visited[i as int] == node as int);
            assert(visited.skip(i as int)[0] == node as int);
            assert(visited.skip(i as int).drop_first() =~= visited.skip(i + 1));
        }
        let targets = call_graph.successors(node);
        proof {
            assert(as_ints(targets@).len() == targets@.len());
        }
        if targets.len() == 0 {
            proof {
                assert(successors(call_graph.edges(), node as int).len() == 0);
                assert(call_graph@.first_sink(visited.skip(i as int)) == Some(node as int));
            }
            return Some(node);
        }
        i = i + 1;
    }
    None
}

/// What is reached from a stack of one node is reached from that node.
pub proof fn lemma_reached_from_one(neighbors: Seq<Seq<int>>, from: int, to: int)
    requires
        reached_from(neighbors, seq![from], to),
    ensures
        reaches(neighbors, from, to),
{
    let i = choose|i: int| 0 <= i < seq![from].len() && reaches(neighbors, #[trigger] seq![from][i], to);
    assert(seq![from][i] == from);
}

/// Returns the first fork that a walk against the edges from `start_index`
/// hands out and that `ignore_set` has not finished. `None` where the walk
/// hands out no such fork.
///
/// The node that is found is a fork from which `start_index` is reached along
/// the edges, other than `start_index` itself.
pub fn find_match_branching_ancestor(
    start_index: usize,
    call_graph: &RawCallGraph,
    ignore_set: &PostOrder,
) -> (ancestor: Option<usize>)
    requires
        call_graph.wf(),
        start_index < call_graph.nodes().len(),
    ensures
        as_node(ancestor) == call_graph@.match_branching_ancestor(
            start_index as int,
            walk_of(*ignore_set).finished,
        ),
        ancestor matches Some(a) ==> {
            &&& a < call_graph.nodes().len()
            &&& a != start_index
            &&& call_graph@.nodes[a as int] is MatchBranching
            &&& !walk_of(*ignore_set).finished.contains(a as int)
            &&& reaches(call_graph@.predecessor_lists(), start_index as int, a as int)
        },
        without_cycle(call_graph@.predecessor_lists()) ==> call_graph@.no_fork_before(
            start_index as int,
            walk_of(*ignore_set).finished,
            match ancestor {
                Some(a) => a as int,
                None => start_index as int,
            },
        ),
{
    let mut ancestors = call_graph.walk_from(start_index);
    let order = call_graph.drain_reversed(&mut ancestors);
    let ghost visited = as_ints(order@);
    let ghost ignore = walk_of(*ignore_set).finished;
    let ghost neighbors = call_graph@.predecessor_lists();
    let mut i: usize = 0;
    proof {
        assert(visited.skip(0) =~= visited);
        assert forall|k: int| 0 <= k < visited.len() implies reaches(
            neighbors,
            start_index as int,
            #[trigger] visited[k],
        ) by {
            lemma_reached_from_one(neighbors, start_index as int, visited[k]);
        }
        assert(fresh_walk(start_index as int).stack[0] == start_index as int);
        assert(fresh_walk(start_index as int).discovered =~= fresh_walk(
            start_index as int,
        ).finished);
        assert(at_rest(fresh_walk(start_index as int), neighbors.len()));
        assert(visited.to_set().contains(start_index as int));
    }
    while i < order.len()
        invariant
            call_graph.wf(),
            i <= order.len(),
            visited == as_ints(order@),
            visited.contains(start_index as int),
            without_cycle(neighbors) ==> in_post_order(neighbors, Set::<int>::empty(), visited),
            forall|j: int|
                0 <= j < i ==> #[trigger] visited[j] == start_index as int || ignore.contains(
                    visited[j],
                ) || !(call_graph@.nodes[visited[j]] is MatchBranching),
            visited == visit_order(
                call_graph@.predecessor_lists(),
                fresh_walk(start_index as int),
                call_graph.nodes().len(),
            ),
            ignore == walk_of(*ignore_set).finished,
            neighbors == call_graph@.predecessor_lists(),
            forall|k: int| 0 <= k < order@.len() ==> order@[k] < call_graph.nodes().len(),
            forall|k: int|
                0 <= k < visited.len() ==> reaches(
                    neighbors,
                    start_index as int,
                    #[trigger] visited[k],
                ),
            call_graph@.first_branching(start_index as int, ignore, visited)
                == call_graph@.first_branching(start_index as int, ignore, visited.skip(i as int)),
        decreases order.len() - i,
    {
        let ancestor_index = order[i];
        proof {
            assert(visited[i as int] == ancestor_index as int);
            assert(visited.skip(i as int)[0] == ancestor_index as int);
            assert(visited.skip(i as int).drop_first() =~= visited.skip(i + 1));
        }
        if ancestor_index != start_index && !post_order_is_finished(ignore_set, ancestor_index) {
            match call_graph.node(ancestor_index) {
                CallGraphNode::MatchBranching => {
                    proof {
                        assert(call_graph@.first_branching(
                            start_index as int,
                            ignore,
                            visited.skip(i as int),
                        ) == Some(ancestor_index as int));
                        if without_cycle(neighbors) {
                            lemma_first_fork(
                                call_graph@,
                                start_index as int,
                                ignore,
                                visited,
                                i as int,
                            );
                        }
                    }
                    return Some(ancestor_index);
                },
                _ => {},
            }
        }
        i = i + 1;
    }
    proof {
        if without_cycle(neighbors) {
            let at = choose|at: int| 0 <= at < visited.len() && visited[at] == start_index as int;
            lemma_first_fork(call_graph@, start_index as int, ignore, visited, at);
        }
    }
    None
}

/// Where a walk against the edges hands out each node after what leads to it,
/// and none of the nodes before the one at `at` is a fork that counts, no fork
/// that counts leads to that node: a fork counts that is not `start` and not in
/// `ignore`.
pub proof fn lemma_first_fork(graph: GraphView, start: int, ignore: Set<int>, visited: Seq<int>, at: int)
    requires
        0 <= at < visited.len(),
        in_post_order(graph.predecessor_lists(), Set::<int>::empty(), visited),
        forall|j: int|
            0 <= j < at ==> #[trigger] visited[j] == start || ignore.contains(visited[j])
                || !(graph.nodes[visited[j]] is MatchBranching),
    ensures
        graph.no_fork_before(start, ignore, visited[at]),
{
    let lists = graph.predecessor_lists();
    assert forall|x: int|
        #[trigger] reaches(lists, visited[at], x) && x != visited[at] && x != start && 0 <= x
            < graph.nodes.len() && graph.nodes[x] is MatchBranching implies ignore.contains(x) by {
        lemma_reached_came_before(lists, visited, at, x);
        let m = choose|m: int| 0 <= m < at && visited[m] == x;
        assert(visited[m] == start || ignore.contains(visited[m]) || !(graph.nodes[visited[m]]
            is MatchBranching));
    }
}

/// In a walk from nothing that hands out each node after its neighbours,
/// whatever the node at `at` leads to, and is not that node, was handed out
/// before it.
pub proof fn lemma_reached_came_before(lists: Seq<Seq<int>>, visited: Seq<int>, at: int, x: int)
    requires
        0 <= at < visited.len(),
        in_post_order(lists, Set::<int>::empty(), visited),
        reaches(lists, visited[at], x),
        x != visited[at],
    ensures
        exists|m: int| 0 <= m < at && visited[m] == x,
{
    let walk = choose|walk: Seq<int>| leads(lists, walk, visited[at], x);
    lemma_comes_before(lists, Set::<int>::empty(), visited, at, walk, x);
    let found = visited.take(at + 1);
    let m = choose|m: int| 0 <= m < found.len() && found[m] == x;
    assert(visited[m] == x);
    assert(0 <= m < at && visited[m] == x);
}

/// What the node `node_index` can take: of each edge that enters it, the edge
/// added last first, the source, the type of its value and how it is handed
/// over; `None` where an edge comes from a fork, which has no value.
pub fn get_node_type_inputs<'a>(
    node_index: usize,
    call_graph: &'a RawCallGraph,
    component_db: &ComponentDb,
    computation_db: &'a ComputationDb,
) -> (inputs: Option<Vec<Dependency<'a>>>)
    requires
        call_graph.wf(),
        call_graph.refers_to(component_db),
        component_db.hydrates_from(computation_db),
        node_index < call_graph.nodes().len(),
    ensures
        match inputs {
            Some(found) => node_type_inputs(
                call_graph@,
                component_db@,
                computation_db@,
                node_index as int,
            ) == Some(as_dependencies(found@)),
            None => node_type_inputs(call_graph@, component_db@, computation_db@, node_index as int)
                is None,
        },
{
    let edges = call_graph.incoming(node_index);
    let mut inputs: Vec<Dependency<'a>> = Vec::new();
    let mut i: usize = 0;
    proof {
        assert(edges@.take(0) =~= Seq::<IncomingEdge>::empty());
    }
    while i < edges.len()
        invariant
            call_graph.wf(),
            call_graph.refers_to(component_db),
            component_db.hydrates_from(computation_db),
            i <= edges.len(),
            edges@ == call_graph@.incoming_edges(node_index as int),
            forall|k: int|
                0 <= k < edges@.len() ==> (#[trigger] edges@[k]).source < call_graph.nodes().len(),
            dependencies(call_graph@, component_db@, computation_db@, edges@.take(i as int)) == Some(
                as_dependencies(inputs@),
            ),
        decreases edges.len() - i,
    {
        let edge = edges[i];
        proof {
            assert(edges@.take(i + 1).drop_last() =~= edges@.take(i as int));
            assert(edges@.take(i + 1).last() == edge);
            lemma_dependencies_prefix(call_graph@, component_db@, computation_db@, edges@, i + 1);
        }
        let type_: &'a ResolvedType = match call_graph.node(edge.source) {
            CallGraphNode::Compute { component_id, .. } => {
                component_db.hydrated_component(*component_id, computation_db).output_type()
            },
            CallGraphNode::InputParameter(input) => input,
            CallGraphNode::MatchBranching => {
                proof {
                    assert(node_type(call_graph@, component_db@, computation_db@, edge.source as int)
                        is None);
                    assert(dependencies(
                        call_graph@,
                        component_db@,
                        computation_db@,
                        edges@.take(i + 1),
                    ) is None);
                }
                return None;
            },
        };
        let ghost earlier = as_dependencies(inputs@);
        let dependency = Dependency { source: edge.source, type_, metadata: edge.metadata };
        inputs.push(dependency);
        proof {
            assert(as_dependencies(inputs@) =~= earlier.push(dependency@));
        }
        i = i + 1;
    }
    proof {
        assert(edges@.take(edges@.len() as int) =~= edges@);
    }
    Some(inputs)
}

} // verus!

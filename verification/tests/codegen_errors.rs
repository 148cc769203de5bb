use bimap::BiHashMap;
use pavex::call_graph::CallGraph;
use pavex::call_graph::CallGraphEdgeMetadata;
use pavex::call_graph::CallGraphNode;
use pavex::call_graph::NumberOfAllowedInvocations;
use pavex::call_graph::RawCallGraph;
use pavex::codegen::_codegen_callable_closure_body;
use pavex::codegen::codegen_callable_closure;
use pavex::codegen::codegen_callable_closure_body;
use pavex::codegen::codegen_handler;
use pavex::codegen::emit_node;
use pavex::codegen::find_match_branching_ancestor;
use pavex::codegen::find_terminal_descendant;
use pavex::codegen::get_node_type_inputs;
use pavex::codegen::Emission;
use pavex::codegen::Inputs;
use pavex::codegen_utils::CodegenError;
use pavex::codegen_utils::VariableNameGenerator;
use pavex::component::ComponentDb;
use pavex::component::ComponentId;
use pavex::component::Lifecycle;
use pavex::computation::Computation;
use pavex::computation::ComputationDb;
use pavex::computation::MatchResult;
use pavex::computation::MatchResultVariant;
use pavex::language::Callable;
use pavex::language::Fallibility;
use pavex::language::PackageNames;
use pavex::language::ResolvedType;
use ahash::HashMapExt;
use pavex::codegen_utils::Blocks;

fn ty(name: &str) -> ResolvedType {
    ResolvedType::new("app 0.1.0".to_string(), vec![name.to_string()])
}

fn call(name: &str, inputs: Vec<ResolvedType>, output: ResolvedType) -> Callable {
    Callable {
        package_id: "app 0.1.0".to_string(),
        path: vec![name.to_string()],
        inputs,
        output,
        fallibility: Fallibility::Infallible,
        is_async: false,
    }
}

fn names() -> PackageNames {
    let mut names = BiHashMap::new();
    names.insert("app 0.1.0".to_string(), "app".to_string());
    names
}

struct World {
    computations: ComputationDb,
    components: ComponentDb,
    graph: RawCallGraph,
}

impl World {
    fn new() -> World {
        World {
            computations: ComputationDb::new(),
            components: ComponentDb::new(),
            graph: RawCallGraph::new(),
        }
    }

    fn node(&mut self, id: ComponentId, n: NumberOfAllowedInvocations) -> usize {
        self.graph
            .add_node(CallGraphNode::Compute { component_id: id, n_allowed_invocations: n })
            .unwrap()
    }

    fn handler(&mut self, callable: Callable) -> usize {
        let id = self.computations.register(Computation::Callable(callable));
        let id = self.components.request_handler(id);
        self.node(id, NumberOfAllowedInvocations::Single)
    }

    fn constructor(&mut self, callable: Callable) -> usize {
        let id = self.computations.register(Computation::Callable(callable));
        let id = self.components.constructor(id, Lifecycle::RequestScoped);
        self.node(id, NumberOfAllowedInvocations::Single)
    }

    fn branch(&mut self, variant: MatchResultVariant, output: ResolvedType) -> usize {
        let id = self.computations.register(Computation::MatchResult(MatchResult { variant, output }));
        let id = self.components.transformer(id, ComponentId(0));
        self.node(id, NumberOfAllowedInvocations::Single)
    }

    fn fork(&mut self) -> usize {
        self.graph.add_node(CallGraphNode::MatchBranching).unwrap()
    }

    fn edge(&mut self, source: usize, target: usize) {
        self.graph.add_edge(source, target, CallGraphEdgeMetadata::Move).unwrap();
    }

    fn borrow(&mut self, source: usize, target: usize) {
        self.graph.add_edge(source, target, CallGraphEdgeMetadata::SharedBorrow).unwrap();
    }

    fn source_with(self, root: usize, names: &PackageNames) -> Result<String, CodegenError> {
        let graph = CallGraph::new(self.graph, root).unwrap();
        codegen_handler(&graph, names, &self.components, &self.computations).map(|h| h.source())
    }

    fn source(self, root: usize) -> Result<String, CodegenError> {
        self.source_with(root, &names())
    }
}

#[test]
fn asynchronous_callables_are_awaited_and_borrowed_values_referenced() {
    let mut w = World::new();
    let mut handler = call("handler", vec![ty("A"), ty("B")], ty("Response"));
    handler.is_async = true;
    let root = w.handler(handler);
    let mut a = call("a", vec![], ty("A"));
    a.is_async = true;
    let a = w.constructor(a);
    let b = w.constructor(call("b", vec![ty("A")], ty("B")));
    w.borrow(a, b);
    w.borrow(a, root);
    w.edge(b, root);
    assert_eq!(
        w.source(root).unwrap(),
        "async fn handler() -> app::Response { let v0 = app::a().await; let v1 = app::b(&v0); \
         app::handler(&v0, v1).await }"
    );
}

#[test]
fn arguments_follow_the_signature_not_the_edges() {
    let mut w = World::new();
    let root = w.handler(call("handler", vec![ty("B"), ty("A")], ty("Response")));
    let a = w.constructor(call("a", vec![], ty("A")));
    let b = w.constructor(call("b", vec![], ty("B")));
    w.edge(a, root);
    w.edge(b, root);
    assert_eq!(
        w.source(root).unwrap(),
        "async fn handler() -> app::Response { let v0 = app::a(); let v1 = app::b(); \
         app::handler(v1, v0) }"
    );
}

#[test]
fn unknown_package_of_a_callable_is_refused() {
    let mut w = World::new();
    let root = w.handler(call("handler", vec![], ty("Response")));
    assert_eq!(w.source_with(root, &BiHashMap::new()), Err(CodegenError::UnknownPackage));
}

#[test]
fn unknown_package_of_the_output_type_is_refused() {
    let mut w = World::new();
    let output = ResolvedType::new("http 1.0.0".to_string(), vec!["Response".to_string()]);
    let root = w.handler(call("handler", vec![], output));
    assert_eq!(w.source(root), Err(CodegenError::UnknownPackage));
}

#[test]
fn unknown_package_of_a_parameter_is_refused() {
    let mut w = World::new();
    let request = ResolvedType::new("http 1.0.0".to_string(), vec!["Request".to_string()]);
    let root = w.handler(call("handler", vec![request.clone()], ty("Response")));
    let input = w.graph.add_node(CallGraphNode::InputParameter(request)).unwrap();
    w.edge(input, root);
    assert_eq!(w.source(root), Err(CodegenError::UnknownPackage));
}

#[test]
fn input_without_an_edge_is_missing() {
    let mut w = World::new();
    let root = w.handler(call("handler", vec![ty("A")], ty("Response")));
    assert_eq!(w.source(root), Err(CodegenError::MissingInput));
}

#[test]
fn node_that_is_used_before_its_turn_has_no_fragment() {
    let mut w = World::new();
    let root = w.handler(call("handler", vec![ty("A")], ty("Response")));
    let a = w.constructor(call("a", vec![ty("B")], ty("A")));
    let b = w.constructor(call("b", vec![ty("A")], ty("B")));
    w.edge(a, root);
    w.edge(b, a);
    w.edge(a, b);
    assert_eq!(w.source(root), Err(CodegenError::MissingFragment));
}

#[test]
fn fork_is_no_input_of_a_callable() {
    let mut w = World::new();
    let root = w.handler(call("handler", vec![ty("A")], ty("Response")));
    let fork = w.fork();
    w.edge(fork, root);
    let cx_graph = &w.graph;
    assert!(get_node_type_inputs(root, cx_graph, &w.components, &w.computations).is_none());
    let mut state = Emission {
        variable_name_generator: VariableNameGenerator::new(),
        at_most_once_constructor_blocks: indexmap::IndexMap::new(),
        blocks: Blocks::new(),
    };
    let types = vec![];
    let names = names();
    let cx = Inputs {
        call_graph: &w.graph,
        parameter_bindings: &types,
        package_id2name: &names,
        component_db: &w.components,
        computation_db: &w.computations,
    };
    assert_eq!(emit_node(&cx, root, root, &mut state), Err(CodegenError::MatchBranchingAsInput));
    assert_eq!(
        emit_node(&cx, root, fork, &mut state),
        Err(CodegenError::MisplacedMatchBranching)
    );
}

#[test]
fn branch_without_a_fork_is_unbound() {
    let mut w = World::new();
    let root = w.handler(call("handler", vec![ty("A")], ty("Response")));
    let ok = w.branch(MatchResultVariant::OkVariant, ty("A"));
    w.edge(ok, root);
    assert_eq!(w.source(root), Err(CodegenError::UnboundMatchResult));
}

#[test]
fn input_parameter_without_a_binding_is_refused() {
    let mut w = World::new();
    let root = w.handler(call("handler", vec![ty("Request")], ty("Response")));
    let input = w.graph.add_node(CallGraphNode::InputParameter(ty("Request"))).unwrap();
    w.edge(input, root);
    let none = vec![];
    assert_eq!(
        codegen_callable_closure_body(
            root,
            &w.graph,
            &none,
            &names(),
            &w.components,
            &w.computations,
            VariableNameGenerator::new(),
        ),
        Err(CodegenError::UnboundInputParameter)
    );
    let request = ty("Request");
    let bound = vec![&request];
    assert_eq!(
        codegen_callable_closure_body(
            root,
            &w.graph,
            &bound,
            &names(),
            &w.components,
            &w.computations,
            VariableNameGenerator::starting_at(1),
        ),
        Ok("app::handler(v0)".to_string())
    );
}

#[test]
fn fork_with_one_branch_is_malformed() {
    let mut w = World::new();
    let root = w.handler(call("handler", vec![ty("A")], ty("Response")));
    let c = w.constructor(call("c", vec![], ty("R")));
    let fork = w.fork();
    let ok = w.branch(MatchResultVariant::OkVariant, ty("A"));
    w.edge(c, fork);
    w.edge(fork, ok);
    w.edge(ok, root);
    assert_eq!(w.source(root), Err(CodegenError::MalformedMatchBranching));
}

#[test]
fn fork_with_two_ok_branches_is_malformed() {
    let mut w = World::new();
    let root = w.handler(call("handler", vec![ty("A")], ty("Response")));
    let c = w.constructor(call("c", vec![], ty("R")));
    let fork = w.fork();
    let ok = w.branch(MatchResultVariant::OkVariant, ty("A"));
    let other = w.branch(MatchResultVariant::OkVariant, ty("B"));
    w.edge(c, fork);
    w.edge(fork, ok);
    w.edge(fork, other);
    w.edge(ok, root);
    assert_eq!(w.source(root), Err(CodegenError::MalformedMatchBranching));
}

#[test]
fn fork_that_nothing_leads_to_is_malformed() {
    let mut w = World::new();
    let root = w.handler(call("handler", vec![ty("A")], ty("Response")));
    let fork = w.fork();
    let ok = w.branch(MatchResultVariant::OkVariant, ty("A"));
    let err = w.branch(MatchResultVariant::ErrVariant, ty("E"));
    w.edge(fork, ok);
    w.edge(fork, err);
    w.edge(ok, root);
    assert_eq!(w.source(root), Err(CodegenError::MalformedMatchBranching));
}

#[test]
fn invocation_of_an_unregistered_component_is_refused() {
    let mut w = World::new();
    let root = w.node(ComponentId(5), NumberOfAllowedInvocations::Single);
    assert_eq!(w.source(root), Err(CodegenError::UnknownComponent));
}

#[test]
fn root_that_is_no_invocation_is_refused() {
    let mut w = World::new();
    let root = w.graph.add_node(CallGraphNode::InputParameter(ty("Request"))).unwrap();
    assert_eq!(w.source(root), Err(CodegenError::UnknownComponent));
}

#[test]
fn graph_that_is_all_cycle_has_no_terminal_node() {
    let mut w = World::new();
    let a = w.handler(call("a", vec![ty("B")], ty("A")));
    let b = w.constructor(call("b", vec![ty("A")], ty("B")));
    w.edge(a, b);
    w.edge(b, a);
    assert_eq!(find_terminal_descendant(a, &w.graph), None);
    assert_eq!(w.source(a), Err(CodegenError::NoTerminalNode));
}

fn fallible_world() -> (World, usize, usize) {
    let mut w = World::new();
    let f = w.handler(call("f", vec![ty("A")], ty("Response")));
    let c = w.constructor(call("c", vec![], ty("R")));
    let fork = w.fork();
    let ok = w.branch(MatchResultVariant::OkVariant, ty("A"));
    let err = w.branch(MatchResultVariant::ErrVariant, ty("E"));
    let h = w.handler(call("h", vec![ty("E")], ty("Response")));
    w.edge(c, fork);
    w.edge(fork, ok);
    w.edge(fork, err);
    w.edge(ok, f);
    w.edge(err, h);
    (w, f, fork)
}

#[test]
fn forks_nested_deeper_than_allowed_are_refused() {
    let (w, f, _) = fallible_world();
    let types = vec![];
    let names = names();
    let cx = Inputs {
        call_graph: &w.graph,
        parameter_bindings: &types,
        package_id2name: &names,
        component_db: &w.components,
        computation_db: &w.computations,
    };
    let body = |depth: usize| {
        _codegen_callable_closure_body(
            &cx,
            depth,
            f,
            VariableNameGenerator::new(),
            Blocks::new(),
            w.graph.walk_from(f),
        )
    };
    assert_eq!(body(0), Err(CodegenError::NestingTooDeep));
    assert_eq!(
        body(1),
        Ok("let v0 = app::c(); match v0 { Ok(v1) => { app::f(v1) } Err(v2) => { app::h(v2) } }"
            .to_string())
    );
}

#[test]
fn variable_names_can_run_out() {
    let (w, f, _) = fallible_world();
    let none = vec![];
    let body = |next: usize| {
        codegen_callable_closure_body(
            f,
            &w.graph,
            &none,
            &names(),
            &w.components,
            &w.computations,
            VariableNameGenerator::starting_at(next),
        )
    };
    assert_eq!(body(usize::MAX), Err(CodegenError::TooManyVariables));
    assert_eq!(body(usize::MAX - 2), Err(CodegenError::TooManyVariables));
    assert!(body(usize::MAX - 3).is_ok());
}

#[test]
fn source_that_is_no_function_is_a_syntax_error() {
    let mut w = World::new();
    let root = w.handler(call("handler", vec![], ty("Response")));
    let mut names: PackageNames = BiHashMap::new();
    names.insert("app 0.1.0".to_string(), "not a name".to_string());
    let graph = CallGraph::new(w.graph, root).unwrap();
    assert_eq!(
        codegen_callable_closure(&graph, &names, &w.components, &w.computations).err(),
        Some(CodegenError::Syntax)
    );
}

#[test]
fn terminal_descendant_and_first_fork_are_found() {
    let (w, f, fork) = fallible_world();
    // c = 1, fork = 2, ok = 3, err = 4, h = 5
    assert_eq!(find_terminal_descendant(f, &w.graph), Some(f));
    assert_eq!(find_terminal_descendant(3, &w.graph), Some(f));
    assert_eq!(find_terminal_descendant(4, &w.graph), Some(5));
    let mut seen_nothing = w.graph.walk_from(f);
    assert_eq!(find_match_branching_ancestor(f, &w.graph, &seen_nothing), Some(fork));
    assert_eq!(find_match_branching_ancestor(1, &w.graph, &seen_nothing), None);
    assert_eq!(find_match_branching_ancestor(fork, &w.graph, &seen_nothing), None);
    w.graph.move_to(&mut seen_nothing, fork);
    let order = w.graph.drain_reversed(&mut seen_nothing);
    assert_eq!(order, vec![1, fork]);
    assert_eq!(find_match_branching_ancestor(f, &w.graph, &seen_nothing), None);
}

#[test]
fn walks_hand_out_each_reachable_node_once_after_what_it_leads_to() {
    let (w, f, fork) = fallible_world();
    let mut forward = w.graph.walk_from(1);
    let order = w.graph.drain(&mut forward);
    assert_eq!(order.len(), 6);
    assert_eq!(*order.last().unwrap(), 1);
    let position = |n: usize| order.iter().position(|x| *x == n).unwrap();
    assert!(position(f) < position(3));
    assert!(position(5) < position(4));
    assert!(position(3) < position(fork));
    assert!(position(4) < position(fork));
    let mut distinct = order.clone();
    distinct.sort();
    distinct.dedup();
    assert_eq!(distinct.len(), order.len());
    assert_eq!(w.graph.drain(&mut forward), Vec::<usize>::new());
    let mut backward = w.graph.walk_from(f);
    assert_eq!(w.graph.drain_reversed(&mut backward), vec![1, fork, 3, f]);
    let mut copy = w.graph.fork(&backward);
    w.graph.move_to(&mut copy, 5);
    assert_eq!(w.graph.drain_reversed(&mut copy), vec![4, 5]);
}

#[test]
fn edges_into_a_node_are_listed_latest_first() {
    let mut w = World::new();
    let root = w.handler(call("handler", vec![ty("A"), ty("B")], ty("Response")));
    let a = w.constructor(call("a", vec![], ty("A")));
    let b = w.constructor(call("b", vec![], ty("B")));
    w.edge(a, root);
    w.borrow(b, root);
    let incoming = w.graph.incoming(root);
    assert_eq!(incoming.len(), 2);
    assert_eq!(incoming[0].source, b);
    assert_eq!(incoming[0].metadata, CallGraphEdgeMetadata::SharedBorrow);
    assert_eq!(incoming[1].source, a);
    assert_eq!(incoming[1].metadata, CallGraphEdgeMetadata::Move);
    assert_eq!(w.graph.successors(a), vec![root]);
    let inputs = get_node_type_inputs(root, &w.graph, &w.components, &w.computations).unwrap();
    assert_eq!(inputs.len(), 2);
    assert_eq!(inputs[0].source, b);
    assert_eq!(inputs[0].type_, &ty("B"));
    assert_eq!(inputs[1].source, a);
    assert_eq!(inputs[1].type_, &ty("A"));
}

#[test]
fn graph_refuses_edges_between_nodes_that_it_does_not_have() {
    let mut graph = RawCallGraph::new();
    let node = graph.add_node(CallGraphNode::MatchBranching).unwrap();
    assert_eq!(graph.add_edge(node, 1, CallGraphEdgeMetadata::Move), None);
    assert_eq!(graph.add_edge(1, node, CallGraphEdgeMetadata::Move), None);
    assert_eq!(graph.edge_count(), 0);
    assert_eq!(graph.add_edge(node, node, CallGraphEdgeMetadata::Move), Some(0));
    assert_eq!(graph.edge_count(), 1);
    assert!(CallGraph::new(graph, 1).is_none());
}

#[test]
fn node_that_stands_alone_is_its_own_terminal_descendant_and_has_no_fork_before_it() {
    let mut w = World::new();
    let other = w.handler(call("other", vec![], ty("Response")));
    let lone = w.handler(call("lone", vec![], ty("Response")));
    let fork = w.fork();
    w.edge(other, fork);
    assert_eq!(find_terminal_descendant(lone, &w.graph), Some(lone));
    let seen_nothing = w.graph.walk_from(lone);
    assert_eq!(find_match_branching_ancestor(lone, &w.graph, &seen_nothing), None);
    assert_eq!(find_match_branching_ancestor(fork, &w.graph, &seen_nothing), None);
    assert_eq!(w.source(lone).unwrap(), "async fn handler() -> app::Response { app::lone() }");
}

#[test]
fn graph_without_fork_gets_its_code_with_each_value_bound_before_its_users() {
    let mut w = World::new();
    let a = w.constructor(call("a", vec![], ty("A")));
    let b = w.constructor(call("b", vec![ty("A")], ty("B")));
    let c = w.constructor(call("c", vec![ty("A")], ty("C")));
    let root = w.handler(call("handler", vec![ty("B"), ty("C")], ty("Response")));
    w.borrow(a, b);
    w.borrow(a, c);
    w.edge(b, root);
    w.edge(c, root);
    let source = w.source(root).unwrap();
    assert_eq!(
        source,
        "async fn handler() -> app::Response { let v0 = app::a(); let v1 = app::b(&v0); \
         let v2 = app::c(&v0); app::handler(v1, v2) }"
    );
    assert_eq!(source.matches("app::a()").count(), 1);
    assert!(source.find("let v0").unwrap() < source.find("&v0").unwrap());
    assert!(syn::parse_str::<syn::ItemFn>(&source).is_ok());
}

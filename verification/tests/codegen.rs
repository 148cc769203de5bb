use bimap::BiHashMap;
use pavex::call_graph::CallGraph;
use pavex::call_graph::CallGraphEdgeMetadata;
use pavex::call_graph::CallGraphNode;
use pavex::call_graph::NumberOfAllowedInvocations;
use pavex::call_graph::RawCallGraph;
use pavex::codegen::codegen_callable_closure;
use pavex::codegen::codegen_handler;
use pavex::codegen_utils::CodegenError;
use pavex::component::ComponentDb;
use pavex::component::ComponentId;
use pavex::component::Lifecycle;
use pavex::computation::Computation;
use pavex::computation::ComputationDb;
use pavex::computation::MatchResult;
use pavex::computation::MatchResultVariant;
use pavex::language::Callable;
use pavex::language::Fallibility;
use pavex::language::PackageNames;
use pavex::language::ResolvedType;
use quote::ToTokens;

fn ty(name: &str) -> ResolvedType {
    ResolvedType::new("app 0.1.0".to_string(), vec![name.to_string()])
}

fn callable(name: &str, inputs: Vec<ResolvedType>, output: ResolvedType) -> Computation {
    Computation::Callable(Callable {
        package_id: "app 0.1.0".to_string(),
        path: vec![name.to_string()],
        inputs,
        output,
        fallibility: Fallibility::Infallible,
        is_async: false,
    })
}

fn fallible(name: &str, inputs: Vec<ResolvedType>, ok: ResolvedType, err: ResolvedType) -> Computation {
    Computation::Callable(Callable {
        package_id: "app 0.1.0".to_string(),
        path: vec![name.to_string()],
        inputs,
        output: ResolvedType::new(
            "core 1.0.0".to_string(),
            vec!["result".to_string(), "Result".to_string()],
        ),
        fallibility: Fallibility::Fallible { ok, err },
        is_async: false,
    })
}

fn projection(variant: MatchResultVariant, output: ResolvedType) -> Computation {
    Computation::MatchResult(MatchResult { variant, output })
}

fn names() -> PackageNames {
    let mut names = BiHashMap::new();
    names.insert("app 0.1.0".to_string(), "app".to_string());
    names.insert("core 1.0.0".to_string(), "core".to_string());
    names
}

fn compute(graph: &mut RawCallGraph, id: ComponentId, n: NumberOfAllowedInvocations) -> usize {
    graph
        .add_node(CallGraphNode::Compute { component_id: id, n_allowed_invocations: n })
        .unwrap()
}

fn edge(graph: &mut RawCallGraph, source: usize, target: usize) {
    graph.add_edge(source, target, CallGraphEdgeMetadata::Move).unwrap();
}

struct World {
    computations: ComputationDb,
    components: ComponentDb,
    graph: RawCallGraph,
}

impl World {
    fn new() -> World {
        World {
            computations: ComputationDb::new(),
            components: ComponentDb::new(),
            graph: RawCallGraph::new(),
        }
    }

    fn handler(&mut self, computation: Computation) -> usize {
        let id = self.computations.register(computation);
        let id = self.components.request_handler(id);
        compute(&mut self.graph, id, NumberOfAllowedInvocations::Single)
    }

    fn constructor(&mut self, computation: Computation, lifecycle: Lifecycle) -> usize {
        let id = self.computations.register(computation);
        let id = self.components.constructor(id, lifecycle);
        let n = match lifecycle {
            Lifecycle::Transient => NumberOfAllowedInvocations::Multiple,
            _ => NumberOfAllowedInvocations::Single,
        };
        compute(&mut self.graph, id, n)
    }

    fn component_of(&self, node: usize) -> ComponentId {
        match self.graph.node(node) {
            CallGraphNode::Compute { component_id, .. } => *component_id,
            _ => unreachable!(),
        }
    }

    fn transformer(&mut self, computation: Computation, source: usize) -> usize {
        let source = self.component_of(source);
        let id = self.computations.register(computation);
        let id = self.components.transformer(id, source);
        compute(&mut self.graph, id, NumberOfAllowedInvocations::Single)
    }

    fn error_handler(&mut self, computation: Computation, fallible: usize) -> usize {
        let fallible = self.component_of(fallible);
        let id = self.computations.register(computation);
        let id = self.components.error_handler(id, fallible).unwrap();
        compute(&mut self.graph, id, NumberOfAllowedInvocations::Single)
    }

    fn input(&mut self, type_: ResolvedType) -> usize {
        self.graph.add_node(CallGraphNode::InputParameter(type_)).unwrap()
    }

    fn branching(&mut self) -> usize {
        self.graph.add_node(CallGraphNode::MatchBranching).unwrap()
    }

    fn source(self, root: usize) -> Result<String, CodegenError> {
        let graph = CallGraph::new(self.graph, root).unwrap();
        codegen_handler(&graph, &names(), &self.components, &self.computations).map(|h| h.source())
    }
}

/// A fallible constructor `c`, its two branches, the handler `f` of the value
/// and the handler `h` of the error. Returns the world and the root.
fn one_fallible_constructor() -> (World, usize) {
    let mut w = World::new();
    let f = w.handler(callable("f", vec![ty("A")], ty("Response")));
    let c = w.constructor(fallible("c", vec![], ty("A"), ty("E")), Lifecycle::RequestScoped);
    let fork = w.branching();
    let ok = w.transformer(projection(MatchResultVariant::OkVariant, ty("A")), c);
    let err = w.transformer(projection(MatchResultVariant::ErrVariant, ty("E")), c);
    let h = w.error_handler(callable("h", vec![ty("E")], ty("Response")), c);
    edge(&mut w.graph, c, fork);
    edge(&mut w.graph, fork, ok);
    edge(&mut w.graph, fork, err);
    edge(&mut w.graph, ok, f);
    edge(&mut w.graph, err, h);
    (w, f)
}

#[test]
fn handler_without_dependencies_is_a_single_call() {
    let mut w = World::new();
    let root = w.handler(callable("handler", vec![], ty("Response")));
    assert_eq!(
        w.source(root).unwrap(),
        "async fn handler() -> app::Response { app::handler() }"
    );
}

#[test]
fn handler_with_one_input_parameter_takes_one_argument() {
    let mut w = World::new();
    let root = w.handler(callable("handler", vec![ty("Request")], ty("Response")));
    let request = w.input(ty("Request"));
    edge(&mut w.graph, request, root);
    assert_eq!(
        w.source(root).unwrap(),
        "async fn handler(v0: app::Request) -> app::Response { app::handler(v0) }"
    );
}

#[test]
fn chain_of_request_scoped_constructors_is_bound_in_dependency_order() {
    let mut w = World::new();
    let root = w.handler(callable("handler", vec![ty("C")], ty("Response")));
    let c = w.constructor(callable("c", vec![ty("B")], ty("C")), Lifecycle::RequestScoped);
    let b = w.constructor(callable("b", vec![ty("A")], ty("B")), Lifecycle::RequestScoped);
    let a = w.constructor(callable("a", vec![], ty("A")), Lifecycle::RequestScoped);
    edge(&mut w.graph, a, b);
    edge(&mut w.graph, b, c);
    edge(&mut w.graph, c, root);
    assert_eq!(
        w.source(root).unwrap(),
        "async fn handler() -> app::Response { let v0 = app::a(); let v1 = app::b(v0); \
         let v2 = app::c(v1); app::handler(v2) }"
    );
}

#[test]
fn fallible_constructor_becomes_a_match_with_ok_before_err() {
    let (w, root) = one_fallible_constructor();
    assert_eq!(
        w.source(root).unwrap(),
        "async fn handler() -> app::Response { let v0 = app::c(); \
         match v0 { Ok(v1) => { app::f(v1) } Err(v2) => { app::h(v2) } } }"
    );
}

#[test]
fn ok_arm_comes_first_whatever_the_order_of_the_edges() {
    let mut w = World::new();
    let f = w.handler(callable("f", vec![ty("A")], ty("Response")));
    let c = w.constructor(fallible("c", vec![], ty("A"), ty("E")), Lifecycle::RequestScoped);
    let fork = w.branching();
    let ok = w.transformer(projection(MatchResultVariant::OkVariant, ty("A")), c);
    let err = w.transformer(projection(MatchResultVariant::ErrVariant, ty("E")), c);
    let h = w.error_handler(callable("h", vec![ty("E")], ty("Response")), c);
    edge(&mut w.graph, c, fork);
    edge(&mut w.graph, fork, err);
    edge(&mut w.graph, fork, ok);
    edge(&mut w.graph, err, h);
    edge(&mut w.graph, ok, f);
    assert_eq!(
        w.source(f).unwrap(),
        "async fn handler() -> app::Response { let v0 = app::c(); \
         match v0 { Ok(v1) => { app::f(v1) } Err(v2) => { app::h(v2) } } }"
    );
}

#[test]
fn transient_constructor_is_inlined_at_each_user() {
    let mut w = World::new();
    let root = w.handler(callable("handler", vec![ty("A"), ty("B")], ty("Response")));
    let a = w.constructor(callable("a", vec![ty("T")], ty("A")), Lifecycle::RequestScoped);
    let b = w.constructor(callable("b", vec![ty("T")], ty("B")), Lifecycle::RequestScoped);
    let t = w.constructor(callable("t", vec![], ty("T")), Lifecycle::Transient);
    edge(&mut w.graph, t, a);
    edge(&mut w.graph, t, b);
    edge(&mut w.graph, a, root);
    edge(&mut w.graph, b, root);
    let source = w.source(root).unwrap();
    assert_eq!(
        source,
        "async fn handler() -> app::Response { let v0 = app::a(app::t()); \
         let v1 = app::b(app::t()); app::handler(v0, v1) }"
    );
    assert_eq!(source.matches("app::t()").count(), 2);
    assert!(!source.contains("= app::t();"));
}

#[test]
fn shared_request_scoped_ancestor_is_bound_once_before_the_match() {
    let mut w = World::new();
    let f = w.handler(callable("f", vec![ty("B")], ty("Response")));
    let x = w.constructor(callable("x", vec![], ty("X")), Lifecycle::RequestScoped);
    let c1 = w.constructor(fallible("c1", vec![ty("X")], ty("A"), ty("E1")), Lifecycle::RequestScoped);
    let fork1 = w.branching();
    let ok1 = w.transformer(projection(MatchResultVariant::OkVariant, ty("A")), c1);
    let err1 = w.transformer(projection(MatchResultVariant::ErrVariant, ty("E1")), c1);
    let h1 = w.error_handler(callable("h1", vec![ty("E1"), ty("X")], ty("Response")), c1);
    let c2 = w.constructor(
        fallible("c2", vec![ty("A"), ty("X")], ty("B"), ty("E2")),
        Lifecycle::RequestScoped,
    );
    let fork2 = w.branching();
    let ok2 = w.transformer(projection(MatchResultVariant::OkVariant, ty("B")), c2);
    let err2 = w.transformer(projection(MatchResultVariant::ErrVariant, ty("E2")), c2);
    let h2 = w.error_handler(callable("h2", vec![ty("E2")], ty("Response")), c2);
    edge(&mut w.graph, x, c1);
    edge(&mut w.graph, c1, fork1);
    edge(&mut w.graph, fork1, ok1);
    edge(&mut w.graph, fork1, err1);
    edge(&mut w.graph, err1, h1);
    edge(&mut w.graph, x, h1);
    edge(&mut w.graph, ok1, c2);
    edge(&mut w.graph, x, c2);
    edge(&mut w.graph, c2, fork2);
    edge(&mut w.graph, fork2, ok2);
    edge(&mut w.graph, fork2, err2);
    edge(&mut w.graph, err2, h2);
    edge(&mut w.graph, ok2, f);
    let source = w.source(f).unwrap();
    assert_eq!(
        source,
        "async fn handler() -> app::Response { let v0 = app::x(); let v1 = app::c1(v0); \
         match v1 { Ok(v2) => { let v4 = app::c2(v2, v0); \
         match v4 { Ok(v5) => { app::f(v5) } Err(v6) => { app::h2(v6) } } } \
         Err(v3) => { app::h1(v3, v0) } } }"
    );
    assert_eq!(source.matches("app::x()").count(), 1);
}

#[test]
fn generation_is_deterministic() {
    let (first, root) = one_fallible_constructor();
    let (second, _) = one_fallible_constructor();
    assert_eq!(first.source(root), second.source(root));
}

#[test]
fn generated_source_parses_as_a_function() {
    let (w, root) = one_fallible_constructor();
    let graph = CallGraph::new(w.graph, root).unwrap();
    let function =
        codegen_callable_closure(&graph, &names(), &w.components, &w.computations).unwrap();
    assert_eq!(function.sig.ident.to_string(), "handler");
    assert!(function.sig.asyncness.is_some());
    assert_eq!(function.sig.inputs.len(), 0);
    let expected: syn::ItemFn = syn::parse_str(
        "async fn handler() -> app::Response {
            let v0 = app::c();
            match v0 {
                Ok(v1) => { app::f(v1) }
                Err(v2) => { app::h(v2) }
            }
        }",
    )
    .unwrap();
    assert_eq!(
        function.to_token_stream().to_string(),
        expected.to_token_stream().to_string()
    );
}

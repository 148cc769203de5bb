use bimap::BiHashMap;
use pavex::builder::build_call_graph;
use pavex::builder::BuildError;
use pavex::call_graph::CallGraphNode;
use pavex::call_graph::NumberOfAllowedInvocations;
use pavex::codegen::codegen_handler;
use pavex::codegen_utils::CodegenError;
use pavex::component::ComponentDb;
use pavex::component::ComponentId;
use pavex::component::Lifecycle;
use pavex::computation::Computation;
use pavex::computation::ComputationDb;
use pavex::computation::MatchResult;
use pavex::computation::MatchResultVariant;
use pavex::language::Callable;
use pavex::language::Fallibility;
use pavex::language::PackageNames;
use pavex::language::ResolvedType;

fn t(name: &str) -> ResolvedType {
    ResolvedType::new("app 0.1.0".to_string(), vec![name.to_string()])
}

fn plain(name: &str, inputs: Vec<ResolvedType>, output: ResolvedType) -> Computation {
    Computation::Callable(Callable {
        package_id: "app 0.1.0".to_string(),
        path: vec![name.to_string()],
        inputs,
        output,
        fallibility: Fallibility::Infallible,
        is_async: false,
    })
}

fn failing(name: &str, inputs: Vec<ResolvedType>, ok: ResolvedType, err: ResolvedType) -> Computation {
    Computation::Callable(Callable {
        package_id: "app 0.1.0".to_string(),
        path: vec![name.to_string()],
        inputs,
        output: ResolvedType::new(
            "core 1.0.0".to_string(),
            vec!["result".to_string(), "Result".to_string()],
        ),
        fallibility: Fallibility::Fallible { ok, err },
        is_async: false,
    })
}

fn package_names() -> PackageNames {
    let mut names = BiHashMap::new();
    names.insert("app 0.1.0".to_string(), "app".to_string());
    names.insert("core 1.0.0".to_string(), "core".to_string());
    names
}

struct Registry {
    computations: ComputationDb,
    components: ComponentDb,
}

impl Registry {
    fn new() -> Registry {
        Registry { computations: ComputationDb::new(), components: ComponentDb::new() }
    }

    fn handler(&mut self, computation: Computation) -> ComponentId {
        let id = self.computations.register(computation);
        self.components.request_handler(id)
    }

    fn constructor(&mut self, computation: Computation, lifecycle: Lifecycle) -> ComponentId {
        let id = self.computations.register(computation);
        self.components.constructor(id, lifecycle)
    }

    /// A constructor that can fail, with the two branches of its result.
    fn fallible(
        &mut self,
        name: &str,
        inputs: Vec<ResolvedType>,
        ok: ResolvedType,
        err: ResolvedType,
    ) -> ComponentId {
        let id = self.constructor(
            failing(name, inputs, ok.clone(), err.clone()),
            Lifecycle::RequestScoped,
        );
        let ok = self.computations.register(Computation::MatchResult(MatchResult {
            variant: MatchResultVariant::OkVariant,
            output: ok,
        }));
        self.components.transformer(ok, id);
        let err = self.computations.register(Computation::MatchResult(MatchResult {
            variant: MatchResultVariant::ErrVariant,
            output: err,
        }));
        self.components.transformer(err, id);
        id
    }

    fn error_handler(&mut self, computation: Computation, fallible: ComponentId) -> ComponentId {
        let id = self.computations.register(computation);
        self.components.error_handler(id, fallible).unwrap()
    }

    fn source(&self, handler: ComponentId, externals: Vec<ResolvedType>) -> String {
        let graph =
            build_call_graph(handler, &self.components, &self.computations, &externals).unwrap();
        codegen_handler(&graph, &package_names(), &self.components, &self.computations)
            .unwrap()
            .source()
    }

    fn error(&self, handler: ComponentId, externals: Vec<ResolvedType>) -> BuildError {
        match build_call_graph(handler, &self.components, &self.computations, &externals) {
            Ok(_) => panic!("a graph was built"),
            Err(e) => e,
        }
    }
}

#[test]
fn builds_a_single_node_for_a_handler_without_inputs() {
    let mut r = Registry::new();
    let handler = r.handler(plain("handler", vec![], t("Response")));
    let graph = build_call_graph(handler, &r.components, &r.computations, &vec![]).unwrap();
    assert_eq!(graph.root_node_index, 0);
    assert_eq!(graph.call_graph.node_count(), 1);
    assert_eq!(graph.call_graph.edge_count(), 0);
    assert_eq!(
        graph.call_graph.node(0),
        &CallGraphNode::Compute {
            component_id: handler,
            n_allowed_invocations: NumberOfAllowedInvocations::Single
        }
    );
}

#[test]
fn builds_producers_before_consumers() {
    let mut r = Registry::new();
    let handler = r.handler(plain("handler", vec![t("C")], t("Response")));
    let c = r.constructor(plain("c", vec![t("B")], t("C")), Lifecycle::RequestScoped);
    let b = r.constructor(plain("b", vec![t("A")], t("B")), Lifecycle::Singleton);
    let a = r.constructor(plain("a", vec![], t("A")), Lifecycle::Transient);
    let graph = build_call_graph(handler, &r.components, &r.computations, &vec![]).unwrap();
    let graph = &graph.call_graph;
    assert_eq!(graph.node_count(), 4);
    let single = NumberOfAllowedInvocations::Single;
    let multiple = NumberOfAllowedInvocations::Multiple;
    assert_eq!(
        graph.node(0),
        &CallGraphNode::Compute { component_id: a, n_allowed_invocations: multiple }
    );
    assert_eq!(
        graph.node(1),
        &CallGraphNode::Compute { component_id: b, n_allowed_invocations: single }
    );
    assert_eq!(
        graph.node(2),
        &CallGraphNode::Compute { component_id: c, n_allowed_invocations: single }
    );
    assert_eq!(
        graph.node(3),
        &CallGraphNode::Compute { component_id: handler, n_allowed_invocations: single }
    );
    assert_eq!(graph.successors(0), vec![1]);
    assert_eq!(graph.successors(1), vec![2]);
    assert_eq!(graph.successors(2), vec![3]);
    assert_eq!(graph.successors(3), Vec::<usize>::new());
}

#[test]
fn generates_from_a_built_chain() {
    let mut r = Registry::new();
    let handler = r.handler(plain("handler", vec![t("C")], t("Response")));
    r.constructor(plain("c", vec![t("B")], t("C")), Lifecycle::RequestScoped);
    r.constructor(plain("b", vec![t("A")], t("B")), Lifecycle::RequestScoped);
    r.constructor(plain("a", vec![], t("A")), Lifecycle::RequestScoped);
    assert_eq!(
        r.source(handler, vec![]),
        "async fn handler() -> app::Response { let v0 = app::a(); let v1 = app::b(v0); \
         let v2 = app::c(v1); app::handler(v2) }"
    );
}

#[test]
fn fallible_constructor_gets_a_fork_two_branches_and_its_error_handler() {
    let mut r = Registry::new();
    let f = r.handler(plain("f", vec![t("A")], t("Response")));
    let c = r.fallible("c", vec![], t("A"), t("E"));
    let h = r.error_handler(plain("h", vec![t("E")], t("Response")), c);
    let graph = build_call_graph(f, &r.components, &r.computations, &vec![]).unwrap();
    assert_eq!(graph.root_node_index, 5);
    let graph = &graph.call_graph;
    assert_eq!(graph.node_count(), 6);
    assert_eq!(graph.node(1), &CallGraphNode::MatchBranching);
    assert_eq!(graph.incoming(1).len(), 1);
    assert_eq!(graph.incoming(1)[0].source, 0);
    // The branch added last comes first.
    assert_eq!(graph.successors(1), vec![3, 2]);
    assert_eq!(graph.successors(2), vec![5]);
    assert_eq!(graph.successors(3), vec![4]);
    assert_eq!(
        graph.node(4),
        &CallGraphNode::Compute {
            component_id: h,
            n_allowed_invocations: NumberOfAllowedInvocations::Single
        }
    );
    assert_eq!(
        r.source(f, vec![]),
        "async fn handler() -> app::Response { let v0 = app::c(); \
         match v0 { Ok(v1) => { app::f(v1) } Err(v2) => { app::h(v2) } } }"
    );
}

#[test]
fn external_types_become_input_parameters_once_each() {
    let mut r = Registry::new();
    let handler = r.handler(plain("handler", vec![t("A"), t("Request")], t("Response")));
    r.constructor(plain("a", vec![t("Request"), t("Pool")], t("A")), Lifecycle::RequestScoped);
    let externals = vec![t("Pool"), t("Request")];
    let graph = build_call_graph(handler, &r.components, &r.computations, &externals).unwrap();
    let types: Vec<ResolvedType> =
        graph.required_input_types().into_iter().cloned().collect();
    assert_eq!(types, vec![t("Request"), t("Pool")]);
    assert_eq!(graph.call_graph.node_count(), 4);
    assert_eq!(
        r.source(handler, externals),
        "async fn handler(v0: app::Request, v1: app::Pool) -> app::Response { \
         let v2 = app::a(v0, v1); app::handler(v2, v0) }"
    );
}

#[test]
fn transient_constructor_is_one_node_that_is_invoked_at_each_user() {
    let mut r = Registry::new();
    let handler = r.handler(plain("handler", vec![t("A"), t("B")], t("Response")));
    r.constructor(plain("a", vec![t("T")], t("A")), Lifecycle::RequestScoped);
    r.constructor(plain("b", vec![t("T")], t("B")), Lifecycle::RequestScoped);
    r.constructor(plain("t", vec![], t("T")), Lifecycle::Transient);
    let graph = build_call_graph(handler, &r.components, &r.computations, &vec![]).unwrap();
    assert_eq!(graph.call_graph.node_count(), 4);
    assert_eq!(
        r.source(handler, vec![]),
        "async fn handler() -> app::Response { let v0 = app::a(app::t()); \
         let v1 = app::b(app::t()); app::handler(v0, v1) }"
    );
}

#[test]
fn building_twice_gives_the_same_graph_and_the_same_source() {
    let mut r = Registry::new();
    let f = r.handler(plain("f", vec![t("A"), t("Request")], t("Response")));
    let c = r.fallible("c", vec![t("Request")], t("A"), t("E"));
    r.error_handler(plain("h", vec![t("E")], t("Response")), c);
    let externals = vec![t("Request")];
    let first = build_call_graph(f, &r.components, &r.computations, &externals).unwrap();
    let second = build_call_graph(f, &r.components, &r.computations, &externals).unwrap();
    assert_eq!(first.root_node_index, second.root_node_index);
    assert_eq!(first.call_graph.node_count(), second.call_graph.node_count());
    assert_eq!(first.call_graph.edge_count(), second.call_graph.edge_count());
    for node in 0..first.call_graph.node_count() {
        assert_eq!(first.call_graph.node(node), second.call_graph.node(node));
        assert_eq!(first.call_graph.successors(node), second.call_graph.successors(node));
        assert_eq!(first.call_graph.incoming(node), second.call_graph.incoming(node));
    }
    let names = package_names();
    assert_eq!(
        codegen_handler(&first, &names, &r.components, &r.computations),
        codegen_handler(&second, &names, &r.components, &r.computations)
    );
}

#[test]
fn missing_constructor_is_unresolvable() {
    let mut r = Registry::new();
    let handler = r.handler(plain("handler", vec![t("Request"), t("A")], t("Response")));
    assert_eq!(
        r.error(handler, vec![t("Request")]),
        BuildError::UnresolvableInput { consumer: handler, input: 1 }
    );
}

#[test]
fn two_constructors_of_one_type_are_ambiguous() {
    let mut r = Registry::new();
    let handler = r.handler(plain("handler", vec![t("A")], t("Response")));
    let first = r.constructor(plain("a1", vec![], t("A")), Lifecycle::RequestScoped);
    let second = r.constructor(plain("a2", vec![], t("A")), Lifecycle::Singleton);
    assert_eq!(r.error(handler, vec![]), BuildError::AmbiguousConstructor { first, second });
}

#[test]
fn dependency_cycle_is_detected() {
    let mut r = Registry::new();
    let handler = r.handler(plain("handler", vec![t("A")], t("Response")));
    let a = r.constructor(plain("a", vec![t("B")], t("A")), Lifecycle::RequestScoped);
    r.constructor(plain("b", vec![t("A")], t("B")), Lifecycle::RequestScoped);
    assert_eq!(r.error(handler, vec![]), BuildError::CycleDetected { component: a });
}

#[test]
fn fallible_constructor_without_error_handler_is_refused() {
    let mut r = Registry::new();
    let handler = r.handler(plain("handler", vec![t("A")], t("Response")));
    let c = r.fallible("c", vec![], t("A"), t("E"));
    assert_eq!(r.error(handler, vec![]), BuildError::MissingErrorHandler { component: c });
}

#[test]
fn unknown_handler_is_an_invariant_violation() {
    let r = Registry::new();
    assert_eq!(r.error(ComponentId(3), vec![]), BuildError::InvariantViolation);
}

#[test]
fn branch_of_another_type_is_no_branch_of_the_result() {
    let mut r = Registry::new();
    let handler = r.handler(plain("handler", vec![t("A")], t("Response")));
    let c = r.constructor(failing("c", vec![], t("A"), t("E")), Lifecycle::RequestScoped);
    let ok = r.computations.register(Computation::MatchResult(MatchResult {
        variant: MatchResultVariant::OkVariant,
        output: t("B"),
    }));
    r.components.transformer(ok, c);
    let err = r.computations.register(Computation::MatchResult(MatchResult {
        variant: MatchResultVariant::ErrVariant,
        output: t("E"),
    }));
    r.components.transformer(err, c);
    r.error_handler(plain("h", vec![t("E")], t("Response")), c);
    assert_eq!(r.error(handler, vec![]), BuildError::InvariantViolation);
}

#[test]
fn error_handler_takes_what_it_needs_beside_the_error() {
    let mut r = Registry::new();
    let f = r.handler(plain("f", vec![t("A")], t("Response")));
    let c = r.fallible("c", vec![], t("A"), t("E"));
    r.error_handler(plain("h", vec![t("Logger"), t("E")], t("Response")), c);
    r.constructor(plain("logger", vec![], t("Logger")), Lifecycle::Singleton);
    assert_eq!(
        r.source(f, vec![]),
        "async fn handler() -> app::Response { let v0 = app::c(); \
         match v0 { Ok(v1) => { app::f(v1) } \
         Err(v2) => { let v3 = app::logger(); app::h(v3, v2) } } }"
    );
}

#[test]
fn error_handler_that_needs_the_value_of_its_constructor_is_a_cycle() {
    let mut r = Registry::new();
    let f = r.handler(plain("f", vec![t("A")], t("Response")));
    let c = r.fallible("c", vec![], t("A"), t("E"));
    r.error_handler(plain("h", vec![t("E"), t("A")], t("Response")), c);
    assert_eq!(r.error(f, vec![]), BuildError::CycleDetected { component: c });
}

#[test]
fn value_that_only_the_arms_take_is_built_in_each_arm_that_takes_it() {
    let mut r = Registry::new();
    let f = r.handler(plain("f", vec![t("A"), t("Logger")], t("Response")));
    let c = r.fallible("c", vec![], t("A"), t("E"));
    r.error_handler(plain("h", vec![t("E"), t("Logger")], t("Response")), c);
    r.constructor(plain("logger", vec![], t("Logger")), Lifecycle::RequestScoped);
    assert_eq!(
        r.source(f, vec![]),
        "async fn handler() -> app::Response { let v0 = app::c(); \
         match v0 { Ok(v1) => { let v3 = app::logger(); app::f(v1, v3) } \
         Err(v2) => { let v3 = app::logger(); app::h(v2, v3) } } }"
    );
}

#[test]
fn error_handler_that_takes_another_fallible_value_meets_an_unbound_branch() {
    let mut r = Registry::new();
    let c = r.fallible("c", vec![], t("A"), t("E"));
    r.fallible("d", vec![], t("B"), t("G"));
    r.error_handler(plain("h_c", vec![t("E"), t("B")], t("Response")), c);
    let d = ComponentId(3);
    r.error_handler(plain("h_d", vec![t("G")], t("Response")), d);
    let f = r.handler(plain("f", vec![t("A"), t("B")], t("Response")));
    let graph = build_call_graph(f, &r.components, &r.computations, &vec![]).unwrap();
    assert_eq!(
        codegen_handler(&graph, &package_names(), &r.components, &r.computations).map(|h| h.source()),
        Err(CodegenError::UnboundMatchResult)
    );
}

#[test]
fn fallible_constructor_that_takes_what_another_returns_gets_a_match_within_the_ok_arm() {
    let mut r = Registry::new();
    let c = r.fallible("c", vec![], t("A"), t("E"));
    let d = r.fallible("d", vec![t("A")], t("B"), t("G"));
    r.error_handler(plain("h_c", vec![t("E")], t("Response")), c);
    r.error_handler(plain("h_d", vec![t("G")], t("Response")), d);
    let f = r.handler(plain("f", vec![t("B")], t("Response")));
    let source = r.source(f, vec![]);
    assert_eq!(
        source,
        "async fn handler() -> app::Response { let v0 = app::c(); match v0 { Ok(v1) => { \
         let v3 = app::d(v1); match v3 { Ok(v4) => { app::f(v4) } Err(v5) => { app::h_d(v5) } } } \
         Err(v2) => { app::h_c(v2) } } }"
    );
    assert_eq!(source.matches("app::c()").count(), 1);
    assert_eq!(source.matches("app::d(").count(), 1);
    assert!(source.find("let v0 = app::c();").unwrap() < source.find("match v0").unwrap());
    assert!(source.find("let v3 = app::d(v1);").unwrap() < source.find("match v3").unwrap());
    assert!(source.find("match v0").unwrap() < source.find("let v3").unwrap());
}

#[test]
fn error_handler_that_alone_takes_a_fallible_value_gets_a_match_within_the_err_arm() {
    let mut r = Registry::new();
    let c = r.fallible("c", vec![], t("A"), t("E"));
    r.fallible("d", vec![], t("B"), t("G"));
    r.error_handler(plain("h_c", vec![t("E"), t("B")], t("Response")), c);
    let d = ComponentId(3);
    r.error_handler(plain("h_d", vec![t("G")], t("Response")), d);
    let f = r.handler(plain("f", vec![t("A")], t("Response")));
    assert_eq!(
        r.source(f, vec![]),
        "async fn handler() -> app::Response { let v0 = app::c(); match v0 { \
         Ok(v1) => { app::f(v1) } Err(v2) => { let v3 = app::d(); match v3 { \
         Ok(v4) => { app::h_c(v2, v4) } Err(v5) => { app::h_d(v5) } } } } }"
    );
}

use bimap::BiHashMap;
use pavex::builder::build_call_graph;
use pavex::call_graph::CallGraph;
use pavex::call_graph::CallGraphNode;
use pavex::call_graph::NumberOfAllowedInvocations;
use pavex::codegen::codegen_handler;
use pavex::component::ComponentDb;
use pavex::component::ComponentId;
use pavex::component::Lifecycle;
use pavex::computation::Computation;
use pavex::computation::ComputationDb;
use pavex::computation::MatchResult;
use pavex::computation::MatchResultVariant;
use pavex::language::Callable;
use pavex::language::Fallibility;
use pavex::language::PackageNames;
use pavex::language::ResolvedType;

fn ty(name: &str) -> ResolvedType {
    ResolvedType::new("app 0.1.0".to_string(), vec![name.to_string()])
}

fn package_names() -> PackageNames {
    let mut names = BiHashMap::new();
    names.insert("app 0.1.0".to_string(), "app".to_string());
    names.insert("core 1.0.0".to_string(), "core".to_string());
    names
}

struct Registry {
    computations: ComputationDb,
    components: ComponentDb,
}

impl Registry {
    fn callable(
        &mut self,
        name: &str,
        inputs: Vec<ResolvedType>,
        output: ResolvedType,
        fallibility: Fallibility,
    ) -> pavex::computation::ComputationId {
        self.computations.register(Computation::Callable(Callable {
            package_id: "app 0.1.0".to_string(),
            path: vec![name.to_string()],
            inputs,
            output,
            fallibility,
            is_async: false,
        }))
    }

    fn constructor(
        &mut self,
        name: &str,
        inputs: Vec<ResolvedType>,
        output: ResolvedType,
        lifecycle: Lifecycle,
    ) -> ComponentId {
        let id = self.callable(name, inputs, output, Fallibility::Infallible);
        self.components.constructor(id, lifecycle)
    }

    fn fallible(
        &mut self,
        name: &str,
        inputs: Vec<ResolvedType>,
        ok: ResolvedType,
        err: ResolvedType,
        handler: &str,
        handler_inputs: Vec<ResolvedType>,
    ) -> ComponentId {
        let result =
            ResolvedType::new("core 1.0.0".to_string(), vec!["Result".to_string()]);
        let id = self.callable(
            name,
            inputs,
            result,
            Fallibility::Fallible { ok: ok.clone(), err: err.clone() },
        );
        let id = self.components.constructor(id, Lifecycle::RequestScoped);
        let projection = self.computations.register(Computation::MatchResult(MatchResult {
            variant: MatchResultVariant::OkVariant,
            output: ok,
        }));
        self.components.transformer(projection, id);
        let projection = self.computations.register(Computation::MatchResult(MatchResult {
            variant: MatchResultVariant::ErrVariant,
            output: err,
        }));
        self.components.transformer(projection, id);
        let handler = self.callable(handler, handler_inputs, ty("Response"), Fallibility::Infallible);
        self.components.error_handler(handler, id).unwrap();
        id
    }

    fn variant_of(&self, node: &CallGraphNode) -> Option<MatchResultVariant> {
        match node {
            CallGraphNode::Compute { component_id, .. } => {
                match self.computations.get(self.components.get(*component_id).computation_id()) {
                    Computation::MatchResult(m) => Some(m.variant),
                    _ => None,
                }
            }
            _ => None,
        }
    }
}

/// Two fallible constructors, one after the other, that share the
/// request-scoped `x`, a transient `t`, and two values from outside.
fn application() -> (Registry, ComponentId, Vec<ResolvedType>) {
    let mut r = Registry { computations: ComputationDb::new(), components: ComponentDb::new() };
    let handler = r.callable(
        "handler",
        vec![ty("B"), ty("T"), ty("Request")],
        ty("Response"),
        Fallibility::Infallible,
    );
    let handler = r.components.request_handler(handler);
    r.constructor("x", vec![ty("Pool"), ty("T")], ty("X"), Lifecycle::RequestScoped);
    r.constructor("t", vec![ty("Request")], ty("T"), Lifecycle::Transient);
    r.fallible("c1", vec![ty("X")], ty("A"), ty("E1"), "h1", vec![ty("E1"), ty("X")]);
    r.fallible("c2", vec![ty("A"), ty("X")], ty("B"), ty("E2"), "h2", vec![ty("E2")]);
    (r, handler, vec![ty("Request"), ty("Pool")])
}

fn built() -> (Registry, CallGraph) {
    let (r, handler, externals) = application();
    let graph = build_call_graph(handler, &r.components, &r.computations, &externals).unwrap();
    (r, graph)
}

#[test]
fn every_edge_of_a_built_graph_leads_to_a_later_node() {
    let (_, graph) = built();
    let graph = &graph.call_graph;
    let mut edges = 0;
    for node in 0..graph.node_count() {
        for successor in graph.successors(node) {
            assert!(node < successor);
            edges += 1;
        }
        for edge in graph.incoming(node) {
            assert!(edge.source < node);
        }
    }
    assert_eq!(edges, graph.edge_count());
}

#[test]
fn every_fork_of_a_built_graph_has_one_edge_in_and_an_ok_and_an_err_branch_out() {
    let (r, graph) = built();
    let graph = &graph.call_graph;
    let mut forks = 0;
    for node in 0..graph.node_count() {
        if let CallGraphNode::MatchBranching = graph.node(node) {
            forks += 1;
            assert_eq!(graph.incoming(node).len(), 1);
            let out = graph.successors(node);
            assert_eq!(out.len(), 2);
            assert_eq!(r.variant_of(graph.node(out[1])), Some(MatchResultVariant::OkVariant));
            assert_eq!(r.variant_of(graph.node(out[0])), Some(MatchResultVariant::ErrVariant));
        }
        if r.variant_of(graph.node(node)).is_some() {
            let edges = graph.incoming(node);
            assert_eq!(edges.len(), 1);
            assert_eq!(graph.node(edges[0].source), &CallGraphNode::MatchBranching);
        }
    }
    assert_eq!(forks, 2);
}

#[test]
fn input_parameters_of_a_built_graph_are_sources_with_distinct_types() {
    let (_, graph) = built();
    let mut types = Vec::new();
    for node in 0..graph.call_graph.node_count() {
        if let CallGraphNode::InputParameter(type_) = graph.call_graph.node(node) {
            assert!(graph.call_graph.incoming(node).is_empty());
            assert!(!types.contains(type_));
            types.push(type_.clone());
        }
    }
    let required: Vec<ResolvedType> =
        graph.required_input_types().into_iter().cloned().collect();
    assert_eq!(types, required);
    assert_eq!(types, vec![ty("Pool"), ty("Request")]);
}

#[test]
fn only_transient_constructors_may_be_invoked_more_than_once() {
    let (r, graph) = built();
    let mut multiple = 0;
    for node in 0..graph.call_graph.node_count() {
        if let CallGraphNode::Compute { component_id, n_allowed_invocations } =
            graph.call_graph.node(node)
        {
            let transient = r.components.lifecycle(*component_id) == Some(Lifecycle::Transient);
            assert_eq!(*n_allowed_invocations == NumberOfAllowedInvocations::Multiple, transient);
            if transient {
                multiple += 1;
            }
        }
    }
    assert_eq!(multiple, 1);
    assert_eq!(graph.call_graph.node(graph.root_node_index), &CallGraphNode::Compute {
        component_id: ComponentId(0),
        n_allowed_invocations: NumberOfAllowedInvocations::Single,
    });
}

#[test]
fn handler_parameters_are_the_input_parameters_in_their_order() {
    let (r, graph) = built();
    let names = package_names();
    let handler = codegen_handler(&graph, &names, &r.components, &r.computations).unwrap();
    let parameters: Vec<(&str, &str)> =
        handler.parameters.iter().map(|p| (p.name.as_str(), p.type_.as_str())).collect();
    assert_eq!(parameters, vec![("v0", "app::Pool"), ("v1", "app::Request")]);
    assert_eq!(handler.output_type, "app::Response");
}

#[test]
fn shared_values_are_bound_once_and_transient_values_inlined() {
    let (r, graph) = built();
    let names = package_names();
    let handler = codegen_handler(&graph, &names, &r.components, &r.computations).unwrap();
    assert_eq!(
        handler.body,
        "let v2 = app::x(v0, app::t(v1)); let v3 = app::c1(v2); \
         match v3 { Ok(v4) => { let v6 = app::c2(v4, v2); \
         match v6 { Ok(v7) => { app::handler(v7, app::t(v1), v1) } \
         Err(v8) => { app::h2(v8) } } } \
         Err(v5) => { app::h1(v5, v2) } }"
    );
    assert_eq!(handler.body.matches("app::x(").count(), 1);
    assert_eq!(handler.body.matches("app::c1(").count(), 1);
    assert_eq!(handler.body.matches("app::c2(").count(), 1);
    assert_eq!(handler.body.matches("app::t(v1)").count(), 2);
    assert!(!handler.body.contains("= app::t("));
    assert_eq!(
        handler.source(),
        format!(
            "async fn handler(v0: app::Pool, v1: app::Request) -> app::Response {{ {} }}",
            handler.body
        )
    );
}

#[test]
fn generating_again_gives_the_same_handler() {
    let (r, graph) = built();
    let (again, graph_again) = built();
    let names = package_names();
    let first = codegen_handler(&graph, &names, &r.components, &r.computations);
    assert_eq!(first, codegen_handler(&graph, &names, &r.components, &r.computations));
    assert_eq!(
        first,
        codegen_handler(&graph_again, &names, &again.components, &again.computations)
    );
}

#[test]
fn every_input_of_a_callable_has_an_edge_from_a_node_of_its_type() {
    let (r, graph) = built();
    let graph = &graph.call_graph;
    let type_of = |node: usize| -> Option<ResolvedType> {
        match graph.node(node) {
            CallGraphNode::Compute { component_id, .. } => Some(
                r.components.output_type(*component_id, &r.computations).clone(),
            ),
            CallGraphNode::InputParameter(type_) => Some(type_.clone()),
            CallGraphNode::MatchBranching => None,
        }
    };
    let mut calls = 0;
    for node in 0..graph.node_count() {
        if let CallGraphNode::Compute { component_id, .. } = graph.node(node) {
            let computation =
                r.computations.get(r.components.get(*component_id).computation_id());
            if let Computation::Callable(callable) = computation {
                calls += 1;
                let carried: Vec<ResolvedType> = graph
                    .incoming(node)
                    .iter()
                    .map(|edge| type_of(edge.source).unwrap())
                    .collect();
                assert_eq!(carried.len(), callable.inputs.len());
                for input in &callable.inputs {
                    assert!(carried.contains(input));
                }
            }
        }
    }
    assert_eq!(calls, 7);
}

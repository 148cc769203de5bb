//! From the components that are registered to the call graph of a handler:
//! who builds what the handler takes, what that builder takes in turn, and
//! where building can fail.

use crate::call_graph::CallGraph;
use crate::call_graph::CallGraphEdgeMetadata;
use crate::call_graph::CallGraphNode;
use crate::call_graph::GraphView;
use crate::call_graph::NodeView;
use crate::call_graph::NumberOfAllowedInvocations;
use crate::call_graph::RawCallGraph;
use crate::codegen_utils::type_views;
use crate::component::error_handler_of;
use crate::component::Component;
use crate::component::ComponentDb;
use crate::component::ComponentId;
use crate::component::Lifecycle;
use crate::computation::Computation;
use crate::computation::ComputationDb;
use crate::computation::MatchResultVariant;
use crate::language::Callable;
use crate::language::Fallibility;
use crate::language::ResolvedType;
use crate::language::TypeView;
use vstd::prelude::*;

verus! {

/// Why no call graph could be built.
#[derive(Clone, Copy, Debug, PartialEq, Eq, Hash, Structural)]
pub enum BuildError {
    /// The component `consumer` takes, as its input number `input`, a value of
    /// a type that no constructor builds and that does not come from outside.
    UnresolvableInput { consumer: ComponentId, input: usize },
    /// The constructors `first` and `second` build values of the same type.
    AmbiguousConstructor { first: ComponentId, second: ComponentId },
    /// Building the value of the constructor `component` takes that value.
    CycleDetected { component: ComponentId },
    /// The constructor `component` can fail and has no error handler.
    MissingErrorHandler { component: ComponentId },
    /// The registries do not fit together, or the graph has outgrown its
    /// indices.
    InvariantViolation,
}

/// What a call graph is built from, as the verifier sees it: the components
/// and the computations, each at its id, and the types whose values come from
/// outside.
pub struct Registered {
    pub components: Seq<Component>,
    pub computations: Seq<Computation>,
    pub externals: Seq<TypeView>,
}

/// How far building has come, as the verifier sees it.
pub struct BuildState {
    /// The graph so far.
    pub graph: GraphView,
    /// For each constructor that has its nodes, the node that stands for its
    /// value.
    pub memo: Seq<Option<usize>>,
    /// The constructors whose inputs are being resolved.
    pub in_progress: Seq<bool>,
}

/// A value that is at hand while the inputs of a component are resolved: its
/// type and the node that stands for it.
pub struct Provided {
    pub type_: TypeView,
    pub node: usize,
}

/// The outcome of a step of building: the state after it and the node that it
/// found, or the error.
pub type Resolved = Result<(BuildState, usize), BuildError>;

impl GraphView {
    /// The graph with one more node, and the index of that node; `None` where
    /// the indices have run out.
    pub open spec fn with_node(self, node: NodeView) -> Option<(GraphView, usize)> {
        if self.nodes.len() < u32::MAX {
            Some((GraphView { nodes: self.nodes.push(node), ..self }, self.nodes.len() as usize))
        } else {
            None
        }
    }

    /// The graph with one more edge, which hands its value over by moving it;
    /// `None` where one of the two is no node of the graph or the indices have
    /// run out.
    pub open spec fn with_edge(self, source: usize, target: usize) -> Option<GraphView> {
        if source < self.nodes.len() && target < self.nodes.len() && self.edges.len() < u32::MAX {
            Some(
                GraphView {
                    edges: self.edges.push((source as int, target as int)),
                    edge_metadata: self.edge_metadata.push(CallGraphEdgeMetadata::Move),
                    ..self
                },
            )
        } else {
            None
        }
    }

    /// The graph with an edge from each of `sources`, in their order, to
    /// `target`.
    pub open spec fn with_edges(self, sources: Seq<usize>, target: usize) -> Option<GraphView>
        decreases sources.len(),
    {
        if sources.len() == 0 {
            Some(self)
        } else {
            match self.with_edges(sources.drop_last(), target) {
                None => None,
                Some(graph) => graph.with_edge(sources.last(), target),
            }
        }
    }

    /// The graph with a node that invokes `component`, into which an edge
    /// leads from each of `producers`, and the index of that node.
    pub open spec fn with_invocation(
        self,
        component: ComponentId,
        n_allowed_invocations: NumberOfAllowedInvocations,
        producers: Seq<usize>,
    ) -> Option<(GraphView, usize)> {
        match self.with_node(
            NodeView::Compute { component_id: component, n_allowed_invocations },
        ) {
            None => None,
            Some((graph, node)) => match graph.with_edges(producers, node) {
                None => None,
                Some(graph) => Some((graph, node)),
            },
        }
    }

    /// The graph with the fork on the result of `node`: the fork itself, to
    /// which an edge leads from `node`, and the two branches `ok` and `err`, to
    /// each of which an edge leads from the fork. With it come the indices of
    /// the two branches.
    pub open spec fn with_fork(self, node: usize, ok: ComponentId, err: ComponentId) -> Option<
        (GraphView, usize, usize),
    > {
        match self.with_node(NodeView::MatchBranching) {
            None => None,
            Some((graph, fork)) => match graph.with_edge(node, fork) {
                None => None,
                Some(graph) => match graph.with_invocation(
                    ok,
                    NumberOfAllowedInvocations::Single,
                    seq![fork],
                ) {
                    None => None,
                    Some((graph, ok_node)) => match graph.with_invocation(
                        err,
                        NumberOfAllowedInvocations::Single,
                        seq![fork],
                    ) {
                        None => None,
                        Some((graph, err_node)) => Some((graph, ok_node, err_node)),
                    },
                },
            },
        }
    }

    /// The first node from `from` on that is the input parameter of the type
    /// `type_`.
    pub open spec fn input_parameter(self, type_: TypeView, from: int) -> Option<usize>
        decreases self.nodes.len() - from,
    {
        if from < 0 || from >= self.nodes.len() {
            None
        } else if self.nodes[from] == NodeView::InputParameter(type_) {
            Some(from as usize)
        } else {
            self.input_parameter(type_, from + 1)
        }
    }
}

impl Registered {
    /// The component `id` is registered, and so is its computation.
    pub open spec fn knows(self, id: ComponentId) -> bool {
        &&& id.0 < self.components.len()
        &&& self.components[id.0 as int].computation().0 < self.computations.len()
    }

    /// The computation of the component `id`.
    pub open spec fn computation(self, id: ComponentId) -> Computation {
        self.computations[self.components[id.0 as int].computation().0 as int]
    }

    /// The type of the value that users of the component `id` get: of a
    /// callable that can fail, the type inside `Ok`.
    pub open spec fn produced_type(self, id: ComponentId) -> TypeView {
        match self.computation(id) {
            Computation::Callable(callable) => match callable.fallibility {
                Fallibility::Infallible => callable.output@,
                Fallibility::Fallible { ok, .. } => ok@,
            },
            Computation::MatchResult(projection) => projection.output@,
        }
    }

    /// The component `id` is a constructor of values of the type `type_`.
    pub open spec fn constructs(self, id: ComponentId, type_: TypeView) -> bool {
        &&& self.knows(id)
        &&& self.components[id.0 as int] is Constructor
        &&& self.produced_type(id) == type_
    }

    /// The constructors of values of the type `type_` among the first `n`
    /// components, in the order of their registration.
    pub open spec fn constructors_of(self, type_: TypeView, n: nat) -> Seq<usize>
        decreases n,
    {
        if n == 0 {
            Seq::empty()
        } else {
            let earlier = self.constructors_of(type_, (n - 1) as nat);
            if self.constructs(ComponentId((n - 1) as usize), type_) {
                earlier.push((n - 1) as usize)
            } else {
                earlier
            }
        }
    }

    /// How often the value of the component `id` may be computed: as often as
    /// it is used where the component is a transient constructor, else once.
    pub open spec fn n_allowed_invocations(self, id: ComponentId) -> NumberOfAllowedInvocations {
        match self.components[id.0 as int] {
            Component::Constructor {
                lifecycle: Lifecycle::Transient,
                ..
            } => NumberOfAllowedInvocations::Multiple,
            _ => NumberOfAllowedInvocations::Single,
        }
    }

    /// The type of the branch `variant` of the result of the component
    /// `source`; `None` where the component is no callable that can fail.
    pub open spec fn branch_type(self, source: ComponentId, variant: MatchResultVariant) -> Option<
        TypeView,
    > {
        if !self.knows(source) {
            None
        } else {
            match self.computation(source) {
                Computation::Callable(
                    Callable { fallibility: Fallibility::Fallible { ok, err }, .. },
                ) => match variant {
                    MatchResultVariant::OkVariant => Some(ok@),
                    MatchResultVariant::ErrVariant => Some(err@),
                },
                _ => None,
            }
        }
    }

    /// The component `id` names the branch `variant` of the result of the
    /// component `source`, with the type that the branch has.
    pub open spec fn projects(
        self,
        id: ComponentId,
        source: ComponentId,
        variant: MatchResultVariant,
    ) -> bool {
        &&& self.knows(id)
        &&& self.components[id.0 as int] matches Component::Transformer { source: s, .. }
        &&& s == source
        &&& self.computation(id) matches Computation::MatchResult(projection)
        &&& projection.variant == variant
        &&& self.branch_type(source, variant) == Some(projection.output@)
    }

    /// The first component from `from` on that names the branch `variant` of
    /// the result of the component `source`.
    pub open spec fn projection_of(
        self,
        source: ComponentId,
        variant: MatchResultVariant,
        from: int,
    ) -> Option<ComponentId>
        decreases self.components.len() - from,
    {
        if from < 0 || from >= self.components.len() {
            None
        } else if self.projects(ComponentId(from as usize), source, variant) {
            Some(ComponentId(from as usize))
        } else {
            self.projection_of(source, variant, from + 1)
        }
    }

    /// The node that stands for the value of the constructor `id`, which is
    /// built where it has no node yet.
    ///
    /// A constructor whose inputs are being resolved is met again only where
    /// building its value takes that value: a cycle. Else its inputs are
    /// resolved and it is invoked; where it can fail, the fork on its result
    /// follows, and the `Ok` branch stands for its value.
    pub open spec fn resolve(self, fuel: nat, id: ComponentId, state: BuildState) -> Resolved
        decreases fuel, 0nat, 0nat,
    {
        if id.0 >= state.memo.len() || id.0 >= state.in_progress.len() || !self.knows(id) {
            Err(BuildError::InvariantViolation)
        } else if state.memo[id.0 as int] is Some {
            Ok((state, state.memo[id.0 as int]->0))
        } else if state.in_progress[id.0 as int] {
            Err(BuildError::CycleDetected { component: id })
        } else if fuel == 0 {
            Err(BuildError::InvariantViolation)
        } else {
            let started = BuildState {
                in_progress: state.in_progress.update(id.0 as int, true),
                ..state
            };
            match self.invoke((fuel - 1) as nat, id, None, started) {
                Err(e) => Err(e),
                Ok((invoked, node)) => {
                    let forked = match self.computation(id) {
                        Computation::Callable(
                            Callable { fallibility: Fallibility::Fallible { .. }, .. },
                        ) => self.fork((fuel - 1) as nat, id, node, invoked),
                        _ => Ok((invoked, node)),
                    };
                    match forked {
                        Err(e) => Err(e),
                        Ok((done, value)) => if id.0 < done.memo.len() && id.0
                            < done.in_progress.len() {
                            Ok(
                                (
                                    BuildState {
                                        memo: done.memo.update(id.0 as int, Some(value)),
                                        in_progress: done.in_progress.update(id.0 as int, false),
                                        ..done
                                    },
                                    value,
                                ),
                            )
                        } else {
                            Err(BuildError::InvariantViolation)
                        },
                    }
                },
            }
        }
    }

    /// The fork on the result of the constructor `id`, whose invocation is
    /// `node`: the fork, the two branches, and the invocation of the error
    /// handler of `id`, which takes the error from the `Err` branch. What is
    /// found is the `Ok` branch.
    pub open spec fn fork(self, fuel: nat, id: ComponentId, node: usize, state: BuildState) -> Resolved
        decreases fuel, 4nat, 0nat,
    {
        match error_handler_of(self.components, id) {
            None => Err(BuildError::MissingErrorHandler { component: id }),
            Some(handler) => match (
                self.projection_of(id, MatchResultVariant::OkVariant, 0),
                self.projection_of(id, MatchResultVariant::ErrVariant, 0),
            ) {
                (Some(ok), Some(err)) => match state.graph.with_fork(node, ok, err) {
                    None => Err(BuildError::InvariantViolation),
                    Some((graph, ok_node, err_node)) => match self.invoke(
                        fuel,
                        handler,
                        Some(Provided { type_: self.produced_type(err), node: err_node }),
                        BuildState { graph, ..state },
                    ) {
                        Err(e) => Err(e),
                        Ok((handled, _)) => Ok((handled, ok_node)),
                    },
                },
                _ => Err(BuildError::InvariantViolation),
            },
        }
    }

    /// The invocation of the callable component `id`: its inputs are resolved
    /// in the order of its signature, then its node is added, and an edge from
    /// the node of each input. An input of the type of `provided` is the node
    /// of `provided`.
    pub open spec fn invoke(
        self,
        fuel: nat,
        id: ComponentId,
        provided: Option<Provided>,
        state: BuildState,
    ) -> Resolved
        decreases fuel, 3nat, 0nat,
    {
        if !self.knows(id) {
            Err(BuildError::InvariantViolation)
        } else {
            match self.computation(id) {
                Computation::MatchResult(_) => Err(BuildError::InvariantViolation),
                Computation::Callable(callable) => match self.resolve_inputs(
                    fuel,
                    id,
                    type_views(callable.inputs@),
                    provided,
                    state,
                    Seq::empty(),
                ) {
                    Err(e) => Err(e),
                    Ok((resolved, producers)) => match resolved.graph.with_invocation(
                        id,
                        self.n_allowed_invocations(id),
                        producers,
                    ) {
                        None => Err(BuildError::InvariantViolation),
                        Some((graph, node)) => Ok((BuildState { graph, ..resolved }, node)),
                    },
                },
            }
        }
    }

    /// The nodes of the inputs `types` of the component `consumer`, first to
    /// last, after those of its earlier inputs, which are `producers`.
    pub open spec fn resolve_inputs(
        self,
        fuel: nat,
        consumer: ComponentId,
        types: Seq<TypeView>,
        provided: Option<Provided>,
        state: BuildState,
        producers: Seq<usize>,
    ) -> Result<(BuildState, Seq<usize>), BuildError>
        decreases fuel, 2nat, types.len(),
    {
        if types.len() == 0 {
            Ok((state, producers))
        } else {
            match self.resolve_type(fuel, consumer, producers.len() as usize, types[0], provided, state) {
                Err(e) => Err(e),
                Ok((next, producer)) => self.resolve_inputs(
                    fuel,
                    consumer,
                    types.drop_first(),
                    provided,
                    next,
                    producers.push(producer),
                ),
            }
        }
    }

    /// The node that stands for the value of the type `type_` that the
    /// component `consumer` takes as its input number `input`.
    ///
    /// It is the node of `provided` where that has the type. Else it is the
    /// node of the one constructor of the type; two constructors are one too
    /// many. Where there is none, it is the input parameter of the type, which
    /// is added where the graph has none yet, if the type is among those that
    /// come from outside.
    pub open spec fn resolve_type(
        self,
        fuel: nat,
        consumer: ComponentId,
        input: usize,
        type_: TypeView,
        provided: Option<Provided>,
        state: BuildState,
    ) -> Resolved
        decreases fuel, 1nat, 0nat,
    {
        if provided is Some && provided->0.type_ == type_ {
            Ok((state, provided->0.node))
        } else {
            let constructors = self.constructors_of(type_, self.components.len());
            if constructors.len() == 0 {
                if self.externals.contains(type_) {
                    match state.graph.input_parameter(type_, 0) {
                        Some(node) => Ok((state, node)),
                        None => match state.graph.with_node(NodeView::InputParameter(type_)) {
                            None => Err(BuildError::InvariantViolation),
                            Some((graph, node)) => Ok((BuildState { graph, ..state }, node)),
                        },
                    }
                } else {
                    Err(BuildError::UnresolvableInput { consumer, input })
                }
            } else if constructors.len() >= 2 {
                Err(
                    BuildError::AmbiguousConstructor {
                        first: ComponentId(constructors[0]),
                        second: ComponentId(constructors[1]),
                    },
                )
            } else {
                self.resolve(fuel, ComponentId(constructors[0]), state)
            }
        }
    }

    /// The state in which building starts: no node, and no constructor with a
    /// node or in progress.
    pub open spec fn start(self) -> BuildState {
        BuildState {
            graph: GraphView {
                nodes: Seq::empty(),
                edges: Seq::empty(),
                edge_metadata: Seq::empty(),
            },
            memo: Seq::new(self.components.len(), |i: int| None),
            in_progress: Seq::new(self.components.len(), |i: int| false),
        }
    }

    /// The call graph of the handler `handler` and its root: the invocation of
    /// the handler, after whatever it takes.
    pub open spec fn call_graph(self, handler: ComponentId) -> Result<(GraphView, usize), BuildError> {
        match self.invoke(self.components.len(), handler, None, self.start()) {
            Err(e) => Err(e),
            Ok((state, root)) => Ok((state.graph, root)),
        }
    }
}

/// What a call graph is built from: the two registries, and the types whose
/// values come from outside.
pub struct Sources<'a> {
    pub component_db: &'a ComponentDb,
    pub computation_db: &'a ComputationDb,
    pub externals: &'a Vec<ResolvedType>,
}

impl<'a> View for Sources<'a> {
    type V = Registered;

    open spec fn view(&self) -> Registered {
        Registered {
            components: self.component_db@,
            computations: self.computation_db@,
            externals: type_views(self.externals@),
        }
    }
}

/// How far building has come.
pub struct Construction {
    pub graph: RawCallGraph,
    pub memo: Vec<Option<usize>>,
    pub in_progress: Vec<bool>,
}

impl View for Construction {
    type V = BuildState;

    open spec fn view(&self) -> BuildState {
        BuildState { graph: self.graph@, memo: self.memo@, in_progress: self.in_progress@ }
    }
}

/// A value at hand as the verifier sees it.
pub open spec fn as_provided(provided: Option<(&ResolvedType, usize)>) -> Option<Provided> {
    match provided {
        Some((type_, node)) => Some(Provided { type_: type_@, node }),
        None => None,
    }
}

/// Whether the outcome `got` of a step is the outcome `expected` that its
/// contract names, `after` being the state after the step.
pub open spec fn is_resolved(got: Result<usize, BuildError>, after: BuildState, expected: Resolved) -> bool {
    match got {
        Ok(node) => expected == Ok::<(BuildState, usize), BuildError>((after, node)),
        Err(e) => expected == Err::<(BuildState, usize), BuildError>(e),
    }
}

/// Where an edge from one of the first sources cannot be added, the edges
/// from all cannot.
pub proof fn lemma_with_edges_prefix(graph: GraphView, sources: Seq<usize>, target: usize, n: int)
    requires
        0 <= n <= sources.len(),
    ensures
        graph.with_edges(sources.take(n), target) is None ==> graph.with_edges(sources, target)
            is None,
    decreases sources.len() - n,
{
    if n < sources.len() {
        assert(sources.take(n + 1).drop_last() =~= sources.take(n));
        lemma_with_edges_prefix(graph, sources, target, n + 1);
    } else {
        assert(sources.take(n) =~= sources);
    }
}

/// Adds an edge from each of `sources`, in their order, to `target`, and says
/// whether all could be added.
pub fn add_edges(graph: &mut RawCallGraph, sources: &Vec<usize>, target: usize) -> (added: bool)
    requires
        old(graph).wf(),
    ensures
        final(graph).wf(),
        final(graph)@.nodes == old(graph)@.nodes,
        match old(graph)@.with_edges(sources@, target) {
            Some(with) => added && final(graph)@ == with,
            None => !added,
        },
{
    let ghost initial = graph@;
    let mut i: usize = 0;
    proof {
        assert(sources@.take(0) =~= Seq::<usize>::empty());
    }
    while i < sources.len()
        invariant
            graph.wf(),
            i <= sources.len(),
            initial == old(graph)@,
            graph@.nodes == initial.nodes,
            initial.with_edges(sources@.take(i as int), target) == Some(graph@),
        decreases sources.len() - i,
    {
        proof {
            assert(sources@.take(i + 1).drop_last() =~= sources@.take(i as int));
            assert(sources@.take(i + 1).last() == sources@[i as int]);
            lemma_with_edges_prefix(initial, sources@, target, i + 1);
        }
        if graph.add_edge(sources[i], target, CallGraphEdgeMetadata::Move).is_none() {
            return false;
        }
        i = i + 1;
    }
    proof {
        assert(sources@.take(sources@.len() as int) =~= sources@);
    }
    true
}

/// Adds a node that invokes `component`, and an edge into it from each of
/// `producers`; returns the index of the node.
pub fn add_invocation(
    graph: &mut RawCallGraph,
    component: ComponentId,
    n_allowed_invocations: NumberOfAllowedInvocations,
    producers: &Vec<usize>,
) -> (node: Option<usize>)
    requires
        old(graph).wf(),
    ensures
        final(graph).wf(),
        match old(graph)@.with_invocation(component, n_allowed_invocations, producers@) {
            Some((with, index)) => node == Some(index) && final(graph)@ == with && index
                < final(graph)@.nodes.len(),
            None => node is None,
        },
{
    let node = match graph.add_node(
        CallGraphNode::Compute { component_id: component, n_allowed_invocations },
    ) {
        Some(node) => node,
        None => {
            return None;
        },
    };
    if add_edges(graph, producers, node) {
        Some(node)
    } else {
        None
    }
}

/// Adds the fork on the result of `node` and its two branches; returns the
/// indices of the `Ok` and of the `Err` branch.
pub fn add_fork(graph: &mut RawCallGraph, node: usize, ok: ComponentId, err: ComponentId) -> (branches:
    Option<(usize, usize)>)
    requires
        old(graph).wf(),
    ensures
        final(graph).wf(),
        match old(graph)@.with_fork(node, ok, err) {
            Some((with, ok_node, err_node)) => branches == Some((ok_node, err_node))
                && final(graph)@ == with,
            None => branches is None,
        },
{
    let fork = match graph.add_node(CallGraphNode::MatchBranching) {
        Some(fork) => fork,
        None => {
            return None;
        },
    };
    if graph.add_edge(node, fork, CallGraphEdgeMetadata::Move).is_none() {
        return None;
    }
    let mut from_fork: Vec<usize> = Vec::new();
    from_fork.push(fork);
    proof {
        assert(from_fork@ =~= seq![fork]);
    }
    let ok_node = match add_invocation(
        graph,
        ok,
        NumberOfAllowedInvocations::Single,
        &from_fork,
    ) {
        Some(ok_node) => ok_node,
        None => {
            return None;
        },
    };
    let err_node = match add_invocation(
        graph,
        err,
        NumberOfAllowedInvocations::Single,
        &from_fork,
    ) {
        Some(err_node) => err_node,
        None => {
            return None;
        },
    };
    Some((ok_node, err_node))
}

/// The first node that is the input parameter of the type `type_`.
pub fn find_input_parameter(graph: &RawCallGraph, type_: &ResolvedType) -> (node: Option<usize>)
    ensures
        node == graph@.input_parameter(type_@, 0),
{
    let mut i: usize = 0;
    while i < graph.node_count()
        invariant
            i <= graph@.nodes.len(),
            graph@.input_parameter(type_@, 0) == graph@.input_parameter(type_@, i as int),
        decreases graph@.nodes.len() - i,
    {
        match graph.node(i) {
            CallGraphNode::InputParameter(found) => {
                if found.is_same_as(type_) {
                    return Some(i);
                }
            },
            _ => {},
        }
        i = i + 1;
    }
    None
}

/// Whether `type_` is among `types`.
pub fn contains_type(types: &Vec<ResolvedType>, type_: &ResolvedType) -> (found: bool)
    ensures
        found == type_views(types@).contains(type_@),
{
    let mut i: usize = 0;
    while i < types.len()
        invariant
            i <= types.len(),
            forall|k: int| 0 <= k < i ==> #[trigger] type_views(types@)[k] != type_@,
        decreases types.len() - i,
    {
        if types[i].is_same_as(type_) {
            proof {
                assert(type_views(types@)[i as int] == type_@);
            }
            return true;
        }
        i = i + 1;
    }
    false
}

impl<'a> Sources<'a> {
    /// Whether the component `id` is registered, and its computation too.
    pub fn knows(&self, id: ComponentId) -> (known: bool)
        ensures
            known == self@.knows(id),
    {
        id.0 < self.component_db.len() && self.component_db.get(id).computation_id().0
            < self.computation_db.len()
    }

    /// The computation of the component `id`.
    pub fn computation(&self, id: ComponentId) -> (computation: &'a Computation)
        requires
            self@.knows(id),
        ensures
            *computation == self@.computation(id),
    {
        self.computation_db.get(self.component_db.get(id).computation_id())
    }

    /// The type of the value that users of the component `id` get.
    pub fn produced_type(&self, id: ComponentId) -> (type_: &'a ResolvedType)
        requires
            self@.knows(id),
        ensures
            type_@ == self@.produced_type(id),
    {
        match self.computation(id) {
            Computation::Callable(callable) => match &callable.fallibility {
                Fallibility::Infallible => &callable.output,
                Fallibility::Fallible { ok, .. } => ok,
            },
            Computation::MatchResult(projection) => &projection.output,
        }
    }

    /// How often the value of the component `id` may be computed.
    pub fn n_allowed_invocations(&self, id: ComponentId) -> (n: NumberOfAllowedInvocations)
        requires
            self@.knows(id),
        ensures
            n == self@.n_allowed_invocations(id),
    {
        match self.component_db.get(id) {
            Component::Constructor {
                lifecycle: Lifecycle::Transient,
                ..
            } => NumberOfAllowedInvocations::Multiple,
            _ => NumberOfAllowedInvocations::Single,
        }
    }

    /// The constructors of values of the type `type_`, in the order of their
    /// registration.
    pub fn constructors_of(&self, type_: &ResolvedType) -> (constructors: Vec<usize>)
        ensures
            constructors@ == self@.constructors_of(type_@, self@.components.len()),
    {
        let mut constructors: Vec<usize> = Vec::new();
        let mut i: usize = 0;
        while i < self.component_db.len()
            invariant
                i <= self@.components.len(),
                constructors@ == self@.constructors_of(type_@, i as nat),
            decreases self@.components.len() - i,
        {
            let id = ComponentId(i);
            if self.knows(id) {
                match self.component_db.get(id) {
                    Component::Constructor { .. } => {
                        if self.produced_type(id).is_same_as(type_) {
                            constructors.push(i);
                        }
                    },
                    _ => {},
                }
            }
            i = i + 1;
        }
        constructors
    }

    /// The type of the branch `variant` of the result of the component
    /// `source`, where the component is a callable that can fail.
    pub fn branch_type(&self, source: ComponentId, variant: MatchResultVariant) -> (type_: Option<
        &'a ResolvedType,
    >)
        ensures
            match type_ {
                Some(t) => self@.branch_type(source, variant) == Some(t@),
                None => self@.branch_type(source, variant) is None,
            },
    {
        if !self.knows(source) {
            return None;
        }
        match self.computation(source) {
            Computation::Callable(callable) => match &callable.fallibility {
                Fallibility::Fallible { ok, err } => match variant {
                    MatchResultVariant::OkVariant => Some(ok),
                    MatchResultVariant::ErrVariant => Some(err),
                },
                Fallibility::Infallible => None,
            },
            Computation::MatchResult(_) => None,
        }
    }

    /// Whether the component `id` names the branch `variant`, of the type
    /// `type_`, of the result of the component `source`.
    fn is_projection(
        &self,
        id: ComponentId,
        source: ComponentId,
        variant: MatchResultVariant,
        type_: &ResolvedType,
    ) -> (projects: bool)
        requires
            self@.branch_type(source, variant) == Some(type_@),
        ensures
            projects == self@.projects(id, source, variant),
    {
        if !self.knows(id) {
            return false;
        }
        match self.component_db.get(id) {
            Component::Transformer { source: s, .. } => {
                if s.0 != source.0 {
                    return false;
                }
                match self.computation(id) {
                    Computation::MatchResult(projection) => {
                        let same = match (projection.variant, variant) {
                            (MatchResultVariant::OkVariant, MatchResultVariant::OkVariant) => true,
                            (MatchResultVariant::ErrVariant, MatchResultVariant::ErrVariant) => true,
                            _ => false,
                        };
                        same && projection.output.is_same_as(type_)
                    },
                    Computation::Callable(_) => false,
                }
            },
            _ => false,
        }
    }

    /// The first component that names the branch `variant` of the result of
    /// the component `source`.
    pub fn projection_of(&self, source: ComponentId, variant: MatchResultVariant) -> (projection:
        Option<ComponentId>)
        ensures
            projection == self@.projection_of(source, variant, 0),
            projection matches Some(id) ==> self@.knows(id),
    {
        let type_ = match self.branch_type(source, variant) {
            Some(type_) => type_,
            None => {
                proof {
                    lemma_no_projection(self@, source, variant, 0);
                }
                return None;
            },
        };
        let mut i: usize = 0;
        while i < self.component_db.len()
            invariant
                i <= self@.components.len(),
                self@.branch_type(source, variant) == Some(type_@),
                self@.projection_of(source, variant, 0) == self@.projection_of(
                    source,
                    variant,
                    i as int,
                ),
            decreases self@.components.len() - i,
        {
            if self.is_projection(ComponentId(i), source, variant, type_) {
                return Some(ComponentId(i));
            }
            i = i + 1;
        }
        None
    }
}

/// A result without a branch of a type has no projection.
pub proof fn lemma_no_projection(
    registered: Registered,
    source: ComponentId,
    variant: MatchResultVariant,
    from: int,
)
    requires
        registered.branch_type(source, variant) is None,
    ensures
        registered.projection_of(source, variant, from) is None,
    decreases registered.components.len() - from,
{
    if 0 <= from < registered.components.len() {
        lemma_no_projection(registered, source, variant, from + 1);
    }
}

/// Finds the node that stands for the value of the constructor `id`; builds it
/// where the constructor has no node yet.
pub fn resolve(cx: &Sources<'_>, fuel: usize, id: ComponentId, state: &mut Construction) -> (node:
    Result<usize, BuildError>)
    requires
        old(state).graph.wf(),
    ensures
        final(state).graph.wf(),
        is_resolved(node, final(state)@, cx@.resolve(fuel as nat, id, old(state)@)),
    decreases fuel, 0nat, 0nat,
{
    if id.0 >= state.memo.len() || id.0 >= state.in_progress.len() || !cx.knows(id) {
        return Err(BuildError::InvariantViolation);
    }
    match state.memo[id.0] {
        Some(node) => {
            return Ok(node);
        },
        None => {},
    }
    if state.in_progress[id.0] {
        return Err(BuildError::CycleDetected { component: id });
    }
    if fuel == 0 {
        return Err(BuildError::InvariantViolation);
    }
    state.in_progress.set(id.0, true);
    let node = match invoke(cx, fuel - 1, id, None, state) {
        Ok(node) => node,
        Err(e) => {
            return Err(e);
        },
    };
    let is_fallible = match cx.computation(id) {
        Computation::Callable(callable) => callable.is_fallible(),
        Computation::MatchResult(_) => false,
    };
    let value = if is_fallible {
        match fork(cx, fuel - 1, id, node, state) {
            Ok(ok_node) => ok_node,
            Err(e) => {
                return Err(e);
            },
        }
    } else {
        node
    };
    if id.0 < state.memo.len() && id.0 < state.in_progress.len() {
        state.memo.set(id.0, Some(value));
        state.in_progress.set(id.0, false);
        Ok(value)
    } else {
        Err(BuildError::InvariantViolation)
    }
}

/// Adds the fork on the result of the constructor `id`, whose invocation is
/// `node`, with its two branches and the invocation of its error handler;
/// returns the `Ok` branch.
pub fn fork(cx: &Sources<'_>, fuel: usize, id: ComponentId, node: usize, state: &mut Construction) -> (ok_node:
    Result<usize, BuildError>)
    requires
        old(state).graph.wf(),
    ensures
        final(state).graph.wf(),
        is_resolved(ok_node, final(state)@, cx@.fork(fuel as nat, id, node, old(state)@)),
    decreases fuel, 4nat, 0nat,
{
    let handler = match cx.component_db.error_handler_of(id) {
        Some(handler) => handler,
        None => {
            return Err(BuildError::MissingErrorHandler { component: id });
        },
    };
    let (ok, err) = match (
        cx.projection_of(id, MatchResultVariant::OkVariant),
        cx.projection_of(id, MatchResultVariant::ErrVariant),
    ) {
        (Some(ok), Some(err)) => (ok, err),
        _ => {
            return Err(BuildError::InvariantViolation);
        },
    };
    let (ok_node, err_node) = match add_fork(&mut state.graph, node, ok, err) {
        Some(branches) => branches,
        None => {
            return Err(BuildError::InvariantViolation);
        },
    };
    match invoke(cx, fuel, handler, Some((cx.produced_type(err), err_node)), state) {
        Ok(_) => Ok(ok_node),
        Err(e) => Err(e),
    }
}

/// Resolves the inputs of the callable component `id` and adds its
/// invocation; returns the node of the invocation.
pub fn invoke(
    cx: &Sources<'_>,
    fuel: usize,
    id: ComponentId,
    provided: Option<(&ResolvedType, usize)>,
    state: &mut Construction,
) -> (node: Result<usize, BuildError>)
    requires
        old(state).graph.wf(),
    ensures
        final(state).graph.wf(),
        is_resolved(
            node,
            final(state)@,
            cx@.invoke(fuel as nat, id, as_provided(provided), old(state)@),
        ),
        node matches Ok(index) ==> index < final(state)@.graph.nodes.len(),
    decreases fuel, 3nat, 0nat,
{
    if !cx.knows(id) {
        return Err(BuildError::InvariantViolation);
    }
    let callable = match cx.computation(id) {
        Computation::Callable(callable) => callable,
        Computation::MatchResult(_) => {
            return Err(BuildError::InvariantViolation);
        },
    };
    let ghost initial = state@;
    let ghost types = type_views(callable.inputs@);
    let mut producers: Vec<usize> = Vec::new();
    let mut i: usize = 0;
    proof {
        assert(types.skip(0) =~= types);
    }
    while i < callable.inputs.len()
        invariant
            state.graph.wf(),
            i <= callable.inputs.len(),
            types == type_views(callable.inputs@),
            producers@.len() == i,
            cx@.knows(id),
            cx@.computation(id) == Computation::Callable(*callable),
            initial == old(state)@,
            cx@.resolve_inputs(
                fuel as nat,
                id,
                types,
                as_provided(provided),
                initial,
                Seq::empty(),
            ) == cx@.resolve_inputs(
                fuel as nat,
                id,
                types.skip(i as int),
                as_provided(provided),
                state@,
                producers@,
            ),
        decreases callable.inputs.len() - i,
    {
        proof {
            assert(types.skip(i as int)[0] == callable.inputs@[i as int]@);
            assert(types.skip(i as int).drop_first() =~= types.skip(i + 1));
        }
        match resolve_type(cx, fuel, id, i, &callable.inputs[i], provided, state) {
            Ok(producer) => {
                producers.push(producer);
            },
            Err(e) => {
                return Err(e);
            },
        }
        i = i + 1;
    }
    match add_invocation(&mut state.graph, id, cx.n_allowed_invocations(id), &producers) {
        Some(node) => Ok(node),
        None => Err(BuildError::InvariantViolation),
    }
}

/// Finds the node that stands for the value of the type `type_` that the
/// component `consumer` takes as its input number `input`.
pub fn resolve_type(
    cx: &Sources<'_>,
    fuel: usize,
    consumer: ComponentId,
    input: usize,
    type_: &ResolvedType,
    provided: Option<(&ResolvedType, usize)>,
    state: &mut Construction,
) -> (node: Result<usize, BuildError>)
    requires
        old(state).graph.wf(),
    ensures
        final(state).graph.wf(),
        is_resolved(
            node,
            final(state)@,
            cx@.resolve_type(
                fuel as nat,
                consumer,
                input,
                type_@,
                as_provided(provided),
                old(state)@,
            ),
        ),
    decreases fuel, 1nat, 0nat,
{
    match provided {
        Some((provided_type, node)) => {
            if provided_type.is_same_as(type_) {
                return Ok(node);
            }
        },
        None => {},
    }
    let constructors = cx.constructors_of(type_);
    if constructors.len() == 0 {
        if contains_type(cx.externals, type_) {
            match find_input_parameter(&state.graph, type_) {
                Some(node) => Ok(node),
                None => match state.graph.add_node(CallGraphNode::InputParameter(type_.duplicate())) {
                    Some(node) => Ok(node),
                    None => Err(BuildError::InvariantViolation),
                },
            }
        } else {
            Err(BuildError::UnresolvableInput { consumer, input })
        }
    } else if constructors.len() >= 2 {
        Err(
            BuildError::AmbiguousConstructor {
                first: ComponentId(constructors[0]),
                second: ComponentId(constructors[1]),
            },
        )
    } else {
        resolve(cx, fuel, ComponentId(constructors[0]), state)
    }
}

/// What `component_db`, `computation_db` and `externals` hold, as the verifier
/// sees it.
pub open spec fn registered_in(
    component_db: &ComponentDb,
    computation_db: &ComputationDb,
    externals: &Vec<ResolvedType>,
) -> Registered {
    Registered {
        components: component_db@,
        computations: computation_db@,
        externals: type_views(externals@),
    }
}

/// Builds the call graph of the handler `handler`: the invocation of the
/// handler, which is the root, after the invocations of what it takes, of what
/// that takes, and so on, down to the values that come from outside.
///
/// The graph is what [`Registered::call_graph`] says. It is well formed and
/// wired, as every graph that is built.
pub fn build_call_graph(
    handler: ComponentId,
    component_db: &ComponentDb,
    computation_db: &ComputationDb,
    externals: &Vec<ResolvedType>,
) -> (graph: Result<CallGraph, BuildError>)
    ensures
        match graph {
            Ok(built) => registered_in(component_db, computation_db, externals).call_graph(handler)
                == Ok::<(GraphView, usize), BuildError>((built.call_graph@, built.root_node_index)),
            Err(e) => registered_in(component_db, computation_db, externals).call_graph(handler)
                == Err::<(GraphView, usize), BuildError>(e),
        },
        graph matches Ok(built) ==> built.wf(),
        graph matches Ok(built) ==> crate::well_formed::well_formed(
            registered_in(component_db, computation_db, externals),
            built.call_graph@,
        ),
        graph matches Ok(built) ==> crate::wiring::wired(
            registered_in(component_db, computation_db, externals),
            built.call_graph@,
        ),
{
    let cx = Sources { component_db, computation_db, externals };
    let mut memo: Vec<Option<usize>> = Vec::new();
    let mut in_progress: Vec<bool> = Vec::new();
    let mut i: usize = 0;
    while i < component_db.len()
        invariant
            i <= component_db@.len(),
            memo@ == Seq::new(i as nat, |k: int| None::<usize>),
            in_progress@ == Seq::new(i as nat, |k: int| false),
        decreases component_db@.len() - i,
    {
        memo.push(None);
        in_progress.push(false);
        proof {
            assert(memo@ =~= Seq::new((i + 1) as nat, |k: int| None::<usize>));
            assert(in_progress@ =~= Seq::new((i + 1) as nat, |k: int| false));
        }
        i = i + 1;
    }
    let mut state = Construction { graph: RawCallGraph::new(), memo, in_progress };
    proof {
        assert(state@ == cx@.start());
        crate::well_formed::lemma_call_graph_is_well_formed(cx@, handler);
        crate::wiring::lemma_call_graph_is_wired(cx@, handler);
    }
    match invoke(&cx, component_db.len(), handler, None, &mut state) {
        Ok(root) => Ok(CallGraph { call_graph: state.graph, root_node_index: root }),
        Err(e) => Err(e),
    }
}

} // verus!

//! What is generated from a call graph, as mathematics: which code stands for
//! which node after each step, and what the body and the handler are in the
//! end. The functions that generate are held to this.

use crate::call_graph::as_ints;
use crate::call_graph::GraphView;
use crate::call_graph::IncomingEdge;
use crate::call_graph::NodeView;
use crate::call_graph::NumberOfAllowedInvocations;
use crate::call_graph::required_inputs;
use crate::call_graph::type_position;
use crate::call_graph::visit_order;
use crate::call_graph::walk_after;
use crate::codegen_utils::call_text;
use crate::codegen_utils::CodegenError;
use crate::codegen_utils::dependency_types;
use crate::codegen_utils::DependencyView;
use crate::codegen_utils::type_views;
use crate::codegen_utils::entered;
use crate::codegen_utils::FragmentView;
use crate::codegen_utils::let_syntax;
use crate::codegen_utils::statements;
use crate::component::Component;
use crate::component::hydrated_component;
use crate::component::HydratedComponent;
use crate::component::hydrates;
use crate::computation::Computation;
use crate::computation::MatchResultVariant;
use crate::language::rendered_type;
use crate::language::TypeView;
use crate::shape::fresh_walk;
use crate::reach::closed_under;
use crate::shape::incoming;
use crate::shape::reaches;
use crate::shape::successors;
use crate::shape::Walk;
use crate::shape::without_cycle;
use crate::text::separated;
use crate::text::terminated;
use crate::text::variable;
use crate::text::variable_name;
use vstd::prelude::*;

verus! {

/// What has been generated so far, as the verifier sees it.
pub struct EmitState {
    /// The number of the next variable name.
    pub next_variable: nat,
    /// The statements that are emitted once, each under the node that it binds.
    pub bindings: Seq<(usize, Seq<char>)>,
    /// The fragment of each node for which code was generated.
    pub blocks: Map<usize, FragmentView>,
}

/// What code is generated from, as the verifier sees it.
pub struct Env {
    pub graph: GraphView,
    /// The types for which the handler has a parameter: the parameter of the
    /// type at position `i` is the variable with number `i`.
    pub parameters: Seq<TypeView>,
    /// The name of each package, by its id.
    pub names: Map<Seq<char>, Seq<char>>,
    /// The components, each at its id.
    pub components: Seq<Component>,
    /// The computations, each at its id.
    pub computations: Seq<Computation>,
}

/// Whether the outcome `got` of a step is the outcome `expected` that its
/// contract names, `after` being what has been generated after the step.
pub open spec fn is_step(got: Result<(), CodegenError>, after: EmitState, expected: Result<
    EmitState,
    CodegenError,
>) -> bool {
    match got {
        Ok(_) => expected == Ok::<EmitState, CodegenError>(after),
        Err(e) => expected == Err::<EmitState, CodegenError>(e),
    }
}

/// `nodes` as indices.
pub open spec fn as_nodes(nodes: Seq<int>) -> Seq<usize> {
    nodes.map_values(|n: int| n as usize)
}

/// The component that the node `node` of `graph` invokes, where it
/// invokes one.
pub open spec fn component_of<'a>(
    graph: GraphView,
    components: Seq<Component>,
    computations: Seq<Computation>,
    node: int,
) -> HydratedComponent<'a> {
    hydrated_component(components, computations, graph.nodes[node]->component_id)
}

/// The type of the value of the node `node`; a fork has none.
pub open spec fn node_type(
    graph: GraphView,
    components: Seq<Component>,
    computations: Seq<Computation>,
    node: int,
) -> Option<TypeView> {
    match graph.nodes[node] {
        NodeView::Compute { .. } => Some(
            component_of(graph, components, computations, node).spec_output_type()@,
        ),
        NodeView::InputParameter(type_) => Some(type_),
        NodeView::MatchBranching => None,
    }
}

/// What the edges `edges` carry; `None` where one of them comes from a fork.
pub open spec fn dependencies(
    graph: GraphView,
    components: Seq<Component>,
    computations: Seq<Computation>,
    edges: Seq<IncomingEdge>,
) -> Option<Seq<DependencyView>>
    decreases edges.len(),
{
    if edges.len() == 0 {
        Some(Seq::empty())
    } else {
        match dependencies(graph, components, computations, edges.drop_last()) {
            None => None,
            Some(earlier) => match node_type(
                graph,
                components,
                computations,
                edges.last().source as int,
            ) {
                None => None,
                Some(type_) => Some(
                    earlier.push(
                        DependencyView {
                            source: edges.last().source,
                            type_,
                            metadata: edges.last().metadata,
                        },
                    ),
                ),
            },
        }
    }
}

/// What the node `node` can take: of each edge that enters it, the edge added
/// last first, the source, the type of its value and how it is handed over;
/// `None` where an edge comes from a fork.
pub open spec fn node_type_inputs(
    graph: GraphView,
    components: Seq<Component>,
    computations: Seq<Computation>,
    node: int,
) -> Option<Seq<DependencyView>> {
    dependencies(graph, components, computations, graph.incoming_edges(node))
}

impl GraphView {
    /// The first node of `order` that has no successor.
    pub open spec fn first_sink(self, order: Seq<int>) -> Option<int>
        decreases order.len(),
    {
        if order.len() == 0 {
            None
        } else if successors(self.edges, order[0]).len() == 0 {
            Some(order[0])
        } else {
            self.first_sink(order.drop_first())
        }
    }

    /// A node without successors that a walk along the edges reaches from
    /// `start`: the first that the walk hands out.
    pub open spec fn terminal_descendant(self, start: int) -> Option<int> {
        self.first_sink(visit_order(self.successor_lists(), fresh_walk(start), self.nodes.len()))
    }

    /// The first node of `order` that is a fork, is not `start` and is not in
    /// `ignore`.
    pub open spec fn first_branching(self, start: int, ignore: Set<int>, order: Seq<int>) -> Option<
        int,
    >
        decreases order.len(),
    {
        if order.len() == 0 {
            None
        } else if order[0] != start && !ignore.contains(order[0]) && self.nodes[order[0]]
            is MatchBranching {
            Some(order[0])
        } else {
            self.first_branching(start, ignore, order.drop_first())
        }
    }

    /// No fork leads to `chosen` but forks of `ignore`: of what `chosen` leads
    /// to against the edges, only `chosen` itself and `start` may be a fork
    /// that is not in `ignore`.
    pub open spec fn no_fork_before(self, start: int, ignore: Set<int>, chosen: int) -> bool {
        forall|x: int|
            #[trigger] reaches(self.predecessor_lists(), chosen, x) && x != chosen && x != start
                && 0 <= x < self.nodes.len() && self.nodes[x] is MatchBranching
                ==> ignore.contains(x)
    }

    /// A fork that a walk against the edges reaches from `start` and that is
    /// not in `ignore`: the first that the walk hands out, so that no such fork
    /// comes before it.
    pub open spec fn match_branching_ancestor(self, start: int, ignore: Set<int>) -> Option<int> {
        self.first_branching(
            start,
            ignore,
            visit_order(self.predecessor_lists(), fresh_walk(start), self.nodes.len()),
        )
    }
}

/// The node `node` stands alone: no edge leaves it and none enters it.
pub open spec fn stands_alone(graph: GraphView, node: int) -> bool {
    &&& successors(graph.edges, node).len() == 0
    &&& incoming(graph.edges, node).len() == 0
}

/// `match scrutinee { Ok(ok_name) => { ok_body } Err(err_name) => { err_body } }`
pub open spec fn match_syntax(
    scrutinee: Seq<char>,
    ok_name: Seq<char>,
    ok_body: Seq<char>,
    err_name: Seq<char>,
    err_body: Seq<char>,
) -> Seq<char> {
    "match "@ + scrutinee + " { Ok("@ + ok_name + ") => { "@ + ok_body + " } Err("@ + err_name
        + ") => { "@ + err_body + " } }"@
}

/// The statements of `bindings`, each followed by a space, and then `last`
/// without the braces of a block.
pub open spec fn body_syntax(bindings: Seq<(usize, Seq<char>)>, last: FragmentView) -> Seq<char> {
    terminated(statements(bindings), " "@) + last.tail()
}

impl Env {
    /// Every invocation in the graph is that of a component, and every
    /// component finds its computation.
    pub open spec fn wf(&self) -> bool {
        &&& self.graph.refers_to(self.components.len())
        &&& hydrates(self.components, self.computations)
    }

    /// The component that the node `node` invokes, where it invokes one.
    pub open spec fn component(&self, node: int) -> HydratedComponent<'_> {
        component_of(self.graph, self.components, self.computations, node)
    }

    /// What the node `node` can take; see [`node_type_inputs`].
    pub open spec fn node_type_inputs(&self, node: int) -> Option<Seq<DependencyView>> {
        node_type_inputs(self.graph, self.components, self.computations, node)
    }

    /// The branch that the node `node` names, where it names one.
    pub open spec fn variant_of(&self, node: int) -> Option<MatchResultVariant> {
        match self.graph.nodes[node] {
            NodeView::Compute { .. } => if self.component(node).is_callable() {
                None
            } else {
                Some(self.component(node).variant())
            },
            _ => None,
        }
    }

    /// The two nodes that the fork `node` leads to, the `Ok` branch first;
    /// `None` where it does not lead to one `Ok` and one `Err` branch.
    pub open spec fn match_arms(&self, node: int) -> Option<(usize, usize)> {
        let variants = successors(self.graph.edges, node);
        if variants.len() != 2 {
            None
        } else {
            match (self.variant_of(variants[0]), self.variant_of(variants[1])) {
                (Some(MatchResultVariant::OkVariant), Some(MatchResultVariant::ErrVariant)) => Some(
                    (variants[0] as usize, variants[1] as usize),
                ),
                (Some(MatchResultVariant::ErrVariant), Some(MatchResultVariant::OkVariant)) => Some(
                    (variants[1] as usize, variants[0] as usize),
                ),
                _ => None,
            }
        }
    }

    /// What is generated for the node `current`, which is no fork, after
    /// `state`; `start` is the node that the walk started from.
    ///
    /// An invocation of a callable becomes a call of it. The call is bound to a
    /// new variable, once, where the node may be invoked once only and is not
    /// `start`; else the call itself stands for the node. A branch of a result
    /// stands for what its fork has bound it to. An input parameter stands for
    /// the parameter of its type.
    pub open spec fn emit_node(&self, start: usize, current: usize, state: EmitState) -> Result<
        EmitState,
        CodegenError,
    > {
        match self.graph.nodes[current as int] {
            NodeView::Compute { n_allowed_invocations, .. } => {
                let component = self.component(current as int);
                if component.is_callable() {
                    match self.node_type_inputs(current as int) {
                        None => Err(CodegenError::MatchBranchingAsInput),
                        Some(dependencies) => match call_text(
                            component.callable(),
                            self.names,
                            dependencies,
                            state.blocks,
                        ) {
                            Err(e) => Err(e),
                            Ok(call) => if current == start || n_allowed_invocations
                                == NumberOfAllowedInvocations::Multiple {
                                Ok(
                                    EmitState {
                                        blocks: state.blocks.insert(
                                            current,
                                            FragmentView::Statement(call),
                                        ),
                                        ..state
                                    },
                                )
                            } else if state.next_variable >= usize::MAX {
                                Err(CodegenError::TooManyVariables)
                            } else {
                                let name = variable_name(state.next_variable);
                                Ok(
                                    EmitState {
                                        next_variable: state.next_variable + 1,
                                        bindings: entered(
                                            state.bindings,
                                            current,
                                            let_syntax(name, call),
                                        ),
                                        blocks: state.blocks.insert(
                                            current,
                                            FragmentView::VariableReference(name),
                                        ),
                                    },
                                )
                            },
                        },
                    }
                } else if state.blocks.contains_key(current) {
                    Ok(state)
                } else {
                    Err(CodegenError::UnboundMatchResult)
                }
            },
            NodeView::InputParameter(type_) => match type_position(self.parameters, type_) {
                None => Err(CodegenError::UnboundInputParameter),
                Some(position) => Ok(
                    EmitState {
                        blocks: state.blocks.insert(
                            current,
                            FragmentView::VariableReference(variable_name(position as nat)),
                        ),
                        ..state
                    },
                ),
            },
            NodeView::MatchBranching => Err(CodegenError::MisplacedMatchBranching),
        }
    }

    /// What is generated for the fork `current` after `state`: a `match` on the
    /// value of the node that leads to the fork, whose arms bind the two
    /// branches to the next two variables, `Ok` first, and hold the bodies
    /// generated from the two branches. Each body starts from what `state`
    /// holds and from the nodes that the walk has `discovered` and `finished`,
    /// and names its variables from the same number on.
    pub open spec fn emit_match(
        &self,
        depth: nat,
        current: usize,
        state: EmitState,
        discovered: Set<int>,
        finished: Set<int>,
    ) -> Result<EmitState, CodegenError>
        decreases depth, 0nat, 0nat,
    {
        if depth == 0 {
            Err(CodegenError::NestingTooDeep)
        } else {
            let edges = self.graph.incoming_edges(current as int);
            match self.match_arms(current as int) {
                None => Err(CodegenError::MalformedMatchBranching),
                Some((ok_node, err_node)) => if edges.len() == 0 {
                    Err(CodegenError::MalformedMatchBranching)
                } else if !state.blocks.contains_key(edges[0].source) {
                    Err(CodegenError::MissingFragment)
                } else if state.next_variable + 1 >= usize::MAX {
                    Err(CodegenError::TooManyVariables)
                } else {
                    let ok_name = variable_name(state.next_variable);
                    let err_name = variable_name(state.next_variable + 1);
                    match self.body_text(
                        (depth - 1) as nat,
                        ok_node as int,
                        state.next_variable + 2,
                        state.blocks.insert(ok_node, FragmentView::VariableReference(ok_name)),
                        discovered,
                        finished,
                    ) {
                        Err(e) => Err(e),
                        Ok(ok_body) => match self.body_text(
                            (depth - 1) as nat,
                            err_node as int,
                            state.next_variable + 2,
                            state.blocks.insert(
                                err_node,
                                FragmentView::VariableReference(err_name),
                            ),
                            discovered,
                            finished,
                        ) {
                            Err(e) => Err(e),
                            Ok(err_body) => Ok(
                                EmitState {
                                    next_variable: state.next_variable + 2,
                                    bindings: state.bindings,
                                    blocks: state.blocks.insert(
                                        current,
                                        FragmentView::Block(
                                            match_syntax(
                                                state.blocks[edges[0].source].expression(),
                                                ok_name,
                                                ok_body,
                                                err_name,
                                                err_body,
                                            ),
                                        ),
                                    ),
                                },
                            ),
                        },
                    }
                },
            }
        }
    }

    /// What is generated for the nodes of `order`, one after the other, after
    /// `state`. A fork has its turn only as `start`.
    pub open spec fn emit_order(
        &self,
        depth: nat,
        start: usize,
        order: Seq<usize>,
        state: EmitState,
        discovered: Set<int>,
        finished: Set<int>,
    ) -> Result<EmitState, CodegenError>
        decreases depth, 1nat, order.len(),
    {
        if order.len() == 0 {
            Ok(state)
        } else {
            let current = order[0];
            let step = if self.graph.nodes[current as int] is MatchBranching {
                if current == start {
                    self.emit_match(depth, current, state, discovered, finished)
                } else {
                    Err(CodegenError::MisplacedMatchBranching)
                }
            } else {
                self.emit_node(start, current, state)
            };
            match step {
                Err(e) => Err(e),
                Ok(next) => self.emit_order(
                    depth,
                    start,
                    order.drop_first(),
                    next,
                    discovered,
                    finished,
                ),
            }
        }
    }

    /// The body that is generated from a node that stands alone and is no
    /// fork: what is generated for that node, which nothing is bound for.
    pub open spec fn lone_body_text(
        &self,
        node: usize,
        next_variable: nat,
        blocks: Map<usize, FragmentView>,
    ) -> Result<Seq<char>, CodegenError> {
        match self.emit_node(
            node,
            node,
            EmitState { next_variable, bindings: Seq::empty(), blocks },
        ) {
            Err(e) => Err(e),
            Ok(state) => if state.blocks.contains_key(node) {
                Ok(body_syntax(state.bindings, state.blocks[node]))
            } else {
                Err(CodegenError::MissingFragment)
            },
        }
    }

    /// The node that the walk for the body of `node` starts from: the first
    /// fork that is not `finished` and leads to the terminal descendant of
    /// `node`, or that descendant.
    pub open spec fn body_start(&self, node: int, finished: Set<int>) -> int {
        let terminal = self.graph.terminal_descendant(node)->0;
        match self.graph.match_branching_ancestor(terminal, finished) {
            Some(ancestor) => ancestor,
            None => terminal,
        }
    }

    /// The nodes that the walk for the body of `node` hands out, in their
    /// order.
    pub open spec fn body_order(&self, node: int, discovered: Set<int>, finished: Set<int>) -> Seq<
        usize,
    > {
        as_nodes(
            visit_order(
                self.graph.predecessor_lists(),
                Walk { stack: seq![self.body_start(node, finished)], discovered, finished },
                self.graph.nodes.len(),
            ),
        )
    }

    /// The body that is generated from the node `node`: the statements that
    /// bind what is built once, in the order in which the walk met their nodes,
    /// and then what stands for the node that the walk started from.
    ///
    /// The walk starts from a node without successors that is reached from
    /// `node`, or, where a fork leads to that node that is not `finished`, from
    /// the first such fork. It goes against the edges, past what is
    /// `discovered` already, so that what a node depends on comes before it.
    /// The variables are named from `next_variable` on, and `blocks` holds what
    /// stands for the nodes for which code was generated before. At most
    /// `depth` forks are nested.
    pub open spec fn body_text(
        &self,
        depth: nat,
        node: int,
        next_variable: nat,
        blocks: Map<usize, FragmentView>,
        discovered: Set<int>,
        finished: Set<int>,
    ) -> Result<Seq<char>, CodegenError>
        decreases depth, 2nat, 0nat,
    {
        match self.graph.terminal_descendant(node) {
            None => Err(CodegenError::NoTerminalNode),
            Some(terminal) => {
                let start = match self.graph.match_branching_ancestor(terminal, finished) {
                    Some(ancestor) => ancestor,
                    None => terminal,
                };
                let walk = Walk { stack: seq![start], discovered, finished };
                let count = self.graph.nodes.len();
                let order = as_nodes(visit_order(self.graph.predecessor_lists(), walk, count));
                let after = walk_after(self.graph.predecessor_lists(), walk, count);
                match self.emit_order(
                    depth,
                    start as usize,
                    order,
                    EmitState { next_variable, bindings: Seq::empty(), blocks },
                    after.discovered,
                    after.finished,
                ) {
                    Err(e) => Err(e),
                    Ok(state) => if state.blocks.contains_key(start as usize) {
                        Ok(body_syntax(state.bindings, state.blocks[start as usize]))
                    } else {
                        Err(CodegenError::MissingFragment)
                    },
                }
            },
        }
    }
}

/// The node `node` has what its code needs besides the code of the nodes that
/// lead to it. It is no fork and no branch of a result. Where it invokes a
/// callable, the package of the callable has a name, no fork leads to the
/// node, and for each input of the callable an edge into the node carries a
/// value of its type. Where it is an input parameter, the handler has a
/// parameter of its type.
pub open spec fn provided_for(env: Env, node: int) -> bool {
    match env.graph.nodes[node] {
        NodeView::Compute { .. } => {
            let callable = env.component(node).callable();
            &&& env.component(node).is_callable()
            &&& env.names.contains_key(callable.package_id@)
            &&& env.node_type_inputs(node) is Some
            &&& forall|k: int|
                0 <= k < callable.inputs@.len() ==> type_position(
                    dependency_types(env.node_type_inputs(node)->0),
                    #[trigger] type_views(callable.inputs@)[k],
                ) is Some
        },
        NodeView::InputParameter(type_) => type_position(env.parameters, type_) is Some,
        NodeView::MatchBranching => false,
    }
}

/// A graph without forks from which code can be generated node by node: it
/// has no cycle, every node has what its code needs, and the variable names
/// do not run out from `next_variable` on.
pub open spec fn straight(env: Env, next_variable: nat) -> bool {
    &&& env.wf()
    &&& without_cycle(env.graph.successor_lists())
    &&& without_cycle(env.graph.predecessor_lists())
    &&& forall|n: int| 0 <= n < env.graph.nodes.len() ==> #[trigger] provided_for(env, n)
    &&& next_variable + env.graph.nodes.len() < usize::MAX
}

/// The node `node` names a branch of a result.
pub open spec fn is_branch_node(env: Env, node: int) -> bool {
    env.variant_of(node) is Some
}

/// The node `node` names the `Err` branch of a result.
pub open spec fn is_err_branch(env: Env, node: int) -> bool {
    env.variant_of(node) == Some(MatchResultVariant::ErrVariant)
}

/// The node that the first edge into `node` comes from: of a branch, its
/// fork.
pub open spec fn fork_of(env: Env, node: int) -> int {
    incoming(env.graph.edges, node)[0].0
}

/// The node `node` has what its code needs besides the code of the nodes that
/// lead to it. An invocation of a callable and an input parameter have what
/// [`provided_for`] says. One edge enters a branch of a result, from a fork.
/// One edge enters a fork, not from a fork, and the fork leads to its two
/// arms.
pub open spec fn fit_for(env: Env, node: int) -> bool {
    match env.graph.nodes[node] {
        NodeView::Compute { .. } => if env.component(node).is_callable() {
            provided_for(env, node)
        } else {
            &&& incoming(env.graph.edges, node).len() == 1
            &&& 0 <= fork_of(env, node) < env.graph.nodes.len()
            &&& env.graph.nodes[fork_of(env, node)] is MatchBranching
        },
        NodeView::InputParameter(_) => provided_for(env, node),
        NodeView::MatchBranching => {
            &&& env.match_arms(node) is Some
            &&& incoming(env.graph.edges, node).len() == 1
            &&& 0 <= fork_of(env, node) < env.graph.nodes.len()
            &&& !(env.graph.nodes[fork_of(env, node)] is MatchBranching)
        },
    }
}

/// Where the `Err` branch of a result and another branch lead to the same
/// node, the other branch leads to the `Err` branch: what handles an error
/// takes, besides the error, only values that are at hand wherever the error
/// is.
pub open spec fn branches_apart(env: Env) -> bool {
    forall|first: int, second: int, to: int|
        0 <= first < env.graph.nodes.len() && 0 <= second < env.graph.nodes.len() && first
            != second && is_err_branch(env, first) && is_branch_node(env, second)
            && #[trigger] reaches(env.graph.successor_lists(), first, to) && #[trigger] reaches(
            env.graph.successor_lists(),
            second,
            to,
        ) ==> reaches(env.graph.successor_lists(), second, first)
}

/// A graph from which code can be generated, forks and all: it has no cycle,
/// every node has what its code needs, and its `Err` branches are
/// [apart](branches_apart) from its other branches.
pub open spec fn forked(env: Env) -> bool {
    &&& env.wf()
    &&& without_cycle(env.graph.successor_lists())
    &&& without_cycle(env.graph.predecessor_lists())
    &&& forall|n: int| 0 <= n < env.graph.nodes.len() ==> #[trigger] fit_for(env, n)
    &&& branches_apart(env)
}

/// A body is owed for the node `node`, from `next_variable` and `blocks` on,
/// after a walk in the state `walk`, with at most `depth` forks nested.
///
/// The graph is [`forked`]. The walk is at rest, what it has finished are
/// nodes of the graph, and whatever leads to a node that it has finished is
/// finished too. What it has finished has its code in `blocks`, but for the
/// forks. A branch whose fork is finished and which is neither finished nor
/// in `blocks` is the branch that was not taken: `node` is then a branch
/// itself, and one of the two is an `Err` branch. A `node` that is a branch
/// is in `blocks` and not finished, and its fork is finished. `depth` is no less than the
/// number of nodes that are not finished, and three variables can be named
/// for each of them.
pub open spec fn owed(
    env: Env,
    node: int,
    depth: nat,
    next_variable: nat,
    blocks: Map<usize, FragmentView>,
    walk: Walk,
) -> bool {
    let count = env.graph.nodes.len();
    let done = walk.finished;
    &&& forked(env)
    &&& walk.discovered == done
    &&& done.finite()
    &&& forall|x: int| #[trigger] done.contains(x) ==> 0 <= x < count
    &&& closed_under(env.graph.predecessor_lists(), done)
    &&& forall|x: usize|
        done.contains(x as int) && !(env.graph.nodes[x as int] is MatchBranching)
            ==> #[trigger] blocks.contains_key(x)
    &&& forall|b: int|
        0 <= b < count && #[trigger] is_branch_node(env, b) && !done.contains(b)
            && !blocks.contains_key(b as usize) && done.contains(fork_of(env, b))
            ==> is_branch_node(env, node) && (is_err_branch(env, b) || is_err_branch(env, node))
    &&& is_branch_node(env, node) ==> blocks.contains_key(node as usize) && done.contains(
        fork_of(env, node),
    ) && !done.contains(node)
    &&& depth + done.len() >= count
    &&& next_variable + 3 * (count - done.len()) < usize::MAX
}

/// Code can be generated for the graph from its root `root`, forks and all:
/// the graph is [`forked`], its root is no branch of a result, and three
/// variables can be named for each node from `next_variable` on.
pub open spec fn generable(env: Env, root: int, next_variable: nat) -> bool {
    &&& forked(env)
    &&& !is_branch_node(env, root)
    &&& next_variable + 3 * env.graph.nodes.len() < usize::MAX
}

/// The `Ok` arm of the fork `fork`.
pub open spec fn ok_arm(env: Env, fork: int) -> usize {
    let (ok, _) = env.match_arms(fork)->0;
    ok
}

/// The `Err` arm of the fork `fork`.
pub open spec fn err_arm(env: Env, fork: int) -> usize {
    let (_, err) = env.match_arms(fork)->0;
    err
}

/// The `match` of the fork `fork` is owed after `state` and a walk in the
/// state `walk`: a fork may still be nested, the fork leads to its two arms,
/// the code of what leads to it is there, two variables can be named, and a
/// body is [`owed`] for each arm.
pub open spec fn match_owed(env: Env, depth: nat, fork: usize, state: EmitState, walk: Walk) -> bool {
    let edges = env.graph.incoming_edges(fork as int);
    &&& depth > 0
    &&& env.match_arms(fork as int) is Some
    &&& edges.len() > 0
    &&& state.blocks.contains_key(edges[0].source)
    &&& state.next_variable + 1 < usize::MAX
    &&& owed(
        env,
        ok_arm(env, fork as int) as int,
        (depth - 1) as nat,
        state.next_variable + 2,
        state.blocks.insert(
            ok_arm(env, fork as int),
            FragmentView::VariableReference(variable_name(state.next_variable)),
        ),
        walk,
    )
    &&& owed(
        env,
        err_arm(env, fork as int) as int,
        (depth - 1) as nat,
        state.next_variable + 2,
        state.blocks.insert(
            err_arm(env, fork as int),
            FragmentView::VariableReference(variable_name((state.next_variable + 1) as nat)),
        ),
        walk,
    )
}

/// What a walk has finished has its code in `blocks`, and the walk has
/// discovered nothing that it has not finished.
pub open spec fn holds_what_is_finished(blocks: Map<usize, FragmentView>, walk: Walk) -> bool {
    &&& walk.discovered == walk.finished
    &&& forall|x: usize| walk.finished.contains(x as int) ==> blocks.contains_key(x)
}

/// A [`HandlerFn`] as the verifier sees it; a parameter is its name and the
/// syntax of its type.
pub struct HandlerView {
    pub parameters: Seq<(Seq<char>, Seq<char>)>,
    pub output_type: Seq<char>,
    pub body: Seq<char>,
}

/// `name: type`, for each parameter.
pub open spec fn parameter_declarations(parameters: Seq<(Seq<char>, Seq<char>)>) -> Seq<Seq<char>> {
    parameters.map_values(|p: (Seq<char>, Seq<char>)| p.0 + ": "@ + p.1)
}

/// `async fn handler(name: type, name: type) -> output_type { body }`
pub open spec fn handler_syntax(handler: HandlerView) -> Seq<char> {
    "async fn handler("@ + separated(
        parameter_declarations(handler.parameters),
        ", "@,
    ) + ") -> "@ + handler.output_type + " { "@ + handler.body + " }"@
}

/// The parameters for `types`: the parameter of the type at position `i` is
/// the variable with number `i`. `None` where `names` lacks the package of a
/// type.
pub open spec fn parameters_for(types: Seq<TypeView>, names: Map<Seq<char>, Seq<char>>) -> Option<
    Seq<(Seq<char>, Seq<char>)>,
>
    decreases types.len(),
{
    if types.len() == 0 {
        Some(Seq::empty())
    } else {
        match parameters_for(types.drop_last(), names) {
            None => None,
            Some(earlier) => match rendered_type(types.last(), names) {
                None => None,
                Some(syntax) => Some(
                    earlier.push((variable_name((types.len() - 1) as nat), syntax)),
                ),
            },
        }
    }
}

/// The body of the handler whose call graph is `call_graph` with the root
/// `root`: what [`Env::body_text`] generates from the root, with nothing
/// generated and nothing walked before, and with as many nested forks as the
/// graph has nodes.
pub open spec fn closure_body_text(
    graph: GraphView,
    root: int,
    parameters: Seq<TypeView>,
    names: Map<Seq<char>, Seq<char>>,
    components: Seq<Component>,
    computations: Seq<Computation>,
    next_variable: nat,
) -> Result<Seq<char>, CodegenError> {
    let env = Env { graph, parameters, names, components, computations };
    if !env.wf() {
        Err(CodegenError::UnknownComponent)
    } else {
        env.body_text(
            graph.nodes.len(),
            root,
            next_variable,
            Map::empty(),
            Set::empty(),
            Set::empty(),
        )
    }
}

/// The body of the handler whose root `root` stands alone and is no fork: what
/// is generated for the root, with nothing generated before.
pub open spec fn closure_lone_text(
    graph: GraphView,
    root: int,
    parameters: Seq<TypeView>,
    names: Map<Seq<char>, Seq<char>>,
    components: Seq<Component>,
    computations: Seq<Computation>,
    next_variable: nat,
) -> Result<Seq<char>, CodegenError> {
    let env = Env { graph, parameters, names, components, computations };
    if !env.wf() {
        Err(CodegenError::UnknownComponent)
    } else {
        env.lone_body_text(root as usize, next_variable, Map::empty())
    }
}

/// The handler with the body `body`, or the error in its place: its
/// parameters are the types of the input parameters of the graph, each once,
/// in the order in which the nodes first name them, and it returns what the
/// root of the graph returns.
pub open spec fn handler_with(
    body: Result<Seq<char>, CodegenError>,
    graph: GraphView,
    root: int,
    names: Map<Seq<char>, Seq<char>>,
    components: Seq<Component>,
    computations: Seq<Computation>,
) -> Result<HandlerView, CodegenError> {
    match body {
        Err(e) => Err(e),
        Ok(body) => match parameters_for(required_inputs(graph.nodes), names) {
            None => Err(CodegenError::UnknownPackage),
            Some(parameters) => match graph.nodes[root] {
                NodeView::Compute { .. } => match rendered_type(
                    component_of(graph, components, computations, root).spec_output_type()@,
                    names,
                ) {
                    None => Err(CodegenError::UnknownPackage),
                    Some(output_type) => Ok(HandlerView { parameters, output_type, body }),
                },
                _ => Err(CodegenError::UnknownComponent),
            },
        },
    }
}

/// The handler that is generated from `graph` with the root `root`.
///
/// Its parameters are the types of the input parameters of the graph, each
/// once, in the order in which the nodes first name them; the variables of the
/// body are numbered after them. It returns what the root of the graph
/// returns.
pub open spec fn handler_for(
    graph: GraphView,
    root: int,
    names: Map<Seq<char>, Seq<char>>,
    components: Seq<Component>,
    computations: Seq<Computation>,
) -> Result<HandlerView, CodegenError> {
    let types = required_inputs(graph.nodes);
    handler_with(
        closure_body_text(graph, root, types, names, components, computations, types.len()),
        graph,
        root,
        names,
        components,
        computations,
    )
}

/// A handler is owed for `graph` with the root `root`: the graph is
/// [`straight`] or [`generable`], its root is an invocation, and `names` has a
/// name for the package of every type that the handler takes or returns.
pub open spec fn handler_is_owed(
    graph: GraphView,
    root: int,
    names: Map<Seq<char>, Seq<char>>,
    components: Seq<Component>,
    computations: Seq<Computation>,
) -> bool {
    let types = required_inputs(graph.nodes);
    let env = Env { graph, parameters: types, names, components, computations };
    &&& straight(env, types.len()) || generable(env, root, types.len())
    &&& parameters_for(types, names) is Some
    &&& graph.nodes[root] is Compute
    &&& rendered_type(
        component_of(graph, components, computations, root).spec_output_type()@,
        names,
    ) is Some
}

/// The handler that is generated where the root stands alone and is no fork:
/// its body is what is generated for the root.
pub open spec fn lone_handler_for(
    graph: GraphView,
    root: int,
    names: Map<Seq<char>, Seq<char>>,
    components: Seq<Component>,
    computations: Seq<Computation>,
) -> Result<HandlerView, CodegenError> {
    let types = required_inputs(graph.nodes);
    handler_with(
        closure_lone_text(graph, root, types, names, components, computations, types.len()),
        graph,
        root,
        names,
        components,
        computations,
    )
}

/// Where the first edges come from a fork, so do all.
pub proof fn lemma_dependencies_prefix(
    graph: GraphView,
    components: Seq<Component>,
    computations: Seq<Computation>,
    edges: Seq<IncomingEdge>,
    n: int,
)
    requires
        0 <= n <= edges.len(),
    ensures
        dependencies(graph, components, computations, edges.take(n)) is None ==> dependencies(
            graph,
            components,
            computations,
            edges,
        ) is None,
    decreases edges.len() - n,
{
    if n < edges.len() {
        assert(edges.take(n + 1).drop_last() =~= edges.take(n));
        lemma_dependencies_prefix(graph, components, computations, edges, n + 1);
    } else {
        assert(edges.take(n) =~= edges);
    }
}

/// `nodes` is what [`as_nodes`] makes of its integers.
pub proof fn lemma_as_nodes(nodes: Seq<usize>)
    ensures
        as_nodes(as_ints(nodes)) == nodes,
{
    assert(as_nodes(as_ints(nodes)) =~= nodes);
}

/// Where the first types lack a package name, so do all.
pub proof fn lemma_parameters_prefix(
    types: Seq<TypeView>,
    names: Map<Seq<char>, Seq<char>>,
    n: int,
)
    requires
        0 <= n <= types.len(),
    ensures
        parameters_for(types.take(n), names) is None ==> parameters_for(types, names) is None,
    decreases types.len() - n,
{
    if n < types.len() {
        assert(types.take(n + 1).drop_last() =~= types.take(n));
        lemma_parameters_prefix(types, names, n + 1);
    } else {
        assert(types.take(n) =~= types);
    }
}

} // verus!

//! Why code is generated for a graph with forks: what the walk of the
//! generator finds, and why each node and each arm then gets its code.

use crate::call_graph::as_ints;
use crate::call_graph::handed_out;
use crate::call_graph::in_post_order;
use crate::call_graph::lemma_incoming_within;
use crate::call_graph::lemma_reaches_on;
use crate::codegen::lemma_reached_from_one;
use crate::codegen_utils::FragmentView;
use crate::emission::fit_for;
use crate::emission::fork_of;
use crate::emission::forked;
use crate::emission::is_branch_node;
use crate::emission::is_err_branch;
use crate::emission::owed;
use crate::emission::branches_apart;
use crate::emission::generable;
use crate::emission::match_owed;
use crate::text::variable_name;
use crate::emission::ok_arm;
use crate::emission::err_arm;
use crate::emission::node_type;
use crate::emission::EmitState;
use crate::laws::lemma_dependencies_list;
use crate::laws::lemma_edge_is_incoming;
use crate::laws::lemma_node_is_generated;
use crate::laws::lemma_successor_is_target;
use crate::laws::lemma_target_is_successor;
use crate::emission::Env;
use crate::laws::lemma_incoming_edges;
use crate::reach::closed_under;
use crate::reach::lemma_closed_holds_what_is_reached;
use crate::reach::lemma_comes_before;
use crate::reach::lemma_reaches_forth;
use crate::reach::lemma_reaches_back;
use crate::shape::edges_within;
use crate::shape::incoming;
use crate::shape::leads;
use crate::shape::predecessors;
use crate::shape::reaches;
use crate::shape::successors;
use crate::shape::Walk;
use vstd::prelude::*;
use vstd::seq_lib::seq_to_set_is_finite;
use vstd::set_lib::lemma_int_range;
use vstd::set_lib::lemma_len_subset;
use vstd::set_lib::lemma_set_disjoint_lens;
use vstd::set_lib::set_int_range;

verus! {

/// What the generator has found for the node `node` after a walk that had
/// finished `done`: a node `terminal` without successors that `node` leads to;
/// the node `start`, which leads to `terminal` and to which no fork leads that
/// is not finished; and the nodes `order` that the walk against the edges from
/// `start` hands out, each after what leads to it, with which `after` is
/// finished.
pub open spec fn walked(
    env: Env,
    node: int,
    done: Set<int>,
    terminal: int,
    start: int,
    order: Seq<usize>,
    after: Set<int>,
) -> bool {
    let count = env.graph.nodes.len();
    let against = env.graph.predecessor_lists();
    &&& edges_within(env.graph.edges, count)
    &&& count <= usize::MAX
    &&& 0 <= node < count
    &&& 0 <= terminal < count
    &&& successors(env.graph.edges, terminal).len() == 0
    &&& reaches(env.graph.successor_lists(), node, terminal)
    &&& 0 <= start < count
    &&& reaches(against, terminal, start)
    &&& env.graph.no_fork_before(terminal, done, start)
    &&& start != terminal ==> env.graph.nodes[start] is MatchBranching && !done.contains(start)
    &&& handed_out(
        against,
        Walk { stack: seq![start], discovered: done, finished: done },
        as_ints(order),
    )
    &&& in_post_order(against, done, as_ints(order))
    &&& forall|k: int| 0 <= k < order.len() ==> (#[trigger] order[k]) < count
    &&& after == done.union(as_ints(order).to_set())
    &&& after.contains(start)
}

/// The code of every node that leads to a node of `order` is in `blocks`, or
/// the node that leads to it comes earlier in `order`, or it is a fork.
pub open spec fn ready_but_forks(env: Env, blocks: Map<usize, FragmentView>, order: Seq<usize>) -> bool {
    forall|i: int, k: int|
        0 <= i < order.len() && 0 <= k < env.graph.incoming_edges(order[i] as int).len() ==> {
            let source = (#[trigger] env.graph.incoming_edges(order[i] as int)[k]).source;
            env.graph.nodes[source as int] is MatchBranching || blocks.contains_key(source)
                || order.take(i).contains(source)
        }
}

/// What holds of the nodes `order` of a walk from `start` for which a body is
/// owed: a fork among them is `start` and comes last; a branch among them has
/// its code in `blocks`; the code of what leads to each of them is there in
/// time; and `start` is among them or has its code.
pub open spec fn planned(env: Env, start: int, blocks: Map<usize, FragmentView>, order: Seq<usize>) -> bool {
    &&& forall|k: int|
        0 <= k < order.len() && env.graph.nodes[(#[trigger] order[k]) as int] is MatchBranching
            ==> order[k] as int == start && k == order.len() - 1
    &&& forall|k: int|
        0 <= k < order.len() && is_branch_node(env, (#[trigger] order[k]) as int)
            ==> blocks.contains_key(order[k])
    &&& ready_but_forks(env, blocks, order)
    &&& blocks.contains_key(start as usize) || order.contains(start as usize)
}

/// A fork has successors: its two arms.
pub proof fn lemma_fork_has_arms(env: Env, fork: int)
    requires
        0 <= fork < env.graph.nodes.len(),
        env.graph.nodes[fork] is MatchBranching,
        fit_for(env, fork),
    ensures
        successors(env.graph.edges, fork).len() == 2,
{
}

/// What the walk has finished once it has handed out `order`: nodes of the
/// graph, as many more as `order` has nodes, with whatever leads to them.
pub proof fn lemma_finished_after(
    env: Env,
    node: int,
    done: Set<int>,
    terminal: int,
    start: int,
    order: Seq<usize>,
    after: Set<int>,
)
    requires
        walked(env, node, done, terminal, start, order, after),
        done.finite(),
        forall|x: int| #[trigger] done.contains(x) ==> 0 <= x < env.graph.nodes.len(),
        closed_under(env.graph.predecessor_lists(), done),
    ensures
        after.finite(),
        forall|x: int| #[trigger] after.contains(x) ==> 0 <= x < env.graph.nodes.len(),
        closed_under(env.graph.predecessor_lists(), after),
        after.len() == done.len() + order.len(),
        after.len() <= env.graph.nodes.len(),
        done.len() <= env.graph.nodes.len(),
{
    let count = env.graph.nodes.len();
    let against = env.graph.predecessor_lists();
    let nodes = as_ints(order);
    let handed = nodes.to_set();
    seq_to_set_is_finite(nodes);
    nodes.unique_seq_to_set();
    assert(done.disjoint(handed)) by {
        assert forall|x: int| done.contains(x) implies !handed.contains(x) by {
            if handed.contains(x) {
                let k = choose|k: int| 0 <= k < nodes.len() && nodes[k] == x;
                assert(!done.contains(nodes[k]));
            }
        }
    }
    lemma_set_disjoint_lens(done, handed);
    assert(after =~= done + handed);
    assert forall|x: int| #[trigger] after.contains(x) implies 0 <= x < count by {
        if !done.contains(x) {
            let k = choose|k: int| 0 <= k < nodes.len() && nodes[k] == x;
            assert(order[k] < count);
        }
    }
    lemma_int_range(0, count as int);
    assert(after.subset_of(set_int_range(0, count as int)));
    lemma_len_subset(after, set_int_range(0, count as int));
    assert(done.subset_of(set_int_range(0, count as int)));
    lemma_len_subset(done, set_int_range(0, count as int));
    assert forall|n: int, k: int|
        0 <= n < against.len() && after.contains(n) && 0 <= k < against[n].len() implies after.contains(
        #[trigger] against[n][k],
    ) by {
        if done.contains(n) {
            assert(done.contains(against[n][k]));
        } else {
            let i = choose|i: int| 0 <= i < nodes.len() && nodes[i] == n;
            assert(done.contains(against[nodes[i]][k]) || nodes.take(i).contains(
                against[nodes[i]][k],
            ));
            if !done.contains(against[n][k]) {
                let earlier = nodes.take(i);
                let j = choose|j: int| 0 <= j < earlier.len() && earlier[j] == against[n][k];
                assert(nodes[j] == against[n][k]);
                assert(handed.contains(nodes[j]));
            }
        }
    }
}

/// Whatever the walk hands out is reached from `start` against the edges.
pub proof fn lemma_handed_out_is_reached(
    env: Env,
    node: int,
    done: Set<int>,
    terminal: int,
    start: int,
    order: Seq<usize>,
    after: Set<int>,
    k: int,
)
    requires
        walked(env, node, done, terminal, start, order, after),
        0 <= k < order.len(),
    ensures
        reaches(env.graph.predecessor_lists(), start, order[k] as int),
        reaches(env.graph.predecessor_lists(), terminal, order[k] as int),
        reaches(env.graph.successor_lists(), order[k] as int, terminal),
        !done.contains(order[k] as int),
{
    let against = env.graph.predecessor_lists();
    assert(as_ints(order)[k] == order[k] as int);
    lemma_reached_from_one(against, start, order[k] as int);
    lemma_reaches_on(against, terminal, start, order[k] as int);
    lemma_reaches_back(env.graph.edges, env.graph.nodes.len(), terminal, order[k] as int);
}

/// A fork that the walk hands out is `start`, and nothing is handed out after
/// `start`.
pub proof fn lemma_fork_is_start_and_last(
    env: Env,
    node: int,
    done: Set<int>,
    terminal: int,
    start: int,
    order: Seq<usize>,
    after: Set<int>,
    k: int,
)
    requires
        forked(env),
        closed_under(env.graph.predecessor_lists(), done),
        walked(env, node, done, terminal, start, order, after),
        0 <= k < order.len(),
    ensures
        env.graph.nodes[order[k] as int] is MatchBranching ==> order[k] as int == start,
        order[k] as int == start ==> k == order.len() - 1,
{
    let against = env.graph.predecessor_lists();
    let nodes = as_ints(order);
    let x = order[k] as int;
    lemma_handed_out_is_reached(env, node, done, terminal, start, order, after, k);
    if env.graph.nodes[x] is MatchBranching && x != start {
        assert(fit_for(env, x));
        lemma_fork_has_arms(env, x);
        assert(done.contains(x));
    }
    if x == start && k < order.len() - 1 {
        let j = k + 1;
        lemma_handed_out_is_reached(env, node, done, terminal, start, order, after, j);
        let walk = choose|walk: Seq<int>| leads(against, walk, start, order[j] as int);
        assert(nodes[k] == start);
        assert(nodes[j] == order[j] as int);
        lemma_comes_before(against, done, nodes, k, walk, order[j] as int);
        let found = nodes.take(k + 1);
        let m = choose|m: int| 0 <= m < found.len() && found[m] == order[j] as int;
        assert(nodes[m] == nodes[j]);
    }
}

/// A branch that the walk hands out has its code.
pub proof fn lemma_branch_has_code(
    env: Env,
    node: int,
    depth: nat,
    next_variable: nat,
    blocks: Map<usize, FragmentView>,
    walk: Walk,
    terminal: int,
    start: int,
    order: Seq<usize>,
    after: Set<int>,
    k: int,
)
    requires
        owed(env, node, depth, next_variable, blocks, walk),
        walked(env, node, walk.finished, terminal, start, order, after),
        0 <= k < order.len(),
        is_branch_node(env, order[k] as int),
    ensures
        blocks.contains_key(order[k]),
{
    let against = env.graph.predecessor_lists();
    let done = walk.finished;
    let count = env.graph.nodes.len();
    let branch = order[k] as int;
    let fork = fork_of(env, branch);
    lemma_handed_out_is_reached(env, node, done, terminal, start, order, after, k);
    assert(fit_for(env, branch));
    assert(against[branch] == predecessors(env.graph.edges, branch));
    assert(against[branch][0] == fork);
    assert(leads(against, seq![branch, fork], branch, fork));
    lemma_reaches_on(against, start, branch, fork);
    assert(fit_for(env, fork));
    lemma_fork_has_arms(env, fork);
    assert(fork != start) by {
        if fork == start {
            assert(reaches(against, against[branch][0], branch));
        }
    }
    assert(done.contains(fork));
    if !blocks.contains_key(order[k]) {
        assert(is_branch_node(env, branch));
        assert(is_branch_node(env, node));
        assert(branch != node);
        assert(reaches(env.graph.successor_lists(), branch, terminal));
        assert(reaches(env.graph.successor_lists(), node, terminal));
        if is_err_branch(env, node) {
            assert(reaches(env.graph.successor_lists(), branch, node));
            lemma_follows_its_fork(env, done, branch, node);
        } else {
            assert(reaches(env.graph.successor_lists(), node, branch));
            lemma_follows_its_fork(env, done, node, branch);
        }
    }
}

/// What leads to a branch whose fork is finished, and is not the branch, is
/// finished: it leads to the fork.
pub proof fn lemma_follows_its_fork(env: Env, done: Set<int>, from: int, branch: int)
    requires
        forked(env),
        edges_within(env.graph.edges, env.graph.nodes.len()),
        closed_under(env.graph.predecessor_lists(), done),
        0 <= branch < env.graph.nodes.len(),
        is_branch_node(env, branch),
        done.contains(fork_of(env, branch)),
        from != branch,
        reaches(env.graph.successor_lists(), from, branch),
    ensures
        done.contains(from),
{
    let against = env.graph.predecessor_lists();
    lemma_reaches_forth(env.graph.edges, env.graph.nodes.len(), from, branch);
    let way = choose|way: Seq<int>| leads(against, way, branch, from);
    let rest = way.drop_first();
    assert(0 <= way[0] < against.len() && against[way[0]].contains(way[1]));
    assert(fit_for(env, branch));
    assert(against[branch] == predecessors(env.graph.edges, branch));
    let k = choose|k: int| 0 <= k < against[branch].len() && against[branch][k] == way[1];
    assert(way[1] == fork_of(env, branch));
    assert forall|j: int| 0 <= j < rest.len() - 1 implies 0 <= #[trigger] rest[j] < against.len()
        && against[rest[j]].contains(rest[j + 1]) by {
        assert(rest[j] == way[j + 1] && rest[j + 1] == way[j + 2]);
    }
    assert(leads(against, rest, way[1], from));
    lemma_closed_holds_what_is_reached(against, done, rest, way[1], from);
}

/// The code of what leads to a node of the walk is there in time, but for the
/// forks.
pub proof fn lemma_ready_but_forks(
    env: Env,
    node: int,
    blocks: Map<usize, FragmentView>,
    done: Set<int>,
    terminal: int,
    start: int,
    order: Seq<usize>,
    after: Set<int>,
)
    requires
        walked(env, node, done, terminal, start, order, after),
        forall|x: usize|
            done.contains(x as int) && !(env.graph.nodes[x as int] is MatchBranching)
                ==> #[trigger] blocks.contains_key(x),
    ensures
        ready_but_forks(env, blocks, order),
{
    let lists = env.graph.predecessor_lists();
    let nodes = as_ints(order);
    assert forall|i: int, k: int|
        0 <= i < order.len() && 0 <= k < env.graph.incoming_edges(order[i] as int).len() implies {
        let source = (#[trigger] env.graph.incoming_edges(order[i] as int)[k]).source;
        env.graph.nodes[source as int] is MatchBranching || blocks.contains_key(source)
            || order.take(i).contains(source)
    } by {
        let at = order[i] as int;
        let entry = incoming(env.graph.edges, at)[k];
        let source = env.graph.incoming_edges(at)[k].source;
        lemma_incoming_within(env.graph.edges, env.graph.nodes.len(), at);
        assert(source == entry.0 as usize);
        assert(nodes[i] == at);
        assert(lists[at][k] == entry.0);
        assert(done.contains(lists[nodes[i]][k]) || nodes.take(i).contains(lists[nodes[i]][k]));
        if done.contains(entry.0) {
            if !(env.graph.nodes[source as int] is MatchBranching) {
                assert(blocks.contains_key(source));
            }
        } else {
            let earlier = nodes.take(i);
            let j = choose|j: int| 0 <= j < earlier.len() && earlier[j] == entry.0;
            assert(nodes[j] == order[j] as int);
            assert(order.take(i)[j] == source);
        }
    }
}

/// What the generator found for a node for which a body is owed is as
/// [`planned`].
pub proof fn lemma_planned(
    env: Env,
    node: int,
    depth: nat,
    next_variable: nat,
    blocks: Map<usize, FragmentView>,
    walk: Walk,
    terminal: int,
    start: int,
    order: Seq<usize>,
    after: Set<int>,
)
    requires
        owed(env, node, depth, next_variable, blocks, walk),
        walked(env, node, walk.finished, terminal, start, order, after),
    ensures
        planned(env, start, blocks, order),
{
    let done = walk.finished;
    assert forall|k: int|
        0 <= k < order.len() && env.graph.nodes[(#[trigger] order[k]) as int]
            is MatchBranching implies order[k] as int == start && k == order.len() - 1 by {
        lemma_fork_is_start_and_last(env, node, done, terminal, start, order, after, k);
    }
    assert forall|k: int|
        0 <= k < order.len() && is_branch_node(
            env,
            (#[trigger] order[k]) as int,
        ) implies blocks.contains_key(order[k]) by {
        lemma_branch_has_code(
            env,
            node,
            depth,
            next_variable,
            blocks,
            walk,
            terminal,
            start,
            order,
            after,
            k,
        );
    }
    lemma_ready_but_forks(env, node, blocks, done, terminal, start, order, after);
    if !order.contains(start as usize) {
        if !done.contains(start) {
            let nodes = as_ints(order);
            assert(nodes.to_set().contains(start));
            let k = choose|k: int| 0 <= k < nodes.len() && nodes[k] == start;
            assert(order[k] == start as usize);
        }
        assert(start == terminal);
        if env.graph.nodes[start] is MatchBranching {
            assert(fit_for(env, start));
            lemma_fork_has_arms(env, start);
        }
        assert(blocks.contains_key(start as usize));
    }
}

/// The two arms of a fork are what the fork leads to: two nodes of the graph,
/// of which the `Err` arm names the `Err` branch.
pub proof fn lemma_arms(env: Env, fork: int)
    requires
        edges_within(env.graph.edges, env.graph.nodes.len()),
        env.graph.nodes.len() <= usize::MAX,
        0 <= fork < env.graph.nodes.len(),
        env.graph.nodes[fork] is MatchBranching,
        fit_for(env, fork),
    ensures
        successors(env.graph.edges, fork).len() == 2,
        0 <= successors(env.graph.edges, fork)[0] < env.graph.nodes.len(),
        0 <= successors(env.graph.edges, fork)[1] < env.graph.nodes.len(),
        successors(env.graph.edges, fork).contains(ok_arm(env, fork) as int),
        successors(env.graph.edges, fork).contains(err_arm(env, fork) as int),
        ok_arm(env, fork) as int == successors(env.graph.edges, fork)[0] && err_arm(env, fork) as int
            == successors(env.graph.edges, fork)[1] || ok_arm(env, fork) as int == successors(
            env.graph.edges,
            fork,
        )[1] && err_arm(env, fork) as int == successors(env.graph.edges, fork)[0],
        is_err_branch(env, err_arm(env, fork) as int),
        is_branch_node(env, ok_arm(env, fork) as int),
{
    let out = successors(env.graph.edges, fork);
    lemma_successor_is_target(env.graph.edges, fork, 0);
    let first = choose|e: int|
        0 <= e < env.graph.edges.len() && #[trigger] env.graph.edges[e] == (fork, out[0]);
    assert(0 <= env.graph.edges[first].1 < env.graph.nodes.len());
    lemma_successor_is_target(env.graph.edges, fork, 1);
    let second = choose|e: int|
        0 <= e < env.graph.edges.len() && #[trigger] env.graph.edges[e] == (fork, out[1]);
    assert(0 <= env.graph.edges[second].1 < env.graph.nodes.len());
    assert(out[0] as usize as int == out[0]);
    assert(out[1] as usize as int == out[1]);
}

/// What a fork leads to is one of its two arms: a branch of a result, of
/// which the fork is the fork.
pub proof fn lemma_arm_of(env: Env, fork: int, arm: int)
    requires
        forked(env),
        edges_within(env.graph.edges, env.graph.nodes.len()),
        env.graph.nodes.len() <= usize::MAX,
        0 <= fork < env.graph.nodes.len(),
        env.graph.nodes[fork] is MatchBranching,
        successors(env.graph.edges, fork).contains(arm),
    ensures
        0 <= arm < env.graph.nodes.len(),
        is_branch_node(env, arm),
        fork_of(env, arm) == fork,
        arm == ok_arm(env, fork) as int || arm == err_arm(env, fork) as int,
        arm == err_arm(env, fork) as int ==> is_err_branch(env, arm),
{
    let out = successors(env.graph.edges, fork);
    let k = choose|k: int| 0 <= k < out.len() && out[k] == arm;
    assert(fit_for(env, fork));
    lemma_arms(env, fork);
    lemma_successor_is_target(env.graph.edges, fork, k);
    let e = choose|e: int|
        0 <= e < env.graph.edges.len() && #[trigger] env.graph.edges[e] == (fork, out[k]);
    assert(0 <= env.graph.edges[e].1 < env.graph.nodes.len());
    lemma_edge_is_incoming(env.graph.edges, e);
    assert(is_branch_node(env, arm));
    assert(fit_for(env, arm));
    let entries = incoming(env.graph.edges, arm);
    let at = choose|at: int| 0 <= at < entries.len() && entries[at] == (fork, e);
    assert(entries[0] == (fork, e));
}

/// No fork that is not finished leads to what the `Err` branch of a result
/// leads to: where the generator starts from a fork, the node that it
/// generates a body for is no `Err` branch.
pub proof fn lemma_no_fork_under_err(
    env: Env,
    node: int,
    depth: nat,
    next_variable: nat,
    blocks: Map<usize, FragmentView>,
    walk: Walk,
    terminal: int,
    start: int,
    order: Seq<usize>,
    after: Set<int>,
)
    requires
        owed(env, node, depth, next_variable, blocks, walk),
        walked(env, node, walk.finished, terminal, start, order, after),
        env.graph.nodes[start] is MatchBranching,
    ensures
        !is_err_branch(env, node),
{
    if is_err_branch(env, node) {
        let along = env.graph.successor_lists();
        assert(fit_for(env, start));
        lemma_fork_has_arms(env, start);
        assert(start != terminal);
        lemma_reaches_back(env.graph.edges, env.graph.nodes.len(), terminal, start);
        let way = choose|way: Seq<int>| leads(along, way, start, terminal);
        let rest = way.drop_first();
        assert(0 <= way[0] < along.len() && along[way[0]].contains(way[1]));
        assert forall|j: int| 0 <= j < rest.len() - 1 implies 0 <= #[trigger] rest[j] < along.len()
            && along[rest[j]].contains(rest[j + 1]) by {
            assert(rest[j] == way[j + 1] && rest[j + 1] == way[j + 2]);
        }
        assert(leads(along, rest, way[1], terminal));
        lemma_arm_of(env, start, way[1]);
        assert(is_branch_node(env, node));
        assert(way[1] != node);
        assert(reaches(along, node, terminal));
        assert(reaches(along, way[1], terminal));
        assert(reaches(along, way[1], node));
        lemma_follows_its_fork(env, walk.finished, way[1], node);
        let against = env.graph.predecessor_lists();
        assert(fit_for(env, way[1]));
        assert(against[way[1]] == predecessors(env.graph.edges, way[1]));
        assert(walk.finished.contains(against[way[1]][0]));
    }
}

/// A node that is no fork gets its code once the code of what leads to it is
/// there: nothing that was generated is lost, and at most one variable is
/// named.
pub proof fn lemma_step_is_generated(env: Env, start: usize, current: usize, state: EmitState)
    requires
        current < env.graph.nodes.len(),
        fit_for(env, current as int),
        !(env.graph.nodes[current as int] is MatchBranching),
        is_branch_node(env, current as int) ==> state.blocks.contains_key(current),
        forall|k: int|
            0 <= k < env.graph.incoming_edges(current as int).len() ==> {
                let source = (#[trigger] env.graph.incoming_edges(current as int)[k]).source;
                env.graph.nodes[source as int] is MatchBranching || state.blocks.contains_key(
                    source,
                )
            },
        state.next_variable < usize::MAX,
    ensures
        env.emit_node(start, current, state) is Ok,
        env.emit_node(start, current, state)->Ok_0.blocks.contains_key(current),
        forall|x: usize| #[trigger]
            state.blocks.contains_key(x) ==> env.emit_node(
                start,
                current,
                state,
            )->Ok_0.blocks.contains_key(x),
        env.emit_node(start, current, state)->Ok_0.next_variable <= state.next_variable + 1,
{
    if env.graph.nodes[current as int] is Compute && env.component(current as int).is_callable() {
        let edges = env.graph.incoming_edges(current as int);
        lemma_dependencies_list(env, edges);
        assert forall|k: int| 0 <= k < edges.len() implies state.blocks.contains_key(
            (#[trigger] edges[k]).source,
        ) by {
            let found = env.node_type_inputs(current as int)->0;
            assert(Some(found[k].type_) == node_type(
                env.graph,
                env.components,
                env.computations,
                edges[k].source as int,
            ));
        }
        lemma_node_is_generated(env, start, current, state);
    }
}

/// After the walk from a fork, a body is owed for the arm `arm` of the fork,
/// which `code` stands for, from `state` on.
pub proof fn lemma_arm_is_owed(
    env: Env,
    node: int,
    depth: nat,
    next_variable: nat,
    blocks: Map<usize, FragmentView>,
    walk: Walk,
    terminal: int,
    start: int,
    order: Seq<usize>,
    after: Walk,
    state: EmitState,
    arm: usize,
    code: FragmentView,
)
    requires
        owed(env, node, depth, next_variable, blocks, walk),
        walked(env, node, walk.finished, terminal, start, order, after.finished),
        planned(env, start, blocks, order),
        after.discovered == after.finished,
        env.graph.nodes[start] is MatchBranching,
        order.len() > 0,
        order.last() as int == start,
        forall|j: int| 0 <= j < order.len() - 1 ==> state.blocks.contains_key(#[trigger] order[j]),
        forall|x: usize| #[trigger] blocks.contains_key(x) ==> state.blocks.contains_key(x),
        state.next_variable <= next_variable + order.len() - 1,
        arm == ok_arm(env, start) || arm == err_arm(env, start),
    ensures
        depth > 0,
        state.next_variable + 1 < usize::MAX,
        owed(
            env,
            arm as int,
            (depth - 1) as nat,
            state.next_variable + 2,
            state.blocks.insert(arm, code),
            after,
        ),
{
    let done = walk.finished;
    let count = env.graph.nodes.len();
    let nodes = as_ints(order);
    let held = state.blocks.insert(arm, code);
    lemma_finished_after(env, node, done, terminal, start, order, after.finished);
    assert(fit_for(env, start));
    lemma_arms(env, start);
    lemma_arm_of(env, start, arm as int);
    lemma_arm_of(env, start, ok_arm(env, start) as int);
    assert(!after.finished.contains(arm as int)) by {
        let against = env.graph.predecessor_lists();
        assert(fit_for(env, arm as int));
        assert(against[arm as int] == predecessors(env.graph.edges, arm as int));
        assert(against[arm as int][0] == start);
        lemma_fork_has_arms(env, start);
        assert(start != terminal);
        if done.contains(arm as int) {
            assert(done.contains(against[arm as int][0]));
        } else if after.finished.contains(arm as int) {
            assert(nodes.to_set().contains(arm as int));
            let k = choose|k: int| 0 <= k < nodes.len() && nodes[k] == arm as int;
            assert(order[k] == arm);
            lemma_handed_out_is_reached(
                env,
                node,
                done,
                terminal,
                start,
                order,
                after.finished,
                k,
            );
            assert(reaches(against, against[arm as int][0], arm as int));
        }
    }
    assert forall|x: usize|
        after.finished.contains(x as int) && !(env.graph.nodes[x as int]
            is MatchBranching) implies #[trigger] held.contains_key(x) by {
        if done.contains(x as int) {
            assert(blocks.contains_key(x));
        } else {
            assert(nodes.to_set().contains(x as int));
            let k = choose|k: int| 0 <= k < nodes.len() && nodes[k] == x as int;
            assert(order[k] == x);
            assert(k < order.len() - 1);
        }
    }
    assert forall|b: int|
        0 <= b < count && #[trigger] is_branch_node(env, b) && !after.finished.contains(b)
            && !held.contains_key(b as usize) && after.finished.contains(
            fork_of(env, b),
        ) implies is_branch_node(env, arm as int) && (is_err_branch(env, b) || is_err_branch(
            env,
            arm as int,
        )) by {
        if arm == ok_arm(env, start) {
            let fork = fork_of(env, b);
            assert(fit_for(env, b));
            if done.contains(fork) {
                assert(!blocks.contains_key(b as usize));
                lemma_no_fork_under_err(
                    env,
                    node,
                    depth,
                    next_variable,
                    blocks,
                    walk,
                    terminal,
                    start,
                    order,
                    after.finished,
                );
            } else {
                assert(nodes.to_set().contains(fork));
                let k = choose|k: int| 0 <= k < nodes.len() && nodes[k] == fork;
                assert(order[k] as int == fork);
                assert(fork == start);
                lemma_incoming_edges(env.graph.edges, b);
                let entry = incoming(env.graph.edges, b)[0];
                lemma_target_is_successor(env.graph.edges, entry.1);
                lemma_arm_of(env, start, b);
            }
        }
    }
}

/// After the walk from a fork, the `match` of the fork is owed.
pub proof fn lemma_match_is_owed(
    env: Env,
    node: int,
    depth: nat,
    next_variable: nat,
    blocks: Map<usize, FragmentView>,
    walk: Walk,
    terminal: int,
    start: int,
    order: Seq<usize>,
    after: Walk,
    state: EmitState,
)
    requires
        owed(env, node, depth, next_variable, blocks, walk),
        walked(env, node, walk.finished, terminal, start, order, after.finished),
        planned(env, start, blocks, order),
        after.discovered == after.finished,
        env.graph.nodes[start] is MatchBranching,
        order.len() > 0,
        order.last() as int == start,
        forall|j: int| 0 <= j < order.len() - 1 ==> state.blocks.contains_key(#[trigger] order[j]),
        forall|x: usize| #[trigger] blocks.contains_key(x) ==> state.blocks.contains_key(x),
        state.next_variable <= next_variable + order.len() - 1,
    ensures
        match_owed(env, depth, start as usize, state, after),
{
    let at = order.len() - 1;
    assert(fit_for(env, start));
    lemma_arms(env, start);
    lemma_arm_is_owed(
        env,
        node,
        depth,
        next_variable,
        blocks,
        walk,
        terminal,
        start,
        order,
        after,
        state,
        ok_arm(env, start),
        FragmentView::VariableReference(variable_name(state.next_variable)),
    );
    lemma_arm_is_owed(
        env,
        node,
        depth,
        next_variable,
        blocks,
        walk,
        terminal,
        start,
        order,
        after,
        state,
        err_arm(env, start),
        FragmentView::VariableReference(variable_name((state.next_variable + 1) as nat)),
    );
    let edges = env.graph.incoming_edges(start);
    assert(edges.len() == 1);
    let source = edges[0].source;
    assert(order[at] as int == start);
    assert(env.graph.nodes[source as int] is MatchBranching || blocks.contains_key(source)
        || order.take(at).contains(source)) by {
        assert(env.graph.incoming_edges(order[at] as int)[0].source == source);
    }
    assert(source as int == fork_of(env, start));
    if !blocks.contains_key(source) {
        let earlier = order.take(at);
        let j = choose|j: int| 0 <= j < earlier.len() && earlier[j] == source;
        assert(order[j] == source);
    }
}

/// Where code can be generated for a graph, a body is owed for its root
/// before anything is walked or generated, with as many forks nested as the
/// graph has nodes.
pub proof fn lemma_root_is_owed(env: Env, root: int, next_variable: nat, walk: Walk)
    requires
        generable(env, root, next_variable),
        walk.discovered == Set::<int>::empty(),
        walk.finished == Set::<int>::empty(),
    ensures
        owed(env, root, env.graph.nodes.len(), next_variable, Map::empty(), walk),
{
}

/// What an `Err` branch leads to handles the error alone: the one edge that
/// enters it comes from the branch, and it leads to nothing.
pub open spec fn errors_are_handled_alone(env: Env) -> bool {
    forall|e: int|
        0 <= e < env.graph.edges.len() && is_err_branch(env, (#[trigger] env.graph.edges[e]).0)
            ==> incoming(env.graph.edges, env.graph.edges[e].1).len() == 1 && successors(
            env.graph.edges,
            env.graph.edges[e].1,
        ).len() == 0
}

/// Where every error is handled alone, the `Err` branches are apart from the
/// other branches: an `Err` branch leads to itself and to what handles it, and
/// whatever else leads there leads to the branch.
pub proof fn lemma_handled_alone_is_apart(env: Env)
    requires
        edges_within(env.graph.edges, env.graph.nodes.len()),
        forall|n: int| 0 <= n < env.graph.nodes.len() ==> #[trigger] fit_for(env, n),
        errors_are_handled_alone(env),
    ensures
        branches_apart(env),
{
    let along = env.graph.successor_lists();
    let against = env.graph.predecessor_lists();
    let count = env.graph.nodes.len();
    assert forall|first: int, second: int, to: int|
        0 <= first < count && 0 <= second < count && first != second && is_err_branch(env, first)
            && is_branch_node(env, second) && #[trigger] reaches(along, first, to)
            && #[trigger] reaches(along, second, to) implies reaches(along, second, first) by {
        let way = choose|way: Seq<int>| leads(along, way, first, to);
        if way.len() > 1 {
            let handler = way[1];
            assert(0 <= way[0] < along.len() && along[way[0]].contains(way[1]));
            let k = choose|k: int| 0 <= k < along[first].len() && along[first][k] == handler;
            lemma_successor_is_target(env.graph.edges, first, k);
            let e = choose|e: int|
                0 <= e < env.graph.edges.len() && #[trigger] env.graph.edges[e] == (
                    first,
                    successors(env.graph.edges, first)[k],
                );
            assert(0 <= env.graph.edges[e].1 < count);
            assert(successors(env.graph.edges, handler).len() == 0);
            if way.len() > 2 {
                assert(0 <= way[1] < along.len() && along[way[1]].contains(way[2]));
            }
            assert(to == handler);
            lemma_edge_is_incoming(env.graph.edges, e);
            let entries = incoming(env.graph.edges, handler);
            let at = choose|at: int| 0 <= at < entries.len() && entries[at] == (first, e);
            assert(entries[0].0 == first);
            assert(second != handler) by {
                if second == handler {
                    assert(fit_for(env, second));
                    assert(fit_for(env, first));
                }
            }
            lemma_reaches_forth(env.graph.edges, count, second, handler);
            let back = choose|back: Seq<int>| leads(against, back, handler, second);
            let rest = back.drop_first();
            assert(0 <= back[0] < against.len() && against[back[0]].contains(back[1]));
            assert(against[handler] == predecessors(env.graph.edges, handler));
            let j = choose|j: int| 0 <= j < against[handler].len() && against[handler][j] == back[1];
            assert(back[1] == first);
            assert forall|m: int| 0 <= m < rest.len() - 1 implies 0 <= #[trigger] rest[m]
                < against.len() && against[rest[m]].contains(rest[m + 1]) by {
                assert(rest[m] == back[m + 1] && rest[m + 1] == back[m + 2]);
            }
            assert(leads(against, rest, first, second));
            lemma_reaches_back(env.graph.edges, count, first, second);
        }
    }
}

} // verus!

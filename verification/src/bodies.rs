//! What holds of the text of a body: where the statement stands that binds a
//! value, and that the `match` of a fork is on the variable that the result is
//! bound to.

use crate::call_graph::NumberOfAllowedInvocations;
use crate::codegen_utils::entered;
use crate::codegen_utils::let_syntax;
use crate::codegen_utils::statements;
use crate::codegen_utils::FragmentView;
use crate::emission::body_syntax;
use crate::emission::match_syntax;
use crate::emission::EmitState;
use crate::emission::err_arm;
use crate::emission::ok_arm;
use crate::call_graph::walk_after;
use crate::codegen_utils::CodegenError;
use crate::shape::Walk;
use crate::emission::Env;
use crate::laws::bound_nodes;
use crate::laws::invokes_callable;
use crate::laws::lemma_emit_node_binds;
use crate::laws::lemma_entered;
use crate::laws::lemma_generated_stays;
use crate::laws::lemma_single_is_bound;
use crate::laws::step;
use crate::text::terminated;
use crate::text::variable_name;
use vstd::prelude::*;

verus! {

/// `entries` binds `node` once, at the place `at`, by the statement
/// `let name = call;`.
pub open spec fn binds_once(
    entries: Seq<(usize, Seq<char>)>,
    node: usize,
    at: int,
    name: Seq<char>,
    call: Seq<char>,
) -> bool {
    &&& 0 <= at < entries.len()
    &&& entries[at] == (node, let_syntax(name, call))
    &&& forall|k: int| 0 <= k < entries.len() && k != at ==> (#[trigger] entries[k]).0 != node
}

/// A statement that is entered under another node leaves the statement of a
/// node where and as it is.
pub proof fn lemma_entered_beside(
    entries: Seq<(usize, Seq<char>)>,
    key: usize,
    value: Seq<char>,
    node: usize,
    at: int,
    name: Seq<char>,
    call: Seq<char>,
)
    requires
        binds_once(entries, node, at, name, call),
        key != node,
    ensures
        binds_once(entered(entries, key, value), node, at, name, call),
    decreases entries.len(),
{
    let after = entered(entries, key, value);
    if entries[0].0 == key {
        assert(after =~= seq![(key, value)] + entries.drop_first());
        assert forall|k: int| 0 <= k < after.len() && k != at implies (#[trigger] after[k]).0
            != node by {
            if k > 0 {
                assert(after[k] == entries[k]);
            }
        }
        assert(after[at] == entries[at]);
    } else {
        let rest = entries.drop_first();
        assert(after =~= seq![entries[0]] + entered(rest, key, value));
        if at == 0 {
            assert forall|k: int| 0 <= k < after.len() && k != at implies (#[trigger] after[k]).0
                != node by {
                lemma_entered_keys(rest, key, value, k - 1);
                if after[k].0 != key {
                    let j = choose|j: int| 0 <= j < rest.len() && rest[j].0 == after[k].0;
                    assert(entries[j + 1].0 == after[k].0);
                }
            }
        } else {
            assert(binds_once(rest, node, at - 1, name, call)) by {
                assert(rest[at - 1] == entries[at]);
                assert forall|k: int| 0 <= k < rest.len() && k != at - 1 implies (#[trigger] rest[k]).0
                    != node by {
                    assert(rest[k] == entries[k + 1]);
                }
            }
            lemma_entered_beside(rest, key, value, node, at - 1, name, call);
            let rest_after = entered(rest, key, value);
            assert(after[at] == rest_after[at - 1]);
            assert forall|k: int| 0 <= k < after.len() && k != at implies (#[trigger] after[k]).0
                != node by {
                if k > 0 {
                    assert(after[k] == rest_after[k - 1]);
                } else {
                    assert(after[0] == entries[0]);
                }
            }
        }
    }
}

/// Each entry after a statement was entered is under the key of that
/// statement or under a key that was there.
pub proof fn lemma_entered_keys(entries: Seq<(usize, Seq<char>)>, key: usize, value: Seq<char>, k: int)
    requires
        0 <= k < entered(entries, key, value).len(),
    ensures
        entered(entries, key, value)[k].0 == key || exists|j: int|
            0 <= j < entries.len() && (#[trigger] entries[j]).0 == entered(entries, key, value)[k].0,
    decreases entries.len(),
{
    let after = entered(entries, key, value);
    if entries.len() == 0 {
    } else if entries[0].0 == key {
        assert(after =~= seq![(key, value)] + entries.drop_first());
        if k > 0 {
            assert(after[k] == entries[k]);
        }
    } else {
        let rest = entries.drop_first();
        assert(after =~= seq![entries[0]] + entered(rest, key, value));
        if k == 0 {
            assert(after[0] == entries[0]);
        } else {
            lemma_entered_keys(rest, key, value, k - 1);
            assert(after[k] == entered(rest, key, value)[k - 1]);
            if after[k].0 != key {
                let j = choose|j: int| 0 <= j < rest.len() && (#[trigger] rest[j]).0 == after[k].0;
                assert(entries[j + 1].0 == after[k].0);
            }
        }
    }
}

/// A statement that is entered under a node that has none comes last, and is
/// the one statement of the node.
pub proof fn lemma_entered_last(
    entries: Seq<(usize, Seq<char>)>,
    node: usize,
    name: Seq<char>,
    call: Seq<char>,
)
    requires
        !bound_nodes(entries).contains(node),
    ensures
        binds_once(entered(entries, node, let_syntax(name, call)), node, entries.len() as int, name, call),
    decreases entries.len(),
{
    let value = let_syntax(name, call);
    let after = entered(entries, node, value);
    if entries.len() > 0 {
        let rest = entries.drop_first();
        assert(bound_nodes(entries)[0] == entries[0].0);
        assert(!bound_nodes(rest).contains(node)) by {
            if bound_nodes(rest).contains(node) {
                let k = choose|k: int| 0 <= k < bound_nodes(rest).len() && bound_nodes(rest)[k] == node;
                assert(bound_nodes(entries)[k + 1] == node);
            }
        }
        lemma_entered_last(rest, node, name, call);
        let rest_after = entered(rest, node, value);
        assert(after =~= seq![entries[0]] + rest_after);
        assert(after[entries.len() as int] == rest_after[rest.len() as int]);
        assert forall|k: int| 0 <= k < after.len() && k != entries.len() implies (#[trigger] after[k]).0
            != node by {
            if k > 0 {
                assert(after[k] == rest_after[k - 1]);
            }
        }
    }
}

/// A step for another node leaves the statement of a node where and as it
/// is, and binds no node that is not its own.
pub proof fn lemma_step_beside(
    env: Env,
    depth: nat,
    start: usize,
    current: usize,
    state: EmitState,
    discovered: Set<int>,
    finished: Set<int>,
    node: usize,
)
    requires
        current != node,
    ensures
        step(env, depth, start, current, state, discovered, finished) matches Ok(after) ==> {
            &&& forall|at: int, name: Seq<char>, call: Seq<char>| #[trigger]
                binds_once(state.bindings, node, at, name, call) ==> binds_once(
                    after.bindings,
                    node,
                    at,
                    name,
                    call,
                )
            &&& !bound_nodes(state.bindings).contains(node) ==> !bound_nodes(after.bindings).contains(
                node,
            )
        },
{
    if let Ok(after) = step(env, depth, start, current, state, discovered, finished) {
        if !(env.graph.nodes[current as int] is MatchBranching) {
            lemma_emit_node_binds(env, start, current, state);
            if after.bindings != state.bindings {
                let statement = choose|statement: Seq<char>|
                    after.bindings == entered(state.bindings, current, statement);
                assert forall|at: int, name: Seq<char>, call: Seq<char>| #[trigger]
                    binds_once(state.bindings, node, at, name, call) implies binds_once(
                    after.bindings,
                    node,
                    at,
                    name,
                    call,
                ) by {
                    lemma_entered_beside(state.bindings, current, statement, node, at, name, call);
                }
                if bound_nodes(after.bindings).contains(node) {
                    let k = choose|k: int|
                        0 <= k < bound_nodes(after.bindings).len() && bound_nodes(after.bindings)[k]
                            == node;
                    lemma_entered_keys(state.bindings, current, statement, k);
                    let j = choose|j: int|
                        0 <= j < state.bindings.len() && (#[trigger] state.bindings[j]).0
                            == after.bindings[k].0;
                    assert(bound_nodes(state.bindings)[j] == node);
                }
            }
        }
    }
}

/// While code is generated for other nodes, the statement of a node stays
/// where and as it is.
pub proof fn lemma_statement_stays(
    env: Env,
    depth: nat,
    start: usize,
    order: Seq<usize>,
    state: EmitState,
    discovered: Set<int>,
    finished: Set<int>,
    node: usize,
    at: int,
    name: Seq<char>,
    call: Seq<char>,
)
    requires
        !order.contains(node),
        binds_once(state.bindings, node, at, name, call),
    ensures
        env.emit_order(depth, start, order, state, discovered, finished) matches Ok(after)
            ==> binds_once(after.bindings, node, at, name, call),
    decreases order.len(),
{
    if order.len() > 0 {
        let current = order[0];
        assert(order.contains(current));
        lemma_step_beside(env, depth, start, current, state, discovered, finished, node);
        if let Ok(next) = step(env, depth, start, current, state, discovered, finished) {
            let rest = order.drop_first();
            if rest.contains(node) {
                let k = choose|k: int| 0 <= k < rest.len() && rest[k] == node;
                assert(order[k + 1] == node);
            }
            lemma_statement_stays(
                env,
                depth,
                start,
                rest,
                next,
                discovered,
                finished,
                node,
                at,
                name,
                call,
            );
        }
    }
}

/// What a walk that hands out no node twice has made of a node that may be
/// invoked once only and that it did not start from: one statement binds the
/// node, to the variable that stands for it.
pub open spec fn bound_to_variable(after: EmitState, node: usize) -> bool {
    exists|at: int, number: nat, call: Seq<char>|
        #![trigger binds_once(after.bindings, node, at, variable_name(number), call)]
        binds_once(after.bindings, node, at, variable_name(number), call)
            && after.blocks.contains_key(node) && after.blocks[node]
            == FragmentView::VariableReference(variable_name(number))
}

/// Over a whole walk that hands out no node twice, a node that may be invoked
/// once only, and that the walk did not start from, is bound by one statement
/// to the variable that stands for it ever after.
pub proof fn lemma_bound_to_variable(
    env: Env,
    depth: nat,
    start: usize,
    order: Seq<usize>,
    state: EmitState,
    discovered: Set<int>,
    finished: Set<int>,
    i: int,
)
    requires
        order.no_duplicates(),
        0 <= i < order.len(),
        invokes_callable(env, order[i], NumberOfAllowedInvocations::Single),
        order[i] != start,
        !bound_nodes(state.bindings).contains(order[i]),
    ensures
        env.emit_order(depth, start, order, state, discovered, finished) matches Ok(after)
            ==> bound_to_variable(after, order[i]),
    decreases order.len(),
{
    let node = order[i];
    let current = order[0];
    let rest = order.drop_first();
    if let Ok(after) = env.emit_order(depth, start, order, state, discovered, finished) {
        let next = step(env, depth, start, current, state, discovered, finished)->Ok_0;
        assert(rest.no_duplicates()) by {
            assert forall|a: int, b: int| 0 <= a < rest.len() && 0 <= b < rest.len() && a != b implies rest[a]
                != rest[b] by {
                assert(rest[a] == order[a + 1] && rest[b] == order[b + 1]);
            }
        }
        if i == 0 {
            lemma_single_is_bound(env, start, node, state);
            let call = choose|call: Seq<char>|
                next.bindings == entered(
                    state.bindings,
                    node,
                    let_syntax(variable_name(state.next_variable), call),
                );
            lemma_entered_last(state.bindings, node, variable_name(state.next_variable), call);
            assert(!rest.contains(node)) by {
                if rest.contains(node) {
                    let k = choose|k: int| 0 <= k < rest.len() && rest[k] == node;
                    assert(order[k + 1] == node);
                }
            }
            lemma_statement_stays(
                env,
                depth,
                start,
                rest,
                next,
                discovered,
                finished,
                node,
                state.bindings.len() as int,
                variable_name(state.next_variable),
                call,
            );
            lemma_generated_stays(env, depth, start, rest, next, discovered, finished, node);
            assert(binds_once(
                after.bindings,
                node,
                state.bindings.len() as int,
                variable_name(state.next_variable),
                call,
            ));
        } else {
            lemma_step_beside(env, depth, start, current, state, discovered, finished, node);
            assert(rest[i - 1] == node);
            lemma_bound_to_variable(env, depth, start, rest, next, discovered, finished, i - 1);
        }
    }
}

/// `parts` one after the other are terminated as each of them is.
pub proof fn lemma_terminated_parts(first: Seq<Seq<char>>, second: Seq<Seq<char>>, end: Seq<char>)
    ensures
        terminated(first + second, end) == terminated(first, end) + terminated(second, end),
    decreases second.len(),
{
    if second.len() == 0 {
        assert(first + second =~= first);
        assert(terminated(first, end) + Seq::<char>::empty() =~= terminated(first, end));
    } else {
        let all = first + second;
        assert(all.drop_last() =~= first + second.drop_last());
        assert(all.last() == second.last());
        lemma_terminated_parts(first, second.drop_last(), end);
        assert(terminated(first, end) + terminated(second.drop_last(), end) + second.last() + end
            =~= terminated(first, end) + (terminated(second.drop_last(), end) + second.last() + end));
    }
}

/// The text of a body whose statements bind a node once: the statements
/// before that of the node, `let name = call; `, the statements after it, and
/// what the body ends in.
pub proof fn lemma_body_with_statement(
    entries: Seq<(usize, Seq<char>)>,
    last: FragmentView,
    node: usize,
    at: int,
    name: Seq<char>,
    call: Seq<char>,
)
    requires
        binds_once(entries, node, at, name, call),
    ensures
        body_syntax(entries, last) == terminated(statements(entries.take(at)), " "@) + let_syntax(
            name,
            call,
        ) + " "@ + terminated(statements(entries.skip(at + 1)), " "@) + last.tail(),
{
    let all = statements(entries);
    let before = statements(entries.take(at));
    let one = seq![let_syntax(name, call)];
    let behind = statements(entries.skip(at + 1));
    assert(all =~= (before + one) + behind);
    lemma_terminated_parts(before + one, behind, " "@);
    lemma_terminated_parts(before, one, " "@);
    assert(one.drop_last() =~= Seq::<Seq<char>>::empty());
    assert(terminated(one, " "@) =~= let_syntax(name, call) + " "@) by {
        assert(terminated(one.drop_last(), " "@) =~= Seq::<char>::empty());
    }
    assert(terminated(before, " "@) + (let_syntax(name, call) + " "@) =~= terminated(before, " "@)
        + let_syntax(name, call) + " "@);
}

/// Code that is generated for nodes one after the other is generated for the
/// first of them and then, from there, for the rest.
pub proof fn lemma_emit_order_parts(
    env: Env,
    depth: nat,
    start: usize,
    first: Seq<usize>,
    second: Seq<usize>,
    state: EmitState,
    discovered: Set<int>,
    finished: Set<int>,
)
    ensures
        env.emit_order(depth, start, first + second, state, discovered, finished)
            == match env.emit_order(depth, start, first, state, discovered, finished) {
            Ok(between) => env.emit_order(depth, start, second, between, discovered, finished),
            Err(e) => Err(e),
        },
    decreases first.len(),
{
    if first.len() == 0 {
        assert(first + second =~= second);
    } else {
        let all = first + second;
        assert(all[0] == first[0]);
        assert(all.drop_first() =~= first.drop_first() + second);
        if let Ok(next) = step(env, depth, start, first[0], state, discovered, finished) {
            lemma_emit_order_parts(
                env,
                depth,
                start,
                first.drop_first(),
                second,
                next,
                discovered,
                finished,
            );
        }
    }
}

/// The text `text` holds, among the statements that come before what it ends
/// in, one statement that binds `node`: `let name = call;`, where `name` is
/// the variable that stands for `node` in `after`. No other of its statements
/// is entered under `node`.
pub open spec fn holds_the_let_of(text: Seq<char>, after: EmitState, last: FragmentView, node: usize) -> bool {
    exists|at: int, number: nat, call: Seq<char>|
        #![trigger binds_once(after.bindings, node, at, variable_name(number), call)]
        binds_once(after.bindings, node, at, variable_name(number), call)
            && after.blocks.contains_key(node) && after.blocks[node]
            == FragmentView::VariableReference(variable_name(number)) && text == terminated(
            statements(after.bindings.take(at)),
            " "@,
        ) + let_syntax(variable_name(number), call) + " "@ + terminated(
            statements(after.bindings.skip(at + 1)),
            " "@,
        ) + last.tail()
}

/// In the body that is generated from a walk that hands out no node twice, a
/// node that may be invoked once only, and that the walk did not start from,
/// is bound by one `let`, which stands before what the body ends in; whoever
/// takes its value takes the variable of that `let`.
pub proof fn lemma_body_binds_once(
    env: Env,
    depth: nat,
    node: int,
    next_variable: nat,
    blocks: Map<usize, FragmentView>,
    discovered: Set<int>,
    finished: Set<int>,
    i: int,
)
    requires
        env.body_order(node, discovered, finished).no_duplicates(),
        0 <= i < env.body_order(node, discovered, finished).len(),
        invokes_callable(
            env,
            env.body_order(node, discovered, finished)[i],
            NumberOfAllowedInvocations::Single,
        ),
        env.body_order(node, discovered, finished)[i] != env.body_start(node, finished) as usize,
    ensures
        env.body_text(depth, node, next_variable, blocks, discovered, finished) matches Ok(text)
            ==> exists|after: EmitState, last: FragmentView| #[trigger]
            holds_the_let_of(text, after, last, env.body_order(node, discovered, finished)[i]),
{
    if let Ok(text) = env.body_text(depth, node, next_variable, blocks, discovered, finished) {
        let start = env.body_start(node, finished) as usize;
        let order = env.body_order(node, discovered, finished);
        let walk = Walk { stack: seq![env.body_start(node, finished)], discovered, finished };
        let count = env.graph.nodes.len();
        let ended = walk_after(env.graph.predecessor_lists(), walk, count);
        let state = EmitState { next_variable, bindings: Seq::empty(), blocks };
        assert(bound_nodes(state.bindings) =~= Seq::<usize>::empty());
        lemma_bound_to_variable(
            env,
            depth,
            start,
            order,
            state,
            ended.discovered,
            ended.finished,
            i,
        );
        let after = env.emit_order(depth, start, order, state, ended.discovered, ended.finished)->Ok_0;
        let last = after.blocks[start];
        let (at, number, call) = choose|at: int, number: nat, call: Seq<char>|
            #![trigger binds_once(after.bindings, order[i], at, variable_name(number), call)]
            binds_once(after.bindings, order[i], at, variable_name(number), call)
                && after.blocks.contains_key(order[i]) && after.blocks[order[i]]
                == FragmentView::VariableReference(variable_name(number));
        lemma_body_with_statement(after.bindings, last, order[i], at, variable_name(number), call);
        assert(holds_the_let_of(text, after, last, order[i]));
    }
}

/// `text` is `before`, the statement that binds the variable with the number
/// `number` to `call`, `between`, and a `match` on that variable.
pub open spec fn is_let_then_match(
    text: Seq<char>,
    before: Seq<char>,
    number: nat,
    call: Seq<char>,
    between: Seq<char>,
    ok_name: Seq<char>,
    ok_body: Seq<char>,
    err_name: Seq<char>,
    err_body: Seq<char>,
) -> bool {
    text == before + let_syntax(variable_name(number), call) + " "@ + between + match_syntax(
        variable_name(number),
        ok_name,
        ok_body,
        err_name,
        err_body,
    )
}

/// In the body that is generated from a walk that hands out no node twice and
/// ends in the fork that it started from, the `match` of the fork is on the
/// variable that the result is bound to, and the `let` that binds it stands
/// before the `match`: the node that leads to the fork may be invoked once
/// only and is one of the nodes of the walk.
pub proof fn lemma_match_follows_the_let(
    env: Env,
    depth: nat,
    node: int,
    next_variable: nat,
    blocks: Map<usize, FragmentView>,
    discovered: Set<int>,
    finished: Set<int>,
    i: int,
)
    requires
        env.body_order(node, discovered, finished).no_duplicates(),
        env.body_order(node, discovered, finished).len() > 0,
        env.body_order(node, discovered, finished).last() == env.body_start(node, finished) as usize,
        env.graph.nodes[env.body_start(node, finished) as usize as int] is MatchBranching,
        env.graph.incoming_edges(env.body_start(node, finished) as usize as int).len() > 0,
        0 <= i < env.body_order(node, discovered, finished).len() - 1,
        env.body_order(node, discovered, finished)[i] == env.graph.incoming_edges(
            env.body_start(node, finished) as usize as int,
        )[0].source,
        invokes_callable(
            env,
            env.body_order(node, discovered, finished)[i],
            NumberOfAllowedInvocations::Single,
        ),
    ensures
        env.body_text(depth, node, next_variable, blocks, discovered, finished) matches Ok(text)
            ==> exists|
            before: Seq<char>,
            number: nat,
            call: Seq<char>,
            between: Seq<char>,
            ok_name: Seq<char>,
            ok_body: Seq<char>,
            err_name: Seq<char>,
            err_body: Seq<char>,
        |
            #[trigger] is_let_then_match(
                text,
                before,
                number,
                call,
                between,
                ok_name,
                ok_body,
                err_name,
                err_body,
            ),
{
    if let Ok(text) = env.body_text(depth, node, next_variable, blocks, discovered, finished) {
        let start = env.body_start(node, finished) as usize;
        let order = env.body_order(node, discovered, finished);
        let walk = Walk { stack: seq![env.body_start(node, finished)], discovered, finished };
        let count = env.graph.nodes.len();
        let ended = walk_after(env.graph.predecessor_lists(), walk, count);
        let state = EmitState { next_variable, bindings: Seq::empty(), blocks };
        let first = order.drop_last();
        let source = order[i];
        assert(order =~= first + seq![start]);
        assert(bound_nodes(state.bindings) =~= Seq::<usize>::empty());
        lemma_emit_order_parts(
            env,
            depth,
            start,
            first,
            seq![start],
            state,
            ended.discovered,
            ended.finished,
        );
        let between = env.emit_order(depth, start, first, state, ended.discovered, ended.finished)->Ok_0;
        assert(first.no_duplicates()) by {
            assert forall|a: int, b: int|
                0 <= a < first.len() && 0 <= b < first.len() && a != b implies first[a]
                != first[b] by {
                assert(first[a] == order[a] && first[b] == order[b]);
            }
        }
        assert(first[i] == source);
        assert(source != start);
        lemma_bound_to_variable(
            env,
            depth,
            start,
            first,
            state,
            ended.discovered,
            ended.finished,
            i,
        );
        let (at, number, call) = choose|at: int, number: nat, call: Seq<char>|
            #![trigger binds_once(between.bindings, source, at, variable_name(number), call)]
            binds_once(between.bindings, source, at, variable_name(number), call)
                && between.blocks.contains_key(source) && between.blocks[source]
                == FragmentView::VariableReference(variable_name(number));
        let one = seq![start];
        assert(one.drop_first() =~= Seq::<usize>::empty());
        let matched = env.emit_match(depth, start, between, ended.discovered, ended.finished);
        assert(env.emit_order(depth, start, one, between, ended.discovered, ended.finished)
            == matched) by {
            if let Ok(next) = matched {
                assert(env.emit_order(
                    depth,
                    start,
                    one.drop_first(),
                    next,
                    ended.discovered,
                    ended.finished,
                ) == Ok::<EmitState, CodegenError>(next));
            }
        }
        let after = matched->Ok_0;
        let last = after.blocks[start];
        lemma_body_with_statement(after.bindings, last, source, at, variable_name(number), call);
        let ok_name = variable_name(between.next_variable);
        let err_name = variable_name(between.next_variable + 1);
        let ok_body = env.body_text(
            (depth - 1) as nat,
            ok_arm(env, start as int) as int,
            between.next_variable + 2,
            between.blocks.insert(
                ok_arm(env, start as int),
                FragmentView::VariableReference(ok_name),
            ),
            ended.discovered,
            ended.finished,
        )->Ok_0;
        let err_body = env.body_text(
            (depth - 1) as nat,
            err_arm(env, start as int) as int,
            between.next_variable + 2,
            between.blocks.insert(
                err_arm(env, start as int),
                FragmentView::VariableReference(err_name),
            ),
            ended.discovered,
            ended.finished,
        )->Ok_0;
        assert(last.tail() == match_syntax(variable_name(number), ok_name, ok_body, err_name, err_body));
        assert(is_let_then_match(
            text,
            terminated(statements(after.bindings.take(at)), " "@),
            number,
            call,
            terminated(statements(after.bindings.skip(at + 1)), " "@),
            ok_name,
            ok_body,
            err_name,
            err_body,
        ));
    }
}

/// Every statement of `entries` is entered under a node of `nodes` or under a
/// node that `before` has a statement for.
pub open spec fn entered_under(
    entries: Seq<(usize, Seq<char>)>,
    nodes: Seq<usize>,
    before: Seq<(usize, Seq<char>)>,
) -> bool {
    forall|k: int|
        0 <= k < entries.len() ==> nodes.contains((#[trigger] entries[k]).0) || bound_nodes(
            before,
        ).contains(entries[k].0)
}

/// The statements that a walk enters are entered under its nodes: whatever
/// else has a statement afterwards had one before.
pub proof fn lemma_statements_are_of_the_walk(
    env: Env,
    depth: nat,
    start: usize,
    order: Seq<usize>,
    state: EmitState,
    discovered: Set<int>,
    finished: Set<int>,
)
    ensures
        env.emit_order(depth, start, order, state, discovered, finished) matches Ok(after)
            ==> entered_under(after.bindings, order, state.bindings),
    decreases order.len(),
{
    if let Ok(after) = env.emit_order(depth, start, order, state, discovered, finished) {
        if order.len() == 0 {
            assert forall|k: int| 0 <= k < after.bindings.len() implies bound_nodes(
                state.bindings,
            ).contains((#[trigger] after.bindings[k]).0) by {
                assert(bound_nodes(state.bindings)[k] == state.bindings[k].0);
            }
        } else {
            let current = order[0];
            let rest = order.drop_first();
            let next = step(env, depth, start, current, state, discovered, finished)->Ok_0;
            lemma_statements_are_of_the_walk(env, depth, start, rest, next, discovered, finished);
            assert forall|k: int| 0 <= k < after.bindings.len() implies order.contains(
                (#[trigger] after.bindings[k]).0,
            ) || bound_nodes(state.bindings).contains(after.bindings[k].0) by {
                let under = after.bindings[k].0;
                if rest.contains(under) {
                    let j = choose|j: int| 0 <= j < rest.len() && rest[j] == under;
                    assert(order[j + 1] == under);
                } else {
                    assert(bound_nodes(next.bindings).contains(under));
                    if under != current {
                        lemma_step_beside(
                            env,
                            depth,
                            start,
                            current,
                            state,
                            discovered,
                            finished,
                            under,
                        );
                    } else {
                        assert(order[0] == under);
                    }
                }
            }
        }
    }
}

/// The text of a body is made of statements that are entered under nodes of
/// its walk, and of what the body ends in: a body binds nothing that its walk
/// does not hand out, so that an arm binds nothing that was bound before its
/// fork.
pub proof fn lemma_body_binds_its_walk(
    env: Env,
    depth: nat,
    node: int,
    next_variable: nat,
    blocks: Map<usize, FragmentView>,
    discovered: Set<int>,
    finished: Set<int>,
)
    ensures
        env.body_text(depth, node, next_variable, blocks, discovered, finished) matches Ok(text)
            ==> exists|entries: Seq<(usize, Seq<char>)>, last: FragmentView|
            text == #[trigger] body_syntax(entries, last) && entered_under(
                entries,
                env.body_order(node, discovered, finished),
                Seq::empty(),
            ),
{
    if let Ok(text) = env.body_text(depth, node, next_variable, blocks, discovered, finished) {
        let start = env.body_start(node, finished) as usize;
        let order = env.body_order(node, discovered, finished);
        let walk = Walk { stack: seq![env.body_start(node, finished)], discovered, finished };
        let ended = walk_after(env.graph.predecessor_lists(), walk, env.graph.nodes.len());
        let state = EmitState { next_variable, bindings: Seq::empty(), blocks };
        lemma_statements_are_of_the_walk(
            env,
            depth,
            start,
            order,
            state,
            ended.discovered,
            ended.finished,
        );
        let after = env.emit_order(depth, start, order, state, ended.discovered, ended.finished)->Ok_0;
        assert(text == body_syntax(after.bindings, after.blocks[start]));
    }
}

/// A step drops no statement.
pub proof fn lemma_step_keeps_statements(
    env: Env,
    depth: nat,
    start: usize,
    current: usize,
    state: EmitState,
    discovered: Set<int>,
    finished: Set<int>,
)
    ensures
        step(env, depth, start, current, state, discovered, finished) matches Ok(after)
            ==> after.bindings.len() >= state.bindings.len(),
{
    if let Ok(after) = step(env, depth, start, current, state, discovered, finished) {
        if !(env.graph.nodes[current as int] is MatchBranching) {
            lemma_emit_node_binds(env, start, current, state);
            if after.bindings != state.bindings {
                let statement = choose|statement: Seq<char>|
                    after.bindings == entered(state.bindings, current, statement);
                lemma_entered(state.bindings, current, statement);
                assert(bound_nodes(after.bindings).len() == after.bindings.len());
                assert(bound_nodes(state.bindings).len() == state.bindings.len());
            }
        }
    }
}

/// `entries` holds the statement of `node` at the place `at`, and none before
/// the place `from`.
pub open spec fn stands_at(entries: Seq<(usize, Seq<char>)>, node: usize, at: int, from: int) -> bool {
    &&& from <= at < entries.len()
    &&& entries[at].0 == node
    &&& forall|k: int| 0 <= k < entries.len() && k != at ==> (#[trigger] entries[k]).0 != node
}

/// The statement of a node that a walk binds stands behind the statements
/// that were there when the walk began.
pub proof fn lemma_bound_behind(
    env: Env,
    depth: nat,
    start: usize,
    order: Seq<usize>,
    state: EmitState,
    discovered: Set<int>,
    finished: Set<int>,
    i: int,
)
    requires
        order.no_duplicates(),
        0 <= i < order.len(),
        invokes_callable(env, order[i], NumberOfAllowedInvocations::Single),
        order[i] != start,
        !bound_nodes(state.bindings).contains(order[i]),
    ensures
        env.emit_order(depth, start, order, state, discovered, finished) matches Ok(after)
            ==> exists|at: int| #[trigger]
            stands_at(after.bindings, order[i], at, state.bindings.len() as int),
    decreases order.len(),
{
    let node = order[i];
    let current = order[0];
    let rest = order.drop_first();
    if let Ok(after) = env.emit_order(depth, start, order, state, discovered, finished) {
        let next = step(env, depth, start, current, state, discovered, finished)->Ok_0;
        assert(rest.no_duplicates()) by {
            assert forall|a: int, b: int| 0 <= a < rest.len() && 0 <= b < rest.len() && a != b implies rest[a]
                != rest[b] by {
                assert(rest[a] == order[a + 1] && rest[b] == order[b + 1]);
            }
        }
        lemma_step_keeps_statements(env, depth, start, current, state, discovered, finished);
        if i == 0 {
            lemma_single_is_bound(env, start, node, state);
            let call = choose|call: Seq<char>|
                next.bindings == entered(
                    state.bindings,
                    node,
                    let_syntax(variable_name(state.next_variable), call),
                );
            lemma_entered_last(state.bindings, node, variable_name(state.next_variable), call);
            assert(!rest.contains(node)) by {
                if rest.contains(node) {
                    let k = choose|k: int| 0 <= k < rest.len() && rest[k] == node;
                    assert(order[k + 1] == node);
                }
            }
            lemma_statement_stays(
                env,
                depth,
                start,
                rest,
                next,
                discovered,
                finished,
                node,
                state.bindings.len() as int,
                variable_name(state.next_variable),
                call,
            );
            assert(stands_at(after.bindings, node, state.bindings.len() as int, state.bindings.len() as int));
        } else {
            lemma_step_beside(env, depth, start, current, state, discovered, finished, node);
            assert(rest[i - 1] == node);
            lemma_bound_behind(env, depth, start, rest, next, discovered, finished, i - 1);
            let at = choose|at: int| #[trigger]
                stands_at(after.bindings, node, at, next.bindings.len() as int);
            assert(stands_at(after.bindings, node, at, state.bindings.len() as int));
        }
    }
}

/// The statements of a body stand in the order of its walk: of two nodes that
/// the walk binds, the one that it hands out first has its statement first.
/// Where the walk hands out each node after the nodes that lead to it, a value
/// is bound before whatever takes it.
pub proof fn lemma_statements_follow_the_walk(
    env: Env,
    depth: nat,
    start: usize,
    order: Seq<usize>,
    state: EmitState,
    discovered: Set<int>,
    finished: Set<int>,
    i: int,
    j: int,
)
    requires
        order.no_duplicates(),
        0 <= i < j < order.len(),
        invokes_callable(env, order[i], NumberOfAllowedInvocations::Single),
        invokes_callable(env, order[j], NumberOfAllowedInvocations::Single),
        order[i] != start,
        order[j] != start,
        !bound_nodes(state.bindings).contains(order[i]),
        !bound_nodes(state.bindings).contains(order[j]),
    ensures
        env.emit_order(depth, start, order, state, discovered, finished) matches Ok(after)
            ==> exists|first: int, second: int|
            0 <= first < second < after.bindings.len() && (#[trigger] after.bindings[first]).0
                == order[i] && (#[trigger] after.bindings[second]).0 == order[j],
    decreases order.len(),
{
    let current = order[0];
    let rest = order.drop_first();
    if let Ok(after) = env.emit_order(depth, start, order, state, discovered, finished) {
        let next = step(env, depth, start, current, state, discovered, finished)->Ok_0;
        assert(rest.no_duplicates()) by {
            assert forall|a: int, b: int| 0 <= a < rest.len() && 0 <= b < rest.len() && a != b implies rest[a]
                != rest[b] by {
                assert(rest[a] == order[a + 1] && rest[b] == order[b + 1]);
            }
        }
        assert(rest[j - 1] == order[j]);
        lemma_step_beside(env, depth, start, current, state, discovered, finished, order[j]);
        if i == 0 {
            let node = order[0];
            lemma_single_is_bound(env, start, node, state);
            let call = choose|call: Seq<char>|
                next.bindings == entered(
                    state.bindings,
                    node,
                    let_syntax(variable_name(state.next_variable), call),
                );
            lemma_entered_last(state.bindings, node, variable_name(state.next_variable), call);
            assert(!rest.contains(node)) by {
                if rest.contains(node) {
                    let k = choose|k: int| 0 <= k < rest.len() && rest[k] == node;
                    assert(order[k + 1] == node);
                }
            }
            lemma_statement_stays(
                env,
                depth,
                start,
                rest,
                next,
                discovered,
                finished,
                node,
                state.bindings.len() as int,
                variable_name(state.next_variable),
                call,
            );
            lemma_bound_behind(env, depth, start, rest, next, discovered, finished, j - 1);
            let second = choose|at: int| #[trigger]
                stands_at(after.bindings, order[j], at, next.bindings.len() as int);
            let first = state.bindings.len() as int;
            assert(bound_nodes(next.bindings).len() == next.bindings.len());
            assert(next.bindings.len() > first);
            assert(after.bindings[first].0 == order[i] && after.bindings[second].0 == order[j]);
        } else {
            assert(rest[i - 1] == order[i]);
            lemma_step_beside(env, depth, start, current, state, discovered, finished, order[i]);
            lemma_statements_follow_the_walk(
                env,
                depth,
                start,
                rest,
                next,
                discovered,
                finished,
                i - 1,
                j - 1,
            );
        }
    }
}

} // verus!

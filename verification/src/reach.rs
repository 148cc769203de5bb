//! What holds of the nodes that are reached over the edges of a graph, and of
//! the order in which a walk hands them out.

use crate::call_graph::in_post_order;
use crate::call_graph::lemma_incoming_within;
use crate::call_graph::lemma_reaches_on;
use crate::laws::lemma_edge_is_incoming;
use crate::laws::lemma_incoming_edges;
use crate::laws::lemma_successor_is_target;
use crate::laws::lemma_target_is_successor;
use crate::shape::edges_within;
use crate::shape::incoming;
use crate::shape::leads;
use crate::shape::predecessor_lists;
use crate::shape::predecessors;
use crate::shape::reaches;
use crate::shape::successor_lists;
use crate::shape::successors;
use vstd::prelude::*;

verus! {

/// `kept` holds the neighbours of each of its nodes.
pub open spec fn closed_under(neighbors: Seq<Seq<int>>, kept: Set<int>) -> bool {
    forall|n: int, k: int|
        0 <= n < neighbors.len() && kept.contains(n) && 0 <= k < neighbors[n].len()
            ==> kept.contains(#[trigger] neighbors[n][k])
}

/// A set that holds the neighbours of its nodes holds whatever its nodes
/// lead to.
pub proof fn lemma_closed_holds_what_is_reached(
    neighbors: Seq<Seq<int>>,
    kept: Set<int>,
    walk: Seq<int>,
    from: int,
    to: int,
)
    requires
        closed_under(neighbors, kept),
        leads(neighbors, walk, from, to),
        kept.contains(from),
    ensures
        kept.contains(to),
    decreases walk.len(),
{
    if walk.len() > 1 {
        let rest = walk.drop_first();
        assert(0 <= walk[0] < neighbors.len() && neighbors[walk[0]].contains(walk[1]));
        let k = choose|k: int| 0 <= k < neighbors[from].len() && neighbors[from][k] == walk[1];
        assert(kept.contains(neighbors[from][k]));
        assert forall|i: int| 0 <= i < rest.len() - 1 implies 0 <= #[trigger] rest[i]
            < neighbors.len() && neighbors[rest[i]].contains(rest[i + 1]) by {
            assert(rest[i] == walk[i + 1] && rest[i + 1] == walk[i + 2]);
        }
        assert(leads(neighbors, rest, walk[1], to));
        lemma_closed_holds_what_is_reached(neighbors, kept, rest, walk[1], to);
    }
}

/// In a walk that hands out each node after its neighbours, whatever a node
/// leads to was finished before or is handed out no later than the node:
/// `finished` holds the neighbours of its nodes.
pub proof fn lemma_comes_before(
    neighbors: Seq<Seq<int>>,
    finished: Set<int>,
    order: Seq<int>,
    i: int,
    walk: Seq<int>,
    to: int,
)
    requires
        closed_under(neighbors, finished),
        in_post_order(neighbors, finished, order),
        0 <= i < order.len(),
        leads(neighbors, walk, order[i], to),
    ensures
        finished.contains(to) || order.take(i + 1).contains(to),
    decreases walk.len(),
{
    if walk.len() == 1 {
        assert(order.take(i + 1)[i] == to);
    } else {
        let rest = walk.drop_first();
        assert(0 <= walk[0] < neighbors.len() && neighbors[walk[0]].contains(walk[1]));
        let k = choose|k: int|
            0 <= k < neighbors[order[i]].len() && neighbors[order[i]][k] == walk[1];
        assert(finished.contains(neighbors[order[i]][k]) || order.take(i).contains(
            neighbors[order[i]][k],
        ));
        assert forall|j: int| 0 <= j < rest.len() - 1 implies 0 <= #[trigger] rest[j]
            < neighbors.len() && neighbors[rest[j]].contains(rest[j + 1]) by {
            assert(rest[j] == walk[j + 1] && rest[j + 1] == walk[j + 2]);
        }
        assert(leads(neighbors, rest, walk[1], to));
        if finished.contains(walk[1]) {
            lemma_closed_holds_what_is_reached(neighbors, finished, rest, walk[1], to);
        } else {
            let earlier = order.take(i);
            let j = choose|j: int| 0 <= j < earlier.len() && earlier[j] == walk[1];
            assert(order[j] == walk[1]);
            lemma_comes_before(neighbors, finished, order, j, rest, to);
            if !finished.contains(to) {
                let found = order.take(j + 1);
                let m = choose|m: int| 0 <= m < found.len() && found[m] == to;
                assert(order.take(i + 1)[m] == to);
            }
        }
    }
}

/// What a node leads to against the edges leads to the node along them.
pub proof fn lemma_leads_back(edges: Seq<(int, int)>, count: nat, walk: Seq<int>, from: int, to: int)
    requires
        edges_within(edges, count),
        leads(predecessor_lists(edges, count), walk, from, to),
    ensures
        reaches(successor_lists(edges, count), to, from),
    decreases walk.len(),
{
    let against = predecessor_lists(edges, count);
    let along = successor_lists(edges, count);
    if walk.len() == 1 {
        assert(leads(along, seq![from], from, from));
    } else {
        let rest = walk.drop_first();
        let next = walk[1];
        assert(0 <= walk[0] < against.len() && against[walk[0]].contains(walk[1]));
        let k = choose|k: int| 0 <= k < against[from].len() && against[from][k] == next;
        lemma_incoming_edges(edges, from);
        lemma_incoming_within(edges, count, from);
        let entry = incoming(edges, from)[k];
        assert(predecessors(edges, from)[k] == entry.0);
        assert(edges[entry.1] == (next, from));
        lemma_target_is_successor(edges, entry.1);
        assert(along[next] == successors(edges, next));
        assert(leads(along, seq![next, from], next, from));
        assert forall|j: int| 0 <= j < rest.len() - 1 implies 0 <= #[trigger] rest[j]
            < against.len() && against[rest[j]].contains(rest[j + 1]) by {
            assert(rest[j] == walk[j + 1] && rest[j + 1] == walk[j + 2]);
        }
        assert(leads(against, rest, next, to));
        lemma_leads_back(edges, count, rest, next, to);
        lemma_reaches_on(along, to, next, from);
    }
}

/// What is reached from a node against the edges reaches the node along
/// them.
pub proof fn lemma_reaches_back(edges: Seq<(int, int)>, count: nat, from: int, to: int)
    requires
        edges_within(edges, count),
        reaches(predecessor_lists(edges, count), from, to),
    ensures
        reaches(successor_lists(edges, count), to, from),
{
    let walk = choose|walk: Seq<int>| leads(predecessor_lists(edges, count), walk, from, to);
    lemma_leads_back(edges, count, walk, from, to);
}

/// What a node leads to along the edges leads to the node against them.
pub proof fn lemma_leads_forth(edges: Seq<(int, int)>, count: nat, walk: Seq<int>, from: int, to: int)
    requires
        edges_within(edges, count),
        leads(successor_lists(edges, count), walk, from, to),
    ensures
        reaches(predecessor_lists(edges, count), to, from),
    decreases walk.len(),
{
    let against = predecessor_lists(edges, count);
    let along = successor_lists(edges, count);
    if walk.len() == 1 {
        assert(leads(against, seq![from], from, from));
    } else {
        let rest = walk.drop_first();
        let next = walk[1];
        assert(0 <= walk[0] < along.len() && along[walk[0]].contains(walk[1]));
        let k = choose|k: int| 0 <= k < along[from].len() && along[from][k] == next;
        lemma_successor_is_target(edges, from, k);
        let e = choose|e: int|
            0 <= e < edges.len() && #[trigger] edges[e] == (from, successors(edges, from)[k]);
        assert(0 <= edges[e].1 < count);
        lemma_edge_is_incoming(edges, e);
        let entries = incoming(edges, next);
        let at = choose|at: int| 0 <= at < entries.len() && entries[at] == (from, e);
        assert(predecessors(edges, next)[at] == from);
        assert(against[next] == predecessors(edges, next));
        assert(leads(against, seq![next, from], next, from));
        assert forall|j: int| 0 <= j < rest.len() - 1 implies 0 <= #[trigger] rest[j] < along.len()
            && along[rest[j]].contains(rest[j + 1]) by {
            assert(rest[j] == walk[j + 1] && rest[j + 1] == walk[j + 2]);
        }
        assert(leads(along, rest, next, to));
        lemma_leads_forth(edges, count, rest, next, to);
        lemma_reaches_on(against, to, next, from);
    }
}

/// What reaches a node along the edges is reached from the node against
/// them.
pub proof fn lemma_reaches_forth(edges: Seq<(int, int)>, count: nat, from: int, to: int)
    requires
        edges_within(edges, count),
        reaches(successor_lists(edges, count), from, to),
    ensures
        reaches(predecessor_lists(edges, count), to, from),
{
    let walk = choose|walk: Seq<int>| leads(successor_lists(edges, count), walk, from, to);
    lemma_leads_forth(edges, count, walk, from, to);
}

} // verus!

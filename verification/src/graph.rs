//! The mathematical model of a stream: its forward edges, and the walk that
//! turns them into an ordered list of addresses.
//!
//! A stream is a sequence of edges in the order in which the store lists
//! them. The walk is a depth-first search with an explicit stack. Each node
//! is put on the stack once to be expanded and once more to be emitted after
//! everything that was scheduled from it; the emitted nodes, read backwards,
//! are the order that a reader sees.
use vstd::prelude::*;

verus! {

/// A node of the graph: the text of an address.
pub type Node = Seq<char>;

/// A forward edge, from the older node to the newer one.
pub type Edge = (Node, Node);

/// The state of a walk.
pub struct Walk {
    /// Work still to do, the next entry last. An entry whose flag is set is
    /// waiting to be emitted; one whose flag is clear is waiting to be expanded.
    pub stack: Seq<(Node, bool)>,
    /// The nodes scheduled so far, in the order in which they were scheduled.
    pub visited: Seq<Node>,
    /// The nodes emitted so far, each after everything scheduled from it.
    pub emitted: Seq<Node>,
    /// Whether a node was left out because the limit had been reached.
    pub more: bool,
}

/// The targets of the edges that leave `node`, in the order of `edges`.
pub open spec fn successors(edges: Seq<Edge>, node: Node) -> Seq<Node>
    decreases edges.len(),
{
    if edges.len() == 0 {
        Seq::empty()
    } else {
        let earlier = successors(edges.drop_last(), node);
        if edges.last().0 == node {
            earlier.push(edges.last().1)
        } else {
            earlier
        }
    }
}

/// Whether one more node may be scheduled under `limit`.
pub open spec fn has_room(limit: Option<usize>, visited: Seq<Node>) -> bool {
    match limit {
        None => true,
        Some(most) => visited.len() < most,
    }
}

/// Offers one target to the walk: a node seen before is passed over, a new one
/// is scheduled while there is room, and is otherwise left out and remembered
/// in `more`.
pub open spec fn offer(target: Node, limit: Option<usize>, walk: Walk) -> Walk {
    if walk.visited.contains(target) {
        walk
    } else if has_room(limit, walk.visited) {
        Walk {
            stack: walk.stack.push((target, false)),
            visited: walk.visited.push(target),
            ..walk
        }
    } else {
        Walk { more: true, ..walk }
    }
}

/// Offers `targets` to the walk, first to last.
pub open spec fn schedule(targets: Seq<Node>, limit: Option<usize>, walk: Walk) -> Walk
    decreases targets.len(),
{
    if targets.len() == 0 {
        walk
    } else {
        offer(targets.last(), limit, schedule(targets.drop_last(), limit, walk))
    }
}

/// The walk after its top entry, a node that waited to be expanded, was put
/// back to wait for its emission.
pub open spec fn reopened_top(walk: Walk) -> Walk
    recommends
        walk.stack.len() > 0,
{
    Walk { stack: walk.stack.drop_last().push((walk.stack.last().0, true)), ..walk }
}

/// The walk after its top entry left the stack and was emitted.
pub open spec fn emitted_top(walk: Walk) -> Walk
    recommends
        walk.stack.len() > 0,
{
    Walk {
        stack: walk.stack.drop_last(),
        emitted: walk.emitted.push(walk.stack.last().0),
        ..walk
    }
}

/// One step of the walk: the top entry leaves the stack. If it was waiting to
/// be emitted, it is emitted. Otherwise it goes back to wait for that, and its
/// successors are offered above it.
pub open spec fn step(edges: Seq<Edge>, limit: Option<usize>, walk: Walk) -> Walk
    recommends
        walk.stack.len() > 0,
{
    if walk.stack.last().1 {
        emitted_top(walk)
    } else {
        schedule(successors(edges, walk.stack.last().0), limit, reopened_top(walk))
    }
}

/// The number of edges whose target has not been scheduled.
pub open spec fn unvisited_edges(edges: Seq<Edge>, visited: Seq<Node>) -> nat
    decreases edges.len(),
{
    if edges.len() == 0 {
        0
    } else {
        let earlier = unvisited_edges(edges.drop_last(), visited);
        if visited.contains(edges.last().1) {
            earlier
        } else {
            earlier + 1
        }
    }
}

/// The steps that the entries on the stack stand for: two for a node still to
/// be expanded, one for a node that only waits to be emitted.
pub open spec fn pending_steps(stack: Seq<(Node, bool)>) -> nat
    decreases stack.len(),
{
    if stack.len() == 0 {
        0
    } else {
        let below = pending_steps(stack.drop_last());
        if stack.last().1 {
            below + 1
        } else {
            below + 2
        }
    }
}

/// A bound on the steps that a walk still takes. Every step lowers it.
pub open spec fn weight(edges: Seq<Edge>, walk: Walk) -> nat {
    2 * unvisited_edges(edges, walk.visited) + pending_steps(walk.stack)
}

/// The walk, taken to its end.
pub open spec fn run(edges: Seq<Edge>, limit: Option<usize>, walk: Walk) -> Walk
    decreases weight(edges, walk),
    via run_terminates
{
    if walk.stack.len() == 0 {
        walk
    } else {
        run(edges, limit, step(edges, limit, walk))
    }
}

#[via_fn]
proof fn run_terminates(edges: Seq<Edge>, limit: Option<usize>, walk: Walk) {
    if walk.stack.len() > 0 {
        lemma_step_lowers_weight(edges, limit, walk);
    }
}

/// The walk as it stands before its first step.
pub open spec fn start(since: Node) -> Walk {
    Walk {
        stack: seq![(since, false)],
        visited: Seq::empty(),
        emitted: Seq::empty(),
        more: false,
    }
}

/// What a finished walk hands to the reader: the emitted nodes without the
/// last one, which is the starting node, read backwards.
pub open spec fn reading(walk: Walk) -> Seq<Node> {
    if walk.emitted.len() == 0 {
        Seq::empty()
    } else {
        walk.emitted.drop_last().reverse()
    }
}

/// The ordered addresses that a read from `since` returns, and whether the
/// limit left a node out.
pub open spec fn traversal(edges: Seq<Edge>, since: Node, limit: Option<usize>) -> (Seq<Node>, bool) {
    let end = run(edges, limit, start(since));
    (reading(end), end.more)
}

/// Whether `edges` holds an edge from `from` to `to`.
pub open spec fn has_edge(edges: Seq<Edge>, from: Node, to: Node) -> bool {
    edges.contains((from, to))
}

/// Every successor of a node is the target of one of its edges, and the other
/// way round.
pub proof fn lemma_successors_are_edges(edges: Seq<Edge>, node: Node, target: Node)
    ensures
        successors(edges, node).contains(target) <==> has_edge(edges, node, target),
    decreases edges.len(),
{
    if edges.len() == 0 {
    } else {
        let earlier = edges.drop_last();
        lemma_successors_are_edges(earlier, node, target);
        let last = edges.last();
        let all = successors(edges, node);
        let before = successors(earlier, node);
        if has_edge(edges, node, target) {
            let i = choose|i: int| 0 <= i < edges.len() && edges[i] == (node, target);
            if i < edges.len() - 1 {
                assert(earlier[i] == (node, target));
                assert(has_edge(earlier, node, target));
                let j = choose|j: int| 0 <= j < before.len() && before[j] == target;
                assert(all[j] == target);
            } else {
                assert(all[all.len() - 1] == target);
            }
        }
        if all.contains(target) {
            let j = choose|j: int| 0 <= j < all.len() && all[j] == target;
            if last.0 == node && j == all.len() - 1 {
                assert(edges[edges.len() - 1] == (node, target));
            } else {
                assert(before[j] == target);
                assert(has_edge(earlier, node, target));
                let i = choose|i: int| 0 <= i < earlier.len() && earlier[i] == (node, target);
                assert(edges[i] == (node, target));
            }
        }
    }
}

/// Scheduling one more node never raises the number of unvisited edges, and
/// lowers it when an edge leads to that node.
pub proof fn lemma_visit_lowers_unvisited(edges: Seq<Edge>, visited: Seq<Node>, target: Node)
    ensures
        unvisited_edges(edges, visited.push(target)) <= unvisited_edges(edges, visited),
        !visited.contains(target) && (exists|from: Node| has_edge(edges, from, target))
            ==> unvisited_edges(edges, visited.push(target)) < unvisited_edges(edges, visited),
    decreases edges.len(),
{
    let grown = visited.push(target);
    if edges.len() == 0 {
        if exists|from: Node| has_edge(edges, from, target) {
            let from = choose|from: Node| has_edge(edges, from, target);
            assert(false);
        }
    } else {
        let earlier = edges.drop_last();
        let last = edges.last();
        lemma_visit_lowers_unvisited(earlier, visited, target);
        if visited.contains(last.1) {
            let i = choose|i: int| 0 <= i < visited.len() && visited[i] == last.1;
            assert(grown[i] == last.1);
        }
        if last.1 == target {
            assert(grown[visited.len() as int] == target);
        } else if grown.contains(last.1) {
            let i = choose|i: int| 0 <= i < grown.len() && grown[i] == last.1;
            assert(visited[i] == last.1);
        }
        if !visited.contains(target) && (exists|from: Node| has_edge(edges, from, target)) {
            let from = choose|from: Node| has_edge(edges, from, target);
            let i = choose|i: int| 0 <= i < edges.len() && edges[i] == (from, target);
            if i < edges.len() - 1 {
                assert(earlier[i] == (from, target));
                assert(has_edge(earlier, from, target));
            }
        }
    }
}

/// Offering the successors of a node never raises the weight of the walk.
proof fn lemma_schedule_keeps_weight(
    edges: Seq<Edge>,
    node: Node,
    targets: Seq<Node>,
    limit: Option<usize>,
    walk: Walk,
)
    requires
        forall|i: int| 0 <= i < targets.len() ==> has_edge(edges, node, #[trigger] targets[i]),
    ensures
        weight(edges, schedule(targets, limit, walk)) <= weight(edges, walk),
    decreases targets.len(),
{
    if targets.len() > 0 {
        let before = schedule(targets.drop_last(), limit, walk);
        assert forall|i: int| 0 <= i < targets.drop_last().len() implies has_edge(
            edges,
            node,
            #[trigger] targets.drop_last()[i],
        ) by {
            assert(targets.drop_last()[i] == targets[i]);
        }
        lemma_schedule_keeps_weight(edges, node, targets.drop_last(), limit, walk);
        let target = targets.last();
        assert(has_edge(edges, node, targets[targets.len() - 1]));
        lemma_visit_lowers_unvisited(edges, before.visited, target);
        let after = offer(target, limit, before);
        if !before.visited.contains(target) && has_room(limit, before.visited) {
            assert(after.stack.drop_last() == before.stack);
        }
    }
}

/// Every step lowers the weight of the walk.
pub proof fn lemma_step_lowers_weight(edges: Seq<Edge>, limit: Option<usize>, walk: Walk)
    requires
        walk.stack.len() > 0,
    ensures
        weight(edges, step(edges, limit, walk)) < weight(edges, walk),
{
    let node = walk.stack.last().0;
    let below = walk.stack.drop_last();
    if !walk.stack.last().1 {
        let waiting = reopened_top(walk);
        assert(waiting.stack.drop_last() == below);
        let targets = successors(edges, node);
        assert forall|i: int| 0 <= i < targets.len() implies has_edge(
            edges,
            node,
            #[trigger] targets[i],
        ) by {
            lemma_successors_are_edges(edges, node, targets[i]);
        }
        lemma_schedule_keeps_weight(edges, node, targets, limit, waiting);
    }
}

} // verus!

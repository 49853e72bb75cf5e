//! What holds of every read, whatever the graph.
use vstd::prelude::*;
use crate::graph::{
    emitted_top, has_edge, has_room, lemma_step_lowers_weight, lemma_successors_are_edges, offer,
    reading, reopened_top, run, schedule, start, step, successors, traversal, weight, Edge, Node,
    Walk,
};

verus! {

/// Whether `path` leads along edges, over one edge at least.
pub open spec fn is_path(edges: Seq<Edge>, path: Seq<Node>) -> bool {
    &&& path.len() >= 2
    &&& forall|i: int| 0 <= i < path.len() - 1 ==> has_edge(edges, #[trigger] path[i], path[i + 1])
}

/// Whether `to` can be reached from `from` over one edge or more.
pub open spec fn reaches(edges: Seq<Edge>, from: Node, to: Node) -> bool {
    exists|path: Seq<Node>| #[trigger]
        is_path(edges, path) && path.first() == from && path.last() == to
}

/// The number of emitted nodes that belong to the reading: all of them while
/// the walk goes on, all but the starting node once it has ended.
pub open spec fn done_len(walk: Walk) -> int {
    if walk.stack.len() > 0 {
        walk.emitted.len() as int
    } else {
        walk.emitted.len() - 1
    }
}

/// Whether `node` waits on the stack above the starting entry.
#[verifier::opaque]
pub open spec fn waits(walk: Walk, node: Node) -> bool {
    exists|p: int| 1 <= p < walk.stack.len() && (#[trigger] walk.stack[p]).0 == node
}

/// Whether `node` has been emitted as part of the reading.
#[verifier::opaque]
pub open spec fn is_done(walk: Walk, node: Node) -> bool {
    exists|i: int| 0 <= i < done_len(walk) && #[trigger] walk.emitted[i] == node
}

/// The bookkeeping of a walk from `since`: the starting entry stays at the
/// bottom of the stack to the end and is emitted last; the scheduled nodes are
/// those that wait above it or have been emitted, each of them once; and there
/// are no more of them than the limit allows.
pub open spec fn shaped(since: Node, limit: Option<usize>, walk: Walk) -> bool {
    &&& walk.stack.len() > 0 ==> walk.stack[0].0 == since
    &&& walk.stack.len() == 0 ==> walk.emitted.len() > 0 && walk.emitted.last() == since
    &&& walk.stack.len() > 0 ==> walk.stack.len() - 1 + walk.emitted.len() == walk.visited.len()
    &&& walk.stack.len() == 0 ==> walk.emitted.len() - 1 == walk.visited.len()
    &&& limit matches Some(most) ==> walk.visited.len() <= most
    &&& forall|p: int|
        1 <= p < walk.stack.len() ==> walk.visited.contains((#[trigger] walk.stack[p]).0)
    &&& forall|i: int| 0 <= i < done_len(walk) ==> walk.visited.contains(#[trigger] walk.emitted[i])
    &&& forall|k: int|
        0 <= k < walk.visited.len() ==> waits(walk, #[trigger] walk.visited[k]) || is_done(
            walk,
            walk.visited[k],
        )
    &&& forall|p: int, q: int|
        1 <= p < q < walk.stack.len() ==> (#[trigger] walk.stack[p]).0 != (
        #[trigger] walk.stack[q]).0
    &&& forall|i: int, j: int|
        0 <= i < j < done_len(walk) ==> #[trigger] walk.emitted[i] != #[trigger] walk.emitted[j]
    &&& forall|p: int, i: int|
        1 <= p < walk.stack.len() && 0 <= i < done_len(walk) ==> (#[trigger] walk.stack[p]).0
            != #[trigger] walk.emitted[i]
}

/// The node at a place on the stack above the starting entry waits there.
pub proof fn lemma_waits_at(walk: Walk, place: int)
    requires
        1 <= place < walk.stack.len(),
    ensures
        waits(walk, walk.stack[place].0),
{
    reveal(waits);
}

/// A place at which a waiting node waits.
pub proof fn lemma_waiting_place(walk: Walk, node: Node) -> (place: int)
    requires
        waits(walk, node),
    ensures
        1 <= place < walk.stack.len(),
        walk.stack[place].0 == node,
{
    reveal(waits);
    choose|p: int| 1 <= p < walk.stack.len() && (#[trigger] walk.stack[p]).0 == node
}

/// The node at a place among the emitted nodes of the reading has been
/// emitted.
pub proof fn lemma_done_at(walk: Walk, place: int)
    requires
        0 <= place < done_len(walk),
    ensures
        is_done(walk, walk.emitted[place]),
{
    reveal(is_done);
}

/// A place at which an emitted node was emitted.
pub proof fn lemma_done_place(walk: Walk, node: Node) -> (place: int)
    requires
        is_done(walk, node),
    ensures
        0 <= place < done_len(walk),
        walk.emitted[place] == node,
{
    reveal(is_done);
    choose|i: int| 0 <= i < done_len(walk) && #[trigger] walk.emitted[i] == node
}

/// Walks with the same stack and the same emitted nodes have the same nodes
/// waiting and the same nodes emitted.
pub proof fn lemma_same_places(walk: Walk, other: Walk)
    requires
        other.stack == walk.stack,
        other.emitted == walk.emitted,
    ensures
        forall|node: Node| #[trigger] waits(other, node) == waits(walk, node),
        forall|node: Node| #[trigger] is_done(other, node) == is_done(walk, node),
{
    reveal(waits);
    reveal(is_done);
}

/// A sequence that has grown by one element holds what it held, and that
/// element.
proof fn lemma_push_contains(nodes: Seq<Node>, added: Node, node: Node)
    ensures
        nodes.push(added).contains(node) <==> nodes.contains(node) || node == added,
{
    let grown = nodes.push(added);
    if nodes.contains(node) {
        let i = choose|i: int| 0 <= i < nodes.len() && nodes[i] == node;
        assert(grown[i] == node);
    }
    if node == added {
        assert(grown[nodes.len() as int] == node);
    }
    if grown.contains(node) {
        let i = choose|i: int| 0 <= i < grown.len() && grown[i] == node;
        if i < nodes.len() {
            assert(nodes[i] == node);
        }
    }
}

/// Offering a target keeps the bookkeeping, and leaves the entries that were
/// on the stack where they were.
proof fn lemma_offer_shaped(since: Node, limit: Option<usize>, walk: Walk, target: Node)
    requires
        shaped(since, limit, walk),
        walk.stack.len() > 0,
    ensures
        shaped(since, limit, offer(target, limit, walk)),
{
    let after = offer(target, limit, walk);
    if walk.visited.contains(target) {
    } else if !has_room(limit, walk.visited) {
        lemma_same_places(walk, after);
    } else {
        assert forall|node: Node| walk.visited.contains(node) implies after.visited.contains(
            node,
        ) by {
            lemma_push_contains(walk.visited, target, node);
        }
        lemma_push_contains(walk.visited, target, target);
        assert forall|p: int| 1 <= p < after.stack.len() implies after.visited.contains(
            (#[trigger] after.stack[p]).0,
        ) by {
            if p < walk.stack.len() {
                assert(after.stack[p] == walk.stack[p]);
            }
        }
        assert forall|i: int| 0 <= i < done_len(after) implies after.visited.contains(
            #[trigger] after.emitted[i],
        ) by {
            assert(walk.visited.contains(walk.emitted[i]));
        }
        assert forall|k: int| 0 <= k < after.visited.len() implies waits(
            after,
            #[trigger] after.visited[k],
        ) || is_done(after, after.visited[k]) by {
            if k < walk.visited.len() {
                let node = walk.visited[k];
                assert(after.visited[k] == node);
                if waits(walk, node) {
                    let p = lemma_waiting_place(walk, node);
                    assert(after.stack[p].0 == node);
                    lemma_waits_at(after, p);
                } else {
                    let i = lemma_done_place(walk, node);
                    assert(after.emitted[i] == node);
                    lemma_done_at(after, i);
                }
            } else {
                assert(after.stack[walk.stack.len() as int].0 == target);
                lemma_waits_at(after, walk.stack.len() as int);
            }
        }
        assert forall|p: int, q: int| 1 <= p < q < after.stack.len() implies (
        #[trigger] after.stack[p]).0 != (#[trigger] after.stack[q]).0 by {
            assert(after.stack[p] == walk.stack[p]);
            if q < walk.stack.len() {
                assert(after.stack[q] == walk.stack[q]);
            } else {
                assert(walk.visited.contains(walk.stack[p].0));
            }
        }
        assert forall|p: int, i: int|
            1 <= p < after.stack.len() && 0 <= i < done_len(after) implies (
        #[trigger] after.stack[p]).0 != #[trigger] after.emitted[i] by {
            if p < walk.stack.len() {
                assert(after.stack[p] == walk.stack[p]);
            } else {
                assert(walk.visited.contains(walk.emitted[i]));
            }
        }
    }
}

/// Every scheduled node can be reached from the starting node.
pub open spec fn sound(edges: Seq<Edge>, since: Node, walk: Walk) -> bool {
    forall|k: int| 0 <= k < walk.visited.len() ==> reaches(edges, since, #[trigger] walk.visited[k])
}

/// Where the walk says that there is more, the limit has been reached and a
/// node that can be reached has not been scheduled.
pub open spec fn missed(edges: Seq<Edge>, since: Node, limit: Option<usize>, walk: Walk) -> bool {
    walk.more ==> {
        &&& limit is Some
        &&& walk.visited.len() >= limit.unwrap()
        &&& exists|node: Node| #[trigger] reaches(edges, since, node) && !walk.visited.contains(node)
    }
}

/// Whether an edge leads to `node` from a node that waits, below `below` on the
/// stack, to be emitted.
pub open spec fn has_open_parent(edges: Seq<Edge>, walk: Walk, below: int, node: Node) -> bool {
    exists|q: int|
        0 <= q < below && q < walk.stack.len() && (#[trigger] walk.stack[q]).1 && has_edge(
            edges,
            walk.stack[q].0,
            node,
        )
}

/// Whether an edge leads to `node` from a node that was emitted after place
/// `after`.
pub open spec fn has_done_parent(edges: Seq<Edge>, walk: Walk, after: int, node: Node) -> bool {
    exists|j: int| after < j < walk.emitted.len() && has_edge(edges, #[trigger] walk.emitted[j], node)
}

/// Every node that waits above the starting entry was scheduled from a node
/// that waits below it to be emitted; every emitted node was scheduled from
/// one that still waits to be emitted or that was emitted later.
pub open spec fn parented(edges: Seq<Edge>, walk: Walk) -> bool {
    &&& forall|p: int|
        1 <= p < walk.stack.len() ==> has_open_parent(edges, walk, p, (#[trigger] walk.stack[p]).0)
    &&& forall|i: int|
        0 <= i < done_len(walk) ==> has_open_parent(
            edges,
            walk,
            walk.stack.len() as int,
            #[trigger] walk.emitted[i],
        ) || has_done_parent(edges, walk, i, walk.emitted[i])
}

/// Whether every successor of `node` has been scheduled.
pub open spec fn settled(edges: Seq<Edge>, walk: Walk, node: Node) -> bool {
    forall|target: Node| #[trigger] has_edge(edges, node, target) ==> walk.visited.contains(target)
}

/// Unless the walk says that there is more, every successor of an expanded
/// node has been scheduled.
pub open spec fn closed_under_edges(edges: Seq<Edge>, walk: Walk) -> bool {
    !walk.more ==> {
        &&& forall|q: int|
            0 <= q < walk.stack.len() && (#[trigger] walk.stack[q]).1 ==> settled(
                edges,
                walk,
                walk.stack[q].0,
            )
        &&& forall|j: int| 0 <= j < walk.emitted.len() ==> settled(edges, walk, #[trigger] walk.emitted[j])
    }
}

/// What scheduling leaves as it was: the emitted nodes, the entries that were
/// on the stack, the nodes that were scheduled, and the word that there is
/// more. New entries wait to be expanded.
pub open spec fn extends(before: Walk, after: Walk) -> bool {
    &&& after.emitted == before.emitted
    &&& after.stack.len() >= before.stack.len()
    &&& forall|q: int| 0 <= q < before.stack.len() ==> #[trigger] after.stack[q] == before.stack[q]
    &&& forall|q: int| before.stack.len() <= q < after.stack.len() ==> !(#[trigger] after.stack[q]).1
    &&& forall|node: Node| before.visited.contains(node) ==> #[trigger] after.visited.contains(node)
    &&& before.more ==> after.more
}

/// An edge is a way from its source to its target.
pub proof fn lemma_edge_reaches(edges: Seq<Edge>, from: Node, to: Node)
    requires
        has_edge(edges, from, to),
    ensures
        reaches(edges, from, to),
{
    let path = seq![from, to];
    assert(is_path(edges, path));
    assert(path.first() == from && path.last() == to);
}

/// A way can be taken one edge further.
pub proof fn lemma_reaches_further(edges: Seq<Edge>, from: Node, via: Node, to: Node)
    requires
        reaches(edges, from, via),
        has_edge(edges, via, to),
    ensures
        reaches(edges, from, to),
{
    let path = choose|path: Seq<Node>| #[trigger]
        is_path(edges, path) && path.first() == from && path.last() == via;
    let longer = path.push(to);
    assert forall|i: int| 0 <= i < longer.len() - 1 implies has_edge(
        edges,
        #[trigger] longer[i],
        longer[i + 1],
    ) by {
        if i < path.len() - 1 {
            assert(has_edge(edges, path[i], path[i + 1]));
        }
    }
    assert(is_path(edges, longer));
    assert(longer.first() == from && longer.last() == to);
}

/// Offering a target leaves standing what scheduling leaves standing, and
/// schedules the target unless the walk says that there is more.
proof fn lemma_offer_extends(limit: Option<usize>, walk: Walk, target: Node)
    ensures
        extends(walk, offer(target, limit, walk)),
        !offer(target, limit, walk).more ==> offer(target, limit, walk).visited.contains(target),
{
    let after = offer(target, limit, walk);
    if !walk.visited.contains(target) && has_room(limit, walk.visited) {
        assert forall|node: Node| walk.visited.contains(node) implies #[trigger]
            after.visited.contains(node) by {
            lemma_push_contains(walk.visited, target, node);
        }
        lemma_push_contains(walk.visited, target, target);
    }
}

/// Offering a successor of a node that waits to be emitted keeps the walk
/// sound, its word on more true, and every node with the node that scheduled
/// it.
proof fn lemma_offer_linked(
    edges: Seq<Edge>,
    since: Node,
    limit: Option<usize>,
    walk: Walk,
    parent: int,
    target: Node,
)
    requires
        shaped(since, limit, walk),
        sound(edges, since, walk),
        missed(edges, since, limit, walk),
        parented(edges, walk),
        0 <= parent < walk.stack.len(),
        walk.stack[parent].1,
        has_edge(edges, walk.stack[parent].0, target),
    ensures
        sound(edges, since, offer(target, limit, walk)),
        missed(edges, since, limit, offer(target, limit, walk)),
        parented(edges, offer(target, limit, walk)),
{
    let after = offer(target, limit, walk);
    let from = walk.stack[parent].0;
    assert(reaches(edges, since, target)) by {
        if parent == 0 {
            lemma_edge_reaches(edges, since, target);
        } else {
            assert(walk.visited.contains(from));
            let k = choose|k: int| 0 <= k < walk.visited.len() && walk.visited[k] == from;
            assert(reaches(edges, since, walk.visited[k]));
            lemma_reaches_further(edges, since, from, target);
        }
    }
    if walk.visited.contains(target) {
    } else if has_room(limit, walk.visited) {
        assert forall|k: int| 0 <= k < after.visited.len() implies reaches(
            edges,
            since,
            #[trigger] after.visited[k],
        ) by {
            if k < walk.visited.len() {
                assert(after.visited[k] == walk.visited[k]);
            }
        }
        if walk.more {
            let lost = choose|node: Node| #[trigger]
                reaches(edges, since, node) && !walk.visited.contains(node);
            assert(false);
        }
        assert forall|p: int| 1 <= p < after.stack.len() implies has_open_parent(
            edges,
            after,
            p,
            (#[trigger] after.stack[p]).0,
        ) by {
            if p < walk.stack.len() {
                assert(after.stack[p] == walk.stack[p]);
                assert(has_open_parent(edges, walk, p, walk.stack[p].0));
                let q = choose|q: int|
                    0 <= q < p && q < walk.stack.len() && (#[trigger] walk.stack[q]).1 && has_edge(
                        edges,
                        walk.stack[q].0,
                        walk.stack[p].0,
                    );
                assert(after.stack[q] == walk.stack[q]);
            } else {
                assert(after.stack[parent] == walk.stack[parent]);
            }
        }
        assert forall|i: int| 0 <= i < done_len(after) implies has_open_parent(
            edges,
            after,
            after.stack.len() as int,
            #[trigger] after.emitted[i],
        ) || has_done_parent(edges, after, i, after.emitted[i]) by {
            let node = walk.emitted[i];
            if has_open_parent(edges, walk, walk.stack.len() as int, node) {
                let q = choose|q: int|
                    0 <= q < walk.stack.len() && q < walk.stack.len() && (
                    #[trigger] walk.stack[q]).1 && has_edge(edges, walk.stack[q].0, node);
                assert(after.stack[q] == walk.stack[q]);
            } else {
                assert(has_done_parent(edges, walk, i, node));
            }
        }
    } else {
        assert(reaches(edges, since, target) && !after.visited.contains(target));
    }
}

/// What holds of a walk from `since` at every step.
pub open spec fn kept(edges: Seq<Edge>, since: Node, limit: Option<usize>, walk: Walk) -> bool {
    &&& shaped(since, limit, walk)
    &&& sound(edges, since, walk)
    &&& missed(edges, since, limit, walk)
    &&& parented(edges, walk)
}

/// Offering the successors of a node that waits to be emitted keeps what
/// holds at every step, and schedules each of them unless the walk says that
/// there is more.
proof fn lemma_schedule_keeps(
    edges: Seq<Edge>,
    since: Node,
    limit: Option<usize>,
    walk: Walk,
    parent: int,
    targets: Seq<Node>,
)
    requires
        kept(edges, since, limit, walk),
        0 <= parent < walk.stack.len(),
        walk.stack[parent].1,
        forall|i: int|
            0 <= i < targets.len() ==> has_edge(edges, walk.stack[parent].0, #[trigger] targets[i]),
    ensures
        kept(edges, since, limit, schedule(targets, limit, walk)),
        extends(walk, schedule(targets, limit, walk)),
        !schedule(targets, limit, walk).more ==> forall|i: int|
            0 <= i < targets.len() ==> schedule(targets, limit, walk).visited.contains(
                #[trigger] targets[i],
            ),
    decreases targets.len(),
{
    if targets.len() > 0 {
        let front = targets.drop_last();
        let last = targets.last();
        let mid = schedule(front, limit, walk);
        let end = schedule(targets, limit, walk);
        assert forall|i: int| 0 <= i < front.len() implies has_edge(
            edges,
            walk.stack[parent].0,
            #[trigger] front[i],
        ) by {
            assert(front[i] == targets[i]);
        }
        lemma_schedule_keeps(edges, since, limit, walk, parent, front);
        assert(mid.stack[parent] == walk.stack[parent]);
        assert(has_edge(edges, walk.stack[parent].0, targets[targets.len() - 1]));
        lemma_offer_shaped(since, limit, mid, last);
        lemma_offer_linked(edges, since, limit, mid, parent, last);
        lemma_offer_extends(limit, mid, last);
        assert(extends(walk, end)) by {
            assert forall|q: int| 0 <= q < walk.stack.len() implies #[trigger] end.stack[q]
                == walk.stack[q] by {
                assert(mid.stack[q] == walk.stack[q]);
            }
            assert forall|q: int| walk.stack.len() <= q < end.stack.len() implies !(
            #[trigger] end.stack[q]).1 by {
                if q < mid.stack.len() {
                    assert(end.stack[q] == mid.stack[q]);
                }
            }
            assert forall|node: Node| walk.visited.contains(node) implies #[trigger]
                end.visited.contains(node) by {
                assert(mid.visited.contains(node));
            }
        }
        if !end.more {
            assert forall|i: int| 0 <= i < targets.len() implies end.visited.contains(
                #[trigger] targets[i],
            ) by {
                if i < front.len() {
                    assert(front[i] == targets[i]);
                    assert(mid.visited.contains(front[i]));
                }
            }
        }
    }
}

/// Emitting the starting entry, the last on the stack, keeps the bookkeeping.
proof fn lemma_close_root_shaped(since: Node, limit: Option<usize>, walk: Walk)
    requires
        shaped(since, limit, walk),
        walk.stack.len() == 1,
    ensures
        shaped(since, limit, emitted_top(walk)),
{
    let after = emitted_top(walk);
    assert(done_len(after) == done_len(walk));
    assert forall|i: int| 0 <= i < done_len(after) implies after.visited.contains(
        #[trigger] after.emitted[i],
    ) by {
        assert(after.emitted[i] == walk.emitted[i]);
    }
    assert forall|k: int| 0 <= k < after.visited.len() implies waits(
        after,
        #[trigger] after.visited[k],
    ) || is_done(after, after.visited[k]) by {
        let found = walk.visited[k];
        assert(waits(walk, found) || is_done(walk, found));
        if waits(walk, found) {
            let p = lemma_waiting_place(walk, found);
        }
        let i = lemma_done_place(walk, found);
        assert(after.emitted[i] == found);
        lemma_done_at(after, i);
    }
    assert forall|i: int, j: int| 0 <= i < j < done_len(after) implies #[trigger] after.emitted[i]
        != #[trigger] after.emitted[j] by {
        assert(after.emitted[i] == walk.emitted[i]);
        assert(after.emitted[j] == walk.emitted[j]);
    }
}

/// Emitting the starting entry keeps every node with the node that scheduled
/// it.
proof fn lemma_close_root_parented(edges: Seq<Edge>, walk: Walk)
    requires
        parented(edges, walk),
        walk.stack.len() == 1,
        walk.stack.last().1,
    ensures
        parented(edges, emitted_top(walk)),
{
    let after = emitted_top(walk);
    let node = walk.stack[0].0;
    assert forall|i: int| 0 <= i < done_len(after) implies has_open_parent(
        edges,
        after,
        after.stack.len() as int,
        #[trigger] after.emitted[i],
    ) || has_done_parent(edges, after, i, after.emitted[i]) by {
        let found = walk.emitted[i];
        assert(after.emitted[i] == found);
        if has_open_parent(edges, walk, walk.stack.len() as int, found) {
            let q = choose|q: int|
                0 <= q < walk.stack.len() && q < walk.stack.len() && (#[trigger] walk.stack[q]).1
                    && has_edge(edges, walk.stack[q].0, found);
            assert(q == 0);
            assert(after.emitted[walk.emitted.len() as int] == node);
        } else {
            let j = choose|j: int|
                i < j < walk.emitted.len() && has_edge(edges, #[trigger] walk.emitted[j], found);
            assert(after.emitted[j] == walk.emitted[j]);
        }
        assert(has_done_parent(edges, after, i, found));
    }
}

/// Emitting an entry above the starting entry keeps the bookkeeping.
proof fn lemma_close_inner_shaped(since: Node, limit: Option<usize>, walk: Walk)
    requires
        shaped(since, limit, walk),
        walk.stack.len() > 1,
    ensures
        shaped(since, limit, emitted_top(walk)),
{
    let after = emitted_top(walk);
    let top = walk.stack.len() - 1;
    let node = walk.stack[top].0;
    assert(done_len(after) == done_len(walk) + 1);
    assert(walk.visited.contains(walk.stack[top].0));
    assert forall|p: int| 1 <= p < after.stack.len() implies after.visited.contains(
        (#[trigger] after.stack[p]).0,
    ) by {
        assert(after.stack[p] == walk.stack[p]);
    }
    assert forall|i: int| 0 <= i < done_len(after) implies after.visited.contains(
        #[trigger] after.emitted[i],
    ) by {
        if i < walk.emitted.len() {
            assert(after.emitted[i] == walk.emitted[i]);
        }
    }
    assert forall|k: int| 0 <= k < after.visited.len() implies waits(
        after,
        #[trigger] after.visited[k],
    ) || is_done(after, after.visited[k]) by {
        let found = walk.visited[k];
        if waits(walk, found) {
            let p = lemma_waiting_place(walk, found);
            if p == top {
                assert(after.emitted[walk.emitted.len() as int] == found);
                lemma_done_at(after, walk.emitted.len() as int);
            } else {
                assert(after.stack[p].0 == found);
                lemma_waits_at(after, p);
            }
        } else {
            let i = lemma_done_place(walk, found);
            assert(after.emitted[i] == found);
            lemma_done_at(after, i);
        }
    }
    assert forall|p: int, q: int| 1 <= p < q < after.stack.len() implies (
    #[trigger] after.stack[p]).0 != (#[trigger] after.stack[q]).0 by {
        assert(after.stack[p] == walk.stack[p]);
        assert(after.stack[q] == walk.stack[q]);
    }
    assert forall|i: int, j: int| 0 <= i < j < done_len(after) implies #[trigger] after.emitted[i]
        != #[trigger] after.emitted[j] by {
        assert(after.emitted[i] == walk.emitted[i]);
        if j < walk.emitted.len() {
            assert(after.emitted[j] == walk.emitted[j]);
        } else {
            assert(walk.stack[top].0 != walk.emitted[i]);
        }
    }
    assert forall|p: int, i: int|
        1 <= p < after.stack.len() && 0 <= i < done_len(after) implies (
    #[trigger] after.stack[p]).0 != #[trigger] after.emitted[i] by {
        assert(after.stack[p] == walk.stack[p]);
        if i < walk.emitted.len() {
            assert(after.emitted[i] == walk.emitted[i]);
        } else {
            assert(walk.stack[p].0 != walk.stack[top].0);
        }
    }
}

/// Emitting an entry above the starting entry keeps every node with the node
/// that scheduled it.
proof fn lemma_close_inner_parented(edges: Seq<Edge>, walk: Walk)
    requires
        parented(edges, walk),
        walk.stack.len() > 1,
        walk.stack.last().1,
    ensures
        parented(edges, emitted_top(walk)),
{
    let after = emitted_top(walk);
    let top = walk.stack.len() - 1;
    let node = walk.stack[top].0;
    assert forall|p: int| 1 <= p < after.stack.len() implies has_open_parent(
        edges,
        after,
        p,
        (#[trigger] after.stack[p]).0,
    ) by {
        assert(after.stack[p] == walk.stack[p]);
        assert(has_open_parent(edges, walk, p, walk.stack[p].0));
        let q = choose|q: int|
            0 <= q < p && q < walk.stack.len() && (#[trigger] walk.stack[q]).1 && has_edge(
                edges,
                walk.stack[q].0,
                walk.stack[p].0,
            );
        assert(after.stack[q] == walk.stack[q]);
    }
    assert forall|i: int| 0 <= i < done_len(after) implies has_open_parent(
        edges,
        after,
        after.stack.len() as int,
        #[trigger] after.emitted[i],
    ) || has_done_parent(edges, after, i, after.emitted[i]) by {
        if i < walk.emitted.len() {
            let found = walk.emitted[i];
            assert(after.emitted[i] == found);
            if has_open_parent(edges, walk, walk.stack.len() as int, found) {
                let q = choose|q: int|
                    0 <= q < walk.stack.len() && q < walk.stack.len() && (
                    #[trigger] walk.stack[q]).1 && has_edge(edges, walk.stack[q].0, found);
                if q == top {
                    assert(after.emitted[walk.emitted.len() as int] == node);
                    assert(has_done_parent(edges, after, i, found));
                } else {
                    assert(after.stack[q] == walk.stack[q]);
                    assert(has_open_parent(edges, after, after.stack.len() as int, found));
                }
            } else {
                let j = choose|j: int|
                    i < j < walk.emitted.len() && has_edge(edges, #[trigger] walk.emitted[j], found);
                assert(after.emitted[j] == walk.emitted[j]);
                assert(has_done_parent(edges, after, i, found));
            }
        } else {
            assert(after.emitted[i] == node);
            assert(has_open_parent(edges, walk, top, walk.stack[top].0));
            let q = choose|q: int|
                0 <= q < top && q < walk.stack.len() && (#[trigger] walk.stack[q]).1 && has_edge(
                    edges,
                    walk.stack[q].0,
                    node,
                );
            assert(after.stack[q] == walk.stack[q]);
            assert(has_open_parent(edges, after, after.stack.len() as int, node));
        }
    }
}

/// Emitting the top entry leaves every successor of an expanded node
/// scheduled.
proof fn lemma_close_closed(edges: Seq<Edge>, walk: Walk)
    requires
        closed_under_edges(edges, walk),
        walk.stack.len() > 0,
        walk.stack.last().1,
    ensures
        closed_under_edges(edges, emitted_top(walk)),
{
    let after = emitted_top(walk);
    let top = walk.stack.len() - 1;
    if !after.more {
        assert forall|j: int| 0 <= j < after.emitted.len() implies settled(
            edges,
            after,
            #[trigger] after.emitted[j],
        ) by {
            if j < walk.emitted.len() {
                assert(after.emitted[j] == walk.emitted[j]);
                assert(settled(edges, walk, walk.emitted[j]));
            } else {
                assert(settled(edges, walk, walk.stack[top].0));
            }
        }
        assert forall|q: int| 0 <= q < after.stack.len() && (#[trigger] after.stack[q]).1 implies settled(
            edges,
            after,
            after.stack[q].0,
        ) by {
            assert(after.stack[q] == walk.stack[q]);
            assert(settled(edges, walk, walk.stack[q].0));
        }
    }
}

/// Emitting the top entry keeps what holds at every step.
proof fn lemma_close_keeps(edges: Seq<Edge>, since: Node, limit: Option<usize>, walk: Walk)
    requires
        kept(edges, since, limit, walk),
        closed_under_edges(edges, walk),
        walk.stack.len() > 0,
        walk.stack.last().1,
    ensures
        kept(edges, since, limit, step(edges, limit, walk)),
        closed_under_edges(edges, step(edges, limit, walk)),
{
    assert(step(edges, limit, walk) == emitted_top(walk));
    if walk.stack.len() == 1 {
        lemma_close_root_shaped(since, limit, walk);
        lemma_close_root_parented(edges, walk);
    } else {
        lemma_close_inner_shaped(since, limit, walk);
        lemma_close_inner_parented(edges, walk);
    }
    lemma_close_closed(edges, walk);
}

/// Putting the top entry back to wait for its emission keeps what holds at
/// every step.
proof fn lemma_reopen_keeps(edges: Seq<Edge>, since: Node, limit: Option<usize>, walk: Walk)
    requires
        kept(edges, since, limit, walk),
        walk.stack.len() > 0,
        !walk.stack.last().1,
    ensures
        kept(edges, since, limit, reopened_top(walk)),
{
    let after = reopened_top(walk);
    let top = walk.stack.len() - 1;
    assert(after.stack.len() == walk.stack.len());
    assert forall|q: int| 0 <= q < top implies #[trigger] after.stack[q] == walk.stack[q] by {}
    assert(after.stack[top] == (walk.stack[top].0, true));
    assert(done_len(after) == done_len(walk));
    assert(shaped(since, limit, after)) by {
        assert forall|p: int| 0 <= p < after.stack.len() implies (#[trigger] after.stack[p]).0
            == walk.stack[p].0 by {}
        assert forall|k: int| 0 <= k < after.visited.len() implies waits(
            after,
            #[trigger] after.visited[k],
        ) || is_done(after, after.visited[k]) by {
            let found = walk.visited[k];
            if waits(walk, found) {
                let p = lemma_waiting_place(walk, found);
                assert(after.stack[p].0 == found);
                lemma_waits_at(after, p);
            } else {
                let i = lemma_done_place(walk, found);
                assert(after.emitted[i] == found);
                lemma_done_at(after, i);
            }
        }
        assert forall|p: int, q: int| 1 <= p < q < after.stack.len() implies (
        #[trigger] after.stack[p]).0 != (#[trigger] after.stack[q]).0 by {
            assert(walk.stack[p].0 != walk.stack[q].0);
        }
        assert forall|p: int, i: int|
            1 <= p < after.stack.len() && 0 <= i < done_len(after) implies (
        #[trigger] after.stack[p]).0 != #[trigger] after.emitted[i] by {
            assert(walk.stack[p].0 != walk.emitted[i]);
        }
    }
    assert(parented(edges, after)) by {
        assert forall|p: int| 1 <= p < after.stack.len() implies has_open_parent(
            edges,
            after,
            p,
            (#[trigger] after.stack[p]).0,
        ) by {
            assert(has_open_parent(edges, walk, p, walk.stack[p].0));
            let q = choose|q: int|
                0 <= q < p && q < walk.stack.len() && (#[trigger] walk.stack[q]).1 && has_edge(
                    edges,
                    walk.stack[q].0,
                    walk.stack[p].0,
                );
            assert(after.stack[q] == walk.stack[q]);
        }
        assert forall|i: int| 0 <= i < done_len(after) implies has_open_parent(
            edges,
            after,
            after.stack.len() as int,
            #[trigger] after.emitted[i],
        ) || has_done_parent(edges, after, i, after.emitted[i]) by {
            let found = walk.emitted[i];
            if has_open_parent(edges, walk, walk.stack.len() as int, found) {
                let q = choose|q: int|
                    0 <= q < walk.stack.len() && q < walk.stack.len() && (
                    #[trigger] walk.stack[q]).1 && has_edge(edges, walk.stack[q].0, found);
                assert(after.stack[q] == walk.stack[q]);
            } else {
                assert(has_done_parent(edges, walk, i, found));
            }
        }
    }
}

/// Expanding the top entry keeps what holds at every step.
proof fn lemma_expand_keeps(edges: Seq<Edge>, since: Node, limit: Option<usize>, walk: Walk)
    requires
        kept(edges, since, limit, walk),
        closed_under_edges(edges, walk),
        walk.stack.len() > 0,
        !walk.stack.last().1,
    ensures
        kept(edges, since, limit, step(edges, limit, walk)),
        closed_under_edges(edges, step(edges, limit, walk)),
{
    let top = walk.stack.len() - 1;
    let node = walk.stack[top].0;
    let waiting = reopened_top(walk);
    let targets = successors(edges, node);
    let after = step(edges, limit, walk);
    lemma_reopen_keeps(edges, since, limit, walk);
    assert(waiting.stack[top] == (node, true));
    assert forall|q: int| 0 <= q < top implies #[trigger] waiting.stack[q] == walk.stack[q] by {}
    assert forall|i: int| 0 <= i < targets.len() implies has_edge(
        edges,
        waiting.stack[top].0,
        #[trigger] targets[i],
    ) by {
        lemma_successors_are_edges(edges, node, targets[i]);
    }
    lemma_schedule_keeps(edges, since, limit, waiting, top, targets);
    if !after.more {
        assert forall|j: int| 0 <= j < after.emitted.len() implies settled(
            edges,
            after,
            #[trigger] after.emitted[j],
        ) by {
            assert(settled(edges, walk, walk.emitted[j]));
        }
        assert forall|q: int| 0 <= q < after.stack.len() && (#[trigger] after.stack[q]).1 implies settled(
            edges,
            after,
            after.stack[q].0,
        ) by {
            assert(q < waiting.stack.len());
            assert(after.stack[q] == waiting.stack[q]);
            if q == top {
                assert forall|target: Node| #[trigger]
                    has_edge(edges, node, target) implies after.visited.contains(target) by {
                    lemma_successors_are_edges(edges, node, target);
                    let i = choose|i: int| 0 <= i < targets.len() && targets[i] == target;
                    assert(after.visited.contains(targets[i]));
                }
            } else {
                assert(waiting.stack[q] == walk.stack[q]);
                assert(settled(edges, walk, walk.stack[q].0));
            }
        }
    }
}

/// What holds of a walk from `since` at every step, with what holds of the
/// nodes that it has expanded.
pub open spec fn holds(edges: Seq<Edge>, since: Node, limit: Option<usize>, walk: Walk) -> bool {
    kept(edges, since, limit, walk) && closed_under_edges(edges, walk)
}

/// Every step keeps what holds of a walk.
pub proof fn lemma_step_holds(edges: Seq<Edge>, since: Node, limit: Option<usize>, walk: Walk)
    requires
        holds(edges, since, limit, walk),
        walk.stack.len() > 0,
    ensures
        holds(edges, since, limit, step(edges, limit, walk)),
{
    if walk.stack.last().1 {
        lemma_close_keeps(edges, since, limit, walk);
    } else {
        lemma_expand_keeps(edges, since, limit, walk);
    }
}

/// A walk that is taken to its end ends with an empty stack, and what held
/// of it at the start holds at the end.
proof fn lemma_run_keeps(edges: Seq<Edge>, since: Node, limit: Option<usize>, walk: Walk)
    requires
        holds(edges, since, limit, walk),
    ensures
        holds(edges, since, limit, run(edges, limit, walk)),
        run(edges, limit, walk).stack.len() == 0,
    decreases weight(edges, walk),
{
    if walk.stack.len() > 0 {
        lemma_step_holds(edges, since, limit, walk);
        lemma_step_lowers_weight(edges, limit, walk);
        lemma_run_keeps(edges, since, limit, step(edges, limit, walk));
    }
}

/// What holds of a walk at every step holds before the first.
pub proof fn lemma_start_holds(edges: Seq<Edge>, since: Node, limit: Option<usize>)
    ensures
        holds(edges, since, limit, start(since)),
{
    let first = start(since);
    assert(first.stack[0] == (since, false));
}

/// The end of the walk from `since`: nothing is left on the stack, and what
/// holds at every step holds.
pub proof fn lemma_walk_ends(edges: Seq<Edge>, since: Node, limit: Option<usize>)
    ensures
        holds(edges, since, limit, run(edges, limit, start(since))),
        run(edges, limit, start(since)).stack.len() == 0,
{
    lemma_start_holds(edges, since, limit);
    lemma_run_keeps(edges, since, limit, start(since));
}

/// At the end of a walk, the reading holds the scheduled nodes, and only them.
proof fn lemma_reading_is_visited(edges: Seq<Edge>, since: Node, limit: Option<usize>, node: Node)
    ensures
        traversal(edges, since, limit).0.contains(node) <==> run(
            edges,
            limit,
            start(since),
        ).visited.contains(node),
        traversal(edges, since, limit).0.len() == run(edges, limit, start(since)).visited.len(),
{
    lemma_walk_ends(edges, since, limit);
    let end = run(edges, limit, start(since));
    let order = traversal(edges, since, limit).0;
    let count = done_len(end);
    assert(order.len() == count);
    if order.contains(node) {
        let a = choose|a: int| 0 <= a < order.len() && order[a] == node;
        assert(order[a] == end.emitted[count - 1 - a]);
        assert(end.visited.contains(end.emitted[count - 1 - a]));
    }
    if end.visited.contains(node) {
        let k = choose|k: int| 0 <= k < end.visited.len() && end.visited[k] == node;
        assert(waits(end, end.visited[k]) || is_done(end, end.visited[k]));
        if waits(end, node) {
            let p = lemma_waiting_place(end, node);
        }
        let i = lemma_done_place(end, node);
        assert(order[count - 1 - i] == node);
    }
}

/// Emitted nodes that differ from place to place still do when they are
/// read backwards.
proof fn lemma_backwards_distinct(emitted: Seq<Node>)
    requires
        forall|i: int, j: int|
            0 <= i < j < emitted.len() ==> #[trigger] emitted[i] != #[trigger] emitted[j],
    ensures
        emitted.reverse().no_duplicates(),
{
    let order = emitted.reverse();
    assert forall|a: int, b: int| 0 <= a < order.len() && 0 <= b < order.len() && a != b implies order[a]
        != order[b] by {
        let i = emitted.len() - 1 - a;
        let j = emitted.len() - 1 - b;
        assert(order[a] == emitted[i]);
        assert(order[b] == emitted[j]);
        if i < j {
            assert(emitted[i] != emitted[j]);
        } else {
            assert(emitted[j] != emitted[i]);
        }
    }
}

/// No address comes twice in a read.
pub proof fn lemma_read_has_no_duplicates(edges: Seq<Edge>, since: Node, limit: Option<usize>)
    ensures
        traversal(edges, since, limit).0.no_duplicates(),
{
    lemma_walk_ends(edges, since, limit);
    let end = run(edges, limit, start(since));
    let done = end.emitted.drop_last();
    assert(done.len() == done_len(end));
    assert forall|i: int, j: int| 0 <= i < j < done.len() implies #[trigger] done[i]
        != #[trigger] done[j] by {
        assert(done[i] == end.emitted[i]);
        assert(done[j] == end.emitted[j]);
        assert(end.emitted[i] != end.emitted[j]);
    }
    lemma_backwards_distinct(done);
}

/// Every address in a read can be reached from the starting address over one
/// edge or more.
pub proof fn lemma_read_is_reachable(edges: Seq<Edge>, since: Node, limit: Option<usize>)
    ensures
        forall|a: int|
            0 <= a < traversal(edges, since, limit).0.len() ==> reaches(
                edges,
                since,
                #[trigger] traversal(edges, since, limit).0[a],
            ),
{
    lemma_walk_ends(edges, since, limit);
    let end = run(edges, limit, start(since));
    let order = traversal(edges, since, limit).0;
    assert forall|a: int| 0 <= a < order.len() implies reaches(edges, since, #[trigger] order[a]) by {
        lemma_reading_is_visited(edges, since, limit, order[a]);
        let k = choose|k: int| 0 <= k < end.visited.len() && end.visited[k] == order[a];
        assert(reaches(edges, since, end.visited[k]));
    }
}

/// A read holds no more addresses than its limit allows.
pub proof fn lemma_read_within_limit(edges: Seq<Edge>, since: Node, limit: Option<usize>)
    ensures
        limit matches Some(most) ==> traversal(edges, since, limit).0.len() <= most,
{
    lemma_walk_ends(edges, since, limit);
    lemma_reading_is_visited(edges, since, limit, since);
}

/// Along a way from the starting node, every node after the first has been
/// scheduled by the end of a walk that does not say that there is more.
proof fn lemma_way_is_visited(edges: Seq<Edge>, since: Node, end: Walk, path: Seq<Node>, upto: int)
    requires
        !end.more,
        closed_under_edges(edges, end),
        end.stack.len() == 0,
        end.emitted.len() > 0,
        end.emitted.last() == since,
        forall|k: int| 0 <= k < end.visited.len() ==> is_done(end, #[trigger] end.visited[k]),
        is_path(edges, path),
        path.first() == since,
        1 <= upto < path.len(),
    ensures
        end.visited.contains(path[upto]),
    decreases upto,
{
    let from = path[upto - 1];
    assert(has_edge(edges, path[upto - 1], path[upto - 1 + 1]));
    if upto == 1 {
        assert(settled(edges, end, end.emitted[end.emitted.len() - 1]));
    } else {
        lemma_way_is_visited(edges, since, end, path, upto - 1);
        let k = choose|k: int| 0 <= k < end.visited.len() && end.visited[k] == from;
        assert(is_done(end, end.visited[k]));
        let i = lemma_done_place(end, from);
        assert(settled(edges, end, end.emitted[i]));
    }
}

/// A read says that there is more exactly when it leaves out an address that
/// can be reached from the starting address, and it then holds as many
/// addresses as the limit allows.
pub proof fn lemma_more_means_left_out(edges: Seq<Edge>, since: Node, limit: Option<usize>)
    ensures
        traversal(edges, since, limit).1 <==> exists|node: Node| #[trigger]
            reaches(edges, since, node) && !traversal(edges, since, limit).0.contains(node),
        traversal(edges, since, limit).1 ==> limit is Some && traversal(edges, since, limit).0.len()
            == limit.unwrap(),
{
    lemma_walk_ends(edges, since, limit);
    let end = run(edges, limit, start(since));
    let order = traversal(edges, since, limit).0;
    lemma_reading_is_visited(edges, since, limit, since);
    if end.more {
        let lost = choose|node: Node| #[trigger]
            reaches(edges, since, node) && !end.visited.contains(node);
        lemma_reading_is_visited(edges, since, limit, lost);
        assert(reaches(edges, since, lost) && !order.contains(lost));
    } else {
        assert forall|node: Node| #[trigger] reaches(edges, since, node) implies order.contains(
            node,
        ) by {
            let path = choose|path: Seq<Node>| #[trigger]
                is_path(edges, path) && path.first() == since && path.last() == node;
            assert forall|k: int| 0 <= k < end.visited.len() implies is_done(
                end,
                #[trigger] end.visited[k],
            ) by {
                assert(waits(end, end.visited[k]) || is_done(end, end.visited[k]));
                if waits(end, end.visited[k]) {
                    let p = lemma_waiting_place(end, end.visited[k]);
                }
            }
            lemma_way_is_visited(edges, since, end, path, path.len() - 1);
            lemma_reading_is_visited(edges, since, limit, node);
        }
    }
}

/// A read without a limit holds every address that can be reached from the
/// starting address.
pub proof fn lemma_unlimited_read_is_complete(edges: Seq<Edge>, since: Node, node: Node)
    requires
        reaches(edges, since, node),
    ensures
        traversal(edges, since, None).0.contains(node),
        !traversal(edges, since, None).1,
{
    lemma_more_means_left_out(edges, since, None);
}

/// Every address in a read comes after an address from which an edge leads
/// to it, unless such an edge leads to it from the starting address.
pub proof fn lemma_read_follows_edges(edges: Seq<Edge>, since: Node, limit: Option<usize>, place: int)
    requires
        0 <= place < traversal(edges, since, limit).0.len(),
    ensures
        has_edge(edges, since, traversal(edges, since, limit).0[place]) || exists|earlier: int|
            0 <= earlier < place && has_edge(
                edges,
                #[trigger] traversal(edges, since, limit).0[earlier],
                traversal(edges, since, limit).0[place],
            ),
{
    lemma_walk_ends(edges, since, limit);
    let end = run(edges, limit, start(since));
    let order = traversal(edges, since, limit).0;
    let count = done_len(end);
    let i = count - 1 - place;
    let node = order[place];
    assert(node == end.emitted[i]);
    assert(has_open_parent(edges, end, end.stack.len() as int, end.emitted[i]) || has_done_parent(
        edges,
        end,
        i,
        end.emitted[i],
    ));
    assert(!has_open_parent(edges, end, end.stack.len() as int, end.emitted[i]));
    let j = choose|j: int| i < j < end.emitted.len() && has_edge(edges, #[trigger] end.emitted[j], node);
    if j == count {
        assert(end.emitted[j] == since);
    } else {
        let earlier = count - 1 - j;
        assert(order[earlier] == end.emitted[j]);
        assert(0 <= earlier < place && has_edge(edges, order[earlier], order[place]));
    }
}

/// Whether no node has edges from two different nodes.
pub open spec fn has_single_parents(edges: Seq<Edge>) -> bool {
    forall|i: int, j: int|
        0 <= i < edges.len() && 0 <= j < edges.len() && (#[trigger] edges[i]).1 == (
        #[trigger] edges[j]).1 ==> edges[i].0 == edges[j].0
}

/// Where no node has edges from two different nodes, as in a chain or in a
/// fork, a read shows every address after the address that links to it: no
/// branch comes before the node that it hangs from. Only edges that leave the
/// starting address, which the read does not show, are left out of this.
pub proof fn lemma_branches_follow_their_parents(
    edges: Seq<Edge>,
    since: Node,
    limit: Option<usize>,
    parent: int,
    child: int,
)
    requires
        has_single_parents(edges),
        0 <= parent < traversal(edges, since, limit).0.len(),
        0 <= child < traversal(edges, since, limit).0.len(),
        traversal(edges, since, limit).0[parent] != since,
        has_edge(
            edges,
            traversal(edges, since, limit).0[parent],
            traversal(edges, since, limit).0[child],
        ),
    ensures
        parent < child,
{
    let order = traversal(edges, since, limit).0;
    lemma_read_follows_edges(edges, since, limit, child);
    lemma_read_has_no_duplicates(edges, since, limit);
    let known = choose|i: int| 0 <= i < edges.len() && edges[i] == (order[parent], order[child]);
    if has_edge(edges, since, order[child]) {
        let other = choose|j: int| 0 <= j < edges.len() && edges[j] == (since, order[child]);
        assert(edges[known].1 == edges[other].1);
        assert(false);
    }
    let earlier = choose|earlier: int|
        0 <= earlier < child && has_edge(edges, #[trigger] order[earlier], order[child]);
    let other = choose|j: int| 0 <= j < edges.len() && edges[j] == (order[earlier], order[child]);
    assert(edges[known].1 == edges[other].1);
    assert(order[earlier] == order[parent]);
    assert(earlier == parent);
}

/// A read does not show the address that it starts from, unless a cycle
/// leads back to that address.
pub proof fn lemma_read_leaves_start_out(edges: Seq<Edge>, since: Node, limit: Option<usize>)
    requires
        !reaches(edges, since, since),
    ensures
        !traversal(edges, since, limit).0.contains(since),
{
    let order = traversal(edges, since, limit).0;
    lemma_read_is_reachable(edges, since, limit);
    if order.contains(since) {
        let place = choose|place: int| 0 <= place < order.len() && order[place] == since;
        assert(reaches(edges, since, order[place]));
    }
}

} // verus!

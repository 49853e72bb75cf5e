//! Where branches meet: a new item in an unlimited read comes after the
//! items that it was linked from.
use vstd::prelude::*;
use crate::dag::LogState;
use crate::graph::{
    emitted_top, has_edge, lemma_step_lowers_weight, lemma_successors_are_edges, offer,
    reopened_top, run, schedule, start, step, successors, traversal, weight, Edge, Node, Walk,
};
use crate::laws::{
    holds, is_path, reaches, is_done, lemma_done_at, lemma_done_place, lemma_edge_reaches, lemma_reaches_further, lemma_read_is_reachable,
    lemma_start_holds, lemma_step_holds, lemma_unlimited_read_is_complete, lemma_walk_ends, settled,
};

verus! {

/// Whether no edge leads to `item` or from it.
pub open spec fn is_new(edges: Seq<Edge>, item: Node) -> bool {
    forall|i: int| 0 <= i < edges.len() ==> (#[trigger] edges[i]).0 != item && edges[i].1 != item
}

/// The edges of a stream after an item was linked from its two predecessors.
pub open spec fn with_links(edges: Seq<Edge>, authored: Node, foreign: Node, item: Node) -> Seq<Edge> {
    edges.push((authored, item)).push((foreign, item))
}

/// Whether `item` comes last among `targets`, however often it comes.
pub open spec fn comes_last(targets: Seq<Node>, item: Node) -> bool {
    forall|i: int, j: int|
        0 <= i < j < targets.len() && #[trigger] targets[i] == item ==> #[trigger] targets[j] == item
}

/// Whether `item` was emitted before place `place`.
pub open spec fn emitted_before(walk: Walk, place: int, item: Node) -> bool {
    exists|i: int| 0 <= i < place && i < walk.emitted.len() && #[trigger] walk.emitted[i] == item
}

/// What holds of a new item at every step of a walk: once scheduled it is on
/// top of the stack until it is emitted, and it is emitted before either of
/// its predecessors is.
pub open spec fn leaf_first(walk: Walk, authored: Node, foreign: Node, item: Node) -> bool {
    &&& walk.visited.contains(item) ==> is_done(walk, item) || (walk.stack.len() >= 2
        && walk.stack.last().0 == item)
    &&& forall|j: int|
        0 <= j < walk.emitted.len() && (#[trigger] walk.emitted[j] == authored || walk.emitted[j]
            == foreign) ==> emitted_before(walk, j, item)
}

/// The successors of a node after a new item was linked: the new item comes
/// last among them, and has none itself.
proof fn lemma_new_item_is_linked_last(
    edges: Seq<Edge>,
    authored: Node,
    foreign: Node,
    item: Node,
    node: Node,
)
    requires
        is_new(edges, item),
        authored != item,
        foreign != item,
    ensures
        comes_last(successors(with_links(edges, authored, foreign, item), node), item),
        node == item ==> successors(with_links(edges, authored, foreign, item), node).len() == 0,
        has_edge(with_links(edges, authored, foreign, item), authored, item),
        has_edge(with_links(edges, authored, foreign, item), foreign, item),
{
    let grown = with_links(edges, authored, foreign, item);
    let half = edges.push((authored, item));
    assert(grown.drop_last() == half);
    assert(half.drop_last() == edges);
    assert(grown[grown.len() - 2] == (authored, item));
    assert(grown[grown.len() - 1] == (foreign, item));
    let clean = successors(edges, node);
    assert forall|k: int| 0 <= k < clean.len() implies clean[k] != item by {
        lemma_successors_are_edges(edges, node, clean[k]);
        assert(clean.contains(clean[k]));
        if clean[k] == item {
            let i = choose|i: int| 0 <= i < edges.len() && edges[i] == (node, item);
            assert(edges[i].1 == item);
        }
    }
    if node == item && clean.len() > 0 {
        lemma_successors_are_edges(edges, node, clean[0]);
        assert(clean.contains(clean[0]));
        let i = choose|i: int| 0 <= i < edges.len() && edges[i] == (node, clean[0]);
        assert(edges[i].0 == item);
    }
    let middle = successors(half, node);
    let all = successors(grown, node);
    assert(middle == if authored == node {
        clean.push(item)
    } else {
        clean
    });
    assert(all == if foreign == node {
        middle.push(item)
    } else {
        middle
    });
}

/// Scheduling visits no node that was not offered.
proof fn lemma_schedule_visits_targets(targets: Seq<Node>, limit: Option<usize>, walk: Walk, node: Node)
    requires
        schedule(targets, limit, walk).visited.contains(node),
        !walk.visited.contains(node),
    ensures
        targets.contains(node),
    decreases targets.len(),
{
    if targets.len() > 0 {
        let front = targets.drop_last();
        let mid = schedule(front, limit, walk);
        let end = schedule(targets, limit, walk);
        if mid.visited.contains(node) {
            lemma_schedule_visits_targets(front, limit, walk, node);
            let i = choose|i: int| 0 <= i < front.len() && front[i] == node;
            assert(targets[i] == node);
        } else {
            let k = choose|k: int| 0 <= k < end.visited.len() && end.visited[k] == node;
            if k < mid.visited.len() {
                assert(mid.visited[k] == node);
            }
            assert(targets[targets.len() - 1] == node);
        }
    }
}

/// Where scheduling without a limit visits a node that comes last among the
/// targets, that node ends on top of the stack.
proof fn lemma_schedule_leaves_last_on_top(targets: Seq<Node>, walk: Walk, item: Node)
    requires
        comes_last(targets, item),
        !walk.visited.contains(item),
        schedule(targets, None, walk).visited.contains(item),
    ensures
        schedule(targets, None, walk).stack.len() > walk.stack.len(),
        schedule(targets, None, walk).stack.last().0 == item,
    decreases targets.len(),
{
    if targets.len() > 0 {
        let front = targets.drop_last();
        let last = targets.last();
        let mid = schedule(front, None, walk);
        assert forall|i: int, j: int|
            0 <= i < j < front.len() && #[trigger] front[i] == item implies #[trigger] front[j]
            == item by {
            assert(targets[i] == item);
            assert(targets[j] == front[j]);
        }
        if mid.visited.contains(item) {
            lemma_schedule_visits_targets(front, None, walk, item);
            let i = choose|i: int| 0 <= i < front.len() && front[i] == item;
            assert(targets[i] == item);
            assert(targets[targets.len() - 1] == item);
            lemma_schedule_leaves_last_on_top(front, walk, item);
        } else {
            let end = offer(last, None, mid);
            if last != item {
                let k = choose|k: int| 0 <= k < end.visited.len() && end.visited[k] == item;
                if k < mid.visited.len() {
                    assert(mid.visited[k] == item);
                }
                assert(false);
            }
            lemma_schedule_grows_stack(front, None, walk);
        }
    } else {
        assert(false);
    }
}

/// Scheduling takes nothing off the stack.
proof fn lemma_schedule_grows_stack(targets: Seq<Node>, limit: Option<usize>, walk: Walk)
    ensures
        schedule(targets, limit, walk).stack.len() >= walk.stack.len(),
        schedule(targets, limit, walk).emitted == walk.emitted,
        forall|node: Node|
            walk.visited.contains(node) ==> #[trigger] schedule(
                targets,
                limit,
                walk,
            ).visited.contains(node),
    decreases targets.len(),
{
    if targets.len() > 0 {
        let front = targets.drop_last();
        let mid = schedule(front, limit, walk);
        let end = schedule(targets, limit, walk);
        lemma_schedule_grows_stack(front, limit, walk);
        assert forall|node: Node| walk.visited.contains(node) implies #[trigger]
            end.visited.contains(node) by {
            assert(mid.visited.contains(node));
            let k = choose|k: int| 0 <= k < mid.visited.len() && mid.visited[k] == node;
            assert(end.visited[k] == node);
        }
    }
}

/// A step of an unlimited walk keeps what holds of a new item.
proof fn lemma_step_keeps_leaf_first(
    edges: Seq<Edge>,
    since: Node,
    authored: Node,
    foreign: Node,
    item: Node,
    walk: Walk,
)
    requires
        is_new(edges, item),
        authored != item,
        foreign != item,
        since != item,
        holds(with_links(edges, authored, foreign, item), since, None, walk),
        leaf_first(walk, authored, foreign, item),
        walk.stack.len() > 0,
    ensures
        leaf_first(
            step(with_links(edges, authored, foreign, item), None, walk),
            authored,
            foreign,
            item,
        ),
{
    let grown = with_links(edges, authored, foreign, item);
    let after = step(grown, None, walk);
    let top = walk.stack.len() - 1;
    let node = walk.stack[top].0;
    lemma_new_item_is_linked_last(edges, authored, foreign, item, node);
    assert(!walk.more);
    if walk.stack.last().1 {
        assert(after == emitted_top(walk));
        assert forall|i: int| 0 <= i < walk.emitted.len() implies #[trigger] after.emitted[i]
            == walk.emitted[i] by {}
        if walk.visited.contains(item) {
            if is_done(walk, item) {
                let i = lemma_done_place(walk, item);
                assert(after.emitted[i] == item);
                lemma_done_at(after, i);
            } else {
                assert(after.emitted[walk.emitted.len() as int] == item);
                lemma_done_at(after, walk.emitted.len() as int);
            }
        }
        assert forall|j: int|
            0 <= j < after.emitted.len() && (#[trigger] after.emitted[j] == authored
                || after.emitted[j] == foreign) implies emitted_before(after, j, item) by {
            if j < walk.emitted.len() {
                assert(walk.emitted[j] == authored || walk.emitted[j] == foreign);
                assert(emitted_before(walk, j, item));
                let i = choose|i: int|
                    0 <= i < j && i < walk.emitted.len() && #[trigger] walk.emitted[i] == item;
                assert(after.emitted[i] == item);
            } else {
                assert(node == authored || node == foreign);
                assert(settled(grown, walk, walk.stack[top].0));
                assert(has_edge(grown, node, item));
                assert(walk.visited.contains(item));
                assert(is_done(walk, item));
                let i = lemma_done_place(walk, item);
                assert(after.emitted[i] == item);
            }
        }
    } else {
        let waiting = reopened_top(walk);
        let targets = successors(grown, node);
        assert(after == schedule(targets, None, waiting));
        lemma_schedule_grows_stack(targets, None, waiting);
        assert(waiting.stack.len() == walk.stack.len());
        assert(after.emitted == walk.emitted);
        if after.visited.contains(item) {
            if node == item {
                assert(targets =~= Seq::<Node>::empty());
                assert(after == waiting);
                assert(walk.visited.contains(item));
                assert(waiting.stack.last().0 == item);
                if walk.stack.len() == 1 {
                    assert(walk.stack[0].0 == since);
                }
            } else if walk.visited.contains(item) {
                assert(is_done(walk, item));
                let i = lemma_done_place(walk, item);
                assert(after.emitted[i] == item);
                lemma_done_at(after, i);
            } else {
                lemma_schedule_leaves_last_on_top(targets, waiting, item);
            }
        }
        assert forall|j: int|
            0 <= j < after.emitted.len() && (#[trigger] after.emitted[j] == authored
                || after.emitted[j] == foreign) implies emitted_before(after, j, item) by {
            assert(walk.emitted[j] == authored || walk.emitted[j] == foreign);
            assert(emitted_before(walk, j, item));
            let i = choose|i: int|
                0 <= i < j && i < walk.emitted.len() && #[trigger] walk.emitted[i] == item;
            assert(after.emitted[i] == item);
        }
    }
}

/// An unlimited walk that is taken to its end keeps what holds of a new item.
proof fn lemma_run_keeps_leaf_first(
    edges: Seq<Edge>,
    since: Node,
    authored: Node,
    foreign: Node,
    item: Node,
    walk: Walk,
)
    requires
        is_new(edges, item),
        authored != item,
        foreign != item,
        since != item,
        holds(with_links(edges, authored, foreign, item), since, None, walk),
        leaf_first(walk, authored, foreign, item),
    ensures
        leaf_first(
            run(with_links(edges, authored, foreign, item), None, walk),
            authored,
            foreign,
            item,
        ),
    decreases weight(with_links(edges, authored, foreign, item), walk),
{
    let grown = with_links(edges, authored, foreign, item);
    if walk.stack.len() > 0 {
        lemma_step_keeps_leaf_first(edges, since, authored, foreign, item, walk);
        lemma_step_holds(grown, since, None, walk);
        lemma_step_lowers_weight(grown, None, walk);
        lemma_run_keeps_leaf_first(edges, since, authored, foreign, item, step(grown, None, walk));
    }
}

/// At the end of an unlimited walk, a new item was emitted before either of
/// its predecessors.
proof fn lemma_walk_ends_leaf_first(
    edges: Seq<Edge>,
    since: Node,
    authored: Node,
    foreign: Node,
    item: Node,
)
    requires
        is_new(edges, item),
        authored != item,
        foreign != item,
        since != item,
    ensures
        leaf_first(
            run(with_links(edges, authored, foreign, item), None, start(since)),
            authored,
            foreign,
            item,
        ),
        run(with_links(edges, authored, foreign, item), None, start(since)).emitted.len() > 0,
{
    let grown = with_links(edges, authored, foreign, item);
    let first = start(since);
    lemma_walk_ends(grown, since, None);
    lemma_start_holds(grown, since, None);
    assert(leaf_first(first, authored, foreign, item));
    lemma_run_keeps_leaf_first(edges, since, authored, foreign, item, first);
}

/// What was emitted earlier comes later when the emitted nodes are read
/// backwards.
proof fn lemma_earlier_reads_later(emitted: Seq<Node>, place: int, item: Node)
    requires
        0 <= place < emitted.reverse().len(),
        exists|i: int|
            0 <= i < emitted.len() - 1 - place && i < emitted.len() && #[trigger] emitted[i] == item,
    ensures
        exists|later: int|
            place < later < emitted.reverse().len() && #[trigger] emitted.reverse()[later] == item,
{
    let i = choose|i: int|
        0 <= i < emitted.len() - 1 - place && i < emitted.len() && #[trigger] emitted[i] == item;
    let later = emitted.len() - 1 - i;
    assert(emitted.reverse()[later] == emitted[i]);
}

/// After a new item was linked from its two predecessors, a read without a
/// limit shows the item after each of the two that it shows: where branches
/// meet in an item, both come before it.
pub proof fn lemma_new_item_follows_its_predecessors(
    edges: Seq<Edge>,
    since: Node,
    authored: Node,
    foreign: Node,
    item: Node,
    place: int,
)
    requires
        is_new(edges, item),
        authored != item,
        foreign != item,
        since != item,
        0 <= place < traversal(with_links(edges, authored, foreign, item), since, None).0.len(),
        traversal(with_links(edges, authored, foreign, item), since, None).0[place] == authored
            || traversal(with_links(edges, authored, foreign, item), since, None).0[place]
            == foreign,
    ensures
        exists|later: int|
            place < later < traversal(
                with_links(edges, authored, foreign, item),
                since,
                None,
            ).0.len() && #[trigger] traversal(
                with_links(edges, authored, foreign, item),
                since,
                None,
            ).0[later] == item,
{
    let grown = with_links(edges, authored, foreign, item);
    let end = run(grown, None, start(since));
    lemma_walk_ends_leaf_first(edges, since, authored, foreign, item);
    let done = end.emitted.drop_last();
    assert(traversal(grown, since, None).0 == done.reverse());
    let j = done.len() - 1 - place;
    assert(done.reverse()[place] == done[j]);
    assert(end.emitted[j] == done[j]);
    assert(emitted_before(end, j, item));
    let i = choose|i: int| 0 <= i < j && i < end.emitted.len() && #[trigger] end.emitted[i] == item;
    assert(done[i] == item);
    lemma_earlier_reads_later(done, place, item);
}

/// After a new item was linked from its two predecessors, a read without a
/// limit that starts at one of the two, or shows one of them, shows the item.
pub proof fn lemma_new_item_is_read(
    edges: Seq<Edge>,
    since: Node,
    authored: Node,
    foreign: Node,
    item: Node,
)
    requires
        since == authored || since == foreign || traversal(
            with_links(edges, authored, foreign, item),
            since,
            None,
        ).0.contains(authored) || traversal(
            with_links(edges, authored, foreign, item),
            since,
            None,
        ).0.contains(foreign),
    ensures
        traversal(with_links(edges, authored, foreign, item), since, None).0.contains(item),
{
    let grown = with_links(edges, authored, foreign, item);
    let order = traversal(grown, since, None).0;
    assert(grown[grown.len() - 2] == (authored, item));
    assert(grown[grown.len() - 1] == (foreign, item));
    let from = if since == authored || order.contains(authored) {
        authored
    } else {
        foreign
    };
    assert(has_edge(grown, from, item));
    if since == from {
        lemma_edge_reaches(grown, since, item);
    } else {
        lemma_read_is_reachable(grown, since, None);
        let a = choose|a: int| 0 <= a < order.len() && order[a] == from;
        lemma_reaches_further(grown, since, order[a], item);
    }
    lemma_unlimited_read_is_complete(grown, since, item);
}

/// After an append, the stream has the edges that it had and the two links
/// of the new item.
pub proof fn lemma_append_adds_links(
    before: LogState,
    table: Seq<char>,
    fallback_root: Node,
    address: Node,
)
    ensures
        before.with_appended(table, fallback_root, address).edges(table) == with_links(
            before.edges(table),
            before.own_tip(table),
            before.frontier(table, fallback_root),
            address,
        ),
{
    let after = before.with_appended(table, fallback_root, address);
    assert(after.edges(table) =~= with_links(
        before.edges(table),
        before.own_tip(table),
        before.frontier(table, fallback_root),
        address,
    ));
}

/// After a peer appended an item, an unlimited read of the stream shows the
/// item after the tip that the peer's chain had and after the frontier that
/// the peer had in sight, wherever the read shows them: the branches that the
/// append brings together come before the item in which they meet.
pub proof fn lemma_append_converges(
    before: LogState,
    table: Seq<char>,
    fallback_root: Node,
    address: Node,
    since: Node,
    place: int,
)
    requires
        is_new(before.edges(table), address),
        address != before.own_tip(table),
        address != before.frontier(table, fallback_root),
        address != since,
        0 <= place < traversal(
            before.with_appended(table, fallback_root, address).edges(table),
            since,
            None,
        ).0.len(),
        traversal(
            before.with_appended(table, fallback_root, address).edges(table),
            since,
            None,
        ).0[place] == before.own_tip(table) || traversal(
            before.with_appended(table, fallback_root, address).edges(table),
            since,
            None,
        ).0[place] == before.frontier(table, fallback_root),
    ensures
        exists|later: int|
            place < later < traversal(
                before.with_appended(table, fallback_root, address).edges(table),
                since,
                None,
            ).0.len() && #[trigger] traversal(
                before.with_appended(table, fallback_root, address).edges(table),
                since,
                None,
            ).0[later] == address,
{
    lemma_append_adds_links(before, table, fallback_root, address);
    lemma_new_item_follows_its_predecessors(
        before.edges(table),
        since,
        before.own_tip(table),
        before.frontier(table, fallback_root),
        address,
        place,
    );
}

/// Whether no node can be reached from itself.
pub open spec fn is_acyclic(edges: Seq<Edge>) -> bool {
    forall|node: Node| !#[trigger] reaches(edges, node, node)
}

/// A way through a stream that has gained the links of a new item does not
/// leave the new item: the new item can only be where the way ends.
proof fn lemma_new_item_ends_ways(
    edges: Seq<Edge>,
    authored: Node,
    foreign: Node,
    item: Node,
    path: Seq<Node>,
    place: int,
)
    requires
        is_new(edges, item),
        authored != item,
        foreign != item,
        is_path(with_links(edges, authored, foreign, item), path),
        0 <= place < path.len() - 1,
    ensures
        path[place] != item,
{
    let grown = with_links(edges, authored, foreign, item);
    assert(has_edge(grown, path[place], path[place + 1]));
    let i = choose|i: int| 0 <= i < grown.len() && grown[i] == (path[place], path[place + 1]);
    if i < edges.len() {
        assert(grown[i] == edges[i]);
    }
}

/// Linking a new item keeps a stream free of cycles: the edges of an append
/// lead from what was there to what was not.
pub proof fn lemma_append_keeps_acyclic(edges: Seq<Edge>, authored: Node, foreign: Node, item: Node)
    requires
        is_acyclic(edges),
        is_new(edges, item),
        authored != item,
        foreign != item,
    ensures
        is_acyclic(with_links(edges, authored, foreign, item)),
{
    let grown = with_links(edges, authored, foreign, item);
    assert forall|node: Node| !#[trigger] reaches(grown, node, node) by {
        if reaches(grown, node, node) {
            let path = choose|path: Seq<Node>| #[trigger]
                is_path(grown, path) && path.first() == node && path.last() == node;
            lemma_new_item_ends_ways(edges, authored, foreign, item, path, 0);
            assert(path[path.len() - 1] != item);
            assert forall|i: int| 0 <= i < path.len() - 1 implies has_edge(
                edges,
                #[trigger] path[i],
                path[i + 1],
            ) by {
                assert(has_edge(grown, path[i], path[i + 1]));
                if i + 1 < path.len() - 1 {
                    lemma_new_item_ends_ways(edges, authored, foreign, item, path, i + 1);
                }
                let k = choose|k: int| 0 <= k < grown.len() && grown[k] == (path[i], path[i + 1]);
                if k >= edges.len() {
                    assert(grown[k].1 == item);
                    assert(false);
                }
                assert(edges[k] == (path[i], path[i + 1]));
            }
            assert(is_path(edges, path));
            assert(reaches(edges, node, node));
        }
    }
}

} // verus!

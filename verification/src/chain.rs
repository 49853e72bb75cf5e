//! Reads of a pure chain: a stream in which every node has one successor at
//! most, as one peer writes it alone.
use vstd::prelude::*;
use crate::graph::{
    emitted_top, offer, reading, reopened_top, run, schedule, start, step, successors, traversal,
    Edge, Node, Walk,
};

verus! {

/// Whether `path` is a chain in `edges`: its nodes differ from each other,
/// each but the last has the next one as its only successor, and the last has
/// none.
pub open spec fn is_chain(edges: Seq<Edge>, path: Seq<Node>) -> bool {
    &&& path.len() >= 1
    &&& path.no_duplicates()
    &&& forall|i: int|
        0 <= i < path.len() - 1 ==> #[trigger] successors(edges, path[i]) == seq![path[i + 1]]
    &&& successors(edges, path.last()) == Seq::<Node>::empty()
}

/// The number of nodes that a read of a chain with `count` nodes after the
/// starting node returns under `limit`.
pub open spec fn page_len(count: int, limit: Option<usize>) -> int {
    match limit {
        None => count,
        Some(most) => if most < count {
            most as int
        } else {
            count
        },
    }
}

/// The first `count` nodes of `path`, each waiting to be emitted.
pub open spec fn opened(path: Seq<Node>, count: int) -> Seq<(Node, bool)> {
    Seq::new(count as nat, |q: int| (path[q], true))
}

/// The walk down a chain when it is about to expand the node at `place`.
pub open spec fn going_down(path: Seq<Node>, place: int) -> Walk {
    Walk {
        stack: opened(path, place).push((path[place], false)),
        visited: path.subrange(1, place + 1),
        emitted: Seq::empty(),
        more: false,
    }
}

/// The walk back up a chain that was followed down to `deepest`, when the
/// node at `place` is the next to be emitted; at -1 the walk has ended.
pub open spec fn coming_up(path: Seq<Node>, deepest: int, place: int, more: bool) -> Walk {
    Walk {
        stack: opened(path, place + 1),
        visited: path.subrange(1, deepest + 1),
        emitted: Seq::new((deepest - place) as nat, |q: int| path[deepest - q]),
        more,
    }
}

/// Offering the only successor of a node of a chain.
proof fn lemma_schedule_one(target: Node, limit: Option<usize>, walk: Walk)
    ensures
        schedule(seq![target], limit, walk) == offer(target, limit, walk),
        schedule(Seq::<Node>::empty(), limit, walk) == walk,
{
    let one = seq![target];
    assert(one.drop_last() =~= Seq::<Node>::empty());
    assert(one.last() == target);
    reveal_with_fuel(schedule, 3);
}

/// The way back up a chain ends with every node emitted, deepest first.
proof fn lemma_chain_comes_up(
    edges: Seq<Edge>,
    limit: Option<usize>,
    path: Seq<Node>,
    deepest: int,
    place: int,
    more: bool,
)
    requires
        0 <= deepest < path.len(),
        -1 <= place <= deepest,
    ensures
        run(edges, limit, coming_up(path, deepest, place, more)) == coming_up(
            path,
            deepest,
            -1,
            more,
        ),
    decreases place + 1,
{
    let walk = coming_up(path, deepest, place, more);
    if place >= 0 {
        let next = coming_up(path, deepest, place - 1, more);
        assert(walk.stack.last() == (path[place], true));
        assert(step(edges, limit, walk) == emitted_top(walk));
        assert(emitted_top(walk).stack =~= next.stack);
        assert(emitted_top(walk).emitted =~= next.emitted);
        assert(emitted_top(walk) == next);
        lemma_chain_comes_up(edges, limit, path, deepest, place - 1, more);
    } else {
        assert(walk.stack.len() == 0);
    }
}

/// The way down a chain goes as deep as the limit allows and then comes back
/// up.
proof fn lemma_chain_goes_down(edges: Seq<Edge>, limit: Option<usize>, path: Seq<Node>, place: int)
    requires
        is_chain(edges, path),
        0 <= place <= page_len(path.len() - 1, limit),
    ensures
        run(edges, limit, going_down(path, place)) == coming_up(
            path,
            page_len(path.len() - 1, limit),
            -1,
            page_len(path.len() - 1, limit) < path.len() - 1,
        ),
    decreases page_len(path.len() - 1, limit) - place,
{
    let deepest = page_len(path.len() - 1, limit);
    let more = deepest < path.len() - 1;
    let walk = going_down(path, place);
    let waiting = reopened_top(walk);
    assert(walk.stack.last() == (path[place], false));
    assert(waiting.stack =~= opened(path, place + 1));
    assert(run(edges, limit, walk) == run(edges, limit, step(edges, limit, walk)));
    if place < path.len() - 1 {
        let target = path[place + 1];
        assert(successors(edges, path[place]) == seq![path[place + 1]]);
        lemma_schedule_one(target, limit, waiting);
        assert(!waiting.visited.contains(target)) by {
            if waiting.visited.contains(target) {
                let k = choose|k: int| 0 <= k < waiting.visited.len() && waiting.visited[k] == target;
                assert(path[k + 1] == path[place + 1]);
            }
        }
        if place < deepest {
            let next = going_down(path, place + 1);
            assert(offer(target, limit, waiting).stack =~= next.stack);
            assert(offer(target, limit, waiting).visited =~= next.visited);
            assert(step(edges, limit, walk) == next);
            lemma_chain_goes_down(edges, limit, path, place + 1);
        } else {
            let turned = coming_up(path, deepest, deepest, more);
            assert(offer(target, limit, waiting).emitted =~= turned.emitted);
            assert(step(edges, limit, walk) == turned);
            lemma_chain_comes_up(edges, limit, path, deepest, deepest, more);
        }
    } else {
        let turned = coming_up(path, deepest, deepest, more);
        assert(path[place] == path.last());
        lemma_schedule_one(path[0], limit, waiting);
        assert(waiting.emitted =~= turned.emitted);
        assert(step(edges, limit, walk) == turned);
        lemma_chain_comes_up(edges, limit, path, deepest, deepest, more);
    }
}

/// A read from the head of a chain returns the nodes after the head in the
/// order of the chain, as many as the limit allows, and says that there is
/// more exactly when the limit cut the chain short.
pub proof fn lemma_chain_read(edges: Seq<Edge>, path: Seq<Node>, limit: Option<usize>)
    requires
        is_chain(edges, path),
    ensures
        traversal(edges, path[0], limit).0 == path.subrange(
            1,
            1 + page_len(path.len() - 1, limit),
        ),
        traversal(edges, path[0], limit).1 == (page_len(path.len() - 1, limit) < path.len() - 1),
{
    let deepest = page_len(path.len() - 1, limit);
    let more = deepest < path.len() - 1;
    let end = coming_up(path, deepest, -1, more);
    assert(start(path[0]).stack =~= going_down(path, 0).stack);
    assert(start(path[0]).visited =~= going_down(path, 0).visited);
    assert(start(path[0]) == going_down(path, 0));
    lemma_chain_goes_down(edges, limit, path, 0);
    assert(reading(end) =~= path.subrange(1, 1 + deepest));
}

/// A read from a node that no edge leaves returns nothing, and does not say
/// that there is more.
pub proof fn lemma_leaf_reads_nothing(edges: Seq<Edge>, since: Node, limit: Option<usize>)
    requires
        successors(edges, since).len() == 0,
    ensures
        traversal(edges, since, limit) == (Seq::<Node>::empty(), false),
{
    let path = seq![since];
    assert(successors(edges, path.last()) =~= Seq::<Node>::empty());
    assert(is_chain(edges, path));
    lemma_chain_read(edges, path, limit);
    assert(path.subrange(1, 1 + page_len(0, limit)) =~= Seq::<Node>::empty());
}

/// What is left of a chain from one of its nodes on is a chain.
pub proof fn lemma_chain_tail(edges: Seq<Edge>, path: Seq<Node>, from: int)
    requires
        is_chain(edges, path),
        0 <= from < path.len(),
    ensures
        is_chain(edges, path.subrange(from, path.len() as int)),
{
    let tail = path.subrange(from, path.len() as int);
    assert forall|i: int| 0 <= i < tail.len() - 1 implies #[trigger] successors(edges, tail[i])
        == seq![tail[i + 1]] by {
        assert(successors(edges, path[from + i]) == seq![path[from + i + 1]]);
    }
    assert(tail.last() == path.last());
}

/// Reading a chain page by page loses nothing and changes no order: a page
/// from the head, followed by a page from the last node of that page, is the
/// beginning of the read of the whole chain, and is the whole read where the
/// second page has no limit.
pub proof fn lemma_chain_pages_continue(
    edges: Seq<Edge>,
    path: Seq<Node>,
    first: usize,
    second: Option<usize>,
)
    requires
        is_chain(edges, path),
        traversal(edges, path[0], Some(first)).0.len() > 0,
    ensures
        ({
            let whole = traversal(edges, path[0], None).0;
            let one = traversal(edges, path[0], Some(first)).0;
            let two = traversal(edges, one.last(), second).0;
            &&& one.len() + two.len() <= whole.len()
            &&& one + two == whole.subrange(0, (one.len() + two.len()) as int)
            &&& second is None ==> one + two == whole
        }),
{
    let count = path.len() - 1;
    let whole = traversal(edges, path[0], None).0;
    let one = traversal(edges, path[0], Some(first)).0;
    lemma_chain_read(edges, path, None);
    lemma_chain_read(edges, path, Some(first));
    let taken = page_len(count, Some(first));
    assert(one.last() == path[taken]);
    let tail = path.subrange(taken, path.len() as int);
    lemma_chain_tail(edges, path, taken);
    lemma_chain_read(edges, tail, second);
    assert(tail[0] == path[taken]);
    let two = traversal(edges, one.last(), second).0;
    assert(one + two =~= whole.subrange(0, (one.len() + two.len()) as int));
    if second is None {
        assert(one + two =~= whole);
    }
}

} // verus!

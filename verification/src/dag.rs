//! The log itself: what a store has to offer, and the two operations that the
//! log builds on it, appending an item and reading an ordered slice.
use vstd::prelude::*;
use crate::address::{text_of, texts, Address};
use crate::error::StoreError;
use crate::graph::{
    has_edge, lemma_step_lowers_weight, run, start, step, successors, traversal, weight, Edge, Node,
};
use crate::laws::{lemma_read_is_reachable, reaches};
use crate::traversal::Traversal;

verus! {

/// The kinds of edge that lead to an item.
#[derive(Debug, Clone, Copy, PartialEq, Eq, Structural)]
pub enum EdgeKind {
    /// From an item to the item after it.
    Next,
    /// From an author's root to the author's first item.
    AuthorRoot,
    /// From a stream's root to an item that had no item in sight before it.
    ForeignRoot,
}

/// What an item comes after: a root, which anchors a stream and is no item,
/// or an item. Whether the predecessor is the authored one or the foreign one
/// is told by the place in which it is handed over.
#[derive(Debug, PartialEq, Eq)]
pub enum Predecessor {
    Root(Address),
    Item(Address),
}

/// A predecessor, with its address as a text.
pub enum PredecessorView {
    Root(Node),
    Item(Node),
}

impl PredecessorView {
    /// The address of the predecessor.
    pub open spec fn address(self) -> Node {
        match self {
            PredecessorView::Root(address) => address,
            PredecessorView::Item(address) => address,
        }
    }

    /// The kind of the edge from the predecessor that an item was authored
    /// after.
    pub open spec fn authored_kind(self) -> EdgeKind {
        match self {
            PredecessorView::Root(_) => EdgeKind::AuthorRoot,
            PredecessorView::Item(_) => EdgeKind::Next,
        }
    }

    /// The kind of the edge from the foreign predecessor of an item.
    pub open spec fn foreign_kind(self) -> EdgeKind {
        match self {
            PredecessorView::Root(_) => EdgeKind::ForeignRoot,
            PredecessorView::Item(_) => EdgeKind::Next,
        }
    }
}

impl View for Predecessor {
    type V = PredecessorView;

    open spec fn view(&self) -> PredecessorView {
        match self {
            Predecessor::Root(address) => PredecessorView::Root(address@),
            Predecessor::Item(address) => PredecessorView::Item(address@),
        }
    }
}

impl Clone for Predecessor {
    fn clone(&self) -> (copy: Predecessor)
        ensures
            copy@ == self@,
    {
        match self {
            Predecessor::Root(address) => Predecessor::Root(address.clone()),
            Predecessor::Item(address) => Predecessor::Item(address.clone()),
        }
    }
}

impl Predecessor {
    /// The address of the predecessor.
    pub fn address(&self) -> (address: &Address)
        ensures
            address@ == self@.address(),
    {
        match self {
            Predecessor::Root(address) => address,
            Predecessor::Item(address) => address,
        }
    }

    /// Whether the predecessor is a root.
    pub fn is_root(&self) -> (root: bool)
        ensures
            root == (self@ is Root),
    {
        match self {
            Predecessor::Root(_) => true,
            Predecessor::Item(_) => false,
        }
    }

    /// The kind of the edge from this predecessor, where the item was
    /// authored after it.
    pub fn authored_kind(&self) -> (kind: EdgeKind)
        ensures
            kind == self@.authored_kind(),
    {
        match self {
            Predecessor::Root(_) => EdgeKind::AuthorRoot,
            Predecessor::Item(_) => EdgeKind::Next,
        }
    }

    /// The kind of the edge from this predecessor, where it is the foreign
    /// predecessor of the item.
    pub fn foreign_kind(&self) -> (kind: EdgeKind)
        ensures
            kind == self@.foreign_kind(),
    {
        match self {
            Predecessor::Root(_) => EdgeKind::ForeignRoot,
            Predecessor::Item(_) => EdgeKind::Next,
        }
    }
}

/// The predecessor that may be missing, with its address as a text.
pub open spec fn predecessor_of(predecessor: Option<Predecessor>) -> Option<PredecessorView> {
    match predecessor {
        Some(given) => Some(given@),
        None => None,
    }
}

/// The address of a predecessor that may be missing.
pub open spec fn address_of_predecessor(predecessor: Option<PredecessorView>) -> Option<Node> {
    match predecessor {
        Some(given) => Some(given.address()),
        None => None,
    }
}

/// A forward edge as a store keeps it, with its kind.
pub struct StoredEdge {
    pub from: Node,
    pub to: Node,
    pub kind: EdgeKind,
}

/// The edges without their kinds.
pub open spec fn plain(links: Seq<StoredEdge>) -> Seq<Edge> {
    Seq::new(links.len(), |i: int| (links[i].from, links[i].to))
}

/// What a store holds, as far as the log is concerned.
pub struct LogState {
    /// The forward edges of each stream, in the order in which the store
    /// lists them. A stream that nobody has appended to has none.
    pub streams: Map<Seq<char>, Seq<StoredEdge>>,
    /// The item that this peer appended last to each stream it appended to.
    pub tips: Map<Seq<char>, Node>,
    /// The anchor that stands before this peer's first item.
    pub root: Node,
    /// The authored predecessor that the store remembers for an item.
    pub prev_authored: Map<Node, Node>,
    /// The foreign predecessor that the store remembers for an item.
    pub prev_foreign: Map<Node, Node>,
}

/// The value under `key`, if the map holds one.
pub open spec fn lookup(map: Map<Seq<char>, Node>, key: Seq<char>) -> Option<Node> {
    if map.dom().contains(key) {
        Some(map[key])
    } else {
        None
    }
}

/// The map that also holds `value` under `key`, if there is a value to hold.
pub open spec fn remember(map: Map<Node, Node>, key: Node, value: Option<Node>) -> Map<Node, Node> {
    match value {
        Some(found) => map.insert(key, found),
        None => map,
    }
}

/// The edge that an item gets from the predecessor that it was authored
/// after, if it has one: an edge between items from an item, an edge of the
/// author-root kind from a root.
pub open spec fn authored_link(predecessor: Option<PredecessorView>, address: Node) -> Seq<
    StoredEdge,
> {
    match predecessor {
        Some(given) => seq![
            StoredEdge { from: given.address(), to: address, kind: given.authored_kind() },
        ],
        None => Seq::empty(),
    }
}

/// The edge that an item gets from its foreign predecessor, if it has one: an
/// edge between items from an item, an edge of the foreign-root kind from a
/// root.
pub open spec fn foreign_link(predecessor: Option<PredecessorView>, address: Node) -> Seq<
    StoredEdge,
> {
    match predecessor {
        Some(given) => seq![
            StoredEdge { from: given.address(), to: address, kind: given.foreign_kind() },
        ],
        None => Seq::empty(),
    }
}

impl LogState {
    /// What a store holds before anything was appended.
    pub open spec fn fresh(root: Node) -> LogState {
        LogState {
            streams: Map::total(|table: Seq<char>| Seq::<StoredEdge>::empty()),
            tips: Map::empty(),
            root,
            prev_authored: Map::empty(),
            prev_foreign: Map::empty(),
        }
    }

    /// The forward edges of a stream, each with its kind.
    pub open spec fn links(self, table: Seq<char>) -> Seq<StoredEdge> {
        self.streams[table]
    }

    /// The forward edges of a stream.
    pub open spec fn edges(self, table: Seq<char>) -> Seq<Edge> {
        plain(self.links(table))
    }

    /// The authored predecessor of the next item that the peer appends: the
    /// tip of its own chain in the stream, or its root where it has not
    /// appended yet.
    pub open spec fn own_predecessor(self, table: Seq<char>) -> PredecessorView {
        match lookup(self.tips, table) {
            Some(tip) => PredecessorView::Item(tip),
            None => PredecessorView::Root(self.root),
        }
    }

    /// The address of the authored predecessor of the next item.
    pub open spec fn own_tip(self, table: Seq<char>) -> Node {
        self.own_predecessor(table).address()
    }

    /// The foreign predecessor of the next item that the peer appends: the
    /// newest item that a read from its own tip reaches, or the fallback root
    /// where that read reaches nothing.
    pub open spec fn foreign_predecessor(
        self,
        table: Seq<char>,
        fallback_root: Node,
    ) -> PredecessorView {
        let reached = traversal(self.edges(table), self.own_tip(table), None).0;
        if reached.len() > 0 {
            PredecessorView::Item(reached.last())
        } else {
            PredecessorView::Root(fallback_root)
        }
    }

    /// The address of the foreign predecessor of the next item.
    pub open spec fn frontier(self, table: Seq<char>, fallback_root: Node) -> Node {
        self.foreign_predecessor(table, fallback_root).address()
    }

    /// The state after the store took a new item: the item's stream has gained
    /// the edge from the authored predecessor and then the edge from the
    /// foreign one, each of the kind that its predecessor calls for; the item
    /// is the new tip of the author's chain in that stream and remembers its
    /// predecessors; nothing else has changed.
    pub open spec fn with_item(
        self,
        table: Seq<char>,
        prev_authored: Option<PredecessorView>,
        prev_foreign: Option<PredecessorView>,
        address: Node,
    ) -> LogState {
        LogState {
            streams: self.streams.insert(
                table,
                self.links(table) + authored_link(prev_authored, address) + foreign_link(
                    prev_foreign,
                    address,
                ),
            ),
            tips: self.tips.insert(table, address),
            root: self.root,
            prev_authored: remember(
                self.prev_authored,
                address,
                address_of_predecessor(prev_authored),
            ),
            prev_foreign: remember(
                self.prev_foreign,
                address,
                address_of_predecessor(prev_foreign),
            ),
        }
    }

    /// The state after the peer appended an item under `address`.
    pub open spec fn with_appended(
        self,
        table: Seq<char>,
        fallback_root: Node,
        address: Node,
    ) -> LogState {
        self.with_item(
            table,
            Some(self.own_predecessor(table)),
            Some(self.foreign_predecessor(table, fallback_root)),
            address,
        )
    }
}

/// The authored predecessor of the next item, from what the store answered
/// when it was asked for the peer's newest item: that item where the store
/// found one, the peer's root where it found none, and the store's failure as
/// it came where the store failed.
pub fn prev_authored_for(found: Result<Option<Address>, StoreError>, root: Address) -> (previous:
    Result<Predecessor, StoreError>)
    ensures
        match found {
            Ok(Some(tip)) => previous matches Ok(given) && given@ == PredecessorView::Item(tip@),
            Ok(None) => previous matches Ok(given) && given@ == PredecessorView::Root(root@),
            Err(failure) => previous == Err::<Predecessor, StoreError>(failure),
        },
{
    match found {
        Ok(Some(tip)) => Ok(Predecessor::Item(tip)),
        Ok(None) => Ok(Predecessor::Root(root)),
        Err(failure) => Err(failure),
    }
}

/// The foreign predecessor of the next item, from what the read from the
/// peer's own tip came back with: the last address of the read, the fallback
/// root where the read came back empty, and the store's failure as it came
/// where the read failed.
pub fn prev_foreign_for(read: Result<(Vec<Address>, bool), StoreError>, fallback_root: &Address) -> (previous:
    Result<Predecessor, StoreError>)
    ensures
        match read {
            Ok(page) => previous matches Ok(given) && given@ == (if page.0.len() > 0 {
                PredecessorView::Item(page.0[page.0.len() - 1]@)
            } else {
                PredecessorView::Root(fallback_root@)
            }),
            Err(failure) => previous == Err::<Predecessor, StoreError>(failure),
        },
{
    match read {
        Ok(page) => {
            let mut reached = page.0;
            match reached.pop() {
                Some(newest) => Ok(Predecessor::Item(newest)),
                None => Ok(Predecessor::Root(fallback_root.clone())),
            }
        },
        Err(failure) => Err(failure),
    }
}

/// A log of items over a store of records and forward edges.
///
/// The store keeps one graph for each stream. A type that implements this
/// trait says what it holds, and offers the primitives; the trait builds the
/// append and the read on them.
pub trait DagList: Sized {
    /// What the store holds. A store that does not say so holds something, and
    /// nothing is known of it.
    open spec fn state(&self) -> LogState {
        arbitrary()
    }

    /// The address under which the store keeps an item. It depends on the item
    /// alone, so every peer finds the same item under the same address.
    open spec fn address_of(
        table: Seq<char>,
        content: Seq<char>,
        prev_authored: Option<Node>,
        prev_foreign: Option<Node>,
    ) -> Node {
        arbitrary()
    }

    /// Whether every operation of this store succeeds. No store is taken to be
    /// dependable that does not say so.
    open spec fn dependable(&self) -> bool {
        false
    }

    /// Whether a failure is one that a store of this type reports. The log
    /// has no failures of its own: what it returns as a failure, a store has
    /// reported to it.
    open spec fn reports(failure: StoreError) -> bool {
        true
    }

    /// Whether a failure is one with which a store of this type turns down a
    /// commit. Only such a failure comes with a store that may have changed.
    open spec fn refuses(failure: StoreError) -> bool {
        true
    }

    /// Commits an item and links it from its predecessors: from an item with
    /// an edge between items, from a root with an edge of the root's kind.
    fn author(
        &mut self,
        table: &str,
        content: &str,
        prev_authored: Option<Predecessor>,
        prev_foreign: Option<Predecessor>,
    ) -> (committed: Result<Address, StoreError>)
        ensures
            committed matches Ok(address) ==> address@ == Self::address_of(
                table@,
                content@,
                address_of_predecessor(predecessor_of(prev_authored)),
                address_of_predecessor(predecessor_of(prev_foreign)),
            ) && final(self).state() == old(self).state().with_item(
                table@,
                predecessor_of(prev_authored),
                predecessor_of(prev_foreign),
                address@,
            ),
            committed matches Err(failure) ==> Self::reports(failure) && Self::refuses(failure),
            old(self).dependable() ==> committed is Ok && final(self).dependable(),
    ;

    /// The address of this peer's root.
    fn author_root_address(&self) -> (root: Address)
        ensures
            root@ == self.state().root,
    ;

    /// The address of the item that this peer appended last to a stream.
    fn most_recent_authored(&self, table: &str) -> (found: Result<Option<Address>, StoreError>)
        ensures
            found matches Ok(tip) ==> text_of(tip) == lookup(self.state().tips, table@),
            found matches Err(failure) ==> Self::reports(failure),
            self.dependable() ==> found is Ok,
    ;

    /// The authored predecessor of an item.
    fn get_prev_authored(&self, address: &Address) -> (found: Result<Option<Address>, StoreError>)
        ensures
            found matches Ok(previous) ==> text_of(previous) == lookup(
                self.state().prev_authored,
                address@,
            ),
            found matches Err(failure) ==> Self::reports(failure),
            self.dependable() ==> found is Ok,
    ;

    /// The foreign predecessor of an item.
    fn get_prev_foreign(&self, address: &Address) -> (found: Result<Option<Address>, StoreError>)
        ensures
            found matches Ok(previous) ==> text_of(previous) == lookup(
                self.state().prev_foreign,
                address@,
            ),
            found matches Err(failure) ==> Self::reports(failure),
            self.dependable() ==> found is Ok,
    ;

    /// The targets of the edges that leave an address within a stream.
    fn get_next(&self, table: &str, address: &Address) -> (found: Result<Vec<Address>, StoreError>)
        ensures
            found matches Ok(next) ==> texts(next@) == successors(
                self.state().edges(table@),
                address@,
            ),
            found matches Err(failure) ==> Self::reports(failure),
            self.dependable() ==> found is Ok,
    ;

    /// Appends an item to a stream. Its authored predecessor is the tip of this
    /// peer's own chain, or the peer's root where it has appended nothing yet;
    /// its foreign predecessor is the newest item that a read from that tip
    /// reaches, or `fallback_root` where the read reaches nothing. A failure
    /// of the store is handed on as it came; where the store failed before the
    /// commit, nothing is committed.
    fn add_content_dag(&mut self, table: &str, content: &str, fallback_root: &Address) -> (appended:
        Result<Address, StoreError>)
        ensures
            appended matches Ok(address) ==> address@ == Self::address_of(
                table@,
                content@,
                Some(old(self).state().own_tip(table@)),
                Some(old(self).state().frontier(table@, fallback_root@)),
            ) && final(self).state() == old(self).state().with_appended(
                table@,
                fallback_root@,
                address@,
            ),
            appended matches Err(failure) ==> Self::reports(failure) && (final(self).state() == old(
                self,
            ).state() || Self::refuses(failure)),
            old(self).dependable() ==> appended is Ok && final(self).dependable(),
    {
        let tip = self.most_recent_authored(table);
        let most_recent_authored = match prev_authored_for(tip, self.author_root_address()) {
            Ok(previous) => previous,
            Err(failure) => {
                return Err(failure);
            },
        };
        let read = self.get_content_dag(table, most_recent_authored.address(), None, None);
        let ghost order = if read is Ok {
            texts(read->Ok_0.0@)
        } else {
            Seq::empty()
        };
        let most_recent_foreign = match prev_foreign_for(read, fallback_root) {
            Ok(previous) => previous,
            Err(failure) => {
                return Err(failure);
            },
        };
        assert(most_recent_authored@ == self.state().own_predecessor(table@));
        assert(order == traversal(self.state().edges(table@), self.state().own_tip(table@), None).0);
        assert(most_recent_foreign@ == self.state().foreign_predecessor(table@, fallback_root@)) by {
            if order.len() > 0 {
                assert(order.last() == order[order.len() - 1]);
            }
        }
        self.author(table, content, Some(most_recent_authored), Some(most_recent_foreign))
    }

    /// Reads the stream after `since`: the addresses that the walk from `since`
    /// schedules, at most `limit` of them, each after the node that it was
    /// scheduled from, and whether the limit left a node out. `since` itself
    /// is among them only where a cycle leads back to it. A failure of the
    /// store is handed on as it came.
    fn get_content_dag(
        &self,
        table: &str,
        since: &Address,
        limit: Option<usize>,
        _backsteps: Option<usize>,
    ) -> (read: Result<(Vec<Address>, bool), StoreError>)
        ensures
            read matches Ok(page) ==> texts(page.0@) == traversal(
                self.state().edges(table@),
                since@,
                limit,
            ).0 && page.1 == traversal(self.state().edges(table@), since@, limit).1,
            read matches Err(failure) ==> Self::reports(failure),
            self.dependable() ==> read is Ok,
    {
        let ghost edges = self.state().edges(table@);
        let mut walk = Traversal::begin(since);
        while !walk.is_finished()
            invariant
                edges == self.state().edges(table@),
                run(edges, limit, walk@) == run(edges, limit, start(since@)),
            decreases weight(edges, walk@),
        {
            proof {
                lemma_step_lowers_weight(edges, limit, walk@);
            }
            let ghost before = walk@;
            match walk.advance() {
                None => {
                    assert(walk@ == step(edges, limit, before));
                },
                Some(current) => {
                    let found = self.get_next(table, &current);
                    match walk.expand(found, limit) {
                        Ok(()) => {
                            assert(walk@ == step(edges, limit, before));
                        },
                        Err(failure) => {
                            return Err(failure);
                        },
                    }
                },
            }
        }
        Ok(walk.finish())
    }
}

/// What it is for a store to have committed an item under `address`: the
/// address is the one that the item determines, and the store holds the item
/// on top of what it held.
pub open spec fn committed<S: DagList>(
    before: S,
    after: S,
    table: Seq<char>,
    content: Seq<char>,
    prev_authored: Option<PredecessorView>,
    prev_foreign: Option<PredecessorView>,
    address: Node,
) -> bool {
    &&& address == S::address_of(
        table,
        content,
        address_of_predecessor(prev_authored),
        address_of_predecessor(prev_foreign),
    )
    &&& after.state() == before.state().with_item(table, prev_authored, prev_foreign, address)
}

/// Two peers that commit the same content with the same predecessors to the
/// same stream get the same address, whatever their stores held before.
pub proof fn lemma_same_item_same_address<S: DagList>(
    first_before: S,
    first_after: S,
    second_before: S,
    second_after: S,
    table: Seq<char>,
    content: Seq<char>,
    prev_authored: Option<PredecessorView>,
    prev_foreign: Option<PredecessorView>,
    first: Node,
    second: Node,
)
    requires
        committed(first_before, first_after, table, content, prev_authored, prev_foreign, first),
        committed(
            second_before,
            second_after,
            table,
            content,
            prev_authored,
            prev_foreign,
            second,
        ),
    ensures
        first == second,
{
}

/// An append adds two edges to its stream and none to another: one from the
/// tip of the peer's own chain and then one from the frontier, both to the
/// new item. The first is of the author-root kind exactly where the peer had
/// appended nothing to the stream, the second of the foreign-root kind
/// exactly where the read from the peer's tip came back empty; otherwise they
/// are edges between items. The new item is the tip of the peer's chain from
/// then on, and the store remembers the two predecessors for it.
pub proof fn lemma_append_links(
    before: LogState,
    table: Seq<char>,
    fallback_root: Node,
    address: Node,
)
    ensures
        ({
            let after = before.with_appended(table, fallback_root, address);
            let authored = before.own_tip(table);
            let foreign = before.frontier(table, fallback_root);
            let first = StoredEdge {
                from: authored,
                to: address,
                kind: if lookup(before.tips, table) is None {
                    EdgeKind::AuthorRoot
                } else {
                    EdgeKind::Next
                },
            };
            let second = StoredEdge {
                from: foreign,
                to: address,
                kind: if traversal(before.edges(table), authored, None).0.len() == 0 {
                    EdgeKind::ForeignRoot
                } else {
                    EdgeKind::Next
                },
            };
            &&& after.links(table) == before.links(table).push(first).push(second)
            &&& after.edges(table) == before.edges(table).push((authored, address)).push(
                (foreign, address),
            )
            &&& forall|other: Seq<char>| other != table ==> after.links(other) == before.links(other)
            &&& after.own_predecessor(table) == PredecessorView::Item(address)
            &&& lookup(after.prev_authored, address) == Some(authored)
            &&& lookup(after.prev_foreign, address) == Some(foreign)
            &&& has_edge(after.edges(table), authored, address)
            &&& has_edge(after.edges(table), foreign, address)
        }),
{
    let after = before.with_appended(table, fallback_root, address);
    let authored = before.own_tip(table);
    let foreign = before.frontier(table, fallback_root);
    let mine = before.own_predecessor(table);
    let theirs = before.foreign_predecessor(table, fallback_root);
    let first = StoredEdge { from: authored, to: address, kind: mine.authored_kind() };
    let second = StoredEdge { from: foreign, to: address, kind: theirs.foreign_kind() };
    assert(after.links(table) =~= before.links(table).push(first).push(second));
    let grown = before.edges(table).push((authored, address)).push((foreign, address));
    assert(after.edges(table) =~= grown);
    assert(grown[grown.len() - 2] == (authored, address));
    assert(grown[grown.len() - 1] == (foreign, address));
}

/// The foreign predecessor of an append is the fallback root, as a root,
/// exactly where the read from the peer's own tip comes back empty; where
/// nothing can be reached from that tip, it does. Otherwise the foreign
/// predecessor is an item that can be reached from the tip.
pub proof fn lemma_frontier_or_fallback(state: LogState, table: Seq<char>, fallback_root: Node)
    ensures
        traversal(state.edges(table), state.own_tip(table), None).0.len() == 0
            <==> state.foreign_predecessor(table, fallback_root) == PredecessorView::Root(
            fallback_root,
        ),
        (forall|node: Node| !reaches(state.edges(table), state.own_tip(table), node))
            ==> state.foreign_predecessor(table, fallback_root) == PredecessorView::Root(
            fallback_root,
        ),
        traversal(state.edges(table), state.own_tip(table), None).0.len() > 0
            ==> state.foreign_predecessor(table, fallback_root) is Item && reaches(
            state.edges(table),
            state.own_tip(table),
            state.frontier(table, fallback_root),
        ),
{
    let reached = traversal(state.edges(table), state.own_tip(table), None).0;
    lemma_read_is_reachable(state.edges(table), state.own_tip(table), None);
    if reached.len() > 0 {
        assert(reaches(state.edges(table), state.own_tip(table), reached[reached.len() - 1]));
    }
}

} // verus!

//! A store that lives in memory and never fails: a whole world with one
//! author in it, for trying the log out.
use vstd::prelude::*;
use crate::address::{text_of, texts, Address};
use crate::dag::{
    address_of_predecessor, authored_link, foreign_link, predecessor_of, DagList, EdgeKind,
    LogState, Predecessor, StoredEdge,
};
use crate::error::StoreError;
use crate::dag::plain;
use crate::graph::{successors, Node};

verus! {

/// A forward edge as the store keeps it, tagged with its stream.
struct Link {
    table: String,
    from: Address,
    to: Address,
    kind: EdgeKind,
}

/// An item as the store keeps it.
struct Record {
    table: String,
    address: Address,
    prev_authored: Option<Address>,
    prev_foreign: Option<Address>,
}

/// The in-memory store. It keeps every item and every edge, each edge with
/// its kind, in the order in which they came, and never changes or drops one.
/// It keeps them in lists that it looks through: what a map would give, that
/// the item or edge that came last under an address is the one found, is what
/// the search states.
pub struct TestStore {
    records: Vec<Record>,
    links: Vec<Link>,
}

/// The edges among `links` that belong to a stream, in their order.
spec fn edges_in(links: Seq<Link>, table: Seq<char>) -> Seq<StoredEdge>
    decreases links.len(),
{
    if links.len() == 0 {
        Seq::empty()
    } else {
        let earlier = edges_in(links.drop_last(), table);
        let last = links.last();
        if last.table@ == table {
            earlier.push(StoredEdge { from: last.from@, to: last.to@, kind: last.kind })
        } else {
            earlier
        }
    }
}

/// The edges among `links` that leave `from`, in their order.
pub open spec fn leaving(links: Seq<StoredEdge>, from: Node) -> Seq<StoredEdge>
    decreases links.len(),
{
    if links.len() == 0 {
        Seq::empty()
    } else {
        let earlier = leaving(links.drop_last(), from);
        if links.last().from == from {
            earlier.push(links.last())
        } else {
            earlier
        }
    }
}

/// The address of the last of `records` that belongs to a stream.
spec fn tip_in(records: Seq<Record>, table: Seq<char>) -> Option<Node>
    decreases records.len(),
{
    if records.len() == 0 {
        None
    } else if records.last().table@ == table {
        Some(records.last().address@)
    } else {
        tip_in(records.drop_last(), table)
    }
}

/// The authored predecessor that the last of `records` under an address
/// names, among those that name one.
spec fn prev_authored_in(records: Seq<Record>, address: Node) -> Option<Node>
    decreases records.len(),
{
    if records.len() == 0 {
        None
    } else if records.last().address@ == address && records.last().prev_authored is Some {
        text_of(records.last().prev_authored)
    } else {
        prev_authored_in(records.drop_last(), address)
    }
}

/// The foreign predecessor that the last of `records` under an address names,
/// among those that name one.
spec fn prev_foreign_in(records: Seq<Record>, address: Node) -> Option<Node>
    decreases records.len(),
{
    if records.len() == 0 {
        None
    } else if records.last().address@ == address && records.last().prev_foreign is Some {
        text_of(records.last().prev_foreign)
    } else {
        prev_foreign_in(records.drop_last(), address)
    }
}

/// The root of the one author of an in-memory store.
pub open spec fn test_root() -> Node {
    "agent_root"@
}

impl TestStore {
    /// A store that holds nothing yet.
    pub fn new() -> (store: TestStore)
        ensures
            store.state() == LogState::fresh(test_root()),
    {
        let store = TestStore { records: Vec::new(), links: Vec::new() };
        assert(store.state().streams =~= LogState::fresh(test_root()).streams);
        assert(store.state().tips =~= LogState::fresh(test_root()).tips);
        assert(store.state().prev_authored =~= LogState::fresh(test_root()).prev_authored);
        assert(store.state().prev_foreign =~= LogState::fresh(test_root()).prev_foreign);
        store
    }

    /// The edges that leave an address within a stream, each with its target
    /// and its kind, in the order in which they came.
    pub fn get_links(&self, table: &str, address: &Address) -> (found: Vec<(Address, EdgeKind)>)
        ensures
            found.len() == leaving(self.state().links(table@), address@).len(),
            forall|i: int|
                0 <= i < found.len() ==> (#[trigger] found[i]).0@ == leaving(
                    self.state().links(table@),
                    address@,
                )[i].to && found[i].1 == leaving(self.state().links(table@), address@)[i].kind,
    {
        let wanted = table.to_owned();
        let mut found: Vec<(Address, EdgeKind)> = Vec::new();
        let mut i: usize = 0;
        while i < self.links.len()
            invariant
                i <= self.links.len(),
                wanted@ == table@,
                found.len() == leaving(
                    edges_in(self.links@.subrange(0, i as int), table@),
                    address@,
                ).len(),
                forall|j: int|
                    0 <= j < found.len() ==> (#[trigger] found[j]).0@ == leaving(
                        edges_in(self.links@.subrange(0, i as int), table@),
                        address@,
                    )[j].to && found[j].1 == leaving(
                        edges_in(self.links@.subrange(0, i as int), table@),
                        address@,
                    )[j].kind,
            decreases self.links.len() - i,
        {
            let ghost seen = self.links@.subrange(0, i as int);
            let ghost grown = self.links@.subrange(0, i + 1);
            assert(grown.drop_last() == seen);
            let link = &self.links[i];
            if link.table == wanted {
                assert(edges_in(grown, table@).drop_last() == edges_in(seen, table@));
                if link.from.same_as(address) {
                    found.push((link.to.clone(), link.kind));
                }
            }
            i = i + 1;
        }
        assert(self.links@.subrange(0, i as int) == self.links@);
        found
    }

    /// The number of items that the store has taken.
    pub fn len(&self) -> (count: usize)
        ensures
            count == self.count(),
    {
        self.records.len()
    }

    /// The number of items that the store has taken.
    pub closed spec fn count(&self) -> nat {
        self.records@.len()
    }
}

impl DagList for TestStore {
    closed spec fn state(&self) -> LogState {
        LogState {
            streams: Map::total(|table: Seq<char>| edges_in(self.links@, table)),
            tips: Map::new(
                |table: Seq<char>| tip_in(self.records@, table) is Some,
                |table: Seq<char>| tip_in(self.records@, table).unwrap(),
            ),
            root: test_root(),
            prev_authored: Map::new(
                |address: Node| prev_authored_in(self.records@, address) is Some,
                |address: Node| prev_authored_in(self.records@, address).unwrap(),
            ),
            prev_foreign: Map::new(
                |address: Node| prev_foreign_in(self.records@, address) is Some,
                |address: Node| prev_foreign_in(self.records@, address).unwrap(),
            ),
        }
    }

    /// The in-memory store keeps an item under the text of its content.
    open spec fn address_of(
        table: Seq<char>,
        content: Seq<char>,
        prev_authored: Option<Node>,
        prev_foreign: Option<Node>,
    ) -> Node {
        content
    }

    open spec fn dependable(&self) -> bool {
        true
    }

    /// The in-memory store reports no failure.
    open spec fn reports(failure: StoreError) -> bool {
        false
    }

    /// The in-memory store turns no commit down.
    open spec fn refuses(failure: StoreError) -> bool {
        false
    }

    fn author(
        &mut self,
        table: &str,
        content: &str,
        prev_authored: Option<Predecessor>,
        prev_foreign: Option<Predecessor>,
    ) -> (committed: Result<Address, StoreError>) {
        let ghost before = self.state();
        let ghost old_links = self.links@;
        let ghost old_records = self.records@;
        let address = Address::new(content);
        let authored = match &prev_authored {
            Some(previous) => {
                self.links.push(
                    Link {
                        table: table.to_owned(),
                        from: previous.address().clone(),
                        to: address.clone(),
                        kind: previous.authored_kind(),
                    },
                );
                Some(previous.address().clone())
            },
            None => None,
        };
        let ghost mid_links = self.links@;
        let foreign = match &prev_foreign {
            Some(previous) => {
                self.links.push(
                    Link {
                        table: table.to_owned(),
                        from: previous.address().clone(),
                        to: address.clone(),
                        kind: previous.foreign_kind(),
                    },
                );
                Some(previous.address().clone())
            },
            None => None,
        };
        self.records.push(
            Record {
                table: table.to_owned(),
                address: address.clone(),
                prev_authored: authored,
                prev_foreign: foreign,
            },
        );
        proof {
            let after = before.with_item(
                table@,
                predecessor_of(prev_authored),
                predecessor_of(prev_foreign),
                address@,
            );
            assert(text_of(authored) == address_of_predecessor(predecessor_of(prev_authored)));
            assert(text_of(foreign) == address_of_predecessor(predecessor_of(prev_foreign)));
            assert(self.records@.drop_last() == old_records);
            assert forall|stream: Seq<char>| #[trigger]
                edges_in(self.links@, stream) == after.streams[stream] by {
                if prev_authored is Some {
                    assert(mid_links.drop_last() == old_links);
                } else {
                    assert(mid_links == old_links);
                }
                if prev_foreign is Some {
                    assert(self.links@.drop_last() == mid_links);
                } else {
                    assert(self.links@ == mid_links);
                }
                assert(edges_in(mid_links, stream) == if stream == table@ {
                    edges_in(old_links, stream) + authored_link(
                        predecessor_of(prev_authored),
                        address@,
                    )
                } else {
                    edges_in(old_links, stream)
                });
                assert(edges_in(self.links@, stream) == if stream == table@ {
                    edges_in(mid_links, stream) + foreign_link(
                        predecessor_of(prev_foreign),
                        address@,
                    )
                } else {
                    edges_in(mid_links, stream)
                });
            }
            assert(self.state().streams =~= after.streams);
            assert(self.state().tips =~= after.tips);
            assert(self.state().prev_authored =~= after.prev_authored);
            assert(self.state().prev_foreign =~= after.prev_foreign);
        }
        Ok(address)
    }

    fn author_root_address(&self) -> (root: Address) {
        Address::new("agent_root")
    }

    fn most_recent_authored(&self, table: &str) -> (found: Result<Option<Address>, StoreError>) {
        let wanted = table.to_owned();
        let mut tip: Option<Address> = None;
        let mut i: usize = 0;
        while i < self.records.len()
            invariant
                i <= self.records.len(),
                wanted@ == table@,
                text_of(tip) == tip_in(self.records@.subrange(0, i as int), table@),
            decreases self.records.len() - i,
        {
            assert(self.records@.subrange(0, i + 1).drop_last() == self.records@.subrange(
                0,
                i as int,
            ));
            if self.records[i].table == wanted {
                tip = Some(self.records[i].address.clone());
            }
            i = i + 1;
        }
        assert(self.records@.subrange(0, i as int) == self.records@);
        Ok(tip)
    }

    fn get_prev_authored(&self, address: &Address) -> (found: Result<Option<Address>, StoreError>) {
        let mut previous: Option<Address> = None;
        let mut i: usize = 0;
        while i < self.records.len()
            invariant
                i <= self.records.len(),
                text_of(previous) == prev_authored_in(
                    self.records@.subrange(0, i as int),
                    address@,
                ),
            decreases self.records.len() - i,
        {
            assert(self.records@.subrange(0, i + 1).drop_last() == self.records@.subrange(
                0,
                i as int,
            ));
            if self.records[i].address.same_as(address) {
                match &self.records[i].prev_authored {
                    Some(named) => {
                        previous = Some(named.clone());
                    },
                    None => {},
                }
            }
            i = i + 1;
        }
        assert(self.records@.subrange(0, i as int) == self.records@);
        Ok(previous)
    }

    fn get_prev_foreign(&self, address: &Address) -> (found: Result<Option<Address>, StoreError>) {
        let mut previous: Option<Address> = None;
        let mut i: usize = 0;
        while i < self.records.len()
            invariant
                i <= self.records.len(),
                text_of(previous) == prev_foreign_in(
                    self.records@.subrange(0, i as int),
                    address@,
                ),
            decreases self.records.len() - i,
        {
            assert(self.records@.subrange(0, i + 1).drop_last() == self.records@.subrange(
                0,
                i as int,
            ));
            if self.records[i].address.same_as(address) {
                match &self.records[i].prev_foreign {
                    Some(named) => {
                        previous = Some(named.clone());
                    },
                    None => {},
                }
            }
            i = i + 1;
        }
        assert(self.records@.subrange(0, i as int) == self.records@);
        Ok(previous)
    }

    fn get_next(&self, table: &str, address: &Address) -> (found: Result<Vec<Address>, StoreError>) {
        let wanted = table.to_owned();
        let mut next: Vec<Address> = Vec::new();
        let mut i: usize = 0;
        while i < self.links.len()
            invariant
                i <= self.links.len(),
                wanted@ == table@,
                texts(next@) == successors(
                    plain(edges_in(self.links@.subrange(0, i as int), table@)),
                    address@,
                ),
            decreases self.links.len() - i,
        {
            let ghost seen = self.links@.subrange(0, i as int);
            let ghost grown = self.links@.subrange(0, i + 1);
            assert(grown.drop_last() == seen);
            let link = &self.links[i];
            if link.table == wanted {
                assert(plain(edges_in(grown, table@)).drop_last() =~= plain(
                    edges_in(seen, table@),
                ));
                assert(plain(edges_in(grown, table@)).last() == (link.from@, link.to@));
                if link.from.same_as(address) {
                    let ghost listed = texts(next@);
                    next.push(link.to.clone());
                    assert(texts(next@) =~= listed.push(link.to@));
                }
            }
            i = i + 1;
        }
        assert(self.links@.subrange(0, i as int) == self.links@);
        Ok(next)
    }
}

} // verus!

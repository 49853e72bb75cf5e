use chat::address::Address;
use chat::dag::{prev_authored_for, prev_foreign_for, DagList, EdgeKind, Predecessor};
use chat::error::StoreError;
use chat::store::TestStore;
use chat::traversal::{contains_address, reversed, Traversal};

fn position(order: &Vec<Address>, address: &Address) -> usize {
    let mut found: Option<usize> = None;
    for (i, each) in order.iter().enumerate() {
        if each == address {
            assert!(found.is_none(), "an address came twice");
            found = Some(i);
        }
    }
    found.unwrap()
}

#[test]
fn same_item_gets_same_address_from_two_peers() {
    let mut first = TestStore::new();
    let mut second = TestStore::new();
    second.author("test_table", "noise", None, None).unwrap();
    let root = Address::new("root");
    let prev = Address::new("prev");
    let a = first.author("test_table", "hello", Some(Predecessor::Item(prev.clone())), Some(Predecessor::Item(root.clone()))).unwrap();
    let b = second.author("test_table", "hello", Some(Predecessor::Item(prev)), Some(Predecessor::Item(root))).unwrap();
    assert_eq!(a, b);
    assert_eq!(a, Address::new("hello"));
}

#[test]
fn appending_same_content_from_same_frontier_gives_same_address() {
    let root = Address::new("conversation");
    let mut first = TestStore::new();
    let mut second = TestStore::new();
    let a = first.add_content_dag("test_table", "hello", &root).unwrap();
    let b = second.add_content_dag("test_table", "hello", &root).unwrap();
    assert_eq!(a, b);
    assert_eq!(first.get_prev_authored(&a), second.get_prev_authored(&b));
    assert_eq!(first.get_prev_foreign(&a), second.get_prev_foreign(&b));
}

#[test]
fn chain_reads_in_order() {
    let mut store = TestStore::new();
    let a = store.author("test_table", "A", None, None).unwrap();
    let b = store.author("test_table", "B", Some(Predecessor::Item(a.clone())), None).unwrap();
    let c = store.author("test_table", "C", Some(Predecessor::Item(b.clone())), None).unwrap();
    let d = store.author("test_table", "D", Some(Predecessor::Item(c.clone())), None).unwrap();
    assert_eq!(
        store.get_content_dag("test_table", &a, None, None),
        Ok((vec![b.clone(), c.clone(), d.clone()], false)),
    );
    assert_eq!(
        store.get_content_dag("test_table", &a, Some(2), None),
        Ok((vec![b.clone(), c.clone()], true)),
    );
    assert_eq!(
        store.get_content_dag("test_table", &a, Some(3), None),
        Ok((vec![b.clone(), c.clone(), d.clone()], false)),
    );
    assert_eq!(store.get_content_dag("test_table", &a, Some(0), None), Ok((vec![], true)));
    assert_eq!(store.get_content_dag("test_table", &d, Some(0), None), Ok((vec![], false)));
}

#[test]
fn fork_shows_both_branches_once() {
    let mut store = TestStore::new();
    let r = store.author("test_table", "R", None, None).unwrap();
    let x = store.author("test_table", "X", Some(Predecessor::Item(r.clone())), None).unwrap();
    let y = store.author("test_table", "Y", None, Some(Predecessor::Item(r.clone()))).unwrap();
    let x2 = store.author("test_table", "X2", Some(Predecessor::Item(x.clone())), None).unwrap();
    let (order, more) = store.get_content_dag("test_table", &r, None, None).unwrap();
    assert!(!more);
    assert_eq!(order.len(), 3);
    assert!(!order.contains(&r));
    let at_x = position(&order, &x);
    let at_x2 = position(&order, &x2);
    let _at_y = position(&order, &y);
    assert!(at_x < at_x2);
}

#[test]
fn limit_and_more_on_six_nodes() {
    let mut store = TestStore::new();
    let root = store.author("test_table", "root", None, None).unwrap();
    let mut all: Vec<Address> = Vec::new();
    for content in ["0", "1", "2", "3", "4", "5"] {
        all.push(store.add_content_dag("test_table", content, &root).unwrap());
    }
    let (page, more) = store.get_content_dag("test_table", &root, Some(3), None).unwrap();
    assert_eq!(page, all[0..3].to_vec());
    assert!(more);
    let (whole, more) = store.get_content_dag("test_table", &root, None, None).unwrap();
    assert_eq!(whole, all);
    assert!(!more);
    let (exact, more) = store.get_content_dag("test_table", &root, Some(6), None).unwrap();
    assert_eq!(exact, all);
    assert!(!more);
}

#[test]
fn pages_continue_where_the_last_one_ended() {
    let mut store = TestStore::new();
    let root = store.author("test_table", "root", None, None).unwrap();
    for content in ["0", "1", "2", "3", "4", "5"] {
        store.add_content_dag("test_table", content, &root).unwrap();
    }
    let whole = store.get_content_dag("test_table", &root, None, None).unwrap().0;
    let first = store.get_content_dag("test_table", &root, Some(3), None).unwrap().0;
    let third = first.last().unwrap().clone();
    let second = store.get_content_dag("test_table", &third, Some(3), None).unwrap().0;
    let mut together = first.clone();
    together.extend(second);
    assert_eq!(together, whole);
}

#[test]
fn pages_of_a_pure_chain_continue() {
    let mut store = TestStore::new();
    let head = store.author("test_table", "head", None, None).unwrap();
    let mut tip = head.clone();
    for content in ["a", "b", "c", "d", "e"] {
        tip = store.author("test_table", content, Some(Predecessor::Item(tip.clone())), None).unwrap();
    }
    let whole = store.get_content_dag("test_table", &head, None, None).unwrap().0;
    assert_eq!(whole.len(), 5);
    let (first, more) = store.get_content_dag("test_table", &head, Some(2), None).unwrap();
    assert!(more);
    let (second, more) =
        store.get_content_dag("test_table", first.last().unwrap(), Some(2), None).unwrap();
    assert!(more);
    let (third, more) =
        store.get_content_dag("test_table", second.last().unwrap(), None, None).unwrap();
    assert!(!more);
    let mut together = first.clone();
    together.extend(second);
    together.extend(third);
    assert_eq!(together, whole);
}

#[test]
fn first_append_falls_back_to_the_roots() {
    let mut store = TestStore::new();
    let fallback = Address::new("conversation");
    let first = store.add_content_dag("test_table", "hello", &fallback).unwrap();
    assert_eq!(store.get_prev_authored(&first), Ok(Some(store.author_root_address())));
    assert_eq!(store.author_root_address(), Address::new("agent_root"));
    assert_eq!(store.get_prev_foreign(&first), Ok(Some(fallback.clone())));
    // nothing can be reached from the new tip, so the fallback is used again
    let second = store.add_content_dag("test_table", "again", &fallback).unwrap();
    assert_eq!(store.get_prev_authored(&second), Ok(Some(first.clone())));
    assert_eq!(store.get_prev_foreign(&second), Ok(Some(fallback.clone())));
    assert_eq!(store.most_recent_authored("test_table"), Ok(Some(second.clone())));
    assert_eq!(store.get_next("test_table", &fallback), Ok(vec![first.clone(), second.clone()]));
    assert_eq!(store.get_next("test_table", &first), Ok(vec![second]));
}

#[test]
fn append_converges_on_the_newest_node_in_sight() {
    // T1 and T2 both hang from the root; the root is this peer's own tip
    let mut store = TestStore::new();
    let root = Address::new("-1");
    let t1 = store.author("test_table", "T1", Some(Predecessor::Item(root.clone())), None).unwrap();
    let t2 = store.author("test_table", "T2", None, Some(Predecessor::Item(root.clone()))).unwrap();
    assert_eq!(store.author("test_table", "-1", None, None).unwrap(), root);
    let seen = store.get_content_dag("test_table", &root, None, None).unwrap().0;
    assert_eq!(seen, vec![t1.clone(), t2.clone()]);
    let fallback = Address::new("conversation");
    let merged = store.add_content_dag("test_table", "N", &fallback).unwrap();
    assert_eq!(store.get_prev_authored(&merged), Ok(Some(root.clone())));
    assert_eq!(store.get_prev_foreign(&merged), Ok(Some(seen.last().unwrap().clone())));
    let whole = store.get_content_dag("test_table", &root, None, None).unwrap().0;
    assert_eq!(whole.len(), 3);
    assert!(position(&whole, &t1) < position(&whole, &merged));
    assert!(position(&whole, &t2) < position(&whole, &merged));
}

#[test]
fn diamond_shows_the_meeting_node_once_and_last() {
    let mut store = TestStore::new();
    let r = store.author("test_table", "R", None, None).unwrap();
    let x = store.author("test_table", "X", Some(Predecessor::Item(r.clone())), None).unwrap();
    let y = store.author("test_table", "Y", None, Some(Predecessor::Item(r.clone()))).unwrap();
    let z = store.author("test_table", "Z", Some(Predecessor::Item(x.clone())), Some(Predecessor::Item(y.clone()))).unwrap();
    let (order, more) = store.get_content_dag("test_table", &r, None, None).unwrap();
    assert!(!more);
    assert_eq!(order.len(), 3);
    assert!(position(&order, &x) < position(&order, &z));
    assert!(position(&order, &y) < position(&order, &z));
}

#[test]
fn a_cycle_ends_the_read() {
    let mut store = TestStore::new();
    let a = Address::new("a");
    let b = Address::new("b");
    store.author("test_table", "b", Some(Predecessor::Item(a.clone())), None).unwrap();
    store.author("test_table", "a", Some(Predecessor::Item(b.clone())), None).unwrap();
    let (order, more) = store.get_content_dag("test_table", &a, None, None).unwrap();
    assert_eq!(order, vec![b.clone(), a.clone()]);
    assert!(!more);
}

#[test]
fn streams_are_kept_apart() {
    let mut store = TestStore::new();
    let root = Address::new("root");
    let one = store.author("one", "1", Some(Predecessor::Item(root.clone())), None).unwrap();
    let two = store.author("two", "2", Some(Predecessor::Item(root.clone())), None).unwrap();
    assert_eq!(store.get_content_dag("one", &root, None, None), Ok((vec![one.clone()], false)));
    assert_eq!(store.get_content_dag("two", &root, None, None), Ok((vec![two.clone()], false)));
    assert_eq!(store.get_content_dag("three", &root, None, None), Ok((vec![], false)));
    assert_eq!(store.most_recent_authored("one"), Ok(Some(one)));
    assert_eq!(store.most_recent_authored("two"), Ok(Some(two)));
    assert_eq!(store.most_recent_authored("three"), Ok(None));
    assert_eq!(store.len(), 2);
}

#[test]
fn unknown_start_reads_nothing() {
    let store = TestStore::new();
    assert_eq!(
        store.get_content_dag("test_table", &Address::new("nowhere"), Some(5), None),
        Ok((vec![], false)),
    );
    assert_eq!(store.get_prev_authored(&Address::new("nowhere")), Ok(None));
    assert_eq!(store.get_prev_foreign(&Address::new("nowhere")), Ok(None));
}

#[test]
fn walk_by_hand() {
    // since -> [x, y], x -> [y]
    let since = Address::new("since");
    let x = Address::new("x");
    let y = Address::new("y");
    let mut walk = Traversal::begin(&since);
    assert!(!walk.is_finished());
    assert_eq!(walk.advance(), Some(since.clone()));
    walk.schedule(&vec![x.clone(), y.clone()], Some(2));
    assert_eq!(walk.advance(), Some(y.clone()));
    walk.schedule(&vec![], Some(2));
    assert_eq!(walk.advance(), None);
    assert_eq!(walk.advance(), Some(x.clone()));
    walk.schedule(&vec![y.clone(), Address::new("z")], Some(2));
    assert_eq!(walk.advance(), None);
    assert_eq!(walk.advance(), None);
    assert!(walk.is_finished());
    assert_eq!(walk.finish(), (vec![x.clone(), y.clone()], true));
    assert!(contains_address(&vec![x.clone(), y.clone()], &y));
    assert!(!contains_address(&vec![x.clone()], &y));
    assert_eq!(reversed(&vec![x.clone(), y.clone(), since.clone()]), vec![since, y, x]);
}

#[test]
fn predecessors_are_chosen_from_what_the_store_found() {
    let root = Address::new("agent_root");
    let tip = Address::new("tip");
    assert_eq!(prev_authored_for(Ok(Some(tip.clone())), root.clone()), Ok(Predecessor::Item(tip)));
    assert_eq!(prev_authored_for(Ok(None), root.clone()), Ok(Predecessor::Root(root.clone())));
    assert_eq!(prev_authored_for(Err(StoreError::Timeout), root), Err(StoreError::Timeout));
    let fallback = Address::new("conversation");
    assert_eq!(
        prev_foreign_for(Ok((Vec::new(), false)), &fallback),
        Ok(Predecessor::Root(fallback.clone()))
    );
    assert_eq!(
        prev_foreign_for(Ok((vec![Address::new("a"), Address::new("b")], false)), &fallback),
        Ok(Predecessor::Item(Address::new("b")))
    );
    assert_eq!(
        prev_foreign_for(Err(StoreError::HashNotFound), &fallback),
        Err(StoreError::HashNotFound)
    );
}

#[test]
fn a_predecessor_tells_the_kind_of_its_edge() {
    let root = Predecessor::Root(Address::new("root"));
    let item = Predecessor::Item(Address::new("item"));
    assert!(root.is_root());
    assert!(!item.is_root());
    assert_eq!(root.address(), &Address::new("root"));
    assert_eq!(item.address(), &Address::new("item"));
    assert_eq!(root.authored_kind(), EdgeKind::AuthorRoot);
    assert_eq!(root.foreign_kind(), EdgeKind::ForeignRoot);
    assert_eq!(item.authored_kind(), EdgeKind::Next);
    assert_eq!(item.foreign_kind(), EdgeKind::Next);
    assert_eq!(root.clone(), root);
    assert_eq!(item.clone(), item);
}

#[test]
fn a_failure_of_the_store_leaves_the_walk_as_it_was() {
    let since = Address::new("since");
    let mut walk = Traversal::begin(&since);
    assert_eq!(walk.advance(), Some(since.clone()));
    assert_eq!(walk.expand(Err(StoreError::Timeout), None), Err(StoreError::Timeout));
    assert_eq!(walk.expand(Ok(vec![Address::new("x")]), None), Ok(()));
    assert_eq!(walk.advance(), Some(Address::new("x")));
    assert_eq!(walk.expand(Ok(Vec::new()), None), Ok(()));
    assert_eq!(walk.advance(), None);
    assert_eq!(walk.advance(), None);
    assert!(walk.is_finished());
    assert_eq!(walk.advance(), None);
    assert_eq!(walk.finish(), (vec![Address::new("x")], false));
}

#[test]
fn a_node_scheduled_early_comes_before_a_later_way_to_it() {
    // since -> c, since -> b, b -> c: c is scheduled from since before b is expanded
    let mut store = TestStore::new();
    let since = Address::new("since");
    let c = store.author("test_table", "c", Some(Predecessor::Item(since.clone())), None).unwrap();
    let b = store.author("test_table", "b", Some(Predecessor::Item(since.clone())), None).unwrap();
    assert_eq!(store.author("test_table", "c", Some(Predecessor::Item(b.clone())), None).unwrap(), c);
    assert_eq!(store.get_next("test_table", &since), Ok(vec![c.clone(), b.clone()]));
    assert_eq!(store.get_next("test_table", &b), Ok(vec![c.clone()]));
    assert_eq!(
        store.get_content_dag("test_table", &since, None, None),
        Ok((vec![c, b], false)),
    );
}

#[test]
fn appends_link_from_roots_with_the_kinds_of_the_roots() {
    let mut store = TestStore::new();
    let fallback = Address::new("conversation");
    let agent = store.author_root_address();
    let first = store.add_content_dag("test_table", "one", &fallback).unwrap();
    assert_eq!(
        store.get_links("test_table", &agent),
        vec![(first.clone(), EdgeKind::AuthorRoot)]
    );
    assert_eq!(
        store.get_links("test_table", &fallback),
        vec![(first.clone(), EdgeKind::ForeignRoot)]
    );
    // the second item comes after the first, and still has nothing in sight
    let second = store.add_content_dag("test_table", "two", &fallback).unwrap();
    assert_eq!(store.get_links("test_table", &first), vec![(second.clone(), EdgeKind::Next)]);
    assert_eq!(
        store.get_links("test_table", &fallback),
        vec![(first.clone(), EdgeKind::ForeignRoot), (second.clone(), EdgeKind::ForeignRoot)]
    );
    assert_eq!(store.get_links("test_table", &agent), vec![(first, EdgeKind::AuthorRoot)]);
    assert!(store.get_links("other_table", &agent).is_empty());
}

#[test]
fn an_append_with_items_in_sight_links_between_items() {
    let mut store = TestStore::new();
    let root = Address::new("-1");
    let t1 = store.author("test_table", "T1", Some(Predecessor::Item(root.clone())), None).unwrap();
    let t2 = store.author("test_table", "T2", None, Some(Predecessor::Item(root.clone()))).unwrap();
    assert_eq!(store.author("test_table", "-1", None, None).unwrap(), root);
    let merged = store.add_content_dag("test_table", "N", &Address::new("conversation")).unwrap();
    assert_eq!(
        store.get_links("test_table", &root),
        vec![
            (t1, EdgeKind::Next),
            (t2.clone(), EdgeKind::Next),
            (merged.clone(), EdgeKind::Next)
        ]
    );
    assert_eq!(store.get_links("test_table", &t2), vec![(merged, EdgeKind::Next)]);
}

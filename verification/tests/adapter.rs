use chat::adapter::{
    entry_address, links_tagged, most_recent_in_stream, Authoring, DagItem, LogEntry, Progress,
    StoreCall, TaggedLink, DAG_ITEM_ENTRY,
};
use chat::dag::{EdgeKind, Predecessor};
use chat::address::Address;
use chat::error::StoreError;

fn item_bytes() -> Vec<u8> {
    String::from("{\"content\":\"{}\"}").into_bytes()
}

fn begin(prev_authored: Predecessor, prev_foreign: Predecessor) -> Authoring {
    let (commit, call) = Authoring::begin("stream", item_bytes(), prev_authored, prev_foreign);
    match call {
        StoreCall::Commit(entry) => assert_eq!(entry, item_bytes()),
        other => panic!("expected a commit, got {:?}", other),
    }
    assert_eq!(commit.address(), &entry_address(&item_bytes()));
    commit
}

fn item(address: &str) -> Predecessor {
    Predecessor::Item(Address::new(address))
}

fn root(address: &str) -> Predecessor {
    Predecessor::Root(Address::new(address))
}

fn kinds_of_commit(prev_authored: Predecessor, prev_foreign: Predecessor) -> (EdgeKind, EdgeKind) {
    let commit = begin(prev_authored, prev_foreign);
    let (commit, first) = match commit.advance(Ok(())) {
        Progress::Call(commit, StoreCall::Link { from, to, kind, table }) => {
            assert_eq!(from, Address::new("mine"));
            assert_eq!(to, entry_address(&item_bytes()));
            assert_eq!(table, "stream");
            (commit, kind)
        }
        other => panic!("expected a link, got {:?}", other),
    };
    let (commit, second) = match commit.advance(Ok(())) {
        Progress::Call(commit, StoreCall::Link { from, to, kind, table }) => {
            assert_eq!(from, Address::new("theirs"));
            assert_eq!(to, entry_address(&item_bytes()));
            assert_eq!(table, "stream");
            (commit, kind)
        }
        other => panic!("expected a link, got {:?}", other),
    };
    match commit.advance(Ok(())) {
        Progress::Done(address) => assert_eq!(address, entry_address(&item_bytes())),
        other => panic!("expected the end, got {:?}", other),
    }
    (first, second)
}

#[test]
fn commit_links_both_predecessors() {
    assert_eq!(kinds_of_commit(item("mine"), item("theirs")), (EdgeKind::Next, EdgeKind::Next));
}

#[test]
fn edges_from_roots_have_the_kinds_of_the_roots() {
    assert_eq!(
        kinds_of_commit(root("mine"), root("theirs")),
        (EdgeKind::AuthorRoot, EdgeKind::ForeignRoot)
    );
    assert_eq!(
        kinds_of_commit(root("mine"), item("theirs")),
        (EdgeKind::AuthorRoot, EdgeKind::Next)
    );
    assert_eq!(
        kinds_of_commit(item("mine"), root("theirs")),
        (EdgeKind::Next, EdgeKind::ForeignRoot)
    );
}

#[test]
fn store_failures_end_the_commit() {
    match begin(item("mine"), item("theirs"))
        .advance(Err(StoreError::Internal(String::from("disk full"))))
    {
        Progress::Failed(failure) => {
            assert_eq!(failure, StoreError::Internal(String::from("disk full")))
        }
        other => panic!("expected a failure, got {:?}", other),
    }
    // a refused edge is not asked for again
    let commit = begin(root("mine"), root("theirs"));
    let commit = match commit.advance(Ok(())) {
        Progress::Call(commit, StoreCall::Link { .. }) => commit,
        other => panic!("expected a link, got {:?}", other),
    };
    match commit.advance(Err(StoreError::ValidationFailed(String::from("not an item")))) {
        Progress::Failed(failure) => {
            assert_eq!(failure, StoreError::ValidationFailed(String::from("not an item")))
        }
        other => panic!("expected a failure, got {:?}", other),
    }
    let commit = begin(item("mine"), item("theirs"));
    let commit = match commit.advance(Ok(())) {
        Progress::Call(commit, StoreCall::Link { .. }) => commit,
        other => panic!("expected a link, got {:?}", other),
    };
    let commit = match commit.advance(Ok(())) {
        Progress::Call(commit, StoreCall::Link { .. }) => commit,
        other => panic!("expected a link, got {:?}", other),
    };
    match commit.advance(Err(StoreError::Timeout)) {
        Progress::Failed(failure) => assert_eq!(failure, StoreError::Timeout),
        other => panic!("expected a failure, got {:?}", other),
    }
}

#[test]
fn entries_are_addressed_by_their_hash() {
    let bytes = item_bytes();
    let address = entry_address(&bytes);
    let entry = hdk::prelude::Entry::App(hdk::prelude::AppEntryBytes(
        hdk::prelude::SerializedBytes::from(hdk::prelude::UnsafeBytes::from(bytes.clone())),
    ));
    let hash = hdk::prelude::hash_entry(entry).unwrap();
    assert_eq!(address.as_str(), hash.to_string());
    assert_eq!(address.as_str().len(), 53);
    assert!(address.as_str().starts_with("uhCEk"));
    assert_eq!(entry_address(&bytes), address);
    assert_ne!(entry_address(&vec![1, 2, 3]), address);
    assert_ne!(entry_address(&Vec::new()), entry_address(&vec![0]));
}

#[test]
fn item_keeps_its_parts() {
    let item = DagItem::new("stream", "{}", Address::new("mine"), Address::new("theirs"));
    assert_eq!(item.prev_authored(), &Address::new("mine"));
    assert_eq!(item.prev_foreign(), &Address::new("theirs"));
    assert_eq!(item.table(), "stream");
    assert_eq!(item.content(), "{}");
    assert_eq!(item.content, "{}");
}

#[test]
fn edge_kinds_have_their_names() {
    assert_eq!(EdgeKind::Next.link_type(), "dag/next");
    assert_eq!(EdgeKind::AuthorRoot.link_type(), "dag/author_root");
    assert_eq!(EdgeKind::ForeignRoot.link_type(), "dag/foreign_root");
    assert_eq!(DAG_ITEM_ENTRY, "dag_entry_item");
}

fn entry(address: &str, table: Option<&str>) -> LogEntry {
    LogEntry {
        address: Address::new(address),
        item: table.map(|t| DagItem::new(t, "{}", Address::new("p"), Address::new("q"))),
    }
}

#[test]
fn newest_item_of_a_stream_is_found_in_the_log() {
    let log = vec![
        entry("a", Some("one")),
        entry("b", Some("two")),
        entry("c", Some("one")),
        entry("d", None),
        entry("e", Some("two")),
        entry("f", None),
    ];
    assert_eq!(most_recent_in_stream(&log, "one"), Some(Address::new("c")));
    assert_eq!(most_recent_in_stream(&log, "two"), Some(Address::new("e")));
    assert_eq!(most_recent_in_stream(&log, "three"), None);
    assert_eq!(most_recent_in_stream(&Vec::new(), "one"), None);
}

#[test]
fn a_stream_has_the_links_tagged_with_its_whole_name() {
    let links = vec![
        TaggedLink { tag: String::from("stream"), target: Address::new("a") },
        TaggedLink { tag: String::from("streams"), target: Address::new("b") },
        TaggedLink { tag: String::from("stream"), target: Address::new("c") },
        TaggedLink { tag: String::from("str"), target: Address::new("d") },
    ];
    assert_eq!(links_tagged(&links, "stream"), vec![Address::new("a"), Address::new("c")]);
    assert_eq!(links_tagged(&links, "streams"), vec![Address::new("b")]);
    assert!(links_tagged(&links, "other").is_empty());
    assert!(links_tagged(&Vec::new(), "stream").is_empty());
}

use chat::address::Address;
use chat::dag::{DagList, Predecessor};
use chat::error::StoreError;

/// A store that fails where it is told to, and counts the commits asked of it.
struct Faulty {
    lookup_fails: bool,
    edges_fail: bool,
    commit_fails: bool,
    commits: usize,
    last: Option<(Option<Predecessor>, Option<Predecessor>)>,
}

impl Faulty {
    fn new(lookup_fails: bool, edges_fail: bool, commit_fails: bool) -> Faulty {
        Faulty { lookup_fails, edges_fail, commit_fails, commits: 0, last: None }
    }
}

impl DagList for Faulty {
    fn author(
        &mut self,
        _table: &str,
        content: &str,
        prev_authored: Option<Predecessor>,
        prev_foreign: Option<Predecessor>,
    ) -> Result<Address, StoreError> {
        self.commits += 1;
        self.last = Some((prev_authored, prev_foreign));
        if self.commit_fails {
            Err(StoreError::ValidationFailed(String::from("turned down")))
        } else {
            Ok(Address::new(content))
        }
    }

    fn author_root_address(&self) -> Address {
        Address::new("agent")
    }

    fn most_recent_authored(&self, _table: &str) -> Result<Option<Address>, StoreError> {
        if self.lookup_fails {
            Err(StoreError::Internal(String::from("no log")))
        } else {
            Ok(None)
        }
    }

    fn get_prev_authored(&self, _address: &Address) -> Result<Option<Address>, StoreError> {
        Ok(None)
    }

    fn get_prev_foreign(&self, _address: &Address) -> Result<Option<Address>, StoreError> {
        Ok(None)
    }

    fn get_next(&self, _table: &str, _address: &Address) -> Result<Vec<Address>, StoreError> {
        if self.edges_fail {
            Err(StoreError::Timeout)
        } else {
            Ok(Vec::new())
        }
    }
}

#[test]
fn store_failures_reach_the_caller() {
    let mut store = Faulty::new(false, true, false);
    assert_eq!(
        store.get_content_dag("t", &Address::new("a"), None, None),
        Err(StoreError::Timeout)
    );
    assert_eq!(store.add_content_dag("t", "x", &Address::new("r")), Err(StoreError::Timeout));
    assert_eq!(store.commits, 0);
}

#[test]
fn a_failed_lookup_ends_the_append_before_the_commit() {
    let mut store = Faulty::new(true, false, false);
    assert_eq!(
        store.add_content_dag("t", "x", &Address::new("r")),
        Err(StoreError::Internal(String::from("no log")))
    );
    assert_eq!(store.commits, 0);
}

#[test]
fn a_failed_commit_is_the_result_of_the_append() {
    let mut store = Faulty::new(false, false, true);
    assert_eq!(
        store.add_content_dag("t", "x", &Address::new("r")),
        Err(StoreError::ValidationFailed(String::from("turned down")))
    );
    assert_eq!(store.commits, 1);
}

#[test]
fn an_append_hands_the_roots_over_as_roots() {
    let mut store = Faulty::new(false, false, false);
    assert_eq!(store.add_content_dag("t", "x", &Address::new("r")), Ok(Address::new("x")));
    assert_eq!(store.commits, 1);
    assert_eq!(
        store.last,
        Some((
            Some(Predecessor::Root(Address::new("agent"))),
            Some(Predecessor::Root(Address::new("r")))
        ))
    );
}

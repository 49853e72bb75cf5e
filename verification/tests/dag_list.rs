use chat::address::Address;
use chat::dag::{DagList, Predecessor};
use chat::store::TestStore;

#[test]
fn test_get_nothing() {
    let mut store = TestStore::new();
    let root_addr = store.author("test_table", "-1", None, None).unwrap();
    // This retrieves everything
    assert_eq!(
        store.get_content_dag("test_table", &root_addr, None, None),
        Ok((vec![], false)),
    );
}

#[test]
fn test_get_singleton() {
    // 0
    let mut store = TestStore::new();
    let addr = store.author("test_table", "0", None, None).unwrap();
    // This retrieves everything
    assert_eq!(
        store.get_content_dag("test_table", &addr, None, None),
        Ok((vec![], false)),
    );
}

#[test]
fn test_get_2_chain() {
    // 0->1
    let mut store = TestStore::new();
    let root_addr = store.author("test_table", "0", None, None).unwrap();
    let tip_addr = store.author("test_table", "1", Some(Predecessor::Item(root_addr.clone())), None).unwrap();

    // This retrieves everything if started at the root
    assert_eq!(
        store.get_content_dag("test_table", &root_addr, None, None),
        Ok((vec![tip_addr.clone()], false)),
    );
    // starting at the tip gets nothing
    assert_eq!(
        store.get_content_dag("test_table", &tip_addr, None, None),
        Ok((vec![], false)),
    );
}

#[test]
fn test_get_fork() {
    // 0->1
    //  \>2
    let mut store = TestStore::new();
    let root_addr = store.author("test_table", "0", None, None).unwrap();
    let tip1_addr = store.author("test_table", "1", Some(Predecessor::Item(root_addr.clone())), None).unwrap();
    let tip2_addr = store.author("test_table", "2", None, Some(Predecessor::Item(root_addr.clone()))).unwrap();

    // This retrieves everything if started at the root
    assert_eq!(
        store.get_content_dag("test_table", &root_addr, None, None),
        Ok((vec![tip1_addr.clone(), tip2_addr.clone()], false)),
    );
}

#[test]
fn test_two_authors() {
    // 0->1->2->3
    //  \     \   \
    //   \     \   \
    //    \>10->11->12
    //
    let mut store = TestStore::new();
    let addr0 = store.author("test_table", "0", None, None).unwrap();
    let addr1 = store.author("test_table", "1", Some(Predecessor::Item(addr0.clone())), None).unwrap();
    let addr2 = store.author("test_table", "2", Some(Predecessor::Item(addr1.clone())), None).unwrap();
    let addr3 = store.author("test_table", "3", Some(Predecessor::Item(addr2.clone())), None).unwrap();

    let addr10 = store.author("test_table", "10", None, Some(Predecessor::Item(addr0.clone()))).unwrap();
    let addr11 = store.author("test_table", "11", Some(Predecessor::Item(addr10.clone())), Some(Predecessor::Item(addr2.clone()))).unwrap();
    let addr12 = store.author("test_table", "12", Some(Predecessor::Item(addr11.clone())), Some(Predecessor::Item(addr3.clone()))).unwrap();

    // This retrieves everything if started at the root
    assert_eq!(
        store.get_content_dag("test_table", &addr0, None, None).unwrap().0,
        vec![addr1.clone(), addr2.clone(), addr3.clone(), addr10.clone(), addr11.clone(), addr12.clone()],
    );

    // This retrieves only things after 2 if started at 2
    assert_eq!(
        store.get_content_dag("test_table", &addr2, None, None).unwrap().0,
        vec![addr3, addr11.clone(), addr12],
    );

    // The limit can be used to truncate
    assert_eq!(
        store.get_content_dag("test_table", &addr0, Some(3), None),
        Ok((vec![addr1.clone(), addr10.clone(), addr11.clone()], true)),
    );
}

#[test]
fn test_add_single_content_dag() {
    let mut store = TestStore::new();
    let root_addr = store.author("test_table", "-1", None, None).unwrap();
    let addr = store.add_content_dag("test_table", "0", &root_addr).unwrap();
    assert_eq!(
        store.get_content_dag("test_table", &root_addr, None, None),
        Ok((vec![addr], false)),
    );
}

#[test]
fn test_add_chain_content_dag() {
    let mut store = TestStore::new();
    let root_addr = store.author("test_table", "-1", None, None).unwrap();
    let addr0 = store.add_content_dag("test_table", "0", &root_addr).unwrap();
    let addr1 = store.add_content_dag("test_table", "1", &root_addr).unwrap();
    let addr2 = store.add_content_dag("test_table", "2", &root_addr).unwrap();
    let addr3 = store.add_content_dag("test_table", "3", &root_addr).unwrap();
    let addr4 = store.add_content_dag("test_table", "4", &root_addr).unwrap();
    let addr5 = store.add_content_dag("test_table", "5", &root_addr).unwrap();

    // can get the lot
    assert_eq!(
        store.get_content_dag("test_table", &root_addr, None, None),
        Ok((vec![addr0.clone(), addr1.clone(), addr2.clone(), addr3.clone(), addr4.clone(), addr5.clone()], false)),
    );

    // can limit starting at the root
    assert_eq!(
        store.get_content_dag("test_table", &root_addr, Some(3), None),
        Ok((vec![addr0.clone(), addr1.clone(), addr2.clone()], true)),
    );

    // can limit starting at a 'since'
    assert_eq!(
        store.get_content_dag("test_table", &addr1, Some(3), None),
        Ok((vec![addr2.clone(), addr3.clone(), addr4.clone()], true)),
    );
}

#[test]
fn address_keeps_its_text() {
    let address = Address::new("QmHash");
    assert_eq!(address.as_str(), "QmHash");
    assert!(address.same_as(&Address::new("QmHash")));
    assert!(!address.same_as(&Address::new("QmOther")));
    assert_eq!(address.clone().into_string(), String::from("QmHash"));
}

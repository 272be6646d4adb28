use classification_store::classification::Classification;
use classification_store::error::StoreError;
use classification_store::store::{DataSource, ItemLink};

fn record(id: i32, parent_id: Option<i32>, name: &str, order: i32) -> Classification {
    Classification {
        id,
        parent_id,
        name: Some(name.to_string()),
        type_: 0,
        data: String::new(),
        shortcut_key: None,
        global_shortcut_key: false,
        order,
    }
}

fn add(store: &mut DataSource, parent_id: Option<i64>, name: &str) -> Classification {
    store
        .insert_classification(parent_id, name.to_string(), None, false, "{}".to_string(), Some(0))
        .unwrap()
}

fn orders(list: &[Classification]) -> Vec<i32> {
    list.iter().map(|c| c.order).collect()
}

fn ids(list: &[Classification]) -> Vec<i32> {
    list.iter().map(|c| c.id).collect()
}

#[test]
fn empty_store_has_nothing() {
    let store = DataSource::new();
    assert_eq!(store.get_classification_count(), 0);
    assert!(store.get_classification(None).is_empty());
    assert!(store.get_classification_scope(None).is_empty());
    assert!(store.get_classification(Some(1)).is_empty());
    assert!(!store.has_child_classification(None));
    assert!(!store.has_child_classification(Some(1)));
    assert_eq!(store.get_classification_max_order(None), 0);
    assert_eq!(store.get_classification_max_order(Some(7)), 0);
    assert!(store.item_links().is_empty());
}

#[test]
fn first_insert_into_empty_store() {
    let mut store = DataSource::new();
    let work = store
        .insert_classification(
            None,
            "Work".to_string(),
            Some("Ctrl+W".to_string()),
            true,
            "payload".to_string(),
            Some(3),
        )
        .unwrap();
    assert_eq!(work.id, 1);
    assert_eq!(work.order, 1);
    assert_eq!(work.parent_id, None);
    assert_eq!(work.name, Some("Work".to_string()));
    assert_eq!(work.shortcut_key, Some("Ctrl+W".to_string()));
    assert!(work.global_shortcut_key);
    assert_eq!(work.data, "payload");
    assert_eq!(work.type_, 3);
    assert_eq!(store.get_classification_count(), 1);
    assert_eq!(store.get_classification_by_id(1), Some(work));
}

#[test]
fn second_root_gets_order_two() {
    let mut store = DataSource::new();
    let first = add(&mut store, None, "Work");
    let second = add(&mut store, None, "Home");
    assert_eq!(first.order, 1);
    assert_eq!(second.order, 2);
    assert_eq!(second.id, 2);
    let list = store.get_classification(None);
    assert_eq!(orders(&list), vec![1, 2]);
    assert_eq!(ids(&list), vec![1, 2]);
    let roots = store.get_classification_scope(None);
    assert_eq!(roots, list);
}

#[test]
fn insert_takes_the_rank_behind_the_highest() {
    let rows = vec![
        record(1, None, "root", 1),
        record(2, Some(1), "a", 4),
        record(3, Some(1), "b", 7),
        record(4, None, "other", 2),
    ];
    let mut store = DataSource::from_rows(rows, Vec::new(), 4).unwrap();
    assert_eq!(store.get_classification_max_order(Some(1)), 7);
    assert_eq!(store.get_classification_max_order(None), 2);
    let child = add(&mut store, Some(1), "c");
    assert_eq!(child.order, 8);
    assert_eq!(child.id, 5);
    assert_eq!(child.parent_id, Some(1));
    let root = add(&mut store, None, "d");
    assert_eq!(root.order, 3);
    let lone = add(&mut store, Some(4), "e");
    assert_eq!(lone.order, 1);
}

#[test]
fn insert_keeps_a_dense_scope_dense() {
    let mut store = DataSource::new();
    add(&mut store, None, "root");
    for name in ["a", "b", "c", "d"] {
        add(&mut store, Some(1), name);
    }
    let list = store.get_classification_scope(Some(1));
    assert_eq!(orders(&list), vec![1, 2, 3, 4]);
    assert_eq!(ids(&list), vec![2, 3, 4, 5]);
}

#[test]
fn insert_behind_a_gap_leaves_the_gap() {
    let rows = vec![record(1, None, "root", 1), record(2, Some(1), "a", 1), record(4, Some(1), "c", 3)];
    let mut store = DataSource::from_rows(rows, Vec::new(), 4).unwrap();
    let added = add(&mut store, Some(1), "d");
    assert_eq!(added.order, 4);
    assert_eq!(orders(&store.get_classification_scope(Some(1))), vec![1, 3, 4]);
}

#[test]
fn max_order_may_be_negative() {
    let rows = vec![record(1, None, "a", -5), record(2, None, "b", -9)];
    let mut store = DataSource::from_rows(rows, Vec::new(), 2).unwrap();
    assert_eq!(store.get_classification_max_order(None), -5);
    assert_eq!(add(&mut store, None, "c").order, -4);
}

#[test]
fn update_data_changes_only_the_payload() {
    let mut store = DataSource::new();
    for name in ["a", "b", "c", "d", "e", "f"] {
        add(&mut store, None, name);
    }
    let before = store.get_classification_by_id(5).unwrap();
    assert_eq!(store.update_classification_data(5, "newPayload".to_string()), 1);
    let after = store.get_classification_by_id(5).unwrap();
    assert_eq!(after.data, "newPayload");
    assert_eq!(after.id, before.id);
    assert_eq!(after.parent_id, before.parent_id);
    assert_eq!(after.name, before.name);
    assert_eq!(after.type_, before.type_);
    assert_eq!(after.shortcut_key, before.shortcut_key);
    assert_eq!(after.global_shortcut_key, before.global_shortcut_key);
    assert_eq!(after.order, before.order);
    assert_eq!(store.get_classification_by_id(4).unwrap().data, "{}");
    assert_eq!(store.get_classification_by_id(6).unwrap().data, "{}");
    assert_eq!(store.get_classification_count(), 6);
}

#[test]
fn reorder_closes_a_gap() {
    let rows = vec![
        record(1, None, "one", 1),
        record(2, None, "two", 2),
        record(3, Some(2), "first", 1),
        record(5, Some(2), "third", 3),
    ];
    let mut store = DataSource::from_rows(rows, Vec::new(), 5).unwrap();
    assert_eq!(orders(&store.get_classification_scope(Some(2))), vec![1, 3]);
    store.reorder_classification(Some(2));
    let list = store.get_classification_scope(Some(2));
    assert_eq!(orders(&list), vec![1, 2]);
    assert_eq!(ids(&list), vec![3, 5]);
    assert_eq!(orders(&store.get_classification_scope(None)), vec![1, 2]);
}

#[test]
fn reorder_follows_the_ranks_not_the_table() {
    let rows = vec![
        record(1, None, "root", 1),
        record(2, Some(1), "late", 40),
        record(3, Some(1), "early", -3),
        record(4, Some(1), "middle", 7),
        record(5, None, "second root", 9),
    ];
    let mut store = DataSource::from_rows(rows, Vec::new(), 5).unwrap();
    store.reorder_classification(Some(1));
    let list = store.get_classification_scope(Some(1));
    assert_eq!(ids(&list), vec![3, 4, 2]);
    assert_eq!(orders(&list), vec![1, 2, 3]);
    assert_eq!(store.get_classification_by_id(2).unwrap().order, 3);
    assert_eq!(store.get_classification_by_id(2).unwrap().name, Some("late".to_string()));
    assert_eq!(store.get_classification_by_id(5).unwrap().order, 9);
    assert_eq!(store.get_classification_by_id(1).unwrap().order, 1);
}

#[test]
fn reorder_of_no_scope_argument_compacts_the_roots() {
    let rows = vec![
        record(1, None, "a", 5),
        record(2, Some(1), "child", 8),
        record(3, None, "b", 2),
    ];
    let mut store = DataSource::from_rows(rows, Vec::new(), 3).unwrap();
    store.reorder_classification(None);
    assert_eq!(ids(&store.get_classification_scope(None)), vec![3, 1]);
    assert_eq!(orders(&store.get_classification_scope(None)), vec![1, 2]);
    assert_eq!(store.get_classification_by_id(2).unwrap().order, 8);
}

#[test]
fn reorder_breaks_ties_by_identifier() {
    let rows = vec![record(1, None, "a", 2), record(2, None, "b", 2), record(3, None, "c", 1)];
    let mut store = DataSource::from_rows(rows, Vec::new(), 3).unwrap();
    assert_eq!(ids(&store.get_classification(None)), vec![3, 1, 2]);
    store.reorder_classification(None);
    assert_eq!(ids(&store.get_classification(None)), vec![3, 1, 2]);
    assert_eq!(orders(&store.get_classification(None)), vec![1, 2, 3]);
}

#[test]
fn reorder_of_an_empty_scope_changes_nothing() {
    let mut store = DataSource::new();
    add(&mut store, None, "a");
    store.reorder_classification(Some(9));
    assert_eq!(store.get_classification_count(), 1);
    assert_eq!(store.get_classification_by_id(1).unwrap().order, 1);
}

#[test]
fn first_child_takes_the_items_of_its_parent() {
    let rows = vec![record(1, None, "parent", 1)];
    let items = vec![
        ItemLink { item_id: 100, classification_id: 1 },
        ItemLink { item_id: 101, classification_id: 7 },
        ItemLink { item_id: 102, classification_id: 1 },
    ];
    let mut store = DataSource::from_rows(rows, items, 9).unwrap();
    let child = add(&mut store, Some(1), "child");
    assert_eq!(child.id, 10);
    assert_eq!(
        store.item_links(),
        vec![
            ItemLink { item_id: 100, classification_id: 10 },
            ItemLink { item_id: 101, classification_id: 7 },
            ItemLink { item_id: 102, classification_id: 10 },
        ]
    );
    let second = add(&mut store, Some(1), "second child");
    assert_eq!(second.id, 11);
    assert_eq!(store.item_links()[0].classification_id, 10);
    assert_eq!(store.item_links()[2].classification_id, 10);
}

#[test]
fn root_insert_moves_no_item() {
    let items = vec![ItemLink { item_id: 1, classification_id: 1 }];
    let mut store = DataSource::from_rows(Vec::new(), items.clone(), 0).unwrap();
    add(&mut store, None, "root");
    assert_eq!(store.item_links(), items);
}

#[test]
fn absent_identifier_is_no_error() {
    let mut store = DataSource::new();
    add(&mut store, None, "a");
    assert_eq!(store.get_classification_by_id(2), None);
    assert_eq!(store.get_classification_by_id(0), None);
    assert_eq!(store.get_classification_by_id(-1), None);
    assert_eq!(store.get_classification_by_id(i64::MAX), None);
    assert_eq!(
        store.update_classification(2, "x".to_string(), None, false, "d".to_string(), Some(1)),
        Ok(false)
    );
    assert_eq!(
        store.update_classification(2, "x".to_string(), None, false, "d".to_string(), None),
        Ok(false)
    );
    assert_eq!(store.update_classification_data(2, "d".to_string()), 0);
    assert_eq!(store.get_classification_by_id(1), Some(Classification {
        id: 1,
        parent_id: None,
        name: Some("a".to_string()),
        type_: 0,
        data: "{}".to_string(),
        shortcut_key: None,
        global_shortcut_key: false,
        order: 1,
    }));
}

#[test]
fn update_overwrites_all_but_place() {
    let mut store = DataSource::new();
    add(&mut store, None, "root");
    add(&mut store, Some(1), "a");
    add(&mut store, Some(1), "b");
    let changed = store.update_classification(
        3,
        "renamed".to_string(),
        Some("F2".to_string()),
        true,
        "data".to_string(),
        Some(-4),
    );
    assert_eq!(changed, Ok(true));
    assert_eq!(store.get_classification_by_id(3), Some(Classification {
        id: 3,
        parent_id: Some(1),
        name: Some("renamed".to_string()),
        type_: -4,
        data: "data".to_string(),
        shortcut_key: Some("F2".to_string()),
        global_shortcut_key: true,
        order: 2,
    }));
    assert_eq!(store.get_classification_by_id(2).unwrap().name, Some("a".to_string()));
}

#[test]
fn update_without_kind_fails_and_changes_nothing() {
    let mut store = DataSource::new();
    let before = add(&mut store, None, "root");
    assert_eq!(
        store.update_classification(1, "x".to_string(), None, true, "d".to_string(), None),
        Err(StoreError::UpdateFailed)
    );
    assert_eq!(
        store.update_classification(1, "x".to_string(), None, true, "d".to_string(), Some(1 << 40)),
        Err(StoreError::UpdateFailed)
    );
    assert_eq!(store.get_classification_by_id(1), Some(before));
}

#[test]
fn insert_without_kind_fails_and_changes_nothing() {
    let mut store = DataSource::new();
    add(&mut store, None, "root");
    let failed =
        store.insert_classification(None, "x".to_string(), None, false, "d".to_string(), None);
    assert_eq!(failed, Err(StoreError::InsertFailed));
    assert_eq!(store.get_classification_count(), 1);
    assert_eq!(add(&mut store, None, "next").id, 2);
}

#[test]
fn insert_refuses_what_a_record_cannot_hold() {
    let mut store = DataSource::new();
    let wide = i32::MAX as i64 + 1;
    assert_eq!(
        store.insert_classification(None, "x".to_string(), None, false, String::new(), Some(wide)),
        Err(StoreError::InsertFailed)
    );
    assert_eq!(
        store.insert_classification(
            Some(wide),
            "x".to_string(),
            None,
            false,
            String::new(),
            Some(0)
        ),
        Err(StoreError::InsertFailed)
    );
    assert_eq!(
        store.insert_classification(
            Some(i32::MIN as i64 - 1),
            "x".to_string(),
            None,
            false,
            String::new(),
            Some(0)
        ),
        Err(StoreError::InsertFailed)
    );
    assert_eq!(store.get_classification_count(), 0);
    let edge = store
        .insert_classification(
            Some(i32::MAX as i64),
            "x".to_string(),
            None,
            false,
            String::new(),
            Some(i32::MIN as i64),
        )
        .unwrap();
    assert_eq!(edge.parent_id, Some(i32::MAX));
    assert_eq!(edge.type_, i32::MIN);
}

#[test]
fn insert_fails_when_identifiers_run_out() {
    let mut store = DataSource::from_rows(Vec::new(), Vec::new(), i32::MAX).unwrap();
    assert_eq!(
        store.insert_classification(None, "x".to_string(), None, false, String::new(), Some(0)),
        Err(StoreError::InsertFailed)
    );
    let mut store = DataSource::from_rows(Vec::new(), Vec::new(), i32::MAX - 1).unwrap();
    assert_eq!(add(&mut store, None, "last").id, i32::MAX);
    assert_eq!(
        store.insert_classification(None, "x".to_string(), None, false, String::new(), Some(0)),
        Err(StoreError::InsertFailed)
    );
}

#[test]
fn insert_fails_when_ranks_run_out() {
    let rows = vec![record(1, None, "a", i32::MAX)];
    let mut store = DataSource::from_rows(rows, Vec::new(), 1).unwrap();
    assert_eq!(
        store.insert_classification(None, "x".to_string(), None, false, String::new(), Some(0)),
        Err(StoreError::InsertFailed)
    );
    assert_eq!(add(&mut store, Some(1), "child").order, 1);
}

#[test]
fn identifiers_are_not_given_twice() {
    let rows = vec![record(2, None, "a", 1)];
    let mut store = DataSource::from_rows(rows, Vec::new(), 6).unwrap();
    assert_eq!(add(&mut store, None, "b").id, 7);
    assert_eq!(add(&mut store, None, "c").id, 8);
}

#[test]
fn list_is_scoped_and_ascending() {
    let rows = vec![
        record(1, None, "r1", 2),
        record(2, None, "r2", 1),
        record(3, Some(1), "a", 3),
        record(4, Some(2), "b", 1),
        record(5, Some(1), "c", 1),
        record(6, Some(1), "d", 2),
    ];
    let store = DataSource::from_rows(rows, Vec::new(), 6).unwrap();
    let of_one = store.get_classification(Some(1));
    assert_eq!(ids(&of_one), vec![5, 6, 3]);
    assert!(of_one.iter().all(|c| c.parent_id == Some(1)));
    assert_eq!(ids(&store.get_classification(Some(2))), vec![4]);
    assert_eq!(ids(&store.get_classification_scope(Some(1))), vec![5, 6, 3]);
    assert_eq!(ids(&store.get_classification_scope(None)), vec![2, 1]);
    assert!(store.get_classification(Some(3)).is_empty());
    assert!(store.get_classification(Some(1 << 40)).is_empty());
}

#[test]
fn list_without_scope_holds_every_record() {
    let rows = vec![
        record(1, None, "r1", 2),
        record(2, Some(1), "a", 1),
        record(3, Some(1), "b", 3),
    ];
    let store = DataSource::from_rows(rows, Vec::new(), 3).unwrap();
    assert_eq!(ids(&store.get_classification(None)), vec![2, 1, 3]);
    assert_eq!(ids(&store.get_classification_scope(None)), vec![1]);
}

#[test]
fn has_child_follows_the_listing() {
    let rows = vec![record(1, None, "root", 1), record(2, Some(1), "a", 1)];
    let store = DataSource::from_rows(rows, Vec::new(), 2).unwrap();
    assert!(store.has_child_classification(None));
    assert!(store.has_child_classification(Some(1)));
    assert!(!store.has_child_classification(Some(2)));
    let only_children =
        DataSource::from_rows(vec![record(2, Some(1), "a", 1)], Vec::new(), 2).unwrap();
    assert!(only_children.has_child_classification(None));
    assert!(only_children.get_classification_scope(None).is_empty());
}

#[test]
fn count_counts_every_record() {
    let mut store = DataSource::new();
    add(&mut store, None, "a");
    add(&mut store, Some(1), "b");
    add(&mut store, Some(2), "c");
    assert_eq!(store.get_classification_count(), 3);
}

#[test]
fn from_rows_accepts_only_a_store() {
    assert!(DataSource::from_rows(Vec::new(), Vec::new(), 0).is_some());
    assert!(DataSource::from_rows(Vec::new(), Vec::new(), -1).is_none());
    assert!(DataSource::from_rows(vec![record(1, None, "a", 1)], Vec::new(), 0).is_none());
    assert!(DataSource::from_rows(vec![record(0, None, "a", 1)], Vec::new(), 5).is_none());
    assert!(DataSource::from_rows(
        vec![record(2, None, "a", 1), record(1, None, "b", 2)],
        Vec::new(),
        5
    )
    .is_none());
    assert!(DataSource::from_rows(
        vec![record(2, None, "a", 1), record(2, None, "b", 2)],
        Vec::new(),
        5
    )
    .is_none());
    let store = DataSource::from_rows(
        vec![record(2, None, "a", 1), record(5, Some(9), "b", 2)],
        vec![ItemLink { item_id: 1, classification_id: 5 }],
        5,
    )
    .unwrap();
    assert_eq!(store.get_classification_count(), 2);
    assert_eq!(store.item_links().len(), 1);
    assert_eq!(store.get_classification_by_id(5).unwrap().parent_id, Some(9));
}

#[test]
fn every_failure_has_a_message() {
    assert_eq!(StoreError::StorageUnavailable.message(), "storage unavailable");
    assert_eq!(StoreError::QueryFailed.message(), "query failed");
    assert_eq!(StoreError::InsertFailed.message(), "insert failed");
    assert_eq!(StoreError::UpdateFailed.message(), "update failed");
    assert_eq!(StoreError::ReorderFailed.message(), "reorder failed");
    assert_eq!(StoreError::MalformedPayload.message(), "malformed payload");
}

#[test]
fn blank_record() {
    let blank = Classification::new();
    assert_eq!(blank.id, 0);
    assert_eq!(blank.parent_id, None);
    assert_eq!(blank.name, None);
    assert_eq!(blank.type_, 0);
    assert_eq!(blank.data, "");
    assert_eq!(blank.shortcut_key, None);
    assert!(!blank.global_shortcut_key);
    assert_eq!(blank.order, 0);
    assert_eq!(Classification::default(), blank);
    assert_eq!(blank.clone(), blank);
}

#[test]
fn child_list_is_the_listing_of_the_scope() {
    let rows = vec![
        record(1, None, "root", 1),
        record(2, Some(1), "b", 2),
        record(3, Some(1), "a", 1),
        record(4, Some(2), "deep", 1),
    ];
    let store = DataSource::from_rows(rows, Vec::new(), 4).unwrap();
    let root = store.get_classification_by_id(1).unwrap();
    assert_eq!(ids(&root.get_child_list(1, &store)), vec![3, 2]);
    assert_eq!(ids(&root.get_child_list(2, &store)), vec![4]);
    assert!(root.get_child_list(4, &store).is_empty());
    assert_eq!(root.get_child_list(1, &store), store.get_classification(Some(1)));
}

#[test]
fn dense_scope_lists_ranks_from_one() {
    let mut store = DataSource::new();
    add(&mut store, None, "root");
    for round in 0..5 {
        add(&mut store, Some(1), "child");
        let list = store.get_classification_scope(Some(1));
        let expected: Vec<i32> = (1..=round + 1).collect();
        assert_eq!(orders(&list), expected);
    }
    store.reorder_classification(Some(1));
    assert_eq!(orders(&store.get_classification_scope(Some(1))), vec![1, 2, 3, 4, 5]);
}

#[test]
fn update_keeps_ranks_and_places() {
    let mut store = DataSource::new();
    add(&mut store, None, "root");
    add(&mut store, Some(1), "a");
    add(&mut store, Some(1), "b");
    assert_eq!(
        store.update_classification(2, "z".to_string(), None, false, "d".to_string(), Some(9)),
        Ok(true)
    );
    assert_eq!(store.update_classification_data(3, "e".to_string()), 1);
    let list = store.get_classification_scope(Some(1));
    assert_eq!(ids(&list), vec![2, 3]);
    assert_eq!(orders(&list), vec![1, 2]);
    assert_eq!(list[0].name, Some("z".to_string()));
    assert_eq!(list[1].data, "e");
    assert_eq!(list[1].name, Some("b".to_string()));
}

use task_tracker::models::{check_title, row_existed, stamp_before, StoreError, Task, TaskStore};

const T1: &str = "2024-01-01 09:00:00";
const T2: &str = "2024-01-01 10:00:00";
const T3: &str = "2024-01-02 08:30:00";

fn ids(tasks: &[Task]) -> Vec<i64> {
    tasks.iter().map(|t| t.id).collect()
}

#[test]
fn new_store_lists_nothing() {
    let store = TaskStore::new();
    assert_eq!(store.len(), 0);
    assert!(Task::get_all(&store).is_empty());
}

#[test]
fn create_assigns_increasing_ids() {
    let mut store = TaskStore::new();
    let a = Task::create(&mut store, "a", T1).unwrap();
    let b = Task::create(&mut store, "b", T2).unwrap();
    assert_eq!(a.id, 1);
    assert_eq!(b.id, 2);
    assert_eq!(a.title, "a");
    assert!(!a.completed);
    assert_eq!(a.created_at, T1);
}

#[test]
fn ids_are_not_reused_after_delete() {
    let mut store = TaskStore::new();
    let a = Task::create(&mut store, "a", T1).unwrap();
    assert!(Task::delete(&mut store, a.id));
    let b = Task::create(&mut store, "b", T2).unwrap();
    assert_eq!(b.id, 2);
}

#[test]
fn create_rejects_empty_title() {
    let mut store = TaskStore::new();
    assert_eq!(Task::create(&mut store, "", T1).unwrap_err(), StoreError::InvalidInput);
    assert_eq!(store.len(), 0);
}

#[test]
fn complete_twice_same_state() {
    let mut store = TaskStore::new();
    let t = Task::create(&mut store, "X", T1).unwrap();
    let once = Task::complete(&mut store, t.id).unwrap();
    let twice = Task::complete(&mut store, t.id).unwrap();
    assert!(once.completed);
    assert!(twice.completed);
    assert_eq!(once.id, twice.id);
    assert_eq!(once.title, twice.title);
    assert_eq!(once.created_at, twice.created_at);
    let all = Task::get_all(&store);
    assert_eq!(all.len(), 1);
    assert!(all[0].completed);
}

#[test]
fn complete_missing_is_none() {
    let mut store = TaskStore::new();
    assert!(Task::complete(&mut store, 5).is_none());
}

#[test]
fn toggle_twice_restores() {
    let mut store = TaskStore::new();
    let t = Task::create(&mut store, "X", T1).unwrap();
    let first = Task::toggle(&mut store, t.id).unwrap();
    assert!(first.completed);
    let second = Task::toggle(&mut store, t.id).unwrap();
    assert!(!second.completed);
    assert_eq!(second.title, "X");
}

#[test]
fn toggle_leaves_other_tasks_alone() {
    let mut store = TaskStore::new();
    let a = Task::create(&mut store, "a", T1).unwrap();
    let b = Task::create(&mut store, "b", T2).unwrap();
    Task::toggle(&mut store, a.id).unwrap();
    let all = Task::get_all(&store);
    let other = all.iter().find(|t| t.id == b.id).unwrap();
    assert!(!other.completed);
}

#[test]
fn created_task_is_listed() {
    let mut store = TaskStore::new();
    Task::create(&mut store, "other", T1).unwrap();
    let t = Task::create(&mut store, "X", T2).unwrap();
    let all = Task::get_all(&store);
    assert!(all.iter().any(|r| r.id == t.id && r.title == "X" && !r.completed));
}

#[test]
fn deleted_task_reports_not_found() {
    let mut store = TaskStore::new();
    let t = Task::create(&mut store, "X", T1).unwrap();
    assert!(Task::delete(&mut store, t.id));
    assert!(Task::complete(&mut store, t.id).is_none());
    assert!(Task::toggle(&mut store, t.id).is_none());
    assert!(Task::update(&mut store, t.id, "Y").unwrap().is_none());
    assert!(!Task::delete(&mut store, t.id));
}

#[test]
fn listing_is_newest_first() {
    let mut store = TaskStore::new();
    let b = Task::create(&mut store, "second", T2).unwrap();
    let c = Task::create(&mut store, "third", T3).unwrap();
    let a = Task::create(&mut store, "first", T1).unwrap();
    assert_eq!(ids(&Task::get_all(&store)), vec![c.id, b.id, a.id]);
}

#[test]
fn equal_stamps_list_later_id_first() {
    let mut store = TaskStore::new();
    let a = Task::create(&mut store, "a", T1).unwrap();
    let b = Task::create(&mut store, "b", T1).unwrap();
    assert_eq!(ids(&Task::get_all(&store)), vec![b.id, a.id]);
}

#[test]
fn update_changes_title_only() {
    let mut store = TaskStore::new();
    let t = Task::create(&mut store, "old", T1).unwrap();
    Task::complete(&mut store, t.id).unwrap();
    let u = Task::update(&mut store, t.id, "new").unwrap().unwrap();
    assert_eq!(u.title, "new");
    assert!(u.completed);
    assert_eq!(u.created_at, T1);
}

#[test]
fn update_rejects_empty_title() {
    let mut store = TaskStore::new();
    let t = Task::create(&mut store, "old", T1).unwrap();
    assert_eq!(Task::update(&mut store, t.id, "").unwrap_err(), StoreError::InvalidInput);
    assert_eq!(Task::get_all(&store)[0].title, "old");
}

#[test]
fn update_missing_creates_nothing() {
    let mut store = TaskStore::new();
    assert!(Task::update(&mut store, 999, "x").unwrap().is_none());
    assert_eq!(store.len(), 0);
}

#[test]
fn stamps_compare_bytewise() {
    assert!(stamp_before(T1, T2));
    assert!(!stamp_before(T2, T1));
    assert!(!stamp_before(T1, T1));
    assert!(stamp_before("2024", "2024-01"));
    assert!(stamp_before("", "a"));
}

#[test]
fn row_count_signals_existence() {
    assert!(!row_existed(0));
    assert!(row_existed(1));
}

#[test]
fn title_check() {
    assert_eq!(check_title(""), Err(StoreError::InvalidInput));
    assert_eq!(check_title("a"), Ok(()));
}

#[test]
fn duplicate_copies_fields() {
    let t = Task { id: 3, title: "t".to_string(), completed: true, created_at: T1.to_string() };
    let d = t.duplicate();
    assert_eq!(d.id, 3);
    assert_eq!(d.title, "t");
    assert!(d.completed);
    assert_eq!(d.created_at, T1);
}

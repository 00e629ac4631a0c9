use task_tracker::handlers::{
    complete_task, create_task, delete_task, index, list_tasks, parse_id, toggle_task, update_task,
    AppError, Body,
};
use task_tracker::models::{StoreError, Task, TaskStore};

const NOW: &str = "2024-03-01 12:00:00";

fn body_task(body: &Body) -> &Task {
    match body {
        Body::Task(t) => t,
        other => panic!("expected a task, got {:?}", other),
    }
}

fn body_text(body: &Body) -> &str {
    match body {
        Body::Text(t) => t,
        other => panic!("expected text, got {:?}", other),
    }
}

#[test]
fn buy_milk_scenario() {
    let mut store = TaskStore::new();
    let created = create_task(Task::create(&mut store, "Buy milk", NOW)).unwrap();
    assert_eq!(created.status, 201);
    let t = body_task(&created.body);
    assert_eq!(t.id, 1);
    assert_eq!(t.title, "Buy milk");
    assert!(!t.completed);
    assert_eq!(t.created_at, NOW);

    let first = toggle_task(Task::toggle(&mut store, 1));
    assert_eq!(first.status, 200);
    assert_eq!(body_task(&first.body).id, 1);
    assert!(body_task(&first.body).completed);

    let second = toggle_task(Task::toggle(&mut store, 1));
    assert_eq!(second.status, 200);
    assert!(!body_task(&second.body).completed);

    let deleted = delete_task(Task::delete(&mut store, 1));
    assert_eq!(deleted.status, 204);
    assert!(matches!(deleted.body, Body::Empty));

    let gone = toggle_task(Task::toggle(&mut store, 1));
    assert_eq!(gone.status, 404);
}

#[test]
fn update_missing_id_is_404() {
    let mut store = TaskStore::new();
    let reply = update_task(Task::update(&mut store, 999, "x")).unwrap();
    assert_eq!(reply.status, 404);
    assert_eq!(body_text(&reply.body), "Task not found");
    assert_eq!(store.len(), 0);
}

#[test]
fn update_existing_is_200() {
    let mut store = TaskStore::new();
    Task::create(&mut store, "a", NOW).unwrap();
    let reply = update_task(Task::update(&mut store, 1, "b")).unwrap();
    assert_eq!(reply.status, 200);
    assert_eq!(body_task(&reply.body).title, "b");
}

#[test]
fn update_empty_title_is_400() {
    let mut store = TaskStore::new();
    Task::create(&mut store, "a", NOW).unwrap();
    let err = update_task(Task::update(&mut store, 1, "")).unwrap_err();
    assert_eq!(err.status(), 400);
}

#[test]
fn create_empty_title_is_400() {
    let mut store = TaskStore::new();
    let err = create_task(Task::create(&mut store, "", NOW)).unwrap_err();
    assert!(matches!(err, AppError::InvalidInput(_)));
    assert_eq!(err.status(), 400);
}

#[test]
fn create_unavailable_is_500() {
    let err = create_task(Err(StoreError::Unavailable)).unwrap_err();
    assert!(matches!(err, AppError::StoreUnavailable(_)));
    let reply = err.into_response();
    assert_eq!(reply.status, 500);
    assert_eq!(body_text(&reply.body), "storage unavailable");
}

#[test]
fn complete_reply_codes() {
    let mut store = TaskStore::new();
    Task::create(&mut store, "a", NOW).unwrap();
    let ok = complete_task(Task::complete(&mut store, 1));
    assert_eq!(ok.status, 200);
    assert!(body_task(&ok.body).completed);
    let missing = complete_task(Task::complete(&mut store, 2));
    assert_eq!(missing.status, 404);
}

#[test]
fn delete_missing_is_404() {
    let mut store = TaskStore::new();
    let reply = delete_task(Task::delete(&mut store, 7));
    assert_eq!(reply.status, 404);
    assert_eq!(body_text(&reply.body), "Task not found");
}

#[test]
fn list_and_index_carry_all_tasks() {
    let mut store = TaskStore::new();
    Task::create(&mut store, "a", "2024-01-01 00:00:00").unwrap();
    Task::create(&mut store, "b", "2024-01-02 00:00:00").unwrap();
    let reply = list_tasks(Task::get_all(&store));
    assert_eq!(reply.status, 200);
    match &reply.body {
        Body::Tasks(ts) => {
            assert_eq!(ts.len(), 2);
            assert_eq!(ts[0].title, "b");
        }
        other => panic!("expected tasks, got {:?}", other),
    }
    let page = index(Task::get_all(&store));
    assert_eq!(page.tasks.len(), 2);
}

#[test]
fn error_statuses_and_messages() {
    assert_eq!(AppError::InvalidInput("bad".to_string()).status(), 400);
    assert_eq!(AppError::NotFound.status(), 404);
    assert_eq!(AppError::StoreUnavailable("down".to_string()).status(), 500);
    let r = AppError::NotFound.into_response();
    assert_eq!(r.status, 404);
    assert_eq!(body_text(&r.body), "Task not found");
    let r = AppError::InvalidInput("bad".to_string()).into_response();
    assert_eq!(body_text(&r.body), "bad");
    assert_eq!(AppError::from_store(StoreError::InvalidInput).status(), 400);
    assert_eq!(AppError::from_store(StoreError::Unavailable).status(), 500);
}

#[test]
fn parse_id_accepts_integers() {
    assert_eq!(parse_id("42").unwrap(), 42);
    assert_eq!(parse_id("0").unwrap(), 0);
    assert_eq!(parse_id("-7").unwrap(), -7);
    assert_eq!(parse_id("+5").unwrap(), 5);
    assert_eq!(parse_id("007").unwrap(), 7);
    assert_eq!(parse_id("9223372036854775807").unwrap(), i64::MAX);
    assert_eq!(parse_id("-9223372036854775808").unwrap(), i64::MIN);
}

#[test]
fn parse_id_rejects_other_text() {
    for bad in ["", "-", "+", "abc", "12a", " 1", "1.5", "9223372036854775808", "-9223372036854775809", "99999999999999999999999"] {
        let err = parse_id(bad).unwrap_err();
        assert!(matches!(err, AppError::InvalidInput(_)), "{bad}");
        assert_eq!(err.status(), 400);
    }
}

use countdown_todo_core::model::TodoStatus;
use countdown_todo_core::repository::InMemoryStore;
use countdown_todo_core::service::AppService;

#[test]
fn calculates_timer_remaining_minutes() {
    let mut service = AppService::new(InMemoryStore::default());
    let timer = service
        .create_timer("vacation", 200, 100)
        .expect("timer should be created");

    assert_eq!(timer.remaining_minutes(160), 40);
    assert_eq!(timer.remaining_minutes(250), -50);
}

#[test]
fn creates_mark_chain_with_duration() {
    let mut service = AppService::new(InMemoryStore::default());
    let timer = service
        .create_timer("study", 300, 100)
        .expect("timer should be created");

    let first_mark = service
        .create_mark(&timer.id, 120, "wrote architecture", vec![])
        .expect("first mark should be created");
    assert_eq!(first_mark.prev_marked_at_minute, None);
    assert_eq!(first_mark.duration_minutes, None);

    let second_mark = service
        .create_mark(&timer.id, 170, "built service", vec![])
        .expect("second mark should be created");
    assert_eq!(second_mark.prev_marked_at_minute, Some(120));
    assert_eq!(second_mark.duration_minutes, Some(50));
}

#[test]
fn updates_todo_status_and_done_timestamp() {
    let mut service = AppService::new(InMemoryStore::default());
    let timer = service
        .create_timer("project", 500, 100)
        .expect("timer should be created");

    let todo = service
        .create_todo(&timer.id, "setup commands", 110)
        .expect("todo should be created");
    let done = service
        .set_todo_status(&todo.id, TodoStatus::Done, 120)
        .expect("todo should be completed");

    assert_eq!(done.status, TodoStatus::Done);
    assert_eq!(done.done_at_minute, Some(120));

    let reopened = service
        .set_todo_status(&todo.id, TodoStatus::Open, 130)
        .expect("todo should be reopened");
    assert_eq!(reopened.status, TodoStatus::Open);
    assert_eq!(reopened.done_at_minute, None);
}

#[test]
fn rejects_mark_when_timer_not_found() {
    let mut service = AppService::new(InMemoryStore::default());
    let error = service
        .create_mark("missing-timer", 100, "ignored", vec![])
        .expect_err("mark should fail");
    assert!(error.message().contains("missing-timer"));
}

#[test]
fn deletes_todo_and_removes_from_list() {
    let mut service = AppService::new(InMemoryStore::default());
    let timer = service
        .create_timer("project", 500, 100)
        .expect("timer should be created");

    let todo = service
        .create_todo(&timer.id, "cleanup", 110)
        .expect("todo should be created");

    let deleted = service
        .delete_todo(&todo.id)
        .expect("todo should be deleted");
    assert_eq!(deleted.id, todo.id);

    let todos = service
        .list_todos_by_timer(&timer.id)
        .expect("todos should list");
    assert!(todos.is_empty());
}

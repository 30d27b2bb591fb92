use countdown_todo_core::command::ArchiveTimerCommand;
use countdown_todo_core::command::CommandApi;
use countdown_todo_core::command::CreateMarkCommand;
use countdown_todo_core::command::CreateTimerCommand;
use countdown_todo_core::command::CreateTodoCommand;
use countdown_todo_core::repository::InMemoryStore;
use countdown_todo_core::service::AppService;

#[test]
fn tests_returns_success_envelope_for_timer_create() {
    let service = AppService::new(InMemoryStore::default());
    let mut command_api = CommandApi::new(service);

    let response = command_api.timer_create(CreateTimerCommand {
        name: "phase3".to_string(),
        target_at_minute: 300,
        now_minute: 100,
    });

    assert!(response.ok);
    assert!(response.error.is_none());
    assert_eq!(response.data.expect("data should exist").name, "phase3");
}

#[test]
fn tests_maps_not_found_for_mark_create() {
    let service = AppService::new(InMemoryStore::default());
    let mut command_api = CommandApi::new(service);

    let response = command_api.mark_create(CreateMarkCommand {
        timer_id: "missing".to_string(),
        marked_at_minute: 100,
        description: "orphan mark".to_string(),
        todo_ids: vec![],
    });

    assert!(!response.ok);
    let error = response.error.expect("error should exist");
    assert_eq!(error.code, "E_NOT_FOUND");
}

#[test]
fn tests_maps_validation_error_for_empty_timer_name() {
    let service = AppService::new(InMemoryStore::default());
    let mut command_api = CommandApi::new(service);

    let response = command_api.timer_create(CreateTimerCommand {
        name: "  ".to_string(),
        target_at_minute: 200,
        now_minute: 100,
    });

    assert!(!response.ok);
    let error = response.error.expect("error should exist");
    assert_eq!(error.code, "E_VALIDATION");
}

#[test]
fn tests_drives_todo_and_archive_flow() {
    let service = AppService::new(InMemoryStore::default());
    let mut command_api = CommandApi::new(service);

    let timer = command_api
        .timer_create(CreateTimerCommand {
            name: "flow".to_string(),
            target_at_minute: 500,
            now_minute: 100,
        })
        .data
        .expect("timer should exist");

    let todo_response = command_api.todo_create(CreateTodoCommand {
        timer_id: timer.id.clone(),
        title: "link todo".to_string(),
        now_minute: 110,
    });
    assert!(todo_response.ok);

    let archive_response = command_api.timer_archive(ArchiveTimerCommand {
        timer_id: timer.id,
        now_minute: 120,
    });
    assert!(archive_response.ok);
}

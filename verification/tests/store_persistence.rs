use countdown_todo_core::model::Timer;
use countdown_todo_core::repository::marks_header;
use countdown_todo_core::repository::timers_header;
use countdown_todo_core::repository::todos_header;
use countdown_todo_core::repository::CsvStore;
use countdown_todo_core::repository::Store;
use countdown_todo_core::service::AppService;

fn empty_store() -> CsvStore {
    CsvStore::from_contents(
        timers_header().as_str(),
        todos_header().as_str(),
        marks_header().as_str(),
    )
    .expect("csv store should be created")
}

fn reopen(store: &CsvStore) -> CsvStore {
    let timers_text = store.render_timers() + "\n";
    let todos_text = store.render_todos() + "\n";
    let marks_text = store.render_marks() + "\n";
    CsvStore::from_contents(
        timers_text.as_str(),
        todos_text.as_str(),
        marks_text.as_str(),
    )
    .expect("csv store should reopen")
}

#[test]
fn tests_writes_csv_headers_and_rows() {
    let store = empty_store();
    let mut service = AppService::new(store);

    let timer = service
        .create_timer("phase2", 300, 100)
        .expect("timer should be created");
    let todo = service
        .create_todo(&timer.id, "implement csv", 110)
        .expect("todo should be created");
    service
        .create_mark(&timer.id, 120, "wrote csv repo", vec![todo.id])
        .expect("mark should be created");

    let store = service.into_store();
    let timers_csv = store.render_timers();
    let marks_csv = store.render_marks();
    let todos_csv = store.render_todos();

    assert!(timers_csv.contains("id,name,target_at,created_at,updated_at,archived"));
    assert!(marks_csv
        .contains("id,timer_id,marked_at,prev_marked_at,duration_minutes,description,todo_ids"));
    assert!(todos_csv.contains("id,timer_id,title,status,created_at,updated_at,done_at"));

    assert!(timers_csv.contains("phase2"));
    assert!(marks_csv.contains("wrote csv repo"));
    assert!(todos_csv.contains("implement csv"));
}

#[test]
fn tests_reloads_data_after_store_reopen() {
    let store = empty_store();
    let mut service = AppService::new(store);
    let timer = service
        .create_timer("reloadable", 300, 100)
        .expect("timer should be created");
    service
        .create_mark(&timer.id, 140, "first pass", vec![])
        .expect("mark should be created");

    let reopened_store = reopen(&service.into_store());
    let reopened_service = AppService::new(reopened_store);
    let timers = reopened_service.list_timers(false);

    assert_eq!(timers.len(), 1);
    let marks = reopened_service
        .list_marks_by_timer(&timers[0].id)
        .expect("marks should load");
    assert_eq!(marks.len(), 1);
    assert_eq!(marks[0].description, "first pass");
}

#[test]
fn tests_reloads_multiline_mark_description_after_store_reopen() {
    let store = empty_store();
    let mut service = AppService::new(store);
    let timer = service
        .create_timer("reloadable", 300, 100)
        .expect("timer should be created");
    service
        .create_mark(&timer.id, 140, "- a\n- a\n- a", vec![])
        .expect("mark should be created");

    let reopened_store = reopen(&service.into_store());
    let reopened_service = AppService::new(reopened_store);
    let timers = reopened_service.list_timers(false);

    assert_eq!(timers.len(), 1);
    let marks = reopened_service
        .list_marks_by_timer(&timers[0].id)
        .expect("marks should load");
    assert_eq!(marks.len(), 1);
    assert_eq!(marks[0].description, "- a\n- a\n- a");
}

#[test]
fn tests_store_trait_compatibility() {
    let mut store = empty_store();
    let timer = Timer {
        id: "timer-1".to_string(),
        name: "compat".to_string(),
        target_at_minute: 200,
        created_at_minute: 100,
        updated_at_minute: 100,
        archived: false,
    };

    store.save_timer(timer).expect("save should succeed");
    assert!(store.get_timer("timer-1").is_some());
}

#[test]
fn tests_keeps_prev_marked_at_across_restart() {
    let timer_id = {
        let store = empty_store();
        let mut service = AppService::new(store);
        let timer = service
            .create_timer("continuity", 500, 100)
            .expect("timer should be created");
        service
            .create_mark(&timer.id, 200, "before restart", vec![])
            .expect("first mark should be created");
        let reopened = reopen(&service.into_store());
        let mut restarted = AppService::new(reopened);

        let second_mark = restarted
            .create_mark(&timer.id, 245, "after restart", vec![])
            .expect("second mark should be created");

        assert_eq!(second_mark.prev_marked_at_minute, Some(200));
        assert_eq!(second_mark.duration_minutes, Some(45));
        timer.id
    };
    assert_eq!(timer_id, "timer-1");
}

#[test]
fn renders_the_exact_scenario_rows() {
    let store = empty_store();
    let mut service = AppService::new(store);
    let timer = service
        .create_timer("phase2", 300, 100)
        .expect("timer should be created");
    let todo = service
        .create_todo(&timer.id, "implement csv", 110)
        .expect("todo should be created");
    service
        .create_mark(&timer.id, 120, "- a\n- a\n- a", vec![todo.id.clone()])
        .expect("mark should be created");

    let store = service.into_store();
    assert_eq!(
        store.render_timers(),
        "id,name,target_at,created_at,updated_at,archived\ntimer-1,phase2,300,100,100,false"
    );
    assert_eq!(
        store.render_todos(),
        "id,timer_id,title,status,created_at,updated_at,done_at\ntodo-2,timer-1,implement csv,open,110,110,"
    );
    assert_eq!(
        store.render_marks(),
        "id,timer_id,marked_at,prev_marked_at,duration_minutes,description,todo_ids\nmark-3,timer-1,120,,,\"- a\n- a\n- a\",todo-2"
    );

    let reopened = reopen(&store);
    let marks = reopened.list_marks_by_timer("timer-1");
    assert_eq!(marks.len(), 1);
    assert_eq!(marks[0].description, "- a\n- a\n- a");
    assert_eq!(marks[0].todo_ids, vec!["todo-2".to_string()]);
    assert_eq!(marks[0].prev_marked_at_minute, None);
}

#[test]
fn renders_identical_bytes_regardless_of_mutation_order() {
    let alpha = Timer {
        id: "timer-a".to_string(),
        name: "alpha".to_string(),
        target_at_minute: 500,
        created_at_minute: 100,
        updated_at_minute: 100,
        archived: false,
    };
    let beta = Timer {
        id: "timer-b".to_string(),
        name: "beta".to_string(),
        target_at_minute: 200,
        created_at_minute: 110,
        updated_at_minute: 110,
        archived: true,
    };

    let mut one = empty_store();
    one.save_timer(alpha.clone()).expect("save should succeed");
    one.save_timer(beta.clone()).expect("save should succeed");

    let mut two = empty_store();
    two.save_timer(beta).expect("save should succeed");
    two.save_timer(alpha).expect("save should succeed");

    assert_eq!(one.render_timers(), two.render_timers());
}

#[test]
fn tests_rejects_header_mismatch_on_load() {
    let error = CsvStore::from_contents(
        "id,label,target_at,created_at,updated_at,archived\n",
        todos_header().as_str(),
        marks_header().as_str(),
    )
    .expect_err("construction should fail");
    assert!(error.message().contains("csv header mismatch"));
}

#[test]
fn rejects_malformed_rows_on_load() {
    let bad_minute = format!("{}\nt-1,late,soon,100,100,false\n", timers_header());
    let error = CsvStore::from_contents(
        bad_minute.as_str(),
        todos_header().as_str(),
        marks_header().as_str(),
    )
    .expect_err("bad minute should fail");
    assert!(error.message().contains("target_at"));

    let bad_flag = format!("{}\nt-1,late,300,100,100,maybe\n", timers_header());
    let error = CsvStore::from_contents(
        bad_flag.as_str(),
        todos_header().as_str(),
        marks_header().as_str(),
    )
    .expect_err("bad flag should fail");
    assert!(error.message().contains("archived"));

    let short_row = format!("{}\nt-1,late,300\n", timers_header());
    let error = CsvStore::from_contents(
        short_row.as_str(),
        todos_header().as_str(),
        marks_header().as_str(),
    )
    .expect_err("short row should fail");
    assert!(error.message().contains("6 columns, got 3"));

    let bad_status = format!(
        "{}\ntodo-1,timer-1,task,paused,110,110,\n",
        todos_header()
    );
    let error = CsvStore::from_contents(
        timers_header().as_str(),
        bad_status.as_str(),
        marks_header().as_str(),
    )
    .expect_err("bad status should fail");
    assert!(error.message().contains("paused"));

    let unclosed = format!("{}\n\"t-1,late,300,100,100,false\n", timers_header());
    let error = CsvStore::from_contents(
        unclosed.as_str(),
        todos_header().as_str(),
        marks_header().as_str(),
    )
    .expect_err("unclosed quote should fail");
    assert_eq!(error.message(), "internal error: unclosed quote in csv line");
}

#[test]
fn filters_archived_timers_from_listing() {
    let store = empty_store();
    let mut service = AppService::new(store);
    let keep = service
        .create_timer("active", 300, 100)
        .expect("timer should be created");
    let gone = service
        .create_timer("finished", 200, 100)
        .expect("timer should be created");
    service
        .archive_timer(&gone.id, 150)
        .expect("timer should archive");

    let visible = service.list_timers(false);
    assert_eq!(visible.len(), 1);
    assert_eq!(visible[0].id, keep.id);

    let all = service.list_timers(true);
    assert_eq!(all.len(), 2);
    assert_eq!(all[0].id, gone.id);
    assert_eq!(all[1].id, keep.id);
}

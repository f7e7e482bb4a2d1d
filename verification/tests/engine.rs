use todols::args::{Args, SortBy, TodoError};
use todols::date::DueDate;
use todols::{TaskItem, TodoState};

fn blank_args() -> Args {
    Args {
        add: false,
        update: None,
        delete: None,
        sort: None,
        reverse: false,
        filter: false,
        name: None,
        datetime: None,
        taskstatus: None,
    }
}

fn due(day: u8, month: u8, year: u16, hour: u8, minute: u8, second: u8) -> DueDate {
    DueDate { year, month, day, hour, minute, second }
}

fn task(desc: &str, d: DueDate, st: TodoState) -> TaskItem {
    TaskItem::new(desc, d, st)
}

fn five_tasks() -> Vec<TaskItem> {
    vec![
        task("t1", due(1, 1, 2025, 0, 0, 0), TodoState::Todo),
        task("t2", due(2, 1, 2025, 0, 0, 0), TodoState::Todo),
        task("t3", due(3, 1, 2025, 0, 0, 0), TodoState::Todo),
        task("t4", due(4, 1, 2025, 0, 0, 0), TodoState::Todo),
        task("t5", due(5, 1, 2025, 0, 0, 0), TodoState::Todo),
    ]
}

fn descriptions(list: &Vec<TaskItem>) -> Vec<String> {
    list.iter().map(|t| t.task.clone()).collect()
}

#[test]
fn add_appends_records_in_order() {
    let mut args = blank_args();
    args.add = true;
    args.name = Some(vec![String::from("alpha"), String::from("beta")]);
    args.datetime = Some(vec![
        String::from("01-02-2024 10:00:00"),
        String::from("02-02-2024 11:30:00"),
    ]);
    args.taskstatus = Some(vec![TodoState::Completed]);
    let mut list: Vec<TaskItem> = Vec::new();
    let r = args.handle_input(&mut list);
    assert!(r.is_ok());
    assert_eq!(list.len(), 2);
    assert_eq!(list[0].task, "alpha");
    assert_eq!(list[0].due, due(1, 2, 2024, 10, 0, 0));
    assert_eq!(list[0].status, TodoState::Completed);
    assert_eq!(list[1].task, "beta");
    assert_eq!(list[1].due, due(2, 2, 2024, 11, 30, 0));
    assert_eq!(list[1].status, TodoState::Todo);
}

#[test]
fn add_missing_due_date_list_fails() {
    let mut args = blank_args();
    args.add = true;
    args.name = Some(vec![String::from("alpha")]);
    let mut list: Vec<TaskItem> = Vec::new();
    let r = args.handle_add(&mut list);
    assert_eq!(r, Err(TodoError::MissingFieldError));
    assert_eq!(list.len(), 0);
}

#[test]
fn add_short_due_date_list_fails() {
    let mut args = blank_args();
    args.add = true;
    args.name = Some(vec![String::from("alpha"), String::from("beta")]);
    args.datetime = Some(vec![String::from("01-02-2024 10:00:00")]);
    let mut list: Vec<TaskItem> = Vec::new();
    let r = args.handle_add(&mut list);
    assert_eq!(r, Err(TodoError::MissingFieldError));
    assert_eq!(list.len(), 0);
}

#[test]
fn add_bad_due_date_keeps_earlier_records() {
    let mut args = blank_args();
    args.add = true;
    args.name = Some(vec![String::from("alpha"), String::from("beta")]);
    args.datetime = Some(vec![
        String::from("01-02-2024 10:00:00"),
        String::from("31-02-2024 10:00:00"),
    ]);
    let mut list: Vec<TaskItem> = Vec::new();
    let r = args.handle_add(&mut list);
    assert_eq!(r, Err(TodoError::ParseError));
    assert_eq!(list.len(), 1);
    assert_eq!(list[0].task, "alpha");
}

#[test]
fn update_only_description_keeps_due_and_status() {
    let mut list = vec![
        task("old", due(7, 7, 2027, 7, 7, 7), TodoState::InProgress),
        task("other", due(8, 8, 2028, 8, 8, 8), TodoState::Todo),
    ];
    let before_id = list[0].id;
    let before_due = list[0].due;
    let before_status = list[0].status;
    let other_before = (list[1].id, list[1].task.clone(), list[1].due, list[1].status);
    let mut args = blank_args();
    args.update = Some(1);
    args.name = Some(vec![String::from("new words")]);
    let r = args.handle_update(&mut list);
    assert!(r.is_ok());
    assert_eq!(list[0].task, "new words");
    assert_eq!(list[0].id, before_id);
    assert_eq!(list[0].due, before_due);
    assert_eq!(list[0].status, before_status);
    assert_eq!(
        (list[1].id, list[1].task.clone(), list[1].due, list[1].status),
        other_before
    );
}

#[test]
fn update_position_zero_fails() {
    let mut list = five_tasks();
    let mut args = blank_args();
    args.update = Some(0);
    args.name = Some(vec![String::from("x")]);
    assert_eq!(args.handle_update(&mut list), Err(TodoError::IndexOutOfRange));
    assert_eq!(descriptions(&list), vec!["t1", "t2", "t3", "t4", "t5"]);
}

#[test]
fn update_position_past_end_fails() {
    let mut list = five_tasks();
    let mut args = blank_args();
    args.update = Some(6);
    args.name = Some(vec![String::from("x")]);
    assert_eq!(args.handle_update(&mut list), Err(TodoError::IndexOutOfRange));
    assert_eq!(descriptions(&list), vec!["t1", "t2", "t3", "t4", "t5"]);
}

#[test]
fn update_bad_due_date_fails_with_description_applied() {
    let mut list = five_tasks();
    let mut args = blank_args();
    args.update = Some(2);
    args.name = Some(vec![String::from("renamed")]);
    args.datetime = Some(vec![String::from("99-99-9999 99:99:99")]);
    args.taskstatus = Some(vec![TodoState::Completed]);
    assert_eq!(args.handle_update(&mut list), Err(TodoError::ParseError));
    assert_eq!(list[1].task, "renamed");
    assert_eq!(list[1].due, due(2, 1, 2025, 0, 0, 0));
    assert_eq!(list[1].status, TodoState::Todo);
}

#[test]
fn delete_three_and_one_keeps_relative_order() {
    let mut list = five_tasks();
    let mut args = blank_args();
    args.delete = Some(vec![3, 1]);
    let r = args.handle_delete(&mut list);
    assert!(r.is_ok());
    assert_eq!(descriptions(&list), vec!["t2", "t4", "t5"]);
}

#[test]
fn delete_duplicate_positions_remove_one_record() {
    // Repeated positions are deduplicated: [2,2] removes only the
    // record at position 2.
    let mut list = five_tasks();
    let mut args = blank_args();
    args.delete = Some(vec![2, 2]);
    let r = args.handle_delete(&mut list);
    assert!(r.is_ok());
    assert_eq!(descriptions(&list), vec!["t1", "t3", "t4", "t5"]);
}

#[test]
fn delete_out_of_range_position_fails_first() {
    // Positions run largest first, so 10 is reached before 1: the batch
    // fails there and nothing has been removed yet.
    let mut list = five_tasks();
    let mut args = blank_args();
    args.delete = Some(vec![1, 10]);
    assert_eq!(args.handle_delete(&mut list), Err(TodoError::IndexOutOfRange));
    assert_eq!(list.len(), 5);
}

#[test]
fn delete_partial_failure_keeps_earlier_removals() {
    // 4 is processed first and removed; 0 then fails, and the removal
    // of 4 stays applied.
    let mut list = five_tasks();
    let mut args = blank_args();
    args.delete = Some(vec![0, 4]);
    assert_eq!(args.handle_delete(&mut list), Err(TodoError::IndexOutOfRange));
    assert_eq!(descriptions(&list), vec!["t1", "t2", "t3", "t5"]);
}

#[test]
fn sort_by_description_is_natural() {
    let mut list = vec![
        task("task10", due(1, 1, 2025, 0, 0, 0), TodoState::Todo),
        task("task2", due(2, 1, 2025, 0, 0, 0), TodoState::Todo),
        task("task1", due(3, 1, 2025, 0, 0, 0), TodoState::Todo),
    ];
    let mut args = blank_args();
    args.sort = Some(SortBy::Task);
    assert!(args.handle_sort(&mut list).is_ok());
    assert_eq!(descriptions(&list), vec!["task1", "task2", "task10"]);
}

#[test]
fn sort_by_description_ignores_case() {
    let mut list = vec![
        task("Banana", due(1, 1, 2025, 0, 0, 0), TodoState::Todo),
        task("apple", due(2, 1, 2025, 0, 0, 0), TodoState::Todo),
    ];
    let mut args = blank_args();
    args.sort = Some(SortBy::Task);
    assert!(args.handle_sort(&mut list).is_ok());
    assert_eq!(descriptions(&list), vec!["apple", "Banana"]);
}

#[test]
fn sort_long_digit_runs_does_not_panic() {
    // Descriptions whose lowercased text carries a run of 20 or more
    // digits on both sides are ordered by plain character codes instead
    // of handing the pair to the natural comparison.
    let mut list = vec![
        task("99999999999999999999b", due(1, 1, 2025, 0, 0, 0), TodoState::Todo),
        task("99999999999999999999a", due(2, 1, 2025, 0, 0, 0), TodoState::Todo),
        task("task1", due(3, 1, 2025, 0, 0, 0), TodoState::Todo),
    ];
    let mut args = blank_args();
    args.sort = Some(SortBy::Task);
    assert!(args.handle_sort(&mut list).is_ok());
    assert_eq!(
        descriptions(&list),
        vec!["99999999999999999999a", "99999999999999999999b", "task1"]
    );
}

#[test]
fn sort_by_due_date_and_reverse() {
    let mut list = vec![
        task("late", due(5, 6, 2026, 0, 0, 0), TodoState::Todo),
        task("early", due(5, 6, 2024, 0, 0, 0), TodoState::Todo),
        task("mid", due(1, 1, 2025, 23, 59, 59), TodoState::Todo),
    ];
    let mut args = blank_args();
    args.sort = Some(SortBy::Duedate);
    assert!(args.handle_sort(&mut list).is_ok());
    assert_eq!(descriptions(&list), vec!["early", "mid", "late"]);
    args.reverse = true;
    assert!(args.handle_sort(&mut list).is_ok());
    assert_eq!(descriptions(&list), vec!["late", "mid", "early"]);
}

#[test]
fn sort_by_status_uses_state_order() {
    let mut list = vec![
        task("c", due(1, 1, 2025, 0, 0, 0), TodoState::Completed),
        task("t", due(2, 1, 2025, 0, 0, 0), TodoState::Todo),
        task("i", due(3, 1, 2025, 0, 0, 0), TodoState::InProgress),
    ];
    let mut args = blank_args();
    args.sort = Some(SortBy::Status);
    assert!(args.handle_sort(&mut list).is_ok());
    assert_eq!(descriptions(&list), vec!["t", "i", "c"]);
}

#[test]
fn sort_is_stable_for_equal_keys() {
    let mut list = vec![
        task("b-first", due(1, 1, 2025, 0, 0, 0), TodoState::Todo),
        task("a", due(1, 1, 2025, 0, 0, 0), TodoState::Todo),
        task("b-second", due(1, 1, 2025, 0, 0, 0), TodoState::Todo),
    ];
    let mut args = blank_args();
    args.sort = Some(SortBy::Duedate);
    assert!(args.handle_sort(&mut list).is_ok());
    assert_eq!(descriptions(&list), vec!["b-first", "a", "b-second"]);
}

#[test]
fn sort_without_key_fails() {
    let mut list = five_tasks();
    let args = blank_args();
    assert_eq!(args.handle_sort(&mut list), Err(TodoError::MissingSortKey));
}

#[test]
fn filter_status_reverse_keeps_positions() {
    let mut list = five_tasks();
    list.truncate(4);
    list[2].update_status(TodoState::Completed);
    let mut args = blank_args();
    args.filter = true;
    args.reverse = true;
    args.taskstatus = Some(vec![TodoState::Completed]);
    let pairs = args.handle_filter(&list).unwrap();
    let got: Vec<(usize, String)> = pairs.iter().map(|p| (p.0, p.1.task.clone())).collect();
    assert_eq!(
        got,
        vec![
            (1, String::from("t1")),
            (2, String::from("t2")),
            (4, String::from("t4"))
        ]
    );
}

#[test]
fn filter_description_pattern() {
    let list = vec![
        task("Apple pie", due(1, 1, 2025, 0, 0, 0), TodoState::Todo),
        task("banana", due(2, 1, 2025, 0, 0, 0), TodoState::Todo),
        task("Apricot", due(3, 1, 2025, 0, 0, 0), TodoState::Todo),
    ];
    let mut args = blank_args();
    args.filter = true;
    args.name = Some(vec![String::from("^Ap")]);
    let pairs = args.handle_filter(&list).unwrap();
    let got: Vec<usize> = pairs.iter().map(|p| p.0).collect();
    assert_eq!(got, vec![1, 3]);
}

#[test]
fn filter_invalid_pattern_fails_and_store_unchanged() {
    let list = five_tasks();
    let mut args = blank_args();
    args.filter = true;
    args.name = Some(vec![String::from("^A[")]);
    assert_eq!(args.handle_filter(&list).unwrap_err(), TodoError::PatternError);
    assert_eq!(descriptions(&list), vec!["t1", "t2", "t3", "t4", "t5"]);
}

#[test]
fn filter_due_date_pattern_matches_rendered_text() {
    let list = vec![
        task("christmas", due(25, 12, 2025, 9, 30, 0), TodoState::Todo),
        task("newyear", due(1, 1, 2026, 0, 0, 0), TodoState::Todo),
    ];
    let mut args = blank_args();
    args.filter = true;
    args.datetime = Some(vec![String::from("^25-12-2025")]);
    let pairs = args.handle_filter(&list).unwrap();
    assert_eq!(pairs.len(), 1);
    assert_eq!(pairs[0].0, 1);
    assert_eq!(pairs[0].1.task, "christmas");
}

#[test]
fn filter_without_criterion_fails() {
    let list = five_tasks();
    let mut args = blank_args();
    args.filter = true;
    assert_eq!(
        args.handle_filter(&list).unwrap_err(),
        TodoError::NoCriterionSpecified
    );
}

#[test]
fn input_applies_add_then_sort() {
    let mut args = blank_args();
    args.add = true;
    args.name = Some(vec![String::from("b"), String::from("a")]);
    args.datetime = Some(vec![
        String::from("01-01-2025 00:00:00"),
        String::from("02-01-2025 00:00:00"),
    ]);
    args.sort = Some(SortBy::Task);
    let mut list: Vec<TaskItem> = Vec::new();
    assert!(args.handle_input(&mut list).is_ok());
    assert_eq!(descriptions(&list), vec!["a", "b"]);
}

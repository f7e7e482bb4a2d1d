use todols::args::{min_index_val, string_to_datetime, Args, TodoError};
use todols::codec::{decode_store, encode_store};
use todols::date::DueDate;
use todols::{TaskItem, TodoState};

fn due(day: u8, month: u8, year: u16, hour: u8, minute: u8, second: u8) -> DueDate {
    DueDate { year, month, day, hour, minute, second }
}

#[test]
fn save_then_load_reproduces_the_store() {
    let list = vec![
        TaskItem::new("write the report", due(29, 2, 2024, 23, 59, 59), TodoState::InProgress),
        TaskItem::new("", due(1, 1, 2025, 0, 0, 0), TodoState::Todo),
        TaskItem::new("emoji \u{1F600} and unicode \u{00e9}", due(31, 12, 9999, 12, 0, 30), TodoState::Completed),
    ];
    let text = encode_store(&list);
    let back = decode_store(&text).unwrap();
    assert_eq!(back.len(), list.len());
    for i in 0..list.len() {
        assert_eq!(back[i].id, list[i].id);
        assert_eq!(back[i].task, list[i].task);
        assert_eq!(back[i].due, list[i].due);
        assert_eq!(back[i].status, list[i].status);
    }
}

#[test]
fn add_then_save_then_load_round_trips() {
    let args = Args {
        add: true,
        update: None,
        delete: None,
        sort: None,
        reverse: false,
        filter: false,
        name: Some(vec![String::from("alpha"), String::from("beta")]),
        datetime: Some(vec![
            String::from("01-02-2024 10:00:00"),
            String::from("02-02-2024 11:30:00"),
        ]),
        taskstatus: Some(vec![TodoState::Completed]),
    };
    let mut list: Vec<TaskItem> = Vec::new();
    assert!(args.handle_input(&mut list).is_ok());
    let back = decode_store(&encode_store(&list)).unwrap();
    assert_eq!(back.len(), 2);
    for i in 0..2 {
        assert_eq!(back[i].id, list[i].id);
        assert_eq!(back[i].task, list[i].task);
        assert_eq!(back[i].due, list[i].due);
        assert_eq!(back[i].status, list[i].status);
    }
}

#[test]
fn empty_store_encodes_as_a_zero_count() {
    let list: Vec<TaskItem> = Vec::new();
    let text = encode_store(&list);
    let expected: Vec<char> = "00000000000000000000".chars().collect();
    assert_eq!(text, expected);
    assert_eq!(decode_store(&text).unwrap().len(), 0);
}

#[test]
fn damaged_text_loads_as_nothing() {
    let garbage: Vec<char> = "this is not a saved store".chars().collect();
    assert!(decode_store(&garbage).is_none());
    let short: Vec<char> = "123".chars().collect();
    assert!(decode_store(&short).is_none());
    let wrong_count: Vec<char> = "00000000000000000005".chars().collect();
    assert!(decode_store(&wrong_count).is_none());
}

#[test]
fn datetime_parsing_accepts_exact_valid_timestamps() {
    let d = string_to_datetime("29-02-2024 12:30:45").unwrap();
    assert_eq!(d, due(29, 2, 2024, 12, 30, 45));
    let d2 = string_to_datetime("01-01-0000 00:00:00").unwrap();
    assert_eq!(d2, due(1, 1, 0, 0, 0, 0));
}

#[test]
fn datetime_parsing_rejects_bad_timestamps() {
    // not a leap year
    assert_eq!(string_to_datetime("29-02-2023 00:00:00"), Err(TodoError::ParseError));
    // April has 30 days
    assert_eq!(string_to_datetime("31-04-2024 10:00:00"), Err(TodoError::ParseError));
    // hour out of range
    assert_eq!(string_to_datetime("01-01-2024 24:00:00"), Err(TodoError::ParseError));
    // wrong shape
    assert_eq!(string_to_datetime("2024-01-01 10:00:00"), Err(TodoError::ParseError));
    assert_eq!(string_to_datetime("not a date"), Err(TodoError::ParseError));
    assert_eq!(string_to_datetime(""), Err(TodoError::ParseError));
    // day zero
    assert_eq!(string_to_datetime("00-01-2024 10:00:00"), Err(TodoError::ParseError));
}

#[test]
fn min_index_val_accepts_only_positive_positions() {
    assert_eq!(min_index_val(0), Err(TodoError::IndexOutOfRange));
    assert_eq!(min_index_val(1), Ok(1));
    assert_eq!(min_index_val(17), Ok(17));
}

#[test]
fn state_names() {
    assert_eq!(TodoState::Todo.to_str(), "todo");
    assert_eq!(TodoState::InProgress.to_str(), "in-progress");
    assert_eq!(TodoState::Completed.to_str(), "completed");
}

#[test]
fn setters_change_one_field_each() {
    let mut t = TaskItem::new("a", due(1, 1, 2025, 0, 0, 0), TodoState::Todo);
    let id = t.id;
    t.update_task("b");
    assert_eq!(t.task, "b");
    t.update_duedate(due(2, 3, 2026, 4, 5, 6));
    assert_eq!(t.due, due(2, 3, 2026, 4, 5, 6));
    t.update_status(TodoState::InProgress);
    assert_eq!(t.status, TodoState::InProgress);
    assert_eq!(t.id, id);
    assert_eq!(t.task, "b");
}

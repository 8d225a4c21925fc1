use tasktrack::csv_handler::{
    load_tasks_from, save_tasks_to, task_from_record, task_to_record, tasks_from_records,
    tasks_to_records, CsvError, CsvHandler,
};
use tasktrack::task::Task;

fn rec(fields: &[&str]) -> Vec<String> {
    fields.iter().map(|f| f.to_string()).collect()
}

fn full_task() -> Task {
    let mut t = Task::new("Pay rent".to_string());
    t.set_description("flat, June".to_string());
    t.set_due_date("2099-01-01".to_string()).unwrap();
    t.add_tag("money".to_string());
    t.add_tag("home".to_string());
    t.set_priority(8).unwrap();
    t
}

#[test]
fn handler_keeps_its_path() {
    let h = CsvHandler::new("tasks.csv".to_string());
    assert_eq!(h.file_path(), "tasks.csv");
}

#[test]
fn record_of_a_task() {
    let t = full_task();
    assert_eq!(
        task_to_record(&t),
        rec(&["Pay rent", "flat, June", "2099-01-01", "home,money", "8", "false"])
    );
    let mut g = Task::new("Groceries".to_string());
    g.mark_completed();
    assert_eq!(task_to_record(&g), rec(&["Groceries", "", "", "", "5", "true"]));
}

#[test]
fn task_of_a_record() {
    let (t, warnings) = task_from_record(&rec(&["a", "desc", "2024-02-29", " x , ,y,x", "3", "true"]));
    assert!(warnings.is_empty());
    assert_eq!(t.name(), "a");
    assert_eq!(t.description(), Some("desc"));
    assert_eq!(t.due_date_as_str(), Some("2024-02-29".to_string()));
    assert_eq!(t.tags_csv(), "x,y");
    assert_eq!(t.priority(), 3);
    assert!(t.completed());
}

#[test]
fn record_with_bad_fields_keeps_defaults() {
    let (t, warnings) = task_from_record(&rec(&["b", "", "2024-02-30", "", "11", "yes"]));
    assert_eq!(t.due_date(), None);
    assert_eq!(t.priority(), 5);
    assert!(!t.completed());
    assert_eq!(t.description(), None);
    assert_eq!(
        warnings,
        vec![
            "Error setting due date for task 'b': Invalid date format. Use YYYY-MM-DD.".to_string(),
            "Error setting priority for task 'b': Priority must be between 0 and 10.".to_string(),
        ]
    );
}

#[test]
fn record_with_unreadable_priority_warns() {
    let warning = "Error setting priority for task 'c': Priority must be between 0 and 10.".to_string();
    let (t, warnings) = task_from_record(&rec(&["c", "", "", "", "high", "false"]));
    assert_eq!(warnings, vec![warning.clone()]);
    assert_eq!(t.priority(), 5);
    let (v, w3) = task_from_record(&rec(&["c", "", "", "", "300", "false"]));
    assert_eq!(w3, vec![warning]);
    assert_eq!(v.priority(), 5);
    let (u, w2) = task_from_record(&rec(&["c", "", "", "", "+07", "false"]));
    assert!(w2.is_empty());
    assert_eq!(u.priority(), 7);
    let (e, w4) = task_from_record(&rec(&["c", "", "", "", "", "false"]));
    assert!(w4.is_empty());
    assert_eq!(e.priority(), 5);
}

#[test]
fn short_record_reads_missing_fields_as_empty() {
    let (t, warnings) = task_from_record(&rec(&["only a name"]));
    assert!(warnings.is_empty());
    assert_eq!(t.name(), "only a name");
    assert_eq!(t.priority(), 5);
    assert!(!t.completed());
    assert!(t.tags().is_empty());
}

#[test]
fn records_round_trip() {
    let a = full_task();
    let b = Task::new("Call mom".to_string());
    let rows = tasks_to_records(&vec![&a, &b]);
    let loaded = tasks_from_records(&rows);
    assert!(loaded.warnings.is_empty());
    assert_eq!(loaded.tasks.len(), 2);
    assert_eq!(task_to_record(&loaded.tasks[0]), task_to_record(&a));
    assert_eq!(task_to_record(&loaded.tasks[1]), task_to_record(&b));
}

#[test]
fn missing_file_gives_empty_store() {
    let loaded = load_tasks_from(None).unwrap();
    assert!(loaded.tasks.is_empty());
    assert!(loaded.warnings.is_empty());
}

#[test]
fn saved_bytes() {
    let mut g = Task::new("Groceries".to_string());
    g.add_tag("food".to_string());
    let bytes = save_tasks_to(&vec![&g, &full_task()]).unwrap();
    assert_eq!(save_tasks_to(&vec![]), Ok(Vec::new()));
    assert_eq!(
        String::from_utf8(bytes).unwrap(),
        "Groceries,,,food,5,false\nPay rent,\"flat, June\",2099-01-01,\"home,money\",8,false\n"
    );
}

#[test]
fn file_round_trip() {
    let a = full_task();
    let mut b = Task::new("Call \"mom\"".to_string());
    b.set_description("line one\nline two".to_string());
    b.mark_completed();
    let bytes = save_tasks_to(&vec![&a, &b]).unwrap();
    let loaded = load_tasks_from(Some(bytes.as_slice())).unwrap();
    assert!(loaded.warnings.is_empty());
    assert_eq!(loaded.tasks.len(), 2);
    assert_eq!(task_to_record(&loaded.tasks[0]), task_to_record(&a));
    assert_eq!(task_to_record(&loaded.tasks[1]), task_to_record(&b));
}

#[test]
fn file_first_line_is_a_task() {
    let loaded = load_tasks_from(Some(&b"Groceries,,,,5,false\n"[..])).unwrap();
    assert_eq!(loaded.tasks.len(), 1);
    assert_eq!(loaded.tasks[0].name(), "Groceries");
}

#[test]
fn malformed_file_is_an_error() {
    assert_eq!(load_tasks_from(Some(&b"a,b,c\nd\n"[..])).err(), Some(CsvError::Malformed));
    assert_eq!(load_tasks_from(Some(&[0xffu8, 0xfe, b',', b'\n'][..])).err(), Some(CsvError::Malformed));
}

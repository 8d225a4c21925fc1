use tasktrack::date::Date;
use tasktrack::task::Task;
use tasktrack::task_manager::TaskManager;

fn names(v: &[&Task]) -> Vec<String> {
    v.iter().map(|t| t.name().clone()).collect()
}

fn dated(name: &str, due: &str) -> Task {
    let mut t = Task::new(name.to_string());
    t.set_due_date(due.to_string()).unwrap();
    t
}

#[test]
fn new_store_is_empty() {
    let m = TaskManager::new();
    assert_eq!(m.task_count(), 0);
    assert!(m.get_all_tasks().is_empty());
    assert!(m.get_task("x").is_none());
}

#[test]
fn same_name_twice_keeps_the_later() {
    let mut m = TaskManager::new();
    let mut first = Task::new("Groceries".to_string());
    first.set_priority(1).unwrap();
    let mut second = Task::new("Groceries".to_string());
    second.set_priority(9).unwrap();
    m.add_task(Task::new("Other".to_string()));
    m.add_task(first);
    m.add_task(second);
    assert_eq!(m.task_count(), 2);
    assert_eq!(m.get_task("Groceries").unwrap().priority(), 9);
    assert_eq!(names(&m.get_all_tasks()), vec!["Other", "Groceries"]);
}

#[test]
fn added_task_has_defaults() {
    let mut m = TaskManager::new();
    m.add_task(Task::new("Groceries".to_string()));
    let t = m.get_task("Groceries").unwrap();
    assert_eq!(t.priority(), 5);
    assert!(!t.completed());
    assert!(t.tags().is_empty());
    assert_eq!(t.due_date(), None);
}

#[test]
fn dated_and_undated_views() {
    let mut m = TaskManager::new();
    m.add_task(dated("Pay rent", "2099-01-01"));
    m.add_task(Task::new("Call mom".to_string()));
    assert_eq!(names(&m.get_all_tasks_with_due_date()), vec!["Pay rent"]);
    assert_eq!(names(&m.get_all_tasks_without_due_date()), vec!["Call mom"]);
    assert_eq!(names(&m.get_all_pending_tasks_with_due_date()), vec!["Pay rent"]);
    assert_eq!(names(&m.get_all_pending_tasks_without_due_date()), vec!["Call mom"]);
}

#[test]
fn due_date_view_is_sorted_and_stable() {
    let mut m = TaskManager::new();
    m.add_task(dated("c", "2025-03-01"));
    m.add_task(Task::new("none1".to_string()));
    m.add_task(dated("a", "2024-12-31"));
    m.add_task(dated("d", "2025-03-01"));
    m.add_task(dated("b", "2025-02-28"));
    m.add_task(Task::new("none2".to_string()));
    m.add_task(dated("e", "2023-01-01"));
    assert_eq!(names(&m.get_all_tasks_with_due_date()), vec!["e", "a", "b", "c", "d"]);
    let v = m.get_all_tasks_with_due_date();
    for w in v.windows(2) {
        assert!(w[0].due_date().unwrap().is_on_or_before(&w[1].due_date().unwrap()));
    }
    assert_eq!(names(&m.get_all_tasks_without_due_date()), vec!["none1", "none2"]);
}

#[test]
fn pending_views_leave_out_completed() {
    let mut m = TaskManager::new();
    m.add_task(dated("a", "2025-01-02"));
    m.add_task(dated("b", "2025-01-01"));
    m.add_task(Task::new("c".to_string()));
    m.add_task(Task::new("d".to_string()));
    m.mark_task_completed("b");
    m.mark_task_completed("d");
    assert_eq!(names(&m.get_all_pending_tasks_with_due_date()), vec!["a"]);
    assert_eq!(names(&m.get_all_tasks_with_due_date()), vec!["b", "a"]);
    assert_eq!(names(&m.get_all_pending_tasks_without_due_date()), vec!["c"]);
    assert_eq!(m.pending_task_count(), 2);
}

#[test]
fn mark_completed_moves_task_to_completed_list() {
    let mut m = TaskManager::new();
    m.add_task(Task::new("Groceries".to_string()));
    m.add_task(Task::new("Laundry".to_string()));
    let t = m.mark_task_completed("Groceries").unwrap();
    assert!(t.completed());
    assert_eq!(names(&m.list_completed_tasks()), vec!["Groceries"]);
    assert_eq!(names(&m.list_pending_tasks()), vec!["Laundry"]);
    assert!(m.get_task("Groceries").unwrap().completed());
}

#[test]
fn mark_completed_of_missing_task() {
    let mut m = TaskManager::new();
    m.add_task(Task::new("a".to_string()));
    assert!(m.mark_task_completed("b").is_none());
    assert_eq!(m.pending_task_count(), 1);
}

#[test]
fn remove_and_clear() {
    let mut m = TaskManager::new();
    m.add_task(Task::new("a".to_string()));
    m.add_task(Task::new("b".to_string()));
    m.add_task(Task::new("c".to_string()));
    let removed = m.remove_task("b").unwrap();
    assert_eq!(removed.name(), "b");
    assert!(m.remove_task("b").is_none());
    assert_eq!(names(&m.list_tasks()), vec!["a", "c"]);
    assert_eq!(m.task_count(), 2);
    m.clear_tasks();
    assert_eq!(m.task_count(), 0);
    assert!(m.get_task("a").is_none());
}

#[test]
fn tasks_matching_tags_keeps_order() {
    let mut m = TaskManager::new();
    let mut a = Task::new("a".to_string());
    a.add_tag("work".to_string());
    let mut b = Task::new("b".to_string());
    b.add_tag("home".to_string());
    let mut c = Task::new("c".to_string());
    c.add_tag("home".to_string());
    c.add_tag("work".to_string());
    m.add_task(a);
    m.add_task(b);
    m.add_task(c);
    m.add_task(Task::new("d".to_string()));
    assert_eq!(names(&m.tasks_matching_tags(&vec!["work".to_string()])), vec!["a", "c"]);
    assert_eq!(names(&m.tasks_matching_tags(&vec!["home".to_string(), "x".to_string()])), vec!["b", "c"]);
    assert_eq!(names(&m.tasks_matching_tags(&vec![])), vec!["a", "b", "c", "d"]);
    assert!(m.tasks_matching_tags(&vec!["x".to_string()]).is_empty());
}

#[test]
fn pending_due_on_a_day() {
    let mut m = TaskManager::new();
    m.add_task(dated("a", "2025-06-01"));
    m.add_task(dated("b", "2025-06-02"));
    m.add_task(dated("c", "2025-06-01"));
    m.add_task(Task::new("d".to_string()));
    m.mark_task_completed("c");
    let day = Date::from_ymd(2025, 6, 1).unwrap();
    assert_eq!(names(&m.pending_due_on(day)), vec!["a"]);
    assert!(m.pending_due_on(Date::from_ymd(2025, 6, 3).unwrap()).is_empty());
}

#[test]
fn count_is_number_of_distinct_names() {
    let mut m = TaskManager::new();
    for n in ["a", "b", "a", "c", "b", "a"] {
        m.add_task(Task::new(n.to_string()));
    }
    assert_eq!(m.task_count(), 3);
    assert_eq!(m.get_all_tasks().len(), 3);
    assert_eq!(names(&m.get_all_tasks()), vec!["a", "b", "c"]);
}

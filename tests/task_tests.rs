use tasktrack::date::Date;
use tasktrack::task::{tag_list, Task};

fn date(y: u32, m: u32, d: u32) -> Date {
    Date::from_ymd(y, m, d).unwrap()
}

#[test]
fn new_task_has_defaults() {
    let t = Task::new("Groceries".to_string());
    assert_eq!(t.name(), "Groceries");
    assert_eq!(t.priority(), 5);
    assert!(!t.completed());
    assert!(t.tags().is_empty());
    assert_eq!(t.due_date(), None);
    assert_eq!(t.due_date_as_str(), None);
    assert_eq!(t.description(), None);
    assert_eq!(t.tags_csv(), "");
}

#[test]
fn set_due_date_accepts_calendar_dates() {
    let mut t = Task::new("Pay rent".to_string());
    assert_eq!(t.set_due_date("2099-01-01".to_string()), Ok(()));
    assert_eq!(t.due_date(), Some(date(2099, 1, 1)));
    assert_eq!(t.due_date_as_str(), Some("2099-01-01".to_string()));
}

#[test]
fn set_due_date_round_trips_text() {
    for text in ["2024-02-29", "2000-02-29", "0000-01-01", "9999-12-31", "1999-11-30", "2023-07-04"] {
        let mut t = Task::new("x".to_string());
        assert_eq!(t.set_due_date(text.to_string()), Ok(()));
        assert_eq!(t.due_date_as_str(), Some(text.to_string()));
    }
}

#[test]
fn set_due_date_accepts_past_dates() {
    let mut t = Task::new("old".to_string());
    assert_eq!(t.set_due_date("1970-01-01".to_string()), Ok(()));
    assert_eq!(t.due_date(), Some(date(1970, 1, 1)));
}

#[test]
fn set_due_date_rejects_other_text_and_keeps_date() {
    let mut t = Task::new("x".to_string());
    t.set_due_date("2030-05-06".to_string()).unwrap();
    for text in [
        "", "2024-1-5", "2024/01/05", "24-01-05", "2024-01-05 ", " 2024-01-05", "abcd-ef-gh",
        "2023-02-29", "1900-02-29", "2024-13-01", "2024-00-10", "2024-04-31", "2024-01-00",
        "+2024-01-05", "20240-01-05",
    ] {
        let r = t.set_due_date(text.to_string());
        assert_eq!(r, Err("Invalid date format. Use YYYY-MM-DD.".to_string()), "{text}");
        assert_eq!(t.due_date(), Some(date(2030, 5, 6)));
    }
}

#[test]
fn set_priority_range() {
    let mut t = Task::new("x".to_string());
    for p in 0u8..=10 {
        assert_eq!(t.set_priority(p), Ok(()));
        assert_eq!(t.priority(), p);
    }
    t.set_priority(7).unwrap();
    for p in [11u8, 12, 100, 255] {
        assert_eq!(t.set_priority(p), Err("Priority must be between 0 and 10.".to_string()));
        assert_eq!(t.priority(), 7);
    }
}

#[test]
fn tags_csv_is_sorted_whatever_the_order() {
    let mut t = Task::new("x".to_string());
    t.add_tag("b".to_string());
    t.add_tag("a".to_string());
    assert_eq!(t.tags_csv(), "a,b");
    let mut u = Task::new("y".to_string());
    u.add_tag("a".to_string());
    u.add_tag("b".to_string());
    assert_eq!(u.tags_csv(), t.tags_csv());
}

#[test]
fn tags_are_a_set() {
    let mut t = Task::new("x".to_string());
    t.add_tag("work".to_string());
    t.add_tag("home".to_string());
    t.add_tag("work".to_string());
    assert_eq!(t.tags().len(), 2);
    assert_eq!(t.tags_csv(), "home,work");
    t.remove_tag("work");
    assert_eq!(t.tags_csv(), "home");
    t.remove_tag("work");
    assert_eq!(t.tags_csv(), "home");
    t.add_tag("Home".to_string());
    assert_eq!(t.tags_csv(), "Home,home");
}

#[test]
fn tags_csv_orders_by_code_point_with_prefixes_first() {
    let mut t = Task::new("x".to_string());
    for tag in ["zeta", "ab", "a", "é", "abc", "B"] {
        t.add_tag(tag.to_string());
    }
    assert_eq!(t.tags_csv(), "B,a,ab,abc,zeta,é");
}

#[test]
fn description_and_completion() {
    let mut t = Task::new("x".to_string());
    t.set_description("buy milk".to_string());
    assert_eq!(t.description(), Some("buy milk"));
    t.set_description("buy eggs".to_string());
    assert_eq!(t.description(), Some("buy eggs"));
    t.mark_completed();
    assert!(t.completed());
    t.mark_completed();
    assert!(t.completed());
}

#[test]
fn priority_bar_is_ten_wide() {
    let mut t = Task::new("x".to_string());
    assert_eq!(t.priority_bar(), "[*****_____]");
    t.set_priority(0).unwrap();
    assert_eq!(t.priority_bar(), "[__________]");
    t.set_priority(10).unwrap();
    assert_eq!(t.priority_bar(), "[**********]");
    t.set_priority(3).unwrap();
    assert_eq!(t.priority_bar(), "[***_______]");
}

#[test]
fn tags_from_a_list() {
    let mut t = Task::new("x".to_string());
    t.add_tag("old".to_string());
    t.add_tags_from_list(" work , ,home,work,");
    assert_eq!(t.tags_csv(), "home,old,work");
    t.add_tags_from_list("");
    assert_eq!(t.tags_csv(), "home,old,work");
}

#[test]
fn tag_list_pieces() {
    assert_eq!(tag_list(" work , ,home,work,"), vec!["work", "home", "work"]);
    assert!(tag_list("").is_empty());
    assert!(tag_list(" , ").is_empty());
}

#[test]
fn tag_filter_is_any_of() {
    let mut t = Task::new("x".to_string());
    t.add_tag("work".to_string());
    t.add_tag("urgent".to_string());
    assert!(t.matches_tag_filter(&vec![]));
    assert!(t.matches_tag_filter(&vec!["home".to_string(), "urgent".to_string()]));
    assert!(!t.matches_tag_filter(&vec!["home".to_string()]));
    assert!(!t.matches_tag_filter(&vec!["Work".to_string()]));
    assert!(t.has_tag(&"work".to_string()));
    assert!(!t.has_tag(&"play".to_string()));
    let plain = Task::new("y".to_string());
    assert!(plain.matches_tag_filter(&vec![]));
    assert!(!plain.matches_tag_filter(&vec!["work".to_string()]));
}

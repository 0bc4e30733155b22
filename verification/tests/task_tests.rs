use web_crawler::task::Task;

#[test]
fn test_get_rul() {
    let task = Task::new("domain".to_string(), "a".to_string());
    assert_eq!(task.get_url(), String::from("domain/a"));
}

#[test]
fn test_get_url_empty_path() {
    let task = Task::new("domain".to_string(), "".to_string());
    assert_eq!(task.get_url(), String::from("domain/"));
}

#[test]
fn test_new_task_is_pending() {
    let task = Task::new("domain".to_string(), "a".to_string());
    assert_eq!(task.status, 0);
    assert_eq!(task.domain, "domain".to_string());
    assert_eq!(task.sub_domain, "a".to_string());
}

#[test]
fn test_key_matches() {
    let a = Task::new("domain".to_string(), "a".to_string());
    let mut b = Task::new("domain".to_string(), "a".to_string());
    b.status = 2;
    assert!(a.key_matches(&b));
    let c = Task::new("domain".to_string(), "b".to_string());
    assert!(!a.key_matches(&c));
    let d = Task::new("other".to_string(), "a".to_string());
    assert!(!a.key_matches(&d));
}

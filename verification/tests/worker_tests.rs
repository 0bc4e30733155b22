use web_crawler::task::Task;
use web_crawler::worker::Worker;
use web_crawler::worker::test_worker;

#[test]
fn test_regex_all() {
    let task = Task::new("monzo.com".to_string(), "".to_string());
    let worker = Worker::new(task, true);
    // After path
    assert_eq!(worker.is_link_regex("monzo.com/path\""), Some("path".to_string()));
    assert_eq!(worker.is_link_regex("monzo.com/path\"\n"), Some("path".to_string()));
    assert_eq!(worker.is_link_regex("monzo.com/path\">"), Some("path".to_string()));
    assert_eq!(worker.is_link_regex("monzo.com/path\">\n"), Some("path".to_string()));
    assert_eq!(worker.is_link_regex("monzo.com/path\'"), Some("path".to_string()));
    assert_eq!(worker.is_link_regex("monzo.com/path\'>"), Some("path".to_string()));
    assert_eq!(worker.is_link_regex("monzo.com/path\"aaa"), Some("path".to_string()));
    assert_eq!(worker.is_link_regex("monzo.com/path\">!!"), Some("path".to_string()));
    assert_eq!(worker.is_link_regex("monzo.com/path\","), Some("path".to_string()));
    // before path
    assert_eq!(worker.is_link_regex("monzo.com//path\""), Some("/path".to_string()));
    assert_eq!(worker.is_link_regex("www.monzo.com/path\""), Some("path".to_string()));
    assert_eq!(worker.is_link_regex("http://www.monzo.com/path\""), Some("path".to_string()));
    assert_eq!(worker.is_link_regex("https://www.monzo.com/path\""), Some("path".to_string()));
    assert_eq!(worker.is_link_regex("http://monzo.com/path\""), Some("path".to_string()));
    assert_eq!(worker.is_link_regex("https://monzo.com/path\""), Some("path".to_string()));
    assert_eq!(worker.is_link_regex("link=monzo.com/path\""), Some("path".to_string()));
    assert_eq!(worker.is_link_regex("2134https://monzo.com/path\""), Some("path".to_string()));
    assert_eq!(worker.is_link_regex("ww.https://www.monzo.com/path\""), Some("path".to_string()));

    // failures
    assert_eq!(worker.is_link_regex("monzo.cm/path\""), None);
    assert_eq!(worker.is_link_regex("monzo.cm/path\""), None);
    assert_eq!(worker.is_link_regex("monzo.cpm//path\""), None);
}

#[test]
fn test_regex_literal_cases() {
    let task = Task::new("domain.com".to_string(), "".to_string());
    let worker = Worker::new(task, true);
    assert_eq!(worker.is_link_regex("domain.com/path"), Some("path".to_string()));
    assert_eq!(worker.is_link_regex("domain.com//path"), Some("/path".to_string()));
    assert_eq!(worker.is_link_regex("www.domain.com/path"), Some("path".to_string()));
    assert_eq!(worker.is_link_regex("https://www.domain.com/path"), Some("path".to_string()));
    assert_eq!(worker.is_link_regex("domain.cm/path"), None);
}

#[test]
fn test_regex_no_path_segment() {
    let task = Task::new("domain.com".to_string(), "".to_string());
    let worker = Worker::new(task, true);
    // A bare domain reference with no `/` yields no extraction, while an
    // explicit `/` with nothing after it yields the empty path.
    assert_eq!(worker.is_link_regex("domain.com"), None);
    assert_eq!(worker.is_link_regex("domain.com\""), None);
    assert_eq!(worker.is_link_regex("domain.com/"), Some("".to_string()));
    assert_eq!(worker.is_link_regex("domain.com/\""), Some("".to_string()));
}

#[test]
fn test_search_for_links_finds_each_token() {
    let task = Task::new("monzo.com".to_string(), "".to_string());
    let worker = Worker::new(task, true);
    let html = "<a href=\"monzo.com/first\"> text\nmonzo.com/second\" nothing.com/x\" bare".to_string();
    let found = worker.search_for_links(html);
    assert_eq!(found.len(), 2);
    assert_eq!(found[0].sub_domain, "first".to_string());
    assert_eq!(found[1].sub_domain, "second".to_string());
    assert_eq!(found[0].domain, "monzo.com".to_string());
    assert_eq!(found[0].status, 0);
    assert_eq!(found[1].status, 0);
}

#[test]
fn test_search_for_links_none() {
    let task = Task::new("monzo.com".to_string(), "".to_string());
    let worker = Worker::new(task, true);
    let found = worker.search_for_links("no links here at all".to_string());
    assert_eq!(found.len(), 0);
}

#[test]
fn test_worker_strategy_odd_path_spawns() {
    // "a" has one character: 1 + 1 is even, so one discovery of length 2.
    let discovered = test_worker(&Task::new("domain".to_string(), "a".to_string()));
    assert_eq!(discovered.len(), 1);
    assert_eq!(discovered[0].sub_domain, "aa".to_string());
    assert_eq!(discovered[0].domain, "domain".to_string());
    assert_eq!(discovered[0].status, 0);
    // "abc" spawns its first character repeated four times.
    let discovered = test_worker(&Task::new("domain".to_string(), "abc".to_string()));
    assert_eq!(discovered.len(), 1);
    assert_eq!(discovered[0].sub_domain, "aaaa".to_string());
}

#[test]
fn test_worker_strategy_even_path_spawns_nothing() {
    let discovered = test_worker(&Task::new("domain".to_string(), "aa".to_string()));
    assert_eq!(discovered.len(), 0);
    let discovered = test_worker(&Task::new("domain".to_string(), "".to_string()));
    assert_eq!(discovered.len(), 0);
}

#[test]
fn test_run_task_reports_own_task() {
    let worker = Worker::new(Task::new("domain".to_string(), "ccc".to_string()), true);
    let (done, discovered) = worker.run_task();
    assert_eq!(done.sub_domain, "ccc".to_string());
    assert_eq!(discovered.len(), 1);
    assert_eq!(discovered[0].sub_domain, "cccc".to_string());
}

use web_crawler::scheduler::Scheduler;
use web_crawler::task::Task;

#[test]
fn test_dup_tasks() {
    // "a" will return a test "aa" which should be ignored because it is already in the list
    let tasks = vec![
        Task::new("domain".to_string(), "a".to_string()),
        Task::new("domain".to_string(), "aa".to_string()),
    ];
    let mut scheduler = Scheduler::new(tasks, 50, true);
    scheduler.run_tasks();

    // Expect the seed tasks to be returned only
    assert_eq!(scheduler.tasks.len(), 2);
    // Expect all tasks to be marked complete
    assert!(scheduler.tasks.iter().find(|task| task.status != 2).is_none());
}

#[test]
fn test_no_dups() {
    // Since "a" and "ccc" have odd number of characters we expect "aa" and "cccc" to be completed
    // along with all other tasks
    let tasks = vec![
        Task::new("domain".to_string(), "a".to_string()),
        Task::new("domain".to_string(), "bb".to_string()),
        Task::new("domain".to_string(), "ccc".to_string()),
        Task::new("domain".to_string(), "dddd".to_string()),
    ];

    let mut scheduler = Scheduler::new(tasks, 50, true);
    scheduler.run_tasks();

    // Expect 6 tasks to be returned
    assert_eq!(scheduler.tasks.len(), 6);
    // Expect all tasks to be marked complete
    assert!(scheduler.tasks.iter().find(|task| task.status != 2).is_none());

    // All odd number of chars so expect double the number of tasks back
    let tasks = vec![
        Task::new("domain".to_string(), "a".to_string()),
        Task::new("domain".to_string(), "b".to_string()),
        Task::new("domain".to_string(), "c".to_string()),
        Task::new("domain".to_string(), "d".to_string()),
    ];
    let mut scheduler = Scheduler::new(tasks, 50, true);
    scheduler.run_tasks();
    assert_eq!(scheduler.tasks.len(), 8);
    assert!(scheduler.tasks.iter().find(|task| task.status != 2).is_none());

    // All even number of chars so expect same number of tasks back
    let tasks = vec![
        Task::new("domain".to_string(), "aa".to_string()),
        Task::new("domain".to_string(), "bb".to_string()),
        Task::new("domain".to_string(), "cc".to_string()),
        Task::new("domain".to_string(), "dd".to_string()),
    ];
    let mut scheduler = Scheduler::new(tasks, 50, true);
    scheduler.run_tasks();
    assert_eq!(scheduler.tasks.len(), 4);
    assert!(scheduler.tasks.iter().find(|task| task.status != 2).is_none());
}

#[test]
fn test_empty_task() {
    let tasks = vec![Task::new("domain".to_string(), "".to_string())];
    let mut scheduler = Scheduler::new(tasks, 50, true);
    scheduler.run_tasks();
    assert_eq!(scheduler.tasks.len(), 1);
    assert!(scheduler.tasks.iter().find(|task| task.status != 2).is_none());
}

#[test]
fn test_no_loop_delay() {
    let tasks = vec![
        Task::new("domain".to_string(), "aa".to_string()),
        Task::new("domain".to_string(), "bb".to_string()),
        Task::new("domain".to_string(), "cc".to_string()),
        Task::new("domain".to_string(), "dd".to_string()),
    ];
    let mut scheduler = Scheduler::new(tasks, 0, true);
    scheduler.run_tasks();
    assert_eq!(scheduler.tasks.len(), 4);
    assert!(scheduler.tasks.iter().find(|task| task.status != 2).is_none());
}

#[test]
fn test_merge_marks_done_and_drops_duplicate() {
    // Re-merging a candidate whose key is already tracked changes neither
    // the list's size nor any status beyond the completed task's own.
    let tasks = vec![
        Task::new("domain".to_string(), "a".to_string()),
        Task::new("domain".to_string(), "b".to_string()),
    ];
    let mut scheduler = Scheduler::new(tasks, 50, true);
    let completed = Task::new("domain".to_string(), "a".to_string());
    let duplicate = Task::new("domain".to_string(), "b".to_string());
    scheduler.handle_received_data((completed, vec![duplicate]));
    assert_eq!(scheduler.tasks.len(), 2);
    assert_eq!(scheduler.tasks[0].status, 2);
    assert_eq!(scheduler.tasks[1].status, 0);
}

#[test]
fn test_merge_appends_new_candidate_as_pending() {
    let tasks = vec![Task::new("domain".to_string(), "a".to_string())];
    let mut scheduler = Scheduler::new(tasks, 50, true);
    let completed = Task::new("domain".to_string(), "a".to_string());
    let fresh = Task::new("domain".to_string(), "aa".to_string());
    scheduler.handle_received_data((completed, vec![fresh]));
    assert_eq!(scheduler.tasks.len(), 2);
    assert_eq!(scheduler.tasks[1].sub_domain, "aa".to_string());
    assert_eq!(scheduler.tasks[1].status, 0);
}

#[test]
fn test_merge_unknown_key_is_noop() {
    let tasks = vec![Task::new("domain".to_string(), "a".to_string())];
    let mut scheduler = Scheduler::new(tasks, 50, true);
    let stranger = Task::new("domain".to_string(), "zz".to_string());
    scheduler.handle_received_data((stranger, vec![]));
    assert_eq!(scheduler.tasks.len(), 1);
    assert_eq!(scheduler.tasks[0].status, 0);
}

#[test]
fn test_dispatch_marks_in_flight_once() {
    let tasks = vec![
        Task::new("domain".to_string(), "a".to_string()),
        Task::new("domain".to_string(), "b".to_string()),
    ];
    let mut scheduler = Scheduler::new(tasks, 50, true);
    let dispatched = scheduler.start_new_tasks();
    assert_eq!(dispatched.len(), 2);
    assert_eq!(dispatched[0].sub_domain, "a".to_string());
    assert!(scheduler.tasks.iter().all(|task| task.status == 1));
    // A second dispatch finds nothing pending and hands out nothing.
    let again = scheduler.start_new_tasks();
    assert_eq!(again.len(), 0);
    assert!(scheduler.tasks.iter().all(|task| task.status == 1));
}

#[test]
fn test_pending_and_done_queries() {
    let tasks = vec![Task::new("domain".to_string(), "a".to_string())];
    let mut scheduler = Scheduler::new(tasks, 50, true);
    assert!(scheduler.any_pending());
    assert!(!scheduler.all_done());
    scheduler.run_tasks();
    assert!(!scheduler.any_pending());
    assert!(scheduler.all_done());
    let collected = scheduler.get_tasks();
    assert_eq!(collected.len(), 2);
}

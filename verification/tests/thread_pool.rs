use rcat::thread_pool::{PopOutcome, WorkQueue};

fn task(outcome: PopOutcome) -> String {
    match outcome {
        PopOutcome::Task(path) => path,
        PopOutcome::Wait => panic!("told to wait"),
        PopOutcome::Done => panic!("told to stop"),
    }
}

#[test]
fn empty_queue_shuts_down_on_first_request() {
    let mut queue = WorkQueue::new();
    assert!(!queue.is_shutdown());
    assert!(matches!(queue.pop(), PopOutcome::Done));
    assert!(queue.is_shutdown());
}

#[test]
fn tasks_come_out_first_in_first_out() {
    let mut queue = WorkQueue::new();
    queue.push_initial("root".to_string());
    assert_eq!(task(queue.pop()), "root");
    queue.extend(vec!["a".to_string(), "b".to_string(), "c".to_string()]);
    queue.complete_task();
    assert_eq!(task(queue.pop()), "a");
    assert_eq!(task(queue.pop()), "b");
    assert_eq!(task(queue.pop()), "c");
    assert!(matches!(queue.pop(), PopOutcome::Wait));
    assert!(!queue.is_shutdown());
}

#[test]
fn worker_waits_while_tasks_are_under_way() {
    let mut queue = WorkQueue::new();
    queue.push_initial("root".to_string());
    assert_eq!(task(queue.pop()), "root");
    assert!(matches!(queue.pop(), PopOutcome::Wait));
    assert!(matches!(queue.pop(), PopOutcome::Wait));
    queue.complete_task();
    assert!(matches!(queue.pop(), PopOutcome::Done));
    assert!(queue.is_shutdown());
}

#[test]
fn shut_down_queue_takes_and_gives_nothing() {
    let mut queue = WorkQueue::new();
    queue.push_initial("root".to_string());
    queue.shutdown();
    assert!(queue.is_shutdown());
    assert!(matches!(queue.pop(), PopOutcome::Done));
    queue.extend(vec!["late".to_string()]);
    queue.complete_task();
    assert!(matches!(queue.pop(), PopOutcome::Done));
    assert!(queue.is_shutdown());
}

#[test]
fn completing_more_than_was_queued_stops_at_zero() {
    let mut queue = WorkQueue::new();
    queue.complete_task();
    queue.complete_task();
    queue.extend(Vec::new());
    assert!(matches!(queue.pop(), PopOutcome::Done));
}

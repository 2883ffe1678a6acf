use contentdiff::worker_count;
use contentdiff::Next;
use contentdiff::PathLocation;
use contentdiff::TaskQueue;
use contentdiff::Work;
use std::path::PathBuf;

fn dir(path: &str) -> Work {
    Work::Directory {
        path: PathLocation::new_left(PathBuf::from(path)),
    }
}

fn file(path: &str) -> Work {
    Work::File {
        path: PathLocation::new_right(PathBuf::from(path)),
    }
}

fn path_of(work: &Work) -> PathBuf {
    match work {
        Work::Directory { path } => path.path().clone(),
        Work::File { path } => path.path().clone(),
    }
}

#[test]
fn new_queue_waits_for_the_seeder() {
    let mut queue = TaskQueue::new();
    assert_eq!(queue.held_count(), 1);
    assert_eq!(queue.pending_len(), 0);
    assert!(!queue.is_closed());
    assert!(matches!(queue.next(), Next::Wait));
}

#[test]
fn queue_without_seeds_closes_when_the_seeder_lets_go() {
    let mut queue = TaskQueue::new();
    queue.release();
    assert!(queue.is_closed());
    assert!(matches!(queue.next(), Next::Closed));
    assert!(matches!(queue.next(), Next::Closed));
}

#[test]
fn tasks_come_out_in_the_order_they_went_in() {
    let mut queue = TaskQueue::new();
    queue.submit(file("one"));
    queue.submit(dir("two"));
    queue.submit(file("three"));
    assert_eq!(queue.pending_len(), 3);
    let mut seen = Vec::new();
    for _ in 0..3 {
        match queue.next() {
            Next::Task(work) => seen.push(path_of(&work)),
            other => panic!("expected a task, got {:?}", other),
        }
    }
    assert_eq!(
        seen,
        vec![
            PathBuf::from("one"),
            PathBuf::from("two"),
            PathBuf::from("three")
        ]
    );
}

#[test]
fn a_pending_file_keeps_the_queue_open_without_capabilities() {
    let mut queue = TaskQueue::new();
    queue.submit(file("only"));
    queue.release();
    assert_eq!(queue.held_count(), 0);
    assert!(!queue.is_closed());
    assert!(matches!(queue.next(), Next::Task(Work::File { .. })));
    assert_eq!(queue.held_count(), 0);
    assert!(queue.is_closed());
    assert!(matches!(queue.next(), Next::Closed));
}

#[test]
fn a_directory_in_progress_keeps_the_queue_open() {
    let mut queue = TaskQueue::new();
    queue.submit(dir("d"));
    queue.release();
    // The capability travels with the pending directory task.
    assert_eq!(queue.held_count(), 0);
    assert!(!queue.is_closed());
    assert!(matches!(queue.next(), Next::Task(Work::Directory { .. })));
    // Now the worker holds it: nothing is pending, but more may arrive.
    assert_eq!(queue.held_count(), 1);
    assert_eq!(queue.pending_len(), 0);
    assert!(!queue.is_closed());
    assert!(matches!(queue.next(), Next::Wait));
    queue.submit(file("d/f"));
    queue.release();
    assert!(!queue.is_closed());
    assert!(matches!(queue.next(), Next::Task(Work::File { .. })));
    assert!(queue.is_closed());
}

#[test]
fn two_directories_in_progress_hold_two_capabilities() {
    let mut queue = TaskQueue::new();
    queue.submit(dir("a"));
    queue.submit(dir("b"));
    queue.release();
    assert!(matches!(queue.next(), Next::Task(_)));
    assert!(matches!(queue.next(), Next::Task(_)));
    assert_eq!(queue.held_count(), 2);
    queue.release();
    assert_eq!(queue.held_count(), 1);
    assert!(!queue.is_closed());
    assert!(matches!(queue.next(), Next::Wait));
    queue.release();
    assert!(queue.is_closed());
}

#[test]
fn the_pool_has_two_workers_where_parallelism_is_unknown() {
    assert_eq!(worker_count(None), 2);
    assert_eq!(worker_count(Some(0)), 2);
    assert_eq!(worker_count(Some(1)), 1);
    assert_eq!(worker_count(Some(16)), 16);
}

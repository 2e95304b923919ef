use lib::dirsizereq::{queue_dirsizes, report_done, seed_answered, start_next, DirSize, State};
use lib::dirsizeworker::{answered_unwalked, Worker};
use std::collections::HashMap;

fn state() -> State {
    State {
        listing: vec![("a".to_string(), true), ("b".to_string(), true), ("file".to_string(), false)],
        base: "/listing".to_string(),
        dirsizes: HashMap::new(),
        dirsize_queue: Vec::new(),
        dirsize_worker: Worker::new(),
    }
}

fn rows(list: &[(usize, &str)]) -> Vec<(usize, String)> {
    list.iter().map(|(row, path)| (*row, path.to_string())).collect()
}

#[test]
fn a_floor_is_not_seeded_so_the_worker_still_walks_that_folder() {
    let mut st = state();
    let sized = vec![
        Some(DirSize { bytes: 40, partial: false }),
        Some(DirSize { bytes: 9, partial: true }),
        None,
    ];
    seed_answered(&mut st, &sized);
    assert_eq!(st.dirsizes.get(&0), Some(&(40, false)), "a completed walk answers from the cache");
    assert_eq!(st.dirsizes.get(&1), None, "a floor seeds nothing, so the worker walks that row");
    assert_eq!(st.dirsizes.get(&2), None, "a file row seeds nothing");
    assert_eq!(st.dirsizes.len(), 1);
}

#[test]
fn start_next_drains_unique_current_directories_into_one_batch() {
    let mut st = state();
    st.dirsize_queue.extend([0, 0, 1, 2]);
    let job = start_next(&mut st).expect("a batch");
    assert!(st.dirsize_queue.is_empty());
    assert!(st.dirsize_worker.busy());
    let walked: Vec<(usize, &str)> = job.rows.iter().map(|(row, path)| (*row, path.as_str())).collect();
    assert_eq!(walked, vec![(0, "/listing/a"), (1, "/listing/b")]);
    for (index, row) in [0, 1].into_iter().enumerate() {
        assert!(report_done(&mut st, job.generation, row, DirSize { bytes: 7, partial: false }));
        assert_eq!(st.dirsize_worker.busy(), index == 0);
    }
    assert_eq!(st.dirsizes.len(), 2);
}

#[test]
fn cancelled_running_job_cannot_publish_to_reused_row() {
    let mut worker = Worker::new();
    let first = worker.start(rows(&[(0, "")])).unwrap();
    worker.cancel();
    assert!(worker.busy());
    assert!(!worker.contains(0));
    assert!(!worker.accept(first.generation, 0));
    assert!(!worker.busy());
    let second = worker.start(rows(&[(0, "")])).unwrap();
    assert!(!worker.accept(first.generation, 0));
    assert!(worker.busy());
    assert!(worker.accept(second.generation, 0));
    assert!(!worker.busy());
}

#[test]
fn a_completed_row_does_not_release_later_rows_in_same_batch() {
    let mut worker = Worker::new();
    let job = worker.start(rows(&[(0, "first"), (1, "second")])).unwrap();
    assert!(worker.accept(job.generation, 0));
    assert!(worker.busy());
    assert!(worker.accept(job.generation, 1));
    assert!(!worker.busy());
}

#[test]
fn cancellation_skips_queued_paths_and_fresh_batch_progresses() {
    let mut worker = Worker::new();
    let job = worker.start(rows(&[(0, "running"), (1, "skipped")])).unwrap();
    worker.cancel();
    assert_eq!(answered_unwalked(worker.generation(), job.generation), Some(DirSize { bytes: 0, partial: true }));
    for row in [0, 1] {
        assert!(!worker.accept(job.generation, row));
    }
    assert!(!worker.busy());
    let fresh = worker.start(rows(&[(2, "fresh")])).unwrap();
    assert!(worker.accept(fresh.generation, 2));
    assert!(!worker.busy());
}

#[test]
fn duplicate_done_cannot_release_or_reuse_a_batch_slot() {
    let mut worker = Worker::new();
    let old = worker.start(rows(&[(0, "old")])).unwrap();
    assert!(worker.accept(old.generation, 0));
    let new = worker.start(rows(&[(0, "new")])).unwrap();
    assert!(!worker.accept(old.generation, 0));
    assert!(worker.busy());
    assert!(worker.accept(new.generation, 0));
    assert!(!worker.busy());
}

#[test]
fn duplicate_rows_are_walked_once_and_all_unique_rows_release_batch() {
    let mut worker = Worker::new();
    let job = worker
        .start(rows(&[(0, "first"), (0, "duplicate"), (1, "second"), (1, "duplicate")]))
        .unwrap();
    let walked: Vec<(usize, &str)> = job.rows.iter().map(|(row, path)| (*row, path.as_str())).collect();
    assert_eq!(walked, vec![(0, "first"), (1, "second")]);
    for (row, _) in &job.rows {
        assert!(worker.accept(job.generation, *row));
    }
    assert!(!worker.busy());
}

#[test]
fn an_empty_batch_starts_nothing_and_spends_no_numbering() {
    let mut worker = Worker::new();
    assert!(worker.start(Vec::new()).is_none());
    assert!(!worker.busy());
    let job = worker.start(rows(&[(3, "x")])).unwrap();
    assert_eq!(job.generation, 1);
}

#[test]
fn a_known_size_is_answered_at_once_and_a_waiting_row_is_not_queued_twice() {
    let mut st = state();
    st.dirsizes.insert(1, (123, true));
    let answered = queue_dirsizes(&mut st, &[0, 1, 2, 0, 9]);
    assert_eq!(answered, vec![(1, 123, true)]);
    assert_eq!(st.dirsize_queue, vec![0], "a file row, an unknown row and a repeat are not queued");
    let job = start_next(&mut st).unwrap();
    assert!(start_next(&mut st).is_none(), "one batch at a time");
    assert!(queue_dirsizes(&mut st, &[0]).is_empty());
    assert!(st.dirsize_queue.is_empty(), "a row being walked is not queued again");
    st.dirsize_worker.cancel();
    assert!(!report_done(&mut st, job.generation, 0, DirSize { bytes: 5, partial: true }));
    assert!(st.dirsizes.get(&0).is_none(), "a cancelled walk publishes nothing");
}

#[test]
fn a_lost_job_frees_the_slot() {
    let mut worker = Worker::new();
    let job = worker.start(rows(&[(0, "a")])).unwrap();
    worker.lost();
    assert!(!worker.busy());
    assert!(!worker.accept(job.generation, 0));
}

#[test]
fn the_numbering_moves_on_with_every_start_and_cancel() {
    let mut w = lib::dirsizeworker::Worker::new();
    assert_eq!(w.generation(), 0);
    w.cancel();
    assert_eq!(w.generation(), 1);
    let job = w.start(vec![(4, "/listing/a".to_string())]).unwrap();
    assert_eq!((w.generation(), job.generation), (2, 2));
}

#[test]
fn a_row_of_the_batch_in_force_is_walked_and_a_stale_one_is_not() {
    assert_eq!(answered_unwalked(4, 4), None);
    assert_eq!(answered_unwalked(5, 4), Some(DirSize { bytes: 0, partial: true }));
    assert_eq!(answered_unwalked(0, u64::MAX), Some(DirSize { bytes: 0, partial: true }));
}

use pageserver::redo::{apply_record, next_redo_step, replay, RedoError, RedoStep, WalRecord, WorkerReply};

fn rec(lsn: u64, payload: Vec<u8>) -> WalRecord {
    WalRecord { lsn, payload }
}

#[test]
fn apply_record_writes_at_offset() {
    let mut page = vec![0u8; 300];
    assert!(apply_record(&mut page, &vec![1, 0, 7, 8]));
    assert_eq!(page[256], 7);
    assert_eq!(page[257], 8);
    assert_eq!(page[255], 0);
}

#[test]
fn apply_record_rejects_out_of_page_write() {
    let mut page = vec![3u8; 4];
    assert!(!apply_record(&mut page, &vec![0, 3, 1, 1]));
    assert!(!apply_record(&mut page, &vec![0]));
    assert_eq!(page, vec![3u8; 4]);
    assert!(apply_record(&mut page, &vec![0, 4]));
}

#[test]
fn replay_skips_records_past_target() {
    let base = vec![0u8; 2];
    let recs = vec![rec(10, vec![0, 0, 1]), rec(20, vec![0, 1, 2])];
    assert_eq!(replay(&base, &recs, 15).unwrap(), vec![1, 0]);
    assert_eq!(replay(&base, &recs, 20).unwrap(), vec![1, 2]);
    assert_eq!(replay(&base, &recs, 5).unwrap(), vec![0, 0]);
}

#[test]
fn replay_is_deterministic() {
    let base = vec![9u8; 5];
    let recs = vec![rec(1, vec![0, 2, 4, 4]), rec(2, vec![0, 0, 1])];
    let a = replay(&base, &recs, 2);
    let b = replay(&base, &recs, 2);
    assert_eq!(a, b);
    assert_eq!(a.unwrap(), vec![1, 9, 4, 4, 9]);
}

#[test]
fn replay_fails_on_malformed_record() {
    let base = vec![0u8; 2];
    let recs = vec![rec(1, vec![0, 0, 1]), rec(2, vec![0, 2, 1])];
    assert_eq!(replay(&base, &recs, 2), Err(RedoError::MalformedRecord));
    assert_eq!(replay(&base, &recs, 1).unwrap(), vec![1, 0]);
}

#[test]
fn crashed_worker_is_retried_once() {
    match next_redo_step(0, WorkerReply::Crashed) {
        RedoStep::RespawnAndRetry => {}
        _ => panic!("a first crash is retried"),
    }
    match next_redo_step(1, WorkerReply::Completed(vec![4, 2])) {
        RedoStep::Finished(Ok(img)) => assert_eq!(img, vec![4, 2]),
        _ => panic!("the retried call completes"),
    }
}

#[test]
fn second_worker_failure_is_surfaced() {
    match next_redo_step(0, WorkerReply::TimedOut) {
        RedoStep::RespawnAndRetry => {}
        _ => panic!("a first timeout is retried"),
    }
    match next_redo_step(1, WorkerReply::TimedOut) {
        RedoStep::Finished(Err(e)) => assert_eq!(e, RedoError::WorkerFailed),
        _ => panic!("a second failure is an error"),
    }
}

use pageserver::receiver::{
    backoff_ms, decode_frame, ingest_stream, receiver_step, ReceiverAction, ReceiverEvent, ReceiverState,
    WalFrame,
};
use pageserver::repository::{PageKey, Repository};

fn frame(lsn: u64, rel: u32, block: u32, payload: &[u8]) -> Vec<u8> {
    let mut body = Vec::new();
    body.extend_from_slice(&lsn.to_be_bytes());
    body.extend_from_slice(&rel.to_be_bytes());
    body.extend_from_slice(&block.to_be_bytes());
    body.extend_from_slice(payload);
    let mut f = vec![0x57];
    f.extend_from_slice(&(body.len() as u32).to_be_bytes());
    f.extend_from_slice(&body);
    f
}

#[test]
fn decode_frame_reads_a_record() {
    let buf = frame(0x0102, 3, 4, &[0, 1, 9]);
    match decode_frame(&buf, 0) {
        WalFrame::Record { key, lsn, payload, next } => {
            assert_eq!(key, PageKey { rel: 3, block: 4 });
            assert_eq!(lsn, 0x0102);
            assert_eq!(payload, vec![0, 1, 9]);
            assert_eq!(next, buf.len());
        }
        _ => panic!("a whole frame decodes"),
    }
}

#[test]
fn decode_frame_edges() {
    let buf = frame(1, 1, 1, &[0, 0, 1]);
    assert!(matches!(decode_frame(&buf[..buf.len() - 1].to_vec(), 0), WalFrame::Incomplete));
    assert!(matches!(decode_frame(&vec![0x57, 0, 0], 0), WalFrame::Incomplete));
    assert!(matches!(decode_frame(&vec![], 0), WalFrame::Incomplete));
    assert!(matches!(decode_frame(&vec![0x42, 0, 0, 0, 0], 0), WalFrame::Desync));
    match decode_frame(&vec![0x57, 0, 0, 0, 2, 7, 7, 0x57], 0) {
        WalFrame::Malformed { next } => assert_eq!(next, 7),
        _ => panic!("a short body is malformed"),
    }
}

#[test]
fn ingest_stream_puts_records_and_advances_once() {
    let k = PageKey { rel: 1, block: 0 };
    let mut buf = frame(10, 1, 0, &[0, 0, 1]);
    buf.extend_from_slice(&[0x57, 0, 0, 0, 1, 5]);
    buf.extend_from_slice(&frame(20, 1, 0, &[0, 1, 2]));
    let whole = buf.len();
    buf.extend_from_slice(&[0x57, 0, 0]);
    let mut repo = Repository::new();
    let report = ingest_stream(&mut repo, &buf);
    assert_eq!(report.records, 2);
    assert_eq!(report.malformed, 1);
    assert_eq!(report.consumed, whole);
    assert!(!report.desync);
    assert_eq!(repo.last_received_lsn(), 20);
    assert_eq!(repo.consistent_lsn(), 20);
    let page = repo.get_page(k, 20).unwrap();
    assert_eq!((page[0], page[1]), (1, 2));
}

#[test]
fn ingest_stream_stops_on_lost_framing() {
    let mut buf = frame(10, 1, 0, &[0, 0, 1]);
    let first = buf.len();
    buf.extend_from_slice(&[1, 2, 3]);
    buf.extend_from_slice(&frame(20, 1, 0, &[0, 0, 1]));
    let mut repo = Repository::new();
    let report = ingest_stream(&mut repo, &buf);
    assert!(report.desync);
    assert_eq!(report.consumed, first);
    assert_eq!(report.records, 1);
    assert_eq!(repo.last_received_lsn(), 10);
}

#[test]
fn empty_batch_leaves_watermark() {
    let mut repo = Repository::new();
    let report = ingest_stream(&mut repo, &vec![]);
    assert_eq!(report.records, 0);
    assert_eq!(repo.consistent_lsn(), 0);
}

#[test]
fn resend_after_disconnect_matches_uninterrupted_stream() {
    let k = PageKey { rel: 2, block: 2 };
    let frames = vec![
        frame(10, 2, 2, &[0, 0, 1]),
        frame(20, 2, 2, &[0, 1, 2]),
        frame(30, 2, 2, &[0, 0, 3]),
    ];
    let all: Vec<u8> = frames.concat();
    let mut whole = Repository::new();
    ingest_stream(&mut whole, &all);

    let mut resumed = Repository::new();
    ingest_stream(&mut resumed, &frames[..2].concat());
    assert_eq!(resumed.last_received_lsn(), 20);
    // Reconnect and resend from the first record again.
    ingest_stream(&mut resumed, &all);
    assert_eq!(resumed.last_received_lsn(), whole.last_received_lsn());
    assert_eq!(resumed.consistent_lsn(), whole.consistent_lsn());
    for l in [10u64, 20, 25, 30] {
        assert_eq!(resumed.get_page(k, l), whole.get_page(k, l));
    }
}

#[test]
fn backoff_doubles_up_to_the_cap() {
    assert_eq!(backoff_ms(0), 100);
    assert_eq!(backoff_ms(1), 200);
    assert_eq!(backoff_ms(6), 6400);
    assert_eq!(backoff_ms(7), 10000);
    assert_eq!(backoff_ms(u32::MAX), 10000);
}

#[test]
fn receiver_reconnects_from_last_received() {
    let s = ReceiverState::Disconnected { failures: 0 };
    let (s, a) = receiver_step(s, ReceiverEvent::BackoffElapsed, 77);
    assert_eq!(s, ReceiverState::Connecting { failures: 0 });
    assert_eq!(a, ReceiverAction::Connect { start_lsn: 77 });
    let (s2, a2) = receiver_step(s, ReceiverEvent::ConnectFailed, 77);
    assert_eq!(s2, ReceiverState::Disconnected { failures: 1 });
    assert_eq!(a2, ReceiverAction::Wait { ms: 200 });
    let (s3, a3) = receiver_step(s, ReceiverEvent::Connected, 77);
    assert_eq!(s3, ReceiverState::Streaming);
    assert_eq!(a3, ReceiverAction::Receive);
    let (s4, a4) = receiver_step(s3, ReceiverEvent::Desync, 90);
    assert_eq!(s4, ReceiverState::Disconnected { failures: 0 });
    assert_eq!(a4, ReceiverAction::Wait { ms: 100 });
    assert_eq!(receiver_step(s3, ReceiverEvent::Received, 80), (ReceiverState::Streaming, ReceiverAction::Receive));
    let (s5, a5) = receiver_step(s4, ReceiverEvent::BackoffElapsed, 90);
    assert_eq!(s5, ReceiverState::Connecting { failures: 0 });
    assert_eq!(a5, ReceiverAction::Connect { start_lsn: 90 });
}

#[test]
fn receiver_keeps_retrying() {
    let mut s = ReceiverState::Connecting { failures: u32::MAX };
    let (n, a) = receiver_step(s, ReceiverEvent::ConnectFailed, 0);
    assert_eq!(n, ReceiverState::Disconnected { failures: u32::MAX });
    assert_eq!(a, ReceiverAction::Wait { ms: 10000 });
    s = ReceiverState::Streaming;
    let (n, a) = receiver_step(s, ReceiverEvent::RemoteClosed, 5);
    assert_eq!(n, ReceiverState::Disconnected { failures: 0 });
    assert_eq!(a, ReceiverAction::Wait { ms: 100 });
}

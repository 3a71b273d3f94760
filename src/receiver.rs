//! The WAL receiver's logic: decoding the WAL stream into records, feeding
//! them to the repository, and the reconnect state machine. The connection
//! itself is driven by the caller, which performs each action and reports
//! each event.
//!
//! A WAL frame is `0x57`, a 4-byte big-endian body length, then the body:
//! the record's LSN (8 bytes), the page's relation (4 bytes) and block
//! (4 bytes), all big-endian, and the redo payload. A body shorter than 16
//! bytes is a malformed record, skipped whole; a frame that does not start
//! with `0x57` means the stream lost its framing.
use vstd::prelude::*;
use crate::repository::{PageKey, RepoState, Repository, advance_spec, put_spec};
use crate::wire::{be_value, read_be};

verus! {

/// The first byte of every WAL frame.
pub const FRAME_MAGIC: u8 = 0x57;

/// The length of a frame header: the magic byte and the body length.
pub const FRAME_HEADER: usize = 5;

/// The fixed part of a body: LSN, relation and block.
pub const RECORD_FIXED: usize = 16;

/// A frame as the decoder sees it.
pub enum FrameSpec {
    Incomplete,
    Desync,
    Malformed(nat),
    Record(PageKey, u64, Seq<u8>, nat),
}

/// The body length announced by the header at `at`.
pub open spec fn frame_len(s: Seq<u8>, at: int) -> nat {
    be_value(s.subrange(at + 1, at + 5))
}

/// The frame at `at`; the `nat`s are where the next frame starts.
pub open spec fn frame_spec(s: Seq<u8>, at: int) -> FrameSpec {
    if at >= s.len() {
        FrameSpec::Incomplete
    } else if s[at] != FRAME_MAGIC {
        FrameSpec::Desync
    } else if at + 5 > s.len() || at + 5 + frame_len(s, at) > s.len() {
        FrameSpec::Incomplete
    } else if frame_len(s, at) < 16 {
        FrameSpec::Malformed((at + 5 + frame_len(s, at)) as nat)
    } else {
        FrameSpec::Record(
            PageKey {
                rel: be_value(s.subrange(at + 13, at + 17)) as u32,
                block: be_value(s.subrange(at + 17, at + 21)) as u32,
            },
            be_value(s.subrange(at + 5, at + 13)) as u64,
            s.subrange(at + 21, at + 5 + frame_len(s, at)),
            (at + 5 + frame_len(s, at)) as nat,
        )
    }
}

/// A decoded frame.
pub enum WalFrame {
    /// More bytes are needed.
    Incomplete,
    /// The stream lost its framing: reconnect.
    Desync,
    /// A malformed record; the next frame starts at `next`.
    Malformed { next: usize },
    /// A record; the next frame starts at `next`.
    Record { key: PageKey, lsn: u64, payload: Vec<u8>, next: usize },
}

impl WalFrame {
    pub open spec fn spec(&self) -> FrameSpec {
        match self {
            WalFrame::Incomplete => FrameSpec::Incomplete,
            WalFrame::Desync => FrameSpec::Desync,
            WalFrame::Malformed { next } => FrameSpec::Malformed(*next as nat),
            WalFrame::Record { key, lsn, payload, next } => FrameSpec::Record(
                *key,
                *lsn,
                payload@,
                *next as nat,
            ),
        }
    }
}

/// The bytes `buf[a..b]` as a vector.
pub fn copy_range(buf: &Vec<u8>, a: usize, b: usize) -> (r: Vec<u8>)
    requires
        a <= b <= buf@.len(),
    ensures
        r@ == buf@.subrange(a as int, b as int),
{
    let mut r: Vec<u8> = Vec::new();
    let mut i: usize = a;
    while i < b
        invariant
            a <= i <= b,
            b <= buf@.len(),
            r@ == buf@.subrange(a as int, i as int),
        decreases b - i,
    {
        r.push(buf[i]);
        i = i + 1;
        assert(r@ =~= buf@.subrange(a as int, i as int));
    }
    r
}

/// Decodes the frame that starts at `at`.
pub fn decode_frame(buf: &Vec<u8>, at: usize) -> (r: WalFrame)
    requires
        at <= buf@.len(),
    ensures
        r.spec() == frame_spec(buf@, at as int),
        r matches WalFrame::Malformed { next } ==> at < next <= buf@.len(),
        r matches WalFrame::Record { next, .. } ==> at < next <= buf@.len(),
{
    if at >= buf.len() {
        return WalFrame::Incomplete;
    }
    if buf[at] != FRAME_MAGIC {
        return WalFrame::Desync;
    }
    if buf.len() - at < FRAME_HEADER {
        return WalFrame::Incomplete;
    }
    let len = read_be(buf, at + 1, 4);
    assert(buf@.subrange(at + 1, at + 1 + 4) == buf@.subrange(at + 1, at + 5));
    proof {
        crate::wire::lemma_be_value_bound(buf@.subrange(at + 1, at + 5));
    }
    if len > (buf.len() - at - FRAME_HEADER) as u64 {
        return WalFrame::Incomplete;
    }
    let body = len as usize;
    let next = at + FRAME_HEADER + body;
    if body < RECORD_FIXED {
        return WalFrame::Malformed { next };
    }
    let lsn = read_be(buf, at + 5, 8);
    let rel = read_be(buf, at + 13, 4);
    let block = read_be(buf, at + 17, 4);
    proof {
        crate::wire::lemma_be_value_bound(buf@.subrange(at + 13, at + 17));
        crate::wire::lemma_be_value_bound(buf@.subrange(at + 17, at + 21));
    }
    let payload = copy_range(buf, at + 21, next);
    WalFrame::Record { key: PageKey { rel: rel as u32, block: block as u32 }, lsn, payload, next }
}

/// What scanning a buffer of frames from `at` finds: the records in order,
/// the number of malformed records skipped, where the scan stopped, and
/// whether it stopped on lost framing.
pub open spec fn scan_spec(s: Seq<u8>, at: int) -> (Seq<(PageKey, u64, Seq<u8>)>, nat, nat, bool)
    decreases s.len() - at,
{
    match frame_spec(s, at) {
        FrameSpec::Record(k, l, p, next) => if at < next <= s.len() {
            let rest = scan_spec(s, next as int);
            (seq![(k, l, p)] + rest.0, rest.1, rest.2, rest.3)
        } else {
            (Seq::empty(), 0, at as nat, false)
        },
        FrameSpec::Malformed(next) => if at < next <= s.len() {
            let rest = scan_spec(s, next as int);
            (rest.0, rest.1 + 1, rest.2, rest.3)
        } else {
            (Seq::empty(), 0, at as nat, false)
        },
        FrameSpec::Desync => (Seq::empty(), 0, at as nat, true),
        FrameSpec::Incomplete => (Seq::empty(), 0, at as nat, false),
    }
}

/// The repository state after each record of `recs` is put, in order.
pub open spec fn ingest_repo(st: RepoState, recs: Seq<(PageKey, u64, Seq<u8>)>) -> RepoState
    decreases recs.len(),
{
    if recs.len() == 0 {
        st
    } else {
        let r = recs.last();
        put_spec(ingest_repo(st, recs.drop_last()), r.0, r.1, r.2)
    }
}

/// What one batch of stream bytes did.
pub struct IngestReport {
    /// Bytes consumed: the caller keeps the rest for the next batch.
    pub consumed: usize,
    /// Records handed to the repository.
    pub records: usize,
    /// Malformed records skipped.
    pub malformed: usize,
    /// The stream lost its framing: the caller reconnects.
    pub desync: bool,
}

/// Decodes the whole frames at the start of `buf`, puts each record into the
/// repository and skips each malformed one. When the batch held a record, the
/// watermark is then advanced once, to the last received LSN.
pub fn ingest_stream(repo: &mut Repository, buf: &Vec<u8>) -> (r: IngestReport)
    requires
        old(repo).wf(),
    ensures
        final(repo).wf(),
        ({
            let sc = scan_spec(buf@, 0);
            let ing = ingest_repo(old(repo)@, sc.0);
            &&& r.records == sc.0.len()
            &&& r.malformed == sc.1
            &&& r.consumed == sc.2
            &&& r.desync == sc.3
            &&& final(repo)@ == if sc.0.len() > 0 {
                advance_spec(ing, ing.last_received)
            } else {
                ing
            }
        }),
{
    let ghost s = buf@;
    let ghost old_st = repo@;
    let ghost mut done: Seq<(PageKey, u64, Seq<u8>)> = Seq::empty();
    let mut pos: usize = 0;
    let mut records: usize = 0;
    let mut malformed: usize = 0;
    let mut desync = false;
    let mut stopped = false;
    while !stopped
        invariant
            s == buf@,
            repo.wf(),
            pos <= s.len(),
            repo@ == ingest_repo(old_st, done),
            records == done.len(),
            records <= pos,
            malformed <= pos,
            scan_spec(s, 0).0 == done + scan_spec(s, pos as int).0,
            scan_spec(s, 0).1 == malformed + scan_spec(s, pos as int).1,
            scan_spec(s, 0).2 == scan_spec(s, pos as int).2,
            scan_spec(s, 0).3 == scan_spec(s, pos as int).3,
            stopped ==> scan_spec(s, pos as int).0.len() == 0,
            stopped ==> scan_spec(s, pos as int).1 == 0,
            stopped ==> scan_spec(s, pos as int).2 == pos,
            stopped ==> scan_spec(s, pos as int).3 == desync,
            !stopped ==> !desync,
        decreases s.len() - pos + if stopped { 0int } else { 1int },
    {
        let f = decode_frame(buf, pos);
        match f {
            WalFrame::Record { key, lsn, payload, next } => {
                let ghost rec = (key, lsn, payload@);
                repo.put(key, lsn, payload);
                proof {
                    assert(scan_spec(s, pos as int).0 == seq![rec] + scan_spec(s, next as int).0);
                    assert(done + scan_spec(s, pos as int).0 =~= done.push(rec) + scan_spec(s, next as int).0);
                    assert(done.push(rec).drop_last() =~= done);
                    done = done.push(rec);
                }
                records = records + 1;
                pos = next;
            },
            WalFrame::Malformed { next } => {
                malformed = malformed + 1;
                pos = next;
            },
            WalFrame::Desync => {
                assert(frame_spec(s, pos as int) is Desync);
                assert(scan_spec(s, pos as int).0 =~= Seq::<(PageKey, u64, Seq<u8>)>::empty());
                desync = true;
                stopped = true;
            },
            WalFrame::Incomplete => {
                assert(frame_spec(s, pos as int) is Incomplete);
                assert(scan_spec(s, pos as int).0 =~= Seq::<(PageKey, u64, Seq<u8>)>::empty());
                stopped = true;
            },
        }
    }
    proof {
        assert(done + Seq::<(PageKey, u64, Seq<u8>)>::empty() =~= done);
    }
    if records > 0 {
        let l = repo.last_received_lsn();
        repo.advance_consistent_lsn(l);
    }
    IngestReport { consumed: pos, records, malformed, desync }
}

/// The first reconnect delay, in milliseconds.
pub const BACKOFF_BASE_MS: u64 = 100;

/// The longest reconnect delay, in milliseconds.
pub const BACKOFF_MAX_MS: u64 = 10000;

/// The reconnect delay after `failures` failed attempts in a row: it doubles
/// with each failure, up to the maximum.
pub open spec fn backoff_spec(failures: nat) -> u64
    decreases failures,
{
    if failures == 0 {
        BACKOFF_BASE_MS
    } else {
        let d = backoff_spec((failures - 1) as nat);
        if d >= BACKOFF_MAX_MS / 2 {
            BACKOFF_MAX_MS
        } else {
            (2 * d) as u64
        }
    }
}

proof fn lemma_backoff_bounded(f: nat)
    ensures
        BACKOFF_BASE_MS <= backoff_spec(f) <= BACKOFF_MAX_MS,
    decreases f,
{
    if f > 0 {
        lemma_backoff_bounded((f - 1) as nat);
    }
}

proof fn lemma_backoff_saturates(a: nat, b: nat)
    requires
        a <= b,
        backoff_spec(a) == BACKOFF_MAX_MS,
    ensures
        backoff_spec(b) == BACKOFF_MAX_MS,
    decreases b - a,
{
    if a < b {
        lemma_backoff_saturates(a, (b - 1) as nat);
    }
}

/// The reconnect delay after `failures` failed attempts in a row.
pub fn backoff_ms(failures: u32) -> (r: u64)
    ensures
        r == backoff_spec(failures as nat),
{
    let mut d: u64 = BACKOFF_BASE_MS;
    let mut k: u32 = 0;
    while k < failures && d < BACKOFF_MAX_MS
        invariant
            k <= failures,
            d == backoff_spec(k as nat),
        decreases failures - k,
    {
        proof {
            lemma_backoff_bounded(k as nat);
        }
        if d >= BACKOFF_MAX_MS / 2 {
            d = BACKOFF_MAX_MS;
        } else {
            d = 2 * d;
        }
        k = k + 1;
    }
    proof {
        if k < failures {
            lemma_backoff_bounded(k as nat);
            lemma_backoff_saturates(k as nat, failures as nat);
        }
    }
    d
}

/// Where the receiver's connection stands.
#[derive(Clone, Copy, Debug, PartialEq, Eq, Structural)]
pub enum ReceiverState {
    /// Not connected; `failures` connection attempts have failed in a row.
    Disconnected { failures: u32 },
    /// A connection attempt is under way.
    Connecting { failures: u32 },
    /// Records are streaming in.
    Streaming,
}

/// What happened since the last step.
#[derive(Clone, Copy, Debug, PartialEq, Eq, Structural)]
pub enum ReceiverEvent {
    /// The reconnect delay is over.
    BackoffElapsed,
    /// The subscribe handshake succeeded.
    Connected,
    /// A batch of the stream was read and ingested.
    Received,
    /// The connection attempt failed.
    ConnectFailed,
    /// Reading the stream failed.
    StreamError,
    /// The remote end closed the stream.
    RemoteClosed,
    /// The decoder lost the stream's framing.
    Desync,
}

/// What the caller does next.
#[derive(Clone, Copy, Debug, PartialEq, Eq, Structural)]
pub enum ReceiverAction {
    /// Sleep this many milliseconds, then report `BackoffElapsed`.
    Wait { ms: u64 },
    /// Connect and subscribe from this LSN.
    Connect { start_lsn: u64 },
    /// Read the next batch of the stream.
    Receive,
}

/// The receiver's transition: from a state and an event to the next state and
/// the action to perform. Connecting always resumes from the last received
/// LSN; any failure goes back to `Disconnected` with the delay of the backoff;
/// retries never stop. An event that does not apply to the state keeps the
/// state and repeats its action.
pub fn receiver_step(state: ReceiverState, event: ReceiverEvent, last_received: u64) -> (r: (
    ReceiverState,
    ReceiverAction,
))
    ensures
        r == match (state, event) {
            (ReceiverState::Disconnected { failures }, ReceiverEvent::BackoffElapsed) => (
                ReceiverState::Connecting { failures },
                ReceiverAction::Connect { start_lsn: last_received },
            ),
            (ReceiverState::Disconnected { failures }, _) => (
                state,
                ReceiverAction::Wait { ms: backoff_spec(failures as nat) },
            ),
            (ReceiverState::Connecting { failures }, ReceiverEvent::Connected) => (
                ReceiverState::Streaming,
                ReceiverAction::Receive,
            ),
            (ReceiverState::Connecting { failures }, ReceiverEvent::ConnectFailed) => {
                let f = if failures < u32::MAX { (failures + 1) as u32 } else { failures };
                (ReceiverState::Disconnected { failures: f }, ReceiverAction::Wait { ms: backoff_spec(f as nat) })
            },
            (ReceiverState::Connecting { failures }, _) => (
                state,
                ReceiverAction::Connect { start_lsn: last_received },
            ),
            (ReceiverState::Streaming, ReceiverEvent::StreamError)
            | (ReceiverState::Streaming, ReceiverEvent::RemoteClosed)
            | (ReceiverState::Streaming, ReceiverEvent::Desync) => (
                ReceiverState::Disconnected { failures: 0 },
                ReceiverAction::Wait { ms: backoff_spec(0) },
            ),
            (ReceiverState::Streaming, _) => (ReceiverState::Streaming, ReceiverAction::Receive),
        },
{
    match state {
        ReceiverState::Disconnected { failures } => match event {
            ReceiverEvent::BackoffElapsed => (
                ReceiverState::Connecting { failures },
                ReceiverAction::Connect { start_lsn: last_received },
            ),
            _ => (state, ReceiverAction::Wait { ms: backoff_ms(failures) }),
        },
        ReceiverState::Connecting { failures } => match event {
            ReceiverEvent::Connected => (ReceiverState::Streaming, ReceiverAction::Receive),
            ReceiverEvent::ConnectFailed => {
                let f = if failures < u32::MAX { failures + 1 } else { failures };
                (ReceiverState::Disconnected { failures: f }, ReceiverAction::Wait { ms: backoff_ms(f) })
            },
            _ => (state, ReceiverAction::Connect { start_lsn: last_received }),
        },
        ReceiverState::Streaming => match event {
            ReceiverEvent::StreamError | ReceiverEvent::RemoteClosed | ReceiverEvent::Desync => (
                ReceiverState::Disconnected { failures: 0 },
                ReceiverAction::Wait { ms: backoff_ms(0) },
            ),
            _ => (ReceiverState::Streaming, ReceiverAction::Receive),
        },
    }
}

} // verus!

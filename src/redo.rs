//! The redo engine: rebuilds a page image from a base image and the WAL
//! records that follow it.
//!
//! A record's redo payload is `[off_hi, off_lo, data...]`: it overwrites the
//! bytes of the page that start at the big-endian offset `off_hi * 256 + off_lo`
//! with `data`. A payload shorter than two bytes, or one whose data would run
//! past the end of the page, is malformed.
use vstd::prelude::*;

verus! {

/// A WAL record for one page: its log position and its redo payload.
pub struct WalRecord {
    pub lsn: u64,
    pub payload: Vec<u8>,
}

impl View for WalRecord {
    type V = (u64, Seq<u8>);

    open spec fn view(&self) -> (u64, Seq<u8>) {
        (self.lsn, self.payload@)
    }
}

/// The views of a list of records.
pub open spec fn records_view(rs: Seq<WalRecord>) -> Seq<(u64, Seq<u8>)> {
    rs.map_values(|r: WalRecord| r@)
}

/// Why a replay failed.
#[derive(Clone, Copy, Debug, PartialEq, Eq, Structural)]
pub enum RedoError {
    /// A record's payload does not describe a write inside the page.
    MalformedRecord,
    /// The redo worker died or timed out twice in a row.
    WorkerFailed,
}

/// The page offset a payload writes at.
pub open spec fn payload_offset(p: Seq<u8>) -> int {
    p[0] as int * 256 + p[1] as int
}

/// A payload is well formed for a page when its write stays inside the page.
pub open spec fn payload_fits(page: Seq<u8>, p: Seq<u8>) -> bool {
    p.len() >= 2 && payload_offset(p) + (p.len() - 2) <= page.len()
}

/// The page after one well-formed payload is applied.
pub open spec fn apply_spec(page: Seq<u8>, p: Seq<u8>) -> Seq<u8> {
    Seq::new(
        page.len(),
        |i: int|
            if payload_offset(p) <= i < payload_offset(p) + (p.len() - 2) {
                p[i - payload_offset(p) + 2]
            } else {
                page[i]
            },
    )
}

/// Replaying `recs` in list order on top of `base`, skipping the records past
/// `target`: `None` when a replayed record is malformed.
pub open spec fn replay_spec(base: Seq<u8>, recs: Seq<(u64, Seq<u8>)>, target: u64) -> Option<
    Seq<u8>,
>
    decreases recs.len(),
{
    if recs.len() == 0 {
        Some(base)
    } else {
        match replay_spec(base, recs.drop_last(), target) {
            None => None,
            Some(page) => {
                let r = recs.last();
                if r.0 > target {
                    Some(page)
                } else if payload_fits(page, r.1) {
                    Some(apply_spec(page, r.1))
                } else {
                    None
                }
            },
        }
    }
}

/// Applies one redo payload to `page` in place. Returns false, and leaves the
/// page as it was, when the payload is malformed for it.
pub fn apply_record(page: &mut Vec<u8>, payload: &Vec<u8>) -> (ok: bool)
    ensures
        ok == payload_fits(old(page)@, payload@),
        ok ==> final(page)@ == apply_spec(old(page)@, payload@),
        !ok ==> final(page)@ == old(page)@,
{
    if payload.len() < 2 {
        return false;
    }
    let off: usize = payload[0] as usize * 256 + payload[1] as usize;
    let n: usize = payload.len() - 2;
    if off > page.len() || n > page.len() - off {
        return false;
    }
    let ghost before = page@;
    let mut j: usize = 0;
    while j < n
        invariant
            n + 2 == payload.len(),
            off == payload_offset(payload@),
            off + n <= page.len(),
            page@.len() == before.len(),
            0 <= j <= n,
            forall|i: int|
                0 <= i < page@.len() ==> #[trigger] page@[i] == if off <= i < off + j {
                    payload@[i - off + 2]
                } else {
                    before[i]
                },
        decreases n - j,
    {
        page[off + j] = payload[j + 2];
        j = j + 1;
    }
    assert(page@ =~= apply_spec(before, payload@));
    true
}

/// Rebuilds the image at `target` from `base` and the records of one page,
/// given in ascending LSN order; records past `target` are skipped.
pub fn replay(base: &Vec<u8>, records: &Vec<WalRecord>, target: u64) -> (r: Result<
    Vec<u8>,
    RedoError,
>)
    ensures
        match r {
            Ok(img) => replay_spec(base@, records_view(records@), target) == Some(img@),
            Err(e) => replay_spec(base@, records_view(records@), target) is None && e
                == RedoError::MalformedRecord,
        },
{
    let mut page = base.clone();
    assert(page@ =~= base@);
    let ghost rv = records_view(records@);
    let mut i: usize = 0;
    while i < records.len()
        invariant
            rv == records_view(records@),
            0 <= i <= records@.len(),
            replay_spec(base@, rv.take(i as int), target) == Some(page@),
        decreases records@.len() - i,
    {
        assert(rv.take(i + 1).drop_last() =~= rv.take(i as int));
        let rec = &records[i];
        if rec.lsn <= target {
            if !apply_record(&mut page, &rec.payload) {
                proof {
                    lemma_replay_fails_on_extension(base@, rv, i + 1, target);
                }
                return Err(RedoError::MalformedRecord);
            }
        }
        i = i + 1;
    }
    assert(rv.take(i as int) =~= rv);
    Ok(page)
}

/// Once a prefix of the records fails to replay, every longer prefix fails too.
pub proof fn lemma_replay_fails_on_extension(
    base: Seq<u8>,
    recs: Seq<(u64, Seq<u8>)>,
    n: int,
    target: u64,
)
    requires
        0 <= n <= recs.len(),
        replay_spec(base, recs.take(n), target) is None,
    ensures
        replay_spec(base, recs, target) is None,
    decreases recs.len() - n,
{
    if n < recs.len() {
        assert(recs.take(n + 1).drop_last() =~= recs.take(n));
        lemma_replay_fails_on_extension(base, recs, n + 1, target);
    } else {
        assert(recs.take(n) =~= recs);
    }
}

/// Replaying a concatenation is replaying its second part on the result of the first.
pub proof fn lemma_replay_append(
    base: Seq<u8>,
    t: Seq<(u64, Seq<u8>)>,
    u: Seq<(u64, Seq<u8>)>,
    target: u64,
)
    ensures
        replay_spec(base, t + u, target) == match replay_spec(base, t, target) {
            Some(p) => replay_spec(p, u, target),
            None => None,
        },
    decreases u.len(),
{
    if u.len() == 0 {
        assert(t + u =~= t);
    } else {
        lemma_replay_append(base, t, u.drop_last(), target);
        assert((t + u).drop_last() =~= t + u.drop_last());
        assert((t + u).last() == u.last());
    }
}

/// Records past the target leave the page as it is.
pub proof fn lemma_replay_skips_newer(base: Seq<u8>, u: Seq<(u64, Seq<u8>)>, target: u64)
    requires
        forall|i: int| 0 <= i < u.len() ==> #[trigger] u[i].0 > target,
    ensures
        replay_spec(base, u, target) == Some(base),
    decreases u.len(),
{
    if u.len() > 0 {
        assert forall|i: int| 0 <= i < u.drop_last().len() implies #[trigger] u.drop_last()[i].0 > target by {
            assert(u.drop_last()[i] == u[i]);
        }
        lemma_replay_skips_newer(base, u.drop_last(), target);
    }
}

/// When no record is past either target, both targets replay alike.
pub proof fn lemma_replay_target_irrelevant(
    base: Seq<u8>,
    t: Seq<(u64, Seq<u8>)>,
    a: u64,
    b: u64,
)
    requires
        forall|i: int| 0 <= i < t.len() ==> #[trigger] t[i].0 <= a && t[i].0 <= b,
    ensures
        replay_spec(base, t, a) == replay_spec(base, t, b),
    decreases t.len(),
{
    if t.len() > 0 {
        assert forall|i: int| 0 <= i < t.drop_last().len() implies #[trigger] t.drop_last()[i].0 <= a
            && t.drop_last()[i].0 <= b by {
            assert(t.drop_last()[i] == t[i]);
        }
        lemma_replay_target_irrelevant(base, t.drop_last(), a, b);
    }
}

/// What the redo worker answered to one call.
pub enum WorkerReply {
    /// The worker returned the page image.
    Completed(Vec<u8>),
    /// The worker process died during the call.
    Crashed,
    /// The call exceeded its time bound.
    TimedOut,
}

/// What to do after a worker call.
pub enum RedoStep {
    /// The replay is over, with this result.
    Finished(Result<Vec<u8>, RedoError>),
    /// Spawn a fresh worker and send the same call again.
    RespawnAndRetry,
}

/// The retry rule of the redo engine: a failed call is retried exactly once,
/// against a freshly spawned worker; a second failure is a `WorkerFailed`.
/// `attempt` counts the calls already failed before this reply (0 for the first).
pub fn next_redo_step(attempt: u32, reply: WorkerReply) -> (r: RedoStep)
    ensures
        match reply {
            WorkerReply::Completed(img) => r == RedoStep::Finished(Ok(img)),
            _ => if attempt == 0 {
                r is RespawnAndRetry
            } else {
                r == RedoStep::Finished(Err(RedoError::WorkerFailed))
            },
        },
{
    match reply {
        WorkerReply::Completed(img) => RedoStep::Finished(Ok(img)),
        _ => {
            if attempt == 0 {
                RedoStep::RespawnAndRetry
            } else {
                RedoStep::Finished(Err(RedoError::WorkerFailed))
            }
        },
    }
}

} // verus!

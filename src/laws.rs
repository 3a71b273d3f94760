//! Properties of the repository that hold across several operations.
use vstd::prelude::*;
use crate::history::{
    ingest,
    insert_sorted,
    lemma_ingest_order_independent,
    lemma_insert_sorted_at,
    lsn_consistent,
    sorted_by_lsn,
};
use crate::receiver::ingest_repo;
use crate::redo::{RedoError, apply_spec, payload_fits, replay_spec};
use crate::repository::{
    KeyHistory,
    PageError,
    PageKey,
    RepoState,
    Repository,
    advance_spec,
    fresh_history,
    page_spec,
    put_spec,
};

verus! {

/// Determinism: `replay` and `Repository::get_page` promise one exact
/// result for their inputs, so any two calls on the same base image and
/// records (or on the same repository state, key and LSN) answer alike. Here
/// `a1` and `a2` stand for the answers of two such calls, each meeting its
/// function's postcondition.
pub proof fn lemma_replay_deterministic(
    base1: Seq<u8>,
    recs1: Seq<(u64, Seq<u8>)>,
    base2: Seq<u8>,
    recs2: Seq<(u64, Seq<u8>)>,
    target: u64,
    img1: Seq<u8>,
    img2: Seq<u8>,
    st1: RepoState,
    st2: RepoState,
    key: PageKey,
    a1: Result<Seq<u8>, PageError>,
    a2: Result<Seq<u8>, PageError>,
)
    requires
        base1 == base2,
        recs1 == recs2,
        st1 == st2,
        replay_spec(base1, recs1, target) == Some(img1),
        replay_spec(base2, recs2, target) == Some(img2),
        page_spec(st1, key, target) == a1,
        page_spec(st2, key, target) == a2,
    ensures
        img1 == img2,
        a1 == a2,
{
}

/// Read-your-write: after a record that is the newest of its page is put at
/// `lsn` and the watermark is advanced to `lsn`, a query at `lsn` returns the
/// image before the write with the record applied on top.
pub proof fn lemma_read_your_write(repo: Repository, key: PageKey, lsn: u64, payload: Seq<u8>)
    requires
        repo.wf(),
        repo@.keys.contains_key(key) ==> lsn > repo@.keys[key].base_lsn && forall|i: int|
            0 <= i < repo@.keys[key].records.len() ==> #[trigger] repo@.keys[key].records[i].0 < lsn,
        !repo@.keys.contains_key(key) ==> lsn > 0,
    ensures
        ({
            let h = if repo@.keys.contains_key(key) { repo@.keys[key] } else { fresh_history() };
            let after = advance_spec(put_spec(repo@, key, lsn, payload), lsn);
            page_spec(after, key, lsn) == match replay_spec(h.base, h.records, lsn) {
                Some(pg) => if payload_fits(pg, payload) {
                    Ok(apply_spec(pg, payload))
                } else {
                    Err(PageError::Redo(RedoError::MalformedRecord))
                },
                None => Err(PageError::Redo(RedoError::MalformedRecord)),
            }
        }),
{
    let h = if repo@.keys.contains_key(key) { repo@.keys[key] } else { fresh_history() };
    if repo@.keys.contains_key(key) {
        repo.lemma_logs_sorted(key);
    }
    assert(sorted_by_lsn(h.records));
    let r = (lsn, payload);
    lemma_insert_sorted_at(h.records, r, h.records.len() as int);
    assert(h.records.insert(h.records.len() as int, r) =~= h.records.push(r));
    let s2 = insert_sorted(h.records, r);
    assert(s2.drop_last() =~= h.records);
}

/// Retention boundary: a query below the retained history of a page is
/// refused with `LsnTooOld`, whatever else the state holds.
pub proof fn lemma_retention_boundary(st: RepoState, key: PageKey, lsn: u64)
    requires
        st.keys.contains_key(key),
        lsn < st.keys[key].base_lsn,
    ensures
        page_spec(st, key, lsn) == Err::<Seq<u8>, PageError>(PageError::LsnTooOld),
{
}

/// The watermark never moves back, and a query at or below it is never told
/// to wait.
pub proof fn lemma_watermark_monotone(st: RepoState, lsn: u64, key: PageKey, q: u64)
    requires
        q <= lsn || q <= st.consistent,
    ensures
        advance_spec(st, lsn).consistent >= st.consistent,
        advance_spec(st, lsn).consistent >= lsn,
        page_spec(advance_spec(st, lsn), key, q) != Err::<Seq<u8>, PageError>(
            PageError::NotYetConsistent,
        ),
{
}

/// The records of `recs` that are for page `k`, as (LSN, payload), in order.
pub open spec fn key_puts(recs: Seq<(PageKey, u64, Seq<u8>)>, k: PageKey) -> Seq<(u64, Seq<u8>)>
    decreases recs.len(),
{
    if recs.len() == 0 {
        Seq::empty()
    } else {
        let r = recs.last();
        if r.0 == k {
            key_puts(recs.drop_last(), k).push((r.1, r.2))
        } else {
            key_puts(recs.drop_last(), k)
        }
    }
}

/// No two records of `recs` are for the same page and LSN with different payloads.
pub open spec fn records_consistent(recs: Seq<(PageKey, u64, Seq<u8>)>) -> bool {
    forall|i: int, j: int|
        0 <= i < recs.len() && 0 <= j < recs.len() && recs[i].0 == recs[j].0 && recs[i].1 == recs[j].1
            ==> recs[i] == recs[j]
}

/// The history a page has in `st`, or the one its first record creates.
pub open spec fn history_of(st: RepoState, k: PageKey) -> KeyHistory {
    if st.keys.contains_key(k) {
        st.keys[k]
    } else {
        fresh_history()
    }
}

proof fn lemma_key_puts_contains(recs: Seq<(PageKey, u64, Seq<u8>)>, k: PageKey)
    ensures
        forall|x: (u64, Seq<u8>)| #[trigger] key_puts(recs, k).contains(x) <==> recs.contains((k, x.0, x.1)),
    decreases recs.len(),
{
    if recs.len() > 0 {
        let p = recs.drop_last();
        let r = recs.last();
        lemma_key_puts_contains(p, k);
        assert forall|x: (u64, Seq<u8>)| #[trigger] key_puts(recs, k).contains(x) <==> recs.contains((k, x.0, x.1)) by {
            let kp = key_puts(p, k);
            if recs.contains((k, x.0, x.1)) {
                let i = choose|i: int| 0 <= i < recs.len() && recs[i] == (k, x.0, x.1);
                if i < p.len() {
                    assert(p[i] == recs[i]);
                    assert(p.contains((k, x.0, x.1)));
                    assert(key_puts(p, k).contains(x));
                    let m = choose|m: int| 0 <= m < kp.len() && kp[m] == x;
                    if r.0 == k {
                        assert(kp.push((r.1, r.2))[m] == x);
                    }
                } else {
                    assert(kp.push((r.1, r.2))[kp.len() as int] == x);
                }
            }
            if key_puts(recs, k).contains(x) {
                let i = choose|i: int| 0 <= i < key_puts(recs, k).len() && key_puts(recs, k)[i] == x;
                if i < kp.len() {
                    if r.0 == k {
                        assert(kp.push((r.1, r.2))[i] == kp[i]);
                    }
                    assert(kp.contains(x));
                    let m = choose|m: int| 0 <= m < p.len() && p[m] == (k, x.0, x.1);
                    assert(recs[m] == p[m]);
                } else {
                    assert(recs[recs.len() - 1] == (k, x.0, x.1));
                }
            }
        }
    }
}

proof fn lemma_ingest_repo_per_key(st: RepoState, recs: Seq<(PageKey, u64, Seq<u8>)>, k: PageKey)
    ensures
        ingest_repo(st, recs).keys.contains_key(k) <==> (st.keys.contains_key(k) || key_puts(recs, k).len()
            > 0),
        ingest_repo(st, recs).keys.contains_key(k) ==> ingest_repo(st, recs).keys[k] == (KeyHistory {
            records: ingest(history_of(st, k).records, history_of(st, k).base_lsn, key_puts(recs, k)),
            ..history_of(st, k)
        }),
        ingest_repo(st, recs).consistent == st.consistent,
    decreases recs.len(),
{
    if recs.len() > 0 {
        let p = recs.drop_last();
        lemma_ingest_repo_per_key(st, p, k);
        let r = recs.last();
        if r.0 == k {
            let q = key_puts(p, k);
            assert(q.push((r.1, r.2)).drop_last() =~= q);
        }
    }
}

proof fn lemma_ingest_repo_last_received(st: RepoState, recs: Seq<(PageKey, u64, Seq<u8>)>)
    ensures
        ingest_repo(st, recs).last_received >= st.last_received,
        forall|i: int| 0 <= i < recs.len() ==> ingest_repo(st, recs).last_received >= #[trigger] recs[i].1,
        ingest_repo(st, recs).last_received == st.last_received || exists|i: int|
            0 <= i < recs.len() && recs[i].1 == ingest_repo(st, recs).last_received,
    decreases recs.len(),
{
    if recs.len() > 0 {
        let p = recs.drop_last();
        lemma_ingest_repo_last_received(st, p);
        assert forall|i: int| 0 <= i < recs.len() implies ingest_repo(st, recs).last_received >= #[trigger] recs[i].1 by {
            if i < p.len() {
                assert(recs[i] == p[i]);
            }
        }
        let l = ingest_repo(st, recs).last_received;
        if l != st.last_received && l != recs.last().1 {
            let i = choose|i: int| 0 <= i < p.len() && p[i].1 == ingest_repo(st, p).last_received;
            assert(recs[i] == p[i]);
        }
    }
}

/// Order independence of ingestion for the whole repository: two arrival
/// orders of the same set of records, no two of which are for the same page
/// and LSN with different payloads, leave the same state.
pub proof fn lemma_repo_order_independent(
    repo: Repository,
    recs1: Seq<(PageKey, u64, Seq<u8>)>,
    recs2: Seq<(PageKey, u64, Seq<u8>)>,
)
    requires
        repo.wf(),
        records_consistent(recs1),
        forall|x: (PageKey, u64, Seq<u8>)| recs1.contains(x) <==> recs2.contains(x),
    ensures
        ingest_repo(repo@, recs1) == ingest_repo(repo@, recs2),
{
    let st = repo@;
    let a = ingest_repo(st, recs1);
    let b = ingest_repo(st, recs2);
    assert forall|k: PageKey| #[trigger] a.keys.contains_key(k) <==> b.keys.contains_key(k) by {
        lemma_ingest_repo_per_key(st, recs1, k);
        lemma_ingest_repo_per_key(st, recs2, k);
        lemma_key_puts_contains(recs1, k);
        lemma_key_puts_contains(recs2, k);
        if key_puts(recs1, k).len() > 0 {
            let x = key_puts(recs1, k)[0];
            assert(key_puts(recs1, k).contains(x));
            assert(recs1.contains((k, x.0, x.1)));
            assert(recs2.contains((k, x.0, x.1)));
            assert(key_puts(recs2, k).contains(x));
        }
        if key_puts(recs2, k).len() > 0 {
            let x = key_puts(recs2, k)[0];
            assert(key_puts(recs2, k).contains(x));
            assert(recs2.contains((k, x.0, x.1)));
            assert(recs1.contains((k, x.0, x.1)));
            assert(key_puts(recs1, k).contains(x));
        }
    }
    assert forall|k: PageKey| #[trigger] a.keys.contains_key(k) implies a.keys[k] == b.keys[k] by {
        lemma_ingest_repo_per_key(st, recs1, k);
        lemma_ingest_repo_per_key(st, recs2, k);
        lemma_key_puts_contains(recs1, k);
        lemma_key_puts_contains(recs2, k);
        let h = history_of(st, k);
        if st.keys.contains_key(k) {
            repo.lemma_logs_sorted(k);
        }
        let q1 = key_puts(recs1, k);
        let q2 = key_puts(recs2, k);
        assert forall|i: int, j: int|
            0 <= i < q1.len() && 0 <= j < q1.len() && q1[i].0 == q1[j].0 implies q1[i] == q1[j] by {
            assert(q1.contains(q1[i]) && q1.contains(q1[j]));
            let a1 = choose|m: int| 0 <= m < recs1.len() && recs1[m] == (k, q1[i].0, q1[i].1);
            let b1 = choose|m: int| 0 <= m < recs1.len() && recs1[m] == (k, q1[j].0, q1[j].1);
        }
        assert forall|x: (u64, Seq<u8>)| q1.contains(x) <==> q2.contains(x) by {
            assert(q1.contains(x) <==> recs1.contains((k, x.0, x.1)));
            assert(q2.contains(x) <==> recs2.contains((k, x.0, x.1)));
        }
        lemma_ingest_order_independent(h.records, h.base_lsn, q1, q2);
    }
    lemma_ingest_repo_last_received(st, recs1);
    lemma_ingest_repo_last_received(st, recs2);
    assert(a.last_received <= b.last_received) by {
        if a.last_received != st.last_received {
            let i = choose|i: int| 0 <= i < recs1.len() && recs1[i].1 == a.last_received;
            assert(recs1.contains(recs1[i]));
            let j = choose|j: int| 0 <= j < recs2.len() && recs2[j] == recs1[i];
        }
    }
    assert(b.last_received <= a.last_received) by {
        if b.last_received != st.last_received {
            let i = choose|i: int| 0 <= i < recs2.len() && recs2[i].1 == b.last_received;
            assert(recs2.contains(recs2[i]));
            let j = choose|j: int| 0 <= j < recs1.len() && recs1[j] == recs2[i];
        }
    }
    lemma_ingest_repo_per_key(st, recs1, PageKey { rel: 0, block: 0 });
    lemma_ingest_repo_per_key(st, recs2, PageKey { rel: 0, block: 0 });
    assert(a.keys =~= b.keys);
}

proof fn lemma_ingest_repo_append(
    st: RepoState,
    a: Seq<(PageKey, u64, Seq<u8>)>,
    c: Seq<(PageKey, u64, Seq<u8>)>,
)
    ensures
        ingest_repo(ingest_repo(st, a), c) == ingest_repo(st, a + c),
    decreases c.len(),
{
    if c.len() == 0 {
        assert(a + c =~= a);
    } else {
        lemma_ingest_repo_append(st, a, c.drop_last());
        assert((a + c).drop_last() =~= a + c.drop_last());
        assert((a + c).last() == c.last());
    }
}

/// Resumability for the whole repository: when a stream is cut after its
/// first `j` records and, after reconnecting, resent from any earlier
/// position `k`, the repository ends in the state of the uninterrupted stream.
pub proof fn lemma_repo_resume(
    repo: Repository,
    stream: Seq<(PageKey, u64, Seq<u8>)>,
    k: int,
    j: int,
)
    requires
        repo.wf(),
        records_consistent(stream),
        0 <= k <= j <= stream.len(),
    ensures
        ingest_repo(ingest_repo(repo@, stream.take(j)), stream.subrange(k, stream.len() as int))
            == ingest_repo(repo@, stream),
{
    let resent = stream.take(j) + stream.subrange(k, stream.len() as int);
    lemma_ingest_repo_append(repo@, stream.take(j), stream.subrange(k, stream.len() as int));
    assert forall|x: (PageKey, u64, Seq<u8>)| stream.contains(x) <==> resent.contains(x) by {
        if stream.contains(x) {
            let i = choose|i: int| 0 <= i < stream.len() && stream[i] == x;
            if i < j {
                assert(resent[i] == x);
            } else {
                assert(resent[j + i - k] == x);
            }
        }
        if resent.contains(x) {
            let i = choose|i: int| 0 <= i < resent.len() && resent[i] == x;
            if i < j {
                assert(stream[i] == x);
            } else {
                assert(stream[i - j + k] == x);
            }
        }
    }
    lemma_repo_order_independent(repo, stream, resent);
}

} // verus!

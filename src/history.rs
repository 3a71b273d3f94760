//! The record log of one page: its base image and the records ingested since,
//! kept in strictly ascending LSN order.
use vstd::prelude::*;
use crate::redo::{WalRecord, records_view};

verus! {

/// LSNs strictly ascend along the log.
pub open spec fn sorted_by_lsn(s: Seq<(u64, Seq<u8>)>) -> bool {
    forall|i: int, j: int| 0 <= i < j < s.len() ==> s[i].0 < s[j].0
}

/// Every record of the log is newer than the base image.
pub open spec fn all_after(s: Seq<(u64, Seq<u8>)>, base_lsn: u64) -> bool {
    forall|i: int| 0 <= i < s.len() ==> s[i].0 > base_lsn
}

/// Inserting a record into a sorted log: at its place by LSN, or not at all
/// when a record with that LSN is already there.
pub open spec fn insert_sorted(s: Seq<(u64, Seq<u8>)>, r: (u64, Seq<u8>)) -> Seq<(u64, Seq<u8>)>
    decreases s.len(),
{
    if s.len() == 0 {
        seq![r]
    } else if r.0 < s[0].0 {
        seq![r] + s
    } else if r.0 == s[0].0 {
        s
    } else {
        seq![s[0]] + insert_sorted(s.drop_first(), r)
    }
}

/// Ingesting a record into a log whose base image is at `base_lsn`: a record
/// that the base image already covers is ignored.
pub open spec fn put_record(s: Seq<(u64, Seq<u8>)>, base_lsn: u64, r: (u64, Seq<u8>)) -> Seq<
    (u64, Seq<u8>),
> {
    if r.0 <= base_lsn {
        s
    } else {
        insert_sorted(s, r)
    }
}

/// `insert_sorted` as a positional insert, given the place that a scan found.
pub proof fn lemma_insert_sorted_at(s: Seq<(u64, Seq<u8>)>, r: (u64, Seq<u8>), j: int)
    requires
        sorted_by_lsn(s),
        0 <= j <= s.len(),
        forall|i: int| 0 <= i < j ==> s[i].0 < r.0,
        j < s.len() ==> s[j].0 >= r.0,
    ensures
        j < s.len() && s[j].0 == r.0 ==> insert_sorted(s, r) == s,
        !(j < s.len() && s[j].0 == r.0) ==> insert_sorted(s, r) == s.insert(j, r),
    decreases j,
{
    if j == 0 {
        if s.len() == 0 {
            assert(seq![r] =~= s.insert(0, r));
        } else if r.0 < s[0].0 {
            assert(seq![r] + s =~= s.insert(0, r));
        }
    } else {
        let t = s.drop_first();
        assert forall|a: int, b: int| 0 <= a < b < t.len() implies t[a].0 < t[b].0 by {
            assert(t[a] == s[a + 1] && t[b] == s[b + 1]);
        }
        lemma_insert_sorted_at(t, r, j - 1);
        if j < s.len() && s[j].0 == r.0 {
            assert(seq![s[0]] + t =~= s);
        } else {
            assert(seq![s[0]] + t.insert(j - 1, r) =~= s.insert(j, r));
        }
    }
}

/// Some record of the log is at `lsn`.
pub open spec fn has_lsn(s: Seq<(u64, Seq<u8>)>, lsn: u64) -> bool {
    exists|i: int| 0 <= i < s.len() && s[i].0 == lsn
}

/// No two records of `puts` share an LSN but differ in payload.
pub open spec fn lsn_consistent(puts: Seq<(u64, Seq<u8>)>) -> bool {
    forall|i: int, j: int|
        0 <= i < puts.len() && 0 <= j < puts.len() && puts[i].0 == puts[j].0 ==> puts[i] == puts[j]
}

/// Ingesting `puts` in arrival order into the log `s`.
pub open spec fn ingest(s: Seq<(u64, Seq<u8>)>, base_lsn: u64, puts: Seq<(u64, Seq<u8>)>) -> Seq<
    (u64, Seq<u8>),
>
    decreases puts.len(),
{
    if puts.len() == 0 {
        s
    } else {
        put_record(ingest(s, base_lsn, puts.drop_last()), base_lsn, puts.last())
    }
}

/// `insert_sorted` keeps the log sorted, and adds `r` exactly when its LSN is new.
pub proof fn lemma_insert_sorted_props(s: Seq<(u64, Seq<u8>)>, r: (u64, Seq<u8>))
    requires
        sorted_by_lsn(s),
    ensures
        sorted_by_lsn(insert_sorted(s, r)),
        forall|x: (u64, Seq<u8>)|
            #[trigger] insert_sorted(s, r).contains(x) <==> (s.contains(x) || (x == r && !has_lsn(
                s,
                r.0,
            ))),
    decreases s.len(),
{
    if s.len() == 0 {
        assert forall|x: (u64, Seq<u8>)| #[trigger] insert_sorted(s, r).contains(x) <==> x == r by {
            if x == r {
                assert(insert_sorted(s, r)[0] == r);
            }
        }
    } else if r.0 < s[0].0 {
        let res = seq![r] + s;
        assert forall|i: int| 0 <= i < s.len() implies s[i].0 != r.0 by {
            if i > 0 {
                assert(s[0].0 < s[i].0);
            }
        }
        assert forall|x: (u64, Seq<u8>)| #[trigger] res.contains(x) <==> (s.contains(x) || x == r) by {
            if s.contains(x) {
                let i = choose|i: int| 0 <= i < s.len() && s[i] == x;
                assert(res[i + 1] == x);
            }
            if x == r {
                assert(res[0] == x);
            }
            if res.contains(x) && x != r {
                let i = choose|i: int| 0 <= i < res.len() && res[i] == x;
                assert(s[i - 1] == x);
            }
        }
        assert forall|i: int, j: int| 0 <= i < j < res.len() implies res[i].0 < res[j].0 by {
            if i > 0 {
                assert(res[i] == s[i - 1] && res[j] == s[j - 1]);
            } else {
                assert(res[j] == s[j - 1]);
                if j > 1 {
                    assert(s[0].0 < s[j - 1].0);
                }
            }
        }
    } else if r.0 == s[0].0 {
    } else {
        let t = s.drop_first();
        assert forall|a: int, b: int| 0 <= a < b < t.len() implies t[a].0 < t[b].0 by {
            assert(t[a] == s[a + 1] && t[b] == s[b + 1]);
        }
        lemma_insert_sorted_props(t, r);
        let it = insert_sorted(t, r);
        let res = seq![s[0]] + it;
        assert(res == insert_sorted(s, r));
        assert(has_lsn(s, r.0) <==> has_lsn(t, r.0)) by {
            if has_lsn(s, r.0) {
                let i = choose|i: int| 0 <= i < s.len() && s[i].0 == r.0;
                assert(t[i - 1].0 == r.0);
            }
            if has_lsn(t, r.0) {
                let i = choose|i: int| 0 <= i < t.len() && t[i].0 == r.0;
                assert(s[i + 1].0 == r.0);
            }
        }
        assert forall|x: (u64, Seq<u8>)| #[trigger] res.contains(x) <==> (x == s[0] || it.contains(x)) by {
            if x == s[0] {
                assert(res[0] == x);
            }
            if it.contains(x) {
                let i = choose|i: int| 0 <= i < it.len() && it[i] == x;
                assert(res[i + 1] == x);
            }
            if res.contains(x) && x != s[0] {
                let i = choose|i: int| 0 <= i < res.len() && res[i] == x;
                assert(it[i - 1] == x);
            }
        }
        assert forall|x: (u64, Seq<u8>)| s.contains(x) <==> (x == s[0] || #[trigger] t.contains(x)) by {
            if s.contains(x) && x != s[0] {
                let i = choose|i: int| 0 <= i < s.len() && s[i] == x;
                assert(t[i - 1] == x);
            }
            if t.contains(x) {
                let i = choose|i: int| 0 <= i < t.len() && t[i] == x;
                assert(s[i + 1] == x);
            }
            if x == s[0] {
                assert(s[0] == x);
            }
        }
        assert forall|i: int| 0 <= i < it.len() implies s[0].0 < #[trigger] it[i].0 by {
            assert(it.contains(it[i]));
            if t.contains(it[i]) {
                let k = choose|k: int| 0 <= k < t.len() && t[k] == it[i];
                assert(s[0].0 < s[k + 1].0);
            }
        }
        assert forall|i: int, j: int| 0 <= i < j < res.len() implies res[i].0 < res[j].0 by {
            if i > 0 {
                assert(res[i] == it[i - 1] && res[j] == it[j - 1]);
            } else {
                assert(res[j] == it[j - 1]);
            }
        }
    }
}

/// Two sorted logs that hold the same records are the same log.
pub proof fn lemma_sorted_unique(s1: Seq<(u64, Seq<u8>)>, s2: Seq<(u64, Seq<u8>)>)
    requires
        sorted_by_lsn(s1),
        sorted_by_lsn(s2),
        forall|x: (u64, Seq<u8>)| s1.contains(x) <==> s2.contains(x),
    ensures
        s1 == s2,
    decreases s1.len(),
{
    if s1.len() == 0 {
        if s2.len() > 0 {
            assert(s2.contains(s2[0]));
        }
        assert(s1 =~= s2);
    } else {
        assert(s1.contains(s1[0]));
        let j = choose|j: int| 0 <= j < s2.len() && s2[j] == s1[0];
        assert(s2.contains(s2[0]));
        let k = choose|k: int| 0 <= k < s1.len() && s1[k] == s2[0];
        if j > 0 {
            assert(s2[0].0 < s2[j].0);
            if k > 0 {
                assert(s1[0].0 < s1[k].0);
            }
            assert(false);
        }
        let t1 = s1.drop_first();
        let t2 = s2.drop_first();
        assert forall|a: int, b: int| 0 <= a < b < t1.len() implies t1[a].0 < t1[b].0 by {
            assert(t1[a] == s1[a + 1] && t1[b] == s1[b + 1]);
        }
        assert forall|a: int, b: int| 0 <= a < b < t2.len() implies t2[a].0 < t2[b].0 by {
            assert(t2[a] == s2[a + 1] && t2[b] == s2[b + 1]);
        }
        assert forall|x: (u64, Seq<u8>)| t1.contains(x) <==> t2.contains(x) by {
            if t1.contains(x) {
                let i = choose|i: int| 0 <= i < t1.len() && t1[i] == x;
                assert(s1[i + 1] == x);
                assert(s1[0].0 < s1[i + 1].0);
                assert(s2.contains(x));
                let m = choose|m: int| 0 <= m < s2.len() && s2[m] == x;
                assert(m != 0);
                assert(t2[m - 1] == x);
            }
            if t2.contains(x) {
                let i = choose|i: int| 0 <= i < t2.len() && t2[i] == x;
                assert(s2[i + 1] == x);
                assert(s2[0].0 < s2[i + 1].0);
                assert(s1.contains(x));
                let m = choose|m: int| 0 <= m < s1.len() && s1[m] == x;
                assert(m != 0);
                assert(t1[m - 1] == x);
            }
        }
        lemma_sorted_unique(t1, t2);
        assert(s1 =~= seq![s1[0]] + t1);
        assert(s2 =~= seq![s2[0]] + t2);
    }
}

/// What ingesting a consistent batch leaves in the log: the records that were
/// there, and each new record that the base image does not cover and whose LSN
/// the log did not hold.
pub proof fn lemma_ingest_props(s: Seq<(u64, Seq<u8>)>, base_lsn: u64, puts: Seq<(u64, Seq<u8>)>)
    requires
        sorted_by_lsn(s),
        lsn_consistent(puts),
    ensures
        sorted_by_lsn(ingest(s, base_lsn, puts)),
        forall|x: (u64, Seq<u8>)|
            #[trigger] ingest(s, base_lsn, puts).contains(x) <==> (s.contains(x) || (puts.contains(x)
                && x.0 > base_lsn && !has_lsn(s, x.0))),
    decreases puts.len(),
{
    if puts.len() > 0 {
        let prev = puts.drop_last();
        let r = puts.last();
        assert forall|i: int, j: int|
            0 <= i < prev.len() && 0 <= j < prev.len() && prev[i].0 == prev[j].0 implies prev[i] == prev[j] by {
            assert(prev[i] == puts[i] && prev[j] == puts[j]);
        }
        lemma_ingest_props(s, base_lsn, prev);
        let mid = ingest(s, base_lsn, prev);
        assert forall|x: (u64, Seq<u8>)| puts.contains(x) <==> (#[trigger] prev.contains(x) || x == r) by {
            if puts.contains(x) && x != r {
                let i = choose|i: int| 0 <= i < puts.len() && puts[i] == x;
                assert(prev[i] == x);
            }
            if prev.contains(x) {
                let i = choose|i: int| 0 <= i < prev.len() && prev[i] == x;
                assert(puts[i] == x);
            }
            if x == r {
                assert(puts[puts.len() - 1] == x);
            }
        }
        if r.0 > base_lsn {
            lemma_insert_sorted_props(mid, r);
            assert forall|x: (u64, Seq<u8>)|
                #[trigger] ingest(s, base_lsn, puts).contains(x) <==> (s.contains(x) || (
                puts.contains(x) && x.0 > base_lsn && !has_lsn(s, x.0))) by {
                assert(ingest(s, base_lsn, puts) == insert_sorted(mid, r));
                if x == r && !has_lsn(s, r.0) && has_lsn(mid, r.0) {
                    let i = choose|i: int| 0 <= i < mid.len() && mid[i].0 == r.0;
                    assert(mid.contains(mid[i]));
                    if s.contains(mid[i]) {
                        let k = choose|k: int| 0 <= k < s.len() && s[k] == mid[i];
                        assert(s[k].0 == r.0);
                    }
                    let k = choose|k: int| 0 <= k < prev.len() && prev[k] == mid[i];
                    assert(puts[k] == mid[i]);
                    assert(puts[puts.len() - 1] == r);
                }
                if x == r && has_lsn(s, r.0) && !s.contains(r) {
                    let i = choose|i: int| 0 <= i < s.len() && s[i].0 == r.0;
                    assert(s.contains(s[i]));
                    assert(mid.contains(s[i]));
                    assert(has_lsn(mid, r.0));
                }
                if x == r && !has_lsn(s, r.0) && !has_lsn(mid, r.0) {
                } else if x == r && s.contains(x) {
                    assert(mid.contains(x));
                }
            }
        } else {
            assert(ingest(s, base_lsn, puts) == mid);
        }
    }
}

/// Order independence of ingestion: two arrival orders of the same set of
/// records, no two of which share an LSN with different payloads, leave the
/// same log behind.
pub proof fn lemma_ingest_order_independent(
    s: Seq<(u64, Seq<u8>)>,
    base_lsn: u64,
    order_a: Seq<(u64, Seq<u8>)>,
    order_b: Seq<(u64, Seq<u8>)>,
)
    requires
        sorted_by_lsn(s),
        lsn_consistent(order_a),
        forall|x: (u64, Seq<u8>)| order_a.contains(x) <==> order_b.contains(x),
    ensures
        ingest(s, base_lsn, order_a) == ingest(s, base_lsn, order_b),
{
    assert forall|i: int, j: int|
        0 <= i < order_b.len() && 0 <= j < order_b.len() && order_b[i].0 == order_b[j].0 implies order_b[i] == order_b[j] by {
        assert(order_b.contains(order_b[i]) && order_b.contains(order_b[j]));
        let a = choose|a: int| 0 <= a < order_a.len() && order_a[a] == order_b[i];
        let b = choose|b: int| 0 <= b < order_a.len() && order_a[b] == order_b[j];
    }
    lemma_ingest_props(s, base_lsn, order_a);
    lemma_ingest_props(s, base_lsn, order_b);
    let r1 = ingest(s, base_lsn, order_a);
    let r2 = ingest(s, base_lsn, order_b);
    assert forall|x: (u64, Seq<u8>)| r1.contains(x) <==> r2.contains(x) by {
        assert(r1.contains(x) <==> (s.contains(x) || (order_a.contains(x) && x.0 > base_lsn && !has_lsn(s, x.0))));
        assert(r2.contains(x) <==> (s.contains(x) || (order_b.contains(x) && x.0 > base_lsn && !has_lsn(s, x.0))));
    }
    lemma_sorted_unique(r1, r2);
}

/// The log of one page, held by the repository.
pub struct KeyLog {
    pub base_lsn: u64,
    pub base: Vec<u8>,
    pub records: Vec<WalRecord>,
}

impl KeyLog {
    pub open spec fn records_spec(&self) -> Seq<(u64, Seq<u8>)> {
        records_view(self.records@)
    }

    /// The log is sorted by LSN and newer than its base image.
    pub open spec fn wf(&self) -> bool {
        sorted_by_lsn(self.records_spec()) && all_after(self.records_spec(), self.base_lsn)
    }

    /// Ingests one record; a duplicate LSN, or one the base image covers, is a no-op.
    pub fn put(&mut self, lsn: u64, payload: Vec<u8>)
        requires
            old(self).wf(),
        ensures
            final(self).wf(),
            final(self).base_lsn == old(self).base_lsn,
            final(self).base@ == old(self).base@,
            final(self).records_spec() == put_record(
                old(self).records_spec(),
                old(self).base_lsn,
                (lsn, payload@),
            ),
    {
        if lsn <= self.base_lsn {
            return;
        }
        let ghost s = self.records_spec();
        let mut j: usize = 0;
        while j < self.records.len() && self.records[j].lsn < lsn
            invariant
                s == self.records_spec(),
                0 <= j <= self.records@.len(),
                forall|i: int| 0 <= i < j ==> s[i].0 < lsn,
            decreases self.records@.len() - j,
        {
            j = j + 1;
        }
        let ghost r = (lsn, payload@);
        proof {
            lemma_insert_sorted_at(s, r, j as int);
        }
        if j < self.records.len() && self.records[j].lsn == lsn {
            return;
        }
        self.records.insert(j, WalRecord { lsn, payload });
        assert(self.records_spec() =~= s.insert(j as int, r));
    }
}

} // verus!

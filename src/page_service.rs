//! The page service protocol: request frames, their dispatch to the
//! repository, and response frames.
//!
//! A frame is a 4-byte big-endian body length followed by the body. A request
//! body is 17 bytes: the operation (0 `GetPage`, 1 `Exists`, 2 `GetRelSize`,
//! 3 `BaseBackup`), the relation (4 bytes), the block (4 bytes) and the LSN
//! (8 bytes). Any other length or operation is a malformed frame, which ends
//! the connection. A response body starts with a tag: 0 a page image, 1 a
//! flag byte, 2 an 8-byte size, 3 a backup (a 4-byte page count, then for
//! each page its relation, block and image length in 4 bytes each and the
//! image), 4 an error kind byte.
use vstd::prelude::*;
use crate::redo::{RedoError, WalRecord, records_view, replay, replay_spec};
use crate::repository::{
    PageError,
    PageKey,
    RepoState,
    Repository,
    is_rel_size,
    page_spec,
    rel_exists_spec,
};
use crate::wire::{be_bytes, be_value, read_be, push_be};

verus! {

/// The length of a request body.
pub const REQUEST_BODY: usize = 17;

/// A request's operation.
#[derive(Clone, Copy, Debug, PartialEq, Eq, Structural)]
pub enum Operation {
    GetPage,
    Exists,
    GetRelSize,
    BaseBackup,
}

/// A parsed request.
#[derive(Clone, Copy, Debug, PartialEq, Eq, Structural)]
pub struct Request {
    pub op: Operation,
    pub key: PageKey,
    pub lsn: u64,
}

/// The outcome of parsing the frame at some position.
#[derive(Clone, Copy, Debug, PartialEq, Eq, Structural)]
pub enum RequestParse {
    /// More bytes are needed.
    Incomplete,
    /// The frame is not a request: drop the connection.
    Malformed,
    /// A request; the next frame starts at `next`.
    Parsed { req: Request, next: usize },
}

pub open spec fn op_spec(b: u8) -> Option<Operation> {
    if b == 0 {
        Some(Operation::GetPage)
    } else if b == 1 {
        Some(Operation::Exists)
    } else if b == 2 {
        Some(Operation::GetRelSize)
    } else if b == 3 {
        Some(Operation::BaseBackup)
    } else {
        None
    }
}

/// The request frame at `at`.
pub open spec fn request_spec(s: Seq<u8>, at: int) -> RequestParse {
    if at + 4 > s.len() {
        RequestParse::Incomplete
    } else if be_value(s.subrange(at, at + 4)) != 17 {
        RequestParse::Malformed
    } else if at + 4 + 17 > s.len() {
        RequestParse::Incomplete
    } else {
        match op_spec(s[at + 4]) {
            None => RequestParse::Malformed,
            Some(op) => RequestParse::Parsed {
                req: Request {
                    op,
                    key: PageKey {
                        rel: be_value(s.subrange(at + 5, at + 9)) as u32,
                        block: be_value(s.subrange(at + 9, at + 13)) as u32,
                    },
                    lsn: be_value(s.subrange(at + 13, at + 21)) as u64,
                },
                next: (at + 21) as usize,
            },
        }
    }
}

/// Parses the request frame that starts at `at`.
pub fn parse_request(buf: &Vec<u8>, at: usize) -> (r: RequestParse)
    requires
        at <= buf@.len(),
    ensures
        r == request_spec(buf@, at as int),
{
    if buf.len() - at < 4 {
        return RequestParse::Incomplete;
    }
    let len = read_be(buf, at, 4);
    if len != REQUEST_BODY as u64 {
        return RequestParse::Malformed;
    }
    if buf.len() - at - 4 < REQUEST_BODY {
        return RequestParse::Incomplete;
    }
    let op = match buf[at + 4] {
        0 => Operation::GetPage,
        1 => Operation::Exists,
        2 => Operation::GetRelSize,
        3 => Operation::BaseBackup,
        _ => return RequestParse::Malformed,
    };
    let rel = read_be(buf, at + 5, 4);
    let block = read_be(buf, at + 9, 4);
    let lsn = read_be(buf, at + 13, 8);
    proof {
        crate::wire::lemma_be_value_bound(buf@.subrange(at + 5, at + 9));
        crate::wire::lemma_be_value_bound(buf@.subrange(at + 9, at + 13));
        reveal_with_fuel(crate::wire::pow256, 5);
    }
    RequestParse::Parsed {
        req: Request { op, key: PageKey { rel: rel as u32, block: block as u32 }, lsn },
        next: at + 4 + REQUEST_BODY,
    }
}

/// A response to one request.
pub enum Response {
    Page(Vec<u8>),
    Exists(bool),
    RelSize(u64),
    Backup(Vec<(PageKey, Vec<u8>)>),
    Error(PageError),
}

/// The answer owed to `req` on a repository in state `st`.
pub open spec fn response_ok(st: RepoState, req: Request, resp: Response) -> bool {
    match req.op {
        Operation::GetPage => match page_spec(st, req.key, req.lsn) {
            Ok(img) => resp matches Response::Page(p) && p@ == img,
            Err(e) => resp == Response::Error(e),
        },
        Operation::Exists => resp == Response::Exists(rel_exists_spec(st, req.key.rel)),
        Operation::GetRelSize => resp matches Response::RelSize(n) && is_rel_size(st, req.key.rel, n),
        Operation::BaseBackup => if forall|k: PageKey| #[trigger] st.keys.contains_key(k) ==> page_spec(st, k, req.lsn) is Ok {
            resp matches Response::Backup(v) && {
                &&& forall|i: int| 0 <= i < v@.len() ==> #[trigger] st.keys.contains_key(v@[i].0)
                    && page_spec(st, v@[i].0, req.lsn) == Ok::<Seq<u8>, PageError>(v@[i].1@)
                &&& forall|k: PageKey| #[trigger] st.keys.contains_key(k) ==> exists|i: int|
                    0 <= i < v@.len() && v@[i].0 == k
                &&& forall|i: int, j: int| 0 <= i < j < v@.len() ==> v@[i].0 != v@[j].0
            }
        } else {
            resp matches Response::Error(e) && exists|k: PageKey|
                #[trigger] st.keys.contains_key(k) && page_spec(st, k, req.lsn) == Err::<Seq<u8>, PageError>(e)
        },
    }
}

/// Serves one request against the repository.
pub fn handle_request(repo: &Repository, req: Request) -> (r: Response)
    requires
        repo.wf(),
    ensures
        response_ok(repo@, req, r),
{
    match req.op {
        Operation::GetPage => match repo.get_page(req.key, req.lsn) {
            Ok(img) => Response::Page(img),
            Err(e) => Response::Error(e),
        },
        Operation::Exists => Response::Exists(repo.rel_exists(req.key.rel)),
        Operation::GetRelSize => Response::RelSize(repo.rel_size(req.key.rel)),
        Operation::BaseBackup => match repo.base_backup(req.lsn) {
            Ok(v) => Response::Backup(v),
            Err(e) => Response::Error(e),
        },
    }
}

/// Finishes a page query from the inputs that `Repository::page_inputs`
/// copied out: replays them up to `lsn`.
pub fn page_from_inputs(base: &Vec<u8>, records: &Vec<WalRecord>, lsn: u64) -> (r: Response)
    ensures
        match replay_spec(base@, records_view(records@), lsn) {
            Some(p) => r matches Response::Page(img) && img@ == p,
            None => r == Response::Error(PageError::Redo(RedoError::MalformedRecord)),
        },
{
    match replay(base, records, lsn) {
        Ok(img) => Response::Page(img),
        Err(_) => Response::Error(PageError::Redo(RedoError::MalformedRecord)),
    }
}

/// What a connection worker does with a request past the watermark.
#[derive(Clone, Copy, Debug, PartialEq, Eq, Structural)]
pub enum WaitDecision {
    /// The watermark reached the LSN: serve the request again.
    Retry,
    /// Keep waiting for the watermark.
    KeepWaiting,
    /// The wait bound is spent: answer `ConsistencyTimeout`.
    GiveUp,
}

/// The bounded wait for the watermark: retry once it reaches the requested
/// LSN, give up once `waited_ms` reaches `timeout_ms`.
pub fn wait_decision(requested: u64, watermark: u64, waited_ms: u64, timeout_ms: u64) -> (r:
    WaitDecision)
    ensures
        requested <= watermark ==> r == WaitDecision::Retry,
        requested > watermark && waited_ms < timeout_ms ==> r == WaitDecision::KeepWaiting,
        requested > watermark && waited_ms >= timeout_ms ==> r == WaitDecision::GiveUp,
{
    if requested <= watermark {
        WaitDecision::Retry
    } else if waited_ms < timeout_ms {
        WaitDecision::KeepWaiting
    } else {
        WaitDecision::GiveUp
    }
}

/// The code of an error kind on the wire.
pub open spec fn error_code_spec(e: PageError) -> u8 {
    match e {
        PageError::NotFound => 1,
        PageError::LsnTooOld => 2,
        PageError::NotYetConsistent => 3,
        PageError::ConsistencyTimeout => 4,
        PageError::Redo(RedoError::MalformedRecord) => 5,
        PageError::Redo(RedoError::WorkerFailed) => 6,
    }
}

/// The code of an error kind on the wire.
pub fn error_code(e: PageError) -> (r: u8)
    ensures
        r == error_code_spec(e),
{
    match e {
        PageError::NotFound => 1,
        PageError::LsnTooOld => 2,
        PageError::NotYetConsistent => 3,
        PageError::ConsistencyTimeout => 4,
        PageError::Redo(RedoError::MalformedRecord) => 5,
        PageError::Redo(RedoError::WorkerFailed) => 6,
    }
}

/// The encoding of backup pages, in order.
pub open spec fn backup_pages_spec(v: Seq<(PageKey, Vec<u8>)>) -> Seq<u8>
    decreases v.len(),
{
    if v.len() == 0 {
        Seq::empty()
    } else {
        let p = v.last();
        backup_pages_spec(v.drop_last()) + be_bytes(p.0.rel as nat, 4) + be_bytes(p.0.block as nat, 4)
            + be_bytes(p.1@.len(), 4) + p.1@
    }
}

/// The body of a response.
pub open spec fn response_body(resp: Response) -> Seq<u8> {
    match resp {
        Response::Page(p) => seq![0u8] + p@,
        Response::Exists(b) => seq![1u8, if b { 1u8 } else { 0u8 }],
        Response::RelSize(n) => seq![2u8] + be_bytes(n as nat, 8),
        Response::Backup(v) => seq![3u8] + be_bytes(v@.len(), 4) + backup_pages_spec(v@),
        Response::Error(e) => seq![4u8, error_code_spec(e)],
    }
}

fn push_all(out: &mut Vec<u8>, src: &Vec<u8>)
    ensures
        final(out)@ == old(out)@ + src@,
{
    let mut i: usize = 0;
    while i < src.len()
        invariant
            0 <= i <= src@.len(),
            out@ == old(out)@ + src@.subrange(0, i as int),
        decreases src@.len() - i,
    {
        out.push(src[i]);
        i = i + 1;
        assert(out@ =~= old(out)@ + src@.subrange(0, i as int));
    }
    assert(src@.subrange(0, i as int) =~= src@);
}

/// Frames a response: the body length, then the body. Image lengths, page
/// counts and the body length each take 4 bytes, so they must stay below 2^32.
pub fn encode_response(resp: &Response) -> (r: Vec<u8>)
    requires
        response_body(*resp).len() <= u32::MAX,
    ensures
        r@ == be_bytes(response_body(*resp).len(), 4) + response_body(*resp),
{
    let mut body: Vec<u8> = Vec::new();
    match resp {
        Response::Page(p) => {
            body.push(0);
            push_all(&mut body, p);
            assert(body@ =~= seq![0u8] + p@);
        },
        Response::Exists(b) => {
            body.push(1);
            body.push(if *b { 1 } else { 0 });
            assert(body@ =~= seq![1u8, if *b { 1u8 } else { 0u8 }]);
        },
        Response::RelSize(n) => {
            body.push(2);
            push_be(&mut body, *n, 8);
        },
        Response::Backup(v) => {
            body.push(3);
            push_be(&mut body, v.len() as u64, 4);
            let ghost head = body@;
            let mut i: usize = 0;
            while i < v.len()
                invariant
                    0 <= i <= v@.len(),
                    body@ == head + backup_pages_spec(v@.subrange(0, i as int)),
                decreases v@.len() - i,
            {
                let (key, img) = &v[i];
                push_be(&mut body, key.rel as u64, 4);
                push_be(&mut body, key.block as u64, 4);
                push_be(&mut body, img.len() as u64, 4);
                push_all(&mut body, img);
                proof {
                    let w = v@.subrange(0, i + 1);
                    assert(w.drop_last() =~= v@.subrange(0, i as int));
                    assert(body@ =~= head + backup_pages_spec(w));
                }
                i = i + 1;
            }
            assert(v@.subrange(0, i as int) =~= v@);
            assert(body@ =~= seq![3u8] + be_bytes(v@.len(), 4) + backup_pages_spec(v@));
        },
        Response::Error(e) => {
            body.push(4);
            body.push(error_code(*e));
            assert(body@ =~= seq![4u8, error_code_spec(*e)]);
        },
    }
    assert(body@ == response_body(*resp));
    let mut out: Vec<u8> = Vec::new();
    push_be(&mut out, body.len() as u64, 4);
    push_all(&mut out, &body);
    assert(out@ =~= be_bytes(response_body(*resp).len(), 4) + response_body(*resp));
    out
}

} // verus!

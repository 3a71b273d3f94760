use pageserver::config::{validate_modes, ConfigError, RunModes};
use pageserver::page_service::{
    encode_response, handle_request, parse_request, wait_decision, Operation, Request, RequestParse, Response,
    WaitDecision,
};
use pageserver::repository::{PageError, PageKey, Repository};

fn request_frame(op: u8, rel: u32, block: u32, lsn: u64) -> Vec<u8> {
    let mut f = 17u32.to_be_bytes().to_vec();
    f.push(op);
    f.extend_from_slice(&rel.to_be_bytes());
    f.extend_from_slice(&block.to_be_bytes());
    f.extend_from_slice(&lsn.to_be_bytes());
    f
}

#[test]
fn parse_request_reads_fields() {
    let mut buf = request_frame(0, 7, 8, 1000);
    buf.extend_from_slice(&request_frame(3, 0, 0, 5));
    match parse_request(&buf, 0) {
        RequestParse::Parsed { req, next } => {
            assert_eq!(req, Request { op: Operation::GetPage, key: PageKey { rel: 7, block: 8 }, lsn: 1000 });
            assert_eq!(next, 21);
            match parse_request(&buf, next) {
                RequestParse::Parsed { req, next } => {
                    assert_eq!(req.op, Operation::BaseBackup);
                    assert_eq!(req.lsn, 5);
                    assert_eq!(next, 42);
                }
                _ => panic!("the pipelined request parses"),
            }
        }
        _ => panic!("a whole request parses"),
    }
}

#[test]
fn parse_request_edges() {
    let f = request_frame(1, 0, 0, 0);
    assert_eq!(parse_request(&f[..20].to_vec(), 0), RequestParse::Incomplete);
    assert_eq!(parse_request(&vec![0, 0], 0), RequestParse::Incomplete);
    assert_eq!(parse_request(&request_frame(9, 0, 0, 0), 0), RequestParse::Malformed);
    assert_eq!(parse_request(&vec![0, 0, 0, 3, 1, 1, 1], 0), RequestParse::Malformed);
}

#[test]
fn handle_request_dispatches() {
    let k = PageKey { rel: 2, block: 1 };
    let mut repo = Repository::new();
    repo.load_base_image(k, 0, vec![0u8; 2]);
    repo.put(k, 4, vec![0, 1, 3]);
    repo.advance_consistent_lsn(4);
    match handle_request(&repo, Request { op: Operation::GetPage, key: k, lsn: 4 }) {
        Response::Page(p) => assert_eq!(p, vec![0, 3]),
        _ => panic!("page expected"),
    }
    match handle_request(&repo, Request { op: Operation::GetPage, key: k, lsn: 9 }) {
        Response::Error(e) => assert_eq!(e, PageError::NotYetConsistent),
        _ => panic!("wait expected"),
    }
    match handle_request(&repo, Request { op: Operation::Exists, key: PageKey { rel: 3, block: 0 }, lsn: 0 }) {
        Response::Exists(b) => assert!(!b),
        _ => panic!("flag expected"),
    }
    match handle_request(&repo, Request { op: Operation::GetRelSize, key: k, lsn: 0 }) {
        Response::RelSize(n) => assert_eq!(n, 2),
        _ => panic!("size expected"),
    }
    match handle_request(&repo, Request { op: Operation::BaseBackup, key: k, lsn: 4 }) {
        Response::Backup(v) => assert_eq!(v, vec![(k, vec![0, 3])]),
        _ => panic!("backup expected"),
    }
}

#[test]
fn encode_response_frames() {
    assert_eq!(encode_response(&Response::Page(vec![5, 6])), vec![0, 0, 0, 3, 0, 5, 6]);
    assert_eq!(encode_response(&Response::Exists(true)), vec![0, 0, 0, 2, 1, 1]);
    assert_eq!(encode_response(&Response::RelSize(258)), vec![0, 0, 0, 9, 2, 0, 0, 0, 0, 0, 0, 1, 2]);
    assert_eq!(
        encode_response(&Response::Error(PageError::ConsistencyTimeout)),
        vec![0, 0, 0, 2, 4, 4]
    );
    assert_eq!(encode_response(&Response::Error(PageError::LsnTooOld)), vec![0, 0, 0, 2, 4, 2]);
    let backup = Response::Backup(vec![(PageKey { rel: 1, block: 2 }, vec![9])]);
    assert_eq!(
        encode_response(&backup),
        vec![0, 0, 0, 18, 3, 0, 0, 0, 1, 0, 0, 0, 1, 0, 0, 0, 2, 0, 0, 0, 1, 9]
    );
}

#[test]
fn wait_then_serve() {
    let k = PageKey { rel: 1, block: 0 };
    let mut repo = Repository::new();
    repo.load_base_image(k, 0, vec![0u8; 1]);
    repo.advance_consistent_lsn(500);
    assert_eq!(repo.get_page(k, 1000), Err(PageError::NotYetConsistent));
    assert_eq!(wait_decision(1000, repo.consistent_lsn(), 10, 5000), WaitDecision::KeepWaiting);
    repo.put(k, 1000, vec![0, 0, 8]);
    repo.advance_consistent_lsn(1000);
    assert_eq!(wait_decision(1000, repo.consistent_lsn(), 20, 5000), WaitDecision::Retry);
    assert_eq!(repo.get_page(k, 1000).unwrap(), vec![8]);
}

#[test]
fn wait_gives_up_at_timeout() {
    assert_eq!(wait_decision(10, 5, 5000, 5000), WaitDecision::GiveUp);
    assert_eq!(wait_decision(5, 5, 9999, 10), WaitDecision::Retry);
}

#[test]
fn daemonize_excludes_interactive() {
    let both = RunModes { daemonize: true, interactive: true, skip_recovery: false };
    assert_eq!(validate_modes(both), Err(ConfigError::DaemonizeWithInteractive));
    assert_eq!(
        ConfigError::DaemonizeWithInteractive.message(),
        "--daemonize is not allowed with --interactive: choose one"
    );
    let one = RunModes { daemonize: true, interactive: false, skip_recovery: true };
    assert_eq!(validate_modes(one), Ok(one));
}

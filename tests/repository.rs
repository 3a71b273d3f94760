use pageserver::page_service::{page_from_inputs, Response};
use pageserver::redo::RedoError;
use pageserver::repository::{PageError, PageKey, Repository, PAGE_SIZE};

fn key(rel: u32, block: u32) -> PageKey {
    PageKey { rel, block }
}

fn set_byte(off: u16, v: u8) -> Vec<u8> {
    vec![(off >> 8) as u8, (off & 0xff) as u8, v]
}

#[test]
fn replay_picks_records_up_to_lsn() {
    let k = key(1, 0);
    let mut repo = Repository::new();
    assert!(repo.load_base_image(k, 0, vec![0u8; 16]));
    repo.put(k, 10, set_byte(0, 1));
    repo.put(k, 20, set_byte(0, 2));
    repo.advance_consistent_lsn(25);
    let p15 = repo.get_page(k, 15).unwrap();
    assert_eq!(p15[0], 1);
    assert_eq!(p15.len(), 16);
    let p25 = repo.get_page(k, 25).unwrap();
    assert_eq!(p25[0], 2);
    assert_eq!(repo.get_page(k, 5).unwrap(), vec![0u8; 16]);
}

#[test]
fn put_creates_zero_page_for_new_key() {
    let k = key(2, 3);
    let mut repo = Repository::new();
    repo.put(k, 7, vec![0, 5, 9, 8]);
    repo.advance_consistent_lsn(7);
    let p = repo.get_page(k, 7).unwrap();
    assert_eq!(p.len(), PAGE_SIZE);
    assert_eq!(p[5], 9);
    assert_eq!(p[6], 8);
    assert_eq!(p[4], 0);
    assert_eq!(repo.last_received_lsn(), 7);
}

#[test]
fn query_of_unknown_key_is_not_found() {
    let repo = Repository::new();
    assert_eq!(repo.get_page(key(9, 9), 0), Err(PageError::NotFound));
}

#[test]
fn query_waits_for_watermark() {
    let k = key(1, 1);
    let mut repo = Repository::new();
    repo.load_base_image(k, 0, vec![0u8; 4]);
    repo.put(k, 400, set_byte(1, 4));
    repo.advance_consistent_lsn(500);
    repo.put(k, 900, set_byte(1, 9));
    assert_eq!(repo.get_page(k, 1000), Err(PageError::NotYetConsistent));
    repo.advance_consistent_lsn(1000);
    assert_eq!(repo.get_page(k, 1000).unwrap(), vec![0, 9, 0, 0]);
}

#[test]
fn watermark_never_moves_back() {
    let mut repo = Repository::new();
    repo.advance_consistent_lsn(50);
    repo.advance_consistent_lsn(20);
    assert_eq!(repo.consistent_lsn(), 50);
}

#[test]
fn read_your_write() {
    let k = key(4, 0);
    let mut repo = Repository::new();
    repo.load_base_image(k, 0, vec![1, 1, 1]);
    repo.put(k, 30, set_byte(2, 7));
    repo.advance_consistent_lsn(30);
    assert_eq!(repo.get_page(k, 30).unwrap(), vec![1, 1, 7]);
}

#[test]
fn arrival_order_does_not_matter() {
    let k = key(5, 0);
    let recs: Vec<(u64, Vec<u8>)> = vec![
        (10, set_byte(0, 1)),
        (20, set_byte(1, 2)),
        (30, set_byte(0, 3)),
    ];
    let mut a = Repository::new();
    let mut b = Repository::new();
    a.load_base_image(k, 0, vec![0u8; 4]);
    b.load_base_image(k, 0, vec![0u8; 4]);
    for (l, p) in recs.iter() {
        a.put(k, *l, p.clone());
    }
    for (l, p) in recs.iter().rev() {
        b.put(k, *l, p.clone());
    }
    a.advance_consistent_lsn(30);
    b.advance_consistent_lsn(30);
    for l in [0u64, 10, 15, 20, 25, 30] {
        assert_eq!(a.get_page(k, l), b.get_page(k, l));
    }
    assert_eq!(a.get_page(k, 30).unwrap(), vec![3, 2, 0, 0]);
    assert_eq!(a.last_received_lsn(), b.last_received_lsn());
}

#[test]
fn duplicate_put_is_a_no_op() {
    let k = key(5, 1);
    let mut repo = Repository::new();
    repo.load_base_image(k, 0, vec![0u8; 2]);
    repo.put(k, 10, set_byte(0, 1));
    repo.put(k, 10, set_byte(0, 8));
    repo.advance_consistent_lsn(10);
    assert_eq!(repo.get_page(k, 10).unwrap(), vec![1, 0]);
}

#[test]
fn query_is_deterministic() {
    let k = key(6, 0);
    let mut repo = Repository::new();
    repo.load_base_image(k, 0, vec![5u8; 8]);
    repo.put(k, 3, set_byte(7, 1));
    repo.advance_consistent_lsn(3);
    assert_eq!(repo.get_page(k, 3), repo.get_page(k, 3));
}

#[test]
fn base_image_bounds_retention() {
    let k = key(7, 0);
    let mut repo = Repository::new();
    repo.load_base_image(k, 100, vec![0u8; 2]);
    repo.advance_consistent_lsn(200);
    assert_eq!(repo.get_page(k, 50), Err(PageError::LsnTooOld));
    assert_eq!(repo.get_page(k, 100).unwrap(), vec![0, 0]);
    assert!(!repo.load_base_image(k, 0, vec![1u8; 2]));
}

#[test]
fn malformed_record_is_a_redo_error() {
    let k = key(8, 0);
    let mut repo = Repository::new();
    repo.load_base_image(k, 0, vec![0u8; 2]);
    repo.put(k, 5, set_byte(9, 1));
    repo.advance_consistent_lsn(5);
    assert_eq!(repo.get_page(k, 4).unwrap(), vec![0, 0]);
    assert_eq!(repo.get_page(k, 5), Err(PageError::Redo(RedoError::MalformedRecord)));
}

#[test]
fn compaction_keeps_images_in_window() {
    let k = key(9, 0);
    let mut repo = Repository::new();
    repo.load_base_image(k, 0, vec![0u8; 3]);
    repo.put(k, 10, set_byte(0, 1));
    repo.put(k, 20, set_byte(1, 2));
    repo.put(k, 30, set_byte(2, 3));
    repo.advance_consistent_lsn(20);
    let before20 = repo.get_page(k, 20);
    assert_eq!(repo.compact(k, 5), Ok(false));
    assert_eq!(repo.compact(k, 2), Ok(true));
    assert_eq!(repo.get_page(k, 20), before20);
    assert_eq!(repo.get_page(k, 10), Err(PageError::LsnTooOld));
    repo.advance_consistent_lsn(30);
    assert_eq!(repo.get_page(k, 30).unwrap(), vec![1, 2, 3]);
    // A record that the new base image covers is ignored on resend.
    repo.put(k, 10, set_byte(0, 9));
    assert_eq!(repo.get_page(k, 30).unwrap(), vec![1, 2, 3]);
    assert_eq!(repo.compact(key(1, 1), 0), Err(PageError::NotFound));
}

#[test]
fn compaction_reports_malformed_history() {
    let k = key(9, 1);
    let mut repo = Repository::new();
    repo.load_base_image(k, 0, vec![0u8; 1]);
    repo.put(k, 10, set_byte(4, 1));
    repo.advance_consistent_lsn(10);
    assert_eq!(repo.compact(k, 0), Err(PageError::Redo(RedoError::MalformedRecord)));
}

#[test]
fn relation_queries() {
    let mut repo = Repository::new();
    repo.put(key(3, 0), 1, vec![0, 0]);
    repo.put(key(3, 4), 2, vec![0, 0]);
    repo.put(key(8, 1), 3, vec![0, 0]);
    assert!(repo.rel_exists(3));
    assert!(!repo.rel_exists(4));
    assert_eq!(repo.rel_size(3), 5);
    assert_eq!(repo.rel_size(8), 2);
    assert_eq!(repo.rel_size(4), 0);
}

#[test]
fn base_backup_lists_every_page() {
    let mut repo = Repository::new();
    repo.load_base_image(key(1, 0), 0, vec![0u8; 2]);
    repo.load_base_image(key(1, 1), 0, vec![0u8; 2]);
    repo.put(key(1, 1), 5, set_byte(1, 6));
    repo.advance_consistent_lsn(5);
    let pages = repo.base_backup(5).unwrap();
    assert_eq!(pages.len(), 2);
    assert!(pages.contains(&(key(1, 0), vec![0, 0])));
    assert!(pages.contains(&(key(1, 1), vec![0, 6])));
    assert_eq!(repo.base_backup(6), Err(PageError::NotYetConsistent));
}

#[test]
fn keys_lists_each_key_once() {
    let mut repo = Repository::new();
    repo.put(key(1, 0), 1, vec![0, 0]);
    repo.put(key(1, 0), 2, vec![0, 0]);
    repo.put(key(2, 5), 3, vec![0, 0]);
    let mut ks = repo.keys();
    ks.sort();
    assert_eq!(ks, vec![key(1, 0), key(2, 5)]);
    assert!(Repository::new().keys().is_empty());
}

#[test]
fn page_inputs_then_replay_matches_get_page() {
    let k = key(3, 3);
    let mut repo = Repository::new();
    repo.load_base_image(k, 0, vec![0u8; 3]);
    repo.put(k, 10, set_byte(1, 4));
    repo.put(k, 20, set_byte(2, 5));
    repo.advance_consistent_lsn(20);
    let (base, recs) = repo.page_inputs(k, 15).unwrap();
    match page_from_inputs(&base, &recs, 15) {
        Response::Page(p) => assert_eq!(p, repo.get_page(k, 15).unwrap()),
        _ => panic!("page expected"),
    }
    assert_eq!(repo.page_inputs(k, 21).err(), Some(PageError::NotYetConsistent));
    assert_eq!(repo.page_inputs(key(0, 0), 1).err(), Some(PageError::NotFound));
    match page_from_inputs(&vec![0u8; 1], &recs, 20) {
        Response::Error(e) => assert_eq!(e, PageError::Redo(RedoError::MalformedRecord)),
        _ => panic!("malformed expected"),
    }
}

#[test]
fn compaction_happens_when_policy_applies() {
    let k = key(9, 2);
    let mut repo = Repository::new();
    repo.load_base_image(k, 0, vec![0u8; 2]);
    repo.put(k, 10, set_byte(0, 1));
    repo.put(k, 20, set_byte(1, 2));
    repo.advance_consistent_lsn(10);
    assert_eq!(repo.compact(k, 1), Ok(true));
    assert_eq!(repo.get_page(k, 5), Err(PageError::LsnTooOld));
    assert_eq!(repo.get_page(k, 10).unwrap(), vec![1, 0]);
    assert_eq!(repo.compact(k, 1), Ok(false));
}

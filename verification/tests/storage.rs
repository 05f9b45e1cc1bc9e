use aerokv::error::Error;
use aerokv::storage::engine::{DiskClient, KeyBound};

fn empty_store() -> DiskClient {
    DiskClient::new(Vec::new()).unwrap()
}

fn ok_items(items: Vec<Result<(Vec<u8>, Vec<u8>), Error>>) -> Vec<(Vec<u8>, Vec<u8>)> {
    items.into_iter().map(|r| r.unwrap()).collect()
}

#[test]
fn read_after_write_gives_the_value() {
    let mut db = empty_store();
    db.set(b"a".to_vec(), b"1".to_vec()).unwrap();
    db.set(b"b".to_vec(), b"2".to_vec()).unwrap();
    assert_eq!(db.get(b"a".to_vec()).unwrap(), Some(b"1".to_vec()));
    assert_eq!(db.get(b"b".to_vec()).unwrap(), Some(b"2".to_vec()));
    assert_eq!(db.get(b"c".to_vec()).unwrap(), None);
}

#[test]
fn last_write_wins() {
    let mut db = empty_store();
    db.set(b"k".to_vec(), b"old".to_vec()).unwrap();
    db.set(b"k".to_vec(), b"new".to_vec()).unwrap();
    assert_eq!(db.get(b"k".to_vec()).unwrap(), Some(b"new".to_vec()));
    assert_eq!(db.count().unwrap(), 1);
}

#[test]
fn read_after_delete_gives_nothing() {
    let mut db = empty_store();
    db.set(b"k".to_vec(), b"v".to_vec()).unwrap();
    db.delete(b"k".to_vec()).unwrap();
    assert_eq!(db.get(b"k".to_vec()).unwrap(), None);
    assert_eq!(db.count().unwrap(), 0);
    // deleting an absent key still succeeds
    db.delete(b"absent".to_vec()).unwrap();
}

#[test]
fn log_bytes_follow_the_entry_format() {
    let mut db = empty_store();
    db.set(b"ab".to_vec(), b"xyz".to_vec()).unwrap();
    db.delete(b"ab".to_vec()).unwrap();
    let expected: Vec<u8> = vec![
        0, 0, 0, 2, 0, 0, 0, 3, b'a', b'b', b'x', b'y', b'z', // set
        0, 0, 0, 2, 0xff, 0xff, 0xff, 0xff, b'a', b'b', // delete
    ];
    assert_eq!(db.log_data().clone(), expected);
}

#[test]
fn reopening_the_log_restores_the_store() {
    let mut db = empty_store();
    db.set(b"x".to_vec(), b"1".to_vec()).unwrap();
    db.set(b"y".to_vec(), b"2".to_vec()).unwrap();
    db.delete(b"x".to_vec()).unwrap();
    db.set(b"z".to_vec(), b"3".to_vec()).unwrap();
    let reopened = DiskClient::new(db.log_data().clone()).unwrap();
    assert_eq!(reopened.get_keys().unwrap(), vec![b"y".to_vec(), b"z".to_vec()]);
    assert_eq!(reopened.get(b"y".to_vec()).unwrap(), Some(b"2".to_vec()));
    assert_eq!(reopened.get(b"x".to_vec()).unwrap(), None);
}

#[test]
fn a_cut_header_is_refused() {
    assert!(DiskClient::new(vec![0, 0, 0]).is_err());
    // a key longer than what follows
    assert!(DiskClient::new(vec![0, 0, 0, 9, 0, 0, 0, 0, b'a']).is_err());
}

#[test]
fn a_value_past_the_end_reads_as_an_error() {
    // header says 5 value bytes, only 1 present
    let data = vec![0, 0, 0, 1, 0, 0, 0, 5, b'k', b'v'];
    let db = DiskClient::new(data).unwrap();
    assert!(matches!(db.get(b"k".to_vec()), Err(Error::IoError(_))));
    let items = db.scan(KeyBound::Unbounded, KeyBound::Unbounded);
    assert_eq!(items.len(), 1);
    assert!(matches!(items[0], Err(Error::IoError(_))));
}

#[test]
fn scan_honours_both_bounds() {
    let mut db = empty_store();
    for k in [b"a", b"b", b"c", b"d"] {
        db.set(k.to_vec(), k.to_vec()).unwrap();
    }
    let items = ok_items(db.scan(KeyBound::Included(b"b".to_vec()), KeyBound::Excluded(b"d".to_vec())));
    assert_eq!(items, vec![(b"b".to_vec(), b"b".to_vec()), (b"c".to_vec(), b"c".to_vec())]);
    let items = ok_items(db.scan(KeyBound::Excluded(b"a".to_vec()), KeyBound::Included(b"c".to_vec())));
    assert_eq!(items.iter().map(|p| p.0.clone()).collect::<Vec<_>>(), vec![b"b".to_vec(), b"c".to_vec()]);
    let all = ok_items(db.scan(KeyBound::Unbounded, KeyBound::Unbounded));
    assert_eq!(all.len(), 4);
}

#[test]
fn scan_prefix_keeps_the_keys_that_start_with_the_prefix() {
    let mut db = empty_store();
    for k in [&b"ab"[..], b"abc", b"abd", b"ac", b"b", &[b'a', 0xff][..], &[b'a', 0xff, 1][..]] {
        db.set(k.to_vec(), b"v".to_vec()).unwrap();
    }
    let keys: Vec<Vec<u8>> = ok_items(db.scan_prefix(b"ab".to_vec())).into_iter().map(|p| p.0).collect();
    assert_eq!(keys, vec![b"ab".to_vec(), b"abc".to_vec(), b"abd".to_vec()]);
    let keys: Vec<Vec<u8>> = ok_items(db.scan_prefix(vec![b'a', 0xff])).into_iter().map(|p| p.0).collect();
    assert_eq!(keys, vec![vec![b'a', 0xff], vec![b'a', 0xff, 1]]);
    assert_eq!(db.scan_prefix(b"z".to_vec()).len(), 0);
}

#[test]
fn page_skips_offset_keys_and_takes_limit() {
    let mut db = empty_store();
    for k in [b"a", b"b", b"c", b"d", b"e"] {
        db.set(k.to_vec(), k.to_vec()).unwrap();
    }
    let page = db.page(2, 1).unwrap();
    assert_eq!(page, vec![(b"b".to_vec(), b"b".to_vec()), (b"c".to_vec(), b"c".to_vec())]);
    assert_eq!(db.page(10, 3).unwrap().len(), 2);
    assert_eq!(db.page(2, 5).unwrap().len(), 0);
}

#[test]
fn compaction_keeps_the_live_pairs_only() {
    let mut db = empty_store();
    db.set(b"a".to_vec(), b"1".to_vec()).unwrap();
    db.set(b"a".to_vec(), b"2".to_vec()).unwrap();
    db.set(b"b".to_vec(), b"3".to_vec()).unwrap();
    db.delete(b"b".to_vec()).unwrap();
    let compacted = DiskClient::compact(db.log_data().clone()).unwrap();
    assert_eq!(compacted.log_data().clone(), vec![0, 0, 0, 1, 0, 0, 0, 1, b'a', b'2']);
    assert_eq!(compacted.get(b"a".to_vec()).unwrap(), Some(b"2".to_vec()));
}

#[test]
fn compaction_of_a_broken_log_fails() {
    assert!(DiskClient::compact(vec![1, 2]).is_err());
}

#[test]
fn get_keys_lists_keys_in_order() {
    let mut db = empty_store();
    db.set(b"b".to_vec(), b"".to_vec()).unwrap();
    db.set(b"a".to_vec(), b"".to_vec()).unwrap();
    db.set(vec![0xff], b"".to_vec()).unwrap();
    assert_eq!(db.get_keys().unwrap(), vec![b"a".to_vec(), b"b".to_vec(), vec![0xff]]);
}

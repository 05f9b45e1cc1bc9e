use aerokv::auth::Action;
use aerokv::config::env_config::Config;
use aerokv::log_store::{append_log, log_key, read_vote, save_vote, snapshot_pairs, stored_values};
use aerokv::merkle::MerkleState;
use aerokv::sessions::SessionManager;
use aerokv::state_machine::{KvOp, MyStateMachine};
use aerokv::storage::engine::DiskClient;

fn machine() -> MyStateMachine {
    let config = Config {
        payer_keypair: "[1]".to_string(),
        rpc_url: String::new(),
        program_id: String::new(),
        server_port: String::new(),
        treasury: String::new(),
    };
    MyStateMachine {
        db: DiskClient::new(Vec::new()).unwrap(),
        auth_db: DiskClient::new(Vec::new()).unwrap(),
        session_manager: SessionManager::new(config),
        merkle: MerkleState::new(),
    }
}

#[test]
fn log_keys_are_zero_padded() {
    assert_eq!(log_key(42), b"log_00000000000000000042".to_vec());
    assert_eq!(log_key(u64::MAX), b"log_18446744073709551615".to_vec());
}

#[test]
fn the_log_keeps_entries_and_the_vote() {
    let mut db = DiskClient::new(Vec::new()).unwrap();
    append_log(&mut db, &vec![(2, b"two".to_vec()), (1, b"one".to_vec())]);
    assert_eq!(stored_values(&db), vec![b"one".to_vec(), b"two".to_vec()]);
    assert_eq!(read_vote(&db).unwrap(), None);
    save_vote(&mut db, b"{\"term\":1}".to_vec()).unwrap();
    assert_eq!(read_vote(&db).unwrap(), Some(b"{\"term\":1}".to_vec()));
}

#[test]
fn snapshots_hold_every_pair() {
    let mut db = DiskClient::new(Vec::new()).unwrap();
    db.set(b"b".to_vec(), b"2".to_vec()).unwrap();
    db.set(b"a".to_vec(), b"1".to_vec()).unwrap();
    assert_eq!(snapshot_pairs(&db).unwrap(), vec![(b"a".to_vec(), b"1".to_vec()), (b"b".to_vec(), b"2".to_vec())]);
    let broken = DiskClient::new(vec![0, 0, 0, 1, 0, 0, 0, 4, b'k']).unwrap();
    assert!(snapshot_pairs(&broken).is_err());
    assert!(stored_values(&broken).is_empty());
}

#[test]
fn applying_writes_updates_the_store_and_the_tree() {
    let mut sm = machine();
    let res = sm.apply(vec![
        Some(KvOp::Upsert { key: "k".to_string(), value: "ignored".to_string(), pda: vec![7u8; 32] }),
        None,
        Some(KvOp::SetPause { paused: true }),
        Some(KvOp::SetFee { base_fee: 1000, fee_per_byte: 10, scan_fee_per_item: 0 }),
    ]);
    assert_eq!(res.len(), 4);
    assert_eq!(sm.db.get(b"k".to_vec()).unwrap(), Some(vec![7u8; 32]));
    assert_eq!(sm.db.get(b"sys_paused".to_vec()).unwrap(), Some(vec![1]));
    assert_eq!(
        sm.db.get(b"sys_base_fee".to_vec()).unwrap(),
        Some(br#"{"base_fee":1000,"fee_per_byte":10,"scan_fee":0}"#.to_vec())
    );
    // the tree covers every key of the store after an upsert
    assert_eq!(sm.merkle.leaf_hashes.len(), 3);
    sm.apply(vec![Some(KvOp::Delete { key: "k".to_string() })]);
    assert_eq!(sm.db.get(b"k".to_vec()).unwrap(), None);
    assert_eq!(sm.merkle.leaf_hashes.len(), 2);
}

#[test]
fn without_data_writes_the_tree_is_kept() {
    let mut sm = machine();
    sm.apply(vec![Some(KvOp::SetPause { paused: false })]);
    assert!(sm.merkle.leaf_hashes.is_empty());
    assert_eq!(sm.db.get(b"sys_paused".to_vec()).unwrap(), Some(vec![0]));
}

#[test]
fn session_entries_are_replicated() {
    let mut sm = machine();
    sm.apply(vec![Some(KvOp::SyncLogin { pubkey: "u".to_string(), permissions: vec![Action::Get] })]);
    assert!(sm.session_manager.sessions.get("u").unwrap().is_logged_in);
    sm.apply(vec![Some(KvOp::SyncGrant { user_pubkey: "u".to_string(), permissions: vec![Action::Scan, Action::Page] })]);
    assert_eq!(sm.auth_db.get(b"u".to_vec()).unwrap(), Some(b"NP".to_vec()));
    assert_eq!(sm.session_manager.sessions.get("u").unwrap().permissions, vec![Action::Scan, Action::Page]);
    sm.apply(vec![Some(KvOp::SyncLogout { pubkey: "u".to_string() })]);
    assert!(!sm.session_manager.sessions.get("u").unwrap().is_logged_in);
    sm.apply(vec![Some(KvOp::SyncRevoke { user_pubkey: "u".to_string() })]);
    assert!(sm.session_manager.sessions.get("u").is_none());
    assert_eq!(sm.auth_db.get(b"u".to_vec()).unwrap(), None);
    // a grant for a user without a session only writes the store
    sm.apply(vec![Some(KvOp::SyncGrant { user_pubkey: "v".to_string(), permissions: vec![Action::Get] })]);
    assert!(sm.session_manager.sessions.get("v").is_none());
    assert_eq!(sm.auth_db.get(b"v".to_vec()).unwrap(), Some(b"R".to_vec()));
}

#[test]
fn the_fee_record_is_the_json_object_serde_writes() {
    let mut sm = machine();
    sm.apply(vec![Some(KvOp::SetFee { base_fee: u64::MAX, fee_per_byte: 0, scan_fee_per_item: 7 })]);
    let mut m = serde_json::Map::new();
    m.insert("base_fee".to_string(), serde_json::Value::from(u64::MAX));
    m.insert("fee_per_byte".to_string(), serde_json::Value::from(0u64));
    m.insert("scan_fee".to_string(), serde_json::Value::from(7u64));
    let expected = serde_json::to_vec(&serde_json::Value::Object(m)).unwrap();
    assert_eq!(sm.db.get(b"sys_base_fee".to_vec()).unwrap(), Some(expected));
}

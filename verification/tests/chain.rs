use aerokv::chain::{
    build_call, chain_settings, decode_value_account, delete_local, find_pda, find_value_pda, finish_get, get_request,
    page_request, read_borsh_bytes, scan_request, upsert_local,
};
use aerokv::chainlog::{
    bytes_to_str, collect_events, event_of_log, page_total, parse_kv_event, parse_scan_logs, remove_all_bytes, total_of_line,
};
use aerokv::chain::KVEvent;
use aerokv::config::env_config::Config;
use aerokv::error::Error;
use aerokv::storage::engine::DiskClient;
use base64::Engine;
use solana_program::pubkey::Pubkey;

const PROGRAM: [u8; 32] = [3u8; 32];

fn borsh_vec(v: &[u8]) -> Vec<u8> {
    let mut out = (v.len() as u32).to_le_bytes().to_vec();
    out.extend_from_slice(v);
    out
}

fn event_line(key: &[u8], value: &[u8]) -> String {
    let mut bytes = vec![9u8; 8];
    bytes.extend(borsh_vec(key));
    bytes.extend(borsh_vec(value));
    format!("Program data: {}", base64::engine::general_purpose::STANDARD.encode(bytes))
}

#[test]
fn value_accounts_are_derived_from_the_key() {
    let expected = Pubkey::find_program_address(&[b"value", b"k1"], &Pubkey::new_from_array(PROGRAM)).0;
    assert_eq!(find_value_pda(PROGRAM, &b"k1".to_vec()), Some(expected.to_bytes()));
    assert_ne!(find_value_pda(PROGRAM, &b"k2".to_vec()), Some(expected.to_bytes()));
    let auth = Pubkey::find_program_address(&[b"auth"], &Pubkey::new_from_array(PROGRAM)).0;
    assert_eq!(find_pda(PROGRAM, &vec![b"auth".to_vec()]), Some(auth.to_bytes()));
}

#[test]
fn upsert_records_the_value_account_of_the_key() {
    let mut db = DiskClient::new(Vec::new()).unwrap();
    let pda = upsert_local(&mut db, PROGRAM, &b"k".to_vec()).unwrap();
    assert_eq!(db.get(b"k".to_vec()).unwrap(), Some(pda.to_vec()));
}

#[test]
fn delete_refuses_system_keys_and_removes_others() {
    let mut db = DiskClient::new(Vec::new()).unwrap();
    upsert_local(&mut db, PROGRAM, &b"k".to_vec()).unwrap();
    assert!(matches!(delete_local(&mut db, PROGRAM, &b"sys_paused".to_vec()), Err(Error::InvalidKey)));
    assert!(delete_local(&mut db, PROGRAM, &b"k".to_vec()).unwrap().is_some());
    assert_eq!(db.get(b"k".to_vec()).unwrap(), None);
}

#[test]
fn get_refuses_system_keys() {
    assert!(matches!(get_request(PROGRAM, &b"sys_base_fee".to_vec()), Err(Error::InvalidKey)));
    assert!(get_request(PROGRAM, &b"key".to_vec()).unwrap().is_some());
}

#[test]
fn value_accounts_are_read_after_their_discriminator() {
    let mut data = vec![0u8; 8];
    data.extend(borsh_vec(b"hello"));
    data.extend([1, 2, 3]);
    assert_eq!(decode_value_account(&data).unwrap().data, b"hello".to_vec());
    assert_eq!(finish_get(true, Some(data.clone())).unwrap(), "hello");
    let mut bad = vec![0u8; 8];
    bad.extend([200, 0, 0, 0, b'x']);
    assert!(matches!(decode_value_account(&bad), Err(Error::RpcError(_))));
    assert_eq!(finish_get(false, Some(data)).unwrap(), "not_found");
    assert_eq!(finish_get(true, None).unwrap(), "not_found");
    let mut lossy = vec![0u8; 8];
    lossy.extend(borsh_vec(&[b'a', 0xff]));
    assert_eq!(finish_get(true, Some(lossy)).unwrap(), "a\u{fffd}");
}

#[test]
fn borsh_vectors_are_read_with_their_length() {
    let b = borsh_vec(b"ab");
    assert_eq!(read_borsh_bytes(&b, 0), Some((b"ab".to_vec(), 6)));
    assert_eq!(read_borsh_bytes(&b[..5], 0), None);
    assert_eq!(read_borsh_bytes(&b, 3), None);
}

#[test]
fn calls_leave_out_system_keys_and_short_records() {
    let pairs = vec![
        (b"a".to_vec(), vec![1u8; 32]),
        (b"sys_paused".to_vec(), vec![1u8]),
        (b"b".to_vec(), vec![2u8; 5]),
        (b"c".to_vec(), vec![3u8; 32]),
    ];
    let call = build_call(&pairs);
    // A key and its account stay at the same position.
    assert_eq!(call.keys, vec![b"a".to_vec(), b"c".to_vec()]);
    assert_eq!(call.accounts, vec![[1u8; 32], [3u8; 32]]);
}

#[test]
fn scan_takes_the_first_keys_with_the_prefix() {
    let mut db = DiskClient::new(Vec::new()).unwrap();
    for k in [&b"ab"[..], b"abc", b"abd", b"b"] {
        upsert_local(&mut db, PROGRAM, &k.to_vec()).unwrap();
    }
    let call = scan_request(&db, &b"ab".to_vec(), 2).unwrap();
    assert_eq!(call.keys, vec![b"ab".to_vec(), b"abc".to_vec()]);
    assert_eq!(call.accounts.len(), 2);
    assert!(matches!(scan_request(&db, &Vec::new(), 2), Err(Error::InvalidKey)));
    assert_eq!(scan_request(&db, &b"ab".to_vec(), 10).unwrap().keys.len(), 3);
}

#[test]
fn page_uses_the_page_number_as_offset() {
    let mut db = DiskClient::new(Vec::new()).unwrap();
    for k in [b"a", b"b", b"c"] {
        upsert_local(&mut db, PROGRAM, &k.to_vec()).unwrap();
    }
    db.set(b"sys_paused".to_vec(), vec![0]).unwrap();
    let call = page_request(&db, 1, 2).unwrap();
    assert_eq!(call.keys, vec![b"b".to_vec(), b"c".to_vec()]);
    let call = page_request(&db, 2, 5).unwrap();
    // `sys_paused` sorts last and is left out
    assert_eq!(call.keys, vec![b"c".to_vec()]);
    assert!(page_request(&db, 9, 5).unwrap().keys.is_empty());
}

#[test]
fn chain_settings_need_a_64_byte_keypair_and_a_program_address() {
    let keypair = format!("[{}]", vec!["7"; 64].join(","));
    let program = Pubkey::new_from_array(PROGRAM).to_string();
    let cfg = |k: &str, p: &str| Config {
        payer_keypair: k.to_string(),
        rpc_url: String::new(),
        program_id: p.to_string(),
        server_port: String::new(),
        treasury: String::new(),
    };
    let s = chain_settings(&cfg(&keypair, &program)).unwrap();
    assert_eq!(s.payer, vec![7u8; 64]);
    assert_eq!(s.program_id, PROGRAM);
    assert!(matches!(chain_settings(&cfg("[1,2]", &program)), Err(Error::InvalidKey)));
    assert!(matches!(chain_settings(&cfg(&keypair, "??")), Err(Error::InvalidProgramId(_))));
}

#[test]
fn replace_removes_every_occurrence() {
    assert_eq!(remove_all_bytes(b"xxabxxabx", b"ab"), b"xxxxx".to_vec());
    assert_eq!(remove_all_bytes(b"aaa", b"aa"), b"a".to_vec());
    assert_eq!(remove_all_bytes(b"", b"a"), Vec::<u8>::new());
}

#[test]
fn events_are_read_from_program_data_lines() {
    let line = event_line(b"k1", b"v1");
    let e = event_of_log(&line).unwrap();
    assert_eq!(e.key, b"k1".to_vec());
    assert_eq!(e.value, b"v1".to_vec());
    assert!(event_of_log("Program log: hello").is_none());
    assert!(event_of_log("Program data: !!!").is_none());
    // trailing bytes make the event unreadable
    let mut bytes = vec![9u8; 8];
    bytes.extend(borsh_vec(b"k"));
    bytes.extend(borsh_vec(b"v"));
    bytes.push(0);
    assert!(parse_kv_event(&bytes[8..]).is_none());
    assert!(parse_kv_event(&bytes[8..bytes.len() - 1]).is_some());
}

#[test]
fn scan_results_are_the_events_in_order() {
    let logs = vec![
        "Program log: start".to_string(),
        event_line(b"a", b"1"),
        "Program data: AAAA".to_string(),
        event_line(b"b", b"2"),
    ];
    assert_eq!(collect_events(&logs).len(), 2);
    let results = parse_scan_logs(&logs).unwrap();
    assert_eq!(results, vec![("a".to_string(), "1".to_string()), ("b".to_string(), "2".to_string())]);
    let binary = vec![event_line(&[0xff], b"1")];
    assert!(parse_scan_logs(&binary).is_none());
    let e = KVEvent { key: b"k".to_vec(), value: "é".as_bytes().to_vec() };
    assert_eq!(bytes_to_str(&e).unwrap(), ("k".to_string(), "é".to_string()));
}

#[test]
fn the_page_total_is_the_last_reported_one() {
    assert_eq!(total_of_line("Program log: FINAL_TOTAL: 42"), Some(42));
    assert_eq!(total_of_line("FINAL_TOTAL: 1 FINAL_TOTAL:  +7 \t"), Some(7));
    assert_eq!(total_of_line("FINAL_TOTAL: x"), None);
    assert_eq!(total_of_line("FINAL_TOTAL: 18446744073709551616"), None);
    assert_eq!(total_of_line("no total"), None);
    let logs = vec!["Program log: FINAL_TOTAL: 3".to_string(), "Program log: FINAL_TOTAL: 5".to_string(), "x".to_string()];
    assert_eq!(page_total(&logs).unwrap(), 5);
    assert!(matches!(page_total(&vec!["x".to_string()]), Err(Error::RpcError(m)) if m == "counter account not found"));
}

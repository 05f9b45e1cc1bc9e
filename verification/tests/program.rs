use aerokv::chain::KVEvent;
use aerokv::program::{calc_level, ProgramError, ProgramState};
use solana_program::keccak::hashv;

const ADMIN: [u8; 32] = [5u8; 32];

fn account(value: &[u8]) -> Option<Vec<u8>> {
    let mut d = vec![0u8; 8];
    d.extend((value.len() as u32).to_le_bytes());
    d.extend_from_slice(value);
    Some(d)
}

fn program() -> ProgramState {
    let mut p = ProgramState::new();
    p.init_storage();
    p.init_auth(ADMIN);
    p
}

#[test]
fn init_storage_sets_the_default_fees() {
    let p = program();
    assert_eq!(p.base_fee, 1000);
    assert_eq!(p.fee_per_byte, 10);
    assert!(!p.paused);
    assert_eq!(p.admin, ADMIN);
}

#[test]
fn upsert_charges_and_counts_new_keys() {
    let mut p = program();
    assert_eq!(p.upsert(b"k".to_vec(), b"abc".to_vec(), 10_000), Ok(1030));
    assert_eq!(p.total_count, 1);
    assert_eq!(p.upsert(b"k".to_vec(), b"xy".to_vec(), 10_000), Ok(1020));
    assert_eq!(p.total_count, 1);
    assert_eq!(p.get(&b"k".to_vec()), Ok(b"xy".to_vec()));
    assert_eq!(p.upsert(b"j".to_vec(), b"1".to_vec(), 10), Err(ProgramError::InsufficientFee));
    assert_eq!(p.total_count, 1);
}

#[test]
fn a_key_is_counted_once_whatever_its_value() {
    let mut p = program();
    p.upsert(b"k".to_vec(), Vec::new(), 10_000).unwrap();
    p.upsert(b"k".to_vec(), Vec::new(), 10_000).unwrap();
    p.upsert(b"k".to_vec(), b"v".to_vec(), 10_000).unwrap();
    assert_eq!(p.total_count, 1);
}

#[test]
fn upsert_checks_lengths_and_the_pause_in_order() {
    let mut p = program();
    assert_eq!(p.upsert(vec![0; 257], vec![0; 3000], 1 << 40), Err(ProgramError::KeyTooLong));
    assert_eq!(p.upsert(vec![0; 10], vec![0; 3000], 1 << 40), Err(ProgramError::ValueTooLong));
    p.set_pause(ADMIN, true).unwrap();
    assert_eq!(p.upsert(vec![0; 100], vec![0; 10], 1 << 40), Err(ProgramError::Paused));
    p.set_pause(ADMIN, false).unwrap();
    assert_eq!(p.upsert(vec![0; 100], vec![0; 10], 1 << 40), Err(ProgramError::KeyTooLong));
    assert_eq!(p.upsert(vec![0; 10], vec![0; 1500], 1 << 40), Err(ProgramError::ValueTooLarge));
    assert_eq!(p.total_count, 0);
}

#[test]
fn delete_closes_the_account_and_counts_down() {
    let mut p = program();
    p.upsert(b"k".to_vec(), b"v".to_vec(), 1 << 20).unwrap();
    assert_eq!(p.delete(&b"k".to_vec(), 10), Err(ProgramError::InsufficientFee));
    assert_eq!(p.delete(&b"k".to_vec(), 1000), Ok(1000));
    assert_eq!(p.total_count, 0);
    assert_eq!(p.get(&b"k".to_vec()), Err(ProgramError::AccountNotInitialized));
    assert_eq!(p.delete(&b"k".to_vec(), 1000), Err(ProgramError::AccountNotInitialized));
}

#[test]
fn a_paused_program_refuses_reads_and_deletes() {
    let mut p = program();
    p.upsert(b"k".to_vec(), b"v".to_vec(), 1 << 20).unwrap();
    p.set_pause(ADMIN, true).unwrap();
    assert_eq!(p.get(&b"k".to_vec()), Err(ProgramError::Paused));
    assert_eq!(p.delete(&b"k".to_vec(), 1 << 20), Err(ProgramError::Paused));
    assert!(matches!(p.scan(&b"a".to_vec(), 5, &vec![], &vec![], 0), Err(ProgramError::Paused)));
    assert!(matches!(p.page(&vec![], &vec![], 0), Err(ProgramError::Paused)));
}

#[test]
fn only_the_admin_changes_settings() {
    let mut p = program();
    assert_eq!(p.set_fee([1u8; 32], 1, 2, 3), Err(ProgramError::Unauthorized));
    assert_eq!(p.set_pause([1u8; 32], true), Err(ProgramError::Unauthorized));
    assert_eq!(p.set_admin([1u8; 32], [1u8; 32]), Err(ProgramError::Unauthorized));
    assert_eq!(p.base_fee, 1000);
    p.set_fee(ADMIN, 1, 2, 3).unwrap();
    assert_eq!((p.base_fee, p.fee_per_byte, p.scan_fee_per_item), (1, 2, 3));
    p.set_admin(ADMIN, [1u8; 32]).unwrap();
    assert_eq!(p.set_pause(ADMIN, true), Err(ProgramError::Unauthorized));
    p.init_fee([4u8; 32]);
    assert_eq!((p.base_fee, p.fee_per_byte, p.scan_fee_per_item, p.treasury), (0, 0, 0, [4u8; 32]));
    p.init_counter();
}

#[test]
fn scan_emits_keys_from_start_up_to_the_limit() {
    let mut p = program();
    p.set_fee(ADMIN, 1000, 10, 7).unwrap();
    let keys = vec![b"a".to_vec(), b"c".to_vec(), b"d".to_vec(), b"e".to_vec(), b"f".to_vec()];
    let accounts = vec![account(b"1"), account(b"3"), None, Some(vec![1, 2]), account(b"6")];
    let (events, fee) = p.scan(&b"b".to_vec(), 2, &keys, &accounts, 1 << 20).unwrap();
    let pairs: Vec<(Vec<u8>, Vec<u8>)> = events.into_iter().map(|e: KVEvent| (e.key, e.value)).collect();
    assert_eq!(pairs, vec![(b"c".to_vec(), b"3".to_vec()), (b"f".to_vec(), b"6".to_vec())]);
    // The scan fee, not the base fee, is charged per emitted key.
    assert_eq!(fee, 14);
    assert!(matches!(p.scan(&b"b".to_vec(), 2, &keys, &accounts, 13), Err(ProgramError::InsufficientFee)));
}

#[test]
fn page_emits_every_readable_account_and_the_total() {
    let mut p = program();
    p.upsert(b"x".to_vec(), b"1".to_vec(), 1 << 20).unwrap();
    let keys = vec![b"a".to_vec(), b"b".to_vec(), b"c".to_vec()];
    let accounts = vec![account(b"1"), None, account(b"3")];
    let (events, fee, total) = p.page(&keys, &accounts, 1 << 20).unwrap();
    assert_eq!(events.len(), 2);
    assert_eq!(events[1].key, b"c".to_vec());
    assert_eq!(fee, 2000);
    assert_eq!(total, 1);
}

#[test]
fn levels_follow_the_leading_odd_hash_bytes() {
    for key in [&b""[..], b"a", b"key", b"another key"] {
        let h = hashv(&[key]).to_bytes();
        let mut expected = 1u8;
        for b in h.iter().take(8) {
            if b & 1 == 1 {
                expected += 1;
            } else {
                break;
            }
        }
        assert_eq!(calc_level(key), expected.min(8));
    }
    // Keccak-256 of the empty input starts with c5 d2: one odd byte.
    assert_eq!(calc_level(b""), 2);
}

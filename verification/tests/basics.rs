use aerokv::api::{after_chain, after_proposal, health_response, Network, ReplicatedAction, ReplicatedKind};
use aerokv::auth::{action_to_char, char_to_action, init, split_char, Action};
use aerokv::constants::{bytes_equal, is_system_key_exec, sys_base_fee_key, sys_paused_key, value_seeds};
use aerokv::error::Error;
use aerokv::keyorder::{compare_bytes, key_cmp};
use aerokv::keypair::parse_keypair_array;
use aerokv::text::text_bytes;
use aerokv::validator::{check_key, check_value};
use std::cmp::Ordering;

#[test]
fn key_cmp_orders_bytes_lexicographically() {
    assert_eq!(key_cmp(b"a", b"b"), Ordering::Less);
    assert_eq!(key_cmp(b"ab", b"a"), Ordering::Greater);
    assert_eq!(key_cmp(b"", b""), Ordering::Equal);
    assert_eq!(key_cmp(&[0xff], b"zzz"), Ordering::Greater);
    assert_eq!(compare_bytes(b"abc", b"abd"), -1);
    assert_eq!(compare_bytes(b"abc", b"abc"), 0);
}

#[test]
fn keypair_array_is_read() {
    assert_eq!(parse_keypair_array("[1, 2,3 ]").unwrap(), vec![1, 2, 3]);
    assert_eq!(parse_keypair_array("  [255,+0]\n").unwrap(), vec![255, 0]);
    assert!(matches!(parse_keypair_array("[256]"), Err(Error::InvalidKey)));
    assert!(matches!(parse_keypair_array("1,2"), Err(Error::InvalidKey)));
    assert!(matches!(parse_keypair_array("[1,,2]"), Err(Error::InvalidKey)));
    assert!(matches!(parse_keypair_array("[]"), Err(Error::InvalidKey)));
}

#[test]
fn actions_map_to_letters_and_back() {
    let all = init();
    assert_eq!(all.len(), 11);
    let letters: String = all.iter().map(|a| action_to_char(*a).unwrap()).collect();
    assert_eq!(letters, "ASCFWDRNPME");
    for a in all {
        let c = action_to_char(a).unwrap();
        assert_eq!(char_to_action(c).unwrap(), a);
    }
    assert!(matches!(char_to_action("X"), Err(Error::UnsupportedCharacter(_))));
    assert!(matches!(char_to_action("AS"), Err(Error::UnsupportedCharacter(_))));
}

#[test]
fn split_char_reads_the_letters_a_grant_writes() {
    assert_eq!(split_char("AW").unwrap(), vec![Action::InitAuth, Action::RaftUpsert]);
    assert_eq!(split_char("").unwrap(), Vec::<Action>::new());
    let all = init();
    let code: String = all.iter().map(|a| action_to_char(*a).unwrap()).collect();
    assert_eq!(split_char(&code).unwrap(), all);
    assert!(matches!(split_char("AX"), Err(Error::UnsupportedCharacter(_))));
    assert!(matches!(split_char("A,S"), Err(Error::UnsupportedCharacter(_))));
}

#[test]
fn keys_and_values_are_checked_by_length() {
    assert!(check_key("k"));
    assert!(!check_key(""));
    assert!(check_key(&"a".repeat(256)));
    assert!(!check_key(&"a".repeat(257)));
    assert!(check_value(&"v".repeat(2048)));
    assert!(!check_value(&"v".repeat(2049)));
    assert!(!check_value(""));
    // length counts bytes: 86 three-byte characters are 258 bytes
    assert!(!check_key(&"中".repeat(86)));
}

#[test]
fn system_keys_are_recognised() {
    assert_eq!(sys_paused_key(), b"sys_paused".to_vec());
    assert_eq!(sys_base_fee_key(), b"sys_base_fee".to_vec());
    assert!(is_system_key_exec(b"sys_paused"));
    assert!(is_system_key_exec(b"sys_base_fee"));
    assert!(!is_system_key_exec(b"sys_other"));
    assert_eq!(value_seeds(), b"value".to_vec());
    assert!(bytes_equal(b"ab", b"ab"));
    assert!(!bytes_equal(b"ab", b"abc"));
}

#[test]
fn error_messages_carry_their_detail() {
    assert_eq!(Error::RpcError("x".to_string()).message(), "RPC 错误: x");
    assert_eq!(Error::InvalidKey.message(), "无效的 Key");
    assert_eq!(Error::IoError("eof".to_string()).message(), "IO 错误: eof");
    assert_eq!(Error::UserLogout.message(), "用户未登录");
}

#[test]
fn text_conversions() {
    assert_eq!(text_bytes("aé"), vec![b'a', 0xc3, 0xa9]);
}

#[test]
fn health_answer() {
    let r = health_response("prog");
    assert_eq!(r.status, "ok");
    assert_eq!(r.program_id, "prog");
    assert_eq!(r.message, "service is running");
    let _ = Network::new();
}

#[test]
fn action_enum_is_copy() {
    let a = Action::Get;
    let b = a;
    assert_eq!(a, b);
}


#[test]
fn a_replicated_request_goes_on_chain_only_once_committed() {
    assert_eq!(after_proposal(ReplicatedKind::DataWrite, true), ReplicatedAction::SendToChain);
    assert_eq!(after_proposal(ReplicatedKind::DataWrite, false), ReplicatedAction::Answer { status: 500 });
    assert_eq!(after_proposal(ReplicatedKind::Setting, false), ReplicatedAction::Answer { status: 503 });
    assert_eq!(after_chain(ReplicatedKind::DataWrite, true), 200);
    assert_eq!(after_chain(ReplicatedKind::DataWrite, false), 400);
    assert_eq!(after_chain(ReplicatedKind::Setting, false), 500);
}

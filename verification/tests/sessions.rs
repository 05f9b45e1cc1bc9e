use aerokv::auth::Action;
use aerokv::config::env_config::Config;
use aerokv::error::Error;
use aerokv::sessions::SessionManager;
use aerokv::storage::engine::DiskClient;
use solana_program::pubkey::Pubkey;

fn keypair_text() -> String {
    let bytes: Vec<String> = (0..64).map(|i| if i < 32 { "1".to_string() } else { "2".to_string() }).collect();
    format!("[{}]", bytes.join(","))
}

fn config(keypair: String) -> Config {
    Config {
        payer_keypair: keypair,
        rpc_url: "http://localhost:8899".to_string(),
        program_id: "11111111111111111111111111111111".to_string(),
        server_port: "8001".to_string(),
        treasury: "11111111111111111111111111111111".to_string(),
    }
}

fn admin() -> String {
    Pubkey::new_from_array([2u8; 32]).to_string()
}

fn manager() -> SessionManager {
    SessionManager::new(config(keypair_text()))
}

#[test]
fn admin_key_is_the_public_half_of_the_keypair() {
    assert_eq!(manager().admin_pubkey().unwrap(), admin());
    let short = SessionManager::new(config("[1,2,3]".to_string()));
    assert!(matches!(short.admin_pubkey(), Err(Error::InvalidKey)));
    let broken = SessionManager::new(config("not a list".to_string()));
    assert!(matches!(broken.admin_pubkey(), Err(Error::InvalidKey)));
}

#[test]
fn init_auth_logs_the_admin_in_with_every_action() {
    let mut m = manager();
    let store = DiskClient::new(Vec::new()).unwrap();
    m.init_auth(&store).unwrap();
    let session = m.sessions.get(&admin()).unwrap().clone();
    assert!(session.is_logged_in);
    assert_eq!(session.permissions.len(), 11);
    assert!(m.check_permission(&admin(), Action::RaftFee).is_ok());
}

#[test]
fn init_auth_without_a_valid_keypair_fails() {
    let mut m = SessionManager::new(config("[1]".to_string()));
    let store = DiskClient::new(Vec::new()).unwrap();
    assert!(matches!(m.init_auth(&store), Err(Error::UserDoesNotExistError)));
}

#[test]
fn granted_user_must_log_in_before_acting() {
    let mut m = manager();
    let mut store = DiskClient::new(Vec::new()).unwrap();
    let granted = m.grant_permission(&admin(), "alice", vec![Action::Get, Action::Scan], &mut store).unwrap();
    assert_eq!(granted, vec![Action::Get, Action::Scan]);
    assert_eq!(store.get(b"alice".to_vec()).unwrap(), Some(b"RN".to_vec()));
    assert!(matches!(m.check_permission("alice", Action::Get), Err(Error::UserLogout)));
    let session = m.login("alice", &store).unwrap();
    assert!(session.is_logged_in);
    assert_eq!(session.permissions, vec![Action::Get, Action::Scan]);
    assert!(m.check_permission("alice", Action::Get).is_ok());
    assert!(matches!(m.check_permission("alice", Action::Page), Err(Error::PermissionDoesNotExistError)));
    assert_eq!(m.logout("alice").unwrap(), "alice");
    assert!(matches!(m.check_permission("alice", Action::Get), Err(Error::UserLogout)));
    assert!(matches!(m.logout("nobody"), Err(Error::UserDoesNotExistError)));
}

#[test]
fn a_grant_keeps_a_logged_in_user_logged_in() {
    let mut m = manager();
    let mut store = DiskClient::new(Vec::new()).unwrap();
    m.grant_permission(&admin(), "bob", vec![Action::Get], &mut store).unwrap();
    m.login("bob", &store).unwrap();
    m.grant_permission(&admin(), "bob", vec![Action::Page], &mut store).unwrap();
    assert!(m.check_permission("bob", Action::Page).is_ok());
    assert!(matches!(m.check_permission("bob", Action::Get), Err(Error::PermissionDoesNotExistError)));
}

#[test]
fn only_the_admin_grants_and_revokes() {
    let mut m = manager();
    let mut store = DiskClient::new(Vec::new()).unwrap();
    assert!(matches!(
        m.grant_permission("mallory", "alice", vec![Action::Get], &mut store),
        Err(Error::UserDoesNotExistError)
    ));
    assert!(matches!(m.grant_permission(&admin(), "", vec![Action::Get], &mut store), Err(Error::UserDoesNotExistError)));
    assert!(matches!(m.revoke_permission("mallory", "alice", &mut store), Err(Error::UserDoesNotExistError)));
    assert_eq!(store.count().unwrap(), 0);
}

#[test]
fn revoke_drops_the_session_and_the_stored_permissions() {
    let mut m = manager();
    let mut store = DiskClient::new(Vec::new()).unwrap();
    m.grant_permission(&admin(), "carol", vec![Action::Get], &mut store).unwrap();
    assert_eq!(m.revoke_permission(&admin(), "carol", &mut store).unwrap(), "carol");
    assert_eq!(store.get(b"carol".to_vec()).unwrap(), None);
    assert!(m.sessions.get("carol").is_none());
    assert!(matches!(m.login("carol", &store), Err(Error::UserDoesNotExistError)));
}

#[test]
fn login_reads_the_permissions_of_a_stored_user() {
    let mut m = manager();
    let mut store = DiskClient::new(Vec::new()).unwrap();
    store.set(b"dave".to_vec(), b"RN".to_vec()).unwrap();
    let session = m.login("dave", &store).unwrap();
    assert!(session.is_logged_in);
    assert_eq!(session.permissions, vec![Action::Get, Action::Scan]);
    assert!(m.check_permission("dave", Action::Scan).is_ok());
    store.set(b"erin".to_vec(), vec![0xff]).unwrap();
    assert!(matches!(m.login("erin", &store), Err(Error::InvalidKey)));
    store.set(b"fay".to_vec(), b"RQ".to_vec()).unwrap();
    assert!(matches!(m.login("fay", &store), Err(Error::UnsupportedCharacter(_))));
    assert!(m.sessions.get("fay").is_none());
}

#[test]
fn init_auth_loads_the_stored_users_logged_out() {
    let mut m = manager();
    let mut store = DiskClient::new(Vec::new()).unwrap();
    store.set(b"dave".to_vec(), b"RN".to_vec()).unwrap();
    store.set(b"eve".to_vec(), b"X".to_vec()).unwrap();
    m.init_auth(&store).unwrap();
    let dave = m.sessions.get("dave").unwrap().clone();
    assert!(!dave.is_logged_in);
    assert_eq!(dave.permissions, vec![Action::Get, Action::Scan]);
    assert!(m.sessions.get("eve").is_none());
    assert!(m.sessions.get(&admin()).unwrap().is_logged_in);
}

#[test]
fn login_refuses_a_store_with_binary_keys() {
    let mut m = manager();
    let mut store = DiskClient::new(Vec::new()).unwrap();
    store.set(vec![0xff, 0xfe], b"R".to_vec()).unwrap();
    assert!(matches!(m.login("anyone", &store), Err(Error::InvalidKey)));
}

#[test]
fn admin_page_lists_users_in_key_order() {
    let mut m = manager();
    let mut store = DiskClient::new(Vec::new()).unwrap();
    let store_empty = DiskClient::new(Vec::new()).unwrap();
    m.init_auth(&store_empty).unwrap();
    for u in ["b", "a", "c"] {
        m.grant_permission(&admin(), u, vec![Action::Get], &mut store).unwrap();
    }
    let (total, first) = m.admin_page(1, 2, &store).unwrap();
    assert_eq!(total, 3);
    assert_eq!(first.iter().map(|p| p.0.clone()).collect::<Vec<_>>(), vec!["a", "b"]);
    assert_eq!(first[0].1, vec![Action::Get]);
    let (_, zero) = m.admin_page(0, 2, &store).unwrap();
    assert_eq!(zero.len(), 2);
    let (_, second) = m.admin_page(2, 2, &store).unwrap();
    assert_eq!(second.iter().map(|p| p.0.clone()).collect::<Vec<_>>(), vec!["c"]);
    let (total, past) = m.admin_page(3, 2, &store).unwrap();
    assert_eq!(total, 3);
    assert!(past.is_empty());
}

#[test]
fn admin_page_reads_users_known_only_to_the_store() {
    let mut m = manager();
    let mut store = DiskClient::new(Vec::new()).unwrap();
    m.grant_permission(&admin(), "a", vec![Action::Get], &mut store).unwrap();
    store.set(b"z".to_vec(), b"RN".to_vec()).unwrap();
    let (total, users) = m.admin_page(1, 2, &store).unwrap();
    assert_eq!(total, 2);
    assert_eq!(
        users,
        vec![("a".to_string(), vec![Action::Get]), ("z".to_string(), vec![Action::Get, Action::Scan])]
    );
    store.set(b"y".to_vec(), b"Q".to_vec()).unwrap();
    assert!(m.admin_page(1, 1, &store).is_ok());
    assert!(matches!(m.admin_page(1, 2, &store), Err(Error::UnsupportedCharacter(_))));
    store.set(b"x".to_vec(), vec![0xff]).unwrap();
    assert!(matches!(m.admin_page(1, 2, &store), Err(Error::InvalidKey)));
    let bad = SessionManager::new(config("[1]".to_string()));
    assert!(matches!(bad.admin_page(1, 2, &store), Err(Error::UserDoesNotExistError)));
}

#[test]
fn admin_get_finds_users_by_prefix() {
    let mut m = manager();
    let mut store = DiskClient::new(Vec::new()).unwrap();
    m.grant_permission(&admin(), "bob", vec![Action::Scan], &mut store).unwrap();
    m.grant_permission(&admin(), "carl", vec![Action::Get], &mut store).unwrap();
    let found = m.admin_get("bo".to_string(), 5, &store).unwrap();
    assert_eq!(found, vec![("bob".to_string(), vec![Action::Scan])]);
    assert!(m.admin_get("x".to_string(), 5, &store).unwrap().is_empty());
    assert!(m.admin_get("bo".to_string(), 0, &store).unwrap().is_empty());
    store.set(b"boz".to_vec(), b"R".to_vec()).unwrap();
    let found = m.admin_get("bo".to_string(), 5, &store).unwrap();
    assert_eq!(found, vec![("bob".to_string(), vec![Action::Scan]), ("boz".to_string(), vec![Action::Get])]);
    store.set(b"bop".to_vec(), b"Q".to_vec()).unwrap();
    assert!(matches!(m.admin_get("bo".to_string(), 5, &store), Err(Error::UnsupportedCharacter(_))));
    // with the limit reached by the sessions, the store is not read
    assert_eq!(m.admin_get("bo".to_string(), 1, &store).unwrap().len(), 1);
}

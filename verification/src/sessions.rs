//! Sessions and permissions of users.  The sessions live in memory; the
//! granted permissions are kept in a permission store (a `DiskClient`),
//! each user's public key mapped to the letters of its actions.  The
//! administrator is the holder of the payer keypair and may do anything.
use vstd::prelude::*;
use vstd::string::StringExecFns;
use vstd::string::StringSliceAdditionalSpecFns;
use vstd::utf8::{decode_utf8, encode_utf8, valid_utf8};
use dashmap::DashMap;
use crate::auth::{action_letter, action_to_char, actions_code, all_actions, init, letters_actions, split_char, Action, UserSession};
use crate::config::env_config::Config;
use crate::error::Error;
use crate::keypair::{keypair_bytes, parse_keypair_array};
use crate::solana::{pubkey_text, pubkey_to_string};
use crate::storage::engine::{item_matches, items_match, DiskClient, KeyBound};
use crate::text::{all_utf8, string_from_utf8, text_bytes};
use crate::keyorder::{bytes_lt, compare_bytes, lemma_lt_strict_total, lemma_lt_trans};

verus! {

/// A session as plain values.
pub struct UserSessionView {
    pub is_logged_in: bool,
    pub permissions: Seq<Action>,
}

impl View for UserSession {
    type V = UserSessionView;

    open spec fn view(&self) -> UserSessionView {
        UserSessionView { is_logged_in: self.is_logged_in, permissions: self.permissions@ }
    }
}

/// The session table's type, as the `dashmap` crate defines it.
#[verifier::external_type_specification]
#[verifier::external_body]
#[verifier::reject_recursive_types(K)]
#[verifier::reject_recursive_types(V)]
#[verifier::reject_recursive_types(S)]
pub struct ExDashMap<K, V, S>(DashMap<K, V, S>);

/// The in-memory session table.
pub type SessionTable = DashMap<String, UserSession>;

/// What a session table holds: each user's key text mapped to the session.
pub uninterp spec fn session_map(m: DashMap<String, UserSession>) -> Map<Seq<char>, UserSessionView>;

/// `DashMap::new`: an empty table.
#[verifier::external_body]
fn session_table_new() -> (table: SessionTable)
    ensures
        session_map(table).dom() == Set::<Seq<char>>::empty(),
{
    DashMap::new()
}

/// `DashMap::insert`: the key now maps to the session, replacing what it
/// held.
#[verifier::external_body]
fn session_insert(m: &mut DashMap<String, UserSession>, key: String, session: UserSession)
    ensures
        session_map(*final(m)) == session_map(*old(m)).insert(key@, session@),
{
    m.insert(key, session);
}

/// `DashMap::get`, handing out a copy of the session.
#[verifier::external_body]
fn session_get(m: &DashMap<String, UserSession>, key: &str) -> (r: Option<UserSession>)
    ensures
        r is Some <==> session_map(*m).contains_key(key@),
        r is Some ==> r->Some_0@ == session_map(*m)[key@],
{
    match m.get(key) {
        Some(entry) => Some(entry.value().clone()),
        None => None,
    }
}

/// `DashMap::remove`: the key no longer maps to anything.
#[verifier::external_body]
fn session_remove(m: &mut DashMap<String, UserSession>, key: &str)
    ensures
        session_map(*final(m)) == session_map(*old(m)).remove(key@),
{
    m.remove(key);
}

/// The keys of the table, each once, in the table's own order (which the
/// contract leaves open).
#[verifier::external_body]
fn session_keys(m: &DashMap<String, UserSession>) -> (r: Vec<String>)
    ensures
        strings_of(r@).no_duplicates(),
        forall|k: Seq<char>| session_map(*m).contains_key(k) <==> strings_of(r@).contains(k),
{
    m.iter().map(|entry| entry.key().clone()).collect()
}

/// The texts of a list of strings.
pub open spec fn strings_of(v: Seq<String>) -> Seq<Seq<char>> {
    v.map_values(|s: String| s@)
}

/// The administrator's public key text, from the configured keypair: the
/// keypair's 64 bytes are the secret key and then the public key.
pub open spec fn admin_of(cfg_keypair: Seq<char>) -> Option<Seq<char>> {
    match keypair_bytes(cfg_keypair) {
        Some(b) => if b.len() == 64 {
            Some(pubkey_text(b.subrange(32, 64)))
        } else {
            None
        },
        None => None,
    }
}

/// The session of the administrator: logged in, with every action.
pub open spec fn admin_session() -> UserSessionView {
    UserSessionView { is_logged_in: true, permissions: all_actions() }
}

/// Every key of the store is UTF-8 text.
pub open spec fn store_keys_utf8(s: DiskClient) -> bool {
    forall|i: int| 0 <= i < s.keys().len() ==> valid_utf8(#[trigger] s.keys()[i])
}

/// The bytes the permission store keeps for a list of actions.
pub open spec fn permission_bytes(actions: Seq<Action>) -> Seq<u8> {
    encode_utf8(actions_code(actions))
}

/// The actions a stored permission string names, when it is UTF-8 text
/// of action letters.
pub open spec fn stored_actions(v: Seq<u8>) -> Option<Seq<Action>> {
    if valid_utf8(v) {
        letters_actions(decode_utf8(v))
    } else {
        None
    }
}

/// The permission store holds, for the user `t`, a permission string that
/// reads back.
pub open spec fn stored_user(storage: DiskClient, t: Seq<char>) -> bool {
    storage.readable(encode_utf8(t)) && stored_actions(storage@[encode_utf8(t)]) is Some
}

/// The session the permission store gives the user `t`: logged out, with
/// the stored actions.
pub open spec fn stored_session(storage: DiskClient, t: Seq<char>) -> UserSessionView {
    UserSessionView { is_logged_in: false, permissions: stored_actions(storage@[encode_utf8(t)])->Some_0 }
}

/// The sessions after those of the users stored under the keys `ks` are
/// loaded from the permission store (each replacing a session of the same
/// user).
pub open spec fn with_stored_among(
    table: Map<Seq<char>, UserSessionView>,
    storage: DiskClient,
    ks: Seq<Seq<u8>>,
) -> Map<Seq<char>, UserSessionView> {
    Map::new(
        |t: Seq<char>| table.contains_key(t) || (ks.contains(encode_utf8(t)) && stored_user(storage, t)),
        |t: Seq<char>| if ks.contains(encode_utf8(t)) && stored_user(storage, t) {
            stored_session(storage, t)
        } else {
            table[t]
        },
    )
}

/// The sessions after every user of the permission store whose permission
/// string reads back is loaded.
pub open spec fn with_stored(table: Map<Seq<char>, UserSessionView>, storage: DiskClient) -> Map<Seq<char>, UserSessionView> {
    with_stored_among(table, storage, storage.keys())
}

/// The checks of an administrator's request: the configured administrator
/// exists, the caller is that administrator and names a user.
pub open spec fn admin_request_ok(cfg: Seq<char>, admin: Seq<char>, user: Seq<char>) -> bool {
    &&& admin_of(cfg) is Some
    &&& admin.len() > 0
    &&& admin == admin_of(cfg)->Some_0
    &&& user.len() > 0
}

/// Sessions and permissions.
pub struct SessionManager {
    config: Config,
    pub sessions: DashMap<String, UserSession>,
}

impl SessionManager {
    /// The configured keypair text.
    pub closed spec fn keypair_text(&self) -> Seq<char> {
        self.config.payer_keypair@
    }

    /// The sessions as plain values.
    pub closed spec fn table(&self) -> Map<Seq<char>, UserSessionView> {
        session_map(self.sessions)
    }

    /// A manager with no sessions.
    pub fn new(config: Config) -> (r: SessionManager)
        ensures
            r.keypair_text() == config.payer_keypair@,
            r.table() == Map::<Seq<char>, UserSessionView>::empty(),
    {
        let r = SessionManager { sessions: session_table_new(), config };
        assert(r.table() =~= Map::<Seq<char>, UserSessionView>::empty());
        r
    }

    /// The administrator's public key text.
    pub fn admin_pubkey(&self) -> (r: Result<String, Error>)
        ensures
            match admin_of(self.keypair_text()) {
                Some(a) => r is Ok && r->Ok_0@ == a,
                None => r is Err && r->Err_0 is InvalidKey,
            },
    {
        let key_bytes = parse_keypair_array(self.config.payer_keypair.as_str())?;
        if key_bytes.len() != 64 {
            return Err(Error::InvalidKey);
        }
        let mut public = [0u8; 32];
        let mut i: usize = 0;
        while i < 32
            invariant
                key_bytes@.len() == 64,
                i <= 32,
                forall|j: int| 0 <= j < i ==> public@[j] == key_bytes@[32 + j],
            decreases 32 - i,
        {
            public[i] = key_bytes[32 + i];
            i = i + 1;
        }
        assert(public@ =~= key_bytes@.subrange(32, 64));
        Ok(pubkey_to_string(public))
    }

    /// Loads the sessions: each user of the permission store whose
    /// permission string reads back joins logged out (the others are
    /// skipped), then the administrator joins logged in with every action.
    pub fn init_auth(&mut self, storage: &DiskClient) -> (r: Result<(), Error>)
        requires
            storage.wf(),
            forall|k: Seq<u8>| #[trigger] storage.readable(k) ==> valid_utf8(k) && valid_utf8(storage@[k]),
        ensures
            final(self).keypair_text() == old(self).keypair_text(),
            match admin_of(old(self).keypair_text()) {
                Some(a) => r is Ok && final(self).table() == with_stored(old(self).table(), *storage).insert(a, admin_session()),
                None => r is Err && r->Err_0 is UserDoesNotExistError && final(self).table() == with_stored(
                    old(self).table(),
                    *storage,
                ),
            },
    {
        let items = storage.scan(KeyBound::Unbounded, KeyBound::Unbounded);
        let ghost table0 = self.table();
        let ghost keys = storage.keys();
        let ghost (lo, hi) = choose|lo: int, hi: int|
            items_match(storage.log_bytes(), storage.entries(), lo, hi, items@) && forall|j: int|
                0 <= j < storage.entries().len() ==> ((lo <= j < hi) <==> (crate::storage::engine::above_lower(
                    #[trigger] storage.keys()[j],
                    KeyBound::Unbounded,
                ) && crate::storage::engine::below_upper(storage.keys()[j], KeyBound::Unbounded)));
        proof {
            storage.lemma_index();
            if storage.entries().len() > 0 {
                let last = storage.entries().len() - 1;
                assert(crate::storage::engine::above_lower(storage.keys()[0], KeyBound::Unbounded));
                assert(crate::storage::engine::above_lower(storage.keys()[last], KeyBound::Unbounded));
            }
            assert forall|j: int| 0 <= j < storage.entries().len() implies storage.index().contains_key(
                #[trigger] storage.entries()[j].0,
            ) by {}
            assert(with_stored_among(table0, *storage, keys.take(0)) =~= table0);
        }
        let mut i: usize = 0;
        while i < items.len()
            invariant
                i <= items@.len(),
                lo == 0,
                items@.len() == storage.entries().len(),
                items_match(storage.log_bytes(), storage.entries(), lo, hi, items@),
                keys == storage.keys(),
                storage.wf(),
                forall|k: Seq<u8>| #[trigger] storage.readable(k) ==> valid_utf8(k) && valid_utf8(storage@[k]),
                forall|j: int|
                    0 <= j < storage.entries().len() ==> storage.index()[#[trigger] storage.entries()[j].0]
                        == storage.entries()[j].1,
                forall|j: int| 0 <= j < storage.entries().len() ==> storage.index().contains_key(
                    #[trigger] storage.entries()[j].0,
                ),
                self.table() == with_stored_among(table0, *storage, keys.take(i as int)),
                self.keypair_text() == old(self).keypair_text(),
            decreases items.len() - i,
        {
            let ghost ks0 = keys.take(i as int);
            let ghost ks1 = keys.take(i + 1);
            let ghost ki = keys[i as int];
            proof {
                assert(item_matches(storage.log_bytes(), storage.entries()[i as int], items@[i as int]));
                assert(ki == storage.entries()[i as int].0);
                assert(ks1 =~= ks0.push(ki));
                assert forall|y: Seq<u8>| ks1.contains(y) <==> (ks0.contains(y) || y == ki) by {
                    if ks1.contains(y) {
                        let j = choose|j: int| 0 <= j < ks1.len() && ks1[j] == y;
                        if j < i {
                            assert(ks0[j] == y);
                        }
                    }
                    if ks0.contains(y) {
                        let j = choose|j: int| 0 <= j < ks0.len() && ks0[j] == y;
                        assert(ks1[j] == y);
                    }
                    if y == ki {
                        assert(ks1[i as int] == y);
                    }
                }
            }
            let mut loaded = false;
            if let Ok((k, v)) = &items[i] {
                proof {
                    assert(storage.readable(ki));
                    assert(k@ == ki && v@ == storage@[ki]);
                }
                let key = string_from_utf8(k.clone());
                let value = string_from_utf8(v.clone());
                if let (Some(key), Some(value)) = (key, value) {
                    if let Ok(actions) = split_char(value.as_str()) {
                        let ghost t = key@;
                        proof {
                            vstd::utf8::decode_utf8_encode_utf8(ki);
                            assert(encode_utf8(t) == ki);
                            assert(stored_user(*storage, t));
                            let m1 = with_stored_among(table0, *storage, ks1);
                            let m0 = with_stored_among(table0, *storage, ks0);
                            let sess = UserSessionView { is_logged_in: false, permissions: actions@ };
                            assert(sess == stored_session(*storage, t));
                            assert forall|x: Seq<char>| #[trigger] m1.contains_key(x) == m0.insert(t, sess).contains_key(x)
                                && (m1.contains_key(x) ==> m1[x] == m0.insert(t, sess)[x]) by {
                                if x != t {
                                    vstd::utf8::encode_utf8_decode_utf8(x);
                                    vstd::utf8::encode_utf8_decode_utf8(t);
                                    assert(encode_utf8(x) != ki);
                                }
                            }
                            assert(m1 =~= m0.insert(t, sess));
                        }
                        session_insert(&mut self.sessions, key, UserSession { is_logged_in: false, permissions: actions });
                        loaded = true;
                    }
                }
            }
            proof {
                if !loaded {
                    let m1 = with_stored_among(table0, *storage, ks1);
                    let m0 = with_stored_among(table0, *storage, ks0);
                    assert forall|x: Seq<char>| encode_utf8(x) == ki implies !stored_user(*storage, x) by {
                        if stored_user(*storage, x) {
                            assert(storage.readable(ki));
                            vstd::utf8::encode_utf8_decode_utf8(x);
                            vstd::utf8::encode_utf8_valid_utf8(x);
                        }
                    }
                    assert(m1 =~= m0);
                }
            }
            i = i + 1;
        }
        proof {
            assert(keys.take(i as int) =~= keys);
        }
        let Ok(pubkey) = self.admin_pubkey() else {
            return Err(Error::UserDoesNotExistError);
        };
        let admin = UserSession { is_logged_in: true, permissions: init() };
        session_insert(&mut self.sessions, pubkey, admin);
        Ok(())
    }

    /// Logs a user in: a user with a session is marked logged in and its
    /// session returned; otherwise the user's permission string is read
    /// from the permission store and the user gets a logged-in session
    /// with those actions.
    pub fn login(&mut self, pubkey: &str, storage: &DiskClient) -> (r: Result<UserSession, Error>)
        requires
            storage.wf(),
        ensures
            final(self).keypair_text() == old(self).keypair_text(),
            !store_keys_utf8(*storage) ==> r is Err && r->Err_0 is InvalidKey && final(self).table() == old(self).table(),
            store_keys_utf8(*storage) && old(self).table().contains_key(pubkey@) ==> r is Ok
                && r->Ok_0@ == (UserSessionView { is_logged_in: true, ..old(self).table()[pubkey@] })
                && final(self).table() == old(self).table().insert(pubkey@, r->Ok_0@),
            store_keys_utf8(*storage) && !old(self).table().contains_key(pubkey@) ==> {
                let k = encode_utf8(pubkey@);
                &&& !storage.index().contains_key(k) ==> r is Err && r->Err_0 is UserDoesNotExistError
                    && final(self).table() == old(self).table()
                &&& storage.index().contains_key(k) && !storage.readable(k) ==> r is Err && r->Err_0 is IoError
                    && final(self).table() == old(self).table()
                &&& storage.readable(k) ==> match stored_actions(storage@[k]) {
                    Some(acts) => r is Ok && r->Ok_0@ == (UserSessionView { is_logged_in: true, permissions: acts })
                        && final(self).table() == old(self).table().insert(pubkey@, r->Ok_0@),
                    None => r is Err && final(self).table() == old(self).table() && (if valid_utf8(storage@[k]) {
                        r->Err_0 is UnsupportedCharacter
                    } else {
                        r->Err_0 is InvalidKey
                    }),
                }
            },
    {
        if !store_keys_are_utf8(storage) {
            return Err(Error::InvalidKey);
        }
        if let Some(user) = session_get(&self.sessions, pubkey) {
            let user = UserSession { is_logged_in: true, permissions: user.permissions };
            let copy = UserSession { is_logged_in: true, permissions: copy_actions(&user.permissions) };
            session_insert(&mut self.sessions, String::from_str(pubkey), copy);
            return Ok(user);
        }
        let got = match storage.get(text_bytes(pubkey)) {
            Ok(g) => g,
            Err(e) => {
                return Err(e);
            },
        };
        if let Some(v) = got {
            let value = match string_from_utf8(v) {
                Some(s) => s,
                None => {
                    return Err(Error::InvalidKey);
                },
            };
            let actions = match split_char(value.as_str()) {
                Ok(a) => a,
                Err(e) => {
                    return Err(e);
                },
            };
            let user = UserSession { is_logged_in: true, permissions: copy_actions(&actions) };
            session_insert(&mut self.sessions, String::from_str(pubkey), UserSession { is_logged_in: true, permissions: actions });
            return Ok(user);
        }
        Err(Error::UserDoesNotExistError)
    }

    /// Logs a user out, keeping the user's session and permissions.
    pub fn logout(&mut self, pubkey: &str) -> (r: Result<String, Error>)
        ensures
            final(self).keypair_text() == old(self).keypair_text(),
            old(self).table().contains_key(pubkey@) ==> r is Ok && r->Ok_0@ == pubkey@
                && final(self).table() == old(self).table().insert(
                pubkey@,
                UserSessionView { is_logged_in: false, ..old(self).table()[pubkey@] },
            ),
            !old(self).table().contains_key(pubkey@) ==> r is Err && r->Err_0 is UserDoesNotExistError
                && final(self).table() == old(self).table(),
    {
        let permissions = String::from_str(pubkey);
        match session_get(&self.sessions, pubkey) {
            Some(user) => {
                session_insert(
                    &mut self.sessions,
                    String::from_str(pubkey),
                    UserSession { is_logged_in: false, permissions: user.permissions },
                );
                Ok(permissions)
            },
            None => Err(Error::UserDoesNotExistError),
        }
    }

    /// Whether the user may perform the action: the administrator may do
    /// anything; another user must be logged in and hold the permission.
    pub fn check_permission(&self, pubkey: &str, action: Action) -> (r: Result<(), Error>)
        ensures
            match admin_of(self.keypair_text()) {
                None => r is Err && r->Err_0 is InvalidKey,
                Some(a) => if pubkey@ == a {
                    r is Ok
                } else if !self.table().contains_key(pubkey@) || !self.table()[pubkey@].is_logged_in {
                    r is Err && r->Err_0 is UserLogout
                } else if self.table()[pubkey@].permissions.contains(action) {
                    r is Ok
                } else {
                    r is Err && r->Err_0 is PermissionDoesNotExistError
                },
            },
    {
        let admin = self.admin_pubkey()?;
        if String::from_str(pubkey) == admin {
            return Ok(());
        }
        let session = match session_get(&self.sessions, pubkey) {
            Some(s) => s,
            None => {
                return Err(Error::UserLogout);
            },
        };
        if !session.is_logged_in {
            return Err(Error::UserLogout);
        }
        if contains_action(&session.permissions, action) {
            Ok(())
        } else {
            Err(Error::PermissionDoesNotExistError)
        }
    }

    /// The administrator grants a user a list of actions: the permission
    /// store keeps the letters of the actions under the user's key, and the
    /// user's session (created logged out when missing) gets the actions.
    pub fn grant_permission(
        &mut self,
        admin_pubkey: &str,
        user_pubkey: &str,
        perm_char: Vec<Action>,
        storage: &mut DiskClient,
    ) -> (r: Result<Vec<Action>, Error>)
        requires
            old(storage).wf(),
            crate::storage::codec::entry_fits(encode_utf8(user_pubkey@), Some(permission_bytes(perm_char@))),
        ensures
            final(self).keypair_text() == old(self).keypair_text(),
            !admin_request_ok(old(self).keypair_text(), admin_pubkey@, user_pubkey@) ==> {
                &&& r is Err && r->Err_0 is UserDoesNotExistError
                &&& final(self).table() == old(self).table()
                &&& *final(storage) == *old(storage)
            },
            admin_request_ok(old(self).keypair_text(), admin_pubkey@, user_pubkey@) ==> {
                &&& DiskClient::set_spec(*old(storage), *final(storage), encode_utf8(user_pubkey@), permission_bytes(perm_char@))
                &&& final(self).table() == old(self).table().insert(
                    user_pubkey@,
                    UserSessionView {
                        is_logged_in: old(self).table().contains_key(user_pubkey@) && old(self).table()[user_pubkey@].is_logged_in,
                        permissions: perm_char@,
                    },
                )
                &&& store_keys_utf8(*final(storage)) ==> r is Ok && r->Ok_0@ == perm_char@
                &&& !store_keys_utf8(*final(storage)) ==> r is Err && r->Err_0 is InvalidKey
            },
    {
        let Ok(public_key) = self.admin_pubkey() else {
            return Err(Error::UserDoesNotExistError);
        };
        if admin_pubkey.unicode_len() == 0 || String::from_str(admin_pubkey) != public_key || user_pubkey.unicode_len() == 0 {
            return Err(Error::UserDoesNotExistError);
        }
        let key = text_bytes(user_pubkey);
        let mut value_str = String::new();
        let mut i: usize = 0;
        while i < perm_char.len()
            invariant
                i <= perm_char@.len(),
                value_str@ == actions_code(perm_char@.subrange(0, i as int)),
            decreases perm_char.len() - i,
        {
            let chars = action_to_char(perm_char[i]).unwrap();
            value_str.append(chars);
            proof {
                assert(perm_char@.subrange(0, i + 1) =~= perm_char@.subrange(0, i as int).push(perm_char@[i as int]));
                assert(actions_code(perm_char@.subrange(0, i + 1)) =~= actions_code(perm_char@.subrange(0, i as int)).push(action_letter(perm_char@[i as int])));
            }
            i = i + 1;
        }
        assert(perm_char@.subrange(0, perm_char@.len() as int) =~= perm_char@);
        let value = text_bytes(value_str.as_str());
        let _ = storage.set(key, value);
        let permissions = copy_actions(&perm_char);
        match session_get(&self.sessions, user_pubkey) {
            Some(session) => {
                session_insert(
                    &mut self.sessions,
                    String::from_str(user_pubkey),
                    UserSession { is_logged_in: session.is_logged_in, permissions },
                );
            },
            None => {
                session_insert(
                    &mut self.sessions,
                    String::from_str(user_pubkey),
                    UserSession { is_logged_in: false, permissions },
                );
            },
        }
        if !store_keys_are_utf8(storage) {
            return Err(Error::InvalidKey);
        }
        Ok(perm_char)
    }

    /// A page of the users the administrator manages, in key order, with
    /// their actions (those of the session, else those stored), and the
    /// number of such users.  Page numbers start at 1 (0 counts as 1).  A
    /// user of the page that only the permission store knows and whose
    /// permission string does not read back makes the request fail.
    pub fn admin_page(&self, page: usize, limit: usize, storage: &DiskClient) -> (r: Result<(usize, Vec<(String, Vec<Action>)>), Error>)
        requires
            storage.wf(),
            (if page == 0 { 0 } else { page - 1 }) * limit <= usize::MAX,
        ensures
            match admin_of(self.keypair_text()) {
                None => r is Err && r->Err_0 is UserDoesNotExistError,
                Some(a) => if !store_keys_utf8(*storage) {
                    r is Err && r->Err_0 is InvalidKey
                } else {
                    exists|l: Seq<Seq<char>>|
                        sorted_texts(l) && l.to_set() == listed_users(*storage, self.table(), a)
                            && page_outcome(l, (if page == 0 { 1 } else { page }) as int, limit as int, self.table(), *storage, r)
                },
            },
    {
        let page_no: usize = if page == 0 { 1 } else { page };
        let admin_pub = match self.admin_pubkey() {
            Ok(a) => a,
            Err(_) => {
                return Err(Error::UserDoesNotExistError);
            },
        };
        let ghost a = admin_pub@;
        let ghost table = self.table();
        assert(admin_of(self.keypair_text()) == Some(a));
        let disk_keys = storage.get_keys()?;
        let mut all: Vec<String> = Vec::new();
        let mut i: usize = 0;
        while i < disk_keys.len()
            invariant
                i <= disk_keys@.len(),
                admin_pub@ == a,
                admin_of(self.keypair_text()) == Some(a),
                disk_keys@.len() == storage.keys().len(),
                forall|t: int| 0 <= t < storage.keys().len() ==> (#[trigger] disk_keys@[t])@ == storage.keys()[t],
                forall|t: int| 0 <= t < i ==> valid_utf8(#[trigger] storage.keys()[t]),
                sorted_texts(strings_of(all@)),
                strings_of(all@).to_set() == Set::new(|k: Seq<char>| k != a && exists|t: int| 0 <= t < i && decode_utf8(#[trigger] storage.keys()[t]) == k),
            decreases disk_keys.len() - i,
        {
            let ghost before = strings_of(all@).to_set();
            let kc = disk_keys[i].clone();
            assert(kc@ =~= storage.keys()[i as int]);
            let key_str = match string_from_utf8(kc) {
                Some(s) => s,
                None => {
                    proof {
                        assert(!valid_utf8(storage.keys()[i as int]));
                        assert(!store_keys_utf8(*storage));
                        assert(admin_of(self.keypair_text()) == Some(a));
                    }
                    return Err(Error::InvalidKey);
                },
            };
            assert(key_str@ == decode_utf8(storage.keys()[i as int]));
            let ghost ks = key_str@;
            let ghost target = Set::new(|k: Seq<char>| k != a && exists|t: int| 0 <= t < i + 1 && decode_utf8(#[trigger] storage.keys()[t]) == k);
            proof {
                assert forall|k: Seq<char>| #[trigger] target.contains(k) <==> (before.contains(k) || (k == ks && k != a)) by {
                    if target.contains(k) {
                        let t = choose|t: int| 0 <= t < i + 1 && decode_utf8(#[trigger] storage.keys()[t]) == k;
                        if t < i {
                            assert(0 <= t < i && decode_utf8(storage.keys()[t]) == k);
                        }
                    }
                    if before.contains(k) {
                        let t = choose|t: int| 0 <= t < i && decode_utf8(#[trigger] storage.keys()[t]) == k;
                        assert(0 <= t < i + 1 && decode_utf8(storage.keys()[t]) == k);
                    }
                    if k == ks && k != a {
                        assert(0 <= i < i + 1 && decode_utf8(storage.keys()[i as int]) == k);
                    }
                }
            }
            if !(key_str == admin_pub) {
                insert_sorted(&mut all, key_str);
                assert(strings_of(all@).to_set() =~= target);
            } else {
                assert(strings_of(all@).to_set() =~= target);
            }
            i = i + 1;
        }
        assert(store_keys_utf8(*storage));
        let mem_keys = session_keys(&self.sessions);
        let ghost disk_set = strings_of(all@).to_set();
        let mut j: usize = 0;
        while j < mem_keys.len()
            invariant
                j <= mem_keys@.len(),
                admin_pub@ == a,
                sorted_texts(strings_of(all@)),
                strings_of(all@).to_set() == disk_set.union(Set::new(|k: Seq<char>| k != a && exists|t: int| 0 <= t < j && strings_of(mem_keys@)[t] == k)),
            decreases mem_keys.len() - j,
        {
            let ghost before = strings_of(all@).to_set();
            let k = mem_keys[j].clone();
            assert(k@ == strings_of(mem_keys@)[j as int]);
            let ghost kk = k@;
            let ghost target = disk_set.union(Set::new(|x: Seq<char>| x != a && exists|t: int| 0 <= t < j + 1 && strings_of(mem_keys@)[t] == x));
            proof {
                assert forall|x: Seq<char>| #[trigger] target.contains(x) <==> (before.contains(x) || (x == kk && x != a)) by {
                    if target.contains(x) && !disk_set.contains(x) {
                        let t = choose|t: int| 0 <= t < j + 1 && strings_of(mem_keys@)[t] == x;
                        if t < j {
                            assert(0 <= t < j && strings_of(mem_keys@)[t] == x);
                        }
                    }
                    if before.contains(x) && !disk_set.contains(x) {
                        let t = choose|t: int| 0 <= t < j && strings_of(mem_keys@)[t] == x;
                        assert(0 <= t < j + 1 && strings_of(mem_keys@)[t] == x);
                    }
                    if x == kk && x != a {
                        assert(0 <= j < j + 1 && strings_of(mem_keys@)[j as int] == x);
                    }
                }
            }
            if !(k == admin_pub) {
                insert_sorted(&mut all, k);
                assert(strings_of(all@).to_set() =~= target);
            } else {
                assert(strings_of(all@).to_set() =~= target);
            }
            j = j + 1;
        }
        let ghost l = strings_of(all@);
        proof {
            assert(l.to_set() =~= listed_users(*storage, table, a)) by {
                assert forall|x: Seq<char>| l.to_set().contains(x) <==> listed_users(*storage, table, a).contains(x) by {
                    if table.contains_key(x) {
                        assert(strings_of(mem_keys@).contains(x));
                        let t = choose|t: int| 0 <= t < mem_keys@.len() && strings_of(mem_keys@)[t] == x;
                    }
                    if l.to_set().contains(x) && !disk_set.contains(x) {
                        let t = choose|t: int| 0 <= t < mem_keys@.len() && strings_of(mem_keys@)[t] == x;
                        assert(strings_of(mem_keys@).contains(x));
                    }
                }
            }
        }
        let total = all.len();
        let start = (page_no - 1) * limit;
        let mut result: Vec<(String, Vec<Action>)> = Vec::new();
        let ghost w = page_window(l, page_no as int, limit as int);
        let ghost pred = |k: Seq<char>| page_listed(table, *storage, k);
        if start < total {
            let end = if limit < total - start {
                start + limit
            } else {
                total
            };
            assert(w =~= l.subrange(start as int, end as int));
            let mut i = start;
            while i < end
                invariant
                    start <= i <= end <= total == l.len(),
                    admin_of(self.keypair_text()) == Some(a),
                    store_keys_utf8(*storage),
                    w == page_window(l, page_no as int, limit as int),
                    page_no == (if page == 0 { 1 } else { page }),
                    l == strings_of(all@),
                    w == l.subrange(start as int, end as int),
                    table == self.table(),
                    storage.wf(),
                    pair_keys(result@) == w.subrange(0, i - start).filter(pred),
                    sorted_texts(l),
                    l.to_set() == listed_users(*storage, table, a),
                    pred == (|k: Seq<char>| page_listed(table, *storage, k)),
                    pairs_listed(result@, table, *storage),
                    forall|u: int| 0 <= u < i - start ==> !page_fails_at(w, u, table, *storage),
                decreases end - i,
            {
                let key = all[i].clone();
                assert(key@ == w[i - start]);
                let ghost pre = w.subrange(0, i - start);
                let ghost before = result@;
                assert(w.subrange(0, i + 1 - start) =~= pre.push(key@));
                proof {
                    pre.lemma_filter_push(key@, pred);
                }
                match session_get(&self.sessions, key.as_str()) {
                    Some(session) => {
                        result.push((key, session.permissions));
                        proof {
                            assert(pair_keys(result@) =~= pair_keys(before).push(w[i - start]));
                            assert forall|t: int| 0 <= t < result@.len() implies if table.contains_key((#[trigger] result@[t]).0@) {
                                result@[t].1@ == table[result@[t].0@].permissions
                            } else {
                                stored_actions(storage@[encode_utf8(result@[t].0@)]) == Some(result@[t].1@)
                            } by {
                                if t < before.len() {
                                    assert(result@[t] == before[t]);
                                }
                            }
                        }
                    },
                    None => {
                        match storage.get(text_bytes(key.as_str())) {
                            Ok(Some(v)) => {
                                let ghost kv = storage@[encode_utf8(key@)];
                                assert(storage.readable(encode_utf8(key@)));
                                assert(v@ == kv);
                                let val_str = match string_from_utf8(v) {
                                    Some(s) => s,
                                    None => {
                                        proof {
                                            assert(page_fails_at(w, i - start, table, *storage));
                                            assert(page_fails(w, table, *storage));
                                        }
                                        assert(page_outcome(l, page_no as int, limit as int, table, *storage, Err(Error::InvalidKey)));
                                        return Err(Error::InvalidKey);
                                    },
                                };
                                match split_char(val_str.as_str()) {
                                    Ok(actions) => {
                                        assert(stored_actions(kv) == Some(actions@));
                                        result.push((key, actions));
                                        proof {
                                            assert(pair_keys(result@) =~= pair_keys(before).push(w[i - start]));
                                            assert forall|t: int| 0 <= t < result@.len() implies if table.contains_key((#[trigger] result@[t]).0@) {
                                                result@[t].1@ == table[result@[t].0@].permissions
                                            } else {
                                                stored_actions(storage@[encode_utf8(result@[t].0@)]) == Some(result@[t].1@)
                                            } by {
                                                if t < before.len() {
                                                    assert(result@[t] == before[t]);
                                                }
                                            }
                                        }
                                    },
                                    Err(e) => {
                                        proof {
                                            assert(page_fails_at(w, i - start, table, *storage));
                                            assert(page_fails(w, table, *storage));
                                        }
                                        assert(page_outcome(l, page_no as int, limit as int, table, *storage, Err(e)));
                                        return Err(e);
                                    },
                                }
                            },
                            _ => {
                                assert(!storage.readable(encode_utf8(key@)));
                            },
                        }
                    },
                }
                i = i + 1;
            }
            assert(w.subrange(0, end - start) =~= w);
            assert(!page_fails(w, table, *storage)) by {
                if page_fails(w, table, *storage) {
                    let t = choose|t: int| #[trigger] page_fails_at(w, t, table, *storage);
                    assert(!page_fails_at(w, t, table, *storage));
                }
            }
        } else {
            assert(w =~= Seq::<Seq<char>>::empty());
            assert(w.filter(pred) =~= Seq::<Seq<char>>::empty()) by {
                reveal(Seq::filter);
            }
            assert(pair_keys(result@) =~= Seq::<Seq<char>>::empty());
        }
        proof {
            assert(page_outcome(l, page_no as int, limit as int, table, *storage, Ok((total, result))));
        }
        Ok((total, result))
    }

    /// The users whose key text starts with `pubkey`, the administrator
    /// left out, at most `limit` of them: first from the sessions (in the
    /// table's own order), then new users from the permission store in key
    /// order, with their stored actions; a stored entry that cannot be read
    /// as text or whose permission string does not read back makes the
    /// lookup fail.
    pub fn admin_get(&self, pubkey: String, limit: usize, storage: &DiskClient) -> (r: Result<Vec<(String, Vec<Action>)>, Error>)
        requires
            storage.wf(),
        ensures
            match admin_of(self.keypair_text()) {
                None => r is Err && r->Err_0 is UserDoesNotExistError,
                Some(a) => exists|o: Seq<Seq<char>>| {
                    &&& o.no_duplicates()
                    &&& forall|k: Seq<char>| #[trigger] o.contains(k) <==> self.table().contains_key(k)
                    &&& lookup_outcome(o, pubkey@, a, limit as int, self.table(), *storage, r)
                },
            },
    {
        let admin_pub = match self.admin_pubkey() {
            Ok(a) => a,
            Err(_) => {
                return Err(Error::UserDoesNotExistError);
            },
        };
        let ghost a = admin_pub@;
        let ghost table = self.table();
        let prefix = text_bytes(pubkey.as_str());
        let mem_keys = session_keys(&self.sessions);
        let ghost o = strings_of(mem_keys@);
        let ghost m = |k: Seq<char>| lookup_match(k, pubkey@, a);
        let mut result: Vec<(String, Vec<Action>)> = Vec::new();
        let mut i: usize = 0;
        assert(o.take(0).filter(m) =~= Seq::<Seq<char>>::empty()) by {
            reveal(Seq::filter);
        }
        if mem_keys.len() == 0 {
            assert(o.take(0) =~= o);
        }
        while i < mem_keys.len()
            invariant
                i <= mem_keys@.len(),
                o == strings_of(mem_keys@),
                prefix@ == encode_utf8(pubkey@),
                admin_pub@ == a,
                table == self.table(),
                forall|k: Seq<char>| table.contains_key(k) <==> o.contains(k),
                m == (|k: Seq<char>| lookup_match(k, pubkey@, a)),
                pair_keys(result@) == o.take(i as int).filter(m),
                i == o.len() ==> pair_keys(result@) == o.filter(m),
                result@.len() <= limit,
                pairs_from_table(result@, table),
            ensures
                pair_keys(result@) == first_n(o.filter(m), limit as int),
                pairs_from_table(result@, table),
            decreases mem_keys.len() - i,
        {
            if result.len() >= limit {
                proof {
                    lemma_take_filter_prefix(o, i as int, m);
                    let full = o.filter(m);
                    if (limit as int) < full.len() {
                        assert(full.take(limit as int) =~= pair_keys(result@));
                    } else {
                        assert(full =~= pair_keys(result@));
                    }
                }
                break;
            }
            let k = &mem_keys[i];
            assert(k@ == o[i as int]);
            let matches = !(*k == admin_pub) && bytes_start_with(k.as_str().as_bytes(), prefix.as_slice());
            assert(matches == m(o[i as int]));
            let ghost before = result@;
            if matches {
                assert(o.contains(k@));
                match session_get(&self.sessions, k.as_str()) {
                    Some(session) => {
                        result.push((k.clone(), session.permissions));
                        proof {
                            assert(pair_keys(result@) =~= pair_keys(before).push(k@));
                            assert forall|t: int| 0 <= t < result@.len() implies table.contains_key((#[trigger] result@[t]).0@)
                                && result@[t].1@ == table[result@[t].0@].permissions by {
                                if t < before.len() {
                                    assert(result@[t] == before[t]);
                                }
                            }
                        }
                    },
                    None => {},
                }
            }
            proof {
                assert(o.take(i + 1) =~= o.take(i as int).push(o[i as int]));
                o.take(i as int).lemma_filter_push(o[i as int], m);
            }
            i = i + 1;
            proof {
                if i == mem_keys.len() {
                    assert(o.take(i as int) =~= o);
                }
            }
        }
        let ghost chosen = first_n(o.filter(m), limit as int);
        let ghost dk = prefixed_keys(*storage, encode_utf8(pubkey@));
        let ghost keep = lookup_new(chosen, a);
        proof {
            assert(decoded_keys(dk.take(0)) =~= Seq::<Seq<char>>::empty());
            assert(lookup_added(dk.take(0), chosen, a) =~= Seq::<Seq<char>>::empty()) by {
                reveal(Seq::filter);
            }
            assert(pair_keys(result@) =~= chosen + lookup_added(dk.take(0), chosen, a));
        }
        if result.len() < limit {
            let remaining = limit - result.len();
            let items = storage.scan_prefix(prefix);
            let ghost pred = |k: Seq<u8>| encode_utf8(pubkey@).is_prefix_of(k);
            let ghost (lo, hi) = choose|lo: int, hi: int|
                items_match(storage.log_bytes(), storage.entries(), lo, hi, items@) && forall|j: int|
                    0 <= j < storage.entries().len() ==> ((lo <= j < hi) <==> encode_utf8(pubkey@).is_prefix_of(
                        #[trigger] storage.keys()[j],
                    ));
            proof {
                assert forall|j: int| 0 <= j < storage.keys().len() implies ((lo <= j < hi) <==> pred(#[trigger] storage.keys()[j])) by {
                }
                lemma_block_is_filter(storage.keys(), lo, hi, pred);
                assert(dk == storage.keys().subrange(lo, hi));
                storage.lemma_index();
            }
            let n = if remaining < items.len() {
                remaining
            } else {
                items.len()
            };
            let mut t: usize = 0;
            while t < n
                invariant
                    t <= n <= items@.len(),
                    n == (if limit - chosen.len() < dk.len() { limit - chosen.len() } else { dk.len() as int }),
                    chosen.len() < limit,
                    storage.wf(),
                    admin_pub@ == a,
                    admin_of(self.keypair_text()) == Some(a),
                    table == self.table(),
                    forall|k: Seq<char>| table.contains_key(k) <==> o.contains(k),
                    o.no_duplicates(),
                    o == strings_of(mem_keys@),
                    chosen == first_n(o.filter(m), limit as int),
                    keep == lookup_new(chosen, a),
                    m == (|k: Seq<char>| lookup_match(k, pubkey@, a)),
                    dk == prefixed_keys(*storage, encode_utf8(pubkey@)),
                    items_match(storage.log_bytes(), storage.entries(), lo, hi, items@),
                    dk == storage.keys().subrange(lo, hi),
                    forall|x: int, y: int| 0 <= x < y < storage.entries().len() ==> bytes_lt(
                        #[trigger] storage.keys()[x],
                        #[trigger] storage.keys()[y],
                    ),
                    pair_keys(result@) == chosen + lookup_added(dk.take(t as int), chosen, a),
                    forall|i: int| 0 <= i < chosen.len() ==> table.contains_key((#[trigger] result@[i]).0@)
                        && result@[i].1@ == table[result@[i].0@].permissions,
                    forall|i: int| chosen.len() <= i < result@.len() ==> stored_actions(
                        storage@[encode_utf8((#[trigger] result@[i]).0@)],
                    ) == Some(result@[i].1@),
                    forall|u: int| 0 <= u < t ==> !lookup_blocks(*storage, #[trigger] dk[u], chosen, a),
                decreases n - t,
            {
                proof {
                    storage.lemma_index();
                    assert(item_matches(storage.log_bytes(), storage.entries()[lo + t], items@[t as int]));
                    assert(dk[t as int] == storage.entries()[lo + t].0);
                }
                let ghost d0 = dk.take(t as int);
                let ghost added0 = lookup_added(d0, chosen, a);
                let ghost before = result@;
                proof {
                    assert(dk.take(t + 1) =~= d0.push(dk[t as int]));
                    assert(decoded_keys(d0.push(dk[t as int])) =~= decoded_keys(d0).push(decode_utf8(dk[t as int])));
                    decoded_keys(d0).lemma_filter_push(decode_utf8(dk[t as int]), keep);
                }
                match &items[t] {
                    Err(_) => {
                        proof {
                            assert(!storage.readable(dk[t as int]));
                            assert(lookup_outcome(o, pubkey@, a, limit as int, table, *storage, Err(Error::InvalidKey)));
                        }
                        return Err(Error::InvalidKey);
                    },
                    Ok((k, v)) => {
                        assert(storage.readable(dk[t as int]));
                        assert(k@ == dk[t as int]);
                        assert(v@ == storage@[dk[t as int]]);
                        let key_str = match string_from_utf8(k.clone()) {
                            Some(s) => s,
                            None => {
                                assert(lookup_outcome(o, pubkey@, a, limit as int, table, *storage, Err(Error::InvalidKey)));
                                return Err(Error::InvalidKey);
                            },
                        };
                        proof {
                            // The key is not among those added before: the keys are distinct.
                            assert(!added0.contains(key_str@)) by {
                                if added0.contains(key_str@) {
                                    let j = choose|j: int| 0 <= j < added0.len() && added0[j] == key_str@;
                                    decoded_keys(d0).lemma_filter_contains_rev(keep, key_str@);
                                    let u = choose|u: int| 0 <= u < decoded_keys(d0).len() && decoded_keys(d0)[u] == key_str@;
                                    assert(decode_utf8(dk[u]) == decode_utf8(dk[t as int]));
                                    assert(!lookup_blocks(*storage, dk[u], chosen, a));
                                    vstd::utf8::decode_utf8_encode_utf8(dk[u]);
                                    vstd::utf8::decode_utf8_encode_utf8(dk[t as int]);
                                    assert(dk[u] == dk[t as int]);
                                    assert(dk[u] == storage.keys()[lo + u]);
                                    assert(dk[t as int] == storage.keys()[lo + t]);
                                    assert(bytes_lt(storage.keys()[lo + u], storage.keys()[lo + t]));
                                    lemma_lt_strict_total(dk[u], dk[u]);
                                }
                            }
                            assert(pair_keys(result@).contains(key_str@) <==> chosen.contains(key_str@)) by {
                                if pair_keys(result@).contains(key_str@) {
                                    let j = choose|j: int| 0 <= j < pair_keys(result@).len() && pair_keys(result@)[j] == key_str@;
                                    if j >= chosen.len() {
                                        assert(added0[j - chosen.len()] == key_str@);
                                    }
                                }
                                if chosen.contains(key_str@) {
                                    let j = choose|j: int| 0 <= j < chosen.len() && chosen[j] == key_str@;
                                    assert(pair_keys(result@)[j] == key_str@);
                                }
                            }
                        }
                        if !(key_str == admin_pub) && !pairs_contain(&result, &key_str) {
                            let val_str = match string_from_utf8(v.clone()) {
                                Some(s) => s,
                                None => {
                                    assert(lookup_outcome(o, pubkey@, a, limit as int, table, *storage, Err(Error::InvalidKey)));
                                    return Err(Error::InvalidKey);
                                },
                            };
                            match split_char(val_str.as_str()) {
                                Ok(actions) => {
                                    let ghost ks = key_str@;
                                    result.push((key_str, actions));
                                    proof {
                                        vstd::utf8::decode_utf8_encode_utf8(dk[t as int]);
                                        assert(pair_keys(result@) =~= pair_keys(before).push(ks));
                                        assert(lookup_added(dk.take(t + 1), chosen, a) == added0.push(ks));
                                        assert(pair_keys(result@) =~= chosen + lookup_added(dk.take(t + 1), chosen, a));
                                        assert forall|i: int| 0 <= i < chosen.len() implies table.contains_key((#[trigger] result@[i]).0@)
                                            && result@[i].1@ == table[result@[i].0@].permissions by {
                                            assert(result@[i] == before[i]);
                                        }
                                        assert forall|i: int| chosen.len() <= i < result@.len() implies stored_actions(
                                            storage@[encode_utf8((#[trigger] result@[i]).0@)],
                                        ) == Some(result@[i].1@) by {
                                            if i < before.len() {
                                                assert(result@[i] == before[i]);
                                            }
                                        }
                                    }
                                },
                                Err(e) => {
                                    assert(lookup_outcome(o, pubkey@, a, limit as int, table, *storage, Err(e)));
                                    return Err(e);
                                },
                            }
                        } else {
                            proof {
                                assert(lookup_added(dk.take(t + 1), chosen, a) == added0);
                            }
                        }
                    },
                }
                t = t + 1;
            }
        } else {
            proof {
                assert forall|i: int| 0 <= i < chosen.len() implies table.contains_key((#[trigger] result@[i]).0@)
                    && result@[i].1@ == table[result@[i].0@].permissions by {
                    assert(pairs_from_table(result@, table));
                }
            }
        }
        assert(lookup_outcome(o, pubkey@, a, limit as int, table, *storage, Ok(result)));
        Ok(result)
    }

    /// A login replicated to this node: the user's session is now logged
    /// in with these permissions.
    pub fn sync_login(&mut self, pubkey: String, permissions: Vec<Action>)
        ensures
            final(self).keypair_text() == old(self).keypair_text(),
            final(self).table() == old(self).table().insert(
                pubkey@,
                UserSessionView { is_logged_in: true, permissions: permissions@ },
            ),
    {
        session_insert(&mut self.sessions, pubkey, UserSession { is_logged_in: true, permissions });
    }

    /// A logout replicated to this node: a user with a session is marked
    /// logged out; nothing else changes.
    pub fn sync_logout(&mut self, pubkey: &str)
        ensures
            final(self).keypair_text() == old(self).keypair_text(),
            old(self).table().contains_key(pubkey@) ==> final(self).table() == old(self).table().insert(
                pubkey@,
                UserSessionView { is_logged_in: false, ..old(self).table()[pubkey@] },
            ),
            !old(self).table().contains_key(pubkey@) ==> final(self).table() == old(self).table(),
    {
        if let Some(session) = session_get(&self.sessions, pubkey) {
            session_insert(
                &mut self.sessions,
                String::from_str(pubkey),
                UserSession { is_logged_in: false, permissions: session.permissions },
            );
        }
    }

    /// A grant replicated to this node: a user with a session gets the
    /// permissions; nothing else changes.
    pub fn sync_permissions(&mut self, pubkey: &str, permissions: Vec<Action>)
        ensures
            final(self).keypair_text() == old(self).keypair_text(),
            old(self).table().contains_key(pubkey@) ==> final(self).table() == old(self).table().insert(
                pubkey@,
                UserSessionView { permissions: permissions@, ..old(self).table()[pubkey@] },
            ),
            !old(self).table().contains_key(pubkey@) ==> final(self).table() == old(self).table(),
    {
        if let Some(session) = session_get(&self.sessions, pubkey) {
            session_insert(
                &mut self.sessions,
                String::from_str(pubkey),
                UserSession { is_logged_in: session.is_logged_in, permissions },
            );
        }
    }

    /// A revocation replicated to this node: the user's session is gone.
    pub fn sync_remove(&mut self, pubkey: &str)
        ensures
            final(self).keypair_text() == old(self).keypair_text(),
            final(self).table() == old(self).table().remove(pubkey@),
    {
        session_remove(&mut self.sessions, pubkey);
    }

    /// The administrator revokes a user: the user's permissions leave the
    /// store and the user's session is dropped.
    pub fn revoke_permission(&mut self, admin_pubkey: &str, user_pubkey: &str, storage: &mut DiskClient) -> (r: Result<String, Error>)
        requires
            old(storage).wf(),
            crate::storage::codec::entry_fits(encode_utf8(user_pubkey@), None),
        ensures
            final(self).keypair_text() == old(self).keypair_text(),
            !admin_request_ok(old(self).keypair_text(), admin_pubkey@, user_pubkey@) ==> {
                &&& r is Err && r->Err_0 is UserDoesNotExistError
                &&& final(self).table() == old(self).table()
                &&& *final(storage) == *old(storage)
            },
            admin_request_ok(old(self).keypair_text(), admin_pubkey@, user_pubkey@) ==> {
                &&& DiskClient::delete_spec(*old(storage), *final(storage), encode_utf8(user_pubkey@))
                &&& final(self).table() == old(self).table().remove(user_pubkey@)
                &&& store_keys_utf8(*final(storage)) ==> r is Ok && r->Ok_0@ == user_pubkey@
                &&& !store_keys_utf8(*final(storage)) ==> r is Err && r->Err_0 is InvalidKey
            },
    {
        let Ok(public_key) = self.admin_pubkey() else {
            return Err(Error::UserDoesNotExistError);
        };
        if admin_pubkey.unicode_len() == 0 || String::from_str(admin_pubkey) != public_key || user_pubkey.unicode_len() == 0 {
            return Err(Error::UserDoesNotExistError);
        }
        let key = text_bytes(user_pubkey);
        let _ = storage.delete(key);
        session_remove(&mut self.sessions, user_pubkey);
        if !store_keys_are_utf8(storage) {
            return Err(Error::InvalidKey);
        }
        Ok(String::from_str(user_pubkey))
    }
}

/// Whether every key of the store is UTF-8 text.
pub fn store_keys_are_utf8(storage: &DiskClient) -> (r: bool)
    ensures
        r == store_keys_utf8(*storage),
{
    let disk_keys = match storage.get_keys() {
        Ok(k) => k,
        Err(_) => {
            return false;
        },
    };
    let r = all_utf8(&disk_keys);
    proof {
        if r {
            assert forall|i: int| 0 <= i < storage.keys().len() implies valid_utf8(#[trigger] storage.keys()[i]) by {
                assert(disk_keys@[i]@ == storage.keys()[i]);
            }
        } else {
            let i = choose|i: int| 0 <= i < disk_keys@.len() && !valid_utf8(#[trigger] disk_keys@[i]@);
            assert(disk_keys@[i]@ == storage.keys()[i]);
        }
    }
    r
}


/// Key texts in ascending order of their UTF-8 bytes (the order of `String`).
pub open spec fn sorted_texts(l: Seq<Seq<char>>) -> bool {
    forall|i: int, j: int| 0 <= i < j < l.len() ==> bytes_lt(encode_utf8(#[trigger] l[i]), encode_utf8(#[trigger] l[j]))
}

/// The users the administrator pages through: those of the permission
/// store and those with a session, the administrator left out.
pub open spec fn listed_users(storage: DiskClient, table: Map<Seq<char>, UserSessionView>, admin: Seq<char>) -> Set<Seq<char>> {
    Set::new(|k: Seq<char>| k != admin && (table.contains_key(k) || exists|i: int| 0 <= i < storage.keys().len() && decode_utf8(#[trigger] storage.keys()[i]) == k))
}

/// The part of the listing a page shows.
pub open spec fn page_window(l: Seq<Seq<char>>, page: int, limit: int) -> Seq<Seq<char>> {
    let start = (page - 1) * limit;
    if start < l.len() {
        l.subrange(start, if start + limit < l.len() { start + limit } else { l.len() as int })
    } else {
        Seq::empty()
    }
}

/// The user at position `t` of the page only the permission store knows,
/// and its stored permission string does not read back.
pub open spec fn page_fails_at(w: Seq<Seq<char>>, t: int, table: Map<Seq<char>, UserSessionView>, storage: DiskClient) -> bool {
    &&& 0 <= t < w.len()
    &&& !table.contains_key(w[t])
    &&& storage.readable(encode_utf8(w[t]))
    &&& stored_actions(storage@[encode_utf8(w[t])]) is None
}

/// Some user of the page makes reading the page fail.
pub open spec fn page_fails(w: Seq<Seq<char>>, table: Map<Seq<char>, UserSessionView>, storage: DiskClient) -> bool {
    exists|t: int| #[trigger] page_fails_at(w, t, table, storage)
}

/// The texts of a list of (user, actions) pairs.
pub open spec fn pair_keys(v: Seq<(String, Vec<Action>)>) -> Seq<Seq<char>> {
    v.map_values(|p: (String, Vec<Action>)| p.0@)
}

/// Each pair carries the actions of the user's session.
pub open spec fn pairs_from_table(v: Seq<(String, Vec<Action>)>, table: Map<Seq<char>, UserSessionView>) -> bool {
    forall|i: int| 0 <= i < v.len() ==> table.contains_key((#[trigger] v[i]).0@) && v[i].1@ == table[v[i].0@].permissions
}

/// Each pair carries the actions of the user's session, or, for a user
/// without one, the actions of its stored permission string.
pub open spec fn pairs_listed(v: Seq<(String, Vec<Action>)>, table: Map<Seq<char>, UserSessionView>, storage: DiskClient) -> bool {
    forall|i: int|
        0 <= i < v.len() ==> if table.contains_key((#[trigger] v[i]).0@) {
            v[i].1@ == table[v[i].0@].permissions
        } else {
            stored_actions(storage@[encode_utf8(v[i].0@)]) == Some(v[i].1@)
        }
}

/// The user has a session or a readable entry in the permission store.
pub open spec fn page_listed(table: Map<Seq<char>, UserSessionView>, storage: DiskClient, k: Seq<char>) -> bool {
    table.contains_key(k) || storage.readable(encode_utf8(k))
}

/// What a page request gives for a listing `l`: the users of the page
/// that have a session or a readable stored entry, each with its actions;
/// the first user whose stored permission string does not read back makes
/// the request fail.
pub open spec fn page_outcome(
    l: Seq<Seq<char>>,
    page: int,
    limit: int,
    table: Map<Seq<char>, UserSessionView>,
    storage: DiskClient,
    r: Result<(usize, Vec<(String, Vec<Action>)>), Error>,
) -> bool {
    let w = page_window(l, page, limit);
    if page_fails(w, table, storage) {
        &&& r is Err
        &&& exists|t: int| {
            &&& #[trigger] page_fails_at(w, t, table, storage)
            &&& forall|u: int| 0 <= u < t ==> !page_fails_at(w, u, table, storage)
            &&& if valid_utf8(storage@[encode_utf8(w[t])]) {
                r->Err_0 is UnsupportedCharacter
            } else {
                r->Err_0 is InvalidKey
            }
        }
    } else {
        &&& r is Ok
        &&& r->Ok_0.0 == l.len()
        &&& pair_keys(r->Ok_0.1@) == w.filter(|k: Seq<char>| page_listed(table, storage, k))
        &&& pairs_listed(r->Ok_0.1@, table, storage)
    }
}

/// Inserts a key text into a sorted list of key texts, keeping it sorted
/// and free of repeats.
fn insert_sorted(l: &mut Vec<String>, k: String)
    requires
        sorted_texts(strings_of(old(l)@)),
    ensures
        sorted_texts(strings_of(final(l)@)),
        strings_of(final(l)@).to_set() == strings_of(old(l)@).to_set().insert(k@),
{
    let ghost old_l = strings_of(l@);
    let kb = k.as_str().as_bytes();
    let mut i: usize = 0;
    while i < l.len()
        invariant
            i <= l@.len(),
            l@ == old(l)@,
            old_l == strings_of(l@),
            kb@ == encode_utf8(k@),
            sorted_texts(old_l),
            forall|j: int| 0 <= j < i ==> bytes_lt(encode_utf8(#[trigger] old_l[j]), kb@),
        ensures
            i <= l@.len(),
            l@ == old(l)@,
            forall|j: int| 0 <= j < i ==> bytes_lt(encode_utf8(#[trigger] old_l[j]), kb@),
            i < l@.len() ==> bytes_lt(kb@, encode_utf8(old_l[i as int])),
        decreases l.len() - i,
    {
        let c = compare_bytes(l[i].as_str().as_bytes(), kb);
        assert(old_l[i as int] == l@[i as int]@);
        if c == 0 {
            proof {
                vstd::utf8::encode_utf8_decode_utf8(old_l[i as int]);
                vstd::utf8::encode_utf8_decode_utf8(k@);
                assert(old_l.to_set().insert(k@) =~= old_l.to_set());
            }
            return;
        }
        if c == 1 {
            break;
        }
        i = i + 1;
    }
    let ghost pos = i;
    proof {
        assert forall|j: int| pos <= j < old_l.len() implies bytes_lt(kb@, encode_utf8(#[trigger] old_l[j])) by {
            if j > pos {
                lemma_lt_trans(kb@, encode_utf8(old_l[pos as int]), encode_utf8(old_l[j]));
            }
        }
    }
    l.insert(i, k);
    proof {
        let new_l = strings_of(l@);
        assert(new_l =~= old_l.insert(pos as int, k@));
        assert forall|a: int, b: int| 0 <= a < b < new_l.len() implies bytes_lt(encode_utf8(#[trigger] new_l[a]), encode_utf8(#[trigger] new_l[b])) by {
            if a < pos && b < pos {
                assert(new_l[a] == old_l[a] && new_l[b] == old_l[b]);
            } else if a < pos && b == pos {
                assert(new_l[a] == old_l[a]);
            } else if a < pos && b > pos {
                assert(new_l[a] == old_l[a] && new_l[b] == old_l[b - 1]);
                lemma_lt_trans(encode_utf8(old_l[a]), kb@, encode_utf8(old_l[b - 1]));
            } else if a == pos {
                assert(new_l[b] == old_l[b - 1]);
            } else {
                assert(new_l[a] == old_l[a - 1] && new_l[b] == old_l[b - 1]);
            }
        }
        assert(new_l.to_set() =~= old_l.to_set().insert(k@)) by {
            assert forall|x: Seq<char>| new_l.to_set().contains(x) <==> old_l.to_set().insert(k@).contains(x) by {
                if new_l.to_set().contains(x) {
                    let t = choose|t: int| 0 <= t < new_l.len() && new_l[t] == x;
                    if t < pos {
                        assert(old_l[t] == x);
                    } else if t > pos {
                        assert(old_l[t - 1] == x);
                    }
                }
                if old_l.to_set().contains(x) {
                    let t = choose|t: int| 0 <= t < old_l.len() && old_l[t] == x;
                    if t < pos {
                        assert(new_l[t] == x);
                    } else {
                        assert(new_l[t + 1] == x);
                    }
                }
                if x == k@ {
                    assert(new_l[pos as int] == x);
                }
            }
        }
    }
}

/// A copy of a list of actions.
pub fn copy_actions(v: &Vec<Action>) -> (r: Vec<Action>)
    ensures
        r@ == v@,
{
    let mut out: Vec<Action> = Vec::new();
    let mut i: usize = 0;
    while i < v.len()
        invariant
            i <= v@.len(),
            out@ =~= v@.subrange(0, i as int),
        decreases v.len() - i,
    {
        out.push(v[i]);
        i = i + 1;
    }
    out
}

/// Whether the list holds the action.
pub fn contains_action(v: &Vec<Action>, a: Action) -> (r: bool)
    ensures
        r == v@.contains(a),
{
    let mut i: usize = 0;
    while i < v.len()
        invariant
            i <= v@.len(),
            forall|j: int| 0 <= j < i ==> v@[j] != a,
        decreases v.len() - i,
    {
        if v[i] == a {
            assert(v@[i as int] == a);
            return true;
        }
        i = i + 1;
    }
    false
}

/// A contiguous block of a sequence holding exactly the elements that meet
/// a predicate is what filtering by that predicate keeps.
pub proof fn lemma_block_is_filter<A>(s: Seq<A>, lo: int, hi: int, pred: spec_fn(A) -> bool)
    requires
        0 <= lo <= hi <= s.len(),
        forall|j: int| 0 <= j < s.len() ==> ((lo <= j < hi) <==> pred(#[trigger] s[j])),
    ensures
        s.subrange(lo, hi) == s.filter(pred),
    decreases s.len(),
{
    if s.len() == 0 {
        assert(s.filter(pred) =~= Seq::<A>::empty()) by {
            reveal(Seq::filter);
        }
        assert(s.subrange(lo, hi) =~= Seq::<A>::empty());
    } else {
        let t = s.drop_last();
        let last = s.last();
        assert(s =~= t.push(last));
        t.lemma_filter_push(last, pred);
        if lo < hi && hi == s.len() {
            assert forall|j: int| 0 <= j < t.len() implies ((lo <= j < hi - 1) <==> pred(#[trigger] t[j])) by {
                assert(t[j] == s[j]);
            }
            lemma_block_is_filter(t, lo, hi - 1, pred);
            assert(pred(s[s.len() - 1]));
            assert(s.subrange(lo, hi) =~= t.subrange(lo, hi - 1).push(last));
        } else {
            let (lo2, hi2) = if hi == s.len() { (t.len() as int, t.len() as int) } else { (lo, hi) };
            assert(!pred(s[s.len() - 1]));
            assert forall|j: int| 0 <= j < t.len() implies ((lo2 <= j < hi2) <==> pred(#[trigger] t[j])) by {
                assert(t[j] == s[j]);
            }
            lemma_block_is_filter(t, lo2, hi2, pred);
            assert(s.subrange(lo, hi) =~= t.subrange(lo2, hi2));
        }
    }
}

/// Filtering the first `i` elements gives a prefix of filtering them all.
proof fn lemma_take_filter_prefix<A>(s: Seq<A>, i: int, pred: spec_fn(A) -> bool)
    requires
        0 <= i <= s.len(),
    ensures
        s.take(i).filter(pred).is_prefix_of(s.filter(pred)),
    decreases s.len() - i,
{
    if i == s.len() {
        assert(s.take(i) =~= s);
    } else {
        lemma_take_filter_prefix(s, i + 1, pred);
        assert(s.take(i + 1) =~= s.take(i).push(s[i]));
        s.take(i).lemma_filter_push(s[i], pred);
        let a = s.take(i).filter(pred);
        let b = s.take(i + 1).filter(pred);
        let c = s.filter(pred);
        assert(a.is_prefix_of(b)) by {
            if pred(s[i]) {
                assert(a =~= b.subrange(0, a.len() as int));
            } else {
                assert(a =~= b.subrange(0, a.len() as int));
            }
        }
        assert(a =~= c.subrange(0, a.len() as int)) by {
            assert forall|j: int| 0 <= j < a.len() implies a[j] == c.subrange(0, a.len() as int)[j] by {
                assert(a[j] == b[j]);
                assert(b[j] == c[j]);
            }
        }
    }
}

/// A user a lookup reports: not the administrator, and the key text starts
/// with the prefix (compared as UTF-8 bytes, which for text is the same as
/// comparing characters).
pub open spec fn lookup_match(k: Seq<char>, prefix: Seq<char>, admin: Seq<char>) -> bool {
    k != admin && encode_utf8(prefix).is_prefix_of(encode_utf8(k))
}

/// At most the first `n` elements.
pub open spec fn first_n<A>(s: Seq<A>, n: int) -> Seq<A> {
    if n < s.len() {
        s.take(n)
    } else {
        s
    }
}

/// The keys of the store that start with `p`, in ascending order.
pub open spec fn prefixed_keys(storage: DiskClient, p: Seq<u8>) -> Seq<Seq<u8>> {
    storage.keys().filter(|k: Seq<u8>| p.is_prefix_of(k))
}

/// A key of the store that stops a lookup: its value cannot be read, it is
/// not text, or it names a user other than the administrator that the
/// sessions did not already report and whose permission string does not
/// read back.
pub open spec fn lookup_blocks(storage: DiskClient, k: Seq<u8>, chosen: Seq<Seq<char>>, admin: Seq<char>) -> bool {
    !storage.readable(k) || !valid_utf8(k) || (decode_utf8(k) != admin && !chosen.contains(decode_utf8(k))
        && stored_actions(storage@[k]) is None)
}

/// The texts of a list of keys.
pub open spec fn decoded_keys(ks: Seq<Seq<u8>>) -> Seq<Seq<char>> {
    ks.map_values(|k: Seq<u8>| decode_utf8(k))
}

/// A user a lookup adds from the store: not the administrator, and not
/// one the sessions already reported.
pub open spec fn lookup_new(chosen: Seq<Seq<char>>, admin: Seq<char>) -> spec_fn(Seq<char>) -> bool {
    |t: Seq<char>| t != admin && !chosen.contains(t)
}

/// The users a lookup adds from the store keys `ks`, in order.
pub open spec fn lookup_added(ks: Seq<Seq<u8>>, chosen: Seq<Seq<char>>, admin: Seq<char>) -> Seq<Seq<char>> {
    decoded_keys(ks).filter(lookup_new(chosen, admin))
}

/// Reading the key's entry as text fails.
pub open spec fn lookup_read_fails(storage: DiskClient, k: Seq<u8>) -> bool {
    !storage.readable(k) || !valid_utf8(k) || !valid_utf8(storage@[k])
}

/// What a lookup by prefix gives, the sessions listed in the order `o`:
/// the first `limit` matching sessions; then, while fewer than `limit`
/// were found, as many of the store's keys with the prefix as are missing
/// are read, and their new users are added with their stored actions; the
/// first key that stops the lookup makes it fail.
pub open spec fn lookup_outcome(
    o: Seq<Seq<char>>,
    prefix: Seq<char>,
    admin: Seq<char>,
    limit: int,
    table: Map<Seq<char>, UserSessionView>,
    storage: DiskClient,
    r: Result<Vec<(String, Vec<Action>)>, Error>,
) -> bool {
    let chosen = first_n(o.filter(|k: Seq<char>| lookup_match(k, prefix, admin)), limit);
    let dk = prefixed_keys(storage, encode_utf8(prefix));
    let n = if chosen.len() < limit {
        if limit - chosen.len() < dk.len() { limit - chosen.len() } else { dk.len() as int }
    } else {
        0
    };
    if exists|t: int| 0 <= t < n && lookup_blocks(storage, #[trigger] dk[t], chosen, admin) {
        &&& r is Err
        &&& exists|t: int| {
            &&& 0 <= t < n
            &&& lookup_blocks(storage, #[trigger] dk[t], chosen, admin)
            &&& forall|u: int| 0 <= u < t ==> !lookup_blocks(storage, #[trigger] dk[u], chosen, admin)
            &&& if lookup_read_fails(storage, dk[t]) {
                r->Err_0 is InvalidKey
            } else {
                r->Err_0 is UnsupportedCharacter
            }
        }
    } else {
        &&& r is Ok
        &&& pair_keys(r->Ok_0@) == chosen + lookup_added(dk.take(n), chosen, admin)
        &&& forall|i: int| 0 <= i < chosen.len() ==> table.contains_key((#[trigger] r->Ok_0@[i]).0@)
            && r->Ok_0@[i].1@ == table[r->Ok_0@[i].0@].permissions
        &&& forall|i: int| chosen.len() <= i < r->Ok_0@.len() ==> stored_actions(
            storage@[encode_utf8((#[trigger] r->Ok_0@[i]).0@)],
        ) == Some(r->Ok_0@[i].1@)
    }
}

/// Whether one of the pairs is for the user `k`.
fn pairs_contain(v: &Vec<(String, Vec<Action>)>, k: &String) -> (r: bool)
    ensures
        r == pair_keys(v@).contains(k@),
{
    let mut i: usize = 0;
    while i < v.len()
        invariant
            i <= v@.len(),
            forall|j: int| 0 <= j < i ==> pair_keys(v@)[j] != k@,
        decreases v.len() - i,
    {
        if v[i].0 == *k {
            assert(pair_keys(v@)[i as int] == k@);
            return true;
        }
        i = i + 1;
    }
    false
}

/// Whether `p` is a prefix of `k`.
fn bytes_start_with(k: &[u8], p: &[u8]) -> (r: bool)
    ensures
        r == p@.is_prefix_of(k@),
{
    if p.len() > k.len() {
        return false;
    }
    let mut i: usize = 0;
    while i < p.len()
        invariant
            p@.len() <= k@.len(),
            i <= p@.len(),
            forall|j: int| 0 <= j < i ==> p@[j] == k@[j],
        decreases p.len() - i,
    {
        if p[i] != k[i] {
            return false;
        }
        i = i + 1;
    }
    assert(p@ =~= k@.subrange(0, p@.len() as int));
    true
}

} // verus!

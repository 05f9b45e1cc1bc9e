//! The replicated state machine: each committed log entry is applied, in
//! order, to the data store, the permission store and the sessions; when
//! an entry wrote or deleted a key of the data store, the Merkle tree over
//! its keys is rebuilt once all entries are applied.
use vstd::prelude::*;
use vstd::utf8::encode_utf8;
use vstd::string::StringExecFns;
use crate::auth::{action_to_char, actions_code, action_letter, Action};
use crate::constants::{sys_base_fee, sys_base_fee_key, sys_paused, sys_paused_key};
use crate::merkle::{key_leaves, rebuild_merkle_tree, MerkleState};
use crate::sessions::{permission_bytes, SessionManager, UserSessionView};
use crate::storage::codec::entry_fits;
use crate::storage::engine::DiskClient;
use crate::sessions::copy_actions;
use crate::text::{lemma_encode_utf8_len, text_bytes};

verus! {

/// A write replicated through the log.
#[derive(Debug, Clone)]
pub enum KvOp {
    /// Records the account address computed for a key.
    Upsert { key: String, value: String, pda: Vec<u8> },
    Delete { key: String },
    SetPause { paused: bool },
    SetFee { base_fee: u64, fee_per_byte: u64, scan_fee_per_item: u64 },
    SyncLogin { pubkey: String, permissions: Vec<Action> },
    SyncLogout { pubkey: String },
    SyncGrant { user_pubkey: String, permissions: Vec<Action> },
    SyncRevoke { user_pubkey: String },
}

/// The answer to a write.
#[derive(Debug, Clone)]
pub struct KvResponse {
    pub value: Option<String>,
}

/// The decimal digits of a number.
pub open spec fn decimal_text(n: nat) -> Seq<char>
    decreases n,
{
    if n < 10 {
        seq![(48 + n) as char]
    } else {
        decimal_text(n / 10).push((48 + n % 10) as char)
    }
}

/// The fee settings as compact JSON: an object with the keys `base_fee`,
/// `fee_per_byte` and `scan_fee`, in that order.
pub open spec fn fee_json_text(base_fee: u64, fee_per_byte: u64, scan_fee: u64) -> Seq<char> {
    "{\"base_fee\":"@ + decimal_text(base_fee as nat) + ",\"fee_per_byte\":"@ + decimal_text(
        fee_per_byte as nat,
    ) + ",\"scan_fee\":"@ + decimal_text(scan_fee as nat) + "}"@
}

/// The decimal digit `d` as text.
fn digit_text(d: u64) -> (r: &'static str)
    requires
        d < 10,
    ensures
        r@ == seq![(48 + d) as char],
{
    match d {
        0 => {
            proof {
                reveal_strlit("0");
            }
            "0"
        },
        1 => {
            proof {
                reveal_strlit("1");
            }
            "1"
        },
        2 => {
            proof {
                reveal_strlit("2");
            }
            "2"
        },
        3 => {
            proof {
                reveal_strlit("3");
            }
            "3"
        },
        4 => {
            proof {
                reveal_strlit("4");
            }
            "4"
        },
        5 => {
            proof {
                reveal_strlit("5");
            }
            "5"
        },
        6 => {
            proof {
                reveal_strlit("6");
            }
            "6"
        },
        7 => {
            proof {
                reveal_strlit("7");
            }
            "7"
        },
        8 => {
            proof {
                reveal_strlit("8");
            }
            "8"
        },
        _ => {
            proof {
                reveal_strlit("9");
            }
            "9"
        },
    }
}

/// Appends the decimal digits of `n` to `out`.
fn push_decimal(out: &mut String, n: u64)
    ensures
        final(out)@ == old(out)@ + decimal_text(n as nat),
    decreases n,
{
    if n >= 10 {
        push_decimal(out, n / 10);
    }
    let ghost mid = out@;
    out.append(digit_text(n % 10));
    proof {
        if n >= 10 {
            assert(decimal_text(n as nat) == decimal_text((n / 10) as nat).push((48 + n % 10) as char));
            assert(out@ =~= old(out)@ + decimal_text(n as nat));
        } else {
            assert(decimal_text(n as nat) == seq![(48 + n) as char]);
            assert(out@ =~= old(out)@ + decimal_text(n as nat));
        }
    }
}

/// The fee settings as compact JSON bytes: the object with the keys
/// `base_fee`, `fee_per_byte` and `scan_fee`, in that order, each with its
/// number in decimal.
fn fee_json(base_fee: u64, fee_per_byte: u64, scan_fee: u64) -> (r: Vec<u8>)
    ensures
        r@ == encode_utf8(fee_json_text(base_fee, fee_per_byte, scan_fee)),
{
    let mut s = String::from_str("{\"base_fee\":");
    push_decimal(&mut s, base_fee);
    s.append(",\"fee_per_byte\":");
    push_decimal(&mut s, fee_per_byte);
    s.append(",\"scan_fee\":");
    push_decimal(&mut s, scan_fee);
    s.append("}");
    assert(s@ =~= fee_json_text(base_fee, fee_per_byte, scan_fee));
    text_bytes(s.as_str())
}

/// The state the log is applied to.
pub struct MyStateMachine {
    pub db: DiskClient,
    pub auth_db: DiskClient,
    pub session_manager: SessionManager,
    pub merkle: MerkleState,
}

/// The parts of the state that applying one entry changes.
pub struct MachineView {
    pub db: DiskClient,
    pub auth_db: DiskClient,
    pub table: Map<Seq<char>, UserSessionView>,
    pub keypair: Seq<char>,
}

impl MyStateMachine {
    pub open spec fn wf(&self) -> bool {
        &&& self.db.wf()
        &&& self.auth_db.wf()
        &&& self.merkle.wf()
    }

    pub open spec fn view_parts(&self) -> MachineView {
        MachineView {
            db: self.db,
            auth_db: self.auth_db,
            table: self.session_manager.table(),
            keypair: self.session_manager.keypair_text(),
        }
    }
}

/// The entry writes or deletes a key of the data store.
pub open spec fn writes_data(op: Option<KvOp>) -> bool {
    match op {
        Some(KvOp::Upsert { .. }) => true,
        Some(KvOp::Delete { .. }) => true,
        _ => false,
    }
}

/// The entry's record fits the log format of the store it goes to.
pub open spec fn op_fits(op: Option<KvOp>) -> bool {
    match op {
        Some(KvOp::Upsert { key, pda, .. }) => entry_fits(encode_utf8(key@), Some(pda@)),
        Some(KvOp::Delete { key }) => entry_fits(encode_utf8(key@), None),
        Some(KvOp::SyncGrant { user_pubkey, permissions }) => entry_fits(
            encode_utf8(user_pubkey@),
            Some(permission_bytes(permissions@)),
        ),
        Some(KvOp::SyncRevoke { user_pubkey }) => entry_fits(encode_utf8(user_pubkey@), None),
        _ => true,
    }
}

/// What applying one entry does.
pub open spec fn op_step(before: MachineView, op: Option<KvOp>, after: MachineView) -> bool {
    &&& after.keypair == before.keypair
    &&& match op {
        None => after == before,
        Some(KvOp::Upsert { key, pda, .. }) => {
            &&& DiskClient::set_spec(before.db, after.db, encode_utf8(key@), pda@)
            &&& after.auth_db == before.auth_db
            &&& after.table == before.table
        },
        Some(KvOp::Delete { key }) => {
            &&& DiskClient::delete_spec(before.db, after.db, encode_utf8(key@))
            &&& after.auth_db == before.auth_db
            &&& after.table == before.table
        },
        Some(KvOp::SetPause { paused }) => {
            &&& DiskClient::set_spec(before.db, after.db, sys_paused(), seq![if paused { 1u8 } else { 0u8 }])
            &&& after.auth_db == before.auth_db
            &&& after.table == before.table
        },
        Some(KvOp::SetFee { base_fee, fee_per_byte, scan_fee_per_item }) => {
            &&& DiskClient::set_spec(
                before.db,
                after.db,
                sys_base_fee(),
                encode_utf8(fee_json_text(base_fee, fee_per_byte, scan_fee_per_item)),
            )
            &&& after.auth_db == before.auth_db
            &&& after.table == before.table
        },
        Some(KvOp::SyncLogin { pubkey, permissions }) => {
            &&& after.db == before.db
            &&& after.auth_db == before.auth_db
            &&& after.table == before.table.insert(
                pubkey@,
                UserSessionView { is_logged_in: true, permissions: permissions@ },
            )
        },
        Some(KvOp::SyncLogout { pubkey }) => {
            &&& after.db == before.db
            &&& after.auth_db == before.auth_db
            &&& after.table == if before.table.contains_key(pubkey@) {
                before.table.insert(pubkey@, UserSessionView { is_logged_in: false, ..before.table[pubkey@] })
            } else {
                before.table
            }
        },
        Some(KvOp::SyncGrant { user_pubkey, permissions }) => {
            &&& after.db == before.db
            &&& DiskClient::set_spec(before.auth_db, after.auth_db, encode_utf8(user_pubkey@), permission_bytes(permissions@))
            &&& after.table == if before.table.contains_key(user_pubkey@) {
                before.table.insert(
                    user_pubkey@,
                    UserSessionView { permissions: permissions@, ..before.table[user_pubkey@] },
                )
            } else {
                before.table
            }
        },
        Some(KvOp::SyncRevoke { user_pubkey }) => {
            &&& after.db == before.db
            &&& DiskClient::delete_spec(before.auth_db, after.auth_db, encode_utf8(user_pubkey@))
            &&& after.table == before.table.remove(user_pubkey@)
        },
    }
}

/// A replicated login leaves the user logged in with exactly the
/// replicated permissions; a replicated logout leaves a user with a session
/// logged out with the permissions it had.  No other session changes.
pub proof fn law_login_logout_replicate(
    before: MachineView,
    pubkey: String,
    permissions: Vec<Action>,
    mid: MachineView,
    after: MachineView,
)
    requires
        op_step(before, Some(KvOp::SyncLogin { pubkey, permissions }), mid),
        op_step(mid, Some(KvOp::SyncLogout { pubkey: pubkey }), after),
    ensures
        mid.table.contains_key(pubkey@),
        mid.table[pubkey@].is_logged_in,
        mid.table[pubkey@].permissions == permissions@,
        after.table.contains_key(pubkey@),
        !after.table[pubkey@].is_logged_in,
        after.table[pubkey@].permissions == permissions@,
        forall|u: Seq<char>| u != pubkey@ ==> after.table.contains_key(u) == before.table.contains_key(u)
            && (before.table.contains_key(u) ==> after.table[u] == before.table[u]),
        after.db == before.db,
{
}

/// A replicated grant changes only the permissions of a user's session:
/// the user stays logged in or out as before, no session appears or
/// disappears, and the data store is untouched.
pub proof fn law_grant_keeps_login(before: MachineView, user_pubkey: String, permissions: Vec<Action>, after: MachineView)
    requires
        op_step(before, Some(KvOp::SyncGrant { user_pubkey, permissions }), after),
    ensures
        after.table.dom() == before.table.dom(),
        after.db == before.db,
        before.table.contains_key(user_pubkey@) ==> after.table[user_pubkey@].is_logged_in == before.table[user_pubkey@].is_logged_in
            && after.table[user_pubkey@].permissions == permissions@,
        forall|u: Seq<char>| u != user_pubkey@ && before.table.contains_key(u) ==> after.table[u] == before.table[u],
{
    if before.table.contains_key(user_pubkey@) {
        assert(after.table.dom() =~= before.table.dom());
    }
}

/// Ten to the power `k`.
pub open spec fn ten_pow(k: nat) -> nat
    decreases k,
{
    if k == 0 {
        1
    } else {
        10 * ten_pow((k - 1) as nat)
    }
}

/// The decimal text of a number below `10^k` has at most `k` digits.
proof fn lemma_decimal_len(n: nat, k: nat)
    requires
        k >= 1,
        n < ten_pow(k),
    ensures
        decimal_text(n).len() <= k,
    decreases k,
{
    if n >= 10 {
        if k == 1 {
            assert(ten_pow(0) == 1);
        } else {
            assert(n / 10 < ten_pow((k - 1) as nat));
            lemma_decimal_len(n / 10, (k - 1) as nat);
        }
    }
}

/// The fee settings' JSON is short.
proof fn lemma_fee_json_len(a: u64, b: u64, c: u64)
    ensures
        fee_json_text(a, b, c).len() <= 101,
        encode_utf8(fee_json_text(a, b, c)).len() <= 404,
{
    reveal_with_fuel(ten_pow, 21);
    assert(ten_pow(20) == 100000000000000000000);
    lemma_decimal_len(a as nat, 20);
    lemma_decimal_len(b as nat, 20);
    lemma_decimal_len(c as nat, 20);
    reveal_strlit("{\"base_fee\":");
    reveal_strlit(",\"fee_per_byte\":");
    reveal_strlit(",\"scan_fee\":");
    reveal_strlit("}");
    assert(fee_json_text(a, b, c).len() == 12 + decimal_text(a as nat).len() + 16 + decimal_text(b as nat).len() + 12 + decimal_text(c as nat).len() + 1);
    lemma_encode_utf8_len(fee_json_text(a, b, c));
}

impl MyStateMachine {
    /// Applies one entry.
    pub fn apply_op(&mut self, op: &Option<KvOp>)
        requires
            old(self).wf(),
            op_fits(*op),
        ensures
            final(self).wf(),
            final(self).merkle == old(self).merkle,
            op_step(old(self).view_parts(), *op, final(self).view_parts()),
    {
        match op {
            Some(KvOp::Upsert { key, value: _, pda }) => {
                let _ = self.db.set(text_bytes(key.as_str()), pda.clone());
            },
            Some(KvOp::Delete { key }) => {
                let _ = self.db.delete(text_bytes(key.as_str()));
            },
            Some(KvOp::SetPause { paused }) => {
                let flag: u8 = if *paused { 1 } else { 0 };
                let v = vec![flag];
                assert(v@ =~= seq![if *paused { 1u8 } else { 0u8 }]);
                let _ = self.db.set(sys_paused_key(), v);
            },
            Some(KvOp::SetFee { base_fee, fee_per_byte, scan_fee_per_item }) => {
                let val = fee_json(*base_fee, *fee_per_byte, *scan_fee_per_item);
                proof {
                    lemma_fee_json_len(*base_fee, *fee_per_byte, *scan_fee_per_item);
                }
                let _ = self.db.set(sys_base_fee_key(), val);
            },
            Some(KvOp::SyncLogin { pubkey, permissions }) => {
                self.session_manager.sync_login(pubkey.clone(), copy_actions(permissions));
            },
            Some(KvOp::SyncLogout { pubkey }) => {
                self.session_manager.sync_logout(pubkey.as_str());
            },
            Some(KvOp::SyncGrant { user_pubkey, permissions }) => {
                let mut val = String::new();
                let mut i: usize = 0;
                while i < permissions.len()
                    invariant
                        i <= permissions@.len(),
                        val@ == actions_code(permissions@.subrange(0, i as int)),
                    decreases permissions.len() - i,
                {
                    let letter = action_to_char(permissions[i]).unwrap();
                    val.append(letter);
                    proof {
                        assert(permissions@.subrange(0, i + 1) =~= permissions@.subrange(0, i as int).push(permissions@[i as int]));
                        assert(actions_code(permissions@.subrange(0, i + 1)) =~= actions_code(permissions@.subrange(0, i as int)).push(action_letter(permissions@[i as int])));
                    }
                    i = i + 1;
                }
                assert(permissions@.subrange(0, permissions@.len() as int) =~= permissions@);
                let _ = self.auth_db.set(text_bytes(user_pubkey.as_str()), text_bytes(val.as_str()));
                self.session_manager.sync_permissions(user_pubkey.as_str(), copy_actions(permissions));
            },
            Some(KvOp::SyncRevoke { user_pubkey }) => {
                let _ = self.auth_db.delete(text_bytes(user_pubkey.as_str()));
                self.session_manager.sync_remove(user_pubkey.as_str());
            },
            None => {},
        }
    }

    /// Applies the committed entries in order (an entry without a write is
    /// only acknowledged), then rebuilds the Merkle tree when one of them
    /// wrote or deleted a key of the data store.  One acknowledgement per
    /// entry is returned.
    pub fn apply(&mut self, entries: Vec<Option<KvOp>>) -> (r: Vec<()>)
        requires
            old(self).wf(),
            forall|i: int| 0 <= i < entries@.len() ==> op_fits(#[trigger] entries@[i]),
        ensures
            final(self).wf(),
            r@.len() == entries@.len(),
            exists|states: Seq<MachineView>| {
                &&& states.len() == entries@.len() + 1
                &&& states[0] == old(self).view_parts()
                &&& states.last() == final(self).view_parts()
                &&& forall|i: int| 0 <= i < entries@.len() ==> op_step(#[trigger] states[i], entries@[i], states[i + 1])
            },
            (exists|i: int| 0 <= i < entries@.len() && writes_data(#[trigger] entries@[i])) ==> final(self).merkle.leaves()
                == key_leaves(final(self).db.keys()),
            !(exists|i: int| 0 <= i < entries@.len() && writes_data(#[trigger] entries@[i])) ==> final(self).merkle
                == old(self).merkle,
    {
        let mut res: Vec<()> = Vec::new();
        let mut need_rebuild_tree = false;
        let ghost mut states: Seq<MachineView> = seq![self.view_parts()];
        let ghost merkle0 = self.merkle;
        let mut i: usize = 0;
        while i < entries.len()
            invariant
                i <= entries@.len(),
                res@.len() == i,
                self.wf(),
                forall|j: int| 0 <= j < entries@.len() ==> op_fits(#[trigger] entries@[j]),
                states.len() == i + 1,
                states[0] == old(self).view_parts(),
                states.last() == self.view_parts(),
                forall|j: int| 0 <= j < i ==> op_step(#[trigger] states[j], entries@[j], states[j + 1]),
                need_rebuild_tree == exists|j: int| 0 <= j < i && writes_data(#[trigger] entries@[j]),
                self.merkle == merkle0,
                merkle0 == old(self).merkle,
            decreases entries.len() - i,
        {
            let ghost before = states;
            self.apply_op(&entries[i]);
            match &entries[i] {
                Some(KvOp::Upsert { .. }) => {
                    need_rebuild_tree = true;
                },
                Some(KvOp::Delete { .. }) => {
                    need_rebuild_tree = true;
                },
                _ => {},
            }
            proof {
                states = states.push(self.view_parts());
                assert forall|j: int| 0 <= j < i + 1 implies op_step(#[trigger] states[j], entries@[j], states[j + 1]) by {
                    if j < i {
                        assert(states[j] == before[j]);
                        assert(states[j + 1] == before[j + 1]);
                    }
                }
                if writes_data(entries@[i as int]) {
                    assert(0 <= i < i + 1 && writes_data(entries@[i as int]));
                }
                if need_rebuild_tree {
                    if !writes_data(entries@[i as int]) {
                        let j = choose|j: int| 0 <= j < i && writes_data(#[trigger] entries@[j]);
                        assert(0 <= j < i + 1 && writes_data(entries@[j]));
                    }
                }
            }
            res.push(());
            i = i + 1;
        }
        if need_rebuild_tree {
            let _ = rebuild_merkle_tree(&self.db, &mut self.merkle);
        }
        res
    }
}

} // verus!

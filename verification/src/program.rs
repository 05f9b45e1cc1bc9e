//! The decisions of the on-chain program, over its accounts held as plain
//! values: the authority settings (administrator, pause flag), the fee
//! settings, the key counter and one value account per key.  A
//! transaction either succeeds or leaves every account as it was; the
//! fee of a write is charged from the signer's lamports before the write.
use vstd::prelude::*;
use crate::chain::{account_value, read_borsh_bytes, KVEvent};
use crate::constants::{bytes_equal, MAX_KEY_LENGTH, MAX_VALUE_LENGTH};
use crate::keyorder::{bytes_le, compare_bytes};
use crate::solana::{keccak256, keccak_hash};

verus! {

/// The highest level a key gets.
pub const MAX_LEVEL: usize = 8;

/// The longest key the program stores, in bytes.
pub const MAX_KEY_LEN: usize = 64;

/// The longest value the program stores, in bytes.
pub const MAX_VALUE_LEN: usize = 1024;

/// Why an instruction fails.
#[derive(Debug, Clone, Copy, PartialEq, Eq, Structural)]
pub enum ProgramError {
    InvalidKey,
    InvalidValue,
    Unauthorized,
    KeyTooLong,
    ValueTooLong,
    ValueTooLarge,
    NotFound,
    InvalidRemaining,
    InsufficientFee,
    Paused,
    /// The runtime refused an account the instruction names: the value
    /// account of the key does not exist.
    AccountNotInitialized,
}

/// The program's accounts.
pub struct ProgramState {
    pub admin: [u8; 32],
    pub paused: bool,
    pub base_fee: u64,
    pub fee_per_byte: u64,
    pub scan_fee_per_item: u64,
    pub treasury: [u8; 32],
    pub total_count: u64,
    pub values: Vec<(Vec<u8>, Vec<u8>)>,
}

/// The settings of the program, everything but the value accounts.
pub struct SettingsView {
    pub admin: Seq<u8>,
    pub paused: bool,
    pub base_fee: u64,
    pub fee_per_byte: u64,
    pub scan_fee_per_item: u64,
    pub treasury: Seq<u8>,
    pub total_count: u64,
}

/// There is a value account for `k`.
pub open spec fn has_account(s: Seq<(Seq<u8>, Seq<u8>)>, k: Seq<u8>) -> bool {
    exists|i: int| 0 <= i < s.len() && #[trigger] s[i].0 == k
}

/// The position of the value account of `k`.
pub open spec fn account_at(s: Seq<(Seq<u8>, Seq<u8>)>, k: Seq<u8>) -> int {
    choose|i: int| 0 <= i < s.len() && #[trigger] s[i].0 == k
}

/// The data of the value account of `k`, if there is one.
pub open spec fn data_of(s: Seq<(Seq<u8>, Seq<u8>)>, k: Seq<u8>) -> Option<Seq<u8>> {
    if has_account(s, k) {
        Some(s[account_at(s, k)].1)
    } else {
        None
    }
}

/// The value accounts after `k`'s is written with `v` (created when
/// missing).
pub open spec fn put_account(s: Seq<(Seq<u8>, Seq<u8>)>, k: Seq<u8>, v: Seq<u8>) -> Seq<(Seq<u8>, Seq<u8>)> {
    if has_account(s, k) {
        s.update(account_at(s, k), (k, v))
    } else {
        s.push((k, v))
    }
}

/// The value accounts after `k`'s is closed.
pub open spec fn drop_account(s: Seq<(Seq<u8>, Seq<u8>)>, k: Seq<u8>) -> Seq<(Seq<u8>, Seq<u8>)> {
    if has_account(s, k) {
        s.remove(account_at(s, k))
    } else {
        s
    }
}

/// No key has two value accounts.
pub open spec fn distinct_keys(s: Seq<(Seq<u8>, Seq<u8>)>) -> bool {
    forall|i: int, j: int| 0 <= i < j < s.len() ==> #[trigger] s[i].0 != #[trigger] s[j].0
}

/// `a + b`, or `u64::MAX` when that overflows.
pub open spec fn sat_add(a: u64, b: u64) -> u64 {
    if a + b > u64::MAX {
        u64::MAX
    } else {
        (a + b) as u64
    }
}

/// `a - b`, or 0 when that underflows.
pub open spec fn sat_sub(a: u64, b: u64) -> u64 {
    if a < b {
        0
    } else {
        (a - b) as u64
    }
}

/// Why an upsert is refused before any fee is charged, if it is.
pub open spec fn upsert_refusal(paused: bool, key: Seq<u8>, value: Seq<u8>) -> Option<ProgramError> {
    if key.len() > MAX_KEY_LENGTH {
        Some(ProgramError::KeyTooLong)
    } else if value.len() > MAX_VALUE_LENGTH {
        Some(ProgramError::ValueTooLong)
    } else if paused {
        Some(ProgramError::Paused)
    } else if key.len() > MAX_KEY_LEN {
        Some(ProgramError::KeyTooLong)
    } else if value.len() > MAX_VALUE_LEN {
        Some(ProgramError::ValueTooLarge)
    } else {
        None
    }
}

/// The fee of an upsert: the base fee and the fee per byte of the value.
pub open spec fn upsert_fee(base_fee: u64, fee_per_byte: u64, value_len: int) -> int {
    base_fee + value_len * fee_per_byte
}

impl ProgramState {
    /// The value accounts, each with its key and its data.
    pub open spec fn accounts(&self) -> Seq<(Seq<u8>, Seq<u8>)> {
        self.values@.map_values(|p: (Vec<u8>, Vec<u8>)| (p.0@, p.1@))
    }

    pub open spec fn settings(&self) -> SettingsView {
        SettingsView {
            admin: self.admin@,
            paused: self.paused,
            base_fee: self.base_fee,
            fee_per_byte: self.fee_per_byte,
            scan_fee_per_item: self.scan_fee_per_item,
            treasury: self.treasury@,
            total_count: self.total_count,
        }
    }

    pub open spec fn wf(&self) -> bool {
        distinct_keys(self.accounts())
    }

    /// The accounts of a freshly deployed program: nothing set, no value
    /// accounts.
    pub fn new() -> (r: ProgramState)
        ensures
            r.wf(),
            r.accounts().len() == 0,
            r.settings() == (SettingsView {
                admin: Seq::new(32, |i: int| 0u8),
                paused: false,
                base_fee: 0,
                fee_per_byte: 0,
                scan_fee_per_item: 0,
                treasury: Seq::new(32, |i: int| 0u8),
                total_count: 0,
            }),
    {
        let r = ProgramState {
            admin: [0u8; 32],
            paused: false,
            base_fee: 0,
            fee_per_byte: 0,
            scan_fee_per_item: 0,
            treasury: [0u8; 32],
            total_count: 0,
            values: Vec::new(),
        };
        assert(r.accounts() =~= Seq::<(Seq<u8>, Seq<u8>)>::empty());
        assert(r.admin@ =~= Seq::new(32, |i: int| 0u8));
        r
    }

    /// The position of `key`'s value account.
    fn find(&self, key: &[u8]) -> (r: Option<usize>)
        requires
            self.wf(),
        ensures
            match r {
                Some(i) => has_account(self.accounts(), key@) && account_at(self.accounts(), key@) == i,
                None => !has_account(self.accounts(), key@),
            },
    {
        let mut i: usize = 0;
        while i < self.values.len()
            invariant
                i <= self.values@.len(),
                self.wf(),
                self.accounts().len() == self.values@.len(),
                forall|j: int| 0 <= j < i ==> self.accounts()[j].0 != key@,
            decreases self.values.len() - i,
        {
            assert(self.accounts()[i as int].0 == self.values@[i as int].0@);
            if bytes_equal(self.values[i].0.as_slice(), key) {
                proof {
                    let c = account_at(self.accounts(), key@);
                    assert(self.accounts()[c].0 == key@);
                    if c != i {
                        if c < i {
                            assert(self.accounts()[c].0 != self.accounts()[i as int].0);
                        } else {
                            assert(self.accounts()[i as int].0 != self.accounts()[c].0);
                        }
                    }
                }
                return Some(i);
            }
            i = i + 1;
        }
        None
    }

    /// Sets up the program's accounts: not paused, a base fee of 1000 and
    /// a fee of 10 per byte.  The administrator is set by `init_auth`.
    pub fn init_storage(&mut self)
        ensures
            final(self).accounts() == old(self).accounts(),
            final(self).settings() == (SettingsView {
                paused: false,
                base_fee: 1000,
                fee_per_byte: 10,
                ..old(self).settings()
            }),
    {
        self.paused = false;
        self.base_fee = 1000;
        self.fee_per_byte = 10;
    }

    /// Makes the signer the administrator and lifts the pause.
    pub fn init_auth(&mut self, signer: [u8; 32])
        ensures
            final(self).accounts() == old(self).accounts(),
            final(self).settings() == (SettingsView { admin: signer@, paused: false, ..old(self).settings() }),
    {
        self.admin = signer;
        self.paused = false;
    }

    /// Sets every fee to zero and makes the signer the treasury.
    pub fn init_fee(&mut self, signer: [u8; 32])
        ensures
            final(self).accounts() == old(self).accounts(),
            final(self).settings() == (SettingsView {
                base_fee: 0,
                fee_per_byte: 0,
                scan_fee_per_item: 0,
                treasury: signer@,
                ..old(self).settings()
            }),
    {
        self.base_fee = 0;
        self.fee_per_byte = 0;
        self.scan_fee_per_item = 0;
        self.treasury = signer;
    }

    /// Leaves the key counter as it is (a new counter starts at zero).
    pub fn init_counter(&mut self)
        ensures
            final(self).accounts() == old(self).accounts(),
            final(self).settings() == old(self).settings(),
    {
        if self.total_count == 0 {
            self.total_count = 0;
        }
    }

    /// The administrator hands the administration to `new_admin`.
    pub fn set_admin(&mut self, signer: [u8; 32], new_admin: [u8; 32]) -> (r: Result<(), ProgramError>)
        ensures
            final(self).accounts() == old(self).accounts(),
            signer@ != old(self).admin@ ==> r == Err::<(), ProgramError>(ProgramError::Unauthorized) && final(self).settings()
                == old(self).settings(),
            signer@ == old(self).admin@ ==> r is Ok && final(self).settings() == (SettingsView {
                admin: new_admin@,
                ..old(self).settings()
            }),
    {
        if !bytes_equal(signer.as_slice(), self.admin.as_slice()) {
            return Err(ProgramError::Unauthorized);
        }
        self.admin = new_admin;
        Ok(())
    }

    /// The administrator pauses or resumes the program.
    pub fn set_pause(&mut self, signer: [u8; 32], paused: bool) -> (r: Result<(), ProgramError>)
        ensures
            final(self).accounts() == old(self).accounts(),
            signer@ != old(self).admin@ ==> r == Err::<(), ProgramError>(ProgramError::Unauthorized) && final(self).settings()
                == old(self).settings(),
            signer@ == old(self).admin@ ==> r is Ok && final(self).settings() == (SettingsView {
                paused,
                ..old(self).settings()
            }),
    {
        if !bytes_equal(signer.as_slice(), self.admin.as_slice()) {
            return Err(ProgramError::Unauthorized);
        }
        self.paused = paused;
        Ok(())
    }

    /// The administrator sets the fees.
    pub fn set_fee(&mut self, signer: [u8; 32], base_fee: u64, fee_per_byte: u64, scan_fee_per_item: u64) -> (r: Result<(), ProgramError>)
        ensures
            final(self).accounts() == old(self).accounts(),
            signer@ != old(self).admin@ ==> r == Err::<(), ProgramError>(ProgramError::Unauthorized) && final(self).settings()
                == old(self).settings(),
            signer@ == old(self).admin@ ==> r is Ok && final(self).settings() == (SettingsView {
                base_fee,
                fee_per_byte,
                scan_fee_per_item,
                ..old(self).settings()
            }),
    {
        if !bytes_equal(signer.as_slice(), self.admin.as_slice()) {
            return Err(ProgramError::Unauthorized);
        }
        self.base_fee = base_fee;
        self.fee_per_byte = fee_per_byte;
        self.scan_fee_per_item = scan_fee_per_item;
        Ok(())
    }

    /// Writes `value` under `key`: the checks, then the fee (base fee plus
    /// the fee per byte of the value) is charged, the key's value account
    /// gets the value, and a key whose account this call creates is
    /// counted.
    /// Returns the fee charged.
    pub fn upsert(&mut self, key: Vec<u8>, value: Vec<u8>, signer_lamports: u64) -> (r: Result<u64, ProgramError>)
        requires
            old(self).wf(),
            upsert_refusal(old(self).paused, key@, value@) is None ==> upsert_fee(
                old(self).base_fee,
                old(self).fee_per_byte,
                value@.len() as int,
            ) <= u64::MAX,
        ensures
            final(self).wf(),
            match upsert_refusal(old(self).paused, key@, value@) {
                Some(e) => r == Err::<u64, ProgramError>(e) && *final(self) == *old(self),
                None => if signer_lamports < upsert_fee(old(self).base_fee, old(self).fee_per_byte, value@.len() as int) {
                    r == Err::<u64, ProgramError>(ProgramError::InsufficientFee) && *final(self) == *old(self)
                } else {
                    &&& r == Ok::<u64, ProgramError>(
                        upsert_fee(old(self).base_fee, old(self).fee_per_byte, value@.len() as int) as u64,
                    )
                    &&& final(self).accounts() == put_account(old(self).accounts(), key@, value@)
                    &&& final(self).settings() == (SettingsView {
                        total_count: if !has_account(old(self).accounts(), key@) {
                            sat_add(old(self).total_count, 1)
                        } else {
                            old(self).total_count
                        },
                        ..old(self).settings()
                    })
                },
            },
    {
        if key.len() > MAX_KEY_LENGTH {
            return Err(ProgramError::KeyTooLong);
        }
        if value.len() > MAX_VALUE_LENGTH {
            return Err(ProgramError::ValueTooLong);
        }
        if self.paused {
            return Err(ProgramError::Paused);
        }
        if key.len() > MAX_KEY_LEN {
            return Err(ProgramError::KeyTooLong);
        }
        if value.len() > MAX_VALUE_LEN {
            return Err(ProgramError::ValueTooLarge);
        }
        let fee = self.base_fee + (value.len() as u64 * self.fee_per_byte);
        if signer_lamports < fee {
            return Err(ProgramError::InsufficientFee);
        }
        let ghost before = self.accounts();
        let is_new = self.find(key.as_slice()).is_none();
        match self.find(key.as_slice()) {
            Some(i) => {
                let ghost k = key@;
                self.values.set(i, (key, value));
                proof {
                    assert(self.accounts() =~= before.update(i as int, (k, self.values@[i as int].1@)));
                    assert forall|a: int, b: int| 0 <= a < b < self.accounts().len() implies #[trigger] self.accounts()[a].0
                        != #[trigger] self.accounts()[b].0 by {
                        if a != i && b != i {
                            assert(self.accounts()[a] == before[a] && self.accounts()[b] == before[b]);
                        } else if a == i {
                            assert(self.accounts()[b] == before[b]);
                            assert(before[i as int].0 == k);
                        } else {
                            assert(self.accounts()[a] == before[a]);
                            assert(before[i as int].0 == k);
                        }
                    }
                }
            },
            None => {
                let ghost k = key@;
                let ghost v = value@;
                self.values.push((key, value));
                proof {
                    assert(self.accounts() =~= before.push((k, v)));
                    assert forall|a: int, b: int| 0 <= a < b < self.accounts().len() implies #[trigger] self.accounts()[a].0
                        != #[trigger] self.accounts()[b].0 by {
                        if b == before.len() {
                            assert(self.accounts()[a] == before[a]);
                            assert(!(0 <= a < before.len() && before[a].0 == k));
                        } else {
                            assert(self.accounts()[a] == before[a] && self.accounts()[b] == before[b]);
                        }
                    }
                }
            },
        }
        if is_new {
            self.total_count = self.total_count.saturating_add(1);
        }
        Ok(fee)
    }

    /// Closes `key`'s value account: the fee (the base fee) is charged and
    /// the key counter goes down by one.  Returns the fee charged.
    pub fn delete(&mut self, key: &Vec<u8>, signer_lamports: u64) -> (r: Result<u64, ProgramError>)
        requires
            old(self).wf(),
        ensures
            final(self).wf(),
            !has_account(old(self).accounts(), key@) ==> r == Err::<u64, ProgramError>(ProgramError::AccountNotInitialized)
                && *final(self) == *old(self),
            has_account(old(self).accounts(), key@) && old(self).paused ==> r == Err::<u64, ProgramError>(ProgramError::Paused)
                && *final(self) == *old(self),
            has_account(old(self).accounts(), key@) && !old(self).paused && signer_lamports < old(self).base_fee ==> r
                == Err::<u64, ProgramError>(ProgramError::InsufficientFee) && *final(self) == *old(self),
            has_account(old(self).accounts(), key@) && !old(self).paused && signer_lamports >= old(self).base_fee ==> {
                &&& r == Ok::<u64, ProgramError>(old(self).base_fee)
                &&& final(self).accounts() == drop_account(old(self).accounts(), key@)
                &&& final(self).settings() == (SettingsView {
                    total_count: sat_sub(old(self).total_count, 1),
                    ..old(self).settings()
                })
            },
    {
        let i = match self.find(key.as_slice()) {
            Some(i) => i,
            None => {
                return Err(ProgramError::AccountNotInitialized);
            },
        };
        if self.paused {
            return Err(ProgramError::Paused);
        }
        let fee = self.base_fee;
        if signer_lamports < fee {
            return Err(ProgramError::InsufficientFee);
        }
        let ghost before = self.accounts();
        let _ = self.values.remove(i);
        proof {
            assert(self.accounts() =~= before.remove(i as int));
            assert forall|a: int, b: int| 0 <= a < b < self.accounts().len() implies #[trigger] self.accounts()[a].0
                != #[trigger] self.accounts()[b].0 by {
                let a2 = if a < i { a } else { a + 1 };
                let b2 = if b < i { b } else { b + 1 };
                assert(self.accounts()[a] == before[a2] && self.accounts()[b] == before[b2]);
            }
        }
        self.total_count = self.total_count.saturating_sub(1);
        Ok(fee)
    }

    /// The data of `key`'s value account.
    pub fn get(&self, key: &Vec<u8>) -> (r: Result<Vec<u8>, ProgramError>)
        requires
            self.wf(),
        ensures
            !has_account(self.accounts(), key@) ==> r == Err::<Vec<u8>, ProgramError>(ProgramError::AccountNotInitialized),
            has_account(self.accounts(), key@) && self.paused ==> r == Err::<Vec<u8>, ProgramError>(ProgramError::Paused),
            has_account(self.accounts(), key@) && !self.paused ==> r is Ok && r->Ok_0@ == data_of(self.accounts(), key@)->Some_0,
    {
        let i = match self.find(key.as_slice()) {
            Some(i) => i,
            None => {
                return Err(ProgramError::AccountNotInitialized);
            },
        };
        if self.paused {
            return Err(ProgramError::Paused);
        }
        assert(self.accounts()[i as int].1 == self.values@[i as int].1@);
        Ok(self.values[i].1.clone())
    }
}

/// The value a read account yields: it could be borrowed, is at least 8
/// bytes long and holds a value account.
pub open spec fn read_account(acc: Option<Seq<u8>>) -> Option<Seq<u8>> {
    match acc {
        Some(d) => if d.len() >= 8 {
            account_value(d)
        } else {
            None
        },
        None => None,
    }
}

/// The events a scan emits, going through the keys and the accounts in
/// step from position `i`, `count` emitted so far: a key is emitted with
/// its account's value when the account reads and the key is not before
/// `start`, until `limit` are emitted.
pub open spec fn scan_events(
    keys: Seq<Seq<u8>>,
    accs: Seq<Option<Seq<u8>>>,
    start: Seq<u8>,
    limit: int,
    i: int,
    count: int,
) -> Seq<(Seq<u8>, Seq<u8>)>
    decreases keys.len() - i,
{
    if i < 0 || i >= keys.len() || i >= accs.len() || count >= limit {
        Seq::empty()
    } else {
        match read_account(accs[i]) {
            Some(v) => if bytes_le(start, keys[i]) {
                seq![(keys[i], v)] + scan_events(keys, accs, start, limit, i + 1, count + 1)
            } else {
                scan_events(keys, accs, start, limit, i + 1, count)
            },
            None => scan_events(keys, accs, start, limit, i + 1, count),
        }
    }
}

/// What a scan from position `i` (with `count` keys emitted so far)
/// emits: only keys not before the start key, and, when the limit leaves
/// room for every remaining key, every remaining key not before the start
/// key whose account reads, with its value.
proof fn lemma_scan_from(
    keys: Seq<Seq<u8>>,
    accs: Seq<Option<Seq<u8>>>,
    start: Seq<u8>,
    limit: int,
    i: int,
    count: int,
)
    requires
        0 <= i,
    ensures
        ({
            let out = scan_events(keys, accs, start, limit, i, count);
            &&& forall|t: int| 0 <= t < out.len() ==> bytes_le(start, (#[trigger] out[t]).0)
            &&& count <= limit ==> out.len() <= limit - count
            &&& limit - count >= keys.len() - i ==> forall|j: int|
                i <= j < keys.len() && j < accs.len() && #[trigger] read_account(accs[j]) is Some && bytes_le(start, keys[j])
                    ==> out.contains((keys[j], read_account(accs[j])->Some_0))
        }),
    decreases keys.len() - i,
{
    if i >= keys.len() || i >= accs.len() || count >= limit {
        assert(scan_events(keys, accs, start, limit, i, count).len() == 0);
    } else {
        let out = scan_events(keys, accs, start, limit, i, count);
        match read_account(accs[i]) {
            Some(v) => {
                if bytes_le(start, keys[i]) {
                    lemma_scan_from(keys, accs, start, limit, i + 1, count + 1);
                    let rest = scan_events(keys, accs, start, limit, i + 1, count + 1);
                    assert(out == seq![(keys[i], v)] + rest);
                    assert forall|t: int| 0 <= t < out.len() implies bytes_le(start, (#[trigger] out[t]).0) by {
                        if t > 0 {
                            assert(out[t] == rest[t - 1]);
                        }
                    }
                    if limit - count >= keys.len() - i {
                        assert forall|j: int|
                            i <= j < keys.len() && j < accs.len() && #[trigger] read_account(accs[j]) is Some && bytes_le(
                                start,
                                keys[j],
                            ) implies out.contains((keys[j], read_account(accs[j])->Some_0)) by {
                            if j == i {
                                assert(out[0] == (keys[j], read_account(accs[j])->Some_0));
                            } else {
                                let x = (keys[j], read_account(accs[j])->Some_0);
                                assert(rest.contains(x));
                                let t = choose|t: int| 0 <= t < rest.len() && rest[t] == x;
                                assert(out[t + 1] == x);
                            }
                        }
                    }
                } else {
                    lemma_scan_from(keys, accs, start, limit, i + 1, count);
                    assert(out == scan_events(keys, accs, start, limit, i + 1, count));
                }
            },
            None => {
                lemma_scan_from(keys, accs, start, limit, i + 1, count);
                assert(out == scan_events(keys, accs, start, limit, i + 1, count));
            },
        }
    }
}

/// A scan emits only keys not before its start key, at most `limit` of
/// them; and when its limit leaves room for every key, it emits every key
/// not before the start key (the start key itself included) whose account
/// reads, with its value.
pub proof fn law_scan_emits_keys_from_start(keys: Seq<Seq<u8>>, accs: Seq<Option<Seq<u8>>>, start: Seq<u8>, limit: int)
    ensures
        ({
            let out = scan_events(keys, accs, start, limit, 0, 0);
            &&& forall|t: int| 0 <= t < out.len() ==> bytes_le(start, (#[trigger] out[t]).0)
            &&& limit >= 0 ==> out.len() <= limit
            &&& limit >= keys.len() ==> forall|j: int|
                0 <= j < keys.len() && j < accs.len() && #[trigger] read_account(accs[j]) is Some && bytes_le(start, keys[j])
                    ==> out.contains((keys[j], read_account(accs[j])->Some_0))
        }),
{
    lemma_scan_from(keys, accs, start, limit, 0, 0);
}

/// A scan that starts at a key whose account reads emits that key first.
pub proof fn law_scan_emits_the_start_key(keys: Seq<Seq<u8>>, accs: Seq<Option<Seq<u8>>>, limit: int)
    requires
        keys.len() > 0,
        accs.len() > 0,
        limit > 0,
        read_account(accs[0]) is Some,
    ensures
        scan_events(keys, accs, keys[0], limit, 0, 0).len() > 0,
        scan_events(keys, accs, keys[0], limit, 0, 0)[0] == (keys[0], read_account(accs[0])->Some_0),
{
    crate::keyorder::lemma_lt_strict_total(keys[0], keys[0]);
}

/// The events a page emits: every key whose account reads, with the
/// account's value.
pub open spec fn page_events(keys: Seq<Seq<u8>>, accs: Seq<Option<Seq<u8>>>, i: int) -> Seq<(Seq<u8>, Seq<u8>)>
    decreases keys.len() - i,
{
    if i < 0 || i >= keys.len() || i >= accs.len() {
        Seq::empty()
    } else {
        match read_account(accs[i]) {
            Some(v) => seq![(keys[i], v)] + page_events(keys, accs, i + 1),
            None => page_events(keys, accs, i + 1),
        }
    }
}

/// The views of a list of events.
pub open spec fn kv_events(v: Seq<KVEvent>) -> Seq<(Seq<u8>, Seq<u8>)> {
    v.map_values(|e: KVEvent| (e.key@, e.value@))
}

/// The views of a list of byte strings.
pub open spec fn byte_seqs(v: Seq<Vec<u8>>) -> Seq<Seq<u8>> {
    v.map_values(|b: Vec<u8>| b@)
}

/// The views of a list of optional byte strings.
pub open spec fn opt_byte_seqs(v: Seq<Option<Vec<u8>>>) -> Seq<Option<Seq<u8>>> {
    v.map_values(|b: Option<Vec<u8>>| match b {
        Some(d) => Some(d@),
        None => None,
    })
}

/// The value an account's data holds, when it can be read.
fn read_account_data(acc: &Option<Vec<u8>>) -> (r: Option<Vec<u8>>)
    ensures
        match read_account(match acc { Some(d) => Some(d@), None => None }) {
            Some(v) => r is Some && r->Some_0@ == v,
            None => r is None,
        },
{
    match acc {
        Some(d) => {
            if d.len() < 8 {
                return None;
            }
            match read_borsh_bytes(d.as_slice(), 8) {
                Some((v, _)) => Some(v),
                None => None,
            }
        },
        None => None,
    }
}

impl ProgramState {
    /// Emits the keys not before `start` whose accounts read, at most
    /// `limit` of them, then charges the scan fee per emitted key.
    /// Returns the events and the fee.
    pub fn scan(&self, start_key: &Vec<u8>, limit: u64, keys: &Vec<Vec<u8>>, accounts: &Vec<Option<Vec<u8>>>, signer_lamports: u64) -> (r: Result<(Vec<KVEvent>, u64), ProgramError>)
        requires
            !self.paused ==> self.scan_fee_per_item * scan_events(byte_seqs(keys@), opt_byte_seqs(accounts@), start_key@, limit as int, 0, 0).len() <= u64::MAX,
        ensures
            self.paused ==> r == Err::<(Vec<KVEvent>, u64), ProgramError>(ProgramError::Paused),
            !self.paused ==> {
                let events = scan_events(byte_seqs(keys@), opt_byte_seqs(accounts@), start_key@, limit as int, 0, 0);
                let fee = self.scan_fee_per_item * events.len();
                if signer_lamports < fee {
                    r == Err::<(Vec<KVEvent>, u64), ProgramError>(ProgramError::InsufficientFee)
                } else {
                    r is Ok && kv_events(r->Ok_0.0@) == events && r->Ok_0.1 == fee
                }
            },
    {
        if self.paused {
            return Err(ProgramError::Paused);
        }
        let ghost ks = byte_seqs(keys@);
        let ghost accs = opt_byte_seqs(accounts@);
        let ghost all = scan_events(ks, accs, start_key@, limit as int, 0, 0);
        let mut out: Vec<KVEvent> = Vec::new();
        let mut count: u64 = 0;
        let mut i: usize = 0;
        while i < keys.len() && i < accounts.len()
            invariant
                ks == byte_seqs(keys@),
                accs == opt_byte_seqs(accounts@),
                i <= keys@.len(),
                count == out@.len(),
                count <= limit,
                all == kv_events(out@) + scan_events(ks, accs, start_key@, limit as int, i as int, count as int),
            ensures
                all == kv_events(out@) + scan_events(ks, accs, start_key@, limit as int, i as int, count as int),
                count == out@.len(),
                i >= keys@.len() || i >= accounts@.len() || count >= limit,
            decreases keys.len() - i,
        {
            if count >= limit {
                break;
            }
            assert(accs[i as int] == match accounts@[i as int] { Some(d) => Some(d@), None => None });
            match read_account_data(&accounts[i]) {
                Some(v) => {
                    if compare_bytes(keys[i].as_slice(), start_key.as_slice()) >= 0 {
                        proof {
                            crate::keyorder::lemma_lt_strict_total(keys@[i as int]@, start_key@);
                        }
                        let ghost before = out@;
                        out.push(KVEvent { key: keys[i].clone(), value: v });
                        count = count + 1;
                        assert(kv_events(out@) =~= kv_events(before) + seq![(ks[i as int], out@.last().value@)]);
                    } else {
                        proof {
                            crate::keyorder::lemma_lt_strict_total(keys@[i as int]@, start_key@);
                        }
                    }
                },
                None => {},
            }
            i = i + 1;
        }
        assert(all == kv_events(out@)) by {
            assert(scan_events(ks, accs, start_key@, limit as int, i as int, count as int) =~= Seq::<(Seq<u8>, Seq<u8>)>::empty());
            assert(kv_events(out@) + Seq::<(Seq<u8>, Seq<u8>)>::empty() =~= kv_events(out@));
        }
        let fee = self.scan_fee_per_item * count;
        if signer_lamports < fee {
            return Err(ProgramError::InsufficientFee);
        }
        Ok((out, fee))
    }

    /// Emits every key whose account reads, charges the base fee per
    /// emitted key, and reports the key counter (the program logs it as
    /// `FINAL_TOTAL: <n>`).  Returns the events, the fee and the counter.
    pub fn page(&self, keys: &Vec<Vec<u8>>, accounts: &Vec<Option<Vec<u8>>>, signer_lamports: u64) -> (r: Result<(Vec<KVEvent>, u64, u64), ProgramError>)
        requires
            !self.paused ==> self.base_fee * page_events(byte_seqs(keys@), opt_byte_seqs(accounts@), 0).len() <= u64::MAX,
        ensures
            self.paused ==> r == Err::<(Vec<KVEvent>, u64, u64), ProgramError>(ProgramError::Paused),
            !self.paused ==> {
                let events = page_events(byte_seqs(keys@), opt_byte_seqs(accounts@), 0);
                let fee = self.base_fee * events.len();
                if signer_lamports < fee {
                    r == Err::<(Vec<KVEvent>, u64, u64), ProgramError>(ProgramError::InsufficientFee)
                } else {
                    r is Ok && kv_events(r->Ok_0.0@) == events && r->Ok_0.1 == fee && r->Ok_0.2 == self.total_count
                }
            },
    {
        if self.paused {
            return Err(ProgramError::Paused);
        }
        let ghost ks = byte_seqs(keys@);
        let ghost accs = opt_byte_seqs(accounts@);
        let ghost all = page_events(ks, accs, 0);
        let mut out: Vec<KVEvent> = Vec::new();
        let mut count: u64 = 0;
        let mut i: usize = 0;
        while i < keys.len() && i < accounts.len()
            invariant
                ks == byte_seqs(keys@),
                accs == opt_byte_seqs(accounts@),
                i <= keys@.len(),
                count == out@.len(),
                all == kv_events(out@) + page_events(ks, accs, i as int),
                out@.len() <= i,
            decreases keys.len() - i,
        {
            assert(accs[i as int] == match accounts@[i as int] { Some(d) => Some(d@), None => None });
            match read_account_data(&accounts[i]) {
                Some(v) => {
                    let ghost before = out@;
                    out.push(KVEvent { key: keys[i].clone(), value: v });
                    count = count + 1;
                    assert(kv_events(out@) =~= kv_events(before) + seq![(ks[i as int], out@.last().value@)]);
                },
                None => {},
            }
            i = i + 1;
        }
        assert(all == kv_events(out@)) by {
            assert(page_events(ks, accs, i as int) =~= Seq::<(Seq<u8>, Seq<u8>)>::empty());
            assert(kv_events(out@) + Seq::<(Seq<u8>, Seq<u8>)>::empty() =~= kv_events(out@));
        }
        let fee = self.base_fee * count;
        if signer_lamports < fee {
            return Err(ProgramError::InsufficientFee);
        }
        Ok((out, fee, self.total_count))
    }
}

/// The level of a key: one more than the number of leading hash bytes
/// (of the first eight) whose lowest bit is set, at most `MAX_LEVEL`.
pub open spec fn level_of(h: Seq<u8>) -> int {
    let run = odd_run(h, 0);
    if 1 + run < MAX_LEVEL {
        1 + run
    } else {
        MAX_LEVEL as int
    }
}

/// The number of consecutive bytes from position `i` (below `MAX_LEVEL`)
/// whose lowest bit is set.
pub open spec fn odd_run(h: Seq<u8>, i: int) -> int
    decreases MAX_LEVEL - i,
{
    if i < 0 || i >= MAX_LEVEL || i >= h.len() || h[i] % 2 == 0 {
        0
    } else {
        1 + odd_run(h, i + 1)
    }
}

/// The level of a key, from the Keccak-256 hash of the key.
pub fn calc_level(key: &[u8]) -> (r: u8)
    ensures
        r == level_of(keccak256(key@)),
{
    let h = keccak_hash(key);
    let mut lvl: u8 = 1;
    let mut i: usize = 0;
    while i < MAX_LEVEL
        invariant
            i <= MAX_LEVEL,
            h@ == keccak256(key@),
            lvl == 1 + i,
            odd_run(h@, 0) == i + odd_run(h@, i as int),
        decreases MAX_LEVEL - i,
    {
        let b: u8 = h[i];
        if b & 1 == 1 {
            assert(b & 1 == 1 ==> b % 2 == 1) by (bit_vector);
            lvl = lvl + 1;
        } else {
            assert(b & 1 != 1 ==> b % 2 == 0) by (bit_vector);
            assert(odd_run(h@, i as int) == 0);
            return if lvl < MAX_LEVEL as u8 {
                lvl
            } else {
                MAX_LEVEL as u8
            };
        }
        i = i + 1;
    }
    assert(odd_run(h@, MAX_LEVEL as int) == 0);
    if lvl < MAX_LEVEL as u8 {
        lvl
    } else {
        MAX_LEVEL as u8
    }
}

/// The key counter keeps counting the value accounts: when it did before,
/// it still does after an upsert (while the counter is below its maximum).
pub proof fn law_upsert_keeps_count(before: ProgramState, after: ProgramState, key: Seq<u8>, value: Seq<u8>)
    requires
        before.wf(),
        before.total_count == before.accounts().len(),
        before.total_count < u64::MAX,
        after.accounts() == put_account(before.accounts(), key, value),
        after.total_count == (if !has_account(before.accounts(), key) {
            sat_add(before.total_count, 1)
        } else {
            before.total_count
        }),
    ensures
        after.total_count == after.accounts().len(),
{
}

/// The key counter keeps counting the value accounts across a delete.
pub proof fn law_delete_keeps_count(before: ProgramState, after: ProgramState, key: Seq<u8>)
    requires
        before.wf(),
        before.total_count == before.accounts().len(),
        has_account(before.accounts(), key),
        after.accounts() == drop_account(before.accounts(), key),
        after.total_count == sat_sub(before.total_count, 1),
    ensures
        after.total_count == after.accounts().len(),
{
}

/// A read after a write gives the value written, and the other keys keep
/// theirs.
pub proof fn law_read_after_upsert(s: Seq<(Seq<u8>, Seq<u8>)>, key: Seq<u8>, value: Seq<u8>, other: Seq<u8>)
    requires
        distinct_keys(s),
    ensures
        data_of(put_account(s, key, value), key) == Some(value),
        other != key ==> data_of(put_account(s, key, value), other) == data_of(s, other),
        distinct_keys(put_account(s, key, value)),
{
    let t = put_account(s, key, value);
    if has_account(s, key) {
        let j = account_at(s, key);
        assert(t[j].0 == key);
        assert(has_account(t, key));
        let c = account_at(t, key);
        if c != j {
            assert(t[c].0 == key);
            assert(s[c].0 == key);
            if c < j {
                assert(s[c].0 != s[j].0);
            } else {
                assert(s[j].0 != s[c].0);
            }
        }
        if other != key {
            if has_account(s, other) {
                let o = account_at(s, other);
                assert(t[o] == s[o]);
                assert(has_account(t, other));
                let c2 = account_at(t, other);
                if c2 != o {
                    assert(t[c2].0 == other && c2 != j);
                    assert(s[c2].0 == other);
                    if c2 < o {
                        assert(s[c2].0 != s[o].0);
                    } else {
                        assert(s[o].0 != s[c2].0);
                    }
                }
            } else {
                if has_account(t, other) {
                    let c2 = account_at(t, other);
                    assert(c2 != j);
                    assert(s[c2].0 == other);
                }
            }
        }
        assert forall|a: int, b: int| 0 <= a < b < t.len() implies #[trigger] t[a].0 != #[trigger] t[b].0 by {
            if a != j && b != j {
                assert(t[a] == s[a] && t[b] == s[b]);
            } else if a == j {
                assert(t[b] == s[b]);
            } else {
                assert(t[a] == s[a]);
            }
        }
    } else {
        let n = s.len() as int;
        assert(t[n].0 == key);
        assert(has_account(t, key));
        let c = account_at(t, key);
        if c != n {
            assert(s[c].0 == key);
        }
        if other != key {
            if has_account(s, other) {
                let o = account_at(s, other);
                assert(t[o] == s[o]);
                assert(has_account(t, other));
                let c2 = account_at(t, other);
                if c2 != o {
                    assert(c2 != n);
                    assert(s[c2].0 == other);
                    if c2 < o {
                        assert(s[c2].0 != s[o].0);
                    } else {
                        assert(s[o].0 != s[c2].0);
                    }
                }
            } else {
                if has_account(t, other) {
                    let c2 = account_at(t, other);
                    assert(c2 != n);
                    assert(s[c2].0 == other);
                }
            }
        }
        assert forall|a: int, b: int| 0 <= a < b < t.len() implies #[trigger] t[a].0 != #[trigger] t[b].0 by {
            if b == n {
                assert(t[a] == s[a]);
                assert(!(0 <= a < s.len() && s[a].0 == key));
            } else {
                assert(t[a] == s[a] && t[b] == s[b]);
            }
        }
    }
}

} // verus!

//! The back end's side of the on-chain program, up to the sending of a
//! transaction: the program accounts of a request, the bookkeeping in the
//! local store that comes before it, the keys and value accounts that a
//! scan or a page hands to the program, and the reading of a value
//! account.  Every key written on chain is recorded in the local store
//! under its key, with the address of its value account as the value.
use vstd::prelude::*;
use crate::constants::{is_system_key, is_system_key_exec, value_seed, value_seeds};
use crate::error::{eof_error, Error};
use crate::sessions::prefixed_keys;
use crate::config::env_config::Config;
use crate::keypair::{keypair_bytes, parse_keypair_array};
use crate::solana::{find_program_address, parse_pubkey, program_address, pubkey_parse, seqs_of};
use crate::storage::codec::{copy_range, entry_fits, LOG_HEADER_SIZE};
use crate::storage::engine::{item_matches, items_match, DiskClient};
use crate::text::{string_from_utf8_lossy, utf8_lossy};
use crate::sessions::lemma_block_is_filter;

verus! {

/// The data of a value account: the value written under a key.
pub struct ValueAccount {
    pub data: Vec<u8>,
}

/// A key and its value, as the program emits them for a read.
#[derive(Debug, Clone)]
pub struct KVEvent {
    pub key: Vec<u8>,
    pub value: Vec<u8>,
}

/// The number of keys the program counts.
#[derive(Debug, Clone)]
pub struct KvCounter {
    pub total_count: u64,
}

/// The keys a scan or a page hands to the program, and the value accounts
/// it reads, in the same order.
pub struct ProgramCall {
    pub keys: Vec<Vec<u8>>,
    pub accounts: Vec<[u8; 32]>,
}

/// The address of the program account derived from the seeds.
pub open spec fn pda_of(seeds: Seq<Seq<u8>>, program_id: Seq<u8>) -> Option<Seq<u8>> {
    match program_address(seeds, program_id) {
        Some((a, _)) => Some(a),
        None => None,
    }
}

/// The address of the account that holds the value of `key`.
pub open spec fn value_pda(program_id: Seq<u8>, key: Seq<u8>) -> Option<Seq<u8>> {
    pda_of(seq![value_seed(), key], program_id)
}

/// The address of the program account derived from the seeds (`None`
/// when no bump seed gives one).
pub fn find_pda(program_id: [u8; 32], seeds: &Vec<Vec<u8>>) -> (r: Option<[u8; 32]>)
    ensures
        match pda_of(seqs_of(seeds@), program_id@) {
            Some(a) => r is Some && r->Some_0@ == a,
            None => r is None,
        },
{
    match find_program_address(seeds, program_id) {
        Some((addr, _)) => Some(addr),
        None => None,
    }
}

/// The address of the account that holds the value of `key`.
pub fn find_value_pda(program_id: [u8; 32], key: &Vec<u8>) -> (r: Option<[u8; 32]>)
    ensures
        match value_pda(program_id@, key@) {
            Some(a) => r is Some && r->Some_0@ == a,
            None => r is None,
        },
{
    let seeds = vec![value_seeds(), key.clone()];
    assert(seqs_of(seeds@) =~= seq![value_seed(), key@]);
    find_pda(program_id, &seeds)
}

/// A key and a 32-byte address fit the store's record format.
pub open spec fn address_entry_fits(key: Seq<u8>) -> bool {
    key.len() + LOG_HEADER_SIZE + 32 <= u32::MAX
}

/// Before an upsert is sent: the key is recorded in the store with the
/// address of its value account, which is returned.  Without an address
/// nothing is recorded.
pub fn upsert_local(storage: &mut DiskClient, program_id: [u8; 32], key: &Vec<u8>) -> (r: Option<[u8; 32]>)
    requires
        old(storage).wf(),
        address_entry_fits(key@),
    ensures
        match value_pda(program_id@, key@) {
            Some(a) => r is Some && r->Some_0@ == a && DiskClient::set_spec(*old(storage), *final(storage), key@, a),
            None => r is None && *final(storage) == *old(storage),
        },
{
    match find_value_pda(program_id, key) {
        Some(pda) => {
            let v = copy_range(pda.as_slice(), 0, 32);
            assert(v@ =~= pda@);
            assert(entry_fits(key@, Some(v@)));
            let _ = storage.set(key.clone(), v);
            Some(pda)
        },
        None => None,
    }
}

/// Before a delete is sent: a key the store keeps for itself is refused;
/// otherwise the address of the key's value account is found and the key
/// leaves the store.  Without an address nothing is deleted.
pub fn delete_local(storage: &mut DiskClient, program_id: [u8; 32], key: &Vec<u8>) -> (r: Result<Option<[u8; 32]>, Error>)
    requires
        old(storage).wf(),
        entry_fits(key@, None),
    ensures
        is_system_key(key@) ==> r is Err && r->Err_0 is InvalidKey && *final(storage) == *old(storage),
        !is_system_key(key@) ==> match value_pda(program_id@, key@) {
            Some(a) => r is Ok && r->Ok_0 is Some && r->Ok_0->Some_0@ == a && DiskClient::delete_spec(
                *old(storage),
                *final(storage),
                key@,
            ),
            None => r is Ok && r->Ok_0 is None && *final(storage) == *old(storage),
        },
{
    if is_system_key_exec(key.as_slice()) {
        return Err(Error::InvalidKey);
    }
    match find_value_pda(program_id, key) {
        Some(pda) => {
            let _ = storage.delete(key.clone());
            Ok(Some(pda))
        },
        None => Ok(None),
    }
}

/// A read of a key: a key the store keeps for itself is refused;
/// otherwise the address of its value account.
pub fn get_request(program_id: [u8; 32], key: &Vec<u8>) -> (r: Result<Option<[u8; 32]>, Error>)
    ensures
        is_system_key(key@) ==> r is Err && r->Err_0 is InvalidKey,
        !is_system_key(key@) ==> match value_pda(program_id@, key@) {
            Some(a) => r is Ok && r->Ok_0 is Some && r->Ok_0->Some_0@ == a,
            None => r is Ok && r->Ok_0 is None,
        },
{
    if is_system_key_exec(key.as_slice()) {
        return Err(Error::InvalidKey);
    }
    Ok(find_value_pda(program_id, key))
}

/// The little-endian 32-bit number at `pos`.
pub open spec fn le32_at(b: Seq<u8>, pos: int) -> int {
    b[pos] + 256 * b[pos + 1] + 65536 * b[pos + 2] + 16777216 * b[pos + 3]
}

/// A Borsh byte vector at `pos`: its 32-bit little-endian length, then
/// its bytes; with the position after it.
pub open spec fn borsh_bytes_at(b: Seq<u8>, pos: int) -> Option<(Seq<u8>, int)> {
    if 0 <= pos && pos + 4 <= b.len() && pos + 4 + le32_at(b, pos) <= b.len() {
        Some((b.subrange(pos + 4, pos + 4 + le32_at(b, pos)), pos + 4 + le32_at(b, pos)))
    } else {
        None
    }
}

/// Reads a Borsh byte vector at `pos`.
pub fn read_borsh_bytes(b: &[u8], pos: usize) -> (r: Option<(Vec<u8>, usize)>)
    ensures
        match borsh_bytes_at(b@, pos as int) {
            Some((v, next)) => r is Some && r->Some_0.0@ == v && r->Some_0.1 == next,
            None => r is None,
        },
{
    if pos > b.len() || b.len() - pos < 4 {
        return None;
    }
    let n: u64 = b[pos] as u64 + 256 * (b[pos + 1] as u64) + 65536 * (b[pos + 2] as u64) + 16777216 * (b[pos + 3] as u64);
    assert(n == le32_at(b@, pos as int));
    if n > (b.len() - pos - 4) as u64 {
        return None;
    }
    let start = pos + 4;
    let end = start + n as usize;
    let mut out: Vec<u8> = Vec::new();
    let mut i = start;
    while i < end
        invariant
            start <= i <= end <= b@.len(),
            out@ =~= b@.subrange(start as int, i as int),
        decreases end - i,
    {
        out.push(b[i]);
        i = i + 1;
    }
    Some((out, end))
}

/// The value a value account's data holds: after the 8-byte account
/// discriminator, a Borsh byte vector (bytes after it are ignored).
pub open spec fn account_value(data: Seq<u8>) -> Option<Seq<u8>> {
    match borsh_bytes_at(data, 8) {
        Some((v, _)) => Some(v),
        None => None,
    }
}

/// Reads a value account's data.
pub fn decode_value_account(data: &[u8]) -> (r: Result<ValueAccount, Error>)
    requires
        data@.len() >= 8,
    ensures
        match account_value(data@) {
            Some(v) => r is Ok && r->Ok_0.data@ == v,
            None => r is Err && r->Err_0 is RpcError,
        },
{
    match read_borsh_bytes(data, 8) {
        Some((v, _)) => Ok(ValueAccount { data: v }),
        None => Err(Error::RpcError(String::from_str("failed to deserialize the value account"))),
    }
}

/// The answer to a read: `not_found` when the transaction failed or the
/// account could not be read; otherwise the value, its invalid UTF-8
/// sequences replaced.
pub fn finish_get(sent: bool, account: Option<Vec<u8>>) -> (r: Result<String, Error>)
    requires
        sent && account is Some ==> account->Some_0@.len() >= 8,
    ensures
        !sent || account is None ==> r is Ok && r->Ok_0@ == "not_found"@,
        sent && account is Some ==> match account_value(account->Some_0@) {
            Some(v) => r is Ok && r->Ok_0@ == utf8_lossy(v),
            None => r is Err && r->Err_0 is RpcError,
        },
{
    if !sent {
        return Ok(String::from_str("not_found"));
    }
    match account {
        Some(data) => {
            let acc = decode_value_account(data.as_slice())?;
            Ok(string_from_utf8_lossy(acc.data.as_slice()))
        },
        None => Ok(String::from_str("not_found")),
    }
}

/// The views of a list of key-value pairs.
pub open spec fn pair_views(v: Seq<(Vec<u8>, Vec<u8>)>) -> Seq<(Seq<u8>, Seq<u8>)> {
    v.map_values(|p: (Vec<u8>, Vec<u8>)| (p.0@, p.1@))
}

/// The pair names a value account: a user key recorded with a 32-byte
/// address.
pub open spec fn account_pair(p: (Seq<u8>, Seq<u8>)) -> bool {
    !is_system_key(p.0) && p.1.len() == 32
}

/// The pairs handed to the program: those that name a value account, in
/// order; the store's own settings and malformed records are left out.
pub open spec fn call_pairs(ps: Seq<(Seq<u8>, Seq<u8>)>) -> Seq<(Seq<u8>, Seq<u8>)> {
    ps.filter(|p: (Seq<u8>, Seq<u8>)| account_pair(p))
}

/// The keys handed to the program, one per value account.
pub open spec fn call_keys(ps: Seq<(Seq<u8>, Seq<u8>)>) -> Seq<Seq<u8>> {
    call_pairs(ps).map_values(|p: (Seq<u8>, Seq<u8>)| p.0)
}

/// The value accounts handed to the program: the recorded address of
/// each key of `call_keys`, at the same position.
pub open spec fn call_accounts(ps: Seq<(Seq<u8>, Seq<u8>)>) -> Seq<Seq<u8>> {
    call_pairs(ps).map_values(|p: (Seq<u8>, Seq<u8>)| p.1)
}

/// The views of a list of addresses.
pub open spec fn addresses_of(v: Seq<[u8; 32]>) -> Seq<Seq<u8>> {
    v.map_values(|a: [u8; 32]| a@)
}

/// The keys and value accounts of a list of recorded pairs: the two
/// lists have the same length, the account at each position being the
/// one recorded for the key at that position.
pub fn build_call(pairs: &Vec<(Vec<u8>, Vec<u8>)>) -> (r: ProgramCall)
    ensures
        seqs_of(r.keys@) == call_keys(pair_views(pairs@)),
        addresses_of(r.accounts@) == call_accounts(pair_views(pairs@)),
        r.keys@.len() == r.accounts@.len(),
{
    let ghost ps = pair_views(pairs@);
    let ghost ap = |p: (Seq<u8>, Seq<u8>)| account_pair(p);
    let mut keys: Vec<Vec<u8>> = Vec::new();
    let mut accounts: Vec<[u8; 32]> = Vec::new();
    let mut i: usize = 0;
    assert(ps.take(0).filter(ap) =~= Seq::<(Seq<u8>, Seq<u8>)>::empty()) by {
        reveal(Seq::filter);
    }
    while i < pairs.len()
        invariant
            i <= pairs@.len(),
            ps == pair_views(pairs@),
            ap == (|p: (Seq<u8>, Seq<u8>)| account_pair(p)),
            seqs_of(keys@) == ps.take(i as int).filter(ap).map_values(|p: (Seq<u8>, Seq<u8>)| p.0),
            addresses_of(accounts@) == ps.take(i as int).filter(ap).map_values(|p: (Seq<u8>, Seq<u8>)| p.1),
            keys@.len() == accounts@.len(),
        decreases pairs.len() - i,
    {
        let (k, v) = &pairs[i];
        assert(ps[i as int] == (k@, v@));
        let ghost before_k = keys@;
        let ghost before_a = accounts@;
        proof {
            assert(ps.take(i + 1) =~= ps.take(i as int).push(ps[i as int]));
            ps.take(i as int).lemma_filter_push(ps[i as int], ap);
        }
        if !is_system_key_exec(k.as_slice()) && v.len() == 32 {
            keys.push(k.clone());
            assert(seqs_of(keys@) =~= seqs_of(before_k).push(k@));
            let mut a = [0u8; 32];
            let mut j: usize = 0;
            while j < 32
                invariant
                    j <= 32,
                    v@.len() == 32,
                    forall|t: int| 0 <= t < j ==> a@[t] == v@[t],
                decreases 32 - j,
            {
                a[j] = v[j];
                j = j + 1;
            }
            assert(a@ =~= v@);
            accounts.push(a);
            assert(addresses_of(accounts@) =~= addresses_of(before_a).push(v@));
        }
        i = i + 1;
    }
    assert(ps.take(i as int) =~= ps);
    ProgramCall { keys, accounts }
}

/// The pairs recorded for a list of keys.
pub open spec fn recorded_pairs(storage: DiskClient, ks: Seq<Seq<u8>>) -> Seq<(Seq<u8>, Seq<u8>)> {
    ks.map_values(|k: Seq<u8>| (k, storage@[k]))
}

/// What a scan hands to the program: the first `limit` keys that start
/// with `start`, in ascending order; none when `start` is empty, and an
/// error when one of them cannot be read.
pub open spec fn scan_outcome(storage: DiskClient, start: Seq<u8>, limit: int, r: Result<ProgramCall, Error>) -> bool {
    let dk = prefixed_keys(storage, start);
    let n = if limit < dk.len() { limit } else { dk.len() as int };
    if start.len() == 0 {
        r is Err && r->Err_0 is InvalidKey
    } else if exists|j: int| 0 <= j < n && !storage.readable(#[trigger] dk[j]) {
        r is Err && r->Err_0 is IoError
    } else {
        &&& r is Ok
        &&& seqs_of(r->Ok_0.keys@) == call_keys(recorded_pairs(storage, dk.take(n)))
        &&& addresses_of(r->Ok_0.accounts@) == call_accounts(recorded_pairs(storage, dk.take(n)))
        &&& r->Ok_0.keys@.len() == r->Ok_0.accounts@.len()
    }
}

/// The keys and value accounts of a scan from `start`.
pub fn scan_request(storage: &DiskClient, start: &Vec<u8>, limit: u64) -> (r: Result<ProgramCall, Error>)
    requires
        storage.wf(),
    ensures
        scan_outcome(*storage, start@, limit as int, r),
{
    if start.len() == 0 {
        return Err(Error::InvalidKey);
    }
    let items = storage.scan_prefix(start.clone());
    let ghost dk = prefixed_keys(*storage, start@);
    let ghost pred = |k: Seq<u8>| start@.is_prefix_of(k);
    let ghost (lo, hi) = choose|lo: int, hi: int|
        items_match(storage.log_bytes(), storage.entries(), lo, hi, items@) && forall|j: int|
            0 <= j < storage.entries().len() ==> ((lo <= j < hi) <==> start@.is_prefix_of(#[trigger] storage.keys()[j]));
    proof {
        assert forall|j: int| 0 <= j < storage.keys().len() implies ((lo <= j < hi) <==> pred(#[trigger] storage.keys()[j])) by {}
        lemma_block_is_filter(storage.keys(), lo, hi, pred);
        assert(dk == storage.keys().subrange(lo, hi));
        storage.lemma_index();
    }
    let n: usize = if (items.len() as u64) < limit {
        items.len()
    } else {
        limit as usize
    };
    let ghost want = recorded_pairs(*storage, dk.take(n as int));
    let mut pairs: Vec<(Vec<u8>, Vec<u8>)> = Vec::new();
    let mut t: usize = 0;
    while t < n
        invariant
            t <= n <= items@.len(),
            n == (if limit < dk.len() { limit as int } else { dk.len() as int }),
            storage.wf(),
            items_match(storage.log_bytes(), storage.entries(), lo, hi, items@),
            dk == storage.keys().subrange(lo, hi),
            dk == prefixed_keys(*storage, start@),
            want == recorded_pairs(*storage, dk.take(n as int)),
            start@.len() > 0,
            pair_views(pairs@) == want.take(t as int),
            forall|u: int| 0 <= u < t ==> storage.readable(#[trigger] dk[u]),
            forall|i: int| 0 <= i < storage.entries().len() ==> storage.index()[#[trigger] storage.entries()[i].0]
                == storage.entries()[i].1,
            forall|k: Seq<u8>| storage.index().contains_key(k) <==> exists|i: int|
                0 <= i < storage.entries().len() && #[trigger] storage.entries()[i].0 == k,
        decreases n - t,
    {
        assert(item_matches(storage.log_bytes(), storage.entries()[lo + t], items@[t as int]));
        assert(dk[t as int] == storage.entries()[lo + t].0);
        assert(storage.index().contains_key(dk[t as int]));
        match &items[t] {
            Err(_) => {
                let e = eof_error();
                proof {
                    assert(!storage.readable(dk[t as int]));
                    assert(scan_outcome(*storage, start@, limit as int, Err(e)));
                }
                return Err(e);
            },
            Ok((k, v)) => {
                let ghost before = pairs@;
                pairs.push((k.clone(), v.clone()));
                proof {
                    assert(storage.readable(dk[t as int]));
                    assert(pair_views(pairs@) =~= pair_views(before).push((k@, v@)));
                    assert(want.take(t + 1) =~= want.take(t as int).push(want[t as int]));
                    assert(want[t as int] == (dk[t as int], storage@[dk[t as int]]));
                }
            },
        }
        t = t + 1;
    }
    assert(want.take(n as int) =~= want);
    Ok(build_call(&pairs))
}

/// The pairs of a page: up to `limit` keys from position `offset` in
/// ascending order.
pub open spec fn page_keys(storage: DiskClient, offset: int, limit: int) -> Seq<Seq<u8>> {
    let n = storage.keys().len();
    if offset >= n {
        Seq::empty()
    } else {
        storage.keys().subrange(offset, if offset + limit < n { offset + limit } else { n as int })
    }
}

/// The keys and value accounts of a page: the page number is used as the
/// position of its first key; an error when one of its keys cannot be
/// read.
pub fn page_request(storage: &DiskClient, page: usize, limit: usize) -> (r: Result<ProgramCall, Error>)
    requires
        storage.wf(),
    ensures
        (exists|j: int| 0 <= j < page_keys(*storage, page as int, limit as int).len() && !storage.readable(
            #[trigger] page_keys(*storage, page as int, limit as int)[j],
        )) ==> r is Err && r->Err_0 is IoError,
        !(exists|j: int| 0 <= j < page_keys(*storage, page as int, limit as int).len() && !storage.readable(
            #[trigger] page_keys(*storage, page as int, limit as int)[j],
        )) ==> {
            &&& r is Ok
            &&& seqs_of(r->Ok_0.keys@) == call_keys(recorded_pairs(*storage, page_keys(*storage, page as int, limit as int)))
            &&& addresses_of(r->Ok_0.accounts@) == call_accounts(
                recorded_pairs(*storage, page_keys(*storage, page as int, limit as int)),
            )
            &&& r->Ok_0.keys@.len() == r->Ok_0.accounts@.len()
        },
{
    let ghost pk = page_keys(*storage, page as int, limit as int);
    proof {
        storage.lemma_index();
    }
    match storage.page(limit, page) {
        Ok(data) => {
            proof {
                let n = storage.entries().len();
                assert forall|j: int| 0 <= j < pk.len() implies storage.readable(#[trigger] pk[j]) by {
                    assert(pk[j] == storage.keys()[page + j]);
                    assert(storage.keys()[page + j] == storage.entries()[page + j].0);
                }
                assert(pair_views(data@) =~= recorded_pairs(*storage, pk)) by {
                    assert forall|i: int| 0 <= i < pk.len() implies pair_views(data@)[i] == recorded_pairs(*storage, pk)[i] by {
                        assert(pk[i] == storage.keys()[page + i]);
                        assert(storage.keys()[page + i] == storage.entries()[page + i].0);
                        assert(storage.readable(pk[i]));
                    }
                }
            }
            Ok(build_call(&data))
        },
        Err(e) => {
            proof {
                let n = storage.entries().len();
                let hi = if page + limit < n { page + limit } else { n as int };
                let j = choose|j: int| page <= j < hi && !crate::storage::engine::loc_in_log(storage.log_bytes(), #[trigger] storage.entries()[j].1);
                assert(pk[j - page] == storage.keys()[j]);
                assert(storage.keys()[j] == storage.entries()[j].0);
                assert(!storage.readable(pk[j - page]));
            }
            Err(e)
        },
    }
}

/// What the chain client is built from: the payer's 64 keypair bytes
/// and the program's address.
pub struct ChainSettings {
    pub payer: Vec<u8>,
    pub program_id: [u8; 32],
}

/// Reads the chain settings from the configuration: the keypair must be
/// a list of 64 bytes, the program id an address in base 58.
pub fn chain_settings(config: &Config) -> (r: Result<ChainSettings, Error>)
    ensures
        match keypair_bytes(config.payer_keypair@) {
            None => r is Err && r->Err_0 is InvalidKey,
            Some(b) => if b.len() != 64 {
                r is Err && r->Err_0 is InvalidKey
            } else {
                match pubkey_parse(config.program_id@) {
                    None => r is Err && r->Err_0 is InvalidProgramId,
                    Some(p) => r is Ok && r->Ok_0.payer@ == b && r->Ok_0.program_id@ == p,
                }
            },
        },
{
    let key_bytes = parse_keypair_array(config.payer_keypair.as_str())?;
    if key_bytes.len() != 64 {
        return Err(Error::InvalidKey);
    }
    match parse_pubkey(config.program_id.as_str()) {
        Ok(program_id) => Ok(ChainSettings { payer: key_bytes, program_id }),
        Err(msg) => Err(Error::InvalidProgramId(msg)),
    }
}

} // verus!

//! Where the replication log lives in the store: each entry under
//! `log_` and its index as 20 zero-padded decimal digits (so that key
//! order is index order), the vote under `raft_vote`, and the snapshot of
//! the data store as its key-value pairs.
use vstd::prelude::*;
use crate::chain::{pair_views, recorded_pairs};
use crate::error::{eof_error, Error};
use crate::keyorder::{bytes_lt, bytes_lt_from, lemma_lt_first_difference};
use crate::state_machine::ten_pow;
use crate::raft_server::{lemma_applied_empty, lemma_applied_push, writes_applied, write_step, WriteOp};
use crate::storage::codec::entry_fits;
use crate::storage::engine::{item_matches, items_match, DiskClient, KeyBound};

verus! {

/// The last `k` decimal digits of `n`, as bytes, zeros in front.
pub open spec fn padded_digits(n: nat, k: nat) -> Seq<u8>
    decreases k,
{
    if k == 0 {
        Seq::empty()
    } else {
        padded_digits(n / 10, (k - 1) as nat).push((48 + n % 10) as u8)
    }
}

/// The bytes of `log_`.
pub open spec fn log_prefix() -> Seq<u8> {
    seq![108u8, 111u8, 103u8, 95u8]
}

/// The key of the log entry with this index.
pub open spec fn log_key_of(index: u64) -> Seq<u8> {
    log_prefix() + padded_digits(index as nat, 20)
}

/// The bytes of `raft_vote`.
pub open spec fn vote_key() -> Seq<u8> {
    seq![114u8, 97u8, 102u8, 116u8, 95u8, 118u8, 111u8, 116u8, 101u8]
}

fn vote_key_bytes() -> (r: Vec<u8>)
    ensures
        r@ == vote_key(),
{
    let r = vec![114u8, 97u8, 102u8, 116u8, 95u8, 118u8, 111u8, 116u8, 101u8];
    assert(r@ =~= vote_key());
    r
}

/// The key of the log entry with this index (`log_{:020}`).
pub fn log_key(index: u64) -> (r: Vec<u8>)
    ensures
        r@ == log_key_of(index),
{
    let mut digits: Vec<u8> = Vec::new();
    let mut n = index;
    let mut k: usize = 0;
    let ghost mut rest: nat = index as nat;
    while k < 20
        invariant
            k <= 20,
            n == rest,
            digits@.len() == k,
            padded_digits(index as nat, 20) == padded_digits(rest, (20 - k) as nat) + digits@,
        decreases 20 - k,
    {
        let d = (n % 10) as u8;
        let ghost old_digits = digits@;
        digits.insert(0, 48 + d);
        proof {
            assert(padded_digits(rest, (20 - k) as nat) == padded_digits(rest / 10, (20 - k - 1) as nat).push((48 + rest % 10) as u8));
            assert(digits@ =~= seq![(48 + rest % 10) as u8] + old_digits);
            assert(padded_digits(rest / 10, (20 - k - 1) as nat).push((48 + rest % 10) as u8) + old_digits =~= padded_digits(
                rest / 10,
                (20 - k - 1) as nat,
            ) + digits@);
            rest = rest / 10;
        }
        n = n / 10;
        k = k + 1;
    }
    assert(k == 20);
    assert(padded_digits(rest, 0) =~= Seq::<u8>::empty());
    assert(padded_digits(index as nat, 20) =~= digits@) by {
        assert(padded_digits(rest, 0) + digits@ =~= digits@);
    }
    let mut key = vec![108u8, 111u8, 103u8, 95u8];
    assert(key@ =~= log_prefix());
    key.append(&mut digits);
    key
}

/// The writes that append log entries: each encoded entry under its key.
pub open spec fn append_writes(entries: Seq<(u64, Seq<u8>)>) -> Seq<WriteOp> {
    entries.map_values(|e: (u64, Seq<u8>)| WriteOp::Put(log_key_of(e.0), e.1))
}

/// The views of encoded log entries.
pub open spec fn entry_views(v: Seq<(u64, Vec<u8>)>) -> Seq<(u64, Seq<u8>)> {
    v.map_values(|e: (u64, Vec<u8>)| (e.0, e.1@))
}

/// Appends encoded log entries, each under the key of its index, in order.
pub fn append_log(db: &mut DiskClient, entries: &Vec<(u64, Vec<u8>)>)
    requires
        old(db).wf(),
        forall|i: int| 0 <= i < entries@.len() ==> entry_fits(log_key_of(#[trigger] entries@[i].0), Some(entries@[i].1@)),
    ensures
        final(db).wf(),
        writes_applied(*old(db), append_writes(entry_views(entries@)), *final(db)),
{
    let ghost all = append_writes(entry_views(entries@));
    let ghost s0 = *db;
    proof {
        lemma_applied_empty(s0);
        assert(all.take(0) =~= Seq::<WriteOp>::empty());
    }
    let mut i: usize = 0;
    while i < entries.len()
        invariant
            i <= entries@.len(),
            all == append_writes(entry_views(entries@)),
            s0 == *old(db),
            forall|j: int| 0 <= j < entries@.len() ==> entry_fits(log_key_of(#[trigger] entries@[j].0), Some(entries@[j].1@)),
            db.wf(),
            writes_applied(s0, all.take(i as int), *db),
        decreases entries.len() - i,
    {
        let key = log_key(entries[i].0);
        let ghost pre = *db;
        let _ = db.set(key, entries[i].1.clone());
        proof {
            reveal(write_step);
            assert(all[i as int] == WriteOp::Put(log_key_of(entries@[i as int].0), entries@[i as int].1@));
            lemma_applied_push(s0, all.take(i as int), pre, all[i as int], *db);
            assert(all.take(i as int).push(all[i as int]) =~= all.take(i + 1));
        }
        i = i + 1;
    }
    assert(all.take(i as int) =~= all);
}

/// Keeps the encoded vote under `raft_vote`.
pub fn save_vote(db: &mut DiskClient, vote: Vec<u8>) -> (r: Result<(), Error>)
    requires
        old(db).wf(),
        entry_fits(vote_key(), Some(vote@)),
    ensures
        r is Ok,
        DiskClient::set_spec(*old(db), *final(db), vote_key(), vote@),
{
    db.set(vote_key_bytes(), vote)
}

/// The encoded vote kept under `raft_vote`, if any.
pub fn read_vote(db: &DiskClient) -> (r: Result<Option<Vec<u8>>, Error>)
    requires
        db.wf(),
    ensures
        !db.index().contains_key(vote_key()) ==> r is Ok && r->Ok_0 is None,
        db.readable(vote_key()) ==> r is Ok && r->Ok_0 is Some && r->Ok_0->Some_0@ == db@[vote_key()],
        db.index().contains_key(vote_key()) && !db.readable(vote_key()) ==> r is Err && r->Err_0 is IoError,
{
    db.get(vote_key_bytes())
}

/// The values of the live keys that can be read, in key order (the
/// encoded log entries, when the store is the log).
pub fn stored_values(db: &DiskClient) -> (r: Vec<Vec<u8>>)
    requires
        db.wf(),
    ensures
        r@.map_values(|v: Vec<u8>| v@) == db.keys().filter(|k: Seq<u8>| db.readable(k)).map_values(|k: Seq<u8>| db@[k]),
{
    let items = db.scan(KeyBound::Unbounded, KeyBound::Unbounded);
    let ghost (lo, hi) = choose|lo: int, hi: int|
        items_match(db.log_bytes(), db.entries(), lo, hi, items@) && forall|j: int|
            0 <= j < db.entries().len() ==> ((lo <= j < hi) <==> (crate::storage::engine::above_lower(
                #[trigger] db.keys()[j],
                KeyBound::Unbounded,
            ) && crate::storage::engine::below_upper(db.keys()[j], KeyBound::Unbounded)));
    let ghost ks = db.keys();
    let ghost pred = |k: Seq<u8>| db.readable(k);
    let ghost f = |k: Seq<u8>| db@[k];
    proof {
        db.lemma_index();
        if db.entries().len() > 0 {
            let last = db.entries().len() - 1;
            assert(crate::storage::engine::above_lower(db.keys()[0], KeyBound::Unbounded));
            assert(crate::storage::engine::below_upper(db.keys()[0], KeyBound::Unbounded));
            assert(crate::storage::engine::above_lower(db.keys()[last], KeyBound::Unbounded));
            assert(crate::storage::engine::below_upper(db.keys()[last], KeyBound::Unbounded));
        }
        assert(lo == 0 && hi == db.entries().len());
        assert(ks.take(0).filter(pred) =~= Seq::<Seq<u8>>::empty()) by {
            reveal(Seq::filter);
        }
    }
    let mut out: Vec<Vec<u8>> = Vec::new();
    let mut i: usize = 0;
    while i < items.len()
        invariant
            i <= items@.len() == ks.len(),
            ks == db.keys(),
            db.wf(),
            lo == 0,
            items_match(db.log_bytes(), db.entries(), lo, hi, items@),
            pred == (|k: Seq<u8>| db.readable(k)),
            f == (|k: Seq<u8>| db@[k]),
            out@.map_values(|v: Vec<u8>| v@) == ks.take(i as int).filter(pred).map_values(f),
            forall|t: int| 0 <= t < db.entries().len() ==> db.index()[#[trigger] db.entries()[t].0] == db.entries()[t].1,
            forall|k: Seq<u8>| db.index().contains_key(k) <==> exists|t: int|
                0 <= t < db.entries().len() && #[trigger] db.entries()[t].0 == k,
        decreases items.len() - i,
    {
        assert(item_matches(db.log_bytes(), db.entries()[i as int], items@[i as int]));
        assert(ks[i as int] == db.entries()[i as int].0);
        assert(db.index().contains_key(ks[i as int]));
        let ghost before = out@;
        proof {
            assert(ks.take(i + 1) =~= ks.take(i as int).push(ks[i as int]));
            ks.take(i as int).lemma_filter_push(ks[i as int], pred);
        }
        match &items[i] {
            Ok((_, v)) => {
                out.push(v.clone());
                assert(out@.map_values(|v: Vec<u8>| v@) =~= before.map_values(|v: Vec<u8>| v@).push(db@[ks[i as int]]));
            },
            Err(_) => {},
        }
        i = i + 1;
    }
    assert(ks.take(i as int) =~= ks);
    out
}

/// The data store's key-value pairs in key order, for a snapshot; an
/// error when a value cannot be read.
pub fn snapshot_pairs(db: &DiskClient) -> (r: Result<Vec<(Vec<u8>, Vec<u8>)>, Error>)
    requires
        db.wf(),
    ensures
        db.all_readable() ==> r is Ok && pair_views(r->Ok_0@) == recorded_pairs(*db, db.keys()),
        !db.all_readable() ==> r is Err && r->Err_0 is IoError,
{
    let items = db.scan(KeyBound::Unbounded, KeyBound::Unbounded);
    let ghost (lo, hi) = choose|lo: int, hi: int|
        items_match(db.log_bytes(), db.entries(), lo, hi, items@) && forall|j: int|
            0 <= j < db.entries().len() ==> ((lo <= j < hi) <==> (crate::storage::engine::above_lower(
                #[trigger] db.keys()[j],
                KeyBound::Unbounded,
            ) && crate::storage::engine::below_upper(db.keys()[j], KeyBound::Unbounded)));
    let ghost ks = db.keys();
    proof {
        db.lemma_index();
        if db.entries().len() > 0 {
            let last = db.entries().len() - 1;
            assert(crate::storage::engine::above_lower(db.keys()[0], KeyBound::Unbounded));
            assert(crate::storage::engine::below_upper(db.keys()[0], KeyBound::Unbounded));
            assert(crate::storage::engine::above_lower(db.keys()[last], KeyBound::Unbounded));
            assert(crate::storage::engine::below_upper(db.keys()[last], KeyBound::Unbounded));
        }
        assert(lo == 0 && hi == db.entries().len());
    }
    let mut data: Vec<(Vec<u8>, Vec<u8>)> = Vec::new();
    let mut i: usize = 0;
    while i < items.len()
        invariant
            i <= items@.len() == ks.len(),
            ks == db.keys(),
            db.wf(),
            lo == 0,
            items_match(db.log_bytes(), db.entries(), lo, hi, items@),
            pair_views(data@) == recorded_pairs(*db, ks.take(i as int)),
            forall|t: int| 0 <= t < i ==> db.readable(#[trigger] ks[t]),
            forall|t: int| 0 <= t < db.entries().len() ==> db.index()[#[trigger] db.entries()[t].0] == db.entries()[t].1,
            forall|k: Seq<u8>| db.index().contains_key(k) <==> exists|t: int|
                0 <= t < db.entries().len() && #[trigger] db.entries()[t].0 == k,
        decreases items.len() - i,
    {
        assert(item_matches(db.log_bytes(), db.entries()[i as int], items@[i as int]));
        assert(ks[i as int] == db.entries()[i as int].0);
        assert(db.index().contains_key(ks[i as int]));
        match &items[i] {
            Ok((k, v)) => {
                let ghost before = data@;
                data.push((k.clone(), v.clone()));
                assert(ks.take(i + 1) =~= ks.take(i as int).push(ks[i as int]));
                assert(pair_views(data@) =~= pair_views(before).push((ks[i as int], db@[ks[i as int]])));
            },
            Err(_) => {
                assert(!db.readable(ks[i as int]));
                assert(!db.all_readable());
                return Err(eof_error());
            },
        }
        i = i + 1;
    }
    assert(ks.take(i as int) =~= ks);
    proof {
        assert forall|k: Seq<u8>| db.index().contains_key(k) implies #[trigger] db.readable(k) by {
            let t = choose|t: int| 0 <= t < db.entries().len() && #[trigger] db.entries()[t].0 == k;
            assert(ks[t] == k);
        }
    }
    Ok(data)
}

/// The digits of a number take exactly `k` bytes.
proof fn lemma_padded_len(n: nat, k: nat)
    ensures
        padded_digits(n, k).len() == k,
    decreases k,
{
    if k > 0 {
        lemma_padded_len(n / 10, (k - 1) as nat);
    }
}

/// Appending a byte to two strings of one length keeps their order.
proof fn lemma_lt_push(x: Seq<u8>, y: Seq<u8>, c: u8, d: u8, i: nat)
    requires
        x.len() == y.len(),
        bytes_lt_from(x, y, i),
    ensures
        bytes_lt_from(x.push(c), y.push(d), i),
    decreases x.len() - i,
{
    if i < x.len() && x[i as int] == y[i as int] {
        lemma_lt_push(x, y, c, d, i + 1);
    }
}

/// A common prefix does not change the order.
proof fn lemma_lt_common_prefix(p: Seq<u8>, x: Seq<u8>, y: Seq<u8>, i: nat)
    ensures
        bytes_lt_from(p + x, p + y, p.len() + i) == bytes_lt_from(x, y, i),
    decreases x.len() - i,
{
    if i < x.len() && i < y.len() && x[i as int] == y[i as int] {
        lemma_lt_common_prefix(p, x, y, i + 1);
    }
}

/// Smaller numbers have smaller digit strings.
proof fn lemma_padded_lt(a: nat, b: nat, k: nat)
    requires
        a < b < ten_pow(k),
    ensures
        bytes_lt(padded_digits(a, k), padded_digits(b, k)),
    decreases k,
{
    if k == 0 {
        assert(ten_pow(0) == 1);
    } else {
        let k1 = (k - 1) as nat;
        let pa = padded_digits(a / 10, k1);
        let pb = padded_digits(b / 10, k1);
        lemma_padded_len(a / 10, k1);
        lemma_padded_len(b / 10, k1);
        assert(padded_digits(a, k) == pa.push((48 + a % 10) as u8));
        assert(padded_digits(b, k) == pb.push((48 + b % 10) as u8));
        if a / 10 < b / 10 {
            assert(b / 10 < ten_pow(k1));
            lemma_padded_lt(a / 10, b / 10, k1);
            lemma_lt_push(pa, pb, (48 + a % 10) as u8, (48 + b % 10) as u8, 0);
        } else {
            assert(a / 10 == b / 10);
            assert(a % 10 < b % 10);
            assert(pa == pb);
            lemma_lt_first_difference(padded_digits(a, k), padded_digits(b, k), k1);
        }
    }
}

/// Log keys sort as their indices do, so reading the log in key order
/// reads it in index order.
pub proof fn law_log_keys_follow_indices(a: u64, b: u64)
    requires
        a < b,
    ensures
        bytes_lt(log_key_of(a), log_key_of(b)),
{
    reveal_with_fuel(ten_pow, 21);
    assert(ten_pow(20) == 100000000000000000000);
    lemma_padded_lt(a as nat, b as nat, 20);
    lemma_padded_len(a as nat, 20);
    lemma_padded_len(b as nat, 20);
    lemma_lt_common_prefix(log_prefix(), padded_digits(a as nat, 20), padded_digits(b as nat, 20), 0);
    lemma_lt_first_difference(log_key_of(a), log_key_of(b), 4);
}

} // verus!

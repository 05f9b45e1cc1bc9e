//! The store: an append-only log of entries and the index over it.
//!
//! Every write appends one entry to the log; the index says where the latest
//! value of each live key lies.  The log is held here as the bytes of the
//! data file; whoever owns the file appends what `log_bytes` gained.
use vstd::prelude::*;
use crate::error::{corrupt_entry_error, entry_too_large_error, eof_error, Error};
use crate::keyorder::{
    agree_on, bytes_le, bytes_lt, lemma_lt_first_difference, lemma_lt_strict_total, lemma_lt_trans,
    lemma_prefix_le,
};
use crate::storage::codec::{
    append_bytes, be32_decode, copy_range, encode_entry, encode_entry_bytes, entry_fits,
    apply_entry, lemma_parse_append, lemma_parse_exact_within, locs_within, log_parses_to, opt_bytes, parse_from, parse_log, ValueLoc,
    LOG_HEADER_SIZE, TOMBSTONE,
};
use crate::storage::keydir::{keys_of, lemma_map_of, KeyDir};

verus! {

/// The bytes that a location points at.
pub open spec fn value_at(log: Seq<u8>, loc: ValueLoc) -> Seq<u8> {
    log.subrange(loc.0 as int, loc.0 + loc.1)
}

/// The location lies inside the log.
pub open spec fn loc_in_log(log: Seq<u8>, loc: ValueLoc) -> bool {
    loc.0 + loc.1 <= log.len()
}

/// An entry with this key and a value of `size` bytes fits the format.
pub open spec fn size_fits(key: Seq<u8>, size: u32) -> bool {
    key.len() + LOG_HEADER_SIZE + size <= u32::MAX && size < 0x8000_0000
}

/// The data file of the store.
pub struct Log {
    data: Vec<u8>,
}

impl Log {
    /// The bytes of the file.
    pub closed spec fn bytes(&self) -> Seq<u8> {
        self.data@
    }

    /// A log over the bytes read from the data file.
    pub fn new(data: Vec<u8>) -> (r: Log)
        ensures
            r.bytes() == data@,
    {
        Log { data }
    }

    /// The bytes of the file.
    pub fn as_bytes(&self) -> (r: &Vec<u8>)
        ensures
            r@ == self.bytes(),
    {
        &self.data
    }

    /// Reads the header of the entry at `offset`: the key and the raw value
    /// length field.
    fn read_entry(&self, offset: u64) -> (r: Result<(Vec<u8>, u32), Error>)
        requires
            offset < self.bytes().len(),
        ensures
            match r {
                Ok((key, vs)) => {
                    &&& offset + LOG_HEADER_SIZE <= self.bytes().len()
                    &&& offset + LOG_HEADER_SIZE + crate::storage::codec::be32_at(
                        self.bytes(),
                        offset as int,
                    ) <= self.bytes().len()
                    &&& vs == crate::storage::codec::be32_at(self.bytes(), offset + 4int)
                    &&& key@ == self.bytes().subrange(
                        offset + LOG_HEADER_SIZE as int,
                        offset + LOG_HEADER_SIZE + crate::storage::codec::be32_at(
                            self.bytes(),
                            offset as int,
                        ),
                    )
                },
                Err(e) => {
                    ||| offset + LOG_HEADER_SIZE > self.bytes().len()
                    ||| offset + LOG_HEADER_SIZE + crate::storage::codec::be32_at(
                        self.bytes(),
                        offset as int,
                    ) > self.bytes().len()
                },
            },
    {
        let len = self.data.len();
        let off = offset as usize;
        if len - off < 8 {
            return Err(eof_error());
        }
        let key_size = be32_decode(self.data.as_slice(), off);
        let value_size = be32_decode(self.data.as_slice(), off + 4);
        if (key_size as usize) > len - off - 8 {
            return Err(eof_error());
        }
        let key = copy_range(self.data.as_slice(), off + 8, off + 8 + key_size as usize);
        Ok((key, value_size))
    }

    /// Builds the index by reading the log from its start.
    pub fn build_index(&self) -> (r: Result<KeyDir, Error>)
        ensures
            match parse_log(self.bytes()) {
                Some((m, _)) => r is Ok && r->Ok_0.wf() && r->Ok_0@ == m,
                None => r is Err,
            },
    {
        let mut key_dir = KeyDir::new();
        let len = self.data.len() as u64;
        let mut offset: u64 = 0;
        while offset < len
            invariant
                len == self.bytes().len(),
                key_dir.wf(),
                parse_log(self.bytes()) == parse_from(self.bytes(), offset as nat, key_dir@),
            decreases len - offset,
        {
            let (key, value_size) = match self.read_entry(offset) {
                Ok(x) => x,
                Err(e) => {
                    return Err(e);
                },
            };
            let key_size = key.len() as u64;
            let key_end = offset + LOG_HEADER_SIZE as u64 + key_size;
            if value_size == TOMBSTONE {
                key_dir.remove(key.as_slice());
                offset = key_end;
            } else if value_size >= 0x8000_0000 {
                return Err(corrupt_entry_error());
            } else {
                key_dir.insert(key, (key_end, value_size));
                if (value_size as u64) >= len - key_end {
                    proof {
                        assert(parse_from(self.bytes(), offset as nat, key_dir@) == parse_log(
                            self.bytes(),
                        ));
                    }
                    return Ok(key_dir);
                }
                offset = key_end + value_size as u64;
            }
        }
        Ok(key_dir)
    }

    /// Appends one entry; returns where it starts and its size.
    pub fn write_entry(&mut self, key: &Vec<u8>, value: Option<&Vec<u8>>) -> (r: Result<
        (u64, u32),
        Error,
    >)
        requires
            entry_fits(key@, opt_bytes(value)),
        ensures
            final(self).bytes() == old(self).bytes() + encode_entry(key@, opt_bytes(value)),
            r == Ok::<(u64, u32), Error>(
                (
                    old(self).bytes().len() as u64,
                    encode_entry(key@, opt_bytes(value)).len() as u32,
                ),
            ),
    {
        let offset = self.data.len() as u64;
        let entry = encode_entry_bytes(key, value);
        let total_size = entry.len() as u32;
        append_bytes(&mut self.data, entry.as_slice());
        Ok((offset, total_size))
    }

    /// Reads `size` bytes at `offset`.
    pub fn read_value(&self, offset: u64, size: u32) -> (r: Result<Vec<u8>, Error>)
        ensures
            loc_in_log(self.bytes(), (offset, size)) ==> r is Ok && r->Ok_0@ == value_at(
                self.bytes(),
                (offset, size),
            ),
            !loc_in_log(self.bytes(), (offset, size)) ==> r is Err && r->Err_0 is IoError,
    {
        let len = self.data.len() as u64;
        if offset > len || (size as u64) > len - offset {
            return Err(eof_error());
        }
        Ok(copy_range(self.data.as_slice(), offset as usize, (offset + size as u64) as usize))
    }
}

/// Bounds of a key range, as in `std::ops::Bound`.
pub enum KeyBound {
    Included(Vec<u8>),
    Excluded(Vec<u8>),
    Unbounded,
}

/// `k` is on the right side of a lower bound.
pub open spec fn above_lower(k: Seq<u8>, b: KeyBound) -> bool {
    match b {
        KeyBound::Included(s) => bytes_le(s@, k),
        KeyBound::Excluded(s) => bytes_lt(s@, k),
        KeyBound::Unbounded => true,
    }
}

/// `k` is on the right side of an upper bound.
pub open spec fn below_upper(k: Seq<u8>, b: KeyBound) -> bool {
    match b {
        KeyBound::Included(e) => bytes_le(k, e@),
        KeyBound::Excluded(e) => bytes_lt(k, e@),
        KeyBound::Unbounded => true,
    }
}

/// A range that an ordered map accepts: the start not above the end, and
/// not both excluded when they are equal.
pub open spec fn range_ok(start: KeyBound, end: KeyBound) -> bool {
    match (start, end) {
        (KeyBound::Included(s), KeyBound::Included(e)) => bytes_le(s@, e@),
        (KeyBound::Included(s), KeyBound::Excluded(e)) => bytes_le(s@, e@),
        (KeyBound::Excluded(s), KeyBound::Included(e)) => bytes_le(s@, e@),
        (KeyBound::Excluded(s), KeyBound::Excluded(e)) => bytes_lt(s@, e@),
        _ => true,
    }
}

/// The item a scan yields for one index entry: the key and its value, or
/// an error when the value lies beyond the end of the log.
pub open spec fn item_matches(
    log: Seq<u8>,
    entry: (Seq<u8>, ValueLoc),
    item: Result<(Vec<u8>, Vec<u8>), Error>,
) -> bool {
    if loc_in_log(log, entry.1) {
        item is Ok && item->Ok_0.0@ == entry.0 && item->Ok_0.1@ == value_at(log, entry.1)
    } else {
        item is Err && item->Err_0 is IoError
    }
}

/// The items are those of the index entries at positions `[lo, hi)`.
pub open spec fn items_match(
    log: Seq<u8>,
    entries: Seq<(Seq<u8>, ValueLoc)>,
    lo: int,
    hi: int,
    items: Seq<Result<(Vec<u8>, Vec<u8>), Error>>,
) -> bool {
    &&& 0 <= lo <= hi <= entries.len()
    &&& items.len() == hi - lo
    &&& forall|i: int| 0 <= i < items.len() ==> item_matches(log, entries[lo + i], #[trigger] items[i])
}

/// The bound that ends the keys starting with `p`: `p` up to position
/// `pos`, that byte increased by one.
pub open spec fn prefix_bound(p: Seq<u8>, pos: int) -> Seq<u8> {
    p.subrange(0, pos).push((p[pos] + 1) as u8)
}

/// The first position where two strings differ, if they differ before `m`.
proof fn lemma_first_diff(a: Seq<u8>, b: Seq<u8>, i: int, m: int)
    requires
        0 <= i <= m <= a.len(),
        m <= b.len(),
        agree_on(a, b, 0, i),
        !agree_on(a, b, 0, m),
    ensures
        exists|d: int| i <= d < m && a[d] != b[d] && agree_on(a, b, 0, d),
    decreases m - i,
{
    if a[i] != b[i] {
        assert(i <= i < m && a[i] != b[i] && agree_on(a, b, 0, i));
    } else {
        assert(agree_on(a, b, 0, i + 1));
        lemma_first_diff(a, b, i + 1, m);
    }
}

/// The bound lies above the prefix.
pub proof fn lemma_prefix_bound_lt(p: Seq<u8>, pos: int)
    requires
        0 <= pos < p.len(),
        p[pos] != 255u8,
    ensures
        bytes_lt(p, prefix_bound(p, pos)),
        bytes_le(p, prefix_bound(p, pos)),
{
    let b = prefix_bound(p, pos);
    assert(agree_on(p, b, 0, pos));
    lemma_lt_first_difference(p, b, pos as nat);
}

/// The keys from `p` (included) up to its bound (excluded) are exactly the
/// keys that start with `p`.
pub proof fn lemma_prefix_bound(p: Seq<u8>, pos: int, k: Seq<u8>)
    requires
        0 <= pos < p.len(),
        p[pos] != 255u8,
        forall|j: int| pos < j < p.len() ==> p[j] == 255u8,
    ensures
        (bytes_le(p, k) && bytes_lt(k, prefix_bound(p, pos))) <==> p.is_prefix_of(k),
{
    let b = prefix_bound(p, pos);
    if p.is_prefix_of(k) {
        lemma_prefix_le(p, k);
        assert(agree_on(k, b, 0, pos));
        lemma_lt_first_difference(k, b, pos as nat);
    } else if bytes_le(p, k) && bytes_lt(k, b) {
        let m = if p.len() < k.len() { p.len() as int } else { k.len() as int };
        if agree_on(p, k, 0, m) {
            if k.len() < p.len() {
                assert(k.is_prefix_of(p));
                lemma_prefix_le(k, p);
                lemma_lt_strict_total(p, k);
            } else {
                assert(p.is_prefix_of(k));
            }
        } else {
            lemma_first_diff(p, k, 0, m);
            let d = choose|d: int| 0 <= d < m && p[d] != k[d] && agree_on(p, k, 0, d);
            lemma_lt_first_difference(p, k, d as nat);
            lemma_lt_first_difference(k, p, d as nat);
            lemma_lt_strict_total(p, k);
            assert(p[d] < k[d]);
            if d < pos {
                assert(agree_on(b, k, 0, d));
                lemma_lt_first_difference(b, k, d as nat);
                lemma_lt_strict_total(b, k);
            } else if d == pos {
                assert(agree_on(b, k, 0, pos));
                if k[pos] > b[pos] {
                    lemma_lt_first_difference(b, k, pos as nat);
                    lemma_lt_strict_total(b, k);
                } else {
                    assert(b.is_prefix_of(k));
                    lemma_prefix_le(b, k);
                }
            } else {
                assert(p[d] == 255u8);
            }
        }
    }
}

/// When every byte of `p` is 255, the keys from `p` on are exactly the keys
/// that start with `p`.
pub proof fn lemma_prefix_all_max(p: Seq<u8>, k: Seq<u8>)
    requires
        forall|j: int| 0 <= j < p.len() ==> p[j] == 255u8,
    ensures
        bytes_le(p, k) <==> p.is_prefix_of(k),
{
    if p.is_prefix_of(k) {
        lemma_prefix_le(p, k);
    } else if bytes_le(p, k) {
        let m = if p.len() < k.len() { p.len() as int } else { k.len() as int };
        if agree_on(p, k, 0, m) {
            if k.len() < p.len() {
                assert(k.is_prefix_of(p));
                lemma_prefix_le(k, p);
                lemma_lt_strict_total(p, k);
            } else {
                assert(p.is_prefix_of(k));
            }
        } else {
            lemma_first_diff(p, k, 0, m);
            let d = choose|d: int| 0 <= d < m && p[d] != k[d] && agree_on(p, k, 0, d);
            lemma_lt_first_difference(p, k, d as nat);
            lemma_lt_strict_total(p, k);
            assert(p[d] == 255u8);
        }
    }
}

/// A log holding, for each key of `ks` in turn, one entry that writes
/// the key's value in `m`.
pub open spec fn log_of_entries(ks: Seq<Seq<u8>>, m: Map<Seq<u8>, Seq<u8>>) -> Seq<u8>
    decreases ks.len(),
{
    if ks.len() == 0 {
        Seq::empty()
    } else {
        log_of_entries(ks.drop_last(), m) + encode_entry(ks.last(), Some(m[ks.last()]))
    }
}

/// One more key adds its entry at the end of the log.
proof fn lemma_log_of_entries_step(ks: Seq<Seq<u8>>, m: Map<Seq<u8>, Seq<u8>>, i: int)
    requires
        0 <= i < ks.len(),
    ensures
        log_of_entries(ks.take(i + 1), m) == log_of_entries(ks.take(i), m) + encode_entry(ks[i], Some(m[ks[i]])),
{
    assert(ks.take(i + 1).drop_last() =~= ks.take(i));
}

/// The store.
pub struct DiskClient {
    keydir: KeyDir,
    log: Log,
    recoverable: Ghost<bool>,
}

impl DiskClient {
    /// The bytes of the data file.
    pub closed spec fn log_bytes(&self) -> Seq<u8> {
        self.log.bytes()
    }

    /// The index: key to value location.
    pub closed spec fn index(&self) -> Map<Seq<u8>, ValueLoc> {
        self.keydir@
    }

    /// The index entries in ascending key order.
    pub closed spec fn entries(&self) -> Seq<(Seq<u8>, ValueLoc)> {
        self.keydir.entries()
    }

    /// The live keys in ascending order.
    pub open spec fn keys(&self) -> Seq<Seq<u8>> {
        keys_of(self.entries())
    }

    /// Reading the data file from the start rebuilds exactly this index.
    pub closed spec fn recoverable(&self) -> bool {
        self.recoverable@
    }

    pub closed spec fn wf(&self) -> bool {
        &&& self.keydir.wf()
        &&& self.recoverable@ ==> log_parses_to(self.log.bytes(), self.keydir@)
        &&& self.recoverable@ ==> locs_within(self.keydir@, self.log.bytes().len())
    }

    /// Every live value lies inside the log.
    pub open spec fn all_readable(&self) -> bool {
        forall|k: Seq<u8>| self.index().contains_key(k) ==> #[trigger] self.readable(k)
    }

    /// `k` is live and its value lies inside the log.
    pub open spec fn readable(&self, k: Seq<u8>) -> bool {
        self.index().contains_key(k) && loc_in_log(self.log_bytes(), self.index()[k])
    }

    /// Facts about the index that follow from well-formedness.
    pub proof fn lemma_index(&self)
        requires
            self.wf(),
        ensures
            self.index().dom().finite(),
            self.index().dom().len() == self.entries().len(),
            forall|i: int, j: int|
                0 <= i < j < self.entries().len() ==> bytes_lt(
                    #[trigger] self.keys()[i],
                    #[trigger] self.keys()[j],
                ),
            forall|k: Seq<u8>|
                self.index().contains_key(k) <==> exists|i: int|
                    0 <= i < self.entries().len() && #[trigger] self.entries()[i].0 == k,
            forall|i: int|
                0 <= i < self.entries().len() ==> self.index()[#[trigger] self.entries()[i].0]
                    == self.entries()[i].1,
    {
        self.keydir.lemma_view();
    }

    /// Every live entry can be written again: its size fits the format.
    pub open spec fn compactable(&self) -> bool {
        forall|i: int|
            0 <= i < self.entries().len() ==> #[trigger] size_fits(self.entries()[i].0, self.entries()[i].1.1)
    }

    /// Tells whether `new_compact` may be called: every live entry fits the
    /// format when written again.
    pub fn can_compact(&self) -> (r: bool)
        ensures
            r == self.compactable(),
    {
        let n = self.keydir.len();
        let mut i: usize = 0;
        while i < n
            invariant
                n == self.entries().len(),
                i <= n,
                forall|j: int|
                    0 <= j < i ==> #[trigger] size_fits(self.entries()[j].0, self.entries()[j].1.1),
            decreases n - i,
        {
            let k = self.keydir.key_at(i);
            let (_, size) = self.keydir.loc_at(i);
            if size >= 0x8000_0000 || (k.len() as u64) > 0xffff_ffff - 8 - (size as u64) {
                assert(!size_fits(self.entries()[i as int].0, self.entries()[i as int].1.1));
                return false;
            }
            i = i + 1;
        }
        true
    }

    /// The bytes of the data file.
    pub fn log_data(&self) -> (r: &Vec<u8>)
        ensures
            r@ == self.log_bytes(),
    {
        self.log.as_bytes()
    }

    /// Opens a store over the bytes of its data file, rebuilding the index.
    pub fn new(data: Vec<u8>) -> (r: Result<DiskClient, Error>)
        ensures
            match parse_log(data@) {
                Some((m, exact)) => r is Ok && r->Ok_0.wf() && r->Ok_0.index() == m
                    && r->Ok_0.log_bytes() == data@ && r->Ok_0.recoverable() == exact
                    && (exact ==> r->Ok_0.all_readable()),
                None => r is Err,
            },
    {
        let log = Log::new(data);
        let keydir = match log.build_index() {
            Ok(k) => k,
            Err(e) => {
                return Err(e);
            },
        };
        let ghost exact = parse_log(log.bytes())->Some_0.1;
        proof {
            if exact {
                lemma_parse_exact_within(log.bytes(), 0, Map::empty(), keydir@);
            }
        }
        Ok(DiskClient { keydir, log, recoverable: Ghost(exact) })
    }

    /// The location a value written now would get.
    pub open spec fn next_loc(&self, key: Seq<u8>, value: Seq<u8>) -> ValueLoc {
        ((self.log_bytes().len() + LOG_HEADER_SIZE + key.len()) as u64, value.len() as u32)
    }

    /// What `set(key, value)` makes of `before`.
    pub open spec fn set_spec(before: DiskClient, after: DiskClient, key: Seq<u8>, value: Seq<u8>) -> bool {
        &&& after.wf()
        &&& after.log_bytes() == before.log_bytes() + encode_entry(key, Some(value))
        &&& after.index() == before.index().insert(key, before.next_loc(key, value))
        &&& after.recoverable() == before.recoverable()
        &&& after.readable(key) && after@[key] == value
        &&& forall|k: Seq<u8>| k != key && #[trigger] before.readable(k) ==> after.readable(k) && after@[k] == before@[k]
        &&& before.all_readable() ==> after.all_readable() && after@ == before@.insert(key, value)
    }

    /// What `delete(key)` makes of `before`.
    pub open spec fn delete_spec(before: DiskClient, after: DiskClient, key: Seq<u8>) -> bool {
        &&& after.wf()
        &&& after.log_bytes() == before.log_bytes() + encode_entry(key, None)
        &&& after.index() == before.index().remove(key)
        &&& after.recoverable() == before.recoverable()
        &&& !after.index().contains_key(key)
        &&& forall|k: Seq<u8>| k != key && #[trigger] before.readable(k) ==> after.readable(k) && after@[k] == before@[k]
        &&& before.all_readable() ==> after.all_readable() && after@ == before@.remove(key)
    }

    /// Writes `value` under `key`: appends an entry and points the index
    /// at its value.
    pub fn set(&mut self, key: Vec<u8>, value: Vec<u8>) -> (r: Result<(), Error>)
        requires
            old(self).wf(),
            entry_fits(key@, Some(value@)),
        ensures
            r is Ok,
            DiskClient::set_spec(*old(self), *final(self), key@, value@),
    {
        let ghost before = *self;
        let ghost k = key@;
        proof {
            assert(opt_bytes(Some(&value)) == Some(value@));
        }
        match self.log.write_entry(&key, Some(&value)) {
            Ok(_) => {},
            Err(e) => {
                return Err(e);
            },
        }
        let value_size = value.len() as u32;
        let end = self.log.as_bytes().len() as u64;
        let loc = (end - value_size as u64, value_size);
        assert(loc == before.next_loc(k, value@));
        self.keydir.insert(key, loc);
        proof {
            if before.recoverable@ {
                lemma_parse_append(before.log.bytes(), before.keydir@, k, Some(value@));
            }
            let nb = self.log_bytes();
            assert forall|kk: Seq<u8>| kk != k && #[trigger] before.readable(kk) implies self.readable(kk) && self@[kk] == before@[kk] by {
                assert(value_at(nb, before.index()[kk]) =~= value_at(before.log_bytes(), before.index()[kk]));
            }
            assert(value_at(nb, loc) =~= value@);
            if before.all_readable() {
                assert forall|kk: Seq<u8>| #[trigger] self.readable(kk) <==> before@.insert(k, value@).contains_key(kk) by {}
                assert forall|kk: Seq<u8>| self.readable(kk) implies #[trigger] value_at(nb, self.index()[kk]) == before@.insert(k, value@)[kk] by {
                    if kk != k {
                        assert(value_at(nb, before.index()[kk]) =~= value_at(before.log_bytes(), before.index()[kk]));
                    }
                }
                assert(self@ =~= before@.insert(k, value@));
            }
            if before.recoverable@ {
                assert(locs_within(self.keydir@, nb.len()));
            }
        }
        Ok(())
    }

    /// Deletes `key`: appends a deletion entry and drops the key from the
    /// index.  Deleting an absent key still writes the entry.
    pub fn delete(&mut self, key: Vec<u8>) -> (r: Result<(), Error>)
        requires
            old(self).wf(),
            entry_fits(key@, None),
        ensures
            r is Ok,
            DiskClient::delete_spec(*old(self), *final(self), key@),
    {
        let ghost before = *self;
        let ghost k = key@;
        match self.log.write_entry(&key, None) {
            Ok(_) => {},
            Err(e) => {
                return Err(e);
            },
        }
        self.keydir.remove(key.as_slice());
        proof {
            if before.recoverable@ {
                lemma_parse_append(before.log.bytes(), before.keydir@, k, None);
            }
            let nb = self.log_bytes();
            assert forall|kk: Seq<u8>| kk != k && #[trigger] before.readable(kk) implies self.readable(kk) && self@[kk] == before@[kk] by {
                assert(value_at(nb, before.index()[kk]) =~= value_at(before.log_bytes(), before.index()[kk]));
            }
            if before.all_readable() {
                assert forall|kk: Seq<u8>| #[trigger] self.readable(kk) <==> before@.remove(k).contains_key(kk) by {}
                assert forall|kk: Seq<u8>| self.readable(kk) implies #[trigger] value_at(nb, self.index()[kk]) == before@.remove(k)[kk] by {
                    assert(value_at(nb, before.index()[kk]) =~= value_at(before.log_bytes(), before.index()[kk]));
                }
                assert(self@ =~= before@.remove(k));
            }
            if before.recoverable@ {
                assert(locs_within(self.keydir@, nb.len()));
            }
        }
        Ok(())
    }

    /// Reads the value of `key`: `None` when the key is not live, an error
    /// when its value lies beyond the end of the log.
    pub fn get(&self, key: Vec<u8>) -> (r: Result<Option<Vec<u8>>, Error>)
        requires
            self.wf(),
        ensures
            !self.index().contains_key(key@) ==> r is Ok && r->Ok_0 is None,
            self.readable(key@) ==> r is Ok && r->Ok_0 is Some && r->Ok_0->Some_0@ == self@[key@],
            self.index().contains_key(key@) && !self.readable(key@) ==> r is Err && r->Err_0 is IoError,
    {
        match self.keydir.get(key.as_slice()) {
            Some((offset, val_size)) => {
                match self.log.read_value(offset, val_size) {
                    Ok(val) => Ok(Some(val)),
                    Err(e) => Err(e),
                }
            },
            None => Ok(None),
        }
    }

    /// The item a scan yields for the `i`-th entry.
    fn item_at(&self, i: usize) -> (r: Result<(Vec<u8>, Vec<u8>), Error>)
        requires
            i < self.entries().len(),
        ensures
            item_matches(self.log_bytes(), self.entries()[i as int], r),
    {
        let (offset, value_size) = self.keydir.loc_at(i);
        match self.log.read_value(offset, value_size) {
            Ok(value) => {
                let key = self.keydir.key_at(i).clone();
                assert(key@ =~= self.entries()[i as int].0);
                Ok((key, value))
            },
            Err(e) => Err(e),
        }
    }

    /// Collects the items of the entries at positions `[lo, hi)`.
    fn items_between(&self, lo: usize, hi: usize) -> (r: Vec<Result<(Vec<u8>, Vec<u8>), Error>>)
        requires
            lo <= hi <= self.entries().len(),
        ensures
            items_match(self.log_bytes(), self.entries(), lo as int, hi as int, r@),
    {
        let mut out: Vec<Result<(Vec<u8>, Vec<u8>), Error>> = Vec::new();
        let mut i = lo;
        while i < hi
            invariant
                lo <= i <= hi <= self.entries().len(),
                out@.len() == i - lo,
                forall|t: int| 0 <= t < out@.len() ==> item_matches(self.log_bytes(), self.entries()[lo + t], #[trigger] out@[t]),
            decreases hi - i,
        {
            let item = self.item_at(i);
            out.push(item);
            i = i + 1;
        }
        out
    }

    /// The entries whose keys lie in the range, in ascending key order,
    /// each with its value (or an error when the value lies beyond the end
    /// of the log).
    pub fn scan(&self, start: KeyBound, end: KeyBound) -> (r: Vec<Result<(Vec<u8>, Vec<u8>), Error>>)
        requires
            self.wf(),
            range_ok(start, end),
        ensures
            exists|lo: int, hi: int|
                items_match(self.log_bytes(), self.entries(), lo, hi, r@) && forall|j: int|
                    0 <= j < self.entries().len() ==> ((lo <= j < hi) <==> (above_lower(
                        #[trigger] self.keys()[j],
                        start,
                    ) && below_upper(self.keys()[j], end))),
    {
        let n = self.keydir.len();
        let lo = match &start {
            KeyBound::Included(s) => self.keydir.lower_bound(s.as_slice()),
            KeyBound::Excluded(s) => self.keydir.upper_bound(s.as_slice()),
            KeyBound::Unbounded => 0,
        };
        let mut hi = match &end {
            KeyBound::Included(e) => self.keydir.upper_bound(e.as_slice()),
            KeyBound::Excluded(e) => self.keydir.lower_bound(e.as_slice()),
            KeyBound::Unbounded => n,
        };
        proof {
            assert forall|j: int| 0 <= j < n implies (lo <= j <==> above_lower(#[trigger] self.keys()[j], start)) by {
                lemma_lt_strict_total(self.keys()[j], self.keys()[j]);
                match start {
                    KeyBound::Included(s) => {
                        lemma_lt_strict_total(self.keys()[j], s@);
                    },
                    KeyBound::Excluded(s) => {
                        lemma_lt_strict_total(self.keys()[j], s@);
                    },
                    KeyBound::Unbounded => {},
                }
            }
            assert forall|j: int| 0 <= j < n implies (j < hi <==> below_upper(#[trigger] self.keys()[j], end)) by {
                match end {
                    KeyBound::Included(e) => {
                        lemma_lt_strict_total(self.keys()[j], e@);
                    },
                    KeyBound::Excluded(e) => {
                        lemma_lt_strict_total(self.keys()[j], e@);
                    },
                    KeyBound::Unbounded => {},
                }
            }
        }
        if hi < lo {
            hi = lo;
        }
        self.items_between(lo, hi)
    }

    /// The entries whose keys start with `prefix`, in ascending key order.
    pub fn scan_prefix(&self, prefix: Vec<u8>) -> (r: Vec<Result<(Vec<u8>, Vec<u8>), Error>>)
        requires
            self.wf(),
        ensures
            exists|lo: int, hi: int|
                items_match(self.log_bytes(), self.entries(), lo, hi, r@) && forall|j: int|
                    0 <= j < self.entries().len() ==> ((lo <= j < hi) <==> prefix@.is_prefix_of(
                        #[trigger] self.keys()[j],
                    )),
    {
        let n = prefix.len();
        let mut pos = n;
        while pos > 0
            invariant
                pos <= n == prefix@.len(),
                forall|j: int| pos <= j < n ==> prefix@[j] == 255u8,
            ensures
                pos <= n,
                forall|j: int| pos <= j < n ==> prefix@[j] == 255u8,
                pos > 0 ==> prefix@[pos - 1] != 255u8,
            decreases pos,
        {
            if prefix[pos - 1] != 255 {
                break;
            }
            pos = pos - 1;
        }
        let ghost p = prefix@;
        let prefix_copy = prefix.clone();
        assert(prefix_copy@ =~= p);
        let start = KeyBound::Included(prefix_copy);
        let end = if pos == 0 {
            KeyBound::Unbounded
        } else {
            let mut bound = copy_range(prefix.as_slice(), 0, pos - 1);
            bound.push(prefix[pos - 1] + 1);
            proof {
                lemma_prefix_bound_lt(p, (pos - 1) as int);
                assert(bound@ =~= prefix_bound(p, (pos - 1) as int));
            }
            KeyBound::Excluded(bound)
        };
        proof {
            assert forall|j: int| 0 <= j < self.entries().len() implies (above_lower(#[trigger] self.keys()[j], start)
                && below_upper(self.keys()[j], end)) == p.is_prefix_of(self.keys()[j]) by {
                if pos == 0 {
                    lemma_prefix_all_max(p, self.keys()[j]);
                } else {
                    lemma_prefix_bound(p, (pos - 1) as int, self.keys()[j]);
                }
            }
        }
        self.scan(start, end)
    }

    /// Number of live keys.
    pub fn count(&self) -> (r: Result<usize, Error>)
        requires
            self.wf(),
        ensures
            r is Ok && r->Ok_0 == self.index().len(),
    {
        proof {
            self.lemma_index();
        }
        Ok(self.keydir.len())
    }

    /// Up to `limit` entries, skipping the first `offset` in key order, each
    /// with its value.  Empty when `offset` is past the last entry; an error
    /// when one of the values lies beyond the end of the log.
    pub fn page(&self, limit: usize, offset: usize) -> (r: Result<Vec<(Vec<u8>, Vec<u8>)>, Error>)
        requires
            self.wf(),
        ensures
            ({
                let n = self.entries().len();
                let hi = if offset + limit < n { offset + limit } else { n as int };
                &&& r is Err ==> r->Err_0 is IoError
                &&& offset >= n ==> r is Ok && r->Ok_0@.len() == 0
                &&& offset < n ==> (r is Ok <==> forall|j: int|
                    offset <= j < hi ==> loc_in_log(self.log_bytes(), #[trigger] self.entries()[j].1))
                &&& offset < n && r is Ok ==> {
                    &&& r->Ok_0@.len() == hi - offset
                    &&& forall|i: int| 0 <= i < hi - offset ==> {
                        &&& (#[trigger] r->Ok_0@[i]).0@ == self.keys()[offset + i]
                        &&& r->Ok_0@[i].1@ == value_at(self.log_bytes(), self.entries()[offset + i].1)
                    }
                }
            }),
    {
        let mut data: Vec<(Vec<u8>, Vec<u8>)> = Vec::new();
        let n = self.keydir.len();
        if offset >= n {
            return Ok(data);
        }
        let hi = if limit < n - offset { offset + limit } else { n };
        let mut i = offset;
        while i < hi
            invariant
                offset <= i <= hi <= n,
                n == self.entries().len(),
                hi == (if offset + limit < n { offset + limit } else { n as int }),
                data@.len() == i - offset,
                forall|j: int| offset <= j < i ==> loc_in_log(self.log_bytes(), #[trigger] self.entries()[j].1),
                forall|t: int| 0 <= t < i - offset ==> {
                    &&& (#[trigger] data@[t]).0@ == self.keys()[offset + t]
                    &&& data@[t].1@ == value_at(self.log_bytes(), self.entries()[offset + t].1)
                },
            decreases hi - i,
        {
            match self.item_at(i) {
                Ok(kv) => {
                    data.push(kv);
                },
                Err(e) => {
                    return Err(e);
                },
            }
            i = i + 1;
        }
        Ok(data)
    }

    /// All live keys, in ascending order.
    pub fn get_keys(&self) -> (r: Result<Vec<Vec<u8>>, Error>)
        ensures
            r is Ok,
            r->Ok_0@.len() == self.keys().len(),
            forall|i: int| 0 <= i < self.keys().len() ==> (#[trigger] r->Ok_0@[i])@ == self.keys()[i],
    {
        let n = self.keydir.len();
        let mut keys: Vec<Vec<u8>> = Vec::new();
        let mut i: usize = 0;
        while i < n
            invariant
                n == self.entries().len(),
                i <= n,
                keys@.len() == i,
                forall|t: int| 0 <= t < i ==> (#[trigger] keys@[t])@ == self.keys()[t],
            decreases n - i,
        {
            let k = self.keydir.key_at(i).clone();
            assert(k@ =~= self.keys()[i as int]);
            keys.push(k);
            i = i + 1;
        }
        Ok(keys)
    }

    /// Opens a store and rewrites its log to hold only the live entries:
    /// the store keeps the keys of the data file and the value each of
    /// them was last given.  Fails when the data file does not read, when
    /// a live entry would not fit the format again, or when a live value
    /// lies beyond the end of the file.
    pub fn compact(data: Vec<u8>) -> (r: Result<DiskClient, Error>)
        ensures
            match parse_log(data@) {
                None => r is Err,
                Some((m, _)) => {
                    &&& (r is Ok <==> (forall|k: Seq<u8>| #[trigger] m.contains_key(k) ==> size_fits(k, m[k].1)
                        && loc_in_log(data@, m[k])))
                    &&& r is Ok ==> {
                        &&& r->Ok_0.wf()
                        &&& r->Ok_0.recoverable()
                        &&& r->Ok_0.all_readable()
                        &&& r->Ok_0.index().dom() == m.dom()
                        &&& forall|k: Seq<u8>| #[trigger] m.contains_key(k) ==> r->Ok_0@[k] == value_at(data@, m[k])
                    }
                },
            },
    {
        let ghost bytes = data@;
        let mut eng = match DiskClient::new(data) {
            Ok(e) => e,
            Err(e) => {
                return Err(e);
            },
        };
        let ghost m = eng.index();
        proof {
            eng.lemma_index();
            assert forall|k: Seq<u8>| #[trigger] m.contains_key(k) && eng.compactable() implies size_fits(k, m[k].1) by {
                let i = choose|i: int| 0 <= i < eng.entries().len() && #[trigger] eng.entries()[i].0 == k;
                assert(size_fits(eng.entries()[i].0, eng.entries()[i].1.1));
            }
            assert((forall|k: Seq<u8>| #[trigger] m.contains_key(k) ==> size_fits(k, m[k].1)) ==> eng.compactable()) by {
                if forall|k: Seq<u8>| #[trigger] m.contains_key(k) ==> size_fits(k, m[k].1) {
                    assert forall|i: int| 0 <= i < eng.entries().len() implies #[trigger] size_fits(
                        eng.entries()[i].0,
                        eng.entries()[i].1.1,
                    ) by {
                        assert(m.contains_key(eng.entries()[i].0));
                    }
                }
            }
        }
        if !eng.can_compact() {
            return Err(entry_too_large_error());
        }
        let ghost before = eng;
        match eng.new_compact() {
            Ok(()) => {
                assert forall|k: Seq<u8>| #[trigger] m.contains_key(k) implies eng@[k] == value_at(bytes, m[k]) by {
                    assert(before.readable(k));
                    assert(before@.contains_key(k));
                }
                Ok(eng)
            },
            Err(e) => Err(e),
        }
    }

    /// Rewrites the log so that it holds exactly one entry per live key,
    /// in key order, with the key's value, and points the index at the new
    /// log.  Fails, changing nothing,
    /// when a live value lies beyond the end of the log.
    #[verifier::rlimit(40)]
    pub fn new_compact(&mut self) -> (r: Result<(), Error>)
        requires
            old(self).wf(),
            old(self).compactable(),
        ensures
            final(self).wf(),
            r is Ok <==> forall|k: Seq<u8>|
                old(self).index().contains_key(k) ==> #[trigger] old(self).readable(k),
            r is Err ==> *final(self) == *old(self),
            r is Ok ==> {
                &&& final(self).recoverable()
                &&& final(self).log_bytes() == log_of_entries(old(self).keys(), old(self)@)
                &&& final(self).keys() == old(self).keys()
                &&& final(self)@ == old(self)@
                &&& final(self).index().dom() == old(self).index().dom()
                &&& forall|k: Seq<u8>| final(self).index().contains_key(k) ==> #[trigger] final(self).readable(k)
            },
    {
        let n = self.keydir.len();
        let mut new_log = Log::new(Vec::new());
        let mut new_key_dir = KeyDir::new();
        let mut i: usize = 0;
        proof {
            self.lemma_index();
            assert(log_parses_to(Seq::<u8>::empty(), Map::empty()));
            assert(log_of_entries(self.keys().take(0), self@) =~= Seq::<u8>::empty());
        }
        while i < n
            invariant
                self.wf(),
                n == self.entries().len(),
                i <= n,
                new_key_dir.wf(),
                new_key_dir.entries().len() == i,
                forall|j: int| 0 <= j < i ==> (#[trigger] new_key_dir.entries()[j]).0 == self.keys()[j],
                forall|j: int| 0 <= j < i ==> loc_in_log(new_log.bytes(), #[trigger] new_key_dir.entries()[j].1),
                forall|j: int| 0 <= j < i ==> value_at(new_log.bytes(), #[trigger] new_key_dir.entries()[j].1)
                    == value_at(self.log_bytes(), self.entries()[j].1),
                forall|j: int| 0 <= j < i ==> loc_in_log(self.log_bytes(), #[trigger] self.entries()[j].1),
                log_parses_to(new_log.bytes(), new_key_dir@),
                new_log.bytes() == log_of_entries(self.keys().take(i as int), self@),
                forall|j: int| 0 <= j < n ==> self.index().contains_key(#[trigger] self.entries()[j].0),
                forall|j: int| 0 <= j < n ==> self.index()[#[trigger] self.entries()[j].0] == self.entries()[j].1,
                self.compactable(),
                forall|a: int, b: int| 0 <= a < b < n ==> bytes_lt(#[trigger] self.keys()[a], #[trigger] self.keys()[b]),
            decreases n - i,
        {
            let key = self.keydir.key_at(i);
            let (offset, value_size) = self.keydir.loc_at(i);
            let value = match self.log.read_value(offset, value_size) {
                Ok(v) => v,
                Err(e) => {
                    proof {
                        self.lemma_index();
                        assert(self.index()[self.entries()[i as int].0] == self.entries()[i as int].1);
                        assert(!self.readable(self.entries()[i as int].0));
                    }
                    return Err(e);
                },
            };
            let ghost before = new_log.bytes();
            let ghost before_map = new_key_dir@;
            let ghost before_entries = new_key_dir.entries();
            let ghost k = key@;
            proof {
                assert(value@ == self@[k]) by {
                    assert(self.readable(k));
                }
                lemma_log_of_entries_step(self.keys(), self@, i as int);
                assert(size_fits(self.entries()[i as int].0, self.entries()[i as int].1.1));
                assert(entry_fits(k, Some(value@)));
                assert(opt_bytes(Some(&value)) == Some(value@));
            }
            match new_log.write_entry(key, Some(&value)) {
                Ok(_) => {},
                Err(e) => {
                    return Err(e);
                },
            };
            let end = new_log.as_bytes().len() as u64;
            let loc = (end - value_size as u64, value_size);
            proof {
                lemma_parse_append(before, before_map, k, Some(value@));
                assert(loc == ((before.len() + LOG_HEADER_SIZE + k.len()) as u64, value@.len() as u32));
                assert forall|j: int| 0 <= j < i implies bytes_lt(#[trigger] new_key_dir.keys()[j], key@) by {
                    assert(new_key_dir.keys()[j] == new_key_dir.entries()[j].0);
                    assert(self.keys()[i as int] == self.entries()[i as int].0);
                }
            }
            let key_copy = key.clone();
            assert(key_copy@ =~= key@);
            new_key_dir.push_last(key_copy, loc);
            proof {
                let nb = new_log.bytes();
                assert(nb == before + encode_entry(k, Some(value@)));
                assert forall|j: int| 0 <= j <= i implies loc_in_log(nb, #[trigger] new_key_dir.entries()[j].1)
                    && value_at(nb, new_key_dir.entries()[j].1) == value_at(self.log_bytes(), self.entries()[j].1) by {
                    if j < i {
                        assert(new_key_dir.entries()[j] == before_entries[j]);
                        let l = before_entries[j].1;
                        assert(value_at(nb, l) =~= value_at(before, l));
                    } else {
                        assert(new_key_dir.entries()[j].1 == loc);
                        assert(value_at(nb, loc) =~= value@);
                    }
                }
                assert forall|j: int| 0 <= j <= i implies (#[trigger] new_key_dir.entries()[j]).0 == self.keys()[j] by {
                    if j < i {
                        assert(new_key_dir.entries()[j] == before_entries[j]);
                    }
                }
            }
            i = i + 1;
        }
        let ghost old_self = *self;
        proof {
            self.lemma_index();
            new_key_dir.lemma_view();
            assert(self.keys().take(n as int) =~= self.keys());
            assert(keys_of(new_key_dir.entries()) =~= self.keys());
        }
        self.log = new_log;
        self.keydir = new_key_dir;
        self.recoverable = Ghost(true);
        proof {
            assert forall|k: Seq<u8>| old_self.index().contains_key(k) implies #[trigger] old_self.readable(k) by {
                let j = choose|j: int| 0 <= j < old_self.entries().len() && #[trigger] old_self.entries()[j].0 == k;
            }
            assert forall|k: Seq<u8>| #[trigger] self.index().contains_key(k) <==> old_self.index().contains_key(k) by {
                if self.index().contains_key(k) {
                    let j = choose|j: int| 0 <= j < self.entries().len() && #[trigger] self.entries()[j].0 == k;
                    assert(old_self.entries()[j].0 == k);
                }
                if old_self.index().contains_key(k) {
                    let j = choose|j: int| 0 <= j < old_self.entries().len() && #[trigger] old_self.entries()[j].0 == k;
                    assert(self.entries()[j].0 == k);
                }
            }
            assert forall|k: Seq<u8>| self.index().contains_key(k) implies #[trigger] self.readable(k)
                && value_at(self.log_bytes(), self.index()[k]) == value_at(old_self.log_bytes(), old_self.index()[k]) by {
                let j = choose|j: int| 0 <= j < self.entries().len() && #[trigger] self.entries()[j].0 == k;
                assert(old_self.entries()[j].0 == k);
            }
            assert(self.index().dom() =~= old_self.index().dom());
            assert(self@ =~= old_self@);
            assert(locs_within(self.keydir@, self.log.bytes().len()));
        }
        Ok(())
    }
}

impl View for DiskClient {
    type V = Map<Seq<u8>, Seq<u8>>;

    /// The stored values of the keys whose value lies inside the log.
    open spec fn view(&self) -> Map<Seq<u8>, Seq<u8>> {
        Map::new(
            |k: Seq<u8>| self.readable(k),
            |k: Seq<u8>| value_at(self.log_bytes(), self.index()[k]),
        )
    }
}

} // verus!

verus! {

/// A read gives back what the last write of the key wrote, and a write
/// leaves every other readable key as it was.
pub proof fn law_read_after_write(before: DiskClient, after: DiskClient, key: Seq<u8>, value: Seq<u8>, other: Seq<u8>)
    requires
        DiskClient::set_spec(before, after, key, value),
    ensures
        after.readable(key),
        after@[key] == value,
        other != key && before.readable(other) ==> after.readable(other) && after@[other] == before@[other],
{
}

/// Two writes of the same key: the later one wins.
pub proof fn law_last_write_wins(s0: DiskClient, s1: DiskClient, s2: DiskClient, key: Seq<u8>, v1: Seq<u8>, v2: Seq<u8>)
    requires
        DiskClient::set_spec(s0, s1, key, v1),
        DiskClient::set_spec(s1, s2, key, v2),
    ensures
        s2.readable(key),
        s2@[key] == v2,
        s2.index().dom() == s1.index().dom(),
{
    assert(s2.index().dom() =~= s1.index().dom());
}

/// After a deletion the key is gone, whatever it held before.
pub proof fn law_read_after_delete(before: DiskClient, after: DiskClient, key: Seq<u8>)
    requires
        DiskClient::delete_spec(before, after, key),
    ensures
        !after.index().contains_key(key),
        !after.readable(key),
{
}

/// A store whose log was read back exactly, and then only written to,
/// reads back from its log as the same index with every value inside the
/// log: reopening the data file restores the store.
pub proof fn law_reopen_restores(d: DiskClient)
    requires
        d.wf(),
        d.recoverable(),
    ensures
        parse_log(d.log_bytes()) == Some((d.index(), true)),
        d.all_readable(),
{
    d.lemma_recoverable();
}

impl DiskClient {
    /// What recoverability gives: the log reads back as the index, and every
    /// location lies inside the log.
    pub proof fn lemma_recoverable(&self)
        requires
            self.wf(),
            self.recoverable(),
        ensures
            log_parses_to(self.log_bytes(), self.index()),
            self.all_readable(),
    {
    }
}

} // verus!

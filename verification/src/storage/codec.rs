//! The on-disk format of the log.
//!
//! ```text
//! +-------------+-------------+----------------+----------------+
//! | key len(4)    val len(4)     key              val            |
//! +-------------+-------------+----------------+----------------+
//! ```
//!
//! Both lengths are big-endian; a value length of -1 (all bits set) marks a
//! deletion and is followed by no value bytes.
use vstd::prelude::*;

verus! {

/// Size of an entry header: the two length fields.
pub const LOG_HEADER_SIZE: u32 = 8;

/// The value-length field of a deletion (-1 as a big-endian `i32`).
pub const TOMBSTONE: u32 = 0xffff_ffff;

/// Big-endian bytes of a `u32`.
pub open spec fn be32_bytes(x: u32) -> Seq<u8> {
    seq![
        (x / 0x100_0000) as u8,
        ((x / 0x1_0000) % 0x100) as u8,
        ((x / 0x100) % 0x100) as u8,
        (x % 0x100) as u8,
    ]
}

/// The big-endian `u32` stored at position `i`.
pub open spec fn be32_at(s: Seq<u8>, i: int) -> nat {
    (s[i] as nat) * 0x100_0000 + (s[i + 1] as nat) * 0x1_0000 + (s[i + 2] as nat) * 0x100 + (
    s[i + 3] as nat)
}

/// The value-length field of an entry.
pub open spec fn value_field(value: Option<Seq<u8>>) -> u32 {
    match value {
        Some(v) => v.len() as u32,
        None => TOMBSTONE,
    }
}

/// An entry that the format can hold: lengths fit their fields, and the
/// whole entry's size fits a `u32`.
pub open spec fn entry_fits(key: Seq<u8>, value: Option<Seq<u8>>) -> bool {
    &&& key.len() + LOG_HEADER_SIZE + match value {
        Some(v) => v.len(),
        None => 0,
    } <= u32::MAX
    &&& match value {
        Some(v) => v.len() < 0x8000_0000,
        None => true,
    }
}

/// The bytes of one entry.
pub open spec fn encode_entry(key: Seq<u8>, value: Option<Seq<u8>>) -> Seq<u8> {
    be32_bytes(key.len() as u32) + be32_bytes(value_field(value)) + key + match value {
        Some(v) => v,
        None => Seq::empty(),
    }
}

/// Where an index entry points: the offset of the value and its length.
pub type ValueLoc = (u64, u32);

/// The index that the entries from `off` on produce when applied to `acc`,
/// and whether they end exactly at the end of `bytes`.  `None` when an
/// entry's header or key is cut short, or a value length is negative but
/// not the deletion mark.  A value that runs past the end is accepted, as a
/// reader of the file finds it then: the last entry was cut while written.
pub open spec fn parse_from(bytes: Seq<u8>, off: nat, acc: Map<Seq<u8>, ValueLoc>) -> Option<
    (Map<Seq<u8>, ValueLoc>, bool),
>
    decreases bytes.len() - off,
{
    if off >= bytes.len() {
        Some((acc, off == bytes.len()))
    } else if off + LOG_HEADER_SIZE > bytes.len() {
        None
    } else {
        let ks = be32_at(bytes, off as int);
        let vs = be32_at(bytes, off + 4int);
        let key_end = off + LOG_HEADER_SIZE + ks;
        if key_end > bytes.len() {
            None
        } else {
            let key = bytes.subrange(off + LOG_HEADER_SIZE as int, key_end as int);
            if vs == TOMBSTONE {
                parse_from(bytes, key_end as nat, acc.remove(key))
            } else if vs >= 0x8000_0000 {
                None
            } else {
                let next = key_end + vs;
                let acc2 = acc.insert(key, (key_end as u64, vs as u32));
                if next >= bytes.len() {
                    Some((acc2, next == bytes.len()))
                } else {
                    parse_from(bytes, next as nat, acc2)
                }
            }
        }
    }
}

/// The index a whole log produces, read from its start.
pub open spec fn parse_log(bytes: Seq<u8>) -> Option<(Map<Seq<u8>, ValueLoc>, bool)> {
    parse_from(bytes, 0, Map::empty())
}

/// The log reads back as exactly the index `m`, ending at its last byte.
pub open spec fn log_parses_to(bytes: Seq<u8>, m: Map<Seq<u8>, ValueLoc>) -> bool {
    parse_log(bytes) == Some((m, true))
}

/// What appending one entry at offset `off` does to an index.
pub open spec fn apply_entry(
    acc: Map<Seq<u8>, ValueLoc>,
    off: nat,
    key: Seq<u8>,
    value: Option<Seq<u8>>,
) -> Map<Seq<u8>, ValueLoc> {
    match value {
        Some(v) => acc.insert(key, ((off + LOG_HEADER_SIZE + key.len()) as u64, v.len() as u32)),
        None => acc.remove(key),
    }
}

pub proof fn lemma_be32_roundtrip(x: u32, rest: Seq<u8>)
    ensures
        be32_at(be32_bytes(x) + rest, 0) == x,
{
    let s = be32_bytes(x) + rest;
    assert(s[0] == (x / 0x100_0000) as u8);
    assert(s[1] == ((x / 0x1_0000) % 0x100) as u8);
    assert(s[2] == ((x / 0x100) % 0x100) as u8);
    assert(s[3] == (x % 0x100) as u8);
    assert(((x / 0x100_0000) as u8) as nat * 0x100_0000 + (((x / 0x1_0000) % 0x100) as u8) as nat
        * 0x1_0000 + (((x / 0x100) % 0x100) as u8) as nat * 0x100 + ((x % 0x100) as u8) as nat
        == x) by (bit_vector);
}

/// Reading an index entry by entry over `a` and then over `b` is reading
/// over `a + b`, when the entries of `a` end exactly at its end.
pub proof fn lemma_parse_concat(
    a: Seq<u8>,
    b: Seq<u8>,
    off: nat,
    acc: Map<Seq<u8>, ValueLoc>,
    m: Map<Seq<u8>, ValueLoc>,
)
    requires
        off <= a.len(),
        parse_from(a, off, acc) == Some((m, true)),
    ensures
        parse_from(a + b, off, acc) == parse_from(a + b, a.len(), m),
    decreases a.len() - off,
{
    let ab = a + b;
    if b.len() == 0 {
        assert(ab =~= a);
        if off < a.len() {
            lemma_parse_exact_end(a, off, acc, m);
        }
        return;
    }
    if off == a.len() {
        return;
    }
    assert(off + LOG_HEADER_SIZE <= a.len());
    assert(ab[off as int] == a[off as int]);
    assert(ab[off + 1int] == a[off + 1int]);
    assert(ab[off + 2int] == a[off + 2int]);
    assert(ab[off + 3int] == a[off + 3int]);
    assert(ab[off + 4int] == a[off + 4int]);
    assert(ab[off + 5int] == a[off + 5int]);
    assert(ab[off + 6int] == a[off + 6int]);
    assert(ab[off + 7int] == a[off + 7int]);
    let ks = be32_at(a, off as int);
    let vs = be32_at(a, off + 4int);
    let key_end = off + LOG_HEADER_SIZE + ks;
    assert(key_end <= a.len());
    let key = a.subrange(off + LOG_HEADER_SIZE as int, key_end as int);
    assert(ab.subrange(off + LOG_HEADER_SIZE as int, key_end as int) =~= key);
    if vs == TOMBSTONE {
        lemma_parse_concat(a, b, key_end as nat, acc.remove(key), m);
    } else {
        let next = key_end + vs;
        let acc2 = acc.insert(key, (key_end as u64, vs as u32));
        if next >= a.len() {
            assert(next == a.len());
            assert(m == acc2);
        } else {
            lemma_parse_concat(a, b, next as nat, acc2, m);
        }
    }
}

/// An exact parse that has not yet reached the end keeps going.
proof fn lemma_parse_exact_end(a: Seq<u8>, off: nat, acc: Map<Seq<u8>, ValueLoc>, m: Map<
    Seq<u8>,
    ValueLoc,
>)
    requires
        off < a.len(),
        parse_from(a, off, acc) == Some((m, true)),
    ensures
        parse_from(a, a.len(), m) == Some((m, true)),
{
}

/// Reading one well-formed entry that fills the rest of the log.
pub proof fn lemma_parse_one_entry(
    bytes: Seq<u8>,
    off: nat,
    acc: Map<Seq<u8>, ValueLoc>,
    key: Seq<u8>,
    value: Option<Seq<u8>>,
)
    requires
        entry_fits(key, value),
        off + encode_entry(key, value).len() == bytes.len(),
        bytes.subrange(off as int, bytes.len() as int) == encode_entry(key, value),
    ensures
        parse_from(bytes, off, acc) == Some((apply_entry(acc, off, key, value), true)),
{
    let enc = encode_entry(key, value);
    let o = off as int;
    let vbytes = match value {
        Some(v) => v,
        None => Seq::<u8>::empty(),
    };
    let h1 = be32_bytes(key.len() as u32);
    let h2 = be32_bytes(value_field(value));
    assert(enc =~= h1 + (h2 + key + vbytes));
    let tail = enc.subrange(4, enc.len() as int);
    assert(tail =~= h2 + (key + vbytes));
    lemma_be32_roundtrip(key.len() as u32, h2 + (key + vbytes));
    lemma_be32_roundtrip(value_field(value), key + vbytes);
    assert forall|j: int| 0 <= j < enc.len() implies bytes[o + j] == enc[j] by {
        assert(bytes.subrange(o, bytes.len() as int)[j] == bytes[o + j]);
    }
    assert(be32_at(bytes, o) == be32_at(enc, 0)) by {
        assert(bytes[o] == enc[0]);
        assert(bytes[o + 1] == enc[1]);
        assert(bytes[o + 2] == enc[2]);
        assert(bytes[o + 3] == enc[3]);
    }
    assert(be32_at(enc, 4) == be32_at(tail, 0)) by {
        assert(tail[0] == enc[4]);
        assert(tail[1] == enc[5]);
        assert(tail[2] == enc[6]);
        assert(tail[3] == enc[7]);
    }
    assert(be32_at(bytes, o + 4) == be32_at(enc, 4)) by {
        assert(bytes[o + 4] == enc[4]);
        assert(bytes[o + 5] == enc[5]);
        assert(bytes[o + 6] == enc[6]);
        assert(bytes[o + 7] == enc[7]);
    }
    assert(be32_at(bytes, o) == key.len());
    assert(be32_at(bytes, o + 4) == value_field(value));
    let key_end = o + 8 + key.len();
    assert(bytes.subrange(o + 8, key_end) =~= key) by {
        assert forall|j: int| 0 <= j < key.len() implies bytes[o + 8 + j] == key[j] by {
            assert(enc[8 + j] == key[j]);
        }
    }
    assert(off + LOG_HEADER_SIZE <= bytes.len());
    match value {
        Some(v) => {
            assert(value_field(value) == v.len());
            assert(key_end + v.len() == bytes.len());
        },
        None => {
            assert(key_end == bytes.len());
            assert(parse_from(bytes, key_end as nat, acc.remove(key)) == Some((acc.remove(key), true)));
        },
    }
}

/// Appending an entry to a log that reads back exactly as `m` gives a log
/// that reads back exactly as `m` with the entry applied.
pub proof fn lemma_parse_append(log: Seq<u8>, m: Map<Seq<u8>, ValueLoc>, key: Seq<u8>, value: Option<
    Seq<u8>,
>)
    requires
        entry_fits(key, value),
        log_parses_to(log, m),
    ensures
        log_parses_to(log + encode_entry(key, value), apply_entry(m, log.len(), key, value)),
{
    let enc = encode_entry(key, value);
    lemma_parse_concat(log, enc, 0, Map::empty(), m);
    let all = log + enc;
    assert(all.subrange(log.len() as int, all.len() as int) =~= enc);
    lemma_parse_one_entry(all, log.len(), m, key, value);
}

/// Every location of a map lies inside `bytes`.
pub open spec fn locs_within(m: Map<Seq<u8>, ValueLoc>, len: nat) -> bool {
    forall|k: Seq<u8>| m.contains_key(k) ==> (#[trigger] m[k]).0 + m[k].1 <= len
}

/// An exact read of a log points only inside the log.
pub proof fn lemma_parse_exact_within(
    bytes: Seq<u8>,
    off: nat,
    acc: Map<Seq<u8>, ValueLoc>,
    m: Map<Seq<u8>, ValueLoc>,
)
    requires
        parse_from(bytes, off, acc) == Some((m, true)),
        locs_within(acc, bytes.len()),
    ensures
        locs_within(m, bytes.len()),
    decreases bytes.len() - off,
{
    if off >= bytes.len() {
        return;
    }
    let ks = be32_at(bytes, off as int);
    let vs = be32_at(bytes, off + 4int);
    let key_end = off + LOG_HEADER_SIZE + ks;
    let key = bytes.subrange(off + LOG_HEADER_SIZE as int, key_end as int);
    if vs == TOMBSTONE {
        lemma_parse_exact_within(bytes, key_end as nat, acc.remove(key), m);
    } else {
        let next = key_end + vs;
        let acc2 = acc.insert(key, (key_end as u64, vs as u32));
        if next < bytes.len() {
            lemma_parse_exact_within(bytes, next as nat, acc2, m);
        }
    }
}

/// Big-endian bytes of `x`.
pub fn be32_encode(x: u32) -> (r: [u8; 4])
    ensures
        r@ == be32_bytes(x),
{
    let r = [(x / 0x100_0000) as u8, ((x / 0x1_0000) % 0x100) as u8, ((x / 0x100) % 0x100) as u8, (x
        % 0x100) as u8];
    assert(r@ =~= be32_bytes(x));
    r
}

/// The big-endian `u32` at position `i` of `s`.
pub fn be32_decode(s: &[u8], i: usize) -> (r: u32)
    requires
        i + 4 <= s@.len(),
    ensures
        r == be32_at(s@, i as int),
{
    (s[i] as u32) * 0x100_0000 + (s[i + 1] as u32) * 0x1_0000 + (s[i + 2] as u32) * 0x100 + (s[i
        + 3] as u32)
}

/// The bytes of an optional value.
pub open spec fn opt_bytes(value: Option<&Vec<u8>>) -> Option<Seq<u8>> {
    match value {
        Some(v) => Some(v@),
        None => None,
    }
}

/// The bytes of one entry; `None` for the value writes a deletion.
pub fn encode_entry_bytes(key: &Vec<u8>, value: Option<&Vec<u8>>) -> (r: Vec<u8>)
    requires
        entry_fits(key@, opt_bytes(value)),
    ensures
        r@ == encode_entry(key@, opt_bytes(value)),
{
    let ghost vv = opt_bytes(value);
    let key_size = key.len() as u32;
    let value_size: u32 = match value {
        Some(v) => v.len() as u32,
        None => TOMBSTONE,
    };
    assert(value_size == value_field(vv));
    let mut out: Vec<u8> = Vec::new();
    let h1 = be32_encode(key_size);
    let h2 = be32_encode(value_size);
    let mut i: usize = 0;
    while i < 4
        invariant
            i <= 4,
            out@ =~= h1@.subrange(0, i as int),
        decreases 4 - i,
    {
        out.push(h1[i]);
        i = i + 1;
    }
    i = 0;
    while i < 4
        invariant
            i <= 4,
            out@ =~= h1@ + h2@.subrange(0, i as int),
        decreases 4 - i,
    {
        out.push(h2[i]);
        i = i + 1;
    }
    append_bytes(&mut out, key);
    match value {
        Some(v) => {
            append_bytes(&mut out, v);
            assert(out@ =~= encode_entry(key@, vv));
        },
        None => {
            assert(out@ =~= encode_entry(key@, vv));
        },
    }
    out
}

/// Appends the bytes of `src` to `dst`.
pub fn append_bytes(dst: &mut Vec<u8>, src: &[u8])
    ensures
        final(dst)@ == old(dst)@ + src@,
{
    let ghost start = dst@;
    let mut i: usize = 0;
    while i < src.len()
        invariant
            i <= src@.len(),
            dst@ =~= start + src@.subrange(0, i as int),
        decreases src.len() - i,
    {
        dst.push(src[i]);
        i = i + 1;
    }
    assert(src@.subrange(0, src@.len() as int) =~= src@);
}

/// A copy of `s[from..to]`.
pub fn copy_range(s: &[u8], from: usize, to: usize) -> (r: Vec<u8>)
    requires
        from <= to <= s@.len(),
    ensures
        r@ == s@.subrange(from as int, to as int),
{
    let mut out: Vec<u8> = Vec::new();
    let mut i: usize = from;
    while i < to
        invariant
            from <= i <= to,
            to <= s@.len(),
            out@ =~= s@.subrange(from as int, i as int),
        decreases to - i,
    {
        out.push(s[i]);
        i = i + 1;
    }
    out
}

/// Whether an entry fits the format.
pub fn check_entry_fits(key: &[u8], value: Option<&[u8]>) -> (r: bool)
    ensures
        r == entry_fits(key@, match value { Some(v) => Some(v@), None => None }),
{
    let key_len = key.len() as u64;
    match value {
        Some(v) => {
            let value_len = v.len() as u64;
            key_len <= u32::MAX as u64 && value_len <= u32::MAX as u64 && key_len + LOG_HEADER_SIZE as u64
                + value_len <= u32::MAX as u64 && value_len < 0x8000_0000
        },
        None => key_len <= u32::MAX as u64 && key_len + LOG_HEADER_SIZE as u64 <= u32::MAX as u64,
    }
}

} // verus!

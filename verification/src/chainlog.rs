//! Reading the program's answers from a transaction's log lines: the
//! key-value events a scan or a page emits (a `Program data: ` line holds
//! an event in base64: an 8-byte discriminator, then the key and the value
//! as Borsh byte vectors), and the total number of keys a page reports on
//! a `FINAL_TOTAL: ` line.
use vstd::prelude::*;
use vstd::utf8::{decode_utf8, encode_utf8, valid_utf8};
use vstd::string::StrSliceExecFns;
use base64::Engine;
use crate::chain::{borsh_bytes_at, read_borsh_bytes, KVEvent};
use crate::error::Error;
use crate::keypair::{all_digits, decimal, lemma_decimal_step, str_chars, trim, trim_range};
use crate::sessions::strings_of;
use crate::text::{string_from_utf8, text_bytes};

verus! {

/// The bytes of `Program data: `.
pub open spec fn data_prefix() -> Seq<u8> {
    seq![80u8, 114u8, 111u8, 103u8, 114u8, 97u8, 109u8, 32u8, 100u8, 97u8, 116u8, 97u8, 58u8, 32u8]
}

/// The characters of `FINAL_TOTAL: `.
pub open spec fn total_marker() -> Seq<char> {
    seq!['F', 'I', 'N', 'A', 'L', '_', 'T', 'O', 'T', 'A', 'L', ':', ' ']
}

/// `s` with every occurrence of `p` taken out, the occurrences found from
/// left to right without overlapping (as `str::replace(p, "")` does).
pub open spec fn remove_all(s: Seq<u8>, p: Seq<u8>) -> Seq<u8>
    decreases s.len(),
{
    if p.len() == 0 || s.len() < p.len() {
        s
    } else if s.take(p.len() as int) == p {
        remove_all(s.skip(p.len() as int), p)
    } else {
        seq![s[0]] + remove_all(s.skip(1), p)
    }
}

/// What standard base64 (with padding) decodes the text to, if it is
/// valid.
pub uninterp spec fn base64_standard(text: Seq<u8>) -> Option<Seq<u8>>;

/// `general_purpose::STANDARD.decode`: the bytes that the base64 text
/// encodes, or nothing when it is not valid base64.
#[verifier::external_body]
fn base64_decode(text: &[u8]) -> (r: Option<Vec<u8>>)
    ensures
        match base64_standard(text@) {
            Some(b) => r is Some && r->Some_0@ == b,
            None => r is None,
        },
{
    base64::engine::general_purpose::STANDARD.decode(text).ok()
}

/// A key and a value written as two Borsh byte vectors that fill the
/// bytes exactly.
pub open spec fn borsh_kv(b: Seq<u8>) -> Option<(Seq<u8>, Seq<u8>)> {
    match borsh_bytes_at(b, 0) {
        Some((k, p)) => match borsh_bytes_at(b, p) {
            Some((v, q)) => if q == b.len() {
                Some((k, v))
            } else {
                None
            },
            None => None,
        },
        None => None,
    }
}

/// The event a log line carries, if any: the line starts with
/// `Program data: `; with every `Program data: ` taken out the rest is
/// decoded from base64 (nothing when that fails), and after an 8-byte
/// discriminator come the key and the value.
pub open spec fn log_event(log: Seq<char>) -> Option<(Seq<u8>, Seq<u8>)> {
    let b = encode_utf8(log);
    if data_prefix().is_prefix_of(b) {
        let bytes = match base64_standard(remove_all(b, data_prefix())) {
            Some(d) => d,
            None => Seq::empty(),
        };
        if bytes.len() > 8 {
            borsh_kv(bytes.skip(8))
        } else {
            None
        }
    } else {
        None
    }
}

/// The events of the log lines, in order.
pub open spec fn log_events(logs: Seq<Seq<char>>) -> Seq<(Seq<u8>, Seq<u8>)>
    decreases logs.len(),
{
    if logs.len() == 0 {
        Seq::empty()
    } else {
        log_events(logs.drop_last()) + match log_event(logs.last()) {
            Some(e) => seq![e],
            None => Seq::empty(),
        }
    }
}

/// The views of a list of events.
pub open spec fn event_views(v: Seq<KVEvent>) -> Seq<(Seq<u8>, Seq<u8>)> {
    v.map_values(|e: KVEvent| (e.key@, e.value@))
}

/// `s` with every occurrence of `p` taken out.
pub fn remove_all_bytes(s: &[u8], p: &[u8]) -> (r: Vec<u8>)
    requires
        p@.len() > 0,
    ensures
        r@ == remove_all(s@, p@),
{
    let mut out: Vec<u8> = Vec::new();
    let mut i: usize = 0;
    let n = s.len();
    let m = p.len();
    assert(s@.skip(0) =~= s@);
    assert(out@ + remove_all(s@, p@) =~= remove_all(s@, p@));
    while i < n
        invariant
            n == s@.len(),
            m == p@.len() > 0,
            i <= n,
            remove_all(s@, p@) == out@ + remove_all(s@.skip(i as int), p@),
        decreases n - i,
    {
        let ghost rest = s@.skip(i as int);
        let mut matches = m <= n - i;
        if matches {
            let mut j: usize = 0;
            while j < m
                invariant
                    j <= m == p@.len(),
                    i + m <= n == s@.len(),
                    forall|t: int| 0 <= t < j ==> s@[i + t] == p@[t],
                ensures
                    j <= m,
                    forall|t: int| 0 <= t < j ==> s@[i + t] == p@[t],
                    j < m ==> s@[i + j] != p@[j as int],
                decreases m - j,
            {
                if s[i + j] != p[j] {
                    break;
                }
                j = j + 1;
            }
            matches = j == m;
            proof {
                if matches {
                    assert(rest.take(m as int) =~= p@);
                } else {
                    assert(rest.take(m as int)[j as int] != p@[j as int]);
                }
            }
        }
        if matches {
            assert(rest.skip(m as int) =~= s@.skip(i + m));
            i = i + m;
        } else {
            out.push(s[i]);
            proof {
                assert(rest.skip(1) =~= s@.skip(i + 1));
                assert(rest[0] == s@[i as int]);
            }
            i = i + 1;
        }
    }
    assert(s@.skip(n as int) =~= Seq::<u8>::empty());
    assert(out@ + Seq::<u8>::empty() =~= out@);
    out
}

/// The bytes of `Program data: `.
fn data_prefix_bytes() -> (r: Vec<u8>)
    ensures
        r@ == data_prefix(),
{
    let r = vec![80u8, 114u8, 111u8, 103u8, 114u8, 97u8, 109u8, 32u8, 100u8, 97u8, 116u8, 97u8, 58u8, 32u8];
    assert(r@ =~= data_prefix());
    r
}

/// A key and a value written as two Borsh byte vectors that fill the
/// bytes exactly.
pub fn parse_kv_event(b: &[u8]) -> (r: Option<KVEvent>)
    ensures
        match borsh_kv(b@) {
            Some((k, v)) => r is Some && r->Some_0.key@ == k && r->Some_0.value@ == v,
            None => r is None,
        },
{
    let (key, p) = read_borsh_bytes(b, 0)?;
    let (value, q) = read_borsh_bytes(b, p)?;
    if q != b.len() {
        return None;
    }
    Some(KVEvent { key, value })
}

/// The event a log line carries, if any.
pub fn event_of_log(log: &str) -> (r: Option<KVEvent>)
    ensures
        match log_event(log@) {
            Some((k, v)) => r is Some && r->Some_0.key@ == k && r->Some_0.value@ == v,
            None => r is None,
        },
{
    let b = text_bytes(log);
    let prefix = data_prefix_bytes();
    if b.len() < prefix.len() {
        return None;
    }
    let mut i: usize = 0;
    while i < prefix.len()
        invariant
            prefix@ == data_prefix(),
            b@ == encode_utf8(log@),
            prefix@.len() <= b@.len(),
            i <= prefix@.len(),
            forall|t: int| 0 <= t < i ==> b@[t] == prefix@[t],
        decreases prefix.len() - i,
    {
        if b[i] != prefix[i] {
            assert(b@.subrange(0, prefix@.len() as int)[i as int] != prefix@[i as int]);
            return None;
        }
        i = i + 1;
    }
    assert(prefix@ =~= b@.subrange(0, prefix@.len() as int));
    let payload = remove_all_bytes(b.as_slice(), prefix.as_slice());
    let bytes = match base64_decode(payload.as_slice()) {
        Some(d) => d,
        None => Vec::new(),
    };
    if bytes.len() > 8 {
        let rest = crate::storage::codec::copy_range(bytes.as_slice(), 8, bytes.len());
        assert(rest@ =~= bytes@.skip(8));
        parse_kv_event(rest.as_slice())
    } else {
        None
    }
}

/// The events of the log lines, in order.
pub fn collect_events(logs: &Vec<String>) -> (r: Vec<KVEvent>)
    ensures
        event_views(r@) == log_events(strings_of(logs@)),
{
    let ghost ls = strings_of(logs@);
    let mut out: Vec<KVEvent> = Vec::new();
    let mut i: usize = 0;
    while i < logs.len()
        invariant
            i <= logs@.len(),
            ls == strings_of(logs@),
            event_views(out@) == log_events(ls.take(i as int)),
        decreases logs.len() - i,
    {
        let ghost before = out@;
        proof {
            assert(ls.take(i + 1).drop_last() =~= ls.take(i as int));
            assert(ls.take(i + 1).last() == logs@[i as int]@);
        }
        match event_of_log(logs[i].as_str()) {
            Some(e) => {
                out.push(e);
                assert(event_views(out@) =~= event_views(before) + seq![(out@.last().key@, out@.last().value@)]);
            },
            None => {
                assert(event_views(out@) =~= event_views(before) + Seq::<(Seq<u8>, Seq<u8>)>::empty());
            },
        }
        i = i + 1;
    }
    assert(ls.take(i as int) =~= ls);
    out
}

/// The text of an event's key and value.
pub fn bytes_to_str(event: &KVEvent) -> (r: Result<(String, String), Error>)
    requires
        valid_utf8(event.key@),
        valid_utf8(event.value@),
    ensures
        r is Ok,
        r->Ok_0.0@ == decode_utf8(event.key@),
        r->Ok_0.1@ == decode_utf8(event.value@),
{
    let key = string_from_utf8(event.key.clone()).unwrap();
    let value = string_from_utf8(event.value.clone()).unwrap();
    Ok((key, value))
}

/// Whether the bytes are UTF-8 text.
fn is_text(b: &Vec<u8>) -> (r: bool)
    ensures
        r == valid_utf8(b@),
{
    string_from_utf8(b.clone()).is_some()
}

/// Every event's key and value are UTF-8 text.
pub open spec fn events_are_text(es: Seq<(Seq<u8>, Seq<u8>)>) -> bool {
    forall|i: int| 0 <= i < es.len() ==> valid_utf8(#[trigger] es[i].0) && valid_utf8(es[i].1)
}

/// The texts of the events.
pub open spec fn event_texts(es: Seq<(Seq<u8>, Seq<u8>)>) -> Seq<(Seq<char>, Seq<char>)> {
    es.map_values(|e: (Seq<u8>, Seq<u8>)| (decode_utf8(e.0), decode_utf8(e.1)))
}

/// The views of a list of text pairs.
pub open spec fn text_pairs(v: Seq<(String, String)>) -> Seq<(Seq<char>, Seq<char>)> {
    v.map_values(|p: (String, String)| (p.0@, p.1@))
}

/// The key-value pairs a scan or a page returns: the events of the log
/// lines as text.  `None` when an event's key or value is not UTF-8 text.
pub fn parse_scan_logs(logs: &Vec<String>) -> (r: Option<Vec<(String, String)>>)
    ensures
        events_are_text(log_events(strings_of(logs@))) ==> r is Some && text_pairs(r->Some_0@) == event_texts(
            log_events(strings_of(logs@)),
        ),
        !events_are_text(log_events(strings_of(logs@))) ==> r is None,
{
    let events = collect_events(logs);
    let ghost es = log_events(strings_of(logs@));
    let mut results: Vec<(String, String)> = Vec::new();
    let mut i: usize = 0;
    while i < events.len()
        invariant
            i <= events@.len(),
            event_views(events@) == es,
            es == log_events(strings_of(logs@)),
            text_pairs(results@) == event_texts(es.take(i as int)),
            forall|j: int| 0 <= j < i ==> valid_utf8(#[trigger] es[j].0) && valid_utf8(es[j].1),
        decreases events.len() - i,
    {
        let e = &events[i];
        assert(es[i as int] == (e.key@, e.value@));
        if !is_text(&e.key) || !is_text(&e.value) {
            assert(!(valid_utf8(es[i as int].0) && valid_utf8(es[i as int].1)));
            return None;
        }
        assert(valid_utf8(es[i as int].0) && valid_utf8(es[i as int].1));
        let kv = match bytes_to_str(e) {
            Ok(kv) => kv,
            Err(_) => {
                return None;
            },
        };
        let ghost before = results@;
        results.push(kv);
        proof {
            assert(text_pairs(results@) =~= text_pairs(before).push((kv.0@, kv.1@)));
            assert(es.take(i + 1) =~= es.take(i as int).push(es[i as int]));
            assert(event_texts(es.take(i + 1)) =~= event_texts(es.take(i as int)).push((decode_utf8(es[i as int].0), decode_utf8(es[i as int].1))));
            assert forall|j: int| 0 <= j < i + 1 implies valid_utf8(#[trigger] es[j].0) && valid_utf8(es[j].1) by {
                if j == i {
                    assert(valid_utf8(es[i as int].0) && valid_utf8(es[i as int].1));
                }
            }
        }
        i = i + 1;
    }
    assert(es.take(i as int) =~= es);
    assert(es.len() == events@.len());
    assert(events_are_text(es));
    Some(results)
}

/// The last piece of `s.split(p)` when `p` occurs in `s` (occurrences
/// found from left to right without overlapping); `None` when it does not
/// occur.
pub open spec fn split_tail(s: Seq<char>, p: Seq<char>) -> Option<Seq<char>>
    decreases s.len(),
{
    if p.len() == 0 || s.len() < p.len() {
        None
    } else if s.take(p.len() as int) == p {
        match split_tail(s.skip(p.len() as int), p) {
            Some(t) => Some(t),
            None => Some(s.skip(p.len() as int)),
        }
    } else {
        split_tail(s.skip(1), p)
    }
}

/// `u64::from_str`: decimal digits, optionally after a `+`, of a value
/// that fits 64 bits.
pub open spec fn parse_u64(s: Seq<char>) -> Option<u64> {
    let d = if s.len() > 0 && s[0] == '+' {
        s.drop_first()
    } else {
        s
    };
    if d.len() == 0 || !all_digits(d) || decimal(d) > u64::MAX {
        None
    } else {
        Some(decimal(d) as u64)
    }
}

/// The total a log line reports: the text after its last `FINAL_TOTAL: `,
/// trimmed, read as a number.
pub open spec fn total_of_log(log: Seq<char>) -> Option<u64> {
    match split_tail(log, total_marker()) {
        Some(t) => parse_u64(trim(t)),
        None => None,
    }
}

/// The total of the last log line that reports one.
pub open spec fn logs_total(logs: Seq<Seq<char>>) -> Option<u64>
    decreases logs.len(),
{
    if logs.len() == 0 {
        None
    } else {
        match total_of_log(logs.last()) {
            Some(t) => Some(t),
            None => logs_total(logs.drop_last()),
        }
    }
}

/// `u64::from_str` on `v[a..b]`.
fn parse_u64_range(v: &Vec<char>, a: usize, b: usize) -> (r: Option<u64>)
    requires
        a <= b <= v@.len(),
    ensures
        r == parse_u64(v@.subrange(a as int, b as int)),
{
    let ghost s = v@.subrange(a as int, b as int);
    let mut start = a;
    if a < b && v[a] == '+' {
        start = a + 1;
        assert(s.drop_first() =~= v@.subrange(start as int, b as int));
    }
    let ghost d = v@.subrange(start as int, b as int);
    assert(d == (if s.len() > 0 && s[0] == '+' { s.drop_first() } else { s })) by {
        if !(a < b && v@[a as int] == '+') {
            assert(d =~= s);
        }
    }
    if start == b {
        return None;
    }
    let cap: u128 = 0x1_0000_0000_0000_0000;
    let mut acc: u128 = 0;
    let mut i = start;
    while i < b
        invariant
            start <= i <= b <= v@.len(),
            cap == 0x1_0000_0000_0000_0000u128,
            d == v@.subrange(start as int, b as int),
            s == v@.subrange(a as int, b as int),
            d == (if s.len() > 0 && s[0] == '+' { s.drop_first() } else { s }),
            all_digits(v@.subrange(start as int, i as int)),
            acc == (if decimal(v@.subrange(start as int, i as int)) < cap {
                decimal(v@.subrange(start as int, i as int))
            } else {
                cap as nat
            }),
        decreases b - i,
    {
        let c = v[i];
        if !('0' <= c && c <= '9') {
            assert(d[(i - start) as int] == c);
            return None;
        }
        proof {
            assert(v@.subrange(start as int, i + 1) =~= v@.subrange(start as int, i as int).push(c));
            lemma_decimal_step(v@.subrange(start as int, i as int), c);
        }
        let digit = ((c as u32) - ('0' as u32)) as u128;
        let next = acc * 10 + digit;
        acc = if next < cap {
            next
        } else {
            cap
        };
        i = i + 1;
    }
    assert(v@.subrange(start as int, b as int) == d);
    if acc >= cap {
        None
    } else {
        Some(acc as u64)
    }
}

/// The total a log line reports, if any.
pub fn total_of_line(log: &str) -> (r: Option<u64>)
    ensures
        r == total_of_log(log@),
{
    let v = str_chars(log);
    let marker = vec!['F', 'I', 'N', 'A', 'L', '_', 'T', 'O', 'T', 'A', 'L', ':', ' '];
    assert(marker@ =~= total_marker());
    let n = v.len();
    let m = marker.len();
    let mut last_end: Option<usize> = None;
    let mut i: usize = 0;
    assert(v@.skip(0) =~= v@);
    while i < n
        invariant
            n == v@.len(),
            m == marker@.len() == 13,
            marker@ == total_marker(),
            i <= n,
            last_end is Some ==> last_end->Some_0 <= n,
            split_tail(v@, total_marker()) == match split_tail(v@.skip(i as int), total_marker()) {
                Some(t) => Some(t),
                None => match last_end {
                    Some(e) => Some(v@.skip(e as int)),
                    None => None,
                },
            },
        decreases n - i,
    {
        let ghost rest = v@.skip(i as int);
        let mut matches = m <= n - i;
        if matches {
            let mut j: usize = 0;
            while j < m
                invariant
                    j <= m == marker@.len(),
                    i + m <= n == v@.len(),
                    forall|t: int| 0 <= t < j ==> v@[i + t] == marker@[t],
                ensures
                    j <= m,
                    forall|t: int| 0 <= t < j ==> v@[i + t] == marker@[t],
                    j < m ==> v@[i + j] != marker@[j as int],
                decreases m - j,
            {
                if v[i + j] != marker[j] {
                    break;
                }
                j = j + 1;
            }
            matches = j == m;
            proof {
                if matches {
                    assert(rest.take(m as int) =~= marker@);
                } else {
                    assert(rest.take(m as int)[j as int] != marker@[j as int]);
                }
            }
        } else {
            assert(rest.len() < total_marker().len());
        }
        if matches {
            assert(rest.skip(m as int) =~= v@.skip(i + m));
            i = i + m;
            last_end = Some(i);
        } else {
            assert(rest.skip(1) =~= v@.skip(i + 1));
            i = i + 1;
        }
    }
    assert(v@.skip(n as int).len() == 0);
    match last_end {
        Some(e) => {
            let (lo, hi) = trim_range(&v, e, n);
            assert(v@.subrange(e as int, n as int) =~= v@.skip(e as int));
            parse_u64_range(&v, lo, hi)
        },
        None => None,
    }
}

/// The total number of keys a page reports: that of the last log line
/// with a `FINAL_TOTAL: ` followed by a number; an error when no line
/// reports one.
pub fn page_total(logs: &Vec<String>) -> (r: Result<u64, Error>)
    ensures
        match logs_total(strings_of(logs@)) {
            Some(t) => r is Ok && r->Ok_0 == t,
            None => r is Err && r->Err_0 is RpcError && r->Err_0->RpcError_0@ == "counter account not found"@,
        },
{
    let ghost ls = strings_of(logs@);
    let mut total: Option<u64> = None;
    let mut i: usize = 0;
    while i < logs.len()
        invariant
            i <= logs@.len(),
            ls == strings_of(logs@),
            total == logs_total(ls.take(i as int)),
        decreases logs.len() - i,
    {
        proof {
            assert(ls.take(i + 1).drop_last() =~= ls.take(i as int));
            assert(ls.take(i + 1).last() == logs@[i as int]@);
        }
        match total_of_line(logs[i].as_str()) {
            Some(t) => {
                total = Some(t);
            },
            None => {},
        }
        i = i + 1;
    }
    assert(ls.take(i as int) =~= ls);
    match total {
        Some(t) => Ok(t),
        None => {
            let msg = String::from_str("counter account not found");
            assert(msg@ == "counter account not found"@);
            Err(Error::RpcError(msg))
        },
    }
}

} // verus!

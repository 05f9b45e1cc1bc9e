//! Reading the payer keypair from its configured form: the bytes written as
//! a bracketed, comma-separated list of decimal numbers, such as
//! `[12, 250, 3]`.
use vstd::prelude::*;
use vstd::string::StrSliceExecFns;
use crate::error::Error;

verus! {

/// A whitespace character (the Unicode `White_Space` property, as Rust's
/// `char::is_whitespace` and `str::trim` use it).
pub open spec fn is_ws(c: char) -> bool {
    let u = c as u32;
    ||| 0x9 <= u <= 0xd
    ||| u == 0x20
    ||| u == 0x85
    ||| u == 0xa0
    ||| u == 0x1680
    ||| 0x2000 <= u <= 0x200a
    ||| u == 0x2028
    ||| u == 0x2029
    ||| u == 0x202f
    ||| u == 0x205f
    ||| u == 0x3000
}

pub open spec fn trim_start(s: Seq<char>) -> Seq<char>
    decreases s.len(),
{
    if s.len() > 0 && is_ws(s[0]) {
        trim_start(s.drop_first())
    } else {
        s
    }
}

pub open spec fn trim_end(s: Seq<char>) -> Seq<char>
    decreases s.len(),
{
    if s.len() > 0 && is_ws(s.last()) {
        trim_end(s.drop_last())
    } else {
        s
    }
}

/// `str::trim`: whitespace removed from both ends.
pub open spec fn trim(s: Seq<char>) -> Seq<char> {
    trim_end(trim_start(s))
}

/// The pieces of `s` between commas, as `str::split(',')` gives them.
pub open spec fn split_commas(s: Seq<char>) -> Seq<Seq<char>>
    decreases s.len(),
{
    if s.len() == 0 {
        seq![Seq::<char>::empty()]
    } else {
        let p = split_commas(s.drop_last());
        if s.last() == ',' {
            p.push(Seq::<char>::empty())
        } else {
            p.update(p.len() - 1, p.last().push(s.last()))
        }
    }
}

pub open spec fn is_digit(c: char) -> bool {
    '0' <= c <= '9'
}

pub open spec fn all_digits(s: Seq<char>) -> bool {
    forall|i: int| 0 <= i < s.len() ==> is_digit(#[trigger] s[i])
}

/// The number a string of decimal digits writes.
pub open spec fn decimal(s: Seq<char>) -> nat
    decreases s.len(),
{
    if s.len() == 0 {
        0
    } else {
        decimal(s.drop_last()) * 10 + ((s.last() as u32) - ('0' as u32)) as nat
    }
}

/// `u8::from_str`: decimal digits, optionally after a `+`, of a value
/// that fits a byte.
pub open spec fn parse_u8(s: Seq<char>) -> Option<u8> {
    let d = if s.len() > 0 && s[0] == '+' {
        s.drop_first()
    } else {
        s
    };
    if d.len() == 0 || !all_digits(d) || decimal(d) > 255 {
        None
    } else {
        Some(decimal(d) as u8)
    }
}

/// The bytes of the pieces, each trimmed and read as a byte; `None` when a
/// piece is not a byte.
pub open spec fn parse_pieces(ps: Seq<Seq<char>>) -> Option<Seq<u8>>
    decreases ps.len(),
{
    if ps.len() == 0 {
        Some(Seq::empty())
    } else {
        match (parse_pieces(ps.drop_last()), parse_u8(trim(ps.last()))) {
            (Some(v), Some(b)) => Some(v.push(b)),
            _ => None,
        }
    }
}

/// The text between a leading `[` and a trailing `]`.
pub open spec fn strip_brackets(t: Seq<char>) -> Option<Seq<char>> {
    if t.len() >= 1 && t[0] == '[' && t.drop_first().len() >= 1 && t.drop_first().last() == ']' {
        Some(t.drop_first().drop_last())
    } else {
        None
    }
}

/// The bytes that a keypair string writes, if it is well formed.
pub open spec fn keypair_bytes(s: Seq<char>) -> Option<Seq<u8>> {
    match strip_brackets(trim(s)) {
        Some(inner) => parse_pieces(split_commas(inner)),
        None => None,
    }
}

/// The characters of a string.
pub fn str_chars(s: &str) -> (r: Vec<char>)
    ensures
        r@ == s@,
{
    let n = s.unicode_len();
    let mut out: Vec<char> = Vec::new();
    let mut i: usize = 0;
    while i < n
        invariant
            n == s@.len(),
            i <= n,
            out@ =~= s@.subrange(0, i as int),
        decreases n - i,
    {
        out.push(s.get_char(i));
        i = i + 1;
    }
    out
}

fn is_ws_char(c: char) -> (r: bool)
    ensures
        r == is_ws(c),
{
    let u = c as u32;
    (0x9 <= u && u <= 0xd) || u == 0x20 || u == 0x85 || u == 0xa0 || u == 0x1680 || (0x2000 <= u
        && u <= 0x200a) || u == 0x2028 || u == 0x2029 || u == 0x202f || u == 0x205f || u == 0x3000
}

/// The bounds of `v[a..b]` with whitespace trimmed from both ends.
pub fn trim_range(v: &Vec<char>, a: usize, b: usize) -> (r: (usize, usize))
    requires
        a <= b <= v@.len(),
    ensures
        a <= r.0 <= r.1 <= b,
        v@.subrange(r.0 as int, r.1 as int) == trim(v@.subrange(a as int, b as int)),
{
    let mut i = a;
    while i < b && is_ws_char(v[i])
        invariant
            a <= i <= b <= v@.len(),
            trim_start(v@.subrange(a as int, b as int)) == trim_start(v@.subrange(i as int, b as int)),
        decreases b - i,
    {
        assert(v@.subrange(i as int, b as int).drop_first() =~= v@.subrange(i + 1, b as int));
        i = i + 1;
    }
    let mut j = b;
    while j > i && is_ws_char(v[j - 1])
        invariant
            a <= i <= j <= b <= v@.len(),
            trim_end(v@.subrange(i as int, b as int)) == trim_end(v@.subrange(i as int, j as int)),
        decreases j - i,
    {
        assert(v@.subrange(i as int, j as int).drop_last() =~= v@.subrange(i as int, j - 1));
        j = j - 1;
    }
    (i, j)
}

pub proof fn lemma_decimal_step(s: Seq<char>, c: char)
    ensures
        decimal(s.push(c)) == decimal(s) * 10 + ((c as u32) - ('0' as u32)) as nat,
{
    assert(s.push(c).drop_last() =~= s);
}

/// `u8::from_str` on `v[a..b]`.
fn parse_u8_range(v: &Vec<char>, a: usize, b: usize) -> (r: Option<u8>)
    requires
        a <= b <= v@.len(),
    ensures
        r == parse_u8(v@.subrange(a as int, b as int)),
{
    let ghost s = v@.subrange(a as int, b as int);
    let mut start = a;
    if a < b && v[a] == '+' {
        start = a + 1;
        assert(s.drop_first() =~= v@.subrange(start as int, b as int));
    }
    let ghost d = v@.subrange(start as int, b as int);
    assert(d == (if s.len() > 0 && s[0] == '+' { s.drop_first() } else { s })) by {
        if !(a < b && v@[a as int] == '+') {
            assert(d =~= s);
        }
    }
    if start == b {
        return None;
    }
    let mut acc: u32 = 0;
    let mut i = start;
    while i < b
        invariant
            start <= i <= b <= v@.len(),
            d == v@.subrange(start as int, b as int),
            s == v@.subrange(a as int, b as int),
            d == (if s.len() > 0 && s[0] == '+' { s.drop_first() } else { s }),
            all_digits(v@.subrange(start as int, i as int)),
            acc == (if decimal(v@.subrange(start as int, i as int)) < 256 {
                decimal(v@.subrange(start as int, i as int))
            } else {
                256
            }),
        decreases b - i,
    {
        let c = v[i];
        if !('0' <= c && c <= '9') {
            assert(d[(i - start) as int] == c);
            return None;
        }
        proof {
            assert(v@.subrange(start as int, i + 1) =~= v@.subrange(start as int, i as int).push(c));
            lemma_decimal_step(v@.subrange(start as int, i as int), c);
        }
        let digit = (c as u32) - ('0' as u32);
        let next = acc * 10 + digit;
        acc = if next < 256 {
            next
        } else {
            256
        };
        i = i + 1;
    }
    assert(v@.subrange(start as int, b as int) == d);
    if acc > 255 {
        None
    } else {
        Some(acc as u8)
    }
}

proof fn lemma_split_push(s: Seq<char>, c: char)
    ensures
        split_commas(s.push(c)) == (if c == ',' {
            split_commas(s).push(Seq::<char>::empty())
        } else {
            split_commas(s).update(
                split_commas(s).len() - 1,
                split_commas(s).last().push(c),
            )
        }),
{
    assert(s.push(c).drop_last() =~= s);
}

proof fn lemma_split_nonempty(s: Seq<char>)
    ensures
        split_commas(s).len() >= 1,
    decreases s.len(),
{
    if s.len() > 0 {
        lemma_split_nonempty(s.drop_last());
    }
}

/// Parses the payer keypair string into its bytes.
pub fn parse_keypair_array(s: &str) -> (r: Result<Vec<u8>, Error>)
    ensures
        match keypair_bytes(s@) {
            Some(bytes) => r is Ok && r->Ok_0@ == bytes,
            None => r is Err && r->Err_0 is InvalidKey,
        },
{
    let chars = str_chars(s);
    let n = chars.len();
    let (lo, hi) = trim_range(&chars, 0, n);
    proof {
        assert(chars@.subrange(0, n as int) =~= s@);
    }
    let ghost t = trim(s@);
    if !(lo < hi && chars[lo] == '[') {
        return Err(Error::InvalidKey);
    }
    if !(hi - lo >= 2 && chars[hi - 1] == ']') {
        proof {
            let u = t.drop_first();
            assert(u.len() >= 1 ==> u.last() == chars@[hi - 1]);
        }
        return Err(Error::InvalidKey);
    }
    let inner_lo = lo + 1;
    let inner_hi = hi - 1;
    let ghost inner = chars@.subrange(inner_lo as int, inner_hi as int);
    proof {
        assert(t.drop_first().drop_last() =~= inner);
    }
    let mut out: Vec<u8> = Vec::new();
    let mut ok = true;
    let mut ps = inner_lo;
    let mut i = inner_lo;
    proof {
        assert(chars@.subrange(inner_lo as int, inner_lo as int) =~= Seq::<char>::empty());
        assert(split_commas(Seq::<char>::empty()).drop_last() =~= Seq::<Seq<char>>::empty());
    }
    while i < inner_hi
        invariant
            inner_lo <= ps <= i <= inner_hi < chars@.len(),
            split_commas(chars@.subrange(inner_lo as int, i as int)).len() >= 1,
            split_commas(chars@.subrange(inner_lo as int, i as int)).last() == chars@.subrange(
                ps as int,
                i as int,
            ),
            parse_pieces(split_commas(chars@.subrange(inner_lo as int, i as int)).drop_last()) == (
            if ok {
                Some(out@)
            } else {
                None::<Seq<u8>>
            }),
        decreases inner_hi - i,
    {
        let ghost pre = chars@.subrange(inner_lo as int, i as int);
        let c = chars[i];
        proof {
            assert(chars@.subrange(inner_lo as int, i + 1) =~= pre.push(c));
            lemma_split_push(pre, c);
            lemma_split_nonempty(pre);
        }
        if c == ',' {
            let (a, b) = trim_range(&chars, ps, i);
            let piece = parse_u8_range(&chars, a, b);
            proof {
                let p = split_commas(pre);
                assert(p.push(Seq::<char>::empty()).drop_last() =~= p);
                assert(p.drop_last().push(p.last()) =~= p);
                assert(p.drop_last() =~= p.drop_last());
            }
            match piece {
                Some(byte) => {
                    if ok {
                        out.push(byte);
                    }
                },
                None => {
                    ok = false;
                },
            }
            ps = i + 1;
            proof {
                assert(chars@.subrange(ps as int, i + 1) =~= Seq::<char>::empty());
            }
        } else {
            proof {
                let p = split_commas(pre);
                let q = p.update(p.len() - 1, p.last().push(c));
                assert(q.drop_last() =~= p.drop_last());
                assert(chars@.subrange(ps as int, i + 1) =~= chars@.subrange(ps as int, i as int).push(c));
            }
        }
        i = i + 1;
    }
    let (a, b) = trim_range(&chars, ps, inner_hi);
    let piece = parse_u8_range(&chars, a, b);
    proof {
        let p = split_commas(inner);
        assert(p.drop_last().push(p.last()) =~= p);
    }
    match piece {
        Some(byte) => {
            if ok {
                out.push(byte);
                return Ok(out);
            }
        },
        None => {},
    }
    Err(Error::InvalidKey)
}

} // verus!

//! The order of keys: byte strings compared lexicographically, a proper
//! prefix coming first.  This is the order in which the index hands keys
//! out and in which the on-chain program filters a scan.
use vstd::prelude::*;
use core::cmp::Ordering;

verus! {

/// `a` is lexicographically smaller than `b`, looking from position `i` on.
pub open spec fn bytes_lt_from(a: Seq<u8>, b: Seq<u8>, i: nat) -> bool
    decreases a.len() - i,
{
    if i >= a.len() {
        i < b.len()
    } else if i >= b.len() {
        false
    } else if a[i as int] < b[i as int] {
        true
    } else if a[i as int] > b[i as int] {
        false
    } else {
        bytes_lt_from(a, b, i + 1)
    }
}

/// Strict lexicographic order on byte strings (the order of `[u8]` in Rust).
pub open spec fn bytes_lt(a: Seq<u8>, b: Seq<u8>) -> bool {
    bytes_lt_from(a, b, 0)
}

pub open spec fn bytes_le(a: Seq<u8>, b: Seq<u8>) -> bool {
    a == b || bytes_lt(a, b)
}

/// `a` and `b` agree on the positions `[i, j)`.
pub open spec fn agree_on(a: Seq<u8>, b: Seq<u8>, i: int, j: int) -> bool {
    forall|t: int| i <= t < j ==> a[t] == b[t]
}

/// Positions on which the two strings agree do not decide the order.
pub proof fn lemma_lt_skip(a: Seq<u8>, b: Seq<u8>, i: nat, j: nat)
    requires
        i <= j,
        j <= a.len(),
        j <= b.len(),
        agree_on(a, b, i as int, j as int),
    ensures
        bytes_lt_from(a, b, i) == bytes_lt_from(a, b, j),
    decreases j - i,
{
    if i < j {
        lemma_lt_skip(a, b, i + 1, j);
    }
}

/// Where the strings first differ (or where one ends) decides the order.
pub proof fn lemma_lt_first_difference(a: Seq<u8>, b: Seq<u8>, j: nat)
    requires
        j <= a.len(),
        j <= b.len(),
        agree_on(a, b, 0, j as int),
    ensures
        bytes_lt(a, b) == bytes_lt_from(a, b, j),
{
    lemma_lt_skip(a, b, 0, j);
}

proof fn lemma_lt_from_irreflexive(a: Seq<u8>, i: nat)
    ensures
        !bytes_lt_from(a, a, i),
    decreases a.len() - i,
{
    if i < a.len() {
        lemma_lt_from_irreflexive(a, i + 1);
    }
}

proof fn lemma_lt_from_total(a: Seq<u8>, b: Seq<u8>, i: nat)
    requires
        i <= a.len(),
        i <= b.len(),
        agree_on(a, b, 0, i as int),
    ensures
        a == b || bytes_lt_from(a, b, i) || bytes_lt_from(b, a, i),
        !(bytes_lt_from(a, b, i) && bytes_lt_from(b, a, i)),
    decreases a.len() - i,
{
    if i < a.len() && i < b.len() && a[i as int] == b[i as int] {
        lemma_lt_from_total(a, b, i + 1);
    } else if i == a.len() && i == b.len() {
        assert(a =~= b);
    }
}

proof fn lemma_lt_from_trans(a: Seq<u8>, b: Seq<u8>, c: Seq<u8>, i: nat)
    requires
        bytes_lt_from(a, b, i),
        bytes_lt_from(b, c, i),
    ensures
        bytes_lt_from(a, c, i),
    decreases a.len() - i,
{
    if i < a.len() && i < b.len() && i < c.len() && a[i as int] == b[i as int] && b[i as int]
        == c[i as int] {
        lemma_lt_from_trans(a, b, c, i + 1);
    }
}

/// The key order is a strict total order.
pub proof fn lemma_lt_strict_total(a: Seq<u8>, b: Seq<u8>)
    ensures
        !bytes_lt(a, a),
        a == b || bytes_lt(a, b) || bytes_lt(b, a),
        !(bytes_lt(a, b) && bytes_lt(b, a)),
{
    lemma_lt_from_irreflexive(a, 0);
    lemma_lt_from_total(a, b, 0);
}

pub proof fn lemma_lt_trans(a: Seq<u8>, b: Seq<u8>, c: Seq<u8>)
    requires
        bytes_lt(a, b),
        bytes_lt(b, c),
    ensures
        bytes_lt(a, c),
{
    lemma_lt_from_trans(a, b, c, 0);
}

/// A proper prefix is smaller; a string is never smaller than its prefix.
pub proof fn lemma_prefix_le(p: Seq<u8>, k: Seq<u8>)
    requires
        p.is_prefix_of(k),
    ensures
        bytes_le(p, k),
        !bytes_lt(k, p),
{
    lemma_lt_first_difference(p, k, p.len());
    lemma_lt_first_difference(k, p, p.len());
    if p.len() == k.len() {
        assert(p =~= k);
    }
}

/// Three-way comparison of two byte strings: -1, 0 or 1.
pub fn compare_bytes(a: &[u8], b: &[u8]) -> (r: i8)
    ensures
        r == -1 <==> bytes_lt(a@, b@),
        r == 0 <==> a@ == b@,
        r == 1 <==> bytes_lt(b@, a@),
        r == -1 || r == 0 || r == 1,
{
    proof {
        lemma_lt_strict_total(a@, b@);
    }
    let mut i: usize = 0;
    while i < a.len() && i < b.len()
        invariant
            i <= a@.len(),
            i <= b@.len(),
            agree_on(a@, b@, 0, i as int),
        ensures
            i <= a@.len(),
            i <= b@.len(),
            agree_on(a@, b@, 0, i as int),
            i < a@.len() && i < b@.len() ==> a@[i as int] != b@[i as int],
        decreases a.len() - i,
    {
        if a[i] != b[i] {
            break;
        }
        i = i + 1;
    }
    proof {
        lemma_lt_first_difference(a@, b@, i as nat);
        lemma_lt_first_difference(b@, a@, i as nat);
    }
    if i < a.len() && i < b.len() {
        if a[i] < b[i] {
            -1
        } else {
            1
        }
    } else if i < b.len() {
        -1
    } else if i < a.len() {
        1
    } else {
        assert(a@ =~= b@);
        0
    }
}

/// Compares two keys in the order of the index.
pub fn key_cmp(a: &[u8], b: &[u8]) -> (r: Ordering)
    ensures
        (r == Ordering::Less) <==> bytes_lt(a@, b@),
        (r == Ordering::Equal) <==> a@ == b@,
        (r == Ordering::Greater) <==> bytes_lt(b@, a@),
{
    let c = compare_bytes(a, b);
    if c < 0 {
        Ordering::Less
    } else if c == 0 {
        Ordering::Equal
    } else {
        Ordering::Greater
    }
}

} // verus!

//! Seeds of the program's accounts, reserved keys and size limits, shared
//! with the on-chain program.
use vstd::prelude::*;

verus! {

/// Longest key accepted, in bytes.
pub const MAX_KEY_LENGTH: usize = 256;

/// Longest value accepted, in bytes.
pub const MAX_VALUE_LENGTH: usize = 2048;

/// `b"meta"`.
pub open spec fn meta_seed() -> Seq<u8> {
    seq![109u8, 101u8, 116u8, 97u8]
}

/// `b"head"`.
pub open spec fn head_seed() -> Seq<u8> {
    seq![104u8, 101u8, 97u8, 100u8]
}

/// `b"auth"`.
pub open spec fn auth_seed() -> Seq<u8> {
    seq![97u8, 117u8, 116u8, 104u8]
}

/// `b"fee"`.
pub open spec fn fee_seed() -> Seq<u8> {
    seq![102u8, 101u8, 101u8]
}

/// `b"value"`.
pub open spec fn value_seed() -> Seq<u8> {
    seq![118u8, 97u8, 108u8, 117u8, 101u8]
}

/// `b"counter"`.
pub open spec fn counter_seed() -> Seq<u8> {
    seq![99u8, 111u8, 117u8, 110u8, 116u8, 101u8, 114u8]
}

/// `b"sys_paused"`: the reserved key under which the pause flag is kept.
pub open spec fn sys_paused() -> Seq<u8> {
    seq![115u8, 121u8, 115u8, 95u8, 112u8, 97u8, 117u8, 115u8, 101u8, 100u8]
}

/// `b"sys_base_fee"`: the reserved key under which the fee settings are kept.
pub open spec fn sys_base_fee() -> Seq<u8> {
    seq![115u8, 121u8, 115u8, 95u8, 98u8, 97u8, 115u8, 101u8, 95u8, 102u8, 101u8, 101u8]
}

/// A key that the store keeps for itself.
pub open spec fn is_system_key(k: Seq<u8>) -> bool {
    k == sys_paused() || k == sys_base_fee()
}

pub fn meta_seeds() -> (r: Vec<u8>)
    ensures
        r@ == meta_seed(),
{
    let r = vec![109u8, 101u8, 116u8, 97u8];
    assert(r@ =~= meta_seed());
    r
}

pub fn head_seeds() -> (r: Vec<u8>)
    ensures
        r@ == head_seed(),
{
    let r = vec![104u8, 101u8, 97u8, 100u8];
    assert(r@ =~= head_seed());
    r
}

pub fn auth_seeds() -> (r: Vec<u8>)
    ensures
        r@ == auth_seed(),
{
    let r = vec![97u8, 117u8, 116u8, 104u8];
    assert(r@ =~= auth_seed());
    r
}

pub fn fee_seeds() -> (r: Vec<u8>)
    ensures
        r@ == fee_seed(),
{
    let r = vec![102u8, 101u8, 101u8];
    assert(r@ =~= fee_seed());
    r
}

pub fn value_seeds() -> (r: Vec<u8>)
    ensures
        r@ == value_seed(),
{
    let r = vec![118u8, 97u8, 108u8, 117u8, 101u8];
    assert(r@ =~= value_seed());
    r
}

pub fn counter_seeds() -> (r: Vec<u8>)
    ensures
        r@ == counter_seed(),
{
    let r = vec![99u8, 111u8, 117u8, 110u8, 116u8, 101u8, 114u8];
    assert(r@ =~= counter_seed());
    r
}

pub fn sys_paused_key() -> (r: Vec<u8>)
    ensures
        r@ == sys_paused(),
{
    let r = vec![115u8, 121u8, 115u8, 95u8, 112u8, 97u8, 117u8, 115u8, 101u8, 100u8];
    assert(r@ =~= sys_paused());
    r
}

pub fn sys_base_fee_key() -> (r: Vec<u8>)
    ensures
        r@ == sys_base_fee(),
{
    let r = vec![115u8, 121u8, 115u8, 95u8, 98u8, 97u8, 115u8, 101u8, 95u8, 102u8, 101u8, 101u8];
    assert(r@ =~= sys_base_fee());
    r
}

/// Two byte strings are equal.
pub fn bytes_equal(a: &[u8], b: &[u8]) -> (r: bool)
    ensures
        r == (a@ == b@),
{
    if a.len() != b.len() {
        return false;
    }
    let mut i: usize = 0;
    while i < a.len()
        invariant
            a@.len() == b@.len(),
            i <= a@.len(),
            forall|j: int| 0 <= j < i ==> a@[j] == b@[j],
        decreases a.len() - i,
    {
        if a[i] != b[i] {
            return false;
        }
        i = i + 1;
    }
    assert(a@ =~= b@);
    true
}

/// The key is one the store keeps for itself.
pub fn is_system_key_exec(k: &[u8]) -> (r: bool)
    ensures
        r == is_system_key(k@),
{
    let p = sys_paused_key();
    let f = sys_base_fee_key();
    bytes_equal(k, p.as_slice()) || bytes_equal(k, f.as_slice())
}

} // verus!

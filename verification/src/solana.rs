//! The Solana computations the back end needs: program-derived account
//! addresses, the text form of an address, and the Keccak hash.
use vstd::prelude::*;
use solana_program::pubkey::Pubkey;

verus! {

/// The base-58 text of a 32-byte address, as `Pubkey`'s `Display` writes it.
pub uninterp spec fn pubkey_text(bytes: Seq<u8>) -> Seq<char>;

/// The program-derived address of `seeds` under `program_id`, with its bump
/// seed, as `Pubkey::try_find_program_address` finds it.
pub uninterp spec fn program_address(seeds: Seq<Seq<u8>>, program_id: Seq<u8>) -> Option<(Seq<u8>, u8)>;

/// The Keccak-256 hash of the bytes, as `solana_program::keccak::hashv`
/// computes it for a single slice.
pub uninterp spec fn keccak256(data: Seq<u8>) -> Seq<u8>;

/// The views of a list of byte strings.
pub open spec fn seqs_of(v: Seq<Vec<u8>>) -> Seq<Seq<u8>> {
    v.map_values(|s: Vec<u8>| s@)
}

/// `Pubkey::to_string`: the base-58 text of an address.  The contract
/// names the result; it claims nothing about the encoding itself.
#[verifier::external_body]
pub(crate) fn pubkey_to_string(bytes: [u8; 32]) -> (r: String)
    ensures
        r@ == pubkey_text(bytes@),
{
    Pubkey::new_from_array(bytes).to_string()
}

/// `Pubkey::try_find_program_address`: the first bump seed, counting down
/// from 255, whose derived address is off the curve.  The contract names
/// the result as a function of the seeds and the program id.
#[verifier::external_body]
pub(crate) fn find_program_address(seeds: &Vec<Vec<u8>>, program_id: [u8; 32]) -> (r: Option<([u8; 32], u8)>)
    ensures
        match r {
            Some((addr, bump)) => program_address(seqs_of(seeds@), program_id@) == Some((addr@, bump)),
            None => program_address(seqs_of(seeds@), program_id@) is None,
        },
{
    let refs: Vec<&[u8]> = seeds.iter().map(|s| s.as_slice()).collect();
    match Pubkey::try_find_program_address(&refs, &Pubkey::new_from_array(program_id)) {
        Some((addr, bump)) => Some((addr.to_bytes(), bump)),
        None => None,
    }
}

/// `keccak::hashv(&[data])`: the Keccak-256 hash of the bytes.  The
/// contract names the result and says it is 32 bytes long.
#[verifier::external_body]
pub(crate) fn keccak_hash(data: &[u8]) -> (r: [u8; 32])
    ensures
        r@ == keccak256(data@),
{
    solana_program::keccak::hashv(&[data]).to_bytes()
}

/// The 32 bytes whose base-58 text this is, as `Pubkey::from_str` reads
/// it, if it is one.
pub uninterp spec fn pubkey_parse(text: Seq<char>) -> Option<Seq<u8>>;

/// `Pubkey::from_str`: the address written in base 58, or the parse
/// error's text.  The contract names the result; the error's text is not
/// stated.
#[verifier::external_body]
pub(crate) fn parse_pubkey(text: &str) -> (r: Result<[u8; 32], String>)
    ensures
        match pubkey_parse(text@) {
            Some(b) => r is Ok && r->Ok_0@ == b,
            None => r is Err,
        },
{
    match <Pubkey as std::str::FromStr>::from_str(text) {
        Ok(p) => Ok(p.to_bytes()),
        Err(e) => Err(e.to_string()),
    }
}

} // verus!

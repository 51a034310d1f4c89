//! The hash primitive: SHA-256 over byte sequences, and the fixed-width
//! big-endian encoding of a balance that feeds the leaf hashes.

use vstd::prelude::*;

verus! {

/// The SHA-256 digest of a byte sequence. The digest is a function of the
/// input bytes alone, so it is given a name here rather than a definition;
/// every contract that mentions a digest speaks through this name.
pub uninterp spec fn sha256_of(bytes: Seq<u8>) -> Seq<u8>;

/// Relies on `sha2::Sha256` through `digest::Digest::digest`: one SHA-256
/// digest of the input bytes, 32 bytes long, deterministic in the input.
#[verifier::external_body]
pub(crate) fn sha256(bytes: &[u8]) -> (r: [u8; 32])
    ensures
        r@ == sha256_of(bytes@),
{
    let d = <sha2::Sha256 as sha2::Digest>::digest(bytes);
    d.into()
}

/// The fixed-width big-endian encoding of a balance: always exactly 8 bytes,
/// most significant first, so no two balances share an encoding and no
/// concatenation of encodings is ambiguous.
pub open spec fn u64_be_bytes(v: u64) -> Seq<u8> {
    seq![
        ((v >> 56) & 0xff) as u8,
        ((v >> 48) & 0xff) as u8,
        ((v >> 40) & 0xff) as u8,
        ((v >> 32) & 0xff) as u8,
        ((v >> 24) & 0xff) as u8,
        ((v >> 16) & 0xff) as u8,
        ((v >> 8) & 0xff) as u8,
        (v & 0xff) as u8,
    ]
}

/// Encode a balance as its fixed-width big-endian byte string.
pub fn u64_to_be_bytes(v: u64) -> (r: Vec<u8>)
    ensures
        r@ == u64_be_bytes(v),
{
    assert(((v >> 56) & 0xff) <= 0xff) by (bit_vector);
    assert(((v >> 48) & 0xff) <= 0xff) by (bit_vector);
    assert(((v >> 40) & 0xff) <= 0xff) by (bit_vector);
    assert(((v >> 32) & 0xff) <= 0xff) by (bit_vector);
    assert(((v >> 24) & 0xff) <= 0xff) by (bit_vector);
    assert(((v >> 16) & 0xff) <= 0xff) by (bit_vector);
    assert(((v >> 8) & 0xff) <= 0xff) by (bit_vector);
    assert((v & 0xff) <= 0xff) by (bit_vector);
    let mut r: Vec<u8> = Vec::new();
    r.push(((v >> 56) & 0xff) as u8);
    r.push(((v >> 48) & 0xff) as u8);
    r.push(((v >> 40) & 0xff) as u8);
    r.push(((v >> 32) & 0xff) as u8);
    r.push(((v >> 24) & 0xff) as u8);
    r.push(((v >> 16) & 0xff) as u8);
    r.push(((v >> 8) & 0xff) as u8);
    r.push((v & 0xff) as u8);
    proof {
        assert(r@ =~= u64_be_bytes(v));
    }
    r
}

} // verus!

//! FNV-style hashing of byte strings.
use vstd::prelude::*;
use vstd::string::StringSliceAdditionalSpecFns;

verus! {

/// Offset basis of the 128-bit FNV family.
pub const FNV_OFFSET_BASIS_128: u128 = 0x6c62272e07bb014262b821756295c58d;

/// The 64-bit FNV prime, used by [`fnv`] together with the 128-bit offset basis.
pub const FNV_PRIME_64: u128 = 0x00000100000001b3;

/// FNV-1a over `data` with the given offset basis and prime: for every byte,
/// xor it into the state, then multiply by the prime modulo 2^128.
pub open spec fn fnv1a_fold(offset: u128, prime: u128, data: Seq<u8>) -> u128
    decreases data.len(),
{
    if data.len() == 0 {
        offset
    } else {
        let h = fnv1a_fold(offset, prime, data.drop_last());
        (h ^ (data.last() as u128)).wrapping_mul(prime)
    }
}

/// The big-endian bytes of a 128-bit value: byte `i` is bits `8 * (15 - i)` and up.
pub open spec fn be_bytes_128(v: u128) -> Seq<u8> {
    Seq::new(16, |i: int| ((v >> ((8 * (15 - i)) as u128)) & 0xff) as u8)
}

/// The digest that [`fnv`] returns for `data`.
pub open spec fn fnv_spec(data: Seq<u8>) -> Seq<u8> {
    be_bytes_128(fnv1a_fold(FNV_OFFSET_BASIS_128, FNV_PRIME_64, data))
}

/// FNV hash function (custom 128-bit variant with 64-bit prime), as big-endian bytes.
pub fn fnv(data: &[u8]) -> (out: [u8; 16])
    ensures
        out@ == fnv_spec(data@),
{
    let mut hash: u128 = FNV_OFFSET_BASIS_128;
    let n = data.len();
    let mut i: usize = 0;
    while i < n
        invariant
            n == data@.len(),
            i <= n,
            hash == fnv1a_fold(FNV_OFFSET_BASIS_128, FNV_PRIME_64, data@.subrange(0, i as int)),
        decreases n - i,
    {
        let byte = data[i];
        assert(data@.subrange(0, (i + 1) as int).drop_last() =~= data@.subrange(0, i as int));
        hash = hash ^ (byte as u128);
        hash = hash.wrapping_mul(FNV_PRIME_64);
        i = i + 1;
    }
    assert(data@.subrange(0, n as int) =~= data@);
    u128_to_be_bytes(hash)
}

/// The sixteen big-endian bytes of `v`.
pub fn u128_to_be_bytes(v: u128) -> (out: [u8; 16])
    ensures
        out@ == be_bytes_128(v),
{
    let mut out = [0u8; 16];
    let mut i: usize = 0;
    while i < 16
        invariant
            i <= 16,
            out@.len() == 16,
            forall|j: int| 0 <= j < i ==> out@[j] == be_bytes_128(v)[j],
        decreases 16 - i,
    {
        let shift: u128 = (8 * (15 - i)) as u128;
        out[i] = ((v >> shift) & 0xff) as u8;
        i = i + 1;
    }
    assert(out@ =~= be_bytes_128(v));
    out
}

/// Prime of the 128-bit FNV family.
pub const FNV_PRIME_128: u128 = 0x0000000001000000000000000000013B;

/// `const_fnv1a_hash::fnv1a_hash_128` with no limit. The crate computes FNV-1a
/// with the 128-bit offset basis and prime over the whole slice; the contract
/// states exactly that fold.
#[verifier::external_body]
fn fnv1a_hash_128(bytes: &[u8]) -> (h: u128)
    ensures
        h == fnv1a_fold(FNV_OFFSET_BASIS_128, FNV_PRIME_128, bytes@),
{
    const_fnv1a_hash::fnv1a_hash_128(bytes, None)
}

/// The key that a string name such as `named("db_url")` stands for: the
/// 128-bit FNV-1a hash of its UTF-8 bytes.
pub fn string_key(name: &str) -> (h: u128)
    ensures
        h == fnv1a_fold(FNV_OFFSET_BASIS_128, FNV_PRIME_128, name.spec_bytes()),
{
    fnv1a_hash_128(name.as_bytes())
}

} // verus!

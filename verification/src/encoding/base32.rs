//! Unpadded base32 (RFC 4648 alphabet `A`-`Z`, `2`-`7`).
use vstd::prelude::*;

verus! {

/// Bit `i` of `s`, reading each byte from its most significant bit; zero past the end.
pub open spec fn bit_at(s: Seq<u8>, i: int) -> u8 {
    if 0 <= i < 8 * s.len() {
        (s[i / 8] >> ((7 - i % 8) as u8)) & 1
    } else {
        0
    }
}

/// The 5-bit value of symbol `j`: bits `5j` to `5j + 4` of `s`.
pub open spec fn quintet(s: Seq<u8>, j: int) -> int {
    16 * bit_at(s, 5 * j) + 8 * bit_at(s, 5 * j + 1) + 4 * bit_at(s, 5 * j + 2) + 2 * bit_at(
        s,
        5 * j + 3,
    ) + bit_at(s, 5 * j + 4)
}

/// The base32 symbol for a 5-bit value.
pub open spec fn base32_symbol(v: int) -> u8 {
    if v < 26 {
        (v + 65) as u8
    } else {
        (v - 26 + 50) as u8
    }
}

/// Unpadded base32 of `s`: one symbol per 5 bits, the last one completed with zero bits.
pub open spec fn base32_nopad_spec(s: Seq<u8>) -> Seq<u8> {
    Seq::new((8 * s.len() + 4) / 5, |j: int| base32_symbol(quintet(s, j)))
}

/// `data_encoding::BASE32_NOPAD.encode`, as bytes. The crate implements RFC 4648
/// base32 with the alphabet `A`-`Z`, `2`-`7`, most significant bit first, no
/// padding; its length computation panics above `usize::MAX / 512` input bytes.
/// The contract states that format.
#[verifier::external_body]
fn base32_nopad_encode(input: &[u8]) -> (out: Vec<u8>)
    requires
        input@.len() <= usize::MAX / 512,
    ensures
        out@ == base32_nopad_spec(input@),
{
    data_encoding::BASE32_NOPAD.encode(input).into_bytes()
}

/// Encodes `input` as unpadded base32.
pub fn encode(input: &[u8]) -> (out: Vec<u8>)
    requires
        input@.len() <= usize::MAX / 512,
    ensures
        out@ == base32_nopad_spec(input@),
        out@.len() == (8 * input@.len() + 4) / 5,
{
    base32_nopad_encode(input)
}

} // verus!

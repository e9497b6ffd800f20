//! Compact three-character rendering of entity codes.
//!
//! A code is a `u16`; its two little-endian bytes are encoded with the
//! standard base-64 alphabet, no padding, which yields exactly three
//! output bytes.  The encoding is precomputed once per run into a cache
//! indexed by code.

use vstd::prelude::*;

verus! {

/// The standard base-64 alphabet: the character for one six-bit value.
pub open spec fn b64_char(v: int) -> u8 {
    if 0 <= v < 26 {
        (65 + v) as u8  // 'A'..'Z'
    } else if 26 <= v < 52 {
        (97 + v - 26) as u8  // 'a'..'z'
    } else if 52 <= v < 62 {
        (48 + v - 52) as u8  // '0'..'9'
    } else if v == 62 {
        43u8  // '+'
    } else {
        47u8  // '/'
    }
}

/// The three-byte token of a code: base-64 over its two little-endian bytes.
pub open spec fn encode3(code: u16) -> Seq<u8> {
    let lo = code as int % 256;
    let hi = code as int / 256;
    seq![
        b64_char(lo / 4),
        b64_char((lo % 4) * 16 + hi / 16),
        b64_char((hi % 16) * 4),
    ]
}

/// Alphabet characters are printable and are never a space, newline or comma.
pub proof fn lemma_b64_char_plain(v: int)
    ensures
        b64_char(v) != 32,
        b64_char(v) != 10,
        b64_char(v) != 44,
        b64_char(v) >= 43,
{
}

/// Relies on `base64::encode_config_slice` with `base64::STANDARD_NO_PAD`:
/// a two-byte input is encoded as three alphabet characters holding, in
/// order, the six-bit groups `b0[7..2]`, `b0[1..0] ++ b1[7..4]`,
/// `b1[3..0] ++ 00`, over the standard alphabet `A-Z a-z 0-9 + /`.
#[verifier::external_body]
fn b64_triple(lo: u8, hi: u8) -> (r: [u8; 3])
    ensures
        r@ =~= seq![
            b64_char(lo as int / 4),
            b64_char((lo as int % 4) * 16 + hi as int / 16),
            b64_char((hi as int % 16) * 4),
        ],
{
    let mut buf = [0u8; 3];
    base64::encode_config_slice(&[lo, hi], base64::STANDARD_NO_PAD, &mut buf);
    buf
}

/// The three-byte token of `code`.
pub fn encode_code(code: u16) -> (r: [u8; 3])
    ensures
        r@ == encode3(code),
{
    let lo = (code % 256) as u8;
    let hi = (code / 256) as u8;
    b64_triple(lo, hi)
}

} // verus!

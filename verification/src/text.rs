//! How numbers read in messages: decimal, and fixed-width lower-case hex.

use vstd::prelude::*;

verus! {

/// The digit for `d` (0 to 15): `0`-`9`, then `a`-`f`.
pub open spec fn digit_char(d: nat) -> char {
    if d < 10 {
        (48 + d) as char
    } else {
        (87 + d) as char
    }
}

/// `n` written in decimal, without leading zeros.
pub open spec fn decimal(n: nat) -> Seq<char>
    decreases n,
{
    if n < 10 {
        seq![digit_char(n)]
    } else {
        decimal(n / 10).push(digit_char(n % 10))
    }
}

/// The last `width` hex digits of `n`, lower case, zero-padded.
pub open spec fn hex_fixed(n: nat, width: nat) -> Seq<char>
    decreases width,
{
    if width == 0 {
        Seq::empty()
    } else {
        hex_fixed(n / 16, (width - 1) as nat).push(digit_char(n % 16))
    }
}

/// The bytes of an ASCII text.
pub open spec fn ascii_bytes(s: Seq<char>) -> Seq<u8> {
    s.map_values(|c: char| c as u8)
}

/// Bytes as lower-case hex, two digits each.
pub open spec fn hex_lower(s: Seq<u8>) -> Seq<char>
    decreases s.len(),
{
    if s.len() == 0 {
        Seq::empty()
    } else {
        hex_lower(s.drop_last()) + seq![digit_char(s.last() as nat / 16), digit_char(s.last() as nat % 16)]
    }
}

/// A 32-bit value as `0x` and eight hex digits.
pub open spec fn hex32(n: u32) -> Seq<char> {
    "0x"@ + hex_fixed(n as nat, 8)
}

} // verus!

//! CRC32 integrity verification.
//!
//! Uses the standard IEEE polynomial (same as zlib, Ethernet), processed
//! in its reflected form with a 256-entry lookup table.

use vstd::prelude::*;

verus! {

/// The reflected IEEE polynomial.
pub const CRC32_POLY: u32 = 0xEDB8_8320;

/// One bit of the reflected CRC register update.
pub open spec fn crc_bit_step(c: u32) -> u32 {
    if c & 1 != 0 {
        CRC32_POLY ^ (c >> 1u32)
    } else {
        c >> 1u32
    }
}

/// Eight bit steps: the register update for one byte already XORed in.
pub open spec fn crc_byte_steps(c: u32) -> u32 {
    crc_bit_step(
        crc_bit_step(
            crc_bit_step(
                crc_bit_step(crc_bit_step(crc_bit_step(crc_bit_step(crc_bit_step(c))))),
            ),
        ),
    )
}

/// `n` bit steps.
pub open spec fn crc_bit_steps(c: u32, n: nat) -> u32
    decreases n,
{
    if n == 0 {
        c
    } else {
        crc_bit_step(crc_bit_steps(c, (n - 1) as nat))
    }
}

/// The CRC register after feeding `data` to the initial register 0xFFFFFFFF.
pub open spec fn crc_register(data: Seq<u8>) -> u32
    decreases data.len(),
{
    if data.len() == 0 {
        0xFFFF_FFFF
    } else {
        crc_byte_steps(crc_register(data.drop_last()) ^ (data.last() as u32))
    }
}

/// The IEEE CRC32 of `data`.
pub open spec fn crc32_spec(data: Seq<u8>) -> u32 {
    crc_register(data) ^ 0xFFFF_FFFF
}

pub(crate) proof fn lemma_bit_steps_8(c: u32)
    ensures
        crc_bit_steps(c, 8) == crc_byte_steps(c),
{
    reveal_with_fuel(crc_bit_steps, 9);
}

/// The byte update splits into a table lookup on the low byte and a shift.
proof fn lemma_table_split(c: u32, b: u8)
    ensures
        crc_byte_steps(c ^ (b as u32)) == crc_byte_steps((c ^ (b as u32)) & 0xff) ^ (c >> 8u32),
{
    assert(crc_byte_steps(c ^ (b as u32)) == crc_byte_steps((c ^ (b as u32)) & 0xff) ^ (c >> 8u32))
        by (bit_vector);
}

/// The 256-entry table: entry `i` is the byte update of `i`.
fn crc_table() -> (t: Vec<u32>)
    ensures
        t@.len() == 256,
        forall|i: int| 0 <= i < 256 ==> t@[i] == crc_byte_steps(i as u32),
{
    let mut t: Vec<u32> = Vec::new();
    let mut i: u32 = 0;
    while i < 256
        invariant
            i <= 256,
            t@.len() == i,
            forall|j: int| 0 <= j < i ==> t@[j] == crc_byte_steps(j as u32),
        decreases 256 - i,
    {
        let mut c = i;
        let mut k: u32 = 0;
        while k < 8
            invariant
                k <= 8,
                c == crc_bit_steps(i, k as nat),
            decreases 8 - k,
        {
            if c & 1 != 0 {
                c = 0xEDB8_8320 ^ (c >> 1);
            } else {
                c = c >> 1;
            }
            k = k + 1;
        }
        proof {
            lemma_bit_steps_8(i);
        }
        t.push(c);
        i = i + 1;
    }
    t
}

/// Compute the IEEE CRC32 of a byte slice with a lookup table.
pub fn crc32(data: &[u8]) -> (r: u32)
    ensures
        r == crc32_spec(data@),
{
    let table = crc_table();
    let mut crc: u32 = 0xFFFF_FFFF;
    let mut i: usize = 0;
    while i < data.len()
        invariant
            i <= data@.len(),
            table@.len() == 256,
            forall|j: int| 0 <= j < 256 ==> table@[j] == crc_byte_steps(j as u32),
            crc == crc_register(data@.subrange(0, i as int)),
        decreases data@.len() - i,
    {
        let byte = data[i];
        let idx = ((crc ^ byte as u32) & 0xFF) as usize;
        proof {
            lemma_table_split(crc, byte);
            assert((crc ^ byte as u32) & 0xFF < 256) by (bit_vector);
            let s = data@.subrange(0, i + 1);
            assert(s.drop_last() =~= data@.subrange(0, i as int));
        }
        crc = table[idx] ^ (crc >> 8);
        i = i + 1;
    }
    proof {
        assert(data@.subrange(0, i as int) =~= data@);
    }
    crc ^ 0xFFFF_FFFF
}

} // verus!

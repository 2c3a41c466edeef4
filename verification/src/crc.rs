//! The checksum of Ogg pages: CRC-32 with polynomial `0x04C11DB7`, most
//! significant bit first, initial value zero and no final inversion.

use vstd::prelude::*;

verus! {

/// The generator polynomial, without its leading term.
pub const POLYNOMIAL: u32 = 0x04C1_1DB7;

/// One step of the shift register: shift out the top bit and, if it was
/// set, subtract the polynomial.
pub open spec fn shift_one(reg: u32) -> u32 {
    if reg & 0x8000_0000 != 0 {
        (reg << 1) ^ POLYNOMIAL
    } else {
        reg << 1
    }
}

/// `k` steps of the shift register.
pub open spec fn shift_many(reg: u32, k: nat) -> u32
    decreases k,
{
    if k == 0 {
        reg
    } else {
        shift_one(shift_many(reg, (k - 1) as nat))
    }
}

/// The register after one more message byte.
pub open spec fn crc_step(reg: u32, byte: u8) -> u32 {
    shift_many(reg ^ ((byte as u32) << 24), 8)
}

/// The checksum of a whole message.
pub open spec fn crc_of(msg: Seq<u8>) -> u32
    decreases msg.len(),
{
    if msg.len() == 0 {
        0
    } else {
        crc_step(crc_of(msg.drop_last()), msg.last())
    }
}

/// The checksum of a message that is one byte longer.
pub proof fn lemma_crc_push(msg: Seq<u8>, byte: u8)
    ensures
        crc_of(msg.push(byte)) == crc_step(crc_of(msg), byte),
{
    assert(msg.push(byte).drop_last() =~= msg);
}

/// Feeds one byte into the register.
pub fn crc32(reg: &mut u32, byte: u8)
    ensures
        *final(reg) == crc_step(*old(reg), byte),
{
    let mut r: u32 = *reg ^ ((byte as u32) << 24);
    let mut k: u8 = 0;
    while k < 8
        invariant
            k <= 8,
            r == shift_many(*old(reg) ^ ((byte as u32) << 24), k as nat),
        decreases 8 - k,
    {
        if r & 0x8000_0000 != 0 {
            r = (r << 1) ^ POLYNOMIAL;
        } else {
            r = r << 1;
        }
        k = k + 1;
    }
    *reg = r;
}

} // verus!

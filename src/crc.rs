//! The CRC-32 that guards each Ogg page: polynomial 0x04C11DB7, initial value
//! zero, no reflection of input or output and no final xor.
use vstd::prelude::*;

verus! {

/// The generator polynomial of the page checksum.
pub const CRC_POLY: u32 = 0x04C1_1DB7;

/// One shift of the register, feeding back the polynomial when the top bit
/// falls out.
pub open spec fn crc_shift(c: u32) -> u32 {
    if c & 0x8000_0000u32 != 0 {
        (c << 1u32) ^ CRC_POLY
    } else {
        c << 1u32
    }
}

/// `crc_shift` applied `n` times.
pub open spec fn crc_shifts(c: u32, n: nat) -> u32
    decreases n,
{
    if n == 0 {
        c
    } else {
        crc_shifts(crc_shift(c), (n - 1) as nat)
    }
}

/// The register after one more byte has entered it, most significant bit
/// first.
pub open spec fn crc_update(c: u32, b: u8) -> u32 {
    crc_shifts(c ^ ((b as u32) << 24u32), 8)
}

/// The checksum of a byte sequence.
pub open spec fn crc_of(s: Seq<u8>) -> u32
    decreases s.len(),
{
    if s.len() == 0 {
        0
    } else {
        crc_update(crc_of(s.drop_last()), s.last())
    }
}

fn shift_register(c: u32) -> (r: u32)
    ensures
        r == crc_shift(c),
{
    if c & 0x8000_0000u32 != 0 {
        (c << 1u32) ^ CRC_POLY
    } else {
        c << 1u32
    }
}

fn update_register(c: u32, b: u8) -> (r: u32)
    ensures
        r == crc_update(c, b),
{
    let mut r: u32 = c ^ ((b as u32) << 24u32);
    let mut k: u32 = 0;
    while k < 8
        invariant
            k <= 8,
            crc_shifts(r, (8 - k) as nat) == crc_update(c, b),
        decreases 8 - k,
    {
        r = shift_register(r);
        k = k + 1;
    }
    r
}

/// Computes the page checksum of `data`.
pub fn crc32(data: &[u8]) -> (r: u32)
    ensures
        r == crc_of(data@),
{
    let mut c: u32 = 0;
    let mut i: usize = 0;
    while i < data.len()
        invariant
            i <= data@.len(),
            c == crc_of(data@.take(i as int)),
        decreases data@.len() - i,
    {
        proof {
            assert(data@.take(i as int + 1).drop_last() =~= data@.take(i as int));
        }
        c = update_register(c, data[i]);
        i = i + 1;
    }
    proof {
        assert(data@.take(i as int) =~= data@);
    }
    c
}

} // verus!

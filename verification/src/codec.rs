//! Endian-aware readers for the fixed-width integers of the on-disk layout.

use crate::bbi::Endianness;
use vstd::prelude::*;

verus! {

/// The 16-bit integer that bytes `i..i + 2` of `d` hold in byte order `e`.
pub open spec fn spec_u16_at(d: Seq<u8>, i: int, e: Endianness) -> u16 {
    match e {
        Endianness::Big => (d[i] as int * 0x100 + d[i + 1] as int) as u16,
        Endianness::Little => (d[i + 1] as int * 0x100 + d[i] as int) as u16,
    }
}

/// The 32-bit integer that bytes `i..i + 4` of `d` hold in byte order `e`.
pub open spec fn spec_u32_at(d: Seq<u8>, i: int, e: Endianness) -> u32 {
    match e {
        Endianness::Big => (d[i] as int * 0x100_0000 + d[i + 1] as int * 0x1_0000 + d[i + 2] as int
            * 0x100 + d[i + 3] as int) as u32,
        Endianness::Little => (d[i + 3] as int * 0x100_0000 + d[i + 2] as int * 0x1_0000 + d[i
            + 1] as int * 0x100 + d[i] as int) as u32,
    }
}

/// The 64-bit integer that bytes `i..i + 8` of `d` hold in byte order `e`.
pub open spec fn spec_u64_at(d: Seq<u8>, i: int, e: Endianness) -> u64 {
    match e {
        Endianness::Big => (spec_u32_at(d, i, e) as int * 0x1_0000_0000 + spec_u32_at(
            d,
            i + 4,
            e,
        ) as int) as u64,
        Endianness::Little => (spec_u32_at(d, i + 4, e) as int * 0x1_0000_0000 + spec_u32_at(
            d,
            i,
            e,
        ) as int) as u64,
    }
}

/// Reads the 16-bit integer at offset `i` in byte order `e`.
pub fn read_u16(d: &Vec<u8>, i: usize, e: Endianness) -> (r: u16)
    requires
        i + 2 <= d@.len(),
    ensures
        r == spec_u16_at(d@, i as int, e),
{
    let dl = d.len();
    match e {
        Endianness::Big => (d[i] as u16) * 0x100 + (d[i + 1] as u16),
        Endianness::Little => (d[i + 1] as u16) * 0x100 + (d[i] as u16),
    }
}

/// Reads the 32-bit integer at offset `i` in byte order `e`.
pub fn read_u32(d: &Vec<u8>, i: usize, e: Endianness) -> (r: u32)
    requires
        i + 4 <= d@.len(),
    ensures
        r == spec_u32_at(d@, i as int, e),
{
    let dl = d.len();
    match e {
        Endianness::Big => (d[i] as u32) * 0x100_0000 + (d[i + 1] as u32) * 0x1_0000 + (d[i
            + 2] as u32) * 0x100 + (d[i + 3] as u32),
        Endianness::Little => (d[i + 3] as u32) * 0x100_0000 + (d[i + 2] as u32) * 0x1_0000 + (d[i
            + 1] as u32) * 0x100 + (d[i] as u32),
    }
}

/// Reads the 64-bit integer at offset `i` in byte order `e`.
pub fn read_u64(d: &Vec<u8>, i: usize, e: Endianness) -> (r: u64)
    requires
        i + 8 <= d@.len(),
    ensures
        r == spec_u64_at(d@, i as int, e),
{
    let dl = d.len();
    match e {
        Endianness::Big => {
            let hi = read_u32(d, i, e);
            let lo = read_u32(d, i + 4, e);
            (hi as u64) * 0x1_0000_0000 + (lo as u64)
        },
        Endianness::Little => {
            let lo = read_u32(d, i, e);
            let hi = read_u32(d, i + 4, e);
            (hi as u64) * 0x1_0000_0000 + (lo as u64)
        },
    }
}

} // verus!

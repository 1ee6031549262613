//! Numbers in memory.

use vstd::prelude::*;

verus! {

/// The order in which the bytes of a number lie in memory.
#[derive(Clone, Copy, Debug, PartialEq, Eq)]
pub enum ByteOrder {
    /// The least significant byte comes first.
    Little,
    /// The most significant byte comes first.
    Big,
}

/// The 32-bit number at a position.
pub open spec fn word(bytes: Seq<u8>, at: int, order: ByteOrder) -> int {
    match order {
        ByteOrder::Little => bytes[at] + 0x100 * bytes[at + 1] + 0x1_0000 * bytes[at + 2]
            + 0x100_0000 * bytes[at + 3],
        ByteOrder::Big => bytes[at + 3] + 0x100 * bytes[at + 2] + 0x1_0000 * bytes[at + 1]
            + 0x100_0000 * bytes[at],
    }
}

/// The 64-bit number at a position.
pub open spec fn double_word(bytes: Seq<u8>, at: int, order: ByteOrder) -> int {
    match order {
        ByteOrder::Little => word(bytes, at, order) + 0x1_0000_0000 * word(bytes, at + 4, order),
        ByteOrder::Big => word(bytes, at + 4, order) + 0x1_0000_0000 * word(bytes, at, order),
    }
}

/// Reads the 32-bit number at a position.
pub(crate) fn read_word(bytes: &[u8], at: usize, order: ByteOrder) -> (number: u32)
    requires
        at + 4 <= bytes@.len(),
    ensures
        number == word(bytes@, at as int, order),
{
    let first: u32 = bytes[at] as u32;
    let second: u32 = bytes[at + 1] as u32;
    let third: u32 = bytes[at + 2] as u32;
    let fourth: u32 = bytes[at + 3] as u32;
    match order {
        ByteOrder::Little => first + 0x100 * second + 0x1_0000 * third + 0x100_0000 * fourth,
        ByteOrder::Big => fourth + 0x100 * third + 0x1_0000 * second + 0x100_0000 * first,
    }
}

/// Reads the 64-bit number at a position.
pub(crate) fn read_double_word(bytes: &[u8], at: usize, order: ByteOrder) -> (number: u64)
    requires
        at + 8 <= bytes@.len(),
    ensures
        number == double_word(bytes@, at as int, order),
{
    assert(at + 8 <= bytes.len());
    let first: u64 = read_word(bytes, at, order) as u64;
    let second: u64 = read_word(bytes, at + 4, order) as u64;
    match order {
        ByteOrder::Little => first + 0x1_0000_0000 * second,
        ByteOrder::Big => second + 0x1_0000_0000 * first,
    }
}

/// Copies a part of some bytes.
pub(crate) fn copy_part(bytes: &[u8], start: usize, size: usize) -> (part: Vec<u8>)
    requires
        start + size <= bytes@.len(),
    ensures
        part@ == bytes@.subrange(start as int, start + size),
{
    let mut part: Vec<u8> = Vec::new();
    let mut i: usize = 0;
    while i < size
        invariant
            i <= size,
            start + size <= bytes.len(),
            part@ == bytes@.subrange(start as int, start + i),
        decreases size - i,
    {
        part.push(bytes[start + i]);
        assert(part@ =~= bytes@.subrange(start as int, start + i + 1));
        i += 1;
    }
    part
}

} // verus!

//! Block descriptors and the byte encoding of a block header.
use vstd::prelude::*;

verus! {

/// Bytes taken by a block header.
pub const META_SIZE: usize = 2;

/// Allocation granularity: every block starts at a multiple of it.
pub const CHUNK_SIZE: usize = 8;

/// Largest payload size that the seven-bit size field can hold.
pub const MAX_BLOCK_SIZE: usize = 127;

/// Largest arena capacity: a single free block spanning it must still have a
/// representable size, and the capacity must be a whole number of chunks.
pub const MAX_CAPACITY: usize = 128;

/// A snapshot of one block, as decoded from its header.
#[derive(Clone, Copy, Debug, PartialEq, Eq)]
pub struct Meta {
    /// Offset of the header in the buffer.
    pub addr: usize,
    /// Whether the block is available for allocation.
    pub free: bool,
    /// Payload size in bytes, header excluded.
    pub size: usize,
    /// Offset of the preceding block, if any.
    pub prev: Option<usize>,
    /// Offset of the following block, if any (derived, never stored).
    pub next: Option<usize>,
}

/// `n` rounded up to a multiple of the chunk size.
#[verifier::opaque]
pub open spec fn round_up(n: int) -> int {
    if n % (CHUNK_SIZE as int) == 0 {
        n
    } else {
        n - n % (CHUNK_SIZE as int) + CHUNK_SIZE as int
    }
}

/// The offset that a block at `addr` with payload `size` hands on to its
/// successor, or `None` when it reaches the end of a buffer of `cap` bytes.
pub open spec fn next_of(addr: int, size: int, cap: int) -> Option<usize> {
    let n = round_up(addr + META_SIZE as int + size);
    if addr < n && n < cap {
        Some(n as usize)
    } else {
        None
    }
}

/// The flag-and-size byte of a header.
pub open spec fn flag_size_byte(free: bool, size: int) -> u8 {
    (size * 2 + if free { 1int } else { 0int }) as u8
}

/// The predecessor byte of a header (zero for none).
pub open spec fn prev_byte(prev: Option<usize>) -> u8 {
    match prev {
        Some(p) => p as u8,
        None => 0u8,
    }
}

/// The block that the header at `addr` of `bytes` describes.
pub open spec fn decode(bytes: Seq<u8>, addr: int) -> Meta {
    let first = bytes[addr] as int;
    let p = bytes[addr + 1] as int;
    Meta {
        addr: addr as usize,
        free: first % 2 == 1,
        size: (first / 2) as usize,
        prev: if p < addr { Some(p as usize) } else { None },
        next: next_of(addr, first / 2, bytes.len() as int),
    }
}

/// The two header bytes of `m` stand at its address in `bytes`.
pub open spec fn header_at(bytes: Seq<u8>, m: Meta) -> bool {
    &&& m.addr + 1 < bytes.len()
    &&& bytes[m.addr as int] == flag_size_byte(m.free, m.size as int)
    &&& bytes[m.addr + 1] == prev_byte(m.prev)
}

/// `bytes` after the header of `m` is written at its address.
pub open spec fn write_header(bytes: Seq<u8>, m: Meta) -> Seq<u8> {
    bytes.update(m.addr as int, flag_size_byte(m.free, m.size as int)).update(
        m.addr + 1,
        prev_byte(m.prev),
    )
}

/// The flag-and-size byte decodes to what it was built from.
pub proof fn lemma_flag_size_round_trip(free: bool, size: int)
    requires
        0 <= size <= MAX_BLOCK_SIZE,
    ensures
        (flag_size_byte(free, size) as int) % 2 == 1 <==> free,
        (flag_size_byte(free, size) as int) / 2 == size,
{
}

/// Bit operations on a header byte agree with its arithmetic reading.
pub proof fn lemma_byte_bits(b: u8)
    ensures
        (b & 1 == 1) <==> (b as int) % 2 == 1,
        (b >> 1) as int == (b as int) / 2,
{
    assert(b & 1 == 1 <==> b % 2 == 1) by (bit_vector);
    assert(b >> 1 == b / 2) by (bit_vector);
}

/// Packing with shifts agrees with the arithmetic header byte.
pub proof fn lemma_pack_bits(s: u8, f: bool)
    requires
        s <= 127,
    ensures
        (s << 1u8) | (f as u8) == flag_size_byte(f, s as int),
{
    let fb: u8 = if f { 1 } else { 0 };
    assert(fb == f as u8);
    assert((s << 1u8) | fb == s * 2 + fb) by (bit_vector)
        requires
            s <= 127,
            fb <= 1,
    ;
}

} // verus!

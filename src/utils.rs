//! Block-header encoding: the block size lives in every bit but the lowest,
//! and the lowest bit is set while the block is free.
use vstd::prelude::*;

verus! {

/// Width in bytes of a block header (one machine word).
pub const HEADER_WIDTH: usize = 8;

/// The header word of a block of `size` bytes (sizes are even).
pub open spec fn encode(size: int, free: bool) -> int {
    size + if free { 1int } else { 0int }
}

/// The size field of a header word.
pub open spec fn header_size(header: u64) -> int {
    header - header % 2
}

/// The free flag of a header word.
pub open spec fn header_free(header: u64) -> bool {
    header % 2 == 1
}

/// Whether the header word marks its block free.
pub fn is_free(header: u64) -> (r: bool)
    ensures
        r == header_free(header),
{
    assert(header & 1 == header % 2) by (bit_vector);
    header & 1 == 1
}

/// The payload capacity recorded by a header word: its size field less the
/// header itself.
pub fn get_payload_size(header: u64) -> (r: u64)
    requires
        header_size(header) >= HEADER_WIDTH,
    ensures
        r == header_size(header) - HEADER_WIDTH,
{
    assert(header & !1u64 == header - header % 2) by (bit_vector);
    (header & !1u64) - HEADER_WIDTH as u64
}

/// The header word with its size field kept and its free flag set to `free`.
pub fn with_free(header: u64, free: bool) -> (r: u64)
    ensures
        r == header_size(header) + if free { 1int } else { 0int },
{
    assert(header & !1u64 == header - header % 2) by (bit_vector);
    assert((header & !1u64) | 1u64 == header - header % 2 + 1) by (bit_vector);
    if free {
        (header & !1u64) | 1u64
    } else {
        header & !1u64
    }
}

/// The little-endian word made of eight bytes.
pub open spec fn le_word(b0: u8, b1: u8, b2: u8, b3: u8, b4: u8, b5: u8, b6: u8, b7: u8) -> u64 {
    (b0 as u64) | ((b1 as u64) << 8u64) | ((b2 as u64) << 16u64) | ((b3 as u64) << 24u64)
        | ((b4 as u64) << 32u64) | ((b5 as u64) << 40u64) | ((b6 as u64) << 48u64) | ((b7 as u64)
        << 56u64)
}

/// The little-endian word stored at byte offset `a` of `bytes`.
pub open spec fn word_at(bytes: Seq<u8>, a: int) -> u64 {
    le_word(
        bytes[a],
        bytes[a + 1],
        bytes[a + 2],
        bytes[a + 3],
        bytes[a + 4],
        bytes[a + 5],
        bytes[a + 6],
        bytes[a + 7],
    )
}

/// Splitting a word into its eight bytes and joining them again gives the word back.
pub proof fn lemma_le_word_round_trip(x: u64)
    ensures
        le_word(
            x as u8,
            (x >> 8u64) as u8,
            (x >> 16u64) as u8,
            (x >> 24u64) as u8,
            (x >> 32u64) as u8,
            (x >> 40u64) as u8,
            (x >> 48u64) as u8,
            (x >> 56u64) as u8,
        ) == x,
{
    assert(le_word(
        x as u8,
        (x >> 8u64) as u8,
        (x >> 16u64) as u8,
        (x >> 24u64) as u8,
        (x >> 32u64) as u8,
        (x >> 40u64) as u8,
        (x >> 48u64) as u8,
        (x >> 56u64) as u8,
    ) == x) by (bit_vector);
}

/// Reads the little-endian word at byte offset `a`.
pub fn read_word(bytes: &Vec<u8>, a: usize) -> (r: u64)
    requires
        a + 8 <= bytes.len(),
    ensures
        r == word_at(bytes@, a as int),
{
    (bytes[a] as u64) | ((bytes[a + 1] as u64) << 8u64) | ((bytes[a + 2] as u64) << 16u64) | ((
    bytes[a + 3] as u64) << 24u64) | ((bytes[a + 4] as u64) << 32u64) | ((bytes[a + 5] as u64)
        << 40u64) | ((bytes[a + 6] as u64) << 48u64) | ((bytes[a + 7] as u64) << 56u64)
}

/// Stores `x` as a little-endian word at byte offset `a`, leaving every other
/// byte as it was.
pub fn write_word(bytes: &mut Vec<u8>, a: usize, x: u64)
    requires
        a + 8 <= old(bytes).len(),
    ensures
        final(bytes)@.len() == old(bytes)@.len(),
        word_at(final(bytes)@, a as int) == x,
        forall|i: int|
            0 <= i < old(bytes)@.len() && !(a <= i < a + 8) ==> final(bytes)@[i] == old(bytes)@[i],
        forall|b: int|
            #![trigger word_at(final(bytes)@, b)]
            0 <= b && b + 8 <= old(bytes)@.len() && (b + 8 <= a || a + 8 <= b) ==> word_at(
                final(bytes)@,
                b,
            ) == word_at(old(bytes)@, b),
{
    bytes.set(a, x as u8);
    bytes.set(a + 1, (x >> 8u64) as u8);
    bytes.set(a + 2, (x >> 16u64) as u8);
    bytes.set(a + 3, (x >> 24u64) as u8);
    bytes.set(a + 4, (x >> 32u64) as u8);
    bytes.set(a + 5, (x >> 40u64) as u8);
    bytes.set(a + 6, (x >> 48u64) as u8);
    bytes.set(a + 7, (x >> 56u64) as u8);
    proof {
        lemma_le_word_round_trip(x);
    }
}

} // verus!

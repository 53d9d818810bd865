//! The tables of RFC 1951, 3.2.5: the base value and number of extra bits of
//! each length and distance code, and the order in which code length code
//! lengths are sent.

use vstd::prelude::*;
use vstd::arithmetic::power2::{pow2, lemma2_to64};

verus! {

pub const LENGTH_EXTRA_BITS: [usize; 29] = [
    0, 0, 0, 0, 0, 0, 0, 0, 1, 1, 1, 1, 2, 2, 2, 2, 3, 3, 3, 3, 4, 4, 4, 4, 5,
    5, 5, 5, 0,
];

pub const LENGTH_BASE: [u32; 29] = [
    3, 4, 5, 6, 7, 8, 9, 10, 11, 13, 15, 17, 19, 23, 27, 31, 35, 43, 51, 59,
    67, 83, 99, 115, 131, 163, 195, 227, 258,
];

pub const DISTANCE_EXTRA_BITS: [usize; 30] = [
    0, 0, 0, 0, 1, 1, 2, 2, 3, 3, 4, 4, 5, 5, 6, 6, 7, 7, 8, 8, 9, 9, 10, 10,
    11, 11, 12, 12, 13, 13,
];

pub const DISTANCE_BASE: [u32; 30] = [
    1, 2, 3, 4, 5, 7, 9, 13, 17, 25, 33, 49, 65, 97, 129, 193, 257, 385, 513,
    769, 1025, 1537, 2049, 3073, 4097, 6145, 8193, 12289, 16385, 24577,
];

pub const CODE_LENGTH_CODES_ORDER: [usize; 19] = [
    16, 17, 18, 0, 8, 7, 9, 6, 10, 5, 11, 4, 12, 3, 13, 2, 14, 1, 15,
];

/// Facts about the tables that the codecs lean on.
pub proof fn lemma_tables()
    ensures
        forall|i: int| 0 <= i < 29 ==> #[trigger] LENGTH_EXTRA_BITS@[i] <= 5,
        forall|i: int| 0 <= i < 30 ==> #[trigger] DISTANCE_EXTRA_BITS@[i] <= 13,
        forall|i: int| 0 <= i < 29 ==> 3 <= #[trigger] LENGTH_BASE@[i] <= 258,
        forall|i: int| 0 <= i < 30 ==> 1 <= #[trigger] DISTANCE_BASE@[i] <= 24577,
        forall|i: int| 0 <= i < 19 ==> #[trigger] CODE_LENGTH_CODES_ORDER@[i] < 19,
        forall|i: int| 0 <= i < 28 ==> #[trigger] LENGTH_BASE@[i] < LENGTH_BASE@[i + 1],
        forall|i: int| 0 <= i < 29 ==> #[trigger] DISTANCE_BASE@[i] < DISTANCE_BASE@[i + 1],
        // The extra bits of a code reach exactly up to the next code's base
        // (the last length code reaches past 258, which is its own code).
        forall|i: int| 0 <= i < 27 ==> LENGTH_BASE@[i + 1] == #[trigger] LENGTH_BASE@[i] + pow2(LENGTH_EXTRA_BITS@[i] as nat),
        LENGTH_BASE@[27] + pow2(LENGTH_EXTRA_BITS@[27] as nat) == 259,
        LENGTH_BASE@[28] == 258 && LENGTH_EXTRA_BITS@[28] == 0,
        forall|i: int| 0 <= i < 29 ==> DISTANCE_BASE@[i + 1] == #[trigger] DISTANCE_BASE@[i] + pow2(DISTANCE_EXTRA_BITS@[i] as nat),
        DISTANCE_BASE@[29] + pow2(DISTANCE_EXTRA_BITS@[29] as nat) == 32769,
{
    lemma2_to64();
}

/// How RFC 1951 (3.2.5) builds the tables: length codes 257 to 264 and
/// distance codes 0 to 3 have no extra bits, and from there the extra bits
/// grow by one every four length codes and every two distance codes; the
/// last length code, 285, has none. Lengths start at 3 and distances at 1,
/// and each base is the one before plus the values its extra bits reach
/// (`lemma_tables`), so these rules fix every entry.
pub proof fn lemma_tables_follow_rfc1951()
    ensures
        LENGTH_BASE@[0] == 3,
        DISTANCE_BASE@[0] == 1,
        LENGTH_EXTRA_BITS@[28] == 0,
        forall|i: int| 0 <= i < 28 ==> #[trigger] LENGTH_EXTRA_BITS@[i] == if i < 8 { 0 } else { (i - 4) / 4 },
        forall|i: int| 0 <= i < 30 ==> #[trigger] DISTANCE_EXTRA_BITS@[i] == if i < 4 { 0 } else { (i - 2) / 2 },
{
    assert forall|i: int| 0 <= i < 28 implies #[trigger] LENGTH_EXTRA_BITS@[i] == if i < 8 { 0 } else { (i - 4) / 4 } by {
        assert(LENGTH_EXTRA_BITS@ =~= seq![0usize, 0, 0, 0, 0, 0, 0, 0, 1, 1, 1, 1, 2, 2, 2, 2, 3, 3, 3, 3, 4, 4, 4, 4, 5, 5, 5, 5, 0]);
    }
    assert forall|i: int| 0 <= i < 30 implies #[trigger] DISTANCE_EXTRA_BITS@[i] == if i < 4 { 0 } else { (i - 2) / 2 } by {
        assert(DISTANCE_EXTRA_BITS@ =~= seq![0usize, 0, 0, 0, 1, 1, 2, 2, 3, 3, 4, 4, 5, 5, 6, 6, 7, 7, 8, 8, 9, 9, 10, 10, 11, 11, 12, 12, 13, 13]);
    }
}

/// The length code for a match of `length` bytes, searching from code `i`:
/// the last one whose base is not above it.
pub open spec fn length_index_from(length: nat, i: nat) -> nat
    decreases 29 - i,
{
    if i + 1 < 29 && LENGTH_BASE@[(i + 1) as int] <= length {
        length_index_from(length, (i + 1) as nat)
    } else {
        i
    }
}

pub open spec fn length_index(length: nat) -> nat {
    length_index_from(length, 0)
}

/// The distance code for a match `distance` back, searching from code `i`.
pub open spec fn dist_index_from(distance: nat, i: nat) -> nat
    decreases 30 - i,
{
    if i + 1 < 30 && DISTANCE_BASE@[(i + 1) as int] <= distance {
        dist_index_from(distance, (i + 1) as nat)
    } else {
        i
    }
}

pub open spec fn dist_index(distance: nat) -> nat {
    dist_index_from(distance, 0)
}

proof fn lemma_length_index_from(length: nat, i: nat)
    requires
        i < 29,
        LENGTH_BASE@[i as int] <= length <= 258,
    ensures
        length_index_from(length, i) < 29,
        LENGTH_BASE@[length_index_from(length, i) as int] <= length,
        length_index_from(length, i) + 1 < 29 ==> length < LENGTH_BASE@[(length_index_from(length, i) + 1) as int],
    decreases 29 - i,
{
    if i + 1 < 29 && LENGTH_BASE@[(i + 1) as int] <= length {
        lemma_length_index_from(length, (i + 1) as nat);
    }
}

proof fn lemma_dist_index_from(distance: nat, i: nat)
    requires
        i < 30,
        DISTANCE_BASE@[i as int] <= distance,
    ensures
        dist_index_from(distance, i) < 30,
        DISTANCE_BASE@[dist_index_from(distance, i) as int] <= distance,
        dist_index_from(distance, i) + 1 < 30 ==> distance < DISTANCE_BASE@[(dist_index_from(distance, i) + 1) as int],
    decreases 30 - i,
{
    if i + 1 < 30 && DISTANCE_BASE@[(i + 1) as int] <= distance {
        lemma_dist_index_from(distance, (i + 1) as nat);
    }
}

/// The length code of a match covers its length with its extra bits.
pub proof fn lemma_length_index(length: nat)
    requires
        3 <= length <= 258,
    ensures
        length_index(length) < 29,
        LENGTH_BASE@[length_index(length) as int] <= length,
        length < LENGTH_BASE@[length_index(length) as int] + pow2(LENGTH_EXTRA_BITS@[length_index(length) as int] as nat),
{
    lemma_tables();
    lemma_length_index_from(length, 0);
    let i = length_index(length);
    if i < 27 {
        assert(LENGTH_BASE@[(i + 1) as int] == LENGTH_BASE@[i as int] + pow2(LENGTH_EXTRA_BITS@[i as int] as nat));
    }
    if i == 28 {
        assert(pow2(0) == 1) by { lemma2_to64(); }
    }
}

/// The distance code of a match covers its distance with its extra bits.
pub proof fn lemma_dist_index(distance: nat)
    requires
        1 <= distance <= 32768,
    ensures
        dist_index(distance) < 30,
        DISTANCE_BASE@[dist_index(distance) as int] <= distance,
        distance < DISTANCE_BASE@[dist_index(distance) as int] + pow2(DISTANCE_EXTRA_BITS@[dist_index(distance) as int] as nat),
{
    lemma_tables();
    lemma_dist_index_from(distance, 0);
    let i = dist_index(distance);
    if i < 29 {
        assert(DISTANCE_BASE@[(i + 1) as int] == DISTANCE_BASE@[i as int] + pow2(DISTANCE_EXTRA_BITS@[i as int] as nat));
    }
}

/// The length code for a match of `length` bytes: the last one whose base
/// is not above it.
pub fn length_symbol(length: usize) -> (i: usize)
    requires
        3 <= length <= 258,
    ensures
        i == length_index(length as nat),
{
    let mut i: usize = 0;
    while i + 1 < LENGTH_BASE.len() && LENGTH_BASE[i + 1] as usize <= length
        invariant
            i < 29,
            length_index_from(length as nat, i as nat) == length_index(length as nat),
        decreases 29 - i,
    {
        i += 1;
    }
    i
}

/// The distance code for a match `distance` bytes back.
pub fn dist_symbol(distance: usize) -> (i: usize)
    requires
        1 <= distance <= 32768,
    ensures
        i == dist_index(distance as nat),
{
    let mut i: usize = 0;
    while i + 1 < DISTANCE_BASE.len() && DISTANCE_BASE[i + 1] as usize <= distance
        invariant
            i < 30,
            dist_index_from(distance as nat, i as nat) == dist_index(distance as nat),
        decreases 30 - i,
    {
        i += 1;
    }
    i
}

} // verus!

//! The Adler-32 checksum of RFC 1950, and the byte order of the zlib
//! trailer that carries it.

use vstd::prelude::*;

verus! {

pub open spec fn adler_mod() -> nat {
    65521
}

/// The first running sum: one plus the bytes so far, mod 65521.
pub open spec fn adler_a(data: Seq<u8>) -> nat
    decreases data.len(),
{
    if data.len() == 0 {
        1
    } else {
        (adler_a(data.drop_last()) + data.last() as nat) % adler_mod()
    }
}

/// The second running sum: the sum of every value the first took, mod 65521.
pub open spec fn adler_b(data: Seq<u8>) -> nat
    decreases data.len(),
{
    if data.len() == 0 {
        0
    } else {
        (adler_b(data.drop_last()) + adler_a(data)) % adler_mod()
    }
}

/// The checksum: the second sum in the high half, the first in the low.
pub open spec fn adler32_spec(data: Seq<u8>) -> nat {
    adler_b(data) * 65536 + adler_a(data)
}

pub proof fn lemma_adler_bounds(data: Seq<u8>)
    ensures
        adler_a(data) < 65521,
        adler_b(data) < 65521,
        adler32_spec(data) < 0x1_0000_0000,
    decreases data.len(),
{
    if data.len() > 0 {
        lemma_adler_bounds(data.drop_last());
    }
}

/// The bytes of `data` added up.
pub open spec fn byte_total(data: Seq<u8>) -> nat
    decreases data.len(),
{
    if data.len() == 0 { 0 } else { byte_total(data.drop_last()) + data.last() as nat }
}

/// One plus the bytes of each prefix of `data`, from the first byte to the
/// whole, added up.
pub open spec fn prefix_totals(data: Seq<u8>) -> nat
    decreases data.len(),
{
    if data.len() == 0 { 0 } else { prefix_totals(data.drop_last()) + 1 + byte_total(data) }
}

/// The checksum is RFC 1950's Adler-32: its low half is one plus the sum of
/// the bytes, its high half the sum of those values after each byte, both
/// taken modulo 65521, the largest prime below 65536.
pub proof fn lemma_adler32_is_rfc1950(data: Seq<u8>)
    ensures
        adler32_spec(data) == (prefix_totals(data) % 65521) * 65536 + (1 + byte_total(data)) % 65521,
    decreases data.len(),
{
    lemma_adler_sums(data);
}

proof fn lemma_adler_sums(data: Seq<u8>)
    ensures
        adler_a(data) == (1 + byte_total(data)) % 65521,
        adler_b(data) == prefix_totals(data) % 65521,
    decreases data.len(),
{
    if data.len() > 0 {
        let d = data.drop_last();
        lemma_adler_sums(d);
        vstd::arithmetic::div_mod::lemma_add_mod_noop_right(data.last() as int, (1 + byte_total(d)) as int, 65521);
        vstd::arithmetic::div_mod::lemma_add_mod_noop(prefix_totals(d) as int, (1 + byte_total(data)) as int, 65521);
    }
}

/// RFC 1950 adler32 checksum.
pub fn adler32(data: &[u8]) -> (sum: u32)
    ensures
        sum == adler32_spec(data@),
{
    let mut a: u32 = 1;
    let mut b: u32 = 0;
    let mut i: usize = 0;
    while i < data.len()
        invariant
            i <= data@.len(),
            a == adler_a(data@.take(i as int)),
            b == adler_b(data@.take(i as int)),
            a < 65521,
            b < 65521,
        decreases data.len() - i,
    {
        let byte = data[i];
        proof {
            assert(data@.take(i + 1).drop_last() =~= data@.take(i as int));
            assert(data@.take(i + 1).last() == byte);
        }
        a = (a + byte as u32) % 65521;
        b = (b + a) % 65521;
        i += 1;
    }
    proof {
        assert(data@.take(data@.len() as int) =~= data@);
        assert((b << 16u32) | a == b * 65536 + a) by (bit_vector)
            requires
                a < 65521,
                b < 65521,
        ;
    }
    (b << 16) | a
}

/// A 32-bit number with its four bytes in the opposite order.
pub open spec fn swap_spec(v: nat) -> nat {
    (v % 256) * 0x100_0000 + ((v / 256) % 256) * 0x1_0000 + ((v / 0x1_0000) % 256) * 256 + (v / 0x100_0000) % 256
}

/// Reverse the byte order of `v`.
pub fn swap_bytes(v: u32) -> (r: u32)
    ensures
        r == swap_spec(v as nat),
{
    proof {
        assert(((v & 0xFF) << 24u32) | (((v >> 8u32) & 0xFF) << 16u32) | (((v >> 16u32) & 0xFF) << 8u32) | ((v >> 24u32) & 0xFF)
            == (v % 256) * 0x100_0000 + ((v / 256) % 256) * 0x1_0000 + ((v / 0x1_0000) % 256) * 256 + (v / 0x100_0000) % 256)
            by (bit_vector);
    }
    ((v & 0xFF) << 24) | (((v >> 8) & 0xFF) << 16) | (((v >> 16) & 0xFF) << 8) | ((v >> 24) & 0xFF)
}

/// The four bytes of `v`, most significant first.
pub fn to_be_bytes(v: u32) -> (r: [u8; 4])
    ensures
        r@ == seq![(v / 0x100_0000) as u8, ((v / 0x1_0000) % 256) as u8, ((v / 256) % 256) as u8, (v % 256) as u8],
{
    proof {
        assert((v >> 24u32) == v / 0x100_0000 && ((v >> 16u32) & 0xFF) == (v / 0x1_0000) % 256
            && ((v >> 8u32) & 0xFF) == (v / 256) % 256 && (v & 0xFF) == v % 256) by (bit_vector);
    }
    [(v >> 24) as u8, ((v >> 16) & 0xFF) as u8, ((v >> 8) & 0xFF) as u8, (v & 0xFF) as u8]
}

} // verus!

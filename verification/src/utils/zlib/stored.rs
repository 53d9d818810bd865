//! Compressing without compressing: a zlib stream of stored blocks.

use vstd::prelude::*;
use vstd::arithmetic::power2::{pow2, lemma2_to64};
use crate::utils::zlib::bits::{bit, stream_bit, bits_value, read_bits_spec, byte_pos, le_value, lemma_bits_value_is, lemma_bit_div};
use crate::utils::zlib::checksum::{adler32, adler32_spec, swap_spec, to_be_bytes, lemma_adler_bounds};
use crate::utils::zlib::inflate::{inflate_spec, block_spec, zlib_decode_spec, lemma_inflate_unfold};

verus! {

/// The big-endian bytes of a 32-bit number.
pub open spec fn be_bytes(v: nat) -> Seq<u8> {
    seq![(v / 0x100_0000) as u8, ((v / 0x1_0000) % 256) as u8, ((v / 256) % 256) as u8, (v % 256) as u8]
}

/// The zlib trailer is big-endian (RFC 1950): the checksum's high byte
/// first, its low byte last.
pub proof fn lemma_trailer_big_endian(v: nat)
    requires
        v < 0x1_0000_0000,
    ensures
        be_bytes(v).len() == 4,
        be_bytes(v)[0] == v / 0x100_0000,
        be_bytes(v)[3] == v % 256,
{
}

/// One stored block: the final-block bit and type 0 in a byte of their own,
/// the length and its complement in two little-endian bytes each, then the
/// bytes themselves.
pub open spec fn stored_block_bytes(chunk: Seq<u8>, last: bool) -> Seq<u8> {
    let n = chunk.len();
    seq![
        if last { 1u8 } else { 0u8 },
        (n % 256) as u8,
        (n / 256) as u8,
        ((65535 - n) % 256) as u8,
        ((65535 - n) / 256) as u8,
    ] + chunk
}

/// The stored blocks for `data` from `i` on, each holding 65535 bytes but
/// the last.
pub open spec fn stored_blocks(data: Seq<u8>, i: nat) -> Seq<u8>
    decreases data.len() - i,
{
    if i >= data.len() {
        Seq::empty()
    } else {
        let n = if data.len() - i > 65535 { 65535 } else { (data.len() - i) as nat };
        stored_block_bytes(data.subrange(i as int, (i + n) as int), i + n >= data.len())
            + stored_blocks(data, i + n)
    }
}

/// The zlib stream that `compress_stored` makes of `data`.
pub open spec fn compress_stored_spec(data: Seq<u8>) -> Seq<u8> {
    seq![0x78u8, 0x01u8] + (if data.len() == 0 {
        stored_block_bytes(Seq::empty(), true)
    } else {
        stored_blocks(data, 0)
    }) + be_bytes(adler32_spec(data))
}

/// Compress `data` into a valid zlib stream using only STORED blocks.
///
/// No real compressor is needed: standard zlib decoders (and `deflate`)
/// accept a `0x78 0x01` header, one or more uncompressed DEFLATE "stored"
/// blocks of at most `0xFFFF` bytes, then a big-endian adler32 checksum.
pub fn compress_stored(data: &[u8]) -> (out: Vec<u8>)
    ensures
        out@ == compress_stored_spec(data@),
{
    let mut out: Vec<u8> = Vec::new();
    out.push(0x78);
    out.push(0x01);
    let ghost head = out@;
    if data.len() == 0 {
        // A single empty, final stored block: BFINAL=1, LEN=0, NLEN=0xFFFF.
        out.push(0x01);
        out.push(0x00);
        out.push(0x00);
        out.push(0xFF);
        out.push(0xFF);
        proof {
            assert(out@ =~= head + stored_block_bytes(Seq::empty(), true));
        }
    } else {
        let mut i: usize = 0;
        while i < data.len()
            invariant
                i <= data@.len(),
                head == seq![0x78u8, 0x01u8],
                out@ + stored_blocks(data@, i as nat) == head + stored_blocks(data@, 0),
            decreases data.len() - i,
        {
            let n: usize = if data.len() - i > 65535 { 65535 } else { data.len() - i };
            let last = i + n >= data.len();
            let ghost before = out@;
            // BFINAL in bit 0, BTYPE=00 (stored) in bits 1-2.
            out.push(if last { 1 } else { 0 });
            out.push((n % 256) as u8);
            out.push((n / 256) as u8);
            out.push(((65535 - n) % 256) as u8);
            out.push(((65535 - n) / 256) as u8);
            let mut k: usize = 0;
            while k < n
                invariant
                    k <= n,
                    n <= 65535,
                    i + n <= data.len(),
                    out@ == before + seq![
                        if last { 1u8 } else { 0u8 },
                        (n % 256) as u8,
                        (n / 256) as u8,
                        ((65535 - n) % 256) as u8,
                        ((65535 - n) / 256) as u8,
                    ] + data@.subrange(i as int, (i + k) as int),
                decreases n - k,
            {
                out.push(data[i + k]);
                k += 1;
                proof {
                    assert(data@.subrange(i as int, (i + k) as int) =~= data@.subrange(i as int, (i + k - 1) as int).push(data@[i + k - 1]));
                }
            }
            proof {
                let chunk = data@.subrange(i as int, (i + n) as int);
                assert(chunk.len() == n);
                assert(out@ =~= before + stored_block_bytes(chunk, last));
                assert(stored_blocks(data@, i as nat) == stored_block_bytes(chunk, last) + stored_blocks(data@, (i + n) as nat));
                assert(out@ + stored_blocks(data@, (i + n) as nat) =~= before + stored_blocks(data@, i as nat));
            }
            i += n;
        }
        proof {
            assert(stored_blocks(data@, i as nat) =~= Seq::<u8>::empty());
            assert(out@ + Seq::<u8>::empty() =~= out@);
        }
    }
    let sum = adler32(data);
    let be = to_be_bytes(sum);
    out.push(be[0]);
    out.push(be[1]);
    out.push(be[2]);
    out.push(be[3]);
    proof {
        assert(out@ =~= compress_stored_spec(data@));
    }
    out
}


// ---------------------------------------------------------------------------
// Reading stored blocks back.

/// The `n` bits of byte `q` from bit `off` on.
pub proof fn lemma_bits_in_byte(m: Seq<u8>, q: nat, off: nat, n: nat)
    requires
        q < m.len(),
        off + n <= 8,
    ensures
        bits_value(m, 8 * q + off, n) == (m[q as int] as nat / pow2(off)) % pow2(n),
{
    let v = m[q as int] as nat / pow2(off);
    assert forall|j: nat| j < n implies stream_bit(m, 8 * q + off + j) == bit(v, j) by {
        assert((8 * q + off + j) / 8 == q);
        assert((8 * q + off + j) % 8 == off + j);
        lemma_bit_div(m[q as int] as nat, off, j);
    }
    lemma_bits_value_is(m, 8 * q + off, n, v);
}

/// The little-endian value of the four bytes of `be_bytes(v)`, reversed, is
/// `v`.
pub proof fn lemma_be_trailer(m: Seq<u8>, e: nat, v: nat)
    requires
        e + 4 <= m.len(),
        m.subrange(e as int, (e + 4) as int) == be_bytes(v),
        v < 0x1_0000_0000,
    ensures
        swap_spec(le_value(m, e, 4)) == v,
{
    lemma2_to64();
    assert(m[e as int] == be_bytes(v)[0]);
    assert(m[(e + 1) as int] == be_bytes(v)[1]);
    assert(m[(e + 2) as int] == be_bytes(v)[2]);
    assert(m[(e + 3) as int] == be_bytes(v)[3]);
    let b0 = v / 0x100_0000;
    let b1 = (v / 0x1_0000) % 256;
    let b2 = (v / 256) % 256;
    let b3 = v % 256;
    let le = b0 + b1 * 256 + b2 * 0x1_0000 + b3 * 0x100_0000;
    reveal_with_fuel(le_value, 5);
    assert(m[e as int] as nat == b0);
    assert(m[(e + 1) as int] as nat == b1);
    assert(m[(e + 2) as int] as nat == b2);
    assert(m[(e + 3) as int] as nat == b3);
    assert(le_value(m, e, 0) == 0);
    assert(pow2(0) == 1);
    assert(le_value(m, e, 1) == le_value(m, e, 0) + m[e as int] as nat * pow2(0));
    assert(le_value(m, e, 1) == b0);
    assert(le_value(m, e, 2) == b0 + b1 * 256);
    assert(le_value(m, e, 3) == b0 + b1 * 256 + b2 * 0x1_0000);
    assert(le_value(m, e, 4) == le);
    assert(b0 < 256);
    assert(le % 256 == b0);
    assert(le / 256 == b1 + b2 * 256 + b3 * 0x1_0000);
    assert((le / 256) % 256 == b1);
    assert(le / 0x1_0000 == b2 + b3 * 256);
    assert((le / 0x1_0000) % 256 == b2);
    assert(le / 0x100_0000 == b3);
    assert(v == b0 * 0x100_0000 + b1 * 0x1_0000 + b2 * 256 + b3);
}

/// A stored block at byte `a` of a stream decodes to its bytes.
pub proof fn lemma_stored_block_reads(m: Seq<u8>, a: nat, chunk: Seq<u8>, last: bool, out: Seq<u8>)
    requires
        chunk.len() <= 65535,
        a + 5 + chunk.len() <= m.len(),
        m.subrange(a as int, (a + 5 + chunk.len()) as int) == stored_block_bytes(chunk, last),
    ensures
        read_bits_spec(m, 8 * a, 1) == Some((if last { 1nat } else { 0nat }, 8 * a + 1)),
        read_bits_spec(m, 8 * a + 1, 2) == Some((0nat, 8 * a + 3)),
        block_spec(0, m, 8 * a + 3, out) == Some((out + chunk, 8 * (a + 5 + chunk.len()))),
{
    reveal(block_spec);
    lemma2_to64();
    let n = chunk.len();
    let bb = stored_block_bytes(chunk, last);
    assert(m[a as int] == bb[0]);
    assert(m[(a + 1) as int] == bb[1]);
    assert(m[(a + 2) as int] == bb[2]);
    lemma_bits_in_byte(m, a, 0, 1);
    lemma_bits_in_byte(m, a, 1, 2);
    let f = m[a as int] as nat;
    assert(f == if last { 1nat } else { 0nat });
    assert(f / 1 == f);
    assert((f / 1) % 2 == f);
    assert((f / 2) % 4 == 0);
    assert(byte_pos((8 * a + 3) as nat) == a + 1);
    assert(le_value(m, (a + 1) as nat, 2) == m[(a + 1) as int] as nat + m[(a + 2) as int] as nat * 256) by {
        let q = (a + 1) as nat;
        assert(le_value(m, q, 0) == 0);
        assert(le_value(m, q, 1) == le_value(m, q, 0) + m[q as int] as nat * pow2(0));
        assert(le_value(m, q, 2) == le_value(m, q, 1) + m[q + 1int] as nat * pow2(8));
    }
    assert(le_value(m, (a + 1) as nat, 2) == n);
    assert(byte_pos((8 * (a + 1 + 2)) as nat) == a + 3);
    let p = a + 5;
    assert(m.subrange(p as int, (p + n) as int) =~= chunk) by {
        assert forall|j: int| 0 <= j < n implies m[p + j] == chunk[j] by {
            assert(m.subrange(a as int, (a + 5 + chunk.len()) as int)[5 + j] == bb[5 + j]);
        }
    }
}

/// Stored blocks from `i` on, placed at byte `a` of a stream, decode to the
/// rest of the data.
pub proof fn lemma_stored_blocks_read(m: Seq<u8>, a: nat, data: Seq<u8>, i: nat, out: Seq<u8>)
    requires
        i < data.len(),
        a + stored_blocks(data, i).len() <= m.len(),
        m.subrange(a as int, (a + stored_blocks(data, i).len()) as int) == stored_blocks(data, i),
    ensures
        inflate_spec(m, 8 * a, out) == Some((out + data.skip(i as int), 8 * (a + stored_blocks(data, i).len()))),
    decreases data.len() - i,
{
    let n = if data.len() - i > 65535 { 65535 } else { (data.len() - i) as nat };
    let last = i + n >= data.len();
    let chunk = data.subrange(i as int, (i + n) as int);
    let bb = stored_block_bytes(chunk, last);
    let rest = stored_blocks(data, i + n);
    let sb = stored_blocks(data, i);
    assert(sb == bb + rest);
    assert(m.subrange(a as int, (a + 5 + n) as int) =~= bb) by {
        assert forall|j: int| 0 <= j < 5 + n implies m.subrange(a as int, (a + 5 + n) as int)[j] == bb[j] by {
            assert(m.subrange(a as int, (a + sb.len()) as int)[j] == sb[j]);
        }
    }
    lemma_stored_block_reads(m, a, chunk, last, out);
    lemma_inflate_unfold(m, 8 * a, out, if last { 1nat } else { 0nat }, 0);
    if last {
        assert(rest =~= Seq::<u8>::empty());
        assert(data.skip(i as int) =~= chunk);
    } else {
        let a2 = a + 5 + n;
        assert(m.subrange(a2 as int, (a2 + rest.len()) as int) =~= rest) by {
            assert forall|j: int| 0 <= j < rest.len() implies m.subrange(a2 as int, (a2 + rest.len()) as int)[j] == rest[j] by {
                assert(m.subrange(a as int, (a + sb.len()) as int)[5 + n + j] == sb[5 + n + j]);
            }
        }
        lemma_stored_blocks_read(m, a2, data, i + n, out + chunk);
        assert(out + chunk + data.skip((i + n) as int) =~= out + data.skip(i as int));
    }
}

/// What `compress_stored` makes decodes back to the data it was given.
pub proof fn lemma_compress_stored_round_trip(data: Seq<u8>)
    ensures
        zlib_decode_spec(compress_stored_spec(data)) == Some(data),
{
    let m = compress_stored_spec(data);
    let body = if data.len() == 0 { stored_block_bytes(Seq::empty(), true) } else { stored_blocks(data, 0) };
    let sum = adler32_spec(data);
    lemma_adler_bounds(data);
    assert(m[0] == 0x78u8 && m[1] == 0x01u8);
    assert(0x78u8 & 15 == 8 && (0x78u8 >> 4u8) & 15 <= 7 && (0x01u8 >> 5u8) & 1 == 0) by (bit_vector);
    assert(m.subrange(2, 2 + body.len() as int) =~= body);
    let e = 2 + body.len();
    if data.len() == 0 {
        lemma_stored_block_reads(m, 2nat, Seq::empty(), true, Seq::empty());
        lemma_inflate_unfold(m, 16, Seq::empty(), 1, 0);
        assert(Seq::<u8>::empty() + Seq::<u8>::empty() =~= data);
    } else {
        lemma_stored_blocks_read(m, 2nat, data, 0, Seq::empty());
        assert(Seq::<u8>::empty() + data.skip(0) =~= data);
    }
    assert(byte_pos((8 * e) as nat) == e);
    assert(m.subrange(e as int, (e + 4) as int) =~= be_bytes(sum));
    lemma_be_trailer(m, e, sum);
}
} // verus!

//! Compressing for real: LZ77 matches found through hash chains, sent in a
//! single block with the fixed Huffman codes.
//!
//! What goes out is described as a list of tokens, each a literal byte or a
//! copy of earlier output; the proofs show that the bits sent for the tokens
//! decode back to what the tokens expand to, and that the tokens expand to
//! the data.

use vstd::prelude::*;
use vstd::arithmetic::power2::{pow2, lemma2_to64};
use crate::utils::zlib::bits::{bit, low_bits, path_of, stream_bit, read_bits_spec, bits_value, byte_pos, BitWriter, lemma_bits_value_is, lemma_small_mod_pow2, lemma_stream_bit_concat, lemma_stream_bit_prefix};
use crate::utils::zlib::huffman::lemma_decode_path;
use crate::utils::zlib::inflate::{block_data_spec, block_spec, zlib_decode_spec, lz_copy, fixed_lit_tree, fixed_dist_tree, lemma_inflate_unfold};
use crate::utils::zlib::fixed::{lit_path, lit_len, lemma_fixed_lit_leaf, lemma_fixed_dist_leaf};
use crate::utils::zlib::tables::{LENGTH_EXTRA_BITS, LENGTH_BASE, DISTANCE_EXTRA_BITS, DISTANCE_BASE, length_index, dist_index, lemma_length_index, lemma_dist_index, length_symbol, dist_symbol, lemma_tables};
use crate::utils::zlib::checksum::{adler32, adler32_spec, to_be_bytes, lemma_adler_bounds};
use crate::utils::zlib::stored::{be_bytes, lemma_be_trailer};

verus! {

/// One step of an LZ77 encoding.
pub enum Token {
    /// This byte.
    Literal(u8),
    /// A copy of `length` bytes, starting `distance` bytes back.
    Copy(nat, nat),
}

/// The bits of a match length: its code, then its extra bits.
pub open spec fn length_bits(length: nat) -> Seq<bool> {
    let li = length_index(length);
    lit_path(257 + li) + low_bits((length - LENGTH_BASE@[li as int]) as nat, LENGTH_EXTRA_BITS@[li as int] as nat)
}

/// The bits of a match distance: its five-bit code, then its extra bits.
pub open spec fn distance_bits(distance: nat) -> Seq<bool> {
    let di = dist_index(distance);
    path_of(di, 5) + low_bits((distance - DISTANCE_BASE@[di as int]) as nat, DISTANCE_EXTRA_BITS@[di as int] as nat)
}

pub open spec fn token_bits(t: Token) -> Seq<bool> {
    match t {
        Token::Literal(b) => lit_path(b as nat),
        Token::Copy(length, distance) => length_bits(length) + distance_bits(distance),
    }
}

/// The bits of a list of tokens, one after another.
pub open spec fn tokens_bits(ts: Seq<Token>) -> Seq<bool>
    decreases ts.len(),
{
    if ts.len() == 0 {
        Seq::empty()
    } else {
        tokens_bits(ts.drop_last()) + token_bits(ts.last())
    }
}

pub open spec fn apply_token(out: Seq<u8>, t: Token) -> Seq<u8> {
    match t {
        Token::Literal(b) => out.push(b),
        Token::Copy(length, distance) => lz_copy(out, distance, length),
    }
}

/// What a list of tokens expands to, after `out`.
pub open spec fn expand(ts: Seq<Token>, out: Seq<u8>) -> Seq<u8>
    decreases ts.len(),
{
    if ts.len() == 0 {
        out
    } else {
        apply_token(expand(ts.drop_last(), out), ts.last())
    }
}

/// Every copy has a length and distance DEFLATE can send, and reaches back
/// no further than what is already there.
pub open spec fn valid_tokens(ts: Seq<Token>, out: Seq<u8>) -> bool
    decreases ts.len(),
{
    if ts.len() == 0 {
        true
    } else {
        &&& valid_tokens(ts.drop_last(), out)
        &&& match ts.last() {
            Token::Literal(_) => true,
            Token::Copy(length, distance) => 3 <= length <= 258 && 1 <= distance <= 32768
                && distance <= expand(ts.drop_last(), out).len(),
        }
    }
}

/// The stream holds the bits `s` from bit `bp` on.
pub open spec fn bits_at(mem: Seq<u8>, bp: nat, s: Seq<bool>) -> bool {
    &&& bp + s.len() <= 8 * mem.len()
    &&& forall|j: int| 0 <= j < s.len() ==> stream_bit(mem, (bp + j) as nat) == #[trigger] s[j]
}

pub proof fn lemma_bits_at_split(mem: Seq<u8>, bp: nat, a: Seq<bool>, b: Seq<bool>)
    requires
        bits_at(mem, bp, a + b),
    ensures
        bits_at(mem, bp, a),
        bits_at(mem, bp + a.len(), b),
{
    assert forall|j: int| 0 <= j < a.len() implies stream_bit(mem, (bp + j) as nat) == #[trigger] a[j] by {
        assert((a + b)[j] == a[j]);
    }
    assert forall|j: int| 0 <= j < b.len() implies stream_bit(mem, (bp + a.len() + j) as nat) == #[trigger] b[j] by {
        assert((a + b)[a.len() + j] == b[j]);
    }
}

proof fn lemma_read_low_bits(mem: Seq<u8>, bp: nat, v: nat, n: nat)
    requires
        bits_at(mem, bp, low_bits(v, n)),
        v < pow2(n),
    ensures
        read_bits_spec(mem, bp, n) == Some((v, bp + n)),
{
    assert forall|j: nat| j < n implies stream_bit(mem, bp + j) == bit(v, j) by {
        assert(low_bits(v, n)[j as int] == bit(v, j));
    }
    lemma_bits_value_is(mem, bp, n, v);
    lemma_small_mod_pow2(v, n);
}

// ---------------------------------------------------------------------------
// Reading the tokens back.

proof fn lemma_literal_step(mem: Seq<u8>, bp: nat, out: Seq<u8>, b: u8)
    requires
        bits_at(mem, bp, lit_path(b as nat)),
    ensures
        block_data_spec(fixed_lit_tree(), fixed_dist_tree(), mem, bp, out)
            == block_data_spec(fixed_lit_tree(), fixed_dist_tree(), mem, bp + lit_path(b as nat).len(), out.push(b)),
{
    let p = lit_path(b as nat);
    lemma_fixed_lit_leaf(b as nat);
    lemma_decode_path(fixed_lit_tree(), p, b as u32, mem, bp);
    assert(p.len() == lit_len(b as nat));
    assert(p.len() >= 7);
}

proof fn lemma_end_step(mem: Seq<u8>, bp: nat, out: Seq<u8>)
    requires
        bits_at(mem, bp, lit_path(256)),
    ensures
        block_data_spec(fixed_lit_tree(), fixed_dist_tree(), mem, bp, out) == Some((out, bp + 7)),
{
    let p = lit_path(256);
    lemma_fixed_lit_leaf(256);
    lemma_decode_path(fixed_lit_tree(), p, 256u32, mem, bp);
    assert(p.len() == 7);
}

proof fn lemma_copy_step(mem: Seq<u8>, bp: nat, out: Seq<u8>, length: nat, distance: nat)
    requires
        3 <= length <= 258,
        1 <= distance <= 32768,
        distance <= out.len(),
        bits_at(mem, bp, length_bits(length) + distance_bits(distance)),
    ensures
        block_data_spec(fixed_lit_tree(), fixed_dist_tree(), mem, bp, out)
            == block_data_spec(fixed_lit_tree(), fixed_dist_tree(), mem, bp + (length_bits(length) + distance_bits(distance)).len(),
                lz_copy(out, distance, length)),
{
    lemma_tables();
    lemma_length_index(length);
    lemma_dist_index(distance);
    let li = length_index(length);
    let di = dist_index(distance);
    let lp = lit_path(257 + li);
    let le = low_bits((length - LENGTH_BASE@[li as int]) as nat, LENGTH_EXTRA_BITS@[li as int] as nat);
    let dp = path_of(di, 5);
    let de = low_bits((distance - DISTANCE_BASE@[di as int]) as nat, DISTANCE_EXTRA_BITS@[di as int] as nat);
    lemma_bits_at_split(mem, bp, length_bits(length), distance_bits(distance));
    lemma_bits_at_split(mem, bp, lp, le);
    lemma_bits_at_split(mem, bp + length_bits(length).len(), dp, de);
    lemma_fixed_lit_leaf(257 + li);
    lemma_decode_path(fixed_lit_tree(), lp, (257 + li) as u32, mem, bp);
    let bp1 = bp + lp.len();
    assert(lp.len() == lit_len(257 + li) && lp.len() >= 7);
    lemma_read_low_bits(mem, bp1, (length - LENGTH_BASE@[li as int]) as nat, LENGTH_EXTRA_BITS@[li as int] as nat);
    let bp2 = bp1 + le.len();
    lemma_fixed_dist_leaf(di);
    lemma_decode_path(fixed_dist_tree(), dp, di as u32, mem, bp2);
    let bp3 = bp2 + 5;
    lemma_read_low_bits(mem, bp3, (distance - DISTANCE_BASE@[di as int]) as nat, DISTANCE_EXTRA_BITS@[di as int] as nat);
    let bp4 = bp3 + de.len();
    assert(((257 + li) as u32) - 257 == li);
    assert(bp4 == bp + (length_bits(length) + distance_bits(distance)).len());
}

/// The bits of a list of tokens decode to what the list expands to.
pub proof fn lemma_tokens_decode(mem: Seq<u8>, bp: nat, out: Seq<u8>, ts: Seq<Token>)
    requires
        bits_at(mem, bp, tokens_bits(ts)),
        valid_tokens(ts, out),
    ensures
        block_data_spec(fixed_lit_tree(), fixed_dist_tree(), mem, bp, out)
            == block_data_spec(fixed_lit_tree(), fixed_dist_tree(), mem, bp + tokens_bits(ts).len(), expand(ts, out)),
    decreases ts.len(),
{
    if ts.len() > 0 {
        let front = ts.drop_last();
        let t = ts.last();
        lemma_bits_at_split(mem, bp, tokens_bits(front), token_bits(t));
        lemma_tokens_decode(mem, bp, out, front);
        let bp1 = bp + tokens_bits(front).len();
        let o1 = expand(front, out);
        match t {
            Token::Literal(b) => {
                lemma_literal_step(mem, bp1, o1, b);
            },
            Token::Copy(length, distance) => {
                lemma_copy_step(mem, bp1, o1, length, distance);
            },
        }
    }
}

/// Copying `length` bytes from `distance` back, where the data repeats at
/// that distance, continues the data.
pub proof fn lemma_lz_copy_match(data: Seq<u8>, i: nat, distance: nat, length: nat)
    requires
        1 <= distance <= i,
        i + length <= data.len(),
        forall|j: int| i <= j < i + length ==> data[j - distance] == #[trigger] data[j],
    ensures
        lz_copy(data.take(i as int), distance, length) == data.take((i + length) as int),
    decreases length,
{
    if length > 0 {
        lemma_lz_copy_match(data, i, distance, (length - 1) as nat);
        let o = data.take(i + length - 1);
        assert(o[o.len() - distance] == data[i + length - 1 - distance]);
        assert(data[i + length - 1 - distance] == data[i + length - 1]);
        assert(o.push(o[o.len() - distance]) =~= data.take((i + length) as int));
    }
}

// ---------------------------------------------------------------------------
// Sending tokens.

/// Send `byte` as a literal with the fixed code.
pub fn literal(w: &mut BitWriter, byte: u8)
    requires
        old(w).wf(),
    ensures
        final(w).wf(),
        final(w).written() == old(w).written() + lit_path(byte as nat),
{
    let symbol = byte as u32;
    if symbol < 144 {
        w.code(0x30 + symbol, 8);
    } else {
        w.code(0x190 + symbol - 144, 9);
    }
}

/// Send a match length: its code from the fixed code, then its extra bits.
pub fn emit_length(w: &mut BitWriter, length: usize)
    requires
        old(w).wf(),
        3 <= length <= 258,
    ensures
        final(w).wf(),
        final(w).written() == old(w).written() + length_bits(length as nat),
{
    proof {
        lemma_tables();
        lemma_length_index(length as nat);
    }
    let i = length_symbol(length);
    let symbol = 257 + i;
    if symbol < 280 {
        w.code((symbol - 256) as u32, 7);
    } else {
        w.code(0xC0 + (symbol - 280) as u32, 8);
    }
    let ghost mid = w.written();
    let extra = LENGTH_EXTRA_BITS[i] as u32;
    if extra > 0 {
        w.bits(length as u32 - LENGTH_BASE[i], extra);
    } else {
        proof {
            assert(low_bits((length - LENGTH_BASE@[i as int]) as nat, 0) =~= Seq::<bool>::empty());
            assert(mid + Seq::<bool>::empty() =~= mid);
        }
    }
}

/// Send a match distance: its five-bit code, then its extra bits.
pub fn emit_distance(w: &mut BitWriter, distance: usize)
    requires
        old(w).wf(),
        1 <= distance <= 32768,
    ensures
        final(w).wf(),
        final(w).written() == old(w).written() + distance_bits(distance as nat),
{
    proof {
        lemma_tables();
        lemma_dist_index(distance as nat);
    }
    let i = dist_symbol(distance);
    w.code(i as u32, 5);
    let ghost mid = w.written();
    let extra = DISTANCE_EXTRA_BITS[i] as u32;
    if extra > 0 {
        w.bits(distance as u32 - DISTANCE_BASE[i], extra);
    } else {
        proof {
            assert(low_bits((distance - DISTANCE_BASE@[i as int]) as nat, 0) =~= Seq::<bool>::empty());
            assert(mid + Seq::<bool>::empty() =~= mid);
        }
    }
}

pub const MIN_MATCH: usize = 3;
pub const MAX_MATCH: usize = 258;
pub const WINDOW: usize = 32768;
pub const HASH_BITS: u32 = 15;
pub const HASH_SIZE: usize = 32768;

/// The hash-table slot of the three bytes `a`, `b`, `c`: their big-endian
/// number times 2654435761, modulo 2^32, keeping the top 15 bits.
pub open spec fn hash_spec(a: u8, b: u8, c: u8) -> nat {
    let three = a as nat * 65536 + b as nat * 256 + c as nat;
    ((three * 2_654_435_761) % 0x1_0000_0000) / 0x20000
}

/// Where the three bytes from `i` on are filed in the hash table.
fn hash(d: &[u8], i: usize) -> (h: usize)
    requires
        i + 2 < d@.len(),
    ensures
        h == hash_spec(d@[i as int], d@[i + 1], d@[i + 2]),
        h < HASH_SIZE,
{
    let a = d[i];
    let b = d[i + 1];
    let c = d[i + 2];
    let three = (a as u32) << 16 | (b as u32) << 8 | (c as u32);
    proof {
        assert(((a as u32) << 16 | (b as u32) << 8 | (c as u32)) == a as u32 * 65536 + b as u32 * 256 + c as u32)
            by (bit_vector);
    }
    let m = three.wrapping_mul(2_654_435_761);
    proof {
        assert(m >> 17u32 < 32768) by (bit_vector);
        assert(m >> 17u32 == m / 0x20000) by (bit_vector);
    }
    (m >> (32 - HASH_BITS)) as usize
}

/// A match of `len` bytes at `i`, copied from `dist` bytes back, within the
/// window.
pub open spec fn is_match(data: Seq<u8>, i: nat, len: nat, dist: nat) -> bool {
    &&& 1 <= dist <= i
    &&& dist <= WINDOW
    &&& i + len <= data.len()
    &&& forall|j: int| i <= j < i + len ==> data[j - dist] == #[trigger] data[j]
}

/// The hash chains reach back only: every head is before `i`, and every
/// link points to an earlier position.
spec fn chains_ok(head: Seq<usize>, prev: Seq<usize>, i: nat) -> bool {
    &&& head.len() == HASH_SIZE
    &&& forall|h: int| 0 <= h < head.len() ==> head[h] == usize::MAX || head[h] < i
    &&& forall|j: int| 0 <= j < prev.len() ==> prev[j] == usize::MAX || prev[j] < j
}

/// How far the bytes from `a` on and from `b` on agree, counting from `k`
/// and stopping at `max`.
pub open spec fn agree_from(data: Seq<u8>, a: int, b: int, max: nat, k: nat) -> nat
    decreases max - k,
{
    if k < max && data[a + k] == data[b + k] {
        agree_from(data, a, b, max, k + 1)
    } else {
        k
    }
}

/// How far the bytes at `candidate` and at `i` agree, up to `max`.
fn match_len(data: &[u8], candidate: usize, i: usize, max: usize) -> (len: usize)
    requires
        candidate < i,
        i + max <= data@.len(),
    ensures
        len == agree_from(data@, candidate as int, i as int, max as nat, 0),
        len <= max,
        forall|j: int| i <= j < i + len ==> data@[j - (i - candidate)] == #[trigger] data@[j],
{
    let n = data.len();
    let mut len: usize = 0;
    while len < max && data[candidate + len] == data[i + len]
        invariant
            len <= max,
            candidate < i,
            i + max <= data@.len(),
            n == data@.len(),
            agree_from(data@, candidate as int, i as int, max as nat, 0)
                == agree_from(data@, candidate as int, i as int, max as nat, len as nat),
            forall|j: int| i <= j < i + len ==> data@[j - (i - candidate)] == #[trigger] data@[j],
        decreases max - len,
    {
        len += 1;
    }
    len
}

/// Walking the hash chain from `candidate` with `tries` left, having found
/// `best_len` bytes `best_dist` back: the longest match found, with the
/// first of equal length kept, stopping at a match of `max` bytes, at the end
/// of the chain, when the tries run out, or beyond the window.
pub open spec fn chain_walk(
    data: Seq<u8>,
    i: nat,
    candidate: usize,
    tries: nat,
    prev: Seq<usize>,
    best_len: nat,
    best_dist: nat,
) -> (nat, nat)
    decreases tries,
{
    if candidate == usize::MAX || tries == 0 || i - candidate > WINDOW {
        (best_len, best_dist)
    } else {
        let max: nat = if MAX_MATCH < data.len() - i { MAX_MATCH as nat } else { (data.len() - i) as nat };
        let len = agree_from(data, candidate as int, i as int, max, 0);
        let next = prev[candidate as int];
        if len > best_len {
            if len == max {
                (len, (i - candidate) as nat)
            } else {
                chain_walk(data, i, next, (tries - 1) as nat, prev, len, (i - candidate) as nat)
            }
        } else {
            chain_walk(data, i, next, (tries - 1) as nat, prev, best_len, best_dist)
        }
    }
}

/// The longest match for position `i` along its hash chain, trying at most
/// 128 earlier positions within the window, and stopping at one as long as
/// can be sent.
fn longest_match(data: &[u8], i: usize, first: usize, prev: &Vec<usize>) -> (r: (usize, usize))
    requires
        i + MIN_MATCH <= data@.len(),
        first == usize::MAX || first < i,
        prev@.len() == data@.len(),
        forall|j: int| 0 <= j < prev@.len() ==> prev@[j] == usize::MAX || prev@[j] < j,
    ensures
        (r.0 as nat, r.1 as nat) == chain_walk(data@, i as nat, first, 128, prev@, 0, 0),
        r.0 <= MAX_MATCH,
        r.0 > 0 ==> is_match(data@, i as nat, r.0 as nat, r.1 as nat),
{
    let mut best_len: usize = 0;
    let mut best_dist: usize = 0;
    let mut candidate = first;
    let mut tries: u32 = 128;
    while candidate != usize::MAX && tries > 0 && i - candidate <= WINDOW
        invariant_except_break
            chain_walk(data@, i as nat, first, 128, prev@, 0, 0)
                == chain_walk(data@, i as nat, candidate, tries as nat, prev@, best_len as nat, best_dist as nat),
        invariant
            i + MIN_MATCH <= data@.len(),
            candidate == usize::MAX || candidate < i,
            prev@.len() == data@.len(),
            forall|j: int| 0 <= j < prev@.len() ==> prev@[j] == usize::MAX || prev@[j] < j,
            best_len <= MAX_MATCH,
            best_len > 0 ==> is_match(data@, i as nat, best_len as nat, best_dist as nat),
        ensures
            best_len <= MAX_MATCH,
            best_len > 0 ==> is_match(data@, i as nat, best_len as nat, best_dist as nat),
            chain_walk(data@, i as nat, first, 128, prev@, 0, 0) == (best_len as nat, best_dist as nat),
        decreases tries,
    {
        let max = if MAX_MATCH < data.len() - i { MAX_MATCH } else { data.len() - i };
        let len = match_len(data, candidate, i, max);
        if len > best_len {
            best_len = len;
            best_dist = i - candidate;
            if len == max {
                break;
            }
        }
        candidate = prev[candidate];
        tries -= 1;
    }
    (best_len, best_dist)
}

/// File position `at` at the head of its hash chain.
fn insert_position(data: &[u8], at: usize, head: &mut Vec<usize>, prev: &mut Vec<usize>)
    requires
        at + MIN_MATCH <= data@.len(),
        old(prev)@.len() == data@.len(),
        chains_ok(old(head)@, old(prev)@, at as nat),
    ensures
        ({
            let h = hash_spec(data@[at as int], data@[at + 1], data@[at + 2]) as int;
            &&& final(prev)@ == old(prev)@.update(at as int, old(head)@[h])
            &&& final(head)@ == old(head)@.update(h, at)
        }),
        final(prev)@.len() == data@.len(),
        chains_ok(final(head)@, final(prev)@, (at + 1) as nat),
{
    let h = hash(data, at);
    let first = head[h];
    prev.set(at, first);
    head.set(h, at);
}

/// The bits a compressed stream starts with: a final block with the fixed
/// codes.
pub open spec fn block_header_bits() -> Seq<bool> {
    low_bits(1, 1) + low_bits(1, 2)
}

/// The byte stream `m`: the zlib header, bytes that hold the bits of one
/// fixed-code block carrying `toks` and its end, and the checksum of `data`,
/// decodes to `data` when the tokens expand to it.
#[verifier::spinoff_prover]
proof fn lemma_compressed_stream(m: Seq<u8>, bytes: Seq<u8>, written: Seq<bool>, toks: Seq<Token>, data: Seq<u8>)
    requires
        written == block_header_bits() + tokens_bits(toks) + lit_path(256),
        valid_tokens(toks, Seq::empty()),
        expand(toks, Seq::empty()) == data,
        8 * bytes.len() == written.len() + if written.len() % 8 == 0 { 0int } else { 8 - written.len() % 8 },
        forall|k: int| 0 <= k < written.len() ==> stream_bit(bytes, k as nat) == #[trigger] written[k],
        m == seq![0x78u8, 0x01u8] + bytes + be_bytes(adler32_spec(data)),
    ensures
        zlib_decode_spec(m) == Some(data),
{
    lemma2_to64();
    let sum = adler32_spec(data);
    lemma_adler_bounds(data);
    let a = seq![0x78u8, 0x01u8];
    assert(m[0] == 0x78u8 && m[1] == 0x01u8);
    assert(0x78u8 & 15 == 8 && (0x78u8 >> 4u8) & 15 <= 7 && (0x01u8 >> 5u8) & 1 == 0) by (bit_vector);
    let wl = written.len();
    assert forall|j: int| 0 <= j < wl implies stream_bit(m, (16 + j) as nat) == #[trigger] written[j] by {
        lemma_stream_bit_prefix(a + bytes, be_bytes(sum), (16 + j) as nat);
        lemma_stream_bit_concat(a, bytes, j as nat);
    }
    assert(bits_at(m, 16, written));
    let hb = block_header_bits();
    let tb = tokens_bits(toks);
    lemma_bits_at_split(m, 16, hb + tb, lit_path(256));
    lemma_bits_at_split(m, 16, hb, tb);
    assert(hb[0] == bit(1, 0) && hb[1] == bit(1, 0) && hb[2] == bit(1, 1));
    assert(bit(1, 0) && !bit(1, 1));
    lemma_bits_value_is(m, 16, 1, 1);
    assert(stream_bit(m, 17) == bit(1, 0));
    assert(stream_bit(m, 18) == bit(1, 1));
    lemma_bits_value_is(m, 17, 2, 1);
    lemma_inflate_unfold(m, 16, Seq::empty(), 1, 1);
    reveal(block_spec);
    lemma_tokens_decode(m, 19, Seq::empty(), toks);
    lemma_end_step(m, 19 + tb.len(), data);
    let e = 2 + bytes.len();
    assert(byte_pos(16 + wl) == e);
    assert(m.subrange(e as int, (e + 4) as int) =~= be_bytes(sum));
    lemma_be_trailer(m, e, sum);
}

/// Filing the positions `i + step` up to `i + len` (those with three bytes
/// left) at the heads of their hash chains, in order.
pub open spec fn insert_run(data: Seq<u8>, i: nat, step: nat, len: nat, head: Seq<usize>, prev: Seq<usize>)
    -> (Seq<usize>, Seq<usize>)
    decreases len - step,
{
    if step >= len {
        (head, prev)
    } else {
        let at = i + step;
        if data.len() - at >= MIN_MATCH {
            let h = hash_spec(data[at as int], data[at + 1int], data[at + 2int]) as int;
            insert_run(data, i, step + 1, len, head.update(h, at as usize), prev.update(at as int, head[h]))
        } else {
            insert_run(data, i, step + 1, len, head, prev)
        }
    }
}

/// The tokens compressing `data` from `i` on sends, after `toks`, with the
/// hash chains `head` and `prev` as they stand: at each position with three
/// bytes left, file it and take the longest match along its chain when it is
/// at least three bytes long, filing the positions it covers; else send the
/// byte as it is.
pub open spec fn greedy(data: Seq<u8>, i: nat, head: Seq<usize>, prev: Seq<usize>, toks: Seq<Token>) -> Seq<Token>
    decreases data.len() - i,
{
    if i >= data.len() {
        toks
    } else if data.len() - i >= MIN_MATCH {
        let h = hash_spec(data[i as int], data[i + 1int], data[i + 2int]) as int;
        let first = head[h];
        let (l, d) = chain_walk(data, i, first, 128, prev, 0, 0);
        let head1 = head.update(h, i as usize);
        let prev1 = prev.update(i as int, first);
        if l >= MIN_MATCH && i + l <= data.len() {
            let (head2, prev2) = insert_run(data, i, 1, l, head1, prev1);
            greedy(data, i + l, head2, prev2, toks.push(Token::Copy(l, d)))
        } else {
            greedy(data, i + 1, head1, prev1, toks.push(Token::Literal(data[i as int])))
        }
    } else {
        greedy(data, i + 1, head, prev, toks.push(Token::Literal(data[i as int])))
    }
}

/// The tokens that compressing `data` sends: greedy matching from empty
/// hash chains.
pub open spec fn greedy_tokens(data: Seq<u8>) -> Seq<Token> {
    let plen: nat = if data.len() > 1 { data.len() } else { 1 };
    greedy(data, 0, Seq::new(HASH_SIZE as nat, |j: int| usize::MAX), Seq::new(plen, |j: int| usize::MAX), Seq::empty())
}

/// The bits of the one block that compressing `data` sends: final, fixed
/// codes, the greedy tokens, end of block.
pub open spec fn fixed_block_bits(data: Seq<u8>) -> Seq<bool> {
    block_header_bits() + tokens_bits(greedy_tokens(data)) + lit_path(256)
}

/// `bytes` hold the bits `w`, least significant first, the last byte padded
/// with zero bits.
pub open spec fn packs(bytes: Seq<u8>, w: Seq<bool>) -> bool {
    &&& bytes.len() == (w.len() + 7) / 8
    &&& forall|k: int| 0 <= k < w.len() ==> stream_bit(bytes, k as nat) == #[trigger] w[k]
    &&& forall|k: int| w.len() <= k < 8 * bytes.len() ==> !#[trigger] stream_bit(bytes, k as nat)
}

/// Bytes that hold the same bits are the same bytes: `packs` fixes them.
pub proof fn lemma_packs_unique(a: Seq<u8>, b: Seq<u8>, w: Seq<bool>)
    requires
        packs(a, w),
        packs(b, w),
    ensures
        a == b,
{
    assert forall|q: int| 0 <= q < a.len() implies a[q] == b[q] by {
        assert forall|j: nat| j < 8 implies stream_bit(b, (8 * q + j) as nat) == bit(a[q] as nat, j) by {
            let k = 8 * q + j;
            assert(k / 8 == q && k % 8 == j);
            if k < w.len() {
                assert(stream_bit(a, k as nat) == w[k]);
                assert(stream_bit(b, k as nat) == w[k]);
            } else {
                assert(!stream_bit(a, k as nat));
                assert(!stream_bit(b, k as nat));
            }
        }
        lemma_bits_value_is(b, (8 * q) as nat, 8, a[q] as nat);
        lemma_byte_bits(b, q as nat);
        lemma2_to64();
        lemma_small_mod_pow2(a[q] as nat, 8);
    }
    assert(a =~= b);
}

/// The eight bits of byte `q` spell the byte.
proof fn lemma_byte_bits(m: Seq<u8>, q: nat)
    requires
        q < m.len(),
    ensures
        bits_value(m, 8 * q, 8) == m[q as int] as nat,
{
    let v = m[q as int] as nat;
    assert forall|j: nat| j < 8 implies stream_bit(m, 8 * q + j) == bit(v, j) by {
        assert((8 * q + j) / 8 == q);
        assert((8 * q + j) % 8 == j);
    }
    lemma_bits_value_is(m, 8 * q, 8, v);
    lemma2_to64();
    lemma_small_mod_pow2(v, 8);
}

/// Compress `data` into a zlib stream of one block with the fixed Huffman
/// codes, finding repeats through hash chains of three-byte prefixes.
pub fn compress(data: &[u8]) -> (out: Vec<u8>)
    ensures
        zlib_decode_spec(out@) == Some(data@),
        out@.len() >= 6,
        out@.take(2) == seq![0x78u8, 0x01u8],
        packs(out@.subrange(2, out@.len() - 4), fixed_block_bits(data@)),
        out@.skip(out@.len() - 4) == be_bytes(adler32_spec(data@)),
{
    let mut out: Vec<u8> = Vec::new();
    out.push(0x78);
    out.push(0x01);
    let mut w = BitWriter::new();
    proof {
        lemma2_to64();
    }
    w.bits(1, 1);
    w.bits(1, 2);
    proof {
        assert(w.written() =~= block_header_bits() + tokens_bits(Seq::empty()));
    }

    let mut head: Vec<usize> = vec![usize::MAX; HASH_SIZE];
    let plen: usize = if data.len() > 1 { data.len() } else { 1 };
    let mut prev: Vec<usize> = vec![usize::MAX; plen];
    let ghost mut toks: Seq<Token> = Seq::empty();
    proof {
        assert(data@.take(0) =~= Seq::<u8>::empty());
        assert(head@ =~= Seq::new(HASH_SIZE as nat, |j: int| usize::MAX));
        assert(prev@ =~= Seq::new(plen as nat, |j: int| usize::MAX));
    }

    let mut i: usize = 0;
    while i < data.len()
        invariant
            i <= data@.len(),
            w.wf(),
            w.written() == block_header_bits() + tokens_bits(toks),
            valid_tokens(toks, Seq::empty()),
            expand(toks, Seq::empty()) == data@.take(i as int),
            plen == (if data@.len() > 1 { data@.len() } else { 1 }),
            prev@.len() == plen,
            chains_ok(head@, prev@, i as nat),
            greedy_tokens(data@) == greedy(data@, i as nat, head@, prev@, toks),
        decreases data.len() - i,
    {
        let ghost head0 = head@;
        let ghost prev0 = prev@;
        let ghost toks0 = toks;
        let mut best_len: usize = 0;
        let mut best_dist: usize = 0;
        if data.len() - i >= MIN_MATCH {
            let h = hash(data, i);
            let first = head[h];
            let (l, d) = longest_match(data, i, first, &prev);
            best_len = l;
            best_dist = d;
            prev.set(i, first);
            head.set(h, i);
            proof {
                assert(head@ == head0.update(h as int, i));
                assert(prev@ == prev0.update(i as int, first));
            }
        }
        if best_len >= MIN_MATCH {
            let ghost before = w.written();
            emit_length(&mut w, best_len);
            emit_distance(&mut w, best_dist);
            proof {
                let t = Token::Copy(best_len as nat, best_dist as nat);
                let nt = toks.push(t);
                assert(nt.drop_last() =~= toks);
                assert(w.written() =~= block_header_bits() + tokens_bits(nt));
                lemma_lz_copy_match(data@, i as nat, best_dist as nat, best_len as nat);
                toks = nt;
            }
            let ghost head1 = head@;
            let ghost prev1 = prev@;
            let mut step: usize = 1;
            while step < best_len
                invariant
                    1 <= step <= best_len,
                    i + best_len <= data@.len(),
                    prev@.len() == plen,
                    plen == (if data@.len() > 1 { data@.len() } else { 1 }),
                    chains_ok(head@, prev@, (i + step) as nat),
                    insert_run(data@, i as nat, 1, best_len as nat, head1, prev1)
                        == insert_run(data@, i as nat, step as nat, best_len as nat, head@, prev@),
                decreases best_len - step,
            {
                let at = i + step;
                if data.len() - at >= MIN_MATCH {
                    insert_position(data, at, &mut head, &mut prev);
                }
                step += 1;
            }
            i += best_len;
        } else {
            literal(&mut w, data[i]);
            proof {
                let t = Token::Literal(data@[i as int]);
                let nt = toks.push(t);
                assert(nt.drop_last() =~= toks);
                assert(w.written() =~= block_header_bits() + tokens_bits(nt));
                assert(data@.take(i + 1) =~= data@.take(i as int).push(data@[i as int]));
                toks = nt;
            }
            i += 1;
        }
    }

    w.code(0, 7);
    let ghost written = w.written();
    proof {
        assert(path_of(0, 7) == lit_path(256));
        assert(data@.take(i as int) =~= data@);
    }
    let bytes = w.finish();
    let mut k: usize = 0;
    while k < bytes.len()
        invariant
            k <= bytes@.len(),
            out@ == seq![0x78u8, 0x01u8] + bytes@.take(k as int),
        decreases bytes.len() - k,
    {
        out.push(bytes[k]);
        k += 1;
        proof {
            assert(bytes@.take(k as int) =~= bytes@.take(k - 1).push(bytes@[k - 1]));
        }
    }
    let sum = adler32(data);
    let be = to_be_bytes(sum);
    out.push(be[0]);
    out.push(be[1]);
    out.push(be[2]);
    out.push(be[3]);
    proof {
        assert(bytes@.take(k as int) =~= bytes@);
        assert(out@ =~= seq![0x78u8, 0x01u8] + bytes@ + be_bytes(adler32_spec(data@)));
        lemma_compressed_stream(out@, bytes@, written, toks, data@);
        assert(toks == greedy_tokens(data@));
        assert(written == fixed_block_bits(data@));
        assert(out@.subrange(2, out@.len() - 4) =~= bytes@);
        assert(out@.skip(out@.len() - 4) =~= be_bytes(adler32_spec(data@)));
        assert(bytes@.len() == (written.len() + 7) / 8);
    }
    out
}

} // verus!

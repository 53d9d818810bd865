//! Decoding a zlib stream (RFC 1950) holding DEFLATE blocks (RFC 1951).
//!
//! The `*_spec` functions say what the stream means: each takes the bytes,
//! the bit position to start at and the output so far, and gives the output
//! and bit position after, or `None` when the stream is malformed. The
//! executable functions are proved to agree with them.

use vstd::prelude::*;
use vstd::string::StringExecFns;
use vstd::arithmetic::power2::{pow2, lemma2_to64};
use crate::utils::zlib::bits::{stream_bit, bits_value, read_bits_spec, read_bytes_spec, byte_pos, BitReader, lemma_bits_value_bound};
use crate::utils::zlib::huffman::{Node, HuffmanTree, decode_spec, decode_failure, build_tree, build_prefix, bl_list_to_tree, decode_symbol, lemma_decode_bounds};
use crate::utils::zlib::tables::{LENGTH_EXTRA_BITS, LENGTH_BASE, DISTANCE_EXTRA_BITS, DISTANCE_BASE, CODE_LENGTH_CODES_ORDER, lemma_tables};
use crate::utils::zlib::checksum::{adler32, adler32_spec, swap_bytes, swap_spec};
use crate::error::SoulseekRs;

verus! {

/// The numbers `0..n`, as symbols.
pub open spec fn iota(n: nat) -> Seq<u32> {
    Seq::new(n, |i: int| i as u32)
}

/// `out` with `len` bytes appended, each a copy of the byte `dist` back:
/// the copies may overlap what they append.
pub open spec fn lz_copy(out: Seq<u8>, dist: nat, len: nat) -> Seq<u8>
    decreases len,
{
    if len == 0 {
        out
    } else {
        let o = lz_copy(out, dist, (len - 1) as nat);
        o.push(o[o.len() - dist])
    }
}

/// A block of Huffman-coded literals and matches, until the end-of-block
/// symbol.
pub open spec fn block_data_spec(lit: Node, dist: Node, mem: Seq<u8>, bp: nat, out: Seq<u8>) -> Option<(Seq<u8>, nat)>
    decreases 8 * mem.len() - bp,
{
    if bp > 8 * mem.len() {
        None
    } else {
        match decode_spec(lit, mem, bp) {
            None => None,
            Some((sym, bp1)) => {
                if bp1 <= bp || bp1 > 8 * mem.len() {
                    None
                } else if sym <= 255 {
                    block_data_spec(lit, dist, mem, bp1, out.push(sym as u8))
                } else if sym == 256 {
                    Some((out, bp1))
                } else if sym - 257 >= 29 {
                    None
                } else {
                    let idx = sym - 257;
                    match read_bits_spec(mem, bp1, LENGTH_EXTRA_BITS@[idx] as nat) {
                        None => None,
                        Some((e, bp2)) => {
                            let length = e + LENGTH_BASE@[idx];
                            match decode_spec(dist, mem, bp2) {
                                None => None,
                                Some((ds, bp3)) => {
                                    if ds >= 30 {
                                        None
                                    } else {
                                        match read_bits_spec(mem, bp3, DISTANCE_EXTRA_BITS@[ds as int] as nat) {
                                            None => None,
                                            Some((e2, bp4)) => {
                                                let d = e2 + DISTANCE_BASE@[ds as int];
                                                if d > out.len() || bp4 <= bp || bp4 > 8 * mem.len() {
                                                    None
                                                } else {
                                                    block_data_spec(lit, dist, mem, bp4, lz_copy(out, d as nat, length as nat))
                                                }
                                            },
                                        }
                                    }
                                },
                            }
                        },
                    }
                }
            },
        }
    }
}

/// Where a block of literals and matches fails: the output as it stood
/// when the bad code was met, and the error's text. Its value matters only
/// where `block_data_spec` is `None`.
pub open spec fn block_data_failure(lit: Node, dist: Node, mem: Seq<u8>, bp: nat, out: Seq<u8>) -> (Seq<u8>, Seq<char>)
    decreases 8 * mem.len() - bp,
{
    if bp > 8 * mem.len() {
        (out, Seq::empty())
    } else {
        match decode_spec(lit, mem, bp) {
            None => (out, decode_failure(lit, mem, bp)),
            Some((sym, bp1)) => {
                if bp1 <= bp || bp1 > 8 * mem.len() {
                    (out, Seq::empty())
                } else if sym <= 255 {
                    block_data_failure(lit, dist, mem, bp1, out.push(sym as u8))
                } else if sym == 256 {
                    (out, Seq::empty())
                } else if sym - 257 >= 29 {
                    (out, "Invalid length symbol"@)
                } else {
                    let idx = sym - 257;
                    match read_bits_spec(mem, bp1, LENGTH_EXTRA_BITS@[idx] as nat) {
                        None => (out, "End of data"@),
                        Some((e, bp2)) => {
                            let length = e + LENGTH_BASE@[idx];
                            match decode_spec(dist, mem, bp2) {
                                None => (out, decode_failure(dist, mem, bp2)),
                                Some((ds, bp3)) => {
                                    if ds >= 30 {
                                        (out, "Invalid distance symbol"@)
                                    } else {
                                        match read_bits_spec(mem, bp3, DISTANCE_EXTRA_BITS@[ds as int] as nat) {
                                            None => (out, "End of data"@),
                                            Some((e2, bp4)) => {
                                                let d = e2 + DISTANCE_BASE@[ds as int];
                                                if d > out.len() {
                                                    (out, "Distance too large"@)
                                                } else if bp4 <= bp || bp4 > 8 * mem.len() {
                                                    (out, Seq::empty())
                                                } else {
                                                    block_data_failure(lit, dist, mem, bp4, lz_copy(out, d as nat, length as nat))
                                                }
                                            },
                                        }
                                    }
                                },
                            }
                        },
                    }
                }
            },
        }
    }
}

/// A stored block: its length, the length's complement (not checked), and
/// that many bytes, all byte-aligned.
pub open spec fn stored_block_spec(mem: Seq<u8>, bp: nat, out: Seq<u8>) -> Option<(Seq<u8>, nat)> {
    match read_bytes_spec(mem, bp, 2) {
        None => None,
        Some((len, bp1)) => match read_bytes_spec(mem, bp1, 2) {
            None => None,
            Some((_, bp2)) => {
                let p = bp2 / 8;
                if p + len <= mem.len() {
                    Some((out + mem.subrange(p as int, (p + len) as int), 8 * (p + len)))
                } else {
                    None
                }
            },
        },
    }
}

/// The code lengths of the fixed literal/length code.
pub open spec fn fixed_lit_lengths() -> Seq<usize> {
    Seq::new(288, |i: int| if i < 144 { 8usize } else if i < 256 { 9usize } else if i < 280 { 7usize } else { 8usize })
}

pub open spec fn fixed_lit_tree() -> Node {
    build_tree(fixed_lit_lengths(), iota(286))
}

pub open spec fn fixed_dist_lengths() -> Seq<usize> {
    Seq::new(30, |i: int| 5usize)
}

pub open spec fn fixed_dist_tree() -> Node {
    build_tree(fixed_dist_lengths(), iota(30))
}

/// The code length code lengths, after the first `k` of them are read.
pub open spec fn cl_lengths_spec(mem: Seq<u8>, bp: nat, k: nat) -> Option<(Seq<usize>, nat)>
    decreases k,
{
    if k == 0 {
        Some((Seq::new(19, |i: int| 0usize), bp))
    } else {
        match cl_lengths_spec(mem, bp, (k - 1) as nat) {
            None => None,
            Some((cl, bp1)) => match read_bits_spec(mem, bp1, 3) {
                None => None,
                Some((v, bp2)) => Some((cl.update(CODE_LENGTH_CODES_ORDER@[k - 1] as int, v as usize), bp2)),
            },
        }
    }
}

/// The literal/length and distance code lengths, read with the code length
/// code until there are at least `target` of them.
pub open spec fn read_lengths_spec(clt: Node, mem: Seq<u8>, bp: nat, bl: Seq<usize>, target: nat) -> Option<(Seq<usize>, nat)>
    decreases 8 * mem.len() - bp,
{
    if bl.len() >= target {
        Some((bl, bp))
    } else if bp > 8 * mem.len() {
        None
    } else {
        match decode_spec(clt, mem, bp) {
            None => None,
            Some((sym, bp1)) => {
                if bp1 <= bp || bp1 > 8 * mem.len() {
                    None
                } else if sym <= 15 {
                    read_lengths_spec(clt, mem, bp1, bl.push(sym as usize), target)
                } else if sym == 16 {
                    if bl.len() == 0 {
                        None
                    } else {
                        match read_bits_spec(mem, bp1, 2) {
                            None => None,
                            Some((v, bp2)) => read_lengths_spec(clt, mem, bp2, bl + Seq::new(v + 3, |i: int| bl.last()), target),
                        }
                    }
                } else if sym == 17 {
                    match read_bits_spec(mem, bp1, 3) {
                        None => None,
                        Some((v, bp2)) => read_lengths_spec(clt, mem, bp2, bl + Seq::new(v + 3, |i: int| 0usize), target),
                    }
                } else if sym == 18 {
                    match read_bits_spec(mem, bp1, 7) {
                        None => None,
                        Some((v, bp2)) => read_lengths_spec(clt, mem, bp2, bl + Seq::new(v + 11, |i: int| 0usize), target),
                    }
                } else {
                    None
                }
            },
        }
    }
}

/// Why reading the code lengths fails: the error's text. Its value matters
/// only where `read_lengths_spec` is `None`.
pub open spec fn read_lengths_failure(clt: Node, mem: Seq<u8>, bp: nat, bl: Seq<usize>, target: nat) -> Seq<char>
    decreases 8 * mem.len() - bp,
{
    if bl.len() >= target || bp > 8 * mem.len() {
        Seq::empty()
    } else {
        match decode_spec(clt, mem, bp) {
            None => decode_failure(clt, mem, bp),
            Some((sym, bp1)) => {
                if bp1 <= bp || bp1 > 8 * mem.len() {
                    Seq::empty()
                } else if sym <= 15 {
                    read_lengths_failure(clt, mem, bp1, bl.push(sym as usize), target)
                } else if sym == 16 {
                    if bl.len() == 0 {
                        "No previous code length"@
                    } else {
                        match read_bits_spec(mem, bp1, 2) {
                            None => "End of data"@,
                            Some((v, bp2)) => read_lengths_failure(clt, mem, bp2, bl + Seq::new(v + 3, |i: int| bl.last()), target),
                        }
                    }
                } else if sym == 17 {
                    match read_bits_spec(mem, bp1, 3) {
                        None => "End of data"@,
                        Some((v, bp2)) => read_lengths_failure(clt, mem, bp2, bl + Seq::new(v + 3, |i: int| 0usize), target),
                    }
                } else if sym == 18 {
                    match read_bits_spec(mem, bp1, 7) {
                        None => "End of data"@,
                        Some((v, bp2)) => read_lengths_failure(clt, mem, bp2, bl + Seq::new(v + 11, |i: int| 0usize), target),
                    }
                } else {
                    "Invalid symbol"@
                }
            },
        }
    }
}

/// What each code-length symbol stands for, as RFC 1951 (3.2.7) gives it:
/// 0 to 15 are a length; 16 and two extra bits `v` repeat the previous
/// length `v + 3` times (3 to 6), and is an error with no previous length;
/// 17 and three extra bits give `v + 3` zero lengths (3 to 10); 18 and seven
/// extra bits give `v + 11` zero lengths (11 to 138); no other symbol is
/// one. Reading then goes on after the symbol and its extra bits.
pub proof fn lemma_code_length_symbols(clt: Node, mem: Seq<u8>, bp: nat, bl: Seq<usize>, target: nat, sym: u32, bp1: nat)
    requires
        bl.len() < target,
        bp < bp1 <= 8 * mem.len(),
        decode_spec(clt, mem, bp) == Some((sym, bp1)),
    ensures
        ({
            let rest = read_lengths_spec(clt, mem, bp, bl, target);
            &&& sym <= 15 ==> rest == read_lengths_spec(clt, mem, bp1, bl.push(sym as usize), target)
            &&& sym == 16 && bl.len() == 0 ==> rest is None
            &&& sym == 16 && bl.len() > 0 ==> rest == match read_bits_spec(mem, bp1, 2) {
                None => None,
                Some((v, bp2)) => read_lengths_spec(clt, mem, bp2, bl + Seq::new((v + 3) as nat, |i: int| bl[bl.len() - 1]), target),
            }
            &&& sym == 17 ==> rest == match read_bits_spec(mem, bp1, 3) {
                None => None,
                Some((v, bp2)) => read_lengths_spec(clt, mem, bp2, bl + Seq::new((v + 3) as nat, |i: int| 0usize), target),
            }
            &&& sym == 18 ==> rest == match read_bits_spec(mem, bp1, 7) {
                None => None,
                Some((v, bp2)) => read_lengths_spec(clt, mem, bp2, bl + Seq::new((v + 11) as nat, |i: int| 0usize), target),
            }
            &&& sym > 18 ==> rest is None
        }),
{
    if sym == 16 && bl.len() > 0 {
        if let Some((v, bp2)) = read_bits_spec(mem, bp1, 2) {
            assert(Seq::new((v + 3) as nat, |i: int| bl[bl.len() - 1]) =~= Seq::new(v + 3, |i: int| bl.last()));
        }
    }
}

/// The two trees of a dynamic block from its code lengths: the first `hlit`
/// are the literal/length code's, the rest the distance code's.
pub open spec fn trees_from_lengths(rl: Option<(Seq<usize>, nat)>, hlit: nat) -> Option<(Node, Node, nat)> {
    match rl {
        None => None,
        Some((bl, bp)) => Some((
            build_tree(bl.take(hlit as int), iota(286)),
            build_tree(bl.skip(hlit as int), iota(30)),
            bp,
        )),
    }
}

/// The two trees of a dynamic block from its code length code.
pub open spec fn trees_from_cl(mem: Seq<u8>, cl: Option<(Seq<usize>, nat)>, hlit: nat, hdist: nat) -> Option<(Node, Node, nat)> {
    match cl {
        None => None,
        Some((cl, bp)) => trees_from_lengths(
            read_lengths_spec(build_tree(cl, iota(19)), mem, bp, Seq::empty(), hlit + hdist),
            hlit,
        ),
    }
}

/// The two trees of a dynamic block, and the bit position after their
/// description: five bits for the number of literal/length codes less 257,
/// five for the number of distance codes less one, four for the number of
/// code length codes less four, then the code length code and the lengths.
pub open spec fn decode_trees_spec(mem: Seq<u8>, bp: nat) -> Option<(Node, Node, nat)> {
    match read_bits_spec(mem, bp, 5) {
        None => None,
        Some((v1, bp1)) => match read_bits_spec(mem, bp1, 5) {
            None => None,
            Some((v2, bp2)) => match read_bits_spec(mem, bp2, 4) {
                None => None,
                Some((v3, bp3)) => trees_from_cl(mem, cl_lengths_spec(mem, bp3, v3 + 4), v1 + 257, v2 + 1),
            },
        },
    }
}

/// Why the description of a dynamic block's trees fails: the error's text.
/// Its value matters only where `decode_trees_spec` is `None`.
pub open spec fn decode_trees_failure(mem: Seq<u8>, bp: nat) -> Seq<char> {
    match read_bits_spec(mem, bp, 5) {
        None => "End of data"@,
        Some((v1, bp1)) => match read_bits_spec(mem, bp1, 5) {
            None => "End of data"@,
            Some((v2, bp2)) => match read_bits_spec(mem, bp2, 4) {
                None => "End of data"@,
                Some((v3, bp3)) => match cl_lengths_spec(mem, bp3, v3 + 4) {
                    None => "End of data"@,
                    Some((cl, bp4)) => read_lengths_failure(build_tree(cl, iota(19)), mem, bp4, Seq::empty(), v1 + 257 + v2 + 1),
                },
            },
        },
    }
}

/// A dynamic block's header, as RFC 1951 (3.2.7) gives it: five bits of
/// HLIT, the number of literal/length codes less 257; five of HDIST, the
/// number of distance codes less one; four of HCLEN, the number of code
/// length codes less four; then three bits for each of those, in the order
/// 16, 17, 18, 0, 8, 7, 9, 6, 10, 5, 11, 4, 12, 3, 13, 2, 14, 1, 15; then
/// HLIT + 257 literal/length and HDIST + 1 distance code lengths, the first
/// for the literal/length tree and the rest for the distance tree.
pub proof fn lemma_dynamic_header(mem: Seq<u8>, bp: nat)
    ensures
        CODE_LENGTH_CODES_ORDER@ =~= seq![16usize, 17, 18, 0, 8, 7, 9, 6, 10, 5, 11, 4, 12, 3, 13, 2, 14, 1, 15],
        decode_trees_spec(mem, bp) == match (read_bits_spec(mem, bp, 5), read_bits_spec(mem, bp + 5, 5), read_bits_spec(mem, bp + 10, 4)) {
            (Some((hlit, _)), Some((hdist, _)), Some((hclen, bp3))) => match cl_lengths_spec(mem, bp3, hclen + 4) {
                None => None,
                Some((cl, bp4)) => match read_lengths_spec(build_tree(cl, iota(19)), mem, bp4, Seq::empty(), hlit + 257 + hdist + 1) {
                    None => None,
                    Some((lengths, bp5)) => Some((
                        build_tree(lengths.take((hlit + 257) as int), iota(286)),
                        build_tree(lengths.skip((hlit + 257) as int), iota(30)),
                        bp5,
                    )),
                },
            },
            _ => None,
        },
{
    assert(CODE_LENGTH_CODES_ORDER@ =~= seq![16usize, 17, 18, 0, 8, 7, 9, 6, 10, 5, 11, 4, 12, 3, 13, 2, 14, 1, 15]);
}

/// One block of the given type, after its three header bits.
#[verifier::opaque]
pub open spec fn block_spec(btype: nat, mem: Seq<u8>, bp: nat, out: Seq<u8>) -> Option<(Seq<u8>, nat)> {
    if btype == 0 {
        stored_block_spec(mem, bp, out)
    } else if btype == 1 {
        block_data_spec(fixed_lit_tree(), fixed_dist_tree(), mem, bp, out)
    } else if btype == 2 {
        match decode_trees_spec(mem, bp) {
            None => None,
            Some((lit, dist, bp1)) => block_data_spec(lit, dist, mem, bp1, out),
        }
    } else {
        None
    }
}

/// Why a block of the given type fails: the error's text. Its value
/// matters only where `block_spec` is `None`.
pub open spec fn block_failure(btype: nat, mem: Seq<u8>, bp: nat, out: Seq<u8>) -> Seq<char> {
    if btype == 0 {
        "End of data"@
    } else if btype == 1 {
        block_data_failure(fixed_lit_tree(), fixed_dist_tree(), mem, bp, out).1
    } else if btype == 2 {
        match decode_trees_spec(mem, bp) {
            None => decode_trees_failure(mem, bp),
            Some((lit, dist, bp1)) => block_data_failure(lit, dist, mem, bp1, out).1,
        }
    } else {
        "invalid BTYPE"@
    }
}

/// Blocks, each with its final-block bit and type, up to and including the
/// one marked final.
#[verifier::opaque]
pub open spec fn inflate_spec(mem: Seq<u8>, bp: nat, out: Seq<u8>) -> Option<(Seq<u8>, nat)>
    decreases 8 * mem.len() - bp,
{
    if bp > 8 * mem.len() {
        None
    } else {
        match read_bits_spec(mem, bp, 1) {
            None => None,
            Some((bfinal, bp1)) => match read_bits_spec(mem, bp1, 2) {
                None => None,
                Some((btype, bp2)) => match block_spec(btype, mem, bp2, out) {
                    None => None,
                    Some((out2, bp3)) => {
                        if bfinal != 0 {
                            Some((out2, bp3))
                        } else if bp3 <= bp || bp3 > 8 * mem.len() {
                            None
                        } else {
                            inflate_spec(mem, bp3, out2)
                        }
                    },
                },
            },
        }
    }
}

/// Why the blocks from `bp` on fail: the error's text. Its value matters
/// only where `inflate_spec` is `None`.
pub open spec fn inflate_failure(mem: Seq<u8>, bp: nat, out: Seq<u8>) -> Seq<char>
    decreases 8 * mem.len() - bp,
{
    if bp > 8 * mem.len() {
        Seq::empty()
    } else {
        match read_bits_spec(mem, bp, 1) {
            None => "End of data"@,
            Some((bfinal, bp1)) => match read_bits_spec(mem, bp1, 2) {
                None => "End of data"@,
                Some((btype, bp2)) => match block_spec(btype, mem, bp2, out) {
                    None => block_failure(btype, mem, bp2, out),
                    Some((out2, bp3)) => {
                        if bfinal != 0 || bp3 <= bp || bp3 > 8 * mem.len() {
                            Seq::empty()
                        } else {
                            inflate_failure(mem, bp3, out2)
                        }
                    },
                },
            },
        }
    }
}

/// What a zlib stream decodes to: a two-byte header asking for DEFLATE with
/// a window of at most 32K and no preset dictionary, whose check bits make
/// it a multiple of 31; the DEFLATE blocks; and a big-endian Adler-32 of the
/// output that matches.
pub open spec fn zlib_decode_spec(input: Seq<u8>) -> Option<Seq<u8>> {
    if input.len() < 2 {
        None
    } else {
        let cmf = input[0];
        let flg = input[1];
        if cmf & 15 != 8 {
            None
        } else if (cmf >> 4u8) & 15 > 7 {
            None
        } else if (cmf as nat * 256 + flg as nat) % 31 != 0 {
            None
        } else if (flg >> 5u8) & 1 != 0 {
            None
        } else {
            match inflate_spec(input, 16, Seq::empty()) {
                None => None,
                Some((out, bp)) => match read_bytes_spec(input, bp, 4) {
                    None => None,
                    Some((v, _)) => if swap_spec(v) == adler32_spec(out) {
                        Some(out)
                    } else {
                        None
                    },
                },
            }
        }
    }
}

// ---------------------------------------------------------------------------
// Facts.

/// Why a zlib stream is refused: the error's text, in the order in which
/// the header, the blocks and the trailer are checked. Its value matters
/// only where `zlib_decode_spec` is `None`.
pub open spec fn zlib_decode_failure(input: Seq<u8>) -> Seq<char> {
    if input.len() == 0 {
        "End of data"@
    } else if input[0] & 15 != 8 {
        "invalid CM"@
    } else if (input[0] >> 4u8) & 15 > 7 {
        "invalid CINFO"@
    } else if input.len() < 2 {
        "End of data"@
    } else if (input[0] as nat * 256 + input[1] as nat) % 31 != 0 {
        "CMF+FLG checksum failed"@
    } else if (input[1] >> 5u8) & 1 != 0 {
        "preset dictionary not supported"@
    } else {
        match inflate_spec(input, 16, Seq::empty()) {
            None => inflate_failure(input, 16, Seq::empty()),
            Some((out, bp)) => match read_bytes_spec(input, bp, 4) {
                None => "End of data"@,
                Some(_) => "adler32 checksum failed"@,
            },
        }
    }
}

pub proof fn lemma_read_one_bit(mem: Seq<u8>, bp: nat)
    ensures
        bits_value(mem, bp, 1) == if stream_bit(mem, bp) { 1nat } else { 0nat },
{
    assert(pow2(0) == 1) by { lemma2_to64(); }
    assert(bits_value(mem, bp, 0) == 0);
}

/// A tree made only of codes at least one bit long has no symbol at its
/// root, so each symbol it decodes takes at least one bit.
pub proof fn lemma_build_root(bl: Seq<usize>, alphabet: Seq<u32>, k: int)
    ensures
        build_prefix(bl, alphabet, k).symbol is None,
    decreases k,
{
    if k > 0 {
        lemma_build_root(bl, alphabet, k - 1);
    }
}

pub proof fn lemma_decode_trees_root(mem: Seq<u8>, bp: nat)
    ensures
        decode_trees_spec(mem, bp) matches Some((lit, _, _)) ==> lit.symbol is None,
{
    if let Some((lit, _, _)) = decode_trees_spec(mem, bp) {
        let (v1, bp1) = read_bits_spec(mem, bp, 5).unwrap();
        let (v2, bp2) = read_bits_spec(mem, bp1, 5).unwrap();
        let (v3, bp3) = read_bits_spec(mem, bp2, 4).unwrap();
        let (cl, bp4) = cl_lengths_spec(mem, bp3, v3 + 4).unwrap();
        let clt = build_tree(cl, iota(19));
        let (bl, bp5) = read_lengths_spec(clt, mem, bp4, Seq::empty(), v1 + 257 + v2 + 1).unwrap();
        let head = bl.take((v1 + 257) as int);
        lemma_build_root(head, iota(286), head.len() as int);
    }
}

/// Reading code lengths never moves backwards or past the end.
pub proof fn lemma_read_lengths_progress(clt: Node, mem: Seq<u8>, bp: nat, bl: Seq<usize>, target: nat)
    requires
        bp <= 8 * mem.len(),
    ensures
        read_lengths_spec(clt, mem, bp, bl, target) matches Some((_, bp2)) ==> bp <= bp2 <= 8 * mem.len(),
    decreases 8 * mem.len() - bp,
{
    if bl.len() < target {
        if let Some((sym, bp1)) = decode_spec(clt, mem, bp) {
            if bp1 > bp && bp1 <= 8 * mem.len() {
                if sym <= 15 {
                    lemma_read_lengths_progress(clt, mem, bp1, bl.push(sym as usize), target);
                } else if sym == 16 {
                    if bl.len() != 0 {
                        if let Some((v, bp2)) = read_bits_spec(mem, bp1, 2) {
                            lemma_read_lengths_progress(clt, mem, bp2, bl + Seq::new(v + 3, |i: int| bl.last()), target);
                        }
                    }
                } else if sym == 17 {
                    if let Some((v, bp2)) = read_bits_spec(mem, bp1, 3) {
                        lemma_read_lengths_progress(clt, mem, bp2, bl + Seq::new(v + 3, |i: int| 0usize), target);
                    }
                } else if sym == 18 {
                    if let Some((v, bp2)) = read_bits_spec(mem, bp1, 7) {
                        lemma_read_lengths_progress(clt, mem, bp2, bl + Seq::new(v + 11, |i: int| 0usize), target);
                    }
                }
            }
        }
    }
}

pub proof fn lemma_cl_lengths_none(mem: Seq<u8>, bp: nat, k: nat, k2: nat)
    requires
        cl_lengths_spec(mem, bp, k) is None,
        k <= k2,
    ensures
        cl_lengths_spec(mem, bp, k2) is None,
    decreases k2,
{
    if k2 > k {
        lemma_cl_lengths_none(mem, bp, k, (k2 - 1) as nat);
    }
}

pub proof fn lemma_cl_lengths_progress(mem: Seq<u8>, bp: nat, k: nat)
    requires
        k <= 19,
    ensures
        cl_lengths_spec(mem, bp, k) matches Some((cl, bp2)) ==> bp <= bp2 && (bp <= 8 * mem.len() ==> bp2 <= 8 * mem.len()) && cl.len() == 19,
    decreases k,
{
    if k > 0 {
        lemma_tables();
        lemma_cl_lengths_progress(mem, bp, (k - 1) as nat);
        match cl_lengths_spec(mem, bp, (k - 1) as nat) {
            None => {},
            Some((cl, bp1)) => match read_bits_spec(mem, bp1, 3) {
                None => {},
                Some((v, bp2)) => {
                    assert(cl_lengths_spec(mem, bp, k) == Some((cl.update(CODE_LENGTH_CODES_ORDER@[k - 1] as int, v as usize), bp2)));
                },
            },
        }
    }
}

/// A block of literals and matches ends after where it starts, and within
/// the stream.
pub proof fn lemma_block_data_progress(lit: Node, dist: Node, mem: Seq<u8>, bp: nat, out: Seq<u8>)
    ensures
        block_data_spec(lit, dist, mem, bp, out) matches Some((_, bp2)) ==> bp < bp2 <= 8 * mem.len(),
    decreases 8 * mem.len() - bp,
{
    if bp <= 8 * mem.len() {
        if let Some((sym, bp1)) = decode_spec(lit, mem, bp) {
            if bp1 > bp && bp1 <= 8 * mem.len() {
                if sym <= 255 {
                    lemma_block_data_progress(lit, dist, mem, bp1, out.push(sym as u8));
                } else if sym > 256 && sym - 257 < 29 {
                    let idx = sym - 257;
                    if let Some((e, bp2)) = read_bits_spec(mem, bp1, LENGTH_EXTRA_BITS@[idx] as nat) {
                        let length = e + LENGTH_BASE@[idx];
                        if let Some((ds, bp3)) = decode_spec(dist, mem, bp2) {
                            if ds < 30 {
                                if let Some((e2, bp4)) = read_bits_spec(mem, bp3, DISTANCE_EXTRA_BITS@[ds as int] as nat) {
                                    let d = e2 + DISTANCE_BASE@[ds as int];
                                    if !(d > out.len() || bp4 <= bp || bp4 > 8 * mem.len()) {
                                        lemma_block_data_progress(lit, dist, mem, bp4, lz_copy(out, d as nat, length as nat));
                                    }
                                }
                            }
                        }
                    }
                }
            }
        }
    }
}

/// Every kind of block ends after where it starts, and within the stream.
pub proof fn lemma_block_progress(btype: nat, mem: Seq<u8>, bp: nat, out: Seq<u8>)
    requires
        bp <= 8 * mem.len(),
    ensures
        block_spec(btype, mem, bp, out) matches Some((_, bp2)) ==> bp < bp2 <= 8 * mem.len(),
{
    reveal(block_spec);
    if btype == 0 {
        if let Some((len, bp1)) = read_bytes_spec(mem, bp, 2) {
            if let Some((_, bp2)) = read_bytes_spec(mem, bp1, 2) {
                assert(bp2 / 8 == byte_pos(bp1) + 2);
            }
        }
    } else if btype == 1 {
        lemma_block_data_progress(fixed_lit_tree(), fixed_dist_tree(), mem, bp, out);
    } else if btype == 2 {
        if let Some((lit, dist, bp1)) = decode_trees_spec(mem, bp) {
            lemma_block_data_progress(lit, dist, mem, bp1, out);
            let (v1, q1) = read_bits_spec(mem, bp, 5).unwrap();
            let (v2, q2) = read_bits_spec(mem, q1, 5).unwrap();
            let (v3, q3) = read_bits_spec(mem, q2, 4).unwrap();
            lemma_bits_value_bound(mem, q2, 4);
            assert(pow2(4) == 16) by { lemma2_to64(); }
            lemma_cl_lengths_progress(mem, q3, v3 + 4);
            let (cl, q4) = cl_lengths_spec(mem, q3, v3 + 4).unwrap();
            lemma_read_lengths_progress(build_tree(cl, iota(19)), mem, q4, Seq::empty(), v1 + 257 + v2 + 1);
        }
    }
}

pub proof fn lemma_inflate_short(mem: Seq<u8>, bp: nat, out: Seq<u8>)
    ensures
        bp + 3 > 8 * mem.len() ==> inflate_spec(mem, bp, out) is None,
{
    reveal(inflate_spec);
}

pub proof fn lemma_inflate_unfold(mem: Seq<u8>, bp: nat, out: Seq<u8>, bfinal: nat, btype: nat)
    requires
        bp + 3 <= 8 * mem.len(),
        bfinal == bits_value(mem, bp, 1),
        btype == bits_value(mem, bp + 1, 2),
    ensures
        inflate_spec(mem, bp, out) == match block_spec(btype, mem, bp + 3, out) {
            None => None,
            Some((out2, bp3)) => {
                if bfinal != 0 {
                    Some((out2, bp3))
                } else if bp3 <= bp || bp3 > 8 * mem.len() {
                    None
                } else {
                    inflate_spec(mem, bp3, out2)
                }
            },
        },
{
    reveal(inflate_spec);
}

// ---------------------------------------------------------------------------
// Decoding.

fn inflate_block_no_compression(r: &mut BitReader, o: &mut Vec<u8>) -> (res: Result<(), String>)
    requires
        old(r).wf(),
    ensures
        final(r).wf(),
        final(r).data() == old(r).data(),
        match stored_block_spec(old(r).data(), old(r).bit_pos(), old(o)@) {
            Some((out, bp)) => res is Ok && final(o)@ == out && final(r).bit_pos() == bp,
            None => res matches Err(e) && e@ == "End of data"@,
        },
{
    let ghost mem = r.data();
    let len = match r.read_bytes(2) {
        Ok(v) => v,
        Err(e) => return Err(e),
    };
    let _nlen = match r.read_bytes(2) {
        Ok(v) => v,
        Err(e) => return Err(e),
    };
    let ghost p = r.bit_pos() / 8;
    let ghost start = o@;
    proof {
        assert(byte_pos(r.bit_pos()) == p);
        r.lemma_wf_bounds();
    }
    let mut k: u32 = 0;
    while k < len
        invariant
            r.wf(),
            r.data() == mem,
            mem == old(r).data(),
            k <= len,
            r.bit_pos() == 8 * (p + k),
            p + k <= mem.len(),
            start == old(o)@,
            stored_block_spec(mem, old(r).bit_pos(), old(o)@) == if p + len <= mem.len() {
                Some((start + mem.subrange(p as int, (p + len) as int), (8 * (p + len)) as nat))
            } else {
                None::<(Seq<u8>, nat)>
            },
            o@ == start + mem.subrange(p as int, (p + k) as int),
        decreases len - k,
    {
        proof {
            assert(byte_pos((8 * (p + k)) as nat) == p + k);
        }
        let b = match r.read_byte() {
            Ok(b) => b,
            Err(e) => return Err(e),
        };
        proof {
            assert(mem.subrange(p as int, (p + k + 1) as int) =~= mem.subrange(p as int, (p + k) as int).push(b));
        }
        o.push(b);
        k += 1;
    }
    proof {
        assert(mem.subrange(p as int, p as int) =~= Seq::<u8>::empty());
        assert(start + Seq::<u8>::empty() =~= start);
    }
    Ok(())
}

fn inflate_block_data(r: &mut BitReader, literal_length_tree: &HuffmanTree, distance_tree: &HuffmanTree, out: &mut Vec<u8>) -> (res: Result<(), String>)
    requires
        old(r).wf(),
        literal_length_tree.root.symbol is None,
    ensures
        final(r).wf(),
        final(r).data() == old(r).data(),
        match block_data_spec(literal_length_tree.root, distance_tree.root, old(r).data(), old(r).bit_pos(), old(out)@) {
            Some((o, bp)) => res is Ok && final(out)@ == o && final(r).bit_pos() == bp,
            None => res matches Err(e) && {
                let (o, why) = block_data_failure(literal_length_tree.root, distance_tree.root, old(r).data(), old(r).bit_pos(), old(out)@);
                final(out)@ == o && e@ == why
            },
        },
{
    let ghost mem = r.data();
    let ghost lit = literal_length_tree.root;
    let ghost dst = distance_tree.root;
    let ghost goal = block_data_spec(lit, dst, mem, r.bit_pos(), out@);
    let ghost fail = block_data_failure(lit, dst, mem, r.bit_pos(), out@);
    proof {
        lemma_tables();
        r.lemma_wf_bounds();
    }
    loop
        invariant
            r.wf(),
            r.data() == mem,
            mem == old(r).data(),
            lit == literal_length_tree.root,
            dst == distance_tree.root,
            lit.symbol is None,
            goal == block_data_spec(lit, dst, old(r).data(), old(r).bit_pos(), old(out)@),
            block_data_spec(lit, dst, mem, r.bit_pos(), out@) == goal,
            fail == block_data_failure(lit, dst, old(r).data(), old(r).bit_pos(), old(out)@),
            block_data_failure(lit, dst, mem, r.bit_pos(), out@) == fail,
        decreases 8 * mem.len() - r.bit_pos(),
    {
        let ghost bp = r.bit_pos();
        proof {
            r.lemma_wf_bounds();
            lemma_decode_bounds(lit, mem, bp);
        }
        let sym = match decode_symbol(r, literal_length_tree) {
            Ok(s) => s,
            Err(e) => return Err(e),
        };
        if sym <= 255 {
            out.push(sym as u8);
        } else if sym == 256 {
            return Ok(());
        } else {
            let sym_idx = (sym - 257) as usize;
            if sym_idx >= LENGTH_EXTRA_BITS.len() {
                return Err(String::from_str("Invalid length symbol"));
            }
            let ghost bp1 = r.bit_pos();
            let extra = match r.read_bits(LENGTH_EXTRA_BITS[sym_idx]) {
                Ok(v) => v,
                Err(e) => return Err(e),
            };
            proof {
                lemma_bits_value_bound(mem, bp1, LENGTH_EXTRA_BITS@[sym_idx as int] as nat);
                assert(pow2(5) == 32) by { lemma2_to64(); }
                if LENGTH_EXTRA_BITS@[sym_idx as int] < 5 {
                    vstd::arithmetic::power2::lemma_pow2_strictly_increases(LENGTH_EXTRA_BITS@[sym_idx as int] as nat, 5);
                }
            }
            let length = extra + LENGTH_BASE[sym_idx];
            let ghost bp2 = r.bit_pos();
            proof {
                r.lemma_wf_bounds();
                lemma_decode_bounds(dst, mem, bp2);
            }
            let dist_sym = match decode_symbol(r, distance_tree) {
                Ok(s) => s,
                Err(e) => return Err(e),
            };
            if dist_sym as usize >= DISTANCE_EXTRA_BITS.len() {
                return Err(String::from_str("Invalid distance symbol"));
            }
            let ghost bp3 = r.bit_pos();
            let extra2 = match r.read_bits(DISTANCE_EXTRA_BITS[dist_sym as usize]) {
                Ok(v) => v,
                Err(e) => return Err(e),
            };
            proof {
                lemma_bits_value_bound(mem, bp3, DISTANCE_EXTRA_BITS@[dist_sym as int] as nat);
                assert(pow2(13) == 8192) by { lemma2_to64(); }
                if DISTANCE_EXTRA_BITS@[dist_sym as int] < 13 {
                    vstd::arithmetic::power2::lemma_pow2_strictly_increases(DISTANCE_EXTRA_BITS@[dist_sym as int] as nat, 13);
                }
            }
            let dist = extra2 + DISTANCE_BASE[dist_sym as usize];
            if dist as usize > out.len() {
                return Err(String::from_str("Distance too large"));
            }
            let ghost before = out@;
            let mut k: u32 = 0;
            while k < length
                invariant
                    k <= length,
                    1 <= dist <= before.len(),
                    out@ == lz_copy(before, dist as nat, k as nat),
                    out@.len() == before.len() + k,
                decreases length - k,
            {
                let idx = out.len() - dist as usize;
                let byte = out[idx];
                out.push(byte);
                k += 1;
            }
        }
    }
}

/// Append `n` copies of `x`.
fn push_n(v: &mut Vec<usize>, x: usize, n: usize)
    ensures
        final(v)@ == old(v)@ + Seq::new(n as nat, |i: int| x),
{
    let mut k: usize = 0;
    while k < n
        invariant
            k <= n,
            v@ == old(v)@ + Seq::new(k as nat, |i: int| x),
        decreases n - k,
    {
        v.push(x);
        k += 1;
        proof {
            assert(v@ =~= old(v)@ + Seq::new(k as nat, |i: int| x));
        }
    }
}

fn iota_vec(n: u32) -> (v: Vec<u32>)
    ensures
        v@ == iota(n as nat),
{
    let mut v: Vec<u32> = Vec::new();
    let mut i: u32 = 0;
    while i < n
        invariant
            i <= n,
            v@ == iota(i as nat),
        decreases n - i,
    {
        v.push(i);
        i += 1;
        proof {
            assert(v@ =~= iota(i as nat));
        }
    }
    v
}

fn inflate_block_fixed(r: &mut BitReader, o: &mut Vec<u8>) -> (res: Result<(), String>)
    requires
        old(r).wf(),
    ensures
        final(r).wf(),
        final(r).data() == old(r).data(),
        match block_data_spec(fixed_lit_tree(), fixed_dist_tree(), old(r).data(), old(r).bit_pos(), old(o)@) {
            Some((out, bp)) => res is Ok && final(o)@ == out && final(r).bit_pos() == bp,
            None => res matches Err(e) && e@ == block_data_failure(fixed_lit_tree(), fixed_dist_tree(), old(r).data(), old(r).bit_pos(), old(o)@).1,
        },
{
    let mut bl: Vec<usize> = Vec::new();
    push_n(&mut bl, 8, 144);
    push_n(&mut bl, 9, 112);
    push_n(&mut bl, 7, 24);
    push_n(&mut bl, 8, 8);
    proof {
        assert(bl@ =~= fixed_lit_lengths());
    }
    let literal_length_alphabet = iota_vec(286);
    let literal_length_tree = bl_list_to_tree(&bl, &literal_length_alphabet);
    let mut bl_dist: Vec<usize> = Vec::new();
    push_n(&mut bl_dist, 5, 30);
    proof {
        assert(bl_dist@ =~= fixed_dist_lengths());
    }
    let distance_alphabet = iota_vec(30);
    let distance_tree = bl_list_to_tree(&bl_dist, &distance_alphabet);
    proof {
        lemma_build_root(fixed_lit_lengths(), iota(286), 288);
    }
    inflate_block_data(r, &literal_length_tree, &distance_tree, o)
}

fn decode_trees(r: &mut BitReader) -> (res: Result<(HuffmanTree, HuffmanTree), String>)
    requires
        old(r).wf(),
    ensures
        final(r).wf(),
        final(r).data() == old(r).data(),
        match decode_trees_spec(old(r).data(), old(r).bit_pos()) {
            Some((lit, dist, bp)) => res matches Ok((l, d)) && l.root == lit && d.root == dist && final(r).bit_pos() == bp,
            None => res matches Err(e) && e@ == decode_trees_failure(old(r).data(), old(r).bit_pos()),
        },
{
    let ghost mem = r.data();
    let ghost why = decode_trees_failure(mem, r.bit_pos());
    proof {
        lemma_tables();
        lemma_bits_value_bound(mem, r.bit_pos(), 5);
        assert(pow2(5) == 32 && pow2(4) == 16 && pow2(3) == 8 && pow2(2) == 4 && pow2(7) == 128) by { lemma2_to64(); }
    }
    let hlit = match r.read_bits(5) {
        Ok(v) => v + 257,
        Err(e) => return Err(e),
    };
    proof {
        lemma_bits_value_bound(mem, r.bit_pos(), 5);
    }
    let hdist = match r.read_bits(5) {
        Ok(v) => v + 1,
        Err(e) => return Err(e),
    };
    proof {
        lemma_bits_value_bound(mem, r.bit_pos(), 4);
    }
    let hclen = match r.read_bits(4) {
        Ok(v) => v + 4,
        Err(e) => return Err(e),
    };
    let ghost bp3 = r.bit_pos();
    let ghost whole = decode_trees_spec(old(r).data(), old(r).bit_pos());
    assert(whole == trees_from_cl(mem, cl_lengths_spec(mem, bp3, hclen as nat), hlit as nat, hdist as nat));
    let mut code_length_tree_bl: Vec<usize> = vec![0; 19];
    proof {
        assert(code_length_tree_bl@ =~= Seq::new(19, |i: int| 0usize));
    }
    let mut i: usize = 0;
    while i < hclen as usize
        invariant
            r.wf(),
            r.data() == mem,
            mem == old(r).data(),
            i <= hclen <= 19,
            whole == decode_trees_spec(old(r).data(), old(r).bit_pos()),
            whole == trees_from_cl(mem, cl_lengths_spec(mem, bp3, hclen as nat), hlit as nat, hdist as nat),
            why == decode_trees_failure(old(r).data(), old(r).bit_pos()),
            cl_lengths_spec(mem, bp3, hclen as nat) is None ==> why == "End of data"@,
            cl_lengths_spec(mem, bp3, hclen as nat) matches Some((cl, bp4)) ==>
                why == read_lengths_failure(build_tree(cl, iota(19)), mem, bp4, Seq::empty(), (hlit + hdist) as nat),
            cl_lengths_spec(mem, bp3, i as nat) == Some((code_length_tree_bl@, r.bit_pos())),
            code_length_tree_bl@.len() == 19,
            forall|j: int| 0 <= j < 19 ==> code_length_tree_bl@[j] <= 7,
            forall|i: int| 0 <= i < 19 ==> #[trigger] CODE_LENGTH_CODES_ORDER@[i] < 19,
        decreases hclen - i,
    {
        proof {
            lemma_bits_value_bound(mem, r.bit_pos(), 3);
            assert(pow2(3) == 8) by { lemma2_to64(); }
            if read_bits_spec(mem, r.bit_pos(), 3) is None {
                lemma_cl_lengths_none(mem, bp3, (i + 1) as nat, hclen as nat);
            }
        }
        let v = match r.read_bits(3) {
            Ok(v) => v,
            Err(e) => return Err(e),
        };
        code_length_tree_bl.set(CODE_LENGTH_CODES_ORDER[i], v as usize);
        i += 1;
    }
    let code_length_alphabet = iota_vec(19);
    let code_length_tree = bl_list_to_tree(&code_length_tree_bl, &code_length_alphabet);
    let ghost clt = code_length_tree.root;
    let ghost target = (hlit + hdist) as nat;
    let ghost bp4 = r.bit_pos();
    proof {
        lemma_build_root(code_length_tree_bl@, iota(19), 19);
        assert(pow2(2) == 4 && pow2(3) == 8 && pow2(7) == 128) by { lemma2_to64(); }
    }
    let mut bl: Vec<usize> = Vec::new();
    let ghost goal = read_lengths_spec(clt, mem, bp4, Seq::empty(), target);
    while bl.len() < (hlit + hdist) as usize
        invariant
            r.wf(),
            r.data() == mem,
            mem == old(r).data(),
            clt == code_length_tree.root,
            clt.symbol is None,
            target == hlit + hdist,
            257 <= hlit <= 288,
            1 <= hdist <= 32,
            bl@.len() < target + 139,
            forall|j: int| 0 <= j < bl@.len() ==> bl@[j] <= 15,
            read_lengths_spec(clt, mem, r.bit_pos(), bl@, target) == goal,
            whole == decode_trees_spec(old(r).data(), old(r).bit_pos()),
            whole == trees_from_lengths(goal, hlit as nat),
            why == decode_trees_failure(old(r).data(), old(r).bit_pos()),
            read_lengths_failure(clt, mem, r.bit_pos(), bl@, target) == why,
        decreases 8 * mem.len() - r.bit_pos(),
    {
        let ghost bp = r.bit_pos();
        proof {
            r.lemma_wf_bounds();
            lemma_decode_bounds(clt, mem, bp);
        }
        let sym = match decode_symbol(r, &code_length_tree) {
            Ok(s) => s,
            Err(e) => return Err(e),
        };
        if sym <= 15 {
            bl.push(sym as usize);
        } else if sym == 16 {
            if bl.len() == 0 {
                return Err(String::from_str("No previous code length"));
            }
            let prev_code_length = bl[bl.len() - 1];
            proof {
                lemma_bits_value_bound(mem, r.bit_pos(), 2);
            }
            proof {
                assert(pow2(2) == 4) by { lemma2_to64(); }
            }
            let repeat_length = match r.read_bits(2) {
                Ok(v) => v + 3,
                Err(e) => return Err(e),
            };
            let ghost before = bl@;
            let mut k: u32 = 0;
            while k < repeat_length
                invariant
                    k <= repeat_length <= 6,
                    before.len() > 0,
                    prev_code_length == before.last(),
                    prev_code_length <= 15,
                    bl@ == before + Seq::new(k as nat, |i: int| before.last()),
                decreases repeat_length - k,
            {
                bl.push(prev_code_length);
                k += 1;
                proof {
                    assert(bl@ =~= before + Seq::new(k as nat, |i: int| before.last()));
                }
            }
        } else if sym == 17 {
            proof {
                lemma_bits_value_bound(mem, r.bit_pos(), 3);
            }
            proof {
                assert(pow2(3) == 8) by { lemma2_to64(); }
            }
            let repeat_length = match r.read_bits(3) {
                Ok(v) => v + 3,
                Err(e) => return Err(e),
            };
            push_n(&mut bl, 0, repeat_length as usize);
        } else if sym == 18 {
            proof {
                lemma_bits_value_bound(mem, r.bit_pos(), 7);
            }
            proof {
                assert(pow2(7) == 128) by { lemma2_to64(); }
            }
            let repeat_length = match r.read_bits(7) {
                Ok(v) => v + 11,
                Err(e) => return Err(e),
            };
            push_n(&mut bl, 0, repeat_length as usize);
        } else {
            return Err(String::from_str("Invalid symbol"));
        }
    }
    let literal_length_alphabet = iota_vec(286);
    let (head, tail) = bl.as_slice().split_at(hlit as usize);
    proof {
        assert(head@ =~= bl@.take(hlit as int));
        assert(tail@ =~= bl@.skip(hlit as int));
    }
    let literal_length_tree = bl_list_to_tree(head, &literal_length_alphabet);
    let distance_alphabet = iota_vec(30);
    let distance_tree = bl_list_to_tree(tail, &distance_alphabet);
    Ok((literal_length_tree, distance_tree))
}

fn inflate_block_dynamic(r: &mut BitReader, o: &mut Vec<u8>) -> (res: Result<(), String>)
    requires
        old(r).wf(),
    ensures
        final(r).wf(),
        final(r).data() == old(r).data(),
        match block_spec(2, old(r).data(), old(r).bit_pos(), old(o)@) {
            Some((out, bp)) => res is Ok && final(o)@ == out && final(r).bit_pos() == bp,
            None => res matches Err(e) && e@ == block_failure(2, old(r).data(), old(r).bit_pos(), old(o)@),
        },
{
    proof {
        reveal(block_spec);
        lemma_decode_trees_root(old(r).data(), old(r).bit_pos());
    }
    let (literal_length_tree, distance_tree) = match decode_trees(r) {
        Ok(t) => t,
        Err(e) => return Err(e),
    };
    inflate_block_data(r, &literal_length_tree, &distance_tree, o)
}

fn inflate_block(r: &mut BitReader, btype: u32, o: &mut Vec<u8>) -> (res: Result<(), String>)
    requires
        old(r).wf(),
    ensures
        final(r).wf(),
        final(r).data() == old(r).data(),
        match block_spec(btype as nat, old(r).data(), old(r).bit_pos(), old(o)@) {
            Some((out, bp)) => res is Ok && final(o)@ == out && final(r).bit_pos() == bp,
            None => res matches Err(e) && e@ == block_failure(btype as nat, old(r).data(), old(r).bit_pos(), old(o)@),
        },
{
    reveal(block_spec);
    match btype {
        0 => inflate_block_no_compression(r, o),
        1 => inflate_block_fixed(r, o),
        2 => inflate_block_dynamic(r, o),
        _ => Err(String::from_str("invalid BTYPE")),
    }
}

fn inflate(r: &mut BitReader) -> (res: Result<Vec<u8>, String>)
    requires
        old(r).wf(),
    ensures
        final(r).wf(),
        final(r).data() == old(r).data(),
        match inflate_spec(old(r).data(), old(r).bit_pos(), Seq::empty()) {
            Some((out, bp)) => res matches Ok(o) && o@ == out && final(r).bit_pos() == bp,
            None => res matches Err(e) && e@ == inflate_failure(old(r).data(), old(r).bit_pos(), Seq::empty()),
        },
{
    let ghost mem = r.data();
    let ghost goal = inflate_spec(mem, r.bit_pos(), Seq::empty());
    let ghost fail = inflate_failure(mem, r.bit_pos(), Seq::empty());
    let mut bfinal: u8 = 0;
    let mut out: Vec<u8> = Vec::new();
    proof {
        r.lemma_wf_bounds();
    }
    while bfinal == 0
        invariant
            r.wf(),
            r.data() == mem,
            mem == old(r).data(),
            goal == inflate_spec(old(r).data(), old(r).bit_pos(), Seq::empty()),
            bfinal == 0 ==> inflate_spec(mem, r.bit_pos(), out@) == goal,
            bfinal != 0 ==> goal == Some((out@, r.bit_pos())),
            fail == inflate_failure(old(r).data(), old(r).bit_pos(), Seq::empty()),
            bfinal == 0 ==> inflate_failure(mem, r.bit_pos(), out@) == fail,
        decreases 8 * mem.len() - r.bit_pos(),
    {
        let ghost bp = r.bit_pos();
        proof {
            r.lemma_wf_bounds();
            lemma_read_one_bit(mem, bp);
            lemma_inflate_short(mem, bp, out@);
        }
        bfinal = match r.read_bit() {
            Ok(b) => b,
            Err(e) => return Err(e),
        };
        let btype = match r.read_bits(2) {
            Ok(v) => v,
            Err(e) => return Err(e),
        };
        let ghost bp2 = r.bit_pos();
        let ghost old_out = out@;
        proof {
            lemma_block_progress(btype as nat, mem, bp2, old_out);
            lemma_inflate_unfold(mem, bp, old_out, bfinal as nat, btype as nat);
        }
        match inflate_block(r, btype, &mut out) {
            Ok(()) => {},
            Err(e) => return Err(e),
        }
    }
    Ok(out)
}


/// Decode the zlib stream `input` (RFC 1950), giving the bytes it holds.
///
/// The header must ask for DEFLATE with a window of at most 32K, pass its
/// check, and name no preset dictionary; the blocks must be well formed;
/// and the Adler-32 trailer must match what they decode to.
pub fn deflate(input: &[u8]) -> (res: crate::error::Result<Vec<u8>>)
    ensures
        match zlib_decode_spec(input@) {
            Some(out) => res matches Ok(o) && o@ == out,
            None => res matches Err(SoulseekRs::CompressionError(m)) && m@ == zlib_decode_failure(input@),
        },
{
    let mut r = BitReader::new(vstd::slice::slice_to_vec(input));
    let cmf = match r.read_byte() {
        Ok(b) => b,
        Err(e) => return Err(SoulseekRs::CompressionError(e)),
    };
    let cm = cmf & 15;
    if cm != 8 {
        return Err(SoulseekRs::CompressionError(String::from_str("invalid CM")));
    }
    let cinfo = (cmf >> 4) & 15;
    if cinfo > 7 {
        return Err(SoulseekRs::CompressionError(String::from_str("invalid CINFO")));
    }
    let flg = match r.read_byte() {
        Ok(b) => b,
        Err(e) => return Err(SoulseekRs::CompressionError(e)),
    };
    if (cmf as u32 * 256 + flg as u32) % 31 != 0 {
        return Err(SoulseekRs::CompressionError(String::from_str("CMF+FLG checksum failed")));
    }
    let fdict = (flg >> 5) & 1;
    if fdict != 0 {
        return Err(SoulseekRs::CompressionError(String::from_str("preset dictionary not supported")));
    }
    proof {
        assert(r.bit_pos() == 16);
    }
    let out = match inflate(&mut r) {
        Ok(o) => o,
        Err(e) => return Err(SoulseekRs::CompressionError(e)),
    };
    // `read_bytes` assembles little-endian; the zlib trailer is big-endian.
    let claimed = match r.read_bytes(4) {
        Ok(v) => swap_bytes(v),
        Err(e) => return Err(SoulseekRs::CompressionError(e)),
    };
    if claimed != adler32(&out) {
        return Err(SoulseekRs::CompressionError(String::from_str("adler32 checksum failed")));
    }
    Ok(out)
}
} // verus!

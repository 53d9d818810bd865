//! The fixed Huffman codes of RFC 1951, 3.2.6, worked out from the code
//! lengths the same way a decoder builds its tree.

use vstd::prelude::*;
use vstd::arithmetic::power2::{pow2, lemma2_to64};
use crate::utils::zlib::bits::path_of;
use crate::utils::zlib::huffman::{count_len, count_used, first_code, code_of, path_of_entry, leaf_with, incomparable,
    lemma_build_prefix_leaves, lemma_paths_incomparable};
use crate::utils::zlib::inflate::{fixed_lit_lengths, fixed_lit_tree, fixed_dist_lengths, fixed_dist_tree, iota};

verus! {

/// The length of the fixed literal/length code of symbol `s`.
pub open spec fn lit_len(s: nat) -> nat {
    if s < 144 { 8 } else if s < 256 { 9 } else if s < 280 { 7 } else { 8 }
}

/// The fixed literal/length code of symbol `s`.
pub open spec fn lit_code(s: nat) -> nat {
    if s < 144 {
        0x30 + s
    } else if s < 256 {
        (0x190 + s - 144) as nat
    } else if s < 280 {
        (s - 256) as nat
    } else {
        (0xC0 + s - 280) as nat
    }
}

/// The bits that send symbol `s` with the fixed code.
pub open spec fn lit_path(s: nat) -> Seq<bool> {
    path_of(lit_code(s), lit_len(s))
}


proof fn lemma_fixed_lit_counts(b: int, k: int)
    requires
        0 <= k <= 288,
    ensures
        count_len(fixed_lit_lengths(), b, k) == if b == 8 {
            (if k < 144 { k } else { 144 }) + (if k > 280 { k - 280 } else { 0 })
        } else if b == 9 {
            if k < 144 { 0 } else if k < 256 { k - 144 } else { 112 }
        } else if b == 7 {
            if k < 256 { 0 } else if k < 280 { k - 256 } else { 24 }
        } else {
            0
        },
        count_used(fixed_lit_lengths(), 286, b, k) == if b == 8 {
            (if k < 144 { k } else { 144 }) + (if k > 286 { 6 } else if k > 280 { k - 280 } else { 0 })
        } else if b == 9 {
            if k < 144 { 0 } else if k < 256 { k - 144 } else { 112 }
        } else if b == 7 {
            if k < 256 { 0 } else if k < 280 { k - 256 } else { 24 }
        } else {
            0
        },
    decreases k,
{
    if k > 0 {
        lemma_fixed_lit_counts(b, k - 1);
    }
}

proof fn lemma_fixed_lit_first_codes()
    ensures
        first_code(fixed_lit_lengths(), 7) == 0,
        first_code(fixed_lit_lengths(), 8) == 48,
        first_code(fixed_lit_lengths(), 9) == 400,
{
    let bl = fixed_lit_lengths();
    lemma_fixed_lit_counts(1, 288);
    lemma_fixed_lit_counts(2, 288);
    lemma_fixed_lit_counts(3, 288);
    lemma_fixed_lit_counts(4, 288);
    lemma_fixed_lit_counts(5, 288);
    lemma_fixed_lit_counts(6, 288);
    lemma_fixed_lit_counts(7, 288);
    lemma_fixed_lit_counts(8, 288);
    assert(first_code(bl, 1) == 0);
    assert(first_code(bl, 2) == 0);
    assert(first_code(bl, 3) == 0);
    assert(first_code(bl, 4) == 0);
    assert(first_code(bl, 5) == 0);
    assert(first_code(bl, 6) == 0);
    assert(first_code(bl, 7) == 0);
    assert(first_code(bl, 8) == 48);
    assert(first_code(bl, 9) == 400);
}

/// The tree decodes entry `s` of the fixed code to `s`.
proof fn lemma_fixed_lit_entry(s: int)
    requires
        0 <= s < 286,
    ensures
        fixed_lit_lengths()[s] == lit_len(s as nat),
        path_of_entry(fixed_lit_lengths(), 286, s) == lit_path(s as nat),
        lit_code(s as nat) < pow2(lit_len(s as nat)),
{
    let bl = fixed_lit_lengths();
    lemma_fixed_lit_first_codes();
    lemma_fixed_lit_counts(bl[s] as int, s);
    lemma2_to64();
    assert(code_of(bl, 286, s) == lit_code(s as nat));
}

proof fn lemma_code_division(i: nat, j: nat)
    requires
        i < 286,
        j < 286,
        lit_len(i) < lit_len(j),
    ensures
        lit_code(j) / pow2((lit_len(j) - lit_len(i)) as nat) != lit_code(i),
{
    lemma2_to64();
    let d = (lit_len(j) - lit_len(i)) as nat;
    if d == 1 {
        assert(pow2(d) == 2);
        if lit_len(i) == 7 {
            assert(48 <= lit_code(j) <= 197);
            assert(lit_code(j) / 2 >= 24);
        } else {
            assert(lit_len(i) == 8 && lit_len(j) == 9);
            assert(lit_code(j) >= 400);
            assert(lit_code(j) / 2 >= 200);
            assert(lit_code(i) <= 197);
        }
    } else {
        assert(d == 2);
        assert(pow2(d) == 4);
        assert(lit_code(j) >= 400);
        assert(lit_code(j) / 4 >= 100);
    }
}

proof fn lemma_fixed_lit_incomparable(i: int, j: int)
    requires
        0 <= i < 286,
        0 <= j < 286,
        i != j,
    ensures
        incomparable(lit_path(i as nat), lit_path(j as nat)),
{
    lemma2_to64();
    let (ci, li, cj, lj) = (lit_code(i as nat), lit_len(i as nat), lit_code(j as nat), lit_len(j as nat));
    lemma_fixed_lit_entry(i);
    lemma_fixed_lit_entry(j);
    if li <= lj {
        if li < lj {
            lemma_code_division(i as nat, j as nat);
        }
        lemma_paths_incomparable(ci, li, cj, lj);
    } else {
        lemma_code_division(j as nat, i as nat);
        lemma_paths_incomparable(cj, lj, ci, li);
    }
}

/// The fixed literal/length tree decodes each symbol's code to the symbol.
pub proof fn lemma_fixed_lit_leaf(s: nat)
    requires
        s < 286,
    ensures
        leaf_with(fixed_lit_tree(), lit_path(s), s as u32),
{
    let bl = fixed_lit_lengths();
    let a = iota(286);
    assert forall|i: int, j: int|
        0 <= i < bl.len() && 0 <= j < bl.len() && i != j && bl[i] != 0 && bl[j] != 0 && i < a.len() && j < a.len()
            implies incomparable(path_of_entry(bl, a.len() as int, i), path_of_entry(bl, a.len() as int, j)) by {
        lemma_fixed_lit_entry(i);
        lemma_fixed_lit_entry(j);
        lemma_fixed_lit_incomparable(i, j);
    }
    lemma_build_prefix_leaves(bl, a, 288);
    lemma_fixed_lit_entry(s as int);
    assert(leaf_with(fixed_lit_tree(), path_of_entry(bl, 286, s as int), a[s as int]));
}

proof fn lemma_fixed_dist_counts(b: int, k: int)
    requires
        0 <= k <= 30,
    ensures
        count_len(fixed_dist_lengths(), b, k) == if b == 5 { k } else { 0 },
        count_used(fixed_dist_lengths(), 30, b, k) == if b == 5 { k } else { 0 },
    decreases k,
{
    if k > 0 {
        lemma_fixed_dist_counts(b, k - 1);
    }
}

/// The fixed distance tree decodes each five-bit code to itself.
pub proof fn lemma_fixed_dist_leaf(d: nat)
    requires
        d < 30,
    ensures
        leaf_with(fixed_dist_tree(), path_of(d, 5), d as u32),
{
    let bl = fixed_dist_lengths();
    let a = iota(30);
    lemma2_to64();
    lemma_fixed_dist_counts(1, 30);
    lemma_fixed_dist_counts(2, 30);
    lemma_fixed_dist_counts(3, 30);
    lemma_fixed_dist_counts(4, 30);
    assert(first_code(bl, 1) == 0);
    assert(first_code(bl, 2) == 0);
    assert(first_code(bl, 3) == 0);
    assert(first_code(bl, 4) == 0);
    assert(first_code(bl, 5) == 0);
    assert forall|i: int| 0 <= i < 30 implies path_of_entry(bl, 30, i) == path_of(i as nat, 5) by {
        lemma_fixed_dist_counts(5, i);
    }
    assert forall|i: int, j: int|
        0 <= i < bl.len() && 0 <= j < bl.len() && i != j && bl[i] != 0 && bl[j] != 0 && i < a.len() && j < a.len()
            implies incomparable(path_of_entry(bl, a.len() as int, i), path_of_entry(bl, a.len() as int, j)) by {
        lemma_fixed_dist_counts(5, i);
        lemma_fixed_dist_counts(5, j);
        lemma_paths_incomparable(i as nat, 5, j as nat, 5);
    }
    lemma_build_prefix_leaves(bl, a, 30);
    lemma_fixed_dist_counts(5, d as int);
    assert(leaf_with(fixed_dist_tree(), path_of_entry(bl, 30, d as int), a[d as int]));
}

} // verus!

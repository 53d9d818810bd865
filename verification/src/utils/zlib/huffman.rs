//! Huffman trees: built from a list of code lengths the canonical way
//! (RFC 1951, 3.2.2) and walked bit by bit to decode a symbol.

use vstd::prelude::*;
use vstd::string::StringExecFns;
use vstd::arithmetic::power2::{pow2, lemma_pow2_pos, lemma2_to64, lemma_pow2_adds, lemma_pow2_strictly_increases};
use crate::utils::zlib::bits::{bit, path_of, stream_bit, BitReader, lemma_bit_div, lemma_low_bits_injective};

verus! {

/// One node of a Huffman tree. A node with no children is a leaf.
pub struct Node {
    pub symbol: Option<u32>,
    pub left: Option<Box<Node>>,
    pub right: Option<Box<Node>>,
}

/// A Huffman tree, decoded from its root.
pub struct HuffmanTree {
    pub root: Node,
}

pub open spec fn empty_node() -> Node {
    Node { symbol: None, left: None, right: None }
}

pub open spec fn child_or_empty(c: Option<Box<Node>>) -> Node {
    match c {
        Some(b) => *b,
        None => empty_node(),
    }
}

pub open spec fn is_leaf(node: Node) -> bool {
    node.left is None && node.right is None
}

/// The tree after giving the node at path `p` (a `true` step goes right)
/// the symbol `s`, making the nodes on the way as needed.
pub open spec fn insert_path(node: Node, p: Seq<bool>, s: u32) -> Node
    decreases p.len(),
{
    if p.len() == 0 {
        Node { symbol: Some(s), ..node }
    } else if p[0] {
        Node { right: Some(Box::new(insert_path(child_or_empty(node.right), p.drop_first(), s))), ..node }
    } else {
        Node { left: Some(Box::new(insert_path(child_or_empty(node.left), p.drop_first(), s))), ..node }
    }
}

/// The node reached by following `p` from `node`, if there is one.
pub open spec fn node_at(node: Node, p: Seq<bool>) -> Option<Node>
    decreases p.len(),
{
    if p.len() == 0 {
        Some(node)
    } else {
        let c = if p[0] { node.right } else { node.left };
        match c {
            Some(b) => node_at(*b, p.drop_first()),
            None => None,
        }
    }
}

pub open spec fn height(node: Node) -> nat
    decreases node,
{
    let l = match node.left {
        Some(b) => height(*b),
        None => 0,
    };
    let r = match node.right {
        Some(b) => height(*b),
        None => 0,
    };
    1 + if l > r { l } else { r }
}

/// Decoding one symbol: from `node`, take a stream bit and step right on a
/// one, left on a zero, until a leaf; its symbol and the bit position after.
/// `None` when a step leads nowhere, the stream ends, or the leaf has no
/// symbol.
/// Why decoding a symbol at `bp` fails, where it does: a node with no
/// symbol and no children, the bits running out, or a bit that leads nowhere.
pub open spec fn decode_failure(node: Node, mem: Seq<u8>, bp: nat) -> Seq<char>
    decreases height(node),
{
    if is_leaf(node) {
        "No symbol found"@
    } else if bp >= 8 * mem.len() {
        "End of data"@
    } else {
        let next = if stream_bit(mem, bp) { node.right } else { node.left };
        match next {
            Some(c) => decode_failure(*c, mem, bp + 1),
            None => "Invalid Huffman code"@,
        }
    }
}

pub open spec fn decode_spec(node: Node, mem: Seq<u8>, bp: nat) -> Option<(u32, nat)>
    decreases height(node),
{
    if is_leaf(node) {
        match node.symbol {
            Some(s) => Some((s, bp)),
            None => None,
        }
    } else if bp >= 8 * mem.len() {
        None
    } else {
        let next = if stream_bit(mem, bp) { node.right } else { node.left };
        match next {
            Some(c) => decode_spec(*c, mem, bp + 1),
            None => None,
        }
    }
}

// ---------------------------------------------------------------------------
// The canonical code.

/// How many of the first `k` lengths are `b`.
pub open spec fn count_len(bl: Seq<usize>, b: int, k: int) -> nat
    decreases k,
{
    if k <= 0 {
        0
    } else {
        count_len(bl, b, k - 1) + if bl[k - 1] == b { 1nat } else { 0nat }
    }
}

/// How many of the first `k` lengths are `b` and have a symbol.
pub open spec fn count_used(bl: Seq<usize>, alen: int, b: int, k: int) -> nat
    decreases k,
{
    if k <= 0 {
        0
    } else {
        count_used(bl, alen, b, k - 1) + if bl[k - 1] == b && k - 1 < alen { 1nat } else { 0nat }
    }
}

/// The first code of length `b`.
pub open spec fn first_code(bl: Seq<usize>, b: int) -> nat
    decreases b,
{
    if b <= 1 {
        0
    } else {
        2 * (first_code(bl, b - 1) + count_len(bl, b - 1, bl.len() as int))
    }
}

/// The code given to entry `i`: the first code of its length, plus the
/// number of earlier entries of that length that got one.
pub open spec fn code_of(bl: Seq<usize>, alen: int, i: int) -> nat {
    first_code(bl, bl[i] as int) + count_used(bl, alen, bl[i] as int, i)
}

/// The path of entry `i`'s code.
pub open spec fn path_of_entry(bl: Seq<usize>, alen: int, i: int) -> Seq<bool> {
    path_of(code_of(bl, alen, i), bl[i] as nat)
}

/// The tree after the first `k` entries are inserted: each entry with a
/// nonzero length and a symbol goes in under its code.
pub open spec fn build_prefix(bl: Seq<usize>, alphabet: Seq<u32>, k: int) -> Node
    decreases k,
{
    if k <= 0 {
        empty_node()
    } else {
        let t = build_prefix(bl, alphabet, k - 1);
        let i = k - 1;
        if bl[i] != 0 && i < alphabet.len() {
            insert_path(t, path_of_entry(bl, alphabet.len() as int, i), alphabet[i])
        } else {
            t
        }
    }
}

/// The tree built from code lengths `bl` for the symbols `alphabet`.
pub open spec fn build_tree(bl: Seq<usize>, alphabet: Seq<u32>) -> Node {
    build_prefix(bl, alphabet, bl.len() as int)
}

// ---------------------------------------------------------------------------
// Facts about trees.

pub open spec fn is_strict_prefix(p: Seq<bool>, q: Seq<bool>) -> bool {
    p.len() < q.len() && q.take(p.len() as int) == p
}

/// Neither path leads to the other.
pub open spec fn incomparable(p: Seq<bool>, q: Seq<bool>) -> bool {
    &&& !is_strict_prefix(p, q)
    &&& !is_strict_prefix(q, p)
    &&& p != q
}

pub open spec fn open_at(t: Node, p: Seq<bool>) -> bool {
    match node_at(t, p) {
        None => true,
        Some(n) => is_leaf(n),
    }
}

pub open spec fn leaf_with(t: Node, p: Seq<bool>, s: u32) -> bool {
    match node_at(t, p) {
        None => false,
        Some(n) => is_leaf(n) && n.symbol == Some(s),
    }
}

/// Inserting at a path that holds nothing below it leaves a leaf there.
pub proof fn lemma_insert_new(t: Node, p: Seq<bool>, s: u32)
    requires
        open_at(t, p),
    ensures
        leaf_with(insert_path(t, p, s), p, s),
    decreases p.len(),
{
    if p.len() > 0 {
        let c = if p[0] { t.right } else { t.left };
        let rest = p.drop_first();
        let child = child_or_empty(c);
        assert(open_at(child, rest)) by {
            if c is None {
                if rest.len() > 0 {
                    assert(node_at(child, rest) is None);
                }
            }
        }
        lemma_insert_new(child, rest, s);
    }
}

proof fn lemma_cons_prefix(p: Seq<bool>, q: Seq<bool>)
    requires
        p.len() > 0,
        q.len() > 0,
        p[0] == q[0],
    ensures
        is_strict_prefix(p.drop_first(), q.drop_first()) ==> is_strict_prefix(p, q),
        p.drop_first() == q.drop_first() ==> p == q,
{
    if is_strict_prefix(p.drop_first(), q.drop_first()) {
        assert forall|j: int| 0 <= j < p.len() implies q.take(p.len() as int)[j] == p[j] by {
            if j > 0 {
                assert(q.drop_first().take(p.drop_first().len() as int)[j - 1] == p.drop_first()[j - 1]);
            }
        }
        assert(q.take(p.len() as int) =~= p);
    }
    if p.drop_first() == q.drop_first() {
        assert forall|j: int| 0 <= j < p.len() implies q[j] == p[j] by {
            if j > 0 {
                assert(q.drop_first()[j - 1] == p.drop_first()[j - 1]);
            }
        }
        assert(p =~= q);
    }
}

/// Inserting at one path leaves a leaf at an unrelated path alone.
pub proof fn lemma_insert_other(t: Node, p: Seq<bool>, s: u32, q: Seq<bool>, x: u32)
    requires
        leaf_with(t, q, x),
        incomparable(p, q),
    ensures
        leaf_with(insert_path(t, p, s), q, x),
    decreases p.len(),
{
    if p.len() == 0 {
        assert(is_strict_prefix(p, q) || p == q) by {
            assert(q.take(0) =~= p);
        }
    } else if q.len() == 0 {
        assert(is_strict_prefix(q, p)) by {
            assert(p.take(0) =~= q);
        }
    } else if p[0] != q[0] {
    } else {
        let c = if p[0] { t.right } else { t.left };
        let pr = p.drop_first();
        let qr = q.drop_first();
        assert(incomparable(pr, qr)) by {
            lemma_cons_prefix(p, q);
            lemma_cons_prefix(q, p);
        }
        lemma_insert_other(child_or_empty(c), pr, s, qr, x);
    }
}

/// Inserting at `q` keeps a path `p` open unless `p` leads on to `q`.
pub proof fn lemma_insert_keeps_open(t: Node, q: Seq<bool>, s: u32, p: Seq<bool>)
    requires
        open_at(t, p),
        !is_strict_prefix(p, q),
    ensures
        open_at(insert_path(t, q, s), p),
    decreases q.len(),
{
    if p.len() == 0 {
        if q.len() > 0 {
            assert(q.take(0) =~= p);
        }
    } else if q.len() == 0 {
    } else if p[0] != q[0] {
    } else {
        let c = if q[0] { t.right } else { t.left };
        let pr = p.drop_first();
        let qr = q.drop_first();
        let child = child_or_empty(c);
        assert(!is_strict_prefix(pr, qr)) by {
            lemma_cons_prefix(p, q);
        }
        assert(open_at(child, pr)) by {
            if c is None {
                if pr.len() > 0 {
                    assert(node_at(child, pr) is None);
                }
            }
        }
        lemma_insert_keeps_open(child, qr, s, pr);
    }
}

/// A leaf at path `p` is what decoding gives when the stream spells `p`.
pub proof fn lemma_decode_path(t: Node, p: Seq<bool>, s: u32, mem: Seq<u8>, bp: nat)
    requires
        leaf_with(t, p, s),
        bp + p.len() <= 8 * mem.len(),
        forall|j: int| 0 <= j < p.len() ==> stream_bit(mem, (bp + j) as nat) == p[j],
    ensures
        decode_spec(t, mem, bp) == Some((s, bp + p.len())),
    decreases p.len(),
{
    if p.len() > 0 {
        let c = if p[0] { t.right } else { t.left };
        assert(stream_bit(mem, (bp + 0) as nat) == p[0]);
        let rest = p.drop_first();
        let b = c.unwrap();
        assert forall|j: int| 0 <= j < rest.len() implies stream_bit(mem, (bp + 1 + j) as nat) == rest[j] by {
            assert(stream_bit(mem, (bp + (j + 1)) as nat) == p[j + 1]);
        }
        lemma_decode_path(*b, rest, s, mem, bp + 1);
    }
}

/// Decoding never runs past the end of the stream.
pub proof fn lemma_decode_bounds(t: Node, mem: Seq<u8>, bp: nat)
    requires
        bp <= 8 * mem.len(),
    ensures
        decode_spec(t, mem, bp) matches Some((_, bp2)) ==> bp <= bp2 <= 8 * mem.len() && (t.symbol is None ==> bp2 > bp),
    decreases height(t),
{
    if !is_leaf(t) && bp < 8 * mem.len() {
        let next = if stream_bit(mem, bp) { t.right } else { t.left };
        if let Some(c) = next {
            lemma_decode_bounds(*c, mem, bp + 1);
        }
    }
}

/// A tree built by inserting codes holds each one at its leaf, provided no
/// code leads on to another.
pub proof fn lemma_build_prefix_leaves(bl: Seq<usize>, alphabet: Seq<u32>, k: int)
    requires
        0 <= k <= bl.len(),
        forall|i: int, j: int|
            0 <= i < bl.len() && 0 <= j < bl.len() && i != j && bl[i] != 0 && bl[j] != 0 && i < alphabet.len() && j < alphabet.len()
                ==> incomparable(path_of_entry(bl, alphabet.len() as int, i), path_of_entry(bl, alphabet.len() as int, j)),
    ensures
        forall|i: int| 0 <= i < k && bl[i] != 0 && i < alphabet.len()
            ==> leaf_with(build_prefix(bl, alphabet, k), #[trigger] path_of_entry(bl, alphabet.len() as int, i), alphabet[i]),
        forall|j: int| k <= j < bl.len() && bl[j] != 0 && j < alphabet.len()
            ==> open_at(build_prefix(bl, alphabet, k), #[trigger] path_of_entry(bl, alphabet.len() as int, j)),
    decreases k,
{
    let alen = alphabet.len() as int;
    if k == 0 {
        assert forall|j: int| k <= j < bl.len() && bl[j] != 0 && j < alphabet.len()
            implies open_at(build_prefix(bl, alphabet, k), #[trigger] path_of_entry(bl, alen, j)) by {
            let p = path_of_entry(bl, alen, j);
            if p.len() > 0 {
                assert(node_at(empty_node(), p) is None);
            }
        }
    } else {
        lemma_build_prefix_leaves(bl, alphabet, k - 1);
        let t = build_prefix(bl, alphabet, k - 1);
        let n = k - 1;
        if bl[n] != 0 && n < alen {
            let pn = path_of_entry(bl, alen, n);
            assert(open_at(t, pn));
            lemma_insert_new(t, pn, alphabet[n]);
            assert forall|i: int| 0 <= i < k && bl[i] != 0 && i < alphabet.len()
                implies leaf_with(build_prefix(bl, alphabet, k), #[trigger] path_of_entry(bl, alen, i), alphabet[i]) by {
                if i < n {
                    lemma_insert_other(t, pn, alphabet[n], path_of_entry(bl, alen, i), alphabet[i]);
                }
            }
            assert forall|j: int| k <= j < bl.len() && bl[j] != 0 && j < alphabet.len()
                implies open_at(build_prefix(bl, alphabet, k), #[trigger] path_of_entry(bl, alen, j)) by {
                assert(incomparable(pn, path_of_entry(bl, alen, j)));
                lemma_insert_keeps_open(t, pn, alphabet[n], path_of_entry(bl, alen, j));
            }
        }
    }
}

/// Two paths of codes below `2^n` and `2^m`: the shorter leads to the longer
/// only when the longer code, cut down to the shorter length, is the
/// shorter code.
pub proof fn lemma_paths_incomparable(c: nat, n: nat, d: nat, m: nat)
    requires
        c < pow2(n),
        d < pow2(m),
        n <= m,
        n == m ==> c != d,
        n < m ==> d / pow2((m - n) as nat) != c,
    ensures
        incomparable(path_of(c, n), path_of(d, m)),
{
    let p = path_of(c, n);
    let q = path_of(d, m);
    let e = (m - n) as nat;
    lemma_pow2_pos(e);
    lemma_pow2_adds(e, n);
    let dd = d / pow2(e);
    assert(dd < pow2(n)) by {
        vstd::arithmetic::div_mod::lemma_div_denominator(d as int, pow2(e) as int, pow2(n) as int);
        assert(d / (pow2(e) * pow2(n)) == 0) by {
            vstd::arithmetic::div_mod::lemma_basic_div(d as int, (pow2(e) * pow2(n)) as int);
        }
        lemma_pow2_pos(n);
        vstd::arithmetic::div_mod::lemma_fundamental_div_mod(dd as int, pow2(n) as int);
        vstd::arithmetic::div_mod::lemma_small_div_converse(dd as int, pow2(n) as int);
    }
    if q.take(n as int) == p {
        assert forall|i: nat| i < n implies bit(c, i) == bit(dd, i) by {
            let j = (n - 1 - i) as int;
            assert(p[j] == q[j]);
            lemma_bit_div(d, e, i);
            assert(m - 1 - j == e + i);
        }
        lemma_low_bits_injective(c, dd, n);
        if n == m {
            assert(pow2(0) == 1) by { lemma2_to64(); }
            assert(dd == d / 1);
        }
    }
    if n == m && p == q {
        assert(q.take(n as int) =~= q);
    }
}

// ---------------------------------------------------------------------------
// Executable trees.

impl Node {
    pub fn new() -> (n: Self)
        ensures
            n == empty_node(),
    {
        Node { symbol: None, left: None, right: None }
    }
}

fn insert_at(node: &mut Node, codeword: u32, i: u32, symbol: u32)
    requires
        i <= 32,
    ensures
        *final(node) == insert_path(*old(node), path_of(codeword as nat, i as nat), symbol),
    decreases i,
{
    let ghost p = path_of(codeword as nat, i as nat);
    if i == 0 {
        node.symbol = Some(symbol);
    } else {
        let k = i - 1;
        proof {
            vstd::bits::lemma_u32_shr_is_div(codeword, k);
            assert(((codeword >> k) & 1) == (codeword >> k) % 2) by (bit_vector);
            assert(p[0] == bit(codeword as nat, k as nat));
            assert(p.drop_first() =~= path_of(codeword as nat, k as nat));
        }
        if (codeword >> k) & 1 != 0 {
            let mut child = match node.right.take() {
                Some(c) => *c,
                None => Node::new(),
            };
            insert_at(&mut child, codeword, k, symbol);
            node.right = Some(Box::new(child));
        } else {
            let mut child = match node.left.take() {
                Some(c) => *c,
                None => Node::new(),
            };
            insert_at(&mut child, codeword, k, symbol);
            node.left = Some(Box::new(child));
        }
    }
}

impl HuffmanTree {
    /// A tree with nothing in it.
    pub fn new() -> (t: Self)
        ensures
            t.root == empty_node(),
    {
        HuffmanTree { root: Node::new() }
    }

    /// Map the `n`-bit `codeword`, most significant bit first, to `symbol`.
    pub fn insert(&mut self, codeword: u32, n: usize, symbol: u32)
        requires
            n <= 32,
        ensures
            final(self).root == insert_path(old(self).root, path_of(codeword as nat, n as nat), symbol),
    {
        insert_at(&mut self.root, codeword, n as u32, symbol);
    }
}

/// Walk `t` from its root with bits from `r` until a leaf, and give its
/// symbol.
pub fn decode_symbol(r: &mut BitReader, t: &HuffmanTree) -> (res: Result<u32, String>)
    requires
        old(r).wf(),
    ensures
        final(r).wf(),
        final(r).data() == old(r).data(),
        match decode_spec(t.root, old(r).data(), old(r).bit_pos()) {
            Some((s, bp)) => res == Ok::<u32, String>(s) && final(r).bit_pos() == bp,
            None => res matches Err(e) && e@ == decode_failure(t.root, old(r).data(), old(r).bit_pos()),
        },
{
    let ghost mem = r.data();
    let ghost goal = decode_spec(t.root, mem, r.bit_pos());
    let ghost why = decode_failure(t.root, mem, r.bit_pos());
    let mut node = &t.root;
    while node.left.is_some() || node.right.is_some()
        invariant
            r.wf(),
            r.data() == mem,
            mem == old(r).data(),
            goal == decode_spec(t.root, old(r).data(), old(r).bit_pos()),
            decode_spec(*node, mem, r.bit_pos()) == goal,
            why == decode_failure(t.root, old(r).data(), old(r).bit_pos()),
            decode_failure(*node, mem, r.bit_pos()) == why,
        decreases height(*node),
    {
        proof {
            r.lemma_wf_bounds();
        }
        let b = r.read_bit()?;
        let next = if b != 0 { &node.right } else { &node.left };
        match next {
            Some(c) => {
                node = c;
            },
            None => {
                return Err(String::from_str("Invalid Huffman code"));
            },
        }
    }
    match node.symbol {
        Some(s) => Ok(s),
        None => Err(String::from_str("No symbol found")),
    }
}


proof fn lemma_count_len_bound(bl: Seq<usize>, b: int, k: int)
    ensures
        count_len(bl, b, k) <= if k < 0 { 0 } else { k },
    decreases k,
{
    if k > 0 {
        lemma_count_len_bound(bl, b, k - 1);
    }
}

proof fn lemma_count_used_bound(bl: Seq<usize>, alen: int, b: int, k: int)
    ensures
        count_used(bl, alen, b, k) <= if k < 0 { 0 } else { k },
    decreases k,
{
    if k > 0 {
        lemma_count_used_bound(bl, alen, b, k - 1);
    }
}

proof fn lemma_first_code_bound(bl: Seq<usize>, b: int)
    requires
        b >= 0,
    ensures
        first_code(bl, b) <= pow2(b as nat) * bl.len() * (b as nat),
    decreases b,
{
    if b > 1 {
        lemma_first_code_bound(bl, b - 1);
        lemma_count_len_bound(bl, b - 1, bl.len() as int);
        vstd::arithmetic::power2::lemma_pow2_unfold(b as nat);
        lemma_pow2_pos((b - 1) as nat);
        let n = bl.len();
        let pb = pow2((b - 1) as nat);
        assert(2 * (first_code(bl, b - 1) + count_len(bl, b - 1, n as int)) <= 2 * pb * n * (b as nat)) by (nonlinear_arith)
            requires
                first_code(bl, b - 1) <= pb * n * ((b - 1) as nat),
                count_len(bl, b - 1, n as int) <= n,
                pb >= 1,
                b >= 2,
        ;
    }
}

/// Codes for lengths up to 15 over at most 8192 entries fit in 32 bits.
proof fn lemma_code_fits(bl: Seq<usize>, alen: int, b: int, k: int)
    requires
        0 <= b <= 15,
        0 <= k <= bl.len() <= 8192,
    ensures
        first_code(bl, b) + count_used(bl, alen, b, k) + 1 < 0x1_0000_0000,
        first_code(bl, b) <= 32768 * 8192 * 15,
{
    lemma_first_code_bound(bl, b);
    lemma_count_used_bound(bl, alen, b, k);
    assert(pow2(15) == 32768) by { lemma2_to64(); }
    if b < 15 {
        lemma_pow2_strictly_increases(b as nat, 15);
    }
    assert(pow2(b as nat) * bl.len() * (b as nat) <= 32768 * 8192 * 15) by (nonlinear_arith)
        requires
            pow2(b as nat) <= 32768,
            bl.len() <= 8192,
            b <= 15,
            b >= 0,
    ;
}

/// Build the canonical Huffman tree for the code lengths `bl`: entry `i`,
/// when its length is not zero and the alphabet reaches that far, gets
/// symbol `alphabet[i]`.
pub(crate) fn bl_list_to_tree(bl: &[usize], alphabet: &[u32]) -> (t: HuffmanTree)
    requires
        bl@.len() <= 8192,
        forall|i: int| 0 <= i < bl@.len() ==> bl@[i] <= 15,
    ensures
        t.root == build_tree(bl@, alphabet@),
{
    let ghost blv = bl@;
    let ghost alen = alphabet@.len() as int;
    let mut max_bits: usize = 0;
    let mut i: usize = 0;
    while i < bl.len()
        invariant
            i <= bl@.len(),
            max_bits <= 15,
            forall|j: int| 0 <= j < bl@.len() ==> bl@[j] <= 15,
            forall|j: int| 0 <= j < i ==> bl@[j] <= max_bits,
        decreases bl.len() - i,
    {
        if bl[i] > max_bits {
            max_bits = bl[i];
        }
        i += 1;
    }
    let mut bl_count: Vec<u32> = vec![0; max_bits + 1];
    let mut i: usize = 0;
    while i < bl.len()
        invariant
            i <= bl@.len() <= 8192,
            bl@ == blv,
            max_bits <= 15,
            forall|j: int| 0 <= j < bl@.len() ==> bl@[j] <= max_bits,
            bl_count@.len() == max_bits + 1,
            bl_count@[0] == 0,
            forall|b: int| 1 <= b <= max_bits ==> bl_count@[b] == count_len(blv, b, i as int),
        decreases bl.len() - i,
    {
        let bitlen = bl[i];
        proof {
            lemma_count_len_bound(blv, bitlen as int, i as int);
        }
        if bitlen != 0 {
            let c = bl_count[bitlen] + 1;
            bl_count.set(bitlen, c);
        }
        i += 1;
    }
    let mut next_code: Vec<u32> = vec![0; max_bits + 1];
    let mut bits: usize = 2;
    while bits <= max_bits
        invariant
            2 <= bits <= max_bits + 1 || (bits == 2 && max_bits < 2),
            max_bits <= 15,
            bl@ == blv,
            blv.len() <= 8192,
            bl_count@.len() == max_bits + 1,
            next_code@.len() == max_bits + 1,
            forall|b: int| 1 <= b <= max_bits ==> bl_count@[b] == count_len(blv, b, blv.len() as int),
            forall|b: int| 0 <= b < bits && b <= max_bits ==> next_code@[b] == first_code(blv, b),
        decreases max_bits + 1 - bits,
    {
        proof {
            lemma_code_fits(blv, alen, bits as int, 0);
            lemma_code_fits(blv, alen, (bits - 1) as int, 0);
            lemma_count_len_bound(blv, (bits - 1) as int, blv.len() as int);
            assert(first_code(blv, bits as int) == 2 * (next_code@[bits - 1] + bl_count@[bits - 1]));
            assert(pow2(1) == 2) by { lemma2_to64(); }
            vstd::bits::lemma_u32_shl_is_mul((next_code@[bits - 1] + bl_count@[bits - 1]) as u32, 1);
        }
        let v = (next_code[bits - 1] + bl_count[bits - 1]) << 1;
        next_code.set(bits, v);
        bits += 1;
    }
    proof {
        assert(first_code(blv, 0) == 0 && first_code(blv, 1) == 0);
        assert(next_code@[0] == 0);
        assert(max_bits >= 1 ==> next_code@[1] == 0);
    }
    let mut t = HuffmanTree::new();
    let mut i: usize = 0;
    while i < bl.len()
        invariant
            i <= bl@.len() <= 8192,
            bl@ == blv,
            alphabet@.len() == alen,
            max_bits <= 15,
            forall|j: int| 0 <= j < bl@.len() ==> bl@[j] <= max_bits,
            next_code@.len() == max_bits + 1,
            forall|b: int| 1 <= b <= max_bits ==> next_code@[b] == first_code(blv, b) + count_used(blv, alen, b, i as int),
            t.root == build_prefix(blv, alphabet@, i as int),
        decreases bl.len() - i,
    {
        let bitlen = bl[i];
        proof {
            assert forall|b: int| 1 <= b <= max_bits implies count_used(blv, alen, b, i + 1) == count_used(blv, alen, b, i as int) + if bl@[i as int] == b && i < alen { 1nat } else { 0nat } by {}
        }
        if bitlen != 0 && i < alphabet.len() {
            proof {
                lemma_code_fits(blv, alen, bitlen as int, (i + 1) as int);
                assert(next_code@[bitlen as int] == code_of(blv, alen, i as int));
            }
            t.insert(next_code[bitlen], bitlen, alphabet[i]);
            let c = next_code[bitlen] + 1;
            next_code.set(bitlen, c);
        }
        i += 1;
    }
    t
}
} // verus!

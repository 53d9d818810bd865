//! Bits and bytes: how a DEFLATE stream packs bits into bytes (least
//! significant bit first), a reader that takes them back out, and a writer
//! that puts them in.

use vstd::prelude::*;
use vstd::string::StringExecFns;
use vstd::arithmetic::power2::{pow2, lemma_pow2_pos, lemma_pow2_adds, lemma2_to64, lemma_pow2_unfold};
use vstd::arithmetic::div_mod::{lemma_div_denominator, lemma_mod_breakdown, lemma_fundamental_div_mod, lemma_div_multiples_vanish_fancy, lemma_mod_multiples_vanish, lemma_small_mod};


verus! {

/// Bit `i` (counting from the least significant) of `x`.
pub open spec fn bit(x: nat, i: nat) -> bool {
    (x / pow2(i)) % 2 == 1
}

/// The `n` low bits of `x`, least significant first.
pub open spec fn low_bits(x: nat, n: nat) -> Seq<bool> {
    Seq::new(n, |j: int| bit(x, j as nat))
}

/// The `n` low bits of `x`, most significant first: how a Huffman code is
/// sent.
pub open spec fn path_of(x: nat, n: nat) -> Seq<bool> {
    Seq::new(n, |j: int| bit(x, (n - 1 - j) as nat))
}

/// Bit `k` of a byte stream: bits are taken from each byte least
/// significant first.
pub open spec fn stream_bit(mem: Seq<u8>, k: nat) -> bool {
    bit(mem[(k / 8) as int] as nat, k % 8)
}

/// All the bits of a byte stream, in the order they are read.
pub open spec fn stream_bits(mem: Seq<u8>) -> Seq<bool> {
    Seq::new(8 * mem.len(), |k: int| stream_bit(mem, k as nat))
}

/// The number whose bits, least significant first, are the `n` stream bits
/// from `bp` on.
pub open spec fn bits_value(mem: Seq<u8>, bp: nat, n: nat) -> nat
    decreases n,
{
    if n == 0 {
        0
    } else {
        bits_value(mem, bp, (n - 1) as nat) + if stream_bit(mem, (bp + n - 1) as nat) {
            pow2((n - 1) as nat)
        } else {
            0
        }
    }
}

/// The little-endian number made of the `n` bytes from `p` on.
pub open spec fn le_value(mem: Seq<u8>, p: nat, n: nat) -> nat
    decreases n,
{
    if n == 0 {
        0
    } else {
        le_value(mem, p, (n - 1) as nat) + mem[p + n - 1] as nat * pow2((8 * (n - 1)) as nat)
    }
}

/// The first byte at or after bit position `bp`.
pub open spec fn byte_pos(bp: nat) -> nat {
    (bp + 7) / 8
}

/// Reading `n` bits from `bp`: the value and the position after, or `None`
/// past the end of the stream.
pub open spec fn read_bits_spec(mem: Seq<u8>, bp: nat, n: nat) -> Option<(nat, nat)> {
    if bp + n <= 8 * mem.len() {
        Some((bits_value(mem, bp, n), bp + n))
    } else {
        None
    }
}

/// Reading `n` whole bytes from `bp`: what is left of the current byte is
/// dropped first.
pub open spec fn read_bytes_spec(mem: Seq<u8>, bp: nat, n: nat) -> Option<(nat, nat)> {
    let p = byte_pos(bp);
    if p + n <= mem.len() {
        Some((le_value(mem, p, n), 8 * (p + n)))
    } else {
        None
    }
}

// ---------------------------------------------------------------------------
// Arithmetic on bits.

pub proof fn lemma_bit_div(x: nat, a: nat, i: nat)
    ensures
        bit(x / pow2(a), i) == bit(x, a + i),
{
    lemma_pow2_pos(a);
    lemma_pow2_pos(i);
    lemma_div_denominator(x as int, pow2(a) as int, pow2(i) as int);
    lemma_pow2_adds(a, i);
}

/// `x mod 2^(k+1)` adds bit `k` to `x mod 2^k`.
pub proof fn lemma_mod_pow2_step(x: nat, k: nat)
    ensures
        x % pow2(k + 1) == x % pow2(k) + if bit(x, k) { pow2(k) } else { 0 },
{
    lemma_pow2_pos(k);
    lemma_pow2_unfold(k + 1);
    assert(pow2(k + 1) == pow2(k) * 2);
    lemma_mod_breakdown(x as int, pow2(k) as int, 2);
}

/// A number below `2^n` is its own remainder.
pub proof fn lemma_small_mod_pow2(x: nat, n: nat)
    requires
        x < pow2(n),
    ensures
        x % pow2(n) == x,
{
    lemma_pow2_pos(n);
    lemma_small_mod(x, pow2(n));
}

/// The bits of `h + v * 2^n`, for `h` below `2^n`.
pub proof fn lemma_bit_concat(h: nat, v: nat, n: nat, i: nat)
    requires
        h < pow2(n),
    ensures
        bit(h + v * pow2(n), i) == if i < n { bit(h, i) } else { bit(v, (i - n) as nat) },
{
    lemma_pow2_pos(n);
    lemma_pow2_pos(i);
    let x = h + v * pow2(n);
    if i < n {
        let d = (n - i) as nat;
        lemma_pow2_adds(i, d);
        lemma_pow2_pos(d);
        lemma_fundamental_div_mod(h as int, pow2(i) as int);
        let q = h / pow2(i);
        let r = h % pow2(i);
        assert(x == pow2(i) * (v * pow2(d) + q) + r) by (nonlinear_arith)
            requires
                x == h + v * pow2(n),
                pow2(n) == pow2(i) * pow2(d),
                h == pow2(i) * q + r,
        ;
        assert(0 <= r < pow2(i)) by {
            vstd::arithmetic::div_mod::lemma_mod_pos_bound(h as int, pow2(i) as int);
        }
        lemma_div_multiples_vanish_fancy((v * pow2(d) + q) as int, r as int, pow2(i) as int);
        assert(x / pow2(i) == v * pow2(d) + q);
        lemma_pow2_unfold(d);
        assert(v * pow2(d) == 2 * (v * pow2((d - 1) as nat))) by (nonlinear_arith)
            requires
                pow2(d) == 2 * pow2((d - 1) as nat),
        ;
        lemma_mod_multiples_vanish((v * pow2((d - 1) as nat)) as int, q as int, 2);
    } else {
        let e = (i - n) as nat;
        lemma_pow2_adds(n, e);
        lemma_pow2_pos(e);
        lemma_div_denominator(x as int, pow2(n) as int, pow2(e) as int);
        lemma_div_multiples_vanish_fancy(v as int, h as int, pow2(n) as int);
        assert(x == pow2(n) * v + h) by (nonlinear_arith)
            requires
                x == h + v * pow2(n),
        ;
        assert(x / pow2(n) == v);
    }
}

/// The bits of a number below `2^n` from bit `n` on are zero.
pub proof fn lemma_bit_high_zero(x: nat, n: nat, i: nat)
    requires
        x < pow2(n),
        n <= i,
    ensures
        !bit(x, i),
{
    lemma_bit_concat(x, 0, n, i);
    assert(x + 0 * pow2(n) == x);
    lemma_pow2_pos((i - n) as nat);
}

/// Two numbers below `2^n` with the same `n` low bits are equal.
pub proof fn lemma_low_bits_injective(x: nat, y: nat, n: nat)
    requires
        x < pow2(n),
        y < pow2(n),
        forall|i: nat| i < n ==> bit(x, i) == bit(y, i),
    ensures
        x == y,
    decreases n,
{
    if n == 0 {
        assert(pow2(0) == 1) by { lemma2_to64(); }
    } else {
        let m = (n - 1) as nat;
        lemma_mod_pow2_step(x, m);
        lemma_mod_pow2_step(y, m);
        lemma_small_mod_pow2(x, n);
        lemma_small_mod_pow2(y, n);
        lemma_pow2_pos(m);
        let xr = x % pow2(m);
        let yr = y % pow2(m);
        vstd::arithmetic::div_mod::lemma_mod_pos_bound(x as int, pow2(m) as int);
        vstd::arithmetic::div_mod::lemma_mod_pos_bound(y as int, pow2(m) as int);
        assert forall|i: nat| i < m implies bit(xr, i) == bit(yr, i) by {
            lemma_bit_of_mod(x, m, i);
            lemma_bit_of_mod(y, m, i);
        }
        lemma_low_bits_injective(xr, yr, m);
    }
}

/// The low bits of `x mod 2^m` are those of `x`.
pub proof fn lemma_bit_of_mod(x: nat, m: nat, i: nat)
    requires
        i < m,
    ensures
        bit(x % pow2(m), i) == bit(x, i),
{
    lemma_pow2_pos(m);
    lemma_fundamental_div_mod(x as int, pow2(m) as int);
    vstd::arithmetic::div_mod::lemma_mod_pos_bound(x as int, pow2(m) as int);
    let q = x / pow2(m);
    let r = x % pow2(m);
    assert(x == r + q * pow2(m)) by (nonlinear_arith)
        requires
            x == pow2(m) * q + r,
    ;
    lemma_bit_concat(r, q, m, i);
}

/// `bits_value` is the number the stream's bits spell, taken mod `2^n`.
pub proof fn lemma_bits_value_is(mem: Seq<u8>, bp: nat, n: nat, v: nat)
    requires
        forall|j: nat| j < n ==> stream_bit(mem, bp + j) == bit(v, j),
    ensures
        bits_value(mem, bp, n) == v % pow2(n),
    decreases n,
{
    if n == 0 {
        assert(pow2(0) == 1) by { lemma2_to64(); }
    } else {
        let m = (n - 1) as nat;
        lemma_bits_value_is(mem, bp, m, v);
        lemma_mod_pow2_step(v, m);
        assert(stream_bit(mem, (bp + n - 1) as nat) == bit(v, m));
    }
}

/// `bits_value` is below `2^n`.
pub proof fn lemma_bits_value_bound(mem: Seq<u8>, bp: nat, n: nat)
    ensures
        bits_value(mem, bp, n) < pow2(n),
    decreases n,
{
    if n == 0 {
        assert(pow2(0) == 1) by { lemma2_to64(); }
    } else {
        lemma_bits_value_bound(mem, bp, (n - 1) as nat);
        lemma_pow2_unfold(n);
    }
}

pub proof fn lemma_le_value_bound(mem: Seq<u8>, p: nat, n: nat)
    requires
        p + n <= mem.len(),
    ensures
        le_value(mem, p, n) < pow2(8 * n),
    decreases n,
{
    if n == 0 {
        assert(pow2(0) == 1) by { lemma2_to64(); }
    } else {
        let m = (n - 1) as nat;
        lemma_le_value_bound(mem, p, m);
        lemma_pow2_adds(8 * m, 8);
        assert(pow2(8) == 256) by { lemma2_to64(); }
        let b = mem[p + n - 1] as nat;
        assert(le_value(mem, p, m) + b * pow2(8 * m) < pow2(8 * m) * 256) by (nonlinear_arith)
            requires
                le_value(mem, p, m) < pow2(8 * m),
                b <= 255,
        ;
        assert(8 * n == 8 * m + 8);
    }
}

// ---------------------------------------------------------------------------
// Machine facts about bytes and words.

proof fn lemma_u8_low_bit(b: u8)
    ensures
        (b & 1) as nat == (b as nat) % 2,
        (b >> 1u8) as nat == (b as nat) / 2,
{
    assert(b & 1 == b % 2) by (bit_vector);
    assert(b >> 1u8 == b / 2) by (bit_vector);
}

proof fn lemma_u32_low_byte(h: u32)
    ensures
        (h & 0xFF) as nat == (h as nat) % 256,
        (h >> 8u32) as nat == (h as nat) / 256,
        (h & 0xFF) < 256,
{
    assert(h & 0xFF == h % 256) by (bit_vector);
    assert(h >> 8u32 == h / 256) by (bit_vector);
}

proof fn lemma_u32_low_bit(v: u32)
    ensures
        (v & 1) == v % 2,
{
    assert(v & 1 == v % 2) by (bit_vector);
}

proof fn lemma_or_shift(o: u32, x: u32, i: u32)
    requires
        i < 32,
        o < pow2(i as nat),
        x * pow2(i as nat) < pow2(32),
    ensures
        (o | (x << i)) as nat == o as nat + x as nat * pow2(i as nat),
{
    assert(pow2(32) == 0x1_0000_0000) by { lemma2_to64(); }
    vstd::bits::lemma_u32_pow2_no_overflow(i as nat);
    vstd::bits::lemma_u32_shl_is_mul(1u32, i);
    assert(1u32 << i == pow2(i as nat));
    vstd::bits::lemma_u32_shl_is_mul(x, i);
    lemma_pow2_pos(i as nat);
    assert(pow2(32) == 0x1_0000_0000) by { lemma2_to64(); }
    assert(x << i == x * pow2(i as nat));
    assert(o < (1u32 << i) ==> o | (x << i) == o + (x << i)) by (bit_vector)
        requires i < 32;
}

// ---------------------------------------------------------------------------
// Reading.

/// A cursor over a byte stream that hands out single bits, runs of bits, and
/// whole bytes.
pub struct BitReader {
    mem: Vec<u8>,
    pos: usize,
    b: u8,
    numbits: i32,
}

impl BitReader {
    /// Whether the cursor's parts agree: the bits still held are the high
    /// bits of the byte last read.
    pub closed spec fn wf(&self) -> bool {
        &&& 0 <= self.numbits <= 7
        &&& self.pos <= self.mem.len()
        &&& self.numbits > 0 ==> self.pos >= 1 && self.b as nat == self.mem@[self.pos - 1] as nat / pow2((8 - self.numbits) as nat)
    }

    /// The bytes being read.
    pub closed spec fn data(&self) -> Seq<u8> {
        self.mem@
    }

    /// How many bits have been taken.
    pub closed spec fn bit_pos(&self) -> nat {
        (8 * self.pos - self.numbits) as nat
    }

    pub proof fn lemma_wf_bounds(&self)
        requires
            self.wf(),
        ensures
            self.bit_pos() <= 8 * self.data().len(),
            byte_pos(self.bit_pos()) <= self.data().len(),
    {
    }

    /// A reader at the start of `mem`.
    pub fn new(mem: Vec<u8>) -> (r: Self)
        ensures
            r.wf(),
            r.data() == mem@,
            r.bit_pos() == 0,
    {
        BitReader { mem, pos: 0, b: 0, numbits: 0 }
    }

    /// The next whole byte: the rest of the current byte is dropped first.
    pub fn read_byte(&mut self) -> (res: Result<u8, String>)
        requires
            old(self).wf(),
        ensures
            final(self).wf(),
            final(self).data() == old(self).data(),
            match res {
                Ok(v) => {
                    &&& byte_pos(old(self).bit_pos()) < old(self).data().len()
                    &&& v == old(self).data()[byte_pos(old(self).bit_pos()) as int]
                    &&& final(self).bit_pos() == 8 * (byte_pos(old(self).bit_pos()) + 1)
                },
                Err(e) => byte_pos(old(self).bit_pos()) >= old(self).data().len() && e@ == "End of data"@,
            },
    {
        self.numbits = 0;
        if self.pos >= self.mem.len() {
            return Err(String::from_str("End of data"));
        }
        let b = self.mem[self.pos];
        self.pos += 1;
        Ok(b)
    }

    /// The next single bit, as 0 or 1.
    pub fn read_bit(&mut self) -> (res: Result<u8, String>)
        requires
            old(self).wf(),
        ensures
            final(self).wf(),
            final(self).data() == old(self).data(),
            match res {
                Ok(v) => {
                    &&& old(self).bit_pos() < 8 * old(self).data().len()
                    &&& v == if stream_bit(old(self).data(), old(self).bit_pos()) { 1u8 } else { 0u8 }
                    &&& final(self).bit_pos() == old(self).bit_pos() + 1
                },
                Err(e) => old(self).bit_pos() >= 8 * old(self).data().len() && e@ == "End of data"@,
            },
    {
        let ghost bp = self.bit_pos();
        let ghost mem = self.mem@;
        if self.numbits <= 0 {
            assert(byte_pos(bp) == self.pos);
            self.b = self.read_byte()?;
            self.numbits = 8;
            proof {
                assert(pow2(0) == 1) by { lemma2_to64(); }
                assert(self.pos == byte_pos(bp) + 1);
                assert(self.b == mem[self.pos - 1]);
                assert(self.b as nat / 1 == self.b as nat);
            }
        }
        assert(self.b as nat == mem[self.pos - 1] as nat / pow2((8 - self.numbits) as nat));
        assert(bp == 8 * (self.pos - 1) + (8 - self.numbits));
        assert((bp / 8) == self.pos - 1 && bp % 8 == 8 - self.numbits);
        self.numbits -= 1;
        let bit = self.b & 1;
        proof {
            lemma_u8_low_bit(self.b);
            let k = (7 - self.numbits) as nat;
            lemma_pow2_pos(k);
            lemma_div_denominator(mem[self.pos - 1] as int, pow2(k) as int, 2);
            lemma_pow2_unfold(k + 1);
            assert(pow2(k) * 2 == pow2(k + 1));
        }
        self.b >>= 1;
        Ok(bit)
    }

    /// The next `n` bits as a number, the first bit read being the least
    /// significant.
    pub fn read_bits(&mut self, n: usize) -> (res: Result<u32, String>)
        requires
            old(self).wf(),
            n <= 32,
        ensures
            final(self).wf(),
            final(self).data() == old(self).data(),
            match res {
                Ok(v) => {
                    &&& old(self).bit_pos() + n <= 8 * old(self).data().len()
                    &&& v == bits_value(old(self).data(), old(self).bit_pos(), n as nat)
                    &&& final(self).bit_pos() == old(self).bit_pos() + n
                },
                Err(e) => old(self).bit_pos() + n > 8 * old(self).data().len() && e@ == "End of data"@,
            },
    {
        let ghost bp = self.bit_pos();
        let ghost mem = self.data();
        let mut o = 0u32;
        let mut i: usize = 0;
        while i < n
            invariant
                self.wf(),
                self.data() == mem,
                mem == old(self).data(),
                bp == old(self).bit_pos(),
                i <= n <= 32,
                self.bit_pos() == bp + i,
                o as nat == bits_value(mem, bp, i as nat),
            decreases n - i,
        {
            let bit = self.read_bit()?;
            proof {
                lemma_bits_value_bound(mem, bp, i as nat);
                lemma_pow2_pos(i as nat);
                assert(pow2(32) == 0x1_0000_0000) by { lemma2_to64(); }
                vstd::arithmetic::power2::lemma_pow2_strictly_increases(i as nat, 32);
                assert(bit as nat * pow2(i as nat) == if bit == 1 { pow2(i as nat) } else { 0 });
                lemma_or_shift(o, bit as u32, i as u32);
                assert(bits_value(mem, bp, (i + 1) as nat) == bits_value(mem, bp, i as nat) + if stream_bit(mem, (bp + i) as nat) { pow2(i as nat) } else { 0 });
            }
            o |= (bit as u32) << (i as u32);
            i += 1;
        }
        Ok(o)
    }

    /// The next `n` whole bytes as a little-endian number.
    pub fn read_bytes(&mut self, n: usize) -> (res: Result<u32, String>)
        requires
            old(self).wf(),
            1 <= n <= 4,
        ensures
            final(self).wf(),
            final(self).data() == old(self).data(),
            match res {
                Ok(v) => {
                    &&& byte_pos(old(self).bit_pos()) + n <= old(self).data().len()
                    &&& v == le_value(old(self).data(), byte_pos(old(self).bit_pos()), n as nat)
                    &&& final(self).bit_pos() == 8 * (byte_pos(old(self).bit_pos()) + n)
                },
                Err(e) => byte_pos(old(self).bit_pos()) + n > old(self).data().len() && e@ == "End of data"@,
            },
    {
        let ghost p = byte_pos(self.bit_pos());
        let ghost mem = self.data();
        let mut o = 0u32;
        let mut i: usize = 0;
        while i < n
            invariant
                self.wf(),
                self.data() == mem,
                mem == old(self).data(),
                p == byte_pos(old(self).bit_pos()),
                i <= n <= 4,
                p <= mem.len(),
                i > 0 ==> self.bit_pos() == 8 * (p + i),
                i == 0 ==> byte_pos(self.bit_pos()) == p,
                i > 0 ==> p + i <= mem.len(),
                o as nat == le_value(mem, p, i as nat),
            decreases n - i,
        {
            let byte = match self.read_byte() {
                Ok(b) => b,
                Err(e) => return Err(e),
            };
            proof {
                assert(byte_pos((8 * (p + i)) as nat) == p + i);
                lemma_le_value_bound(mem, p, i as nat);
                lemma_pow2_pos((8 * i) as nat);
                assert(pow2(32) == 0x1_0000_0000) by { lemma2_to64(); }
                lemma_pow2_adds((8 * i) as nat, (32 - 8 * i) as nat);
                lemma_pow2_pos((32 - 8 * i) as nat);
                assert(pow2((32 - 8 * i) as nat) >= 256) by {
                    lemma2_to64();
                    if i < 3 {
                        vstd::arithmetic::power2::lemma_pow2_strictly_increases(8, (32 - 8 * i) as nat);
                    }
                }
                assert(byte as nat * pow2((8 * i) as nat) < pow2(32)) by (nonlinear_arith)
                    requires
                        byte <= 255,
                        pow2((32 - 8 * i) as nat) >= 256,
                        pow2(32) == pow2((8 * i) as nat) * pow2((32 - 8 * i) as nat),
                        pow2((8 * i) as nat) > 0,
                ;
                lemma_or_shift(o, byte as u32, (8 * i) as u32);
            }
            o |= (byte as u32) << ((8 * i) as u32);
            i += 1;
        }
        Ok(o)
    }
}


// ---------------------------------------------------------------------------
// Streams and concatenation.

/// Bit `k` of a byte that ends a stream is bit `k` of that byte.
pub proof fn lemma_stream_bits_push(out: Seq<u8>, x: u8)
    ensures
        stream_bits(out.push(x)) == stream_bits(out) + low_bits(x as nat, 8),
{
    let l = stream_bits(out.push(x));
    let r = stream_bits(out) + low_bits(x as nat, 8);
    assert forall|k: int| 0 <= k < l.len() implies l[k] == r[k] by {
        if k < 8 * out.len() {
            assert((k / 8) < out.len());
        } else {
            assert(k / 8 == out.len());
            assert(k % 8 == k - 8 * out.len());
        }
    }
    assert(l =~= r);
}

/// The bits of `a + b` from the end of `a` on are the bits of `b`.
pub proof fn lemma_stream_bit_concat(a: Seq<u8>, b: Seq<u8>, k: nat)
    requires
        k < 8 * b.len(),
    ensures
        stream_bit(a + b, 8 * a.len() + k) == stream_bit(b, k),
        8 * a.len() + k < 8 * (a + b).len(),
{
    assert((8 * a.len() + k) / 8 == a.len() + k / 8);
    assert((8 * a.len() + k) % 8 == k % 8);
}

/// The bits of `a + b` before the end of `a` are the bits of `a`.
pub proof fn lemma_stream_bit_prefix(a: Seq<u8>, b: Seq<u8>, k: nat)
    requires
        k < 8 * a.len(),
    ensures
        stream_bit(a + b, k) == stream_bit(a, k),
{
    assert(k / 8 < a.len());
}

/// `le_value` reads only the bytes it covers.
pub proof fn lemma_le_value_concat(a: Seq<u8>, b: Seq<u8>, p: nat, n: nat)
    requires
        p + n <= b.len(),
    ensures
        le_value(a + b, a.len() + p, n) == le_value(b, p, n),
    decreases n,
{
    if n > 0 {
        lemma_le_value_concat(a, b, p, (n - 1) as nat);
    }
}

// ---------------------------------------------------------------------------
// Writing.

/// Packs bits into bytes, least significant bit first.
pub struct BitWriter {
    out: Vec<u8>,
    bit: u32,
    held: u32,
}

impl BitWriter {
    pub closed spec fn wf(&self) -> bool {
        &&& self.bit < 8
        &&& (self.held as nat) < pow2(self.bit as nat)
    }

    /// Every bit written so far, in order.
    pub closed spec fn written(&self) -> Seq<bool> {
        stream_bits(self.out@) + low_bits(self.held as nat, self.bit as nat)
    }

    /// A writer with nothing written.
    pub fn new() -> (w: Self)
        ensures
            w.wf(),
            w.written() == Seq::<bool>::empty(),
    {
        let w = BitWriter { out: Vec::new(), bit: 0, held: 0 };
        proof {
            assert(pow2(0) == 1) by { lemma2_to64(); }
            assert(stream_bits(w.out@) =~= Seq::<bool>::empty());
            assert(w.written() =~= Seq::<bool>::empty());
        }
        w
    }

    /// Append the `count` low bits of `value`, least significant first.
    pub fn bits(&mut self, value: u32, count: u32)
        requires
            old(self).wf(),
            count <= 16,
            (value as nat) < pow2(count as nat),
        ensures
            final(self).wf(),
            final(self).written() == old(self).written() + low_bits(value as nat, count as nat),
    {
        let ghost target = self.written() + low_bits(value as nat, count as nat);
        proof {
            lemma_pow2_adds(self.bit as nat, count as nat);
            lemma_pow2_pos(self.bit as nat);
            lemma_pow2_pos(count as nat);
            vstd::arithmetic::power2::lemma_pow2_strictly_increases((self.bit + count) as nat, 32);
            assert(value as nat * pow2(self.bit as nat) < pow2(32)) by (nonlinear_arith)
                requires
                    (value as nat) < pow2(count as nat),
                    pow2((self.bit + count) as nat) == pow2(self.bit as nat) * pow2(count as nat),
                    pow2((self.bit + count) as nat) < pow2(32),
                    pow2(self.bit as nat) > 0,
            ;
            lemma_or_shift(self.held, value, self.bit);
            let h = self.held as nat;
            let nb = self.bit as nat;
            let l = low_bits(h + value as nat * pow2(nb), nb + count as nat);
            let r = low_bits(h, nb) + low_bits(value as nat, count as nat);
            assert forall|j: int| 0 <= j < l.len() implies l[j] == r[j] by {
                lemma_bit_concat(h, value as nat, nb, j as nat);
            }
            assert(l =~= r);
            assert(h + value as nat * pow2(nb) < pow2(nb + count as nat)) by (nonlinear_arith)
                requires
                    h < pow2(nb),
                    (value as nat) < pow2(count as nat),
                    pow2(nb + count as nat) == pow2(nb) * pow2(count as nat),
            ;
        }
        self.held |= value << self.bit;
        self.bit += count;
        while self.bit >= 8
            invariant
                self.bit < 24,
                (self.held as nat) < pow2(self.bit as nat),
                self.written() == target,
            decreases self.bit,
        {
            proof {
                let h = self.held as nat;
                let nb = self.bit as nat;
                assert(pow2(8) == 256) by { lemma2_to64(); }
                lemma_u32_low_byte(self.held);
                let x = (self.held & 0xFF) as u8;
                lemma_stream_bits_push(self.out@, x);
                let l = low_bits(h, nb);
                let r = low_bits(x as nat, 8) + low_bits(h / 256, (nb - 8) as nat);
                assert forall|j: int| 0 <= j < l.len() implies l[j] == r[j] by {
                    if j < 8 {
                        lemma_bit_of_mod(h, 8, j as nat);
                    } else {
                        lemma_bit_div(h, 8, (j - 8) as nat);
                    }
                }
                assert(l =~= r);
                lemma_pow2_adds(8, (nb - 8) as nat);
                lemma_pow2_pos((nb - 8) as nat);
                assert(h / 256 < pow2((nb - 8) as nat)) by (nonlinear_arith)
                    requires
                        h < pow2(nb),
                        pow2(nb) == 256 * pow2((nb - 8) as nat),
                ;
            }
            self.out.push((self.held & 0xFF) as u8);
            self.held >>= 8;
            self.bit -= 8;
        }
    }

    /// Append the `count` low bits of `value`, most significant first: how a
    /// Huffman code goes out.
    pub fn code(&mut self, value: u32, count: u32)
        requires
            old(self).wf(),
            count <= 32,
        ensures
            final(self).wf(),
            final(self).written() == old(self).written() + path_of(value as nat, count as nat),
    {
        let ghost start = self.written();
        let ghost p = path_of(value as nat, count as nat);
        let mut i = count;
        proof {
            assert(p.take(0) =~= Seq::<bool>::empty());
            assert(start + p.take(0) =~= start);
        }
        while i > 0
            invariant
                self.wf(),
                i <= count <= 32,
                p == path_of(value as nat, count as nat),
                self.written() == start + p.take((count - i) as int),
            decreases i,
        {
            i -= 1;
            proof {
                vstd::bits::lemma_u32_shr_is_div(value, i);
                lemma_u32_low_bit(value >> i);
                assert(pow2(1) == 2) by { lemma2_to64(); }
                let b = (value >> i) & 1;
                assert(low_bits(b as nat, 1) =~= seq![bit(value as nat, i as nat)]) by {
                    assert(pow2(0) == 1) by { lemma2_to64(); }
                }
                assert(p.take((count - i) as int) =~= p.take((count - i - 1) as int).push(p[(count - i - 1) as int]));
            }
            self.bits((value >> i) & 1, 1);
        }
        proof {
            assert(p.take(count as int) =~= p);
        }
    }

    /// The bytes written: the last one padded out with zero bits.
    pub fn finish(self) -> (out: Vec<u8>)
        requires
            self.wf(),
        ensures
            8 * out@.len() == self.written().len() + if self.written().len() % 8 == 0 { 0int } else { 8 - self.written().len() % 8 },
            forall|k: int| 0 <= k < self.written().len() ==> stream_bit(out@, k as nat) == #[trigger] self.written()[k],
            forall|k: int| self.written().len() <= k < 8 * out@.len() ==> !#[trigger] stream_bit(out@, k as nat),
    {
        let ghost w = self.written();
        let mut out = self.out;
        if self.bit > 0 {
            proof {
                assert(pow2(8) == 256) by { lemma2_to64(); }
                let h = self.held as nat;
                lemma_u32_low_byte(self.held);
                let x = (self.held & 0xFF) as u8;
                lemma_stream_bits_push(out@, x);
                assert forall|j: nat| j < self.bit implies bit(x as nat, j) == bit(h, j) by {
                    lemma_bit_of_mod(h, 8, j);
                }
                assert forall|j: nat| self.bit <= j < 8 implies !bit(x as nat, j) by {
                    lemma_bit_of_mod(h, 8, j);
                    lemma_bit_high_zero(h, self.bit as nat, j);
                }
            }
            out.push((self.held & 0xFF) as u8);
        }
        proof {
            assert forall|k: int| 0 <= k < w.len() implies stream_bit(out@, k as nat) == #[trigger] w[k] by {
                assert(stream_bits(out@)[k] == stream_bit(out@, k as nat));
            }
            assert forall|k: int| w.len() <= k < 8 * out@.len() implies !#[trigger] stream_bit(out@, k as nat) by {
                assert(stream_bits(out@)[k] == stream_bit(out@, k as nat));
            }
        }
        out
    }
}
} // verus!

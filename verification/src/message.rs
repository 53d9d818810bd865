//! A protocol message: bytes in little-endian order, and a position that
//! reads move along.
//!
//! Reads never fail loudly. A read that finds too few bytes left gives zero,
//! `false` or the empty string and leaves the position at the end, so that
//! whatever a peer sends, parsing ends.

use vstd::prelude::*;
use vstd::utf8::{encode_utf8, encode_utf8_valid_utf8, encode_utf8_decode_utf8};
use crate::message::text::{text_of, text_from_bytes};

pub mod peer;
pub mod server;
pub mod text;

verus! {

/// The little-endian bytes of a 32-bit number.
pub open spec fn u32_bytes(v: u32) -> Seq<u8> {
    seq![(v % 256) as u8, ((v / 256) % 256) as u8, ((v / 65536) % 256) as u8, (v / 16777216) as u8]
}

/// The little-endian bytes of a 64-bit number.
pub open spec fn u64_bytes(v: u64) -> Seq<u8> {
    u32_bytes((v % 0x1_0000_0000) as u32) + u32_bytes((v / 0x1_0000_0000) as u32)
}

/// Numbers go out little-endian: the low byte first, the high byte last,
/// and the four bytes spell the number back.
pub proof fn lemma_little_endian(v: u32, w: u64)
    ensures
        u32_bytes(v).len() == 4,
        u32_bytes(v)[0] == v % 256,
        u32_bytes(v)[1] == (v / 256) % 256,
        u32_bytes(v)[2] == (v / 65536) % 256,
        u32_bytes(v)[3] == v / 16777216,
        u64_bytes(w).len() == 8,
        u64_bytes(w)[0] == w % 256,
        u64_bytes(w)[7] == w / 0x100_0000_0000_0000,
        u32_at(u32_bytes(v), 0) == v,
{
    assert(u64_bytes(w)[7] == u32_bytes((w / 0x1_0000_0000) as u32)[3]);
    assert(((w / 0x1_0000_0000) as u32) / 16777216 == w / 0x100_0000_0000_0000) by (nonlinear_arith);
    assert(u64_bytes(w)[0] == u32_bytes((w % 0x1_0000_0000) as u32)[0]);
    assert(((w % 0x1_0000_0000) as u32) % 256 == w % 256) by (nonlinear_arith);
    let b = u32_bytes(v);
    assert(b[0] as nat + b[1] as nat * 256 + b[2] as nat * 65536 + b[3] as nat * 16777216 == v) by (nonlinear_arith)
        requires
            b[0] == v % 256,
            b[1] == (v / 256) % 256,
            b[2] == (v / 65536) % 256,
            b[3] == v / 16777216,
            v < 0x1_0000_0000;
}

/// A length as the wire holds it: in 32 bits, wrapping past them.
#[verifier::opaque]
pub open spec fn wrap32(n: nat) -> u32 {
    (n % 0x1_0000_0000) as u32
}

/// A length that fits in 32 bits is sent as it is.
pub proof fn lemma_wrap32_small(n: nat)
    requires
        n <= u32::MAX,
    ensures
        wrap32(n) == n,
{
    reveal(wrap32);
}

/// A length in 32 bits, wrapping past them.
pub fn wrap_len(n: usize) -> (r: u32)
    ensures
        r == wrap32(n as nat),
{
    proof {
        reveal(wrap32);
        assert(n as u32 == n as nat % 0x1_0000_0000) by (bit_vector);
    }
    n as u32
}

/// A string on the wire: the length of its UTF-8 bytes, then the bytes.
pub open spec fn str_bytes(s: Seq<char>) -> Seq<u8> {
    u32_bytes(wrap32(encode_utf8(s).len())) + encode_utf8(s)
}

/// A boolean on the wire: one byte, 1 or 0.
pub open spec fn bool_byte(b: bool) -> u8 {
    if b { 1 } else { 0 }
}

/// The number the four bytes from `p` on spell, little-endian.
pub open spec fn u32_at(d: Seq<u8>, p: int) -> u32 {
    (d[p] as nat + d[p + 1] as nat * 256 + d[p + 2] as nat * 65536 + d[p + 3] as nat * 16777216) as u32
}

/// The number the eight bytes from `p` on spell, little-endian.
pub open spec fn u64_at(d: Seq<u8>, p: int) -> u64 {
    (u32_at(d, p) as nat + u32_at(d, p + 4) as nat * 0x1_0000_0000) as u64
}

/// Where a read that runs out of bytes leaves the position: at the end,
/// unless it was already past it.
pub open spec fn exhausted(d: Seq<u8>, p: nat) -> nat {
    if p < d.len() { d.len() } else { p }
}

/// Reading a byte at `p`: the byte and the position after it.
pub open spec fn read_u8_at(d: Seq<u8>, p: nat) -> (u8, nat) {
    if p + 1 <= d.len() { (d[p as int], p + 1) } else { (0, exhausted(d, p)) }
}

/// Reading a 32-bit number at `p`.
pub open spec fn read_u32_at(d: Seq<u8>, p: nat) -> (u32, nat) {
    if p + 4 <= d.len() { (u32_at(d, p as int), p + 4) } else { (0, exhausted(d, p)) }
}

/// Reading a 64-bit number at `p`.
pub open spec fn read_u64_at(d: Seq<u8>, p: nat) -> (u64, nat) {
    if p + 8 <= d.len() { (u64_at(d, p as int), p + 8) } else { (0, exhausted(d, p)) }
}

/// Reading a boolean at `p`: any byte but 0 is true.
pub open spec fn read_bool_at(d: Seq<u8>, p: nat) -> (bool, nat) {
    (read_u8_at(d, p).0 != 0, read_u8_at(d, p).1)
}

/// Reading a string at `p`: a length, then that many bytes read as text.
pub open spec fn read_str_at(d: Seq<u8>, p: nat) -> (Seq<char>, nat) {
    if p + 4 <= d.len() && p + 4 + u32_at(d, p as int) <= d.len() {
        let e = (p + 4 + u32_at(d, p as int)) as nat;
        (text_of(d.subrange((p + 4) as int, e as int)), e)
    } else {
        (Seq::empty(), exhausted(d, p))
    }
}

/// A message: its bytes, and where the next read starts.
#[derive(Debug, Clone)]
pub struct Message {
    data: Vec<u8>,
    pointer: usize,
}

impl Message {
    /// The message's bytes.
    pub closed spec fn bytes(&self) -> Seq<u8> {
        self.data@
    }

    /// Where the next read starts.
    pub closed spec fn pos(&self) -> nat {
        self.pointer as nat
    }

    /// An empty message.
    pub fn new() -> (m: Message)
        ensures
            m.bytes() == Seq::<u8>::empty(),
            m.pos() == 0,
    {
        Message { data: Vec::new(), pointer: 0 }
    }

    /// A message holding `data`, to be read from the start.
    pub fn new_with_data(data: Vec<u8>) -> (m: Message)
        ensures
            m.bytes() == data@,
            m.pos() == 0,
    {
        Message { data, pointer: 0 }
    }

    /// How many bytes the message holds.
    pub fn get_size(&self) -> (n: usize)
        ensures
            n == self.bytes().len(),
    {
        self.data.len()
    }

    pub fn get_pointer(&self) -> (p: usize)
        ensures
            p == self.pos(),
    {
        self.pointer
    }

    pub fn set_pointer(&mut self, pointer: usize)
        ensures
            final(self).bytes() == old(self).bytes(),
            final(self).pos() == pointer,
    {
        self.pointer = pointer;
    }

    /// A copy of the bytes: the code and the body.
    pub fn get_data(&self) -> (d: Vec<u8>)
        ensures
            d@ == self.bytes(),
    {
        let mut d: Vec<u8> = Vec::new();
        let mut i: usize = 0;
        while i < self.data.len()
            invariant
                i <= self.data@.len(),
                d@ == self.data@.take(i as int),
            decreases self.data@.len() - i,
        {
            d.push(self.data[i]);
            i += 1;
            proof {
                assert(d@ =~= self.data@.take(i as int));
            }
        }
        proof {
            assert(self.data@.take(i as int) =~= self.data@);
        }
        d
    }

    /// The bytes as they go out: their length, then the bytes.
    pub fn get_buffer(&self) -> (b: Vec<u8>)
        ensures
            b@ == u32_bytes(wrap32(self.bytes().len())) + self.bytes(),
    {
        let mut b = Message::new();
        b.write_int32(wrap_len(self.data.len()));
        let mut data = self.get_data();
        b.data.append(&mut data);
        b.data
    }

    /// A copy of the bytes from `start` up to `end`.
    pub fn get_slice(&self, start: usize, end: usize) -> (s: Vec<u8>)
        requires
            start <= end <= self.bytes().len(),
        ensures
            s@ == self.bytes().subrange(start as int, end as int),
    {
        let mut s: Vec<u8> = Vec::new();
        let mut i: usize = start;
        while i < end
            invariant
                start <= i <= end,
                end <= self.data@.len(),
                s@ == self.data@.subrange(start as int, i as int),
            decreases end - i,
        {
            s.push(self.data[i]);
            i += 1;
            proof {
                assert(s@ =~= self.data@.subrange(start as int, i as int));
            }
        }
        s
    }

    pub fn write_int8(&mut self, value: u8)
        ensures
            final(self).bytes() == old(self).bytes().push(value),
            final(self).pos() == old(self).pos(),
    {
        self.data.push(value);
    }

    pub fn write_int32(&mut self, value: u32)
        ensures
            final(self).bytes() == old(self).bytes() + u32_bytes(value),
            final(self).pos() == old(self).pos(),
    {
        self.data.push((value % 256) as u8);
        self.data.push(((value / 256) % 256) as u8);
        self.data.push(((value / 65536) % 256) as u8);
        self.data.push((value / 16777216) as u8);
        proof {
            assert(self.data@ =~= old(self).data@ + u32_bytes(value));
        }
    }

    pub fn write_int64(&mut self, value: u64)
        ensures
            final(self).bytes() == old(self).bytes() + u64_bytes(value),
            final(self).pos() == old(self).pos(),
    {
        self.write_int32((value % 0x1_0000_0000) as u32);
        self.write_int32((value / 0x1_0000_0000) as u32);
        proof {
            assert(self.data@ =~= old(self).data@ + u64_bytes(value));
        }
    }

    pub fn write_bool(&mut self, value: bool)
        ensures
            final(self).bytes() == old(self).bytes().push(bool_byte(value)),
            final(self).pos() == old(self).pos(),
    {
        self.write_int8(if value { 1 } else { 0 });
    }

    /// Append a string: its UTF-8 length, then its bytes.
    pub fn write_string(&mut self, s: &str)
        ensures
            final(self).bytes() == old(self).bytes() + str_bytes(s@),
            final(self).pos() == old(self).pos(),
    {
        let bytes = s.as_bytes();
        self.write_int32(wrap_len(bytes.len()));
        let ghost mid = self.data@;
        let mut i: usize = 0;
        while i < bytes.len()
            invariant
                i <= bytes@.len(),
                self.data@ == mid + bytes@.take(i as int),
                self.pointer == old(self).pointer,
            decreases bytes@.len() - i,
        {
            self.data.push(bytes[i]);
            i += 1;
            proof {
                assert(self.data@ =~= mid + bytes@.take(i as int));
            }
        }
        proof {
            assert(bytes@.take(i as int) =~= bytes@);
            assert(self.data@ =~= old(self).data@ + str_bytes(s@));
        }
    }

    /// Append bytes as they are.
    pub fn write_raw_bytes(&mut self, bytes: Vec<u8>)
        ensures
            final(self).bytes() == old(self).bytes() + bytes@,
            final(self).pos() == old(self).pos(),
    {
        let mut bytes = bytes;
        self.data.append(&mut bytes);
    }

    /// The 32-bit number at the read position.
    fn u32_here(&self) -> (v: u32)
        requires
            self.pos() + 4 <= self.bytes().len(),
        ensures
            v == u32_at(self.bytes(), self.pos() as int),
    {
        let len = self.data.len();
        let p = self.pointer;
        self.data[p] as u32 + self.data[p + 1] as u32 * 256 + self.data[p + 2] as u32 * 65536
            + self.data[p + 3] as u32 * 16777216
    }

    /// Whether `n` more bytes can be read.
    fn has(&self, n: usize) -> (r: bool)
        ensures
            r == (self.pos() + n <= self.bytes().len()),
            self.bytes().len() <= usize::MAX,
    {
        self.pointer <= self.data.len() && self.data.len() - self.pointer >= n
    }

    /// Move to the end, unless already past it.
    fn exhaust(&mut self)
        ensures
            final(self).bytes() == old(self).bytes(),
            final(self).pos() == exhausted(old(self).bytes(), old(self).pos()),
    {
        if self.pointer < self.data.len() {
            self.pointer = self.data.len();
        }
    }

    pub fn read_int8(&mut self) -> (v: u8)
        ensures
            final(self).bytes() == old(self).bytes(),
            (v, final(self).pos()) == read_u8_at(old(self).bytes(), old(self).pos()),
    {
        if self.has(1) {
            let v = self.data[self.pointer];
            self.pointer += 1;
            v
        } else {
            self.exhaust();
            0
        }
    }

    pub fn read_int32(&mut self) -> (v: u32)
        ensures
            final(self).bytes() == old(self).bytes(),
            (v, final(self).pos()) == read_u32_at(old(self).bytes(), old(self).pos()),
    {
        if self.has(4) {
            let v = self.u32_here();
            self.pointer = self.pointer + 4;
            v
        } else {
            self.exhaust();
            0
        }
    }

    pub fn read_int64(&mut self) -> (v: u64)
        ensures
            final(self).bytes() == old(self).bytes(),
            (v, final(self).pos()) == read_u64_at(old(self).bytes(), old(self).pos()),
    {
        if self.has(8) {
            let low = self.read_int32();
            let high = self.read_int32();
            low as u64 + high as u64 * 0x1_0000_0000
        } else {
            self.exhaust();
            0
        }
    }

    pub fn read_bool(&mut self) -> (v: bool)
        ensures
            final(self).bytes() == old(self).bytes(),
            (v, final(self).pos()) == read_bool_at(old(self).bytes(), old(self).pos()),
    {
        self.read_int8() != 0
    }

    /// Read a string: a length, then that many bytes, read as UTF-8 with
    /// anything invalid replaced.
    pub fn read_string(&mut self) -> (s: String)
        ensures
            final(self).bytes() == old(self).bytes(),
            (s@, final(self).pos()) == read_str_at(old(self).bytes(), old(self).pos()),
    {
        if self.has(4) {
            let n = self.u32_here();
            let start = self.pointer + 4;
            if self.data.len() - start >= n as usize {
                let end = start + n as usize;
                let bytes = vstd::slice::slice_subrange(self.data.as_slice(), start, end);
                let s = text_from_bytes(bytes);
                self.pointer = end;
                return s;
            }
        }
        self.exhaust();
        String::new()
    }
}

// ---------------------------------------------------------------------------
// What a read gives back of a write.

/// The bytes of `d` from `p` on begin with `x`.
pub open spec fn holds_at(d: Seq<u8>, p: nat, x: Seq<u8>) -> bool {
    &&& p + x.len() <= d.len()
    &&& d.subrange(p as int, (p + x.len()) as int) == x
}

/// Bytes that begin with `a + b` begin with `a`, and `b` follows it.
pub proof fn lemma_holds_split(d: Seq<u8>, p: nat, a: Seq<u8>, b: Seq<u8>)
    requires
        holds_at(d, p, a + b),
    ensures
        holds_at(d, p, a),
        holds_at(d, p + a.len(), b),
{
    let q = p as int;
    let whole = d.subrange(q, q + a.len() + b.len());
    assert(whole == a + b);
    assert forall|j: int| 0 <= j < a.len() implies d.subrange(q, q + a.len())[j] == a[j] by {
        assert(whole[j] == (a + b)[j]);
    }
    assert(d.subrange(q, q + a.len()) =~= a);
    assert forall|j: int| 0 <= j < b.len() implies d.subrange(q + a.len(), q + a.len() + b.len())[j] == b[j] by {
        assert(whole[a.len() + j] == (a + b)[a.len() + j]);
    }
    assert(d.subrange(q + a.len(), q + a.len() + b.len()) =~= b);
}

/// A message's bytes begin, at the end of what came before, with what
/// follows.
pub proof fn lemma_holds_append(pre: Seq<u8>, x: Seq<u8>, post: Seq<u8>)
    ensures
        holds_at(pre + x + post, pre.len(), x),
{
    assert((pre + x + post).subrange(pre.len() as int, (pre.len() + x.len()) as int) =~= x);
}

/// A byte written is the byte read.
pub proof fn lemma_read_u8(d: Seq<u8>, p: nat, v: u8)
    requires
        holds_at(d, p, seq![v]),
    ensures
        read_u8_at(d, p) == (v, p + 1),
        read_bool_at(d, p) == (v != 0, p + 1),
{
    assert(d.subrange(p as int, p + 1int)[0] == d[p as int]);
}

/// A boolean written is the boolean read.
pub proof fn lemma_read_bool(d: Seq<u8>, p: nat, b: bool)
    requires
        holds_at(d, p, seq![bool_byte(b)]),
    ensures
        read_bool_at(d, p) == (b, p + 1),
{
    lemma_read_u8(d, p, bool_byte(b));
}

/// A 32-bit number written is the number read.
pub proof fn lemma_read_u32(d: Seq<u8>, p: nat, v: u32)
    requires
        holds_at(d, p, u32_bytes(v)),
    ensures
        read_u32_at(d, p) == (v, p + 4),
{
    let x = u32_bytes(v);
    let q = p as int;
    assert(d[q] == x[0] && d[q + 1] == x[1] && d[q + 2] == x[2] && d[q + 3] == x[3]) by {
        assert(d.subrange(q, q + 4)[0] == d[q]);
        assert(d.subrange(q, q + 4)[1] == d[q + 1]);
        assert(d.subrange(q, q + 4)[2] == d[q + 2]);
        assert(d.subrange(q, q + 4)[3] == d[q + 3]);
    }
    assert((v % 256) as nat + ((v / 256) % 256) as nat * 256 + ((v / 65536) % 256) as nat * 65536
        + (v / 16777216) as nat * 16777216 == v) by (nonlinear_arith);
}

/// A 64-bit number written is the number read.
pub proof fn lemma_read_u64(d: Seq<u8>, p: nat, v: u64)
    requires
        holds_at(d, p, u64_bytes(v)),
    ensures
        read_u64_at(d, p) == (v, p + 8),
{
    let lo = (v % 0x1_0000_0000) as u32;
    let hi = (v / 0x1_0000_0000) as u32;
    lemma_holds_split(d, p, u32_bytes(lo), u32_bytes(hi));
    lemma_read_u32(d, p, lo);
    lemma_read_u32(d, p + 4, hi);
    assert(lo as nat + hi as nat * 0x1_0000_0000 == v) by (nonlinear_arith)
        requires
            lo as nat == v as nat % 0x1_0000_0000,
            hi as nat == v as nat / 0x1_0000_0000,
    ;
}

/// A string written is the string read.
pub proof fn lemma_read_str(d: Seq<u8>, p: nat, s: Seq<char>)
    requires
        encode_utf8(s).len() <= u32::MAX,
        holds_at(d, p, str_bytes(s)),
    ensures
        read_str_at(d, p) == (s, p + 4 + encode_utf8(s).len()),
{
    let e = encode_utf8(s);
    let n = wrap32(e.len());
    lemma_wrap32_small(e.len());
    lemma_holds_split(d, p, u32_bytes(n), e);
    lemma_read_u32(d, p, n);
    encode_utf8_valid_utf8(s);
    encode_utf8_decode_utf8(s);
    assert(d.subrange(p + 4int, p + 4int + n) == e);
}

} // verus!

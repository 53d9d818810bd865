//! The listing of shared folders and files that browse replies and folder
//! replies carry.
//!
//! On the wire: a count of folders; for each, its name and a count of files;
//! for each file, a code byte (always 1), its name, its size as a 64-bit
//! number, an extension (sent empty), a count of attributes and the
//! attributes as pairs of 32-bit numbers.
//!
//! A count is never trusted: reading stops when the bytes run out, so a
//! peer that announces four billion folders and sends none costs nothing.

use vstd::prelude::*;
use vstd::utf8::encode_utf8;
use crate::message::{Message, wrap32, wrap_len, lemma_wrap32_small, u32_bytes, u64_bytes, str_bytes, holds_at, read_u8_at, read_u32_at, read_u64_at,
    read_str_at, lemma_holds_split, lemma_read_u8, lemma_read_u32, lemma_read_u64, lemma_read_str};
use crate::message::peer::{SharedDirectory, SharedFileEntry, FileView, DirView, dirs_view};
use crate::utils::zlib::deflate;
use crate::utils::zlib::inflate::zlib_decode_spec;

verus! {

// ---------------------------------------------------------------------------
// Lists on the wire, in general.

/// The items of `s` encoded by `f`, one after another.
pub open spec fn flat<T>(s: Seq<T>, f: spec_fn(T) -> Seq<u8>) -> Seq<u8>
    decreases s.len(),
{
    if s.len() == 0 {
        Seq::empty()
    } else {
        flat(s.drop_last(), f) + f(s.last())
    }
}

/// Reading up to `k` items with `r` from `p` on: what was read, and where
/// reading stopped. Reading stops early when the bytes run out.
pub open spec fn read_many<T>(d: Seq<u8>, p: nat, k: nat, r: spec_fn(Seq<u8>, nat) -> (T, nat)) -> (Seq<T>, nat)
    decreases k,
{
    if k == 0 {
        (Seq::empty(), p)
    } else {
        let (xs, q) = read_many(d, p, (k - 1) as nat, r);
        if q >= d.len() {
            (xs, q)
        } else {
            let (x, q2) = r(d, q);
            (xs.push(x), q2)
        }
    }
}

/// Once the bytes have run out, reading more items reads nothing.
pub proof fn lemma_read_many_stops<T>(d: Seq<u8>, p: nat, i: nat, k: nat, r: spec_fn(Seq<u8>, nat) -> (T, nat))
    requires
        i <= k,
        read_many(d, p, i, r).1 >= d.len(),
    ensures
        read_many(d, p, k, r) == read_many(d, p, i, r),
    decreases k - i,
{
    if i < k {
        lemma_read_many_stops(d, p, i, (k - 1) as nat, r);
    }
}

/// A count that the bytes do not back reads nothing: once they have run
/// out, however many items are announced, none are read.
pub proof fn lemma_read_many_at_end<T>(d: Seq<u8>, p: nat, k: nat, r: spec_fn(Seq<u8>, nat) -> (T, nat))
    requires
        p >= d.len(),
    ensures
        read_many(d, p, k, r) == (Seq::<T>::empty(), p),
    decreases k,
{
    if k > 0 {
        lemma_read_many_at_end(d, p, (k - 1) as nat, r);
    }
}

/// Items written with `f` are read back with `r`, when `r` reads back each
/// item that `ok` admits.
pub proof fn lemma_read_many_written<T>(
    d: Seq<u8>,
    p: nat,
    s: Seq<T>,
    f: spec_fn(T) -> Seq<u8>,
    r: spec_fn(Seq<u8>, nat) -> (T, nat),
    ok: spec_fn(T) -> bool,
)
    requires
        holds_at(d, p, flat(s, f)),
        forall|i: int| 0 <= i < s.len() ==> ok(#[trigger] s[i]),
        forall|x: T, q: nat| ok(x) && #[trigger] holds_at(d, q, f(x)) ==> f(x).len() > 0 && r(d, q) == (x, q + f(x).len()),
    ensures
        read_many(d, p, s.len(), r) == (s, p + flat(s, f).len()),
    decreases s.len(),
{
    if s.len() > 0 {
        let front = s.drop_last();
        let x = s.last();
        lemma_holds_split(d, p, flat(front, f), f(x));
        assert forall|i: int| 0 <= i < front.len() implies ok(#[trigger] front[i]) by {
            assert(front[i] == s[i]);
        }
        lemma_read_many_written(d, p, front, f, r, ok);
        assert(ok(s[s.len() - 1]));
        let q = p + flat(front, f).len();
        assert(holds_at(d, q, f(x)));
        assert(front.push(x) =~= s);
    }
}

// ---------------------------------------------------------------------------
// The listing's parts.

pub open spec fn attr_bytes(a: (u32, u32)) -> Seq<u8> {
    u32_bytes(a.0) + u32_bytes(a.1)
}

/// An attribute on the wire: its code, then its value, each as four
/// little-endian bytes.
pub proof fn lemma_attr_layout(code: u32, value: u32)
    ensures
        attr_bytes((code, value)) == u32_bytes(code) + u32_bytes(value),
        read_attr_at(u32_bytes(code) + u32_bytes(value), 0).0 == (code, value),
{
    let d = u32_bytes(code) + u32_bytes(value);
    assert(d.subrange(0, d.len() as int) =~= d);
    lemma_attr_written(d, 0, (code, value));
}

/// A file on the wire, field by field as the protocol lays it out: a code
/// byte of 1, the name, the size as eight little-endian bytes, an empty
/// extension, the number of attributes and the attributes.
pub proof fn lemma_file_layout(f: SharedFileEntry)
    ensures
        file_bytes(f@) == seq![1u8] + str_bytes(f.name@) + u64_bytes(f.size) + str_bytes(Seq::empty())
            + u32_bytes(wrap32(f.attributes@.len())) + flat(f.attributes@, attr_writer()),
{
}

pub open spec fn read_attr_at(d: Seq<u8>, p: nat) -> ((u32, u32), nat) {
    let (code, p1) = read_u32_at(d, p);
    let (value, p2) = read_u32_at(d, p1);
    ((code, value), p2)
}

pub open spec fn attr_writer() -> spec_fn((u32, u32)) -> Seq<u8> {
    |a: (u32, u32)| attr_bytes(a)
}

pub open spec fn attr_reader() -> spec_fn(Seq<u8>, nat) -> ((u32, u32), nat) {
    |d: Seq<u8>, q: nat| read_attr_at(d, q)
}

/// Whether a file fits the wire: its name's bytes and its attribute count
/// within 32 bits.
pub open spec fn file_fits(f: FileView) -> bool {
    encode_utf8(f.0).len() <= u32::MAX && f.2.len() <= u32::MAX
}

pub open spec fn file_bytes(f: FileView) -> Seq<u8> {
    seq![1u8] + str_bytes(f.0) + u64_bytes(f.1) + str_bytes(Seq::empty()) + u32_bytes(wrap32(f.2.len()))
        + flat(f.2, attr_writer())
}

pub open spec fn read_file_at(d: Seq<u8>, p: nat) -> (FileView, nat) {
    let (_code, p1) = read_u8_at(d, p);
    let (name, p2) = read_str_at(d, p1);
    let (size, p3) = read_u64_at(d, p2);
    let (_extension, p4) = read_str_at(d, p3);
    let (n, p5) = read_u32_at(d, p4);
    let (attributes, p6) = read_many(d, p5, n as nat, attr_reader());
    ((name, size, attributes), p6)
}

pub open spec fn file_writer() -> spec_fn(FileView) -> Seq<u8> {
    |f: FileView| file_bytes(f)
}

pub open spec fn file_reader() -> spec_fn(Seq<u8>, nat) -> (FileView, nat) {
    |d: Seq<u8>, q: nat| read_file_at(d, q)
}

pub open spec fn dir_fits(dir: DirView) -> bool {
    &&& encode_utf8(dir.0).len() <= u32::MAX
    &&& dir.1.len() <= u32::MAX
    &&& forall|i: int| 0 <= i < dir.1.len() ==> file_fits(#[trigger] dir.1[i])
}

pub open spec fn dir_bytes(dir: DirView) -> Seq<u8> {
    str_bytes(dir.0) + u32_bytes(wrap32(dir.1.len())) + flat(dir.1, file_writer())
}

pub open spec fn read_dir_at(d: Seq<u8>, p: nat) -> (DirView, nat) {
    let (name, p1) = read_str_at(d, p);
    let (n, p2) = read_u32_at(d, p1);
    let (files, p3) = read_many(d, p2, n as nat, file_reader());
    ((name, files), p3)
}

pub open spec fn dir_writer() -> spec_fn(DirView) -> Seq<u8> {
    |dir: DirView| dir_bytes(dir)
}

pub open spec fn dir_reader() -> spec_fn(Seq<u8>, nat) -> (DirView, nat) {
    |d: Seq<u8>, q: nat| read_dir_at(d, q)
}

/// Whether a listing fits the wire.
pub open spec fn listing_fits(ds: Seq<DirView>) -> bool {
    &&& ds.len() <= u32::MAX
    &&& forall|i: int| 0 <= i < ds.len() ==> dir_fits(#[trigger] ds[i])
}

/// A listing on the wire: the folder count, then the folders.
pub open spec fn listing_bytes(ds: Seq<DirView>) -> Seq<u8> {
    u32_bytes(wrap32(ds.len())) + flat(ds, dir_writer())
}

/// Reading a listing at `p`: the folders, and where reading stopped.
pub open spec fn read_listing_at(d: Seq<u8>, p: nat) -> (Seq<DirView>, nat) {
    let (n, p1) = read_u32_at(d, p);
    read_many(d, p1, n as nat, dir_reader())
}

// ---------------------------------------------------------------------------
// What is written is what is read.

proof fn lemma_attr_written(d: Seq<u8>, q: nat, a: (u32, u32))
    requires
        holds_at(d, q, attr_bytes(a)),
    ensures
        read_attr_at(d, q) == (a, q + attr_bytes(a).len()),
{
    lemma_holds_split(d, q, u32_bytes(a.0), u32_bytes(a.1));
    lemma_read_u32(d, q, a.0);
    lemma_read_u32(d, q + 4, a.1);
}

proof fn lemma_file_written(d: Seq<u8>, q: nat, f: FileView)
    requires
        file_fits(f),
        holds_at(d, q, file_bytes(f)),
    ensures
        file_bytes(f).len() > 0,
        read_file_at(d, q) == (f, q + file_bytes(f).len()),
{
    let attr_f = attr_writer();
    let attr_r = attr_reader();
    let b0 = seq![1u8];
    let b1 = str_bytes(f.0);
    let b2 = u64_bytes(f.1);
    let b3 = str_bytes(Seq::<char>::empty());
    let b4 = u32_bytes(wrap32(f.2.len()));
    let b5 = flat(f.2, attr_f);
    lemma_holds_split(d, q, b0 + b1 + b2 + b3 + b4, b5);
    lemma_holds_split(d, q, b0 + b1 + b2 + b3, b4);
    lemma_holds_split(d, q, b0 + b1 + b2, b3);
    lemma_holds_split(d, q, b0 + b1, b2);
    lemma_holds_split(d, q, b0, b1);
    lemma_read_u8(d, q, 1u8);
    let p1 = q + 1;
    lemma_read_str(d, p1, f.0);
    let p2 = p1 + b1.len();
    lemma_read_u64(d, p2, f.1);
    let p3 = p2 + 8;
    assert(encode_utf8(Seq::<char>::empty()) =~= Seq::<u8>::empty());
    lemma_read_str(d, p3, Seq::<char>::empty());
    let p4 = p3 + 4;
    lemma_wrap32_small(f.2.len());
    lemma_read_u32(d, p4, wrap32(f.2.len()));
    let p5 = p4 + 4;
    assert forall|x: (u32, u32), q2: nat| true && #[trigger] holds_at(d, q2, attr_f(x)) implies
        attr_f(x).len() > 0 && attr_r(d, q2) == (x, q2 + attr_f(x).len()) by {
        lemma_attr_written(d, q2, x);
    }
    lemma_read_many_written(d, p5, f.2, attr_f, attr_r, |x: (u32, u32)| true);
}

proof fn lemma_dir_written(d: Seq<u8>, q: nat, dir: DirView)
    requires
        dir_fits(dir),
        holds_at(d, q, dir_bytes(dir)),
    ensures
        dir_bytes(dir).len() > 0,
        read_dir_at(d, q) == (dir, q + dir_bytes(dir).len()),
{
    let file_f = file_writer();
    let file_r = file_reader();
    let b0 = str_bytes(dir.0);
    let b1 = u32_bytes(wrap32(dir.1.len()));
    let b2 = flat(dir.1, file_f);
    lemma_holds_split(d, q, b0 + b1, b2);
    lemma_holds_split(d, q, b0, b1);
    lemma_read_str(d, q, dir.0);
    let p1 = q + b0.len();
    lemma_wrap32_small(dir.1.len());
    lemma_read_u32(d, p1, wrap32(dir.1.len()));
    let p2 = p1 + 4;
    assert forall|x: FileView, q2: nat| file_fits(x) && #[trigger] holds_at(d, q2, file_f(x)) implies
        file_f(x).len() > 0 && file_r(d, q2) == (x, q2 + file_f(x).len()) by {
        lemma_file_written(d, q2, x);
    }
    lemma_read_many_written(d, p2, dir.1, file_f, file_r, |x: FileView| file_fits(x));
}

/// A listing written is the listing read.
pub proof fn lemma_listing_written(d: Seq<u8>, p: nat, ds: Seq<DirView>)
    requires
        listing_fits(ds),
        holds_at(d, p, listing_bytes(ds)),
    ensures
        read_listing_at(d, p) == (ds, p + listing_bytes(ds).len()),
{
    let dir_f = dir_writer();
    let dir_r = dir_reader();
    lemma_holds_split(d, p, u32_bytes(wrap32(ds.len())), flat(ds, dir_f));
    lemma_wrap32_small(ds.len());
    lemma_read_u32(d, p, wrap32(ds.len()));
    assert forall|x: DirView, q2: nat| dir_fits(x) && #[trigger] holds_at(d, q2, dir_f(x)) implies
        dir_f(x).len() > 0 && dir_r(d, q2) == (x, q2 + dir_f(x).len()) by {
        lemma_dir_written(d, q2, x);
    }
    lemma_read_many_written(d, p + 4, ds, dir_f, dir_r, |x: DirView| dir_fits(x));
}

// ---------------------------------------------------------------------------
// Writing and reading.

fn write_attributes(message: &mut Message, attributes: &Vec<(u32, u32)>)
    ensures
        final(message).bytes() == old(message).bytes() + flat(attributes@, attr_writer()),
        final(message).pos() == old(message).pos(),
{
    let ghost start = message.bytes();
    let mut i: usize = 0;
    proof {
        assert(attributes@.take(0) =~= Seq::<(u32, u32)>::empty());
        assert(start + Seq::<u8>::empty() =~= start);
    }
    while i < attributes.len()
        invariant
            i <= attributes@.len(),
            message.bytes() == start + flat(attributes@.take(i as int), attr_writer()),
            message.pos() == old(message).pos(),
        decreases attributes@.len() - i,
    {
        let (code, value) = attributes[i];
        message.write_int32(code);
        message.write_int32(value);
        proof {
            let t = attributes@.take(i + 1);
            assert(t.drop_last() =~= attributes@.take(i as int));
            assert(message.bytes() =~= start + flat(t, attr_writer()));
        }
        i += 1;
    }
    proof {
        assert(attributes@.take(i as int) =~= attributes@);
    }
}

fn write_file(message: &mut Message, file: &SharedFileEntry)
    ensures
        final(message).bytes() == old(message).bytes() + file_bytes(file@),
        final(message).pos() == old(message).pos(),
{
    message.write_int8(1);
    message.write_string(file.name.as_str());
    message.write_int64(file.size);
    let extension = "";
    proof {
        reveal_strlit("");
        assert(encode_utf8(extension@) =~= Seq::<u8>::empty());
    }
    message.write_string(extension);
    message.write_int32(wrap_len(file.attributes.len()));
    write_attributes(message, &file.attributes);
    proof {
        assert(message.bytes() =~= old(message).bytes() + file_bytes(file@));
    }
}

fn write_files(message: &mut Message, files: &Vec<SharedFileEntry>)
    ensures
        final(message).bytes() == old(message).bytes() + flat(files@.map_values(|f: SharedFileEntry| f@), file_writer()),
        final(message).pos() == old(message).pos(),
{
    let ghost start = message.bytes();
    let ghost views = files@.map_values(|f: SharedFileEntry| f@);
    let mut i: usize = 0;
    proof {
        assert(views.take(0) =~= Seq::<FileView>::empty());
        assert(start + Seq::<u8>::empty() =~= start);
    }
    while i < files.len()
        invariant
            i <= files@.len(),
            views == files@.map_values(|f: SharedFileEntry| f@),
            message.bytes() == start + flat(views.take(i as int), file_writer()),
            message.pos() == old(message).pos(),
        decreases files@.len() - i,
    {
        write_file(message, &files[i]);
        proof {
            let t = views.take(i + 1);
            assert(t.drop_last() =~= views.take(i as int));
            assert(t.last() == files@[i as int]@);
            assert(message.bytes() =~= start + flat(t, file_writer()));
        }
        i += 1;
    }
    proof {
        assert(views.take(i as int) =~= views);
    }
}

fn write_dir(message: &mut Message, dir: &SharedDirectory)
    ensures
        final(message).bytes() == old(message).bytes() + dir_bytes(dir@),
        final(message).pos() == old(message).pos(),
{
    message.write_string(dir.name.as_str());
    message.write_int32(wrap_len(dir.files.len()));
    write_files(message, &dir.files);
    proof {
        assert(message.bytes() =~= old(message).bytes() + dir_bytes(dir@));
    }
}

/// Append a listing of `dirs`.
pub fn write_directories(message: &mut Message, dirs: &[SharedDirectory])
    ensures
        final(message).bytes() == old(message).bytes() + listing_bytes(dirs_view(dirs@)),
        final(message).pos() == old(message).pos(),
{
    let ghost views = dirs_view(dirs@);
    message.write_int32(wrap_len(dirs.len()));
    let ghost start = message.bytes();
    let mut i: usize = 0;
    proof {
        assert(views.take(0) =~= Seq::<DirView>::empty());
        assert(start + Seq::<u8>::empty() =~= start);
    }
    while i < dirs.len()
        invariant
            i <= dirs@.len(),
            views == dirs_view(dirs@),
            message.bytes() == start + flat(views.take(i as int), dir_writer()),
            message.pos() == old(message).pos(),
        decreases dirs@.len() - i,
    {
        proof {
            assert(views[i as int] == dirs@[i as int]@);
        }
        write_dir(message, &dirs[i]);
        proof {
            let t = views.take(i + 1);
            assert(t.drop_last() =~= views.take(i as int));
            assert(message.bytes() =~= start + flat(t, dir_writer()));
        }
        i += 1;
    }
    proof {
        assert(views.take(i as int) =~= views);
        assert(message.bytes() =~= old(message).bytes() + listing_bytes(views));
    }
}

fn read_attributes(message: &mut Message, n: u32) -> (r: Vec<(u32, u32)>)
    ensures
        final(message).bytes() == old(message).bytes(),
        (r@, final(message).pos()) == read_many(old(message).bytes(), old(message).pos(), n as nat, attr_reader()),
{
    let ghost d = message.bytes();
    let ghost p0 = message.pos();
    let mut out: Vec<(u32, u32)> = Vec::new();
    let mut i: u32 = 0;
    while i < n
        invariant
            i <= n,
            message.bytes() == d,
            (out@, message.pos()) == read_many(d, p0, i as nat, attr_reader()),
        ensures
            i <= n,
            i == n || message.pos() >= d.len(),
            message.bytes() == d,
            (out@, message.pos()) == read_many(d, p0, i as nat, attr_reader()),
        decreases n - i,
    {
        if message.get_pointer() >= message.get_size() {
            break;
        }
        let code = message.read_int32();
        let value = message.read_int32();
        out.push((code, value));
        i += 1;
    }
    proof {
        if i < n {
            lemma_read_many_stops(d, p0, i as nat, n as nat, attr_reader());
        }
    }
    out
}

fn read_file(message: &mut Message) -> (f: SharedFileEntry)
    ensures
        final(message).bytes() == old(message).bytes(),
        (f@, final(message).pos()) == read_file_at(old(message).bytes(), old(message).pos()),
{
    let _code = message.read_int8();
    let name = message.read_string();
    let size = message.read_int64();
    let _extension = message.read_string();
    let n = message.read_int32();
    let attributes = read_attributes(message, n);
    SharedFileEntry { name, size, attributes }
}

fn read_files(message: &mut Message, n: u32) -> (r: Vec<SharedFileEntry>)
    ensures
        final(message).bytes() == old(message).bytes(),
        (r@.map_values(|f: SharedFileEntry| f@), final(message).pos())
            == read_many(old(message).bytes(), old(message).pos(), n as nat, file_reader()),
{
    let ghost d = message.bytes();
    let ghost p0 = message.pos();
    let mut out: Vec<SharedFileEntry> = Vec::new();
    let mut i: u32 = 0;
    proof {
        assert(out@.map_values(|f: SharedFileEntry| f@) =~= Seq::<FileView>::empty());
    }
    while i < n
        invariant
            i <= n,
            message.bytes() == d,
            (out@.map_values(|f: SharedFileEntry| f@), message.pos()) == read_many(d, p0, i as nat, file_reader()),
        ensures
            i <= n,
            i == n || message.pos() >= d.len(),
            message.bytes() == d,
            (out@.map_values(|f: SharedFileEntry| f@), message.pos()) == read_many(d, p0, i as nat, file_reader()),
        decreases n - i,
    {
        if message.get_pointer() >= message.get_size() {
            break;
        }
        let ghost before = out@;
        let f = read_file(message);
        out.push(f);
        proof {
            assert(out@.map_values(|f: SharedFileEntry| f@) =~= before.map_values(|f: SharedFileEntry| f@).push(f@));
        }
        i += 1;
    }
    proof {
        if i < n {
            lemma_read_many_stops(d, p0, i as nat, n as nat, file_reader());
        }
    }
    out
}

fn read_dir(message: &mut Message) -> (dir: SharedDirectory)
    ensures
        final(message).bytes() == old(message).bytes(),
        (dir@, final(message).pos()) == read_dir_at(old(message).bytes(), old(message).pos()),
{
    let name = message.read_string();
    let n = message.read_int32();
    let files = read_files(message, n);
    SharedDirectory { name, files }
}

/// Read a listing: every folder that the count announces and the bytes
/// hold.
pub fn read_directories(message: &mut Message) -> (r: Vec<SharedDirectory>)
    ensures
        final(message).bytes() == old(message).bytes(),
        (dirs_view(r@), final(message).pos()) == read_listing_at(old(message).bytes(), old(message).pos()),
{
    let ghost d = message.bytes();
    let n = message.read_int32();
    let ghost p0 = message.pos();
    let mut out: Vec<SharedDirectory> = Vec::new();
    let mut i: u32 = 0;
    proof {
        assert(dirs_view(out@) =~= Seq::<DirView>::empty());
    }
    while i < n
        invariant
            i <= n,
            message.bytes() == d,
            (dirs_view(out@), message.pos()) == read_many(d, p0, i as nat, dir_reader()),
        ensures
            i <= n,
            i == n || message.pos() >= d.len(),
            message.bytes() == d,
            (dirs_view(out@), message.pos()) == read_many(d, p0, i as nat, dir_reader()),
        decreases n - i,
    {
        if message.get_pointer() >= message.get_size() {
            break;
        }
        let ghost before = out@;
        let dir = read_dir(message);
        out.push(dir);
        proof {
            assert(dirs_view(out@) =~= dirs_view(before).push(dir@));
        }
        i += 1;
    }
    proof {
        if i < n {
            lemma_read_many_stops(d, p0, i as nat, n as nat, dir_reader());
        }
    }
    out
}

/// The bytes of a message from the read position on.
pub open spec fn rest_of(d: Seq<u8>, p: nat) -> Seq<u8> {
    if p <= d.len() { d.subrange(p as int, d.len() as int) } else { Seq::empty() }
}

/// The rest of a message, inflated into a message of its own to be read
/// from the start, or `None` when it is not a zlib stream.
pub fn decompress_body(message: &Message) -> (r: Option<Message>)
    ensures
        match zlib_decode_spec(rest_of(message.bytes(), message.pos())) {
            Some(body) => r matches Some(m) && m.bytes() == body && m.pos() == 0,
            None => r is None,
        },
{
    let p = message.get_pointer();
    let size = message.get_size();
    let rest = if p <= size { message.get_slice(p, size) } else { Vec::new() };
    match deflate(rest.as_slice()) {
        Ok(body) => Some(Message::new_with_data(body)),
        Err(_) => None,
    }
}

} // verus!

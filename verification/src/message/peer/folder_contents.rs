//! `FolderContentsRequest` (peer code 36) and `FolderContentsResponse`
//! (peer code 37): a peer asking what one folder of ours holds, and the
//! answer, a compressed listing of that folder.

use vstd::prelude::*;
use vstd::utf8::encode_utf8;
use crate::message::{Message, u32_bytes, str_bytes, read_u32_at, read_str_at, holds_at, lemma_holds_split, lemma_read_u32, lemma_read_str};
use crate::message::peer::{SharedDirectory, DirView, dirs_view};
use crate::message::peer::shared_file_list::{decompress_body, read_directories, write_directories, listing_bytes, listing_fits, read_listing_at, rest_of, lemma_listing_written};
use crate::peer::PeerMessage;
use crate::utils::zlib::compress;
use crate::utils::zlib::inflate::zlib_decode_spec;

verus! {

/// What a folder reply holds before it is compressed: the token, the
/// folder's name and the listing.
pub open spec fn folder_contents_bytes(token: u32, folder: Seq<char>, dirs: Seq<DirView>) -> Seq<u8> {
    u32_bytes(token) + str_bytes(folder) + listing_bytes(dirs)
}

/// Reading a folder reply's inflated body: the token, the folder's name and
/// the listing.
pub open spec fn folder_contents_at(body: Seq<u8>) -> (u32, Seq<char>, Seq<DirView>) {
    let (token, p1) = read_u32_at(body, 0);
    let (folder, p2) = read_str_at(body, p1);
    (token, folder, read_listing_at(body, p2).0)
}

/// Parsing a folder reply whose body starts at `p`: `None` unless the rest
/// is a zlib stream.
pub open spec fn parse_folder_contents_spec(d: Seq<u8>, p: nat) -> Option<(u32, Seq<char>, Seq<DirView>)> {
    match zlib_decode_spec(rest_of(d, p)) {
        Some(body) => Some(folder_contents_at(body)),
        None => None,
    }
}

/// A peer asking what a folder of ours holds.
pub struct FolderContentsRequest;

impl FolderContentsRequest {
    pub fn get_code(&self) -> (c: u32)
        ensures
            c == 36,
    {
        36
    }

    /// The request, unless it names no folder.
    pub fn handle(&self, message: &mut Message) -> (r: Option<PeerMessage>)
        ensures
            final(message).bytes() == old(message).bytes(),
            ({
                let d = old(message).bytes();
                let (token, p1) = read_u32_at(d, old(message).pos());
                let (folder, p2) = read_str_at(d, p1);
                &&& final(message).pos() == p2
                &&& folder.len() == 0 ==> r is None
                &&& folder.len() > 0 ==> (r matches Some(PeerMessage::FolderContentsRequested { token: t, folder: f })
                    && t == token && f@ == folder)
            }),
    {
        let token = message.read_int32();
        let folder = message.read_string();
        if folder.as_str().is_empty() {
            return None;
        }
        Some(PeerMessage::FolderContentsRequested { token, folder })
    }
}

/// A peer's listing of one of its folders.
pub struct FolderContentsResponse;

impl FolderContentsResponse {
    pub fn get_code(&self) -> (c: u32)
        ensures
            c == 37,
    {
        37
    }

    /// The listing, unless the body is not a zlib stream.
    pub fn handle(&self, message: &mut Message) -> (r: Option<PeerMessage>)
        ensures
            final(message).bytes() == old(message).bytes(),
            match parse_folder_contents_spec(old(message).bytes(), old(message).pos()) {
                None => r is None,
                Some((token, folder, dirs)) => r matches Some(PeerMessage::FolderContentsReceived { token: t, folder: f, directories: ds })
                    && t == token && f@ == folder && dirs_view(ds@) == dirs,
            },
    {
        match parse_folder_contents(message) {
            Some((token, folder, directories)) => Some(PeerMessage::FolderContentsReceived { token, folder, directories }),
            None => None,
        }
    }
}

/// Ask a peer what `folder` holds.
pub fn build_folder_contents_request(token: u32, folder: &str) -> (m: Message)
    ensures
        m.bytes() == u32_bytes(36) + u32_bytes(token) + str_bytes(folder@),
        m.pos() == 0,
{
    let mut m = Message::new();
    m.write_int32(36);
    m.write_int32(token);
    m.write_string(folder);
    m
}

/// Answer a peer with the listing of `folder`: the token, the folder's name
/// and `dirs`, compressed.
pub fn build_folder_contents(token: u32, folder: &str, dirs: &[SharedDirectory]) -> (m: Message)
    ensures
        m.bytes().len() >= 4,
        m.bytes().subrange(0, 4) == u32_bytes(37),
        zlib_decode_spec(m.bytes().subrange(4, m.bytes().len() as int))
            == Some(folder_contents_bytes(token, folder@, dirs_view(dirs@))),
        m.pos() == 0,
{
    let mut payload = Message::new();
    payload.write_int32(token);
    payload.write_string(folder);
    write_directories(&mut payload, dirs);
    let data = payload.get_data();
    let compressed = compress(data.as_slice());
    let mut m = Message::new();
    m.write_int32(37);
    let ghost head = m.bytes();
    m.write_raw_bytes(compressed);
    proof {
        assert(payload.bytes() =~= folder_contents_bytes(token, folder@, dirs_view(dirs@)));
        assert(m.bytes().subrange(0, 4) =~= u32_bytes(37));
        assert(m.bytes().subrange(4, m.bytes().len() as int) =~= compressed@);
    }
    m
}

/// Parse a `FolderContentsResponse` payload, or `None` when it is malformed.
pub fn parse_folder_contents(message: &mut Message) -> (r: Option<(u32, String, Vec<SharedDirectory>)>)
    ensures
        final(message).bytes() == old(message).bytes(),
        final(message).pos() == old(message).pos(),
        match parse_folder_contents_spec(old(message).bytes(), old(message).pos()) {
            None => r is None,
            Some((token, folder, dirs)) => r matches Some((t, f, ds)) && t == token && f@ == folder
                && dirs_view(ds@) == dirs,
        },
{
    let mut body = match decompress_body(message) {
        Some(body) => body,
        None => return None,
    };
    let token = body.read_int32();
    let folder = body.read_string();
    let dirs = read_directories(&mut body);
    Some((token, folder, dirs))
}

/// A folder reply's body, built and inflated, reads back as what it was
/// built from.
pub proof fn lemma_folder_contents_round_trip(token: u32, folder: Seq<char>, dirs: Seq<DirView>)
    requires
        encode_utf8(folder).len() <= u32::MAX,
        listing_fits(dirs),
    ensures
        folder_contents_at(folder_contents_bytes(token, folder, dirs)) == (token, folder, dirs),
{
    let a = u32_bytes(token);
    let b = str_bytes(folder);
    let c = listing_bytes(dirs);
    let d = a + b + c;
    assert(d == folder_contents_bytes(token, folder, dirs));
    lemma_whole(d);
    lemma_holds_split(d, 0, a + b, c);
    lemma_holds_split(d, 0, a, b);
    lemma_read_u32(d, 0, token);
    lemma_read_str(d, 4, folder);
    let p2 = 4 + b.len();
    assert(p2 == 4 + 4 + encode_utf8(folder).len());
    lemma_listing_written(d, p2, dirs);
    assert(read_u32_at(d, 0) == (token, 4nat));
    assert(read_str_at(d, 4) == (folder, p2));
    assert(read_listing_at(d, p2).0 == dirs);
}

proof fn lemma_whole(d: Seq<u8>)
    ensures
        holds_at(d, 0, d),
{
    assert(d.subrange(0, d.len() as int) =~= d);
}

/// A folder reply as built, read from just after its code, parses as the
/// token, folder and listing it was built from.
pub proof fn lemma_built_folder_contents_parse(bytes: Seq<u8>, token: u32, folder: Seq<char>, dirs: Seq<DirView>)
    requires
        encode_utf8(folder).len() <= u32::MAX,
        listing_fits(dirs),
        bytes.len() >= 4,
        zlib_decode_spec(bytes.subrange(4, bytes.len() as int)) == Some(folder_contents_bytes(token, folder, dirs)),
    ensures
        parse_folder_contents_spec(bytes, 4) == Some((token, folder, dirs)),
{
    lemma_folder_contents_round_trip(token, folder, dirs);
}

} // verus!

//! `UserInfoRequest` (peer code 15) and `UserInfoReply` (peer code 16): who
//! a peer says it is.

use vstd::prelude::*;
use vstd::utf8::encode_utf8;
use crate::message::{Message, wrap32, wrap_len, lemma_wrap32_small, lemma_holds_append, u32_bytes, str_bytes, bool_byte, read_u32_at, read_str_at, read_bool_at, holds_at,
    lemma_holds_split, lemma_read_u32, lemma_read_str, lemma_read_bool};
use crate::peer::PeerMessage;
use crate::message::peer::MAX_PICTURE;

verus! {

/// What a peer says about itself: peer code 16, answering code 15.
#[derive(Debug, Clone, Default, PartialEq, Eq)]
pub struct PeerInfo {
    pub description: String,
    pub picture: Option<Vec<u8>>,
    pub upload_slots: u32,
    pub queue_length: u32,
    pub free_slots: bool,
}

/// A peer's self-description as a value: its text, its picture, its upload
/// slots, the length of its queue, and whether a slot is free.
pub type PeerInfoView = (Seq<char>, Option<Seq<u8>>, u32, u32, bool);

impl View for PeerInfo {
    type V = PeerInfoView;

    open spec fn view(&self) -> PeerInfoView {
        (
            self.description@,
            match self.picture {
                Some(p) => Some(p@),
                None => None,
            },
            self.upload_slots,
            self.queue_length,
            self.free_slots,
        )
    }
}

/// Whether a self-description fits the wire: its text's bytes and its
/// picture's length within 32 bits.
pub open spec fn user_info_fits(info: PeerInfoView) -> bool {
    &&& encode_utf8(info.0).len() <= u32::MAX
    &&& info.1 matches Some(p) ==> p.len() <= u32::MAX
}

/// The picture on the wire: a flag, then for a picture its length and its
/// bytes.
pub open spec fn picture_bytes(picture: Option<Seq<u8>>) -> Seq<u8> {
    match picture {
        Some(p) => seq![1u8] + u32_bytes(wrap32(p.len())) + p,
        None => seq![0u8],
    }
}

/// A `UserInfoReply` after its code.
pub open spec fn user_info_body(info: PeerInfoView) -> Seq<u8> {
    str_bytes(info.0) + picture_bytes(info.1) + u32_bytes(info.2) + u32_bytes(info.3) + seq![bool_byte(info.4)]
}

/// Reading the picture at `p`: only one that is not empty, that the bytes
/// hold in full and that is no larger than `MAX_PICTURE` is kept. Reading
/// goes on after a picture the bytes hold in full, kept or not, and else
/// after its length.
pub open spec fn read_picture_at(d: Seq<u8>, p: nat) -> (Option<Seq<u8>>, nat) {
    let (flag, p1) = read_bool_at(d, p);
    if !flag {
        (None, p1)
    } else {
        let (length, p2) = read_u32_at(d, p1);
        if length > 0 && p2 + length <= d.len() {
            let kept = if length <= MAX_PICTURE { Some(d.subrange(p2 as int, (p2 + length) as int)) } else { None };
            (kept, (p2 + length) as nat)
        } else {
            (None, p2)
        }
    }
}

/// Reading a `UserInfoReply` body at `p`. Whatever is missing at the end
/// reads as zero or false.
pub open spec fn read_user_info_at(d: Seq<u8>, p: nat) -> (PeerInfoView, nat) {
    let (description, p1) = read_str_at(d, p);
    let (picture, p2) = read_picture_at(d, p1);
    let (upload_slots, p3) = read_u32_at(d, p2);
    let (queue_length, p4) = read_u32_at(d, p3);
    let (free_slots, p5) = read_bool_at(d, p4);
    ((description, picture, upload_slots, queue_length, free_slots), p5)
}

/// A peer asking who we are.
pub struct UserInfoRequest;

impl UserInfoRequest {
    pub fn get_code(&self) -> (c: u32)
        ensures
            c == 15,
    {
        15
    }

    /// The request; it carries nothing to read.
    pub fn handle(&self, message: &mut Message) -> (r: Option<PeerMessage>)
        ensures
            final(message).bytes() == old(message).bytes(),
            final(message).pos() == old(message).pos(),
            r matches Some(PeerMessage::UserInfoRequested),
    {
        Some(PeerMessage::UserInfoRequested)
    }
}

/// A peer's answer about itself.
pub struct UserInfoReply;

impl UserInfoReply {
    pub fn get_code(&self) -> (c: u32)
        ensures
            c == 16,
    {
        16
    }

    pub fn handle(&self, message: &mut Message) -> (r: Option<PeerMessage>)
        ensures
            final(message).bytes() == old(message).bytes(),
            final(message).pos() == read_user_info_at(old(message).bytes(), old(message).pos()).1,
            r matches Some(PeerMessage::UserInfoReceived(info))
                && info@ == read_user_info_at(old(message).bytes(), old(message).pos()).0,
    {
        Some(PeerMessage::UserInfoReceived(parse_user_info(message)))
    }
}

/// Ask a peer who it is.
pub fn build_user_info_request() -> (m: Message)
    ensures
        m.bytes() == u32_bytes(15),
        m.pos() == 0,
{
    let mut m = Message::new();
    m.write_int32(15);
    m
}

/// Say who we are.
pub fn build_user_info(info: &PeerInfo) -> (m: Message)
    ensures
        m.bytes() == u32_bytes(16) + user_info_body(info@),
        m.pos() == 0,
{
    let mut message = Message::new();
    message.write_int32(16);
    message.write_string(info.description.as_str());
    match &info.picture {
        Some(bytes) => {
            message.write_bool(true);
            message.write_int32(wrap_len(bytes.len()));
            let copy = bytes.clone();
            proof {
                assert(copy@ =~= bytes@);
            }
            message.write_raw_bytes(copy);
        },
        None => {
            message.write_bool(false);
        },
    }
    message.write_int32(info.upload_slots);
    message.write_int32(info.queue_length);
    message.write_bool(info.free_slots);
    proof {
        assert(message.bytes() =~= u32_bytes(16) + user_info_body(info@));
    }
    message
}

/// Parse a `UserInfoReply` body. A truncated message yields whatever was
/// readable, since peers disagree about the trailing fields.
pub fn parse_user_info(message: &mut Message) -> (info: PeerInfo)
    ensures
        final(message).bytes() == old(message).bytes(),
        (info@, final(message).pos()) == read_user_info_at(old(message).bytes(), old(message).pos()),
{
    let description = message.read_string();
    let mut picture: Option<Vec<u8>> = None;
    if message.read_bool() {
        let length = message.read_int32() as usize;
        let at = message.get_pointer();
        let size = message.get_size();
        if length > 0 && length <= size && at <= size - length {
            if length <= MAX_PICTURE {
                picture = Some(message.get_slice(at, at + length));
            }
            message.set_pointer(at + length);
        }
    }
    let upload_slots = message.read_int32();
    let queue_length = message.read_int32();
    let free_slots = message.read_bool();
    PeerInfo { description, picture, upload_slots, queue_length, free_slots }
}

/// A self-description as built reads back as itself, but for an empty
/// picture or one larger than `MAX_PICTURE`, which reads back as none.
pub proof fn lemma_user_info_round_trip(d: Seq<u8>, p: nat, info: PeerInfoView)
    requires
        user_info_fits(info),
        !(info.1 matches Some(pic) && (pic.len() == 0 || pic.len() > MAX_PICTURE)),
        holds_at(d, p, user_info_body(info)),
    ensures
        read_user_info_at(d, p) == (info, p + user_info_body(info).len()),
{
    let b0 = str_bytes(info.0);
    let b1 = picture_bytes(info.1);
    let b2 = u32_bytes(info.2);
    let b3 = u32_bytes(info.3);
    let b4 = seq![bool_byte(info.4)];
    lemma_holds_split(d, p, b0 + b1 + b2 + b3, b4);
    lemma_holds_split(d, p, b0 + b1 + b2, b3);
    lemma_holds_split(d, p, b0 + b1, b2);
    lemma_holds_split(d, p, b0, b1);
    lemma_read_str(d, p, info.0);
    let p1 = p + b0.len();
    match info.1 {
        Some(pic) => {
            let f = seq![bool_byte(true)];
            let l = u32_bytes(wrap32(pic.len()));
            assert(b1 == f + l + pic);
            lemma_holds_split(d, p1, f + l, pic);
            lemma_holds_split(d, p1, f, l);
            lemma_read_bool(d, p1, true);
            lemma_wrap32_small(pic.len());
            lemma_read_u32(d, p1 + 1, wrap32(pic.len()));
            let p2 = p1 + 5;
            assert(d.subrange(p2 as int, (p2 + pic.len()) as int) == pic);
        },
        None => {
            assert(b1 == seq![bool_byte(false)]);
            lemma_read_bool(d, p1, false);
        },
    }
    let p2 = p1 + b1.len();
    lemma_read_u32(d, p2, info.2);
    lemma_read_u32(d, p2 + 4, info.3);
    lemma_read_bool(d, p2 + 8, info.4);
}

/// The reply's body on the wire, field by field as the protocol lays it
/// out: the description, the picture (a flag, then for a picture its length
/// and its bytes), the upload slots, then the queue length, each as four
/// little-endian bytes, and a byte for whether a slot is free.
pub proof fn lemma_user_info_layout(info: PeerInfo)
    ensures
        user_info_body(info@) == str_bytes(info.description@)
            + (match info.picture {
                Some(p) => seq![1u8] + u32_bytes(wrap32(p@.len())) + p@,
                None => seq![0u8],
            })
            + u32_bytes(info.upload_slots)
            + u32_bytes(info.queue_length)
            + seq![if info.free_slots { 1u8 } else { 0u8 }],
{
}

/// Reading a reply laid out as the protocol has it gives each field its
/// own value: the first number after the picture is the upload slots, the
/// second the queue length, and the last byte whether a slot is free.
pub proof fn lemma_user_info_reads_fields(d: Seq<u8>, p: nat, info: PeerInfo, description: Seq<char>,
    picture: Option<Seq<u8>>, upload_slots: u32, queue_length: u32, free_slots: bool)
    requires
        encode_utf8(description).len() <= u32::MAX,
        picture matches Some(q) ==> 0 < q.len() <= MAX_PICTURE,
        holds_at(d, p, str_bytes(description)
            + (match picture {
                Some(q) => seq![1u8] + u32_bytes(wrap32(q.len())) + q,
                None => seq![0u8],
            })
            + u32_bytes(upload_slots)
            + u32_bytes(queue_length)
            + seq![if free_slots { 1u8 } else { 0u8 }]),
        info@ == read_user_info_at(d, p).0,
    ensures
        info.description@ == description,
        (match info.picture { Some(v) => Some(v@), None => None }) == picture,
        info.upload_slots == upload_slots,
        info.queue_length == queue_length,
        info.free_slots == free_slots,
{
    let v: PeerInfoView = (description, picture, upload_slots, queue_length, free_slots);
    assert(user_info_body(v) == str_bytes(description)
        + (match picture {
            Some(q) => seq![1u8] + u32_bytes(wrap32(q.len())) + q,
            None => seq![0u8],
        })
        + u32_bytes(upload_slots)
        + u32_bytes(queue_length)
        + seq![if free_slots { 1u8 } else { 0u8 }]);
    lemma_user_info_round_trip(d, p, v);
}

/// A reply as built, read from just after its code, is the
/// self-description it was built from, but for an empty picture or one
/// larger than `MAX_PICTURE`, which reads back as none.
pub proof fn lemma_built_user_info_parses(info: PeerInfoView)
    requires
        user_info_fits(info),
        !(info.1 matches Some(pic) && (pic.len() == 0 || pic.len() > MAX_PICTURE)),
    ensures
        read_user_info_at(u32_bytes(16) + user_info_body(info), 4).0 == info,
{
    let d = u32_bytes(16) + user_info_body(info);
    lemma_holds_append(u32_bytes(16), user_info_body(info), Seq::empty());
    assert(u32_bytes(16) + user_info_body(info) + Seq::<u8>::empty() =~= d);
    lemma_user_info_round_trip(d, 4, info);
}

} // verus!

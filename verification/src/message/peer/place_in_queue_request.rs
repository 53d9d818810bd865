//! `PlaceInQueueRequest` (peer code 51): a peer asking where the file they
//! queued sits in our upload queue.

use vstd::prelude::*;

use crate::message::{Message, u32_bytes, str_bytes, read_str_at};
use crate::peer::PeerMessage;

verus! {

/// `PlaceInQueueRequest` (peer code 51): a peer asking where the file they
/// queued sits in our upload queue.
///
/// Worth answering rather than dropping: a downloader that gets no position
/// cannot tell a long queue from a client that has forgotten about it.
pub struct PlaceInQueueRequest;

impl PlaceInQueueRequest {
    pub fn get_code(&self) -> (c: u32)
        ensures
            c == 51,
    {
        51
    }

    /// The filename asked about, passed on.
    pub fn handle(&self, message: &mut Message) -> (r: Option<PeerMessage>)
        ensures
            final(message).bytes() == old(message).bytes(),
            final(message).pos() == read_str_at(old(message).bytes(), old(message).pos()).1,
            r matches Some(PeerMessage::IncomingPlaceInQueueRequest(filename))
                && filename@ == read_str_at(old(message).bytes(), old(message).pos()).0,
    {
        let filename = message.read_string();
        Some(PeerMessage::IncomingPlaceInQueueRequest(filename))
    }
}

/// Ask a peer where the file we queued sits in their upload queue.
///
/// Peers are not obliged to volunteer a place, and most only send one when
/// asked, so a downloader that never asks shows an empty position forever.
pub fn build_place_in_queue_request(filename: &str) -> (m: Message)
    ensures
        m.bytes() == u32_bytes(51) + str_bytes(filename@),
        m.pos() == 0,
{
    let mut m = Message::new();
    m.write_int32(51);
    m.write_string(filename);
    m
}

} // verus!

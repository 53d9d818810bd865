//! `EmbeddedMessage` (server code 93): a message from the distributed
//! network, wrapped by the server and handed to us directly.
//!
//! This is how a client that has told the server it has no parent still hears
//! what the network is looking for. Searches reach peers over the distributed
//! tree, and a client that never receives one answers nothing — which means
//! its shares cannot be found, however many it has. The server relays them
//! here instead of requiring us to be somebody's child.
//!
//! The payload is a distributed message code and then that message's own body.
//! Only the search is acted on; the rest of the distributed protocol — branch
//! levels, roots, pings — is about a tree we are not part of.

use vstd::prelude::*;
use crate::actor::server_actor::ServerMessage;
use crate::message::{Message, read_u8_at, read_u32_at, read_str_at};

verus! {

/// The distributed message code for a search.
pub const SEARCH: u8 = 3;

/// Reading a wrapped search after its code: an unused number, the searcher,
/// the search's token and the query.
pub open spec fn read_search_at(d: Seq<u8>, p: nat) -> (Seq<char>, u32, Seq<char>, nat) {
    let (_unused, p1) = read_u32_at(d, p);
    let (username, p2) = read_str_at(d, p1);
    let (token, p3) = read_u32_at(d, p2);
    let (query, p4) = read_str_at(d, p3);
    (username, token, query, p4)
}

pub struct EmbeddedMessageHandler;

impl EmbeddedMessageHandler {
    pub fn get_code(&self) -> (c: u32)
        ensures
            c == 93,
    {
        93
    }

    /// A wrapped search with a searcher and a query; nothing for any other
    /// wrapped message.
    pub fn handle(&self, message: &mut Message) -> (r: Option<ServerMessage>)
        ensures
            final(message).bytes() == old(message).bytes(),
            ({
                let d = old(message).bytes();
                let (code, p1) = read_u8_at(d, old(message).pos());
                let (username, token, query, p2) = read_search_at(d, p1);
                &&& code != SEARCH ==> r is None && final(message).pos() == p1
                &&& code == SEARCH ==> final(message).pos() == p2
                &&& code == SEARCH && (username.len() == 0 || query.len() == 0) ==> r is None
                &&& code == SEARCH && username.len() > 0 && query.len() > 0 ==> (r matches Some(
                    ServerMessage::FileSearchRequest { username: u, token: t, query: q },
                ) && u@ == username && t == token && q@ == query)
            }),
    {
        let code = message.read_int8();
        if code != SEARCH {
            return None;
        }
        // The first field of a distributed search is unused by every client
        // that reads it, and is read only to get past it.
        let _unused = message.read_int32();
        let username = message.read_string();
        let token = message.read_int32();
        let query = message.read_string();
        if username.as_str().is_empty() || query.as_str().is_empty() {
            return None;
        }
        Some(ServerMessage::FileSearchRequest { username, token, query })
    }
}

} // verus!

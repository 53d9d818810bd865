//! `AdminMessage` (server code 66): an announcement from the server's
//! administrators.

use vstd::prelude::*;
use crate::actor::server_actor::ServerMessage;
use crate::message::{Message, read_str_at};

verus! {

pub struct AdminMessageHandler;

impl AdminMessageHandler {
    pub fn get_code(&self) -> (c: u32)
        ensures
            c == 66,
    {
        66
    }

    /// The announcement, unless it is empty.
    pub fn handle(&self, message: &mut Message) -> (r: Option<ServerMessage>)
        ensures
            final(message).bytes() == old(message).bytes(),
            ({
                let (text, p1) = read_str_at(old(message).bytes(), old(message).pos());
                &&& final(message).pos() == p1
                &&& text.len() == 0 ==> r is None
                &&& text.len() > 0 ==> (r matches Some(ServerMessage::AdminMessage(t)) && t@ == text)
            }),
    {
        let text = message.read_string();
        if text.as_str().is_empty() {
            return None;
        }
        Some(ServerMessage::AdminMessage(text))
    }
}

} // verus!

//! `Login` (server code 1): whether the server let us in, and if not, why.

use vstd::prelude::*;
use crate::actor::server_actor::ServerMessage;
use crate::message::{Message, read_u8_at, read_str_at};
use crate::message::text::same_text;

verus! {

pub struct LoginHandler;

impl LoginHandler {
    pub fn get_code(&self) -> (c: u32)
        ensures
            c == 1,
    {
        1
    }

    /// Success; or the refusal's reason, with a detail only for a bad name
    /// and only when one follows; or a plain failure when no reason is
    /// given.
    pub fn handle(&self, message: &mut Message) -> (r: Option<ServerMessage>)
        ensures
            final(message).bytes() == old(message).bytes(),
            ({
                let d = old(message).bytes();
                let (response, p1) = read_u8_at(d, old(message).pos());
                let (text, p2) = read_str_at(d, p1);
                let more = text == "INVALIDUSERNAME"@ && p2 < d.len();
                let (detail, p3) = read_str_at(d, p2);
                &&& response == 1 ==> (final(message).pos() == p2 && r matches Some(ServerMessage::LoginStatus(true)))
                &&& response != 1 ==> final(message).pos() == (if more { p3 } else { p2 })
                &&& response != 1 && text.len() == 0 ==> (r matches Some(ServerMessage::LoginStatus(false)))
                &&& response != 1 && text.len() > 0 ==> (r matches Some(ServerMessage::LoginRejected { reason, detail: dt })
                    && reason@ == text
                    && (if more { (dt matches Some(x) && x@ == detail) } else { dt is None }))
            }),
    {
        let response = message.read_int8();
        if response != 1 {
            let reason = message.read_string();
            // Only a bad name comes with a detail, saying what is wrong
            // with it.
            let detail = if same_text(reason.as_str(), "INVALIDUSERNAME") && message.get_pointer() < message.get_size() {
                Some(message.read_string())
            } else {
                None
            };
            if reason.as_str().is_empty() {
                return Some(ServerMessage::LoginStatus(false));
            }
            return Some(ServerMessage::LoginRejected { reason, detail });
        }
        let _greeting = message.read_string();
        Some(ServerMessage::LoginStatus(true))
    }
}

} // verus!

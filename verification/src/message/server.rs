//! Server messages.

use vstd::prelude::*;
use crate::message::{Message, u32_bytes};

pub mod admin_message;
pub mod change_password;
pub mod embedded;
pub mod login;

verus! {

/// Builds the messages we send to the server.
pub struct MessageFactory;

impl MessageFactory {
    /// `SendUploadSpeed` (server code 121): the speed of an upload that just
    /// finished, in bytes per second, for the server's average of ours.
    pub fn build_send_upload_speed(speed: u32) -> (m: Message)
        ensures
            m.bytes() == u32_bytes(121) + u32_bytes(speed),
            m.pos() == 0,
    {
        let mut m = Message::new();
        m.write_int32(121);
        m.write_int32(speed);
        m
    }
}

} // verus!

//! What the server side of the library reports to its host, and asks to
//! have sent.

use vstd::prelude::*;
use crate::message::Message;

verus! {

/// An event read from the server, or a request to send to it.
#[derive(Debug)]
pub enum ServerMessage {
    /// An administrator's announcement.
    AdminMessage(String),
    /// The server confirms that our password is now this one.
    PasswordChanged(String),
    /// Someone on the network searches for `query`.
    FileSearchRequest { username: String, token: u32, query: String },
    /// Whether we are logged in.
    LoginStatus(bool),
    /// The login was refused, saying why; a bad name also says what is wrong
    /// with it.
    LoginRejected { reason: String, detail: Option<String> },
    /// Ask the server how much of our privilege time is left.
    CheckPrivileges,
    /// Send this message to the server.
    SendMessage(Message),
}

} // verus!

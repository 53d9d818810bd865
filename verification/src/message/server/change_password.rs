//! `ChangePassword` (server code 142): the server's confirmation that our
//! password is now the one it repeats back. Until this arrives the change
//! has only been asked for.
//!
//! Also here: messages the protocol documentation lists as deprecated or
//! obsolete that a server or an old client may still send. They carry
//! nothing we act on, and a handler that reads them quietly is better than
//! a warning in the log for every one.

use vstd::prelude::*;
use crate::actor::server_actor::ServerMessage;
use crate::message::{Message, read_str_at};

verus! {

pub struct ChangePasswordHandler;

impl ChangePasswordHandler {
    pub fn get_code(&self) -> (c: u32)
        ensures
            c == 142,
    {
        142
    }

    /// The new password, unless the message is too short to hold even its
    /// length.
    pub fn handle(&self, message: &mut Message) -> (r: Option<ServerMessage>)
        ensures
            final(message).bytes() == old(message).bytes(),
            old(message).pos() + 4 > old(message).bytes().len() ==> r is None && final(message).pos() == old(message).pos(),
            old(message).pos() + 4 <= old(message).bytes().len() ==> ({
                let (password, p1) = read_str_at(old(message).bytes(), old(message).pos());
                &&& final(message).pos() == p1
                &&& (r matches Some(ServerMessage::PasswordChanged(p)) && p@ == password)
            }),
    {
        let p = message.get_pointer();
        let size = message.get_size();
        if p > size || size - p < 4 {
            return None;
        }
        Some(ServerMessage::PasswordChanged(message.read_string()))
    }
}

/// Server codes read and set aside, all deprecated or obsolete.
///
/// `ParentIP` (73), `ParentInactivityTimeout` (86), `SearchInactivityTimeout`
/// (87), `MinParentsInCache` (88), `DistribPingInterval` (90),
/// `UserPrivileged` (122), `NotifyPrivileges` (124) and `AckNotifyPrivileges`
/// (125).
pub const SET_ASIDE: [u32; 8] = [73, 86, 87, 88, 90, 122, 124, 125];

/// Reads one of the set-aside codes and does nothing with it.
pub struct SetAsideHandler(pub u32);

impl SetAsideHandler {
    pub fn get_code(&self) -> (c: u32)
        ensures
            c == self.0,
    {
        self.0
    }

    /// Nothing to report.
    pub fn handle(&self, message: &mut Message) -> (r: Option<ServerMessage>)
        ensures
            final(message).bytes() == old(message).bytes(),
            final(message).pos() == old(message).pos(),
            r is None,
    {
        None
    }
}

} // verus!

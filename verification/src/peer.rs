//! What the peer side of the library reports to its host.

use vstd::prelude::*;
use crate::message::peer::{PeerInfo, SharedDirectory};

verus! {

/// An event read from a peer's message, for the host to act on.
#[derive(Debug)]
pub enum PeerMessage {
    /// The peer asks what a folder of ours holds.
    FolderContentsRequested { token: u32, folder: String },
    /// The peer's answer listing a folder of theirs.
    FolderContentsReceived { token: u32, folder: String, directories: Vec<SharedDirectory> },
    /// The peer asks where a file it queued with us stands.
    IncomingPlaceInQueueRequest(String),
    /// The peer will not send a file we asked for.
    UploadFailed { filename: String, reason: Option<String> },
    /// The peer asks who we are.
    UserInfoRequested,
    /// The peer's answer about itself.
    UserInfoReceived(PeerInfo),
}

} // verus!

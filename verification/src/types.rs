//! Transfer states the host sees.

use vstd::prelude::*;

verus! {

/// Where an upload stands.
#[derive(Debug, Clone, PartialEq, Eq)]
pub enum UploadStatus {
    /// Waiting in our queue.
    Queued,
    /// Offered to the peer, or streaming.
    InProgress,
    Completed,
    Cancelled,
    /// Failed, saying why.
    Failed(String),
}

/// Where a download stands.
#[derive(Debug, Clone, PartialEq, Eq)]
pub enum DownloadStatus {
    Queued,
    InProgress,
    Completed,
    /// Failed, with the reason when there is one.
    Failed(Option<String>),
}

/// An upload as the host is told of it.
#[derive(Debug, Clone, PartialEq, Eq)]
pub struct UploadInfo {
    pub username: String,
    pub filename: String,
    pub size: u64,
    pub status: UploadStatus,
}

} // verus!

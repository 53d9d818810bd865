//! What can go wrong.

use vstd::prelude::*;

verus! {

/// The library's errors.
#[derive(Debug)]
pub enum SoulseekRs {
    /// There is no server connection to send on.
    NotConnected,
    /// A zlib stream could not be decoded; the text says where it broke.
    CompressionError(String),
    /// A value could not be put into a message; the text says why.
    InvalidMessage(String),
}

pub type Result<T> = std::result::Result<T, SoulseekRs>;

} // verus!

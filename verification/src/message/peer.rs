//! Peer messages, and the shared-file listings they carry.

use vstd::prelude::*;

pub mod folder_contents;
pub mod place_in_queue_request;
pub mod shared_file_list;
pub mod upload_denied;
pub mod user_info;

pub use user_info::PeerInfo;

verus! {

/// The largest profile picture kept or sent: 4 MB.
pub const MAX_PICTURE: usize = 4 * 1024 * 1024;

/// A file in a shared listing: its name, its size in bytes, and its
/// attributes as (code, value) pairs: bitrate, length and the like.
#[derive(Debug, Clone, PartialEq, Eq)]
pub struct SharedFileEntry {
    pub name: String,
    pub size: u64,
    pub attributes: Vec<(u32, u32)>,
}

/// A file as a value: name, size, attributes.
pub type FileView = (Seq<char>, u64, Seq<(u32, u32)>);

impl View for SharedFileEntry {
    type V = FileView;

    open spec fn view(&self) -> FileView {
        (self.name@, self.size, self.attributes@)
    }
}

impl SharedFileEntry {
    /// A file with no attributes.
    pub fn bare(name: String, size: u64) -> (e: SharedFileEntry)
        ensures
            e@ == (name@, size, Seq::<(u32, u32)>::empty()),
    {
        SharedFileEntry { name, size, attributes: Vec::new() }
    }
}

/// A folder in a shared listing, and the files directly in it.
#[derive(Debug, Clone, PartialEq, Eq)]
pub struct SharedDirectory {
    pub name: String,
    pub files: Vec<SharedFileEntry>,
}

/// A folder as a value: its name and its files.
pub type DirView = (Seq<char>, Seq<FileView>);

impl View for SharedDirectory {
    type V = DirView;

    open spec fn view(&self) -> DirView {
        (self.name@, self.files@.map_values(|f: SharedFileEntry| f@))
    }
}

/// The folders of a listing as values.
pub open spec fn dirs_view(ds: Seq<SharedDirectory>) -> Seq<DirView> {
    ds.map_values(|d: SharedDirectory| d@)
}

} // verus!

use super::file_times::FileTimes;
use vstd::prelude::*;

verus! {

/// One filesystem entry as the caller captured it: the walker works on
/// this in-memory picture, so its classification and linkage logic is
/// independent of how the picture was read.
#[derive(Debug)]
pub struct RawNode {
    /// Final path component.
    pub name: String,
    /// Full path, the key under which symlink targets are matched.
    pub path: String,
    /// Timestamps the platform supplied for the entry.
    pub times: FileTimes,
    pub data: RawData,
}

/// What the entry is, with the outcome of the access its kind called for.
#[derive(Debug)]
pub enum RawData {
    File(FileRead),
    Dir(DirRead),
    Symlink(LinkRead),
}

/// Outcome of reading a regular file's content.
#[derive(Debug)]
pub enum FileRead {
    Content {
        bytes: Vec<u8>,
        /// Key/value pairs from the media-metadata extractor; empty when
        /// extraction was off or the extractor failed.
        metas: Vec<(String, String)>,
    },
    /// Permission denied: recoverable, the node becomes inaccessible.
    Denied,
    /// Any other read failure: fatal, the whole scan is aborted.
    Fatal(String),
}

/// Outcome of enumerating a directory.
#[derive(Debug)]
pub enum DirRead {
    Entries(Vec<RawNode>),
    /// Permission denied: recoverable, the node becomes inaccessible.
    Denied,
    /// Any other enumeration failure: fatal, the whole scan is aborted.
    Fatal(String),
}

/// Outcome of reading a symbolic link's target path.
#[derive(Debug)]
pub enum LinkRead {
    /// The link's target, resolved to the same full-path form the scanned
    /// entries carry in `RawNode::path`.
    Target(String),
    /// The link itself could not be read; the node becomes inaccessible.
    Unreadable,
}

} // verus!

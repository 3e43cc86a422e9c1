use super::file_item::FileType;
use vstd::prelude::*;

verus! {

/// An inclusive range of node identities.  `start > end` encodes an empty
/// range, so "no children" needs no sentinel value.
#[derive(Clone, Copy, Debug, PartialEq, Eq, Structural)]
pub struct ChildRange {
    pub start: usize,
    pub end: usize,
}

impl ChildRange {
    /// Whether the range names no identity at all.
    pub open spec fn is_hollow(self) -> bool {
        self.start > self.end
    }

    /// Whether identity `i` lies in the range.
    pub open spec fn covers(self, i: int) -> bool {
        self.start <= i <= self.end
    }

    /// How many identities the range names.
    pub open spec fn size(self) -> int {
        if self.start > self.end {
            0
        } else {
            self.end - self.start + 1
        }
    }
}

/// What a node is, together with the payload that only its kind carries.
#[derive(Debug)]
pub enum SpecificInfo {
    /// Permission was denied while enumerating, reading or following the
    /// entry; the intended kind is preserved, nothing else is known.
    Inaccessible(FileType),
    Regular(RegularInfo),
    Dir(DirInfo),
    Symlink(SymlinkInfo),
}

/// Payload of a regular file: its content fingerprint and, when media
/// extraction was enabled, the key/value pairs the extractor returned
/// (order preserved, duplicate keys allowed).
#[derive(Debug)]
pub struct RegularInfo {
    pub md5: String,
    pub metas: Vec<(String, String)>,
}

/// Payload of a directory: the contiguous identity range of its children.
#[derive(Debug)]
pub struct DirInfo {
    pub childs: ChildRange,
}

impl DirInfo {
    pub fn new(start: usize, end: usize) -> (r: Self)
        ensures
            r.childs.start == start,
            r.childs.end == end,
    {
        Self { childs: ChildRange { start, end } }
    }
}

/// Payload of a symbolic link: the identity its target resolved to, `None`
/// until the resolver pass runs or when the target lies outside the
/// scanned tree.
#[derive(Debug)]
pub struct SymlinkInfo {
    pub target: Option<usize>,
}

} // verus!

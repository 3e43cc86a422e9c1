use super::file_times::FileTimes;
use super::raw::LinkRead;
use super::specific_info::{ChildRange, SpecificInfo};
use vstd::prelude::*;

verus! {

/// The four kinds a scanned entry can have.
#[derive(Clone, Copy, Debug, PartialEq, Eq, Structural)]
pub enum FileType {
    Regular,
    Dir,
    Symlink,
}

/// One finished entry of the flat result array.  Its `id` equals its index
/// in that array; every node but the root names an earlier node as parent.
#[derive(Debug)]
pub struct FileItem {
    pub id: usize,
    pub name: String,
    pub parent: Option<usize>,
    pub info: SpecificInfo,
    pub times: FileTimes,
}

/// The first metadata value stored under `name`, if any.
pub open spec fn find_meta(metas: Seq<(String, String)>, name: Seq<char>) -> Option<Seq<char>>
    decreases metas.len(),
{
    if metas.len() == 0 {
        None
    } else if metas[0].0@ == name {
        Some(metas[0].1@)
    } else {
        find_meta(metas.drop_first(), name)
    }
}

impl FileItem {
    /// The kind of this entry, read off its payload.
    pub open spec fn spec_file_type(self) -> FileType {
        match self.info {
            SpecificInfo::Regular(_) => FileType::Regular,
            SpecificInfo::Dir(_) => FileType::Dir,
            SpecificInfo::Symlink(_) => FileType::Symlink,
            SpecificInfo::Inaccessible(t) => t,
        }
    }

    pub fn id(&self) -> (r: usize)
        ensures
            r == self.id,
    {
        self.id
    }

    pub fn parent(&self) -> (r: Option<usize>)
        ensures
            r == self.parent,
    {
        self.parent
    }

    pub fn name(&self) -> (r: &str)
        ensures
            r@ == self.name@,
    {
        self.name.as_str()
    }

    pub fn times(&self) -> (r: &FileTimes)
        ensures
            *r == self.times,
    {
        &self.times
    }

    pub fn file_type(&self) -> (r: FileType)
        ensures
            r == self.spec_file_type(),
    {
        match &self.info {
            SpecificInfo::Regular(_) => FileType::Regular,
            SpecificInfo::Dir(_) => FileType::Dir,
            SpecificInfo::Symlink(_) => FileType::Symlink,
            SpecificInfo::Inaccessible(t) => *t,
        }
    }

    pub fn is_dir(&self) -> (r: bool)
        ensures
            r == (self.spec_file_type() == FileType::Dir),
    {
        self.file_type() == FileType::Dir
    }

    /// The child identity range of a directory node, `None` for any other
    /// kind.
    pub fn childs(&self) -> (r: Option<ChildRange>)
        ensures
            self.info matches SpecificInfo::Dir(d) ==> r == Some(d.childs),
            !(self.info is Dir) ==> r is None,
    {
        match &self.info {
            SpecificInfo::Dir(dir) => Some(dir.childs),
            _ => None,
        }
    }

    /// The content fingerprint of a regular node, `None` for any other
    /// kind.
    pub fn md5(&self) -> (r: Option<String>)
        ensures
            self.info matches SpecificInfo::Regular(ri) ==> r matches Some(s) && s@ == ri.md5@,
            !(self.info is Regular) ==> r is None,
    {
        match &self.info {
            SpecificInfo::Regular(info) => Some(info.md5.clone()),
            _ => None,
        }
    }

    /// The first metadata value stored under `name` on a regular node.
    #[verifier::loop_isolation(false)]
    pub fn meta(&self, name: &String) -> (r: Option<String>)
        ensures
            self.info matches SpecificInfo::Regular(ri) ==> (match find_meta(
                ri.metas@,
                name@,
            ) {
                Some(v) => r matches Some(s) && s@ == v,
                None => r is None,
            }),
            !(self.info is Regular) ==> r is None,
    {
        match &self.info {
            SpecificInfo::Regular(info) => {
                let n = info.metas.len();
                let mut k: usize = 0;
                proof {
                    assert(info.metas@.skip(0) =~= info.metas@);
                }
                while k < n
                    invariant
                        k <= n,
                        n == info.metas@.len(),
                        find_meta(info.metas@, name@) == find_meta(info.metas@.skip(k as int), name@),
                        forall|j: int| 0 <= j < k ==> (#[trigger] info.metas@[j]).0@ != name@,
                    decreases n - k,
                {
                    proof {
                        assert(info.metas@.skip(k as int)[0] == info.metas@[k as int]);
                    }
                    if info.metas[k].0 == *name {
                        proof {
                            assert(find_meta(info.metas@.skip(k as int), name@) == Some(
                                info.metas@[k as int].1@,
                            ));
                        }
                        return Some(info.metas[k].1.clone());
                    }
                    proof {
                        assert(info.metas@.skip(k as int).drop_first() =~= info.metas@.skip(
                            k as int + 1,
                        ));
                    }
                    k = k + 1;
                }
                proof {
                    assert(info.metas@.skip(k as int).len() == 0);
                }
                None
            }
            _ => None,
        }
    }
}

/// A node under construction: everything the walker knows about an entry
/// before its linkage is final.  `info` stays `None` while a directory
/// waits to be expanded; `link` keeps the raw symlink reading outcome for
/// the resolver pass.
#[derive(Debug)]
pub struct FileItemBuilder {
    pub id: usize,
    pub path: String,
    pub name: String,
    pub times: FileTimes,
    pub parent: Option<usize>,
    pub info: Option<SpecificInfo>,
    pub link: Option<LinkRead>,
}

impl FileItemBuilder {
    pub fn new(id: usize, path: String, name: String, times: FileTimes) -> (r: Self)
        ensures
            r.id == id,
            r.path == path,
            r.name == name,
            r.times == times,
            r.parent is None,
            r.info is None,
            r.link is None,
    {
        Self { id, path, name, times, parent: None, info: None, link: None }
    }

    pub fn parent(&mut self, parent: usize)
        ensures
            *final(self) == (FileItemBuilder { parent: Some(parent), ..*old(self) }),
    {
        self.parent = Some(parent);
    }

    pub fn info(&mut self, info: SpecificInfo)
        ensures
            *final(self) == (FileItemBuilder { info: Some(info), ..*old(self) }),
    {
        self.info = Some(info);
    }

    /// Freezes the builder into its immutable form; the kind must have
    /// been classified first.
    pub fn build(self) -> (r: FileItem)
        requires
            self.info is Some,
        ensures
            r.id == self.id,
            r.name == self.name,
            r.parent == self.parent,
            Some(r.info) == self.info,
            r.times == self.times,
    {
        FileItem {
            id: self.id,
            name: self.name,
            parent: self.parent,
            info: self.info.unwrap(),
            times: self.times,
        }
    }
}

/// A single entry flattened to primitives, for callers that want a record
/// free of the tagged payload.
#[derive(Debug)]
pub struct PlainFileItem {
    pub id: usize,
    pub path: String,
    pub file_type: FileType,
    pub times: FileTimes,
}

} // verus!

use super::file_item::{find_meta, FileItem, FileType};
use super::specific_info::SpecificInfo;
use vstd::prelude::*;

verus! {

/// One column of information a caller can ask of a node.
#[derive(Debug)]
pub enum FileInfo {
    Name,
    Type,
    Created,
    Modified,
    Accessed,
    Md5,
    Media(String),
}

/// The text chrono renders for a nanosecond timestamp under the fixed
/// `%Y/%m/%d %H:%M:%S` layout.
pub uninterp spec fn time_string_of(t: int) -> Seq<char>;

/// Relies on chrono's `DateTime::from_timestamp_nanos` and its `format`
/// with the fixed items `%Y/%m/%d %H:%M:%S`: the rendered text is UTC
/// calendar arithmetic, a function of the nanosecond count alone, free of
/// locale and environment.
#[verifier::external_body]
fn format_timestamp(time: i64) -> (r: String)
    ensures
        r@ == time_string_of(time as int),
{
    chrono::DateTime::from_timestamp_nanos(time).format("%Y/%m/%d %H:%M:%S").to_string()
}

/// The text shown for an optional timestamp: its rendering, or nothing.
pub open spec fn spec_time_string(time: Option<i64>) -> Seq<char> {
    match time {
        None => Seq::empty(),
        Some(t) => time_string_of(t as int),
    }
}

fn stringify_time(time: Option<i64>) -> (r: String)
    ensures
        r@ == spec_time_string(time),
{
    match time {
        None => String::new(),
        Some(t) => format_timestamp(t),
    }
}

/// The label each kind is shown under.
pub open spec fn spec_type_string(t: FileType) -> Seq<char> {
    match t {
        FileType::Regular => "Regular"@,
        FileType::Dir => "Directory"@,
        FileType::Symlink => "Symbol link"@,
    }
}

/// The text `info_string` owes for each request: the node's own fields
/// where they exist, empty text where the node's kind has no such field.
pub open spec fn spec_info_string(item: FileItem, name: FileInfo) -> Seq<char> {
    match name {
        FileInfo::Name => item.name@,
        FileInfo::Type => spec_type_string(item.spec_file_type()),
        FileInfo::Created => spec_time_string(item.times.created),
        FileInfo::Modified => spec_time_string(item.times.modified),
        FileInfo::Accessed => spec_time_string(item.times.accessed),
        FileInfo::Md5 => match item.info {
            SpecificInfo::Regular(ri) => ri.md5@,
            _ => Seq::empty(),
        },
        FileInfo::Media(m) => match item.info {
            SpecificInfo::Regular(ri) => match find_meta(ri.metas@, m@) {
                Some(v) => v,
                None => Seq::empty(),
            },
            _ => Seq::empty(),
        },
    }
}

/// Renders one column of one node as text.
pub fn info_string(item: &FileItem, name: &FileInfo) -> (r: String)
    ensures
        r@ == spec_info_string(*item, *name),
{
    match name {
        FileInfo::Name => item.name().to_owned(),
        FileInfo::Type => {
            match item.file_type() {
                FileType::Regular => "Regular",
                FileType::Dir => "Directory",
                FileType::Symlink => "Symbol link",
            }.to_owned()
        }
        FileInfo::Created => stringify_time(item.times().created),
        FileInfo::Modified => stringify_time(item.times().modified),
        FileInfo::Accessed => stringify_time(item.times().accessed),
        FileInfo::Md5 => match item.md5() {
            Some(s) => s,
            None => String::new(),
        },
        FileInfo::Media(m) => match item.meta(m) {
            Some(s) => s,
            None => String::new(),
        },
    }
}

} // verus!

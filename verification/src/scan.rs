mod file_info;
mod file_item;
mod file_times;
mod raw;
mod specific_info;

pub use file_info::{info_string, spec_info_string, spec_time_string, spec_type_string, time_string_of, FileInfo};
pub use file_item::{find_meta, FileItem, FileItemBuilder, FileType, PlainFileItem};
pub use file_times::{nanos, u128_to_i64, FileTimes};
pub use raw::{DirRead, FileRead, LinkRead, RawData, RawNode};
pub use specific_info::{ChildRange, DirInfo, RegularInfo, SpecificInfo, SymlinkInfo};

use vstd::pervasive::VecAdditionalExecFns;
use vstd::prelude::*;
use vstd::string::StringExecFns;

verus! {

broadcast use vstd::seq::axiom_seq_index_decreases;

/// The 32-digit lowercase hex rendering of the MD5 digest of a byte
/// sequence.
pub uninterp spec fn md5_hex_of(bytes: Seq<u8>) -> Seq<char>;

/// Relies on `md5::compute` and the `Debug` rendering of its `Digest`
/// (16 bytes, written `{:02x}` each): the digest is a function of the
/// input bytes alone, rendered as 32 lowercase hex digits.
#[verifier::external_body]
fn md5_hex(bytes: &Vec<u8>) -> (r: String)
    ensures
        r@ == md5_hex_of(bytes@),
        r@.len() == 32,
{
    format!("{:?}", md5::compute(bytes.as_slice()))
}

/// Hashing is deterministic: byte-identical content always yields the
/// identical fingerprint text, in whatever order and however often the
/// files are visited.
pub proof fn lemma_hash_deterministic(a: Seq<u8>, b: Seq<u8>)
    requires
        a == b,
    ensures
        md5_hex_of(a) == md5_hex_of(b),
{
}

/// What a scan is asked to do: stop after `scan_limit` entries if set,
/// and run the media-metadata extractor on regular files when `ffsm` is
/// on.
pub struct ScanSettings {
    pub scan_limit: Option<usize>,
    pub ffsm: bool,
}

impl Default for ScanSettings {
    /// No limit, no media extraction.
    fn default() -> (r: Self)
        ensures
            r.scan_limit is None,
            r.ffsm == false,
    {
        Self { scan_limit: None, ffsm: false }
    }
}

/// The finished report: the flat node array, a description of the mode
/// the scan ran under, a human-readable warning, and the two facts the
/// warning is assembled from.
#[derive(Debug)]
pub struct Scan {
    pub items: Vec<FileItem>,
    pub description: String,
    pub warning: String,
    /// How many entries raised permission-denied during traversal.
    pub inaccessible: usize,
    /// Whether the size limit cut enumeration short.
    pub limit_reached: bool,
}

// ---------------------------------------------------------------------
// Decimal rendering
// ---------------------------------------------------------------------

/// The character of one decimal digit.
pub open spec fn dec_digit(d: int) -> char {
    if d == 0 {
        '0'
    } else if d == 1 {
        '1'
    } else if d == 2 {
        '2'
    } else if d == 3 {
        '3'
    } else if d == 4 {
        '4'
    } else if d == 5 {
        '5'
    } else if d == 6 {
        '6'
    } else if d == 7 {
        '7'
    } else if d == 8 {
        '8'
    } else {
        '9'
    }
}

/// The usual decimal rendering of a non-negative integer.
pub open spec fn dec_str(n: int) -> Seq<char>
    decreases n,
{
    if n < 10 {
        seq![dec_digit(n)]
    } else {
        dec_str(n / 10).push(dec_digit(n % 10))
    }
}

fn digit_str(d: usize) -> (r: &'static str)
    requires
        d < 10,
    ensures
        r@ == seq![dec_digit(d as int)],
{
    let s: &'static str = match d {
        0 => "0",
        1 => "1",
        2 => "2",
        3 => "3",
        4 => "4",
        5 => "5",
        6 => "6",
        7 => "7",
        8 => "8",
        _ => "9",
    };
    proof {
        reveal_strlit("0");
        reveal_strlit("1");
        reveal_strlit("2");
        reveal_strlit("3");
        reveal_strlit("4");
        reveal_strlit("5");
        reveal_strlit("6");
        reveal_strlit("7");
        reveal_strlit("8");
        reveal_strlit("9");
        assert(s@ =~= seq![dec_digit(d as int)]);
    }
    s
}

/// Renders a count in decimal.
pub fn usize_to_string(n: usize) -> (r: String)
    ensures
        r@ == dec_str(n as int),
    decreases n,
{
    if n < 10 {
        digit_str(n).to_owned()
    } else {
        let mut s = usize_to_string(n / 10);
        s.append(digit_str(n % 10));
        proof {
            assert(s@ =~= dec_str(n as int));
        }
        s
    }
}

// ---------------------------------------------------------------------
// The path index and the symlink resolver
// ---------------------------------------------------------------------

/// The identity recorded under a path, searching the pairs in order.
pub open spec fn find_path(ps: Seq<(String, usize)>, key: Seq<char>) -> Option<usize>
    decreases ps.len(),
{
    if ps.len() == 0 {
        None
    } else if ps[0].0@ == key {
        Some(ps[0].1)
    } else {
        find_path(ps.drop_first(), key)
    }
}

pub proof fn lemma_find_path_some(ps: Seq<(String, usize)>, key: Seq<char>)
    requires
        find_path(ps, key) is Some,
    ensures
        exists|k: int|
            0 <= k < ps.len() && (#[trigger] ps[k]).0@ == key && ps[k].1 == find_path(
                ps,
                key,
            )->0,
    decreases ps.len(),
{
    if ps.len() == 0 {
    } else if ps[0].0@ == key {
        assert(ps[0].0@ == key && ps[0].1 == find_path(ps, key)->0);
    } else {
        lemma_find_path_some(ps.drop_first(), key);
        let k = choose|k: int|
            0 <= k < ps.drop_first().len() && (#[trigger] ps.drop_first()[k]).0@ == key
                && ps.drop_first()[k].1 == find_path(ps.drop_first(), key)->0;
        assert(ps[k + 1] == ps.drop_first()[k]);
    }
}

pub proof fn lemma_find_path_none(ps: Seq<(String, usize)>, key: Seq<char>)
    requires
        find_path(ps, key) is None,
    ensures
        forall|k: int| 0 <= k < ps.len() ==> (#[trigger] ps[k]).0@ != key,
    decreases ps.len(),
{
    if ps.len() == 0 {
    } else if ps[0].0@ == key {
    } else {
        lemma_find_path_none(ps.drop_first(), key);
        assert forall|k: int| 0 <= k < ps.len() implies (#[trigger] ps[k]).0@ != key by {
            if k > 0 {
                assert(ps[k] == ps.drop_first()[k - 1]);
            }
        }
    }
}

pub proof fn lemma_find_path_absent(ps: Seq<(String, usize)>, key: Seq<char>)
    requires
        forall|k: int| 0 <= k < ps.len() ==> (#[trigger] ps[k]).0@ != key,
    ensures
        find_path(ps, key) is None,
    decreases ps.len(),
{
    if ps.len() == 0 {
    } else {
        assert(ps[0].0@ != key);
        assert forall|k: int| 0 <= k < ps.drop_first().len() implies (#[trigger] ps.drop_first()[
            k
        ]).0@ != key by {
            assert(ps.drop_first()[k] == ps[k + 1]);
        }
        lemma_find_path_absent(ps.drop_first(), key);
    }
}

fn lookup(paths: &Vec<(String, usize)>, key: &String) -> (r: Option<usize>)
    ensures
        r == find_path(paths@, key@),
{
    let n = paths.len();
    let mut k: usize = 0;
    proof {
        assert(paths@.skip(0) =~= paths@);
    }
    while k < n
        invariant
            k <= n,
            n == paths@.len(),
            find_path(paths@, key@) == find_path(paths@.skip(k as int), key@),
        decreases n - k,
    {
        proof {
            assert(paths@.skip(k as int)[0] == paths@[k as int]);
        }
        if paths[k].0 == *key {
            return Some(paths[k].1);
        }
        proof {
            assert(paths@.skip(k as int).drop_first() =~= paths@.skip(k as int + 1));
        }
        k = k + 1;
    }
    proof {
        assert(paths@.skip(k as int).len() == 0);
    }
    None
}

/// What a symlink node's payload becomes once its raw reading outcome is
/// matched against the recorded paths: the matched identity, no identity
/// when the target path was never recorded, or an inaccessible node when
/// the link itself could not be read.
pub open spec fn resolve_target(link: Option<LinkRead>, ps: Seq<(String, usize)>) -> SpecificInfo {
    match link {
        Some(LinkRead::Target(t)) => SpecificInfo::Symlink(SymlinkInfo { target: find_path(ps, t@) }),
        _ => SpecificInfo::Inaccessible(FileType::Symlink),
    }
}

/// The whole effect of the resolver pass on one node: only unresolved or
/// resolved symlink payloads change, everything else is left alone.
pub open spec fn resolve_builder(b: FileItemBuilder, ps: Seq<(String, usize)>) -> FileItemBuilder {
    if b.info matches Some(SpecificInfo::Symlink(_)) {
        FileItemBuilder { info: Some(resolve_target(b.link, ps)), ..b }
    } else {
        b
    }
}

/// Resolution is idempotent: running the resolver over an already
/// resolved node recomputes the same target from the same recorded
/// outcome, leaving the node unchanged.
pub proof fn lemma_resolve_idempotent(b: FileItemBuilder, ps: Seq<(String, usize)>)
    ensures
        resolve_builder(resolve_builder(b, ps), ps) == resolve_builder(b, ps),
{
}

/// A link whose target path matches no recorded path resolves to no
/// identity at all — a valid terminal state, not an error.
pub proof fn lemma_outside_target_unresolved(
    b: FileItemBuilder,
    ps: Seq<(String, usize)>,
    t: Seq<char>,
)
    requires
        b.info matches Some(SpecificInfo::Symlink(_)),
        b.link matches Some(LinkRead::Target(s)) && s@ == t,
        forall|k: int| 0 <= k < ps.len() ==> (#[trigger] ps[k]).0@ != t,
    ensures
        resolve_builder(b, ps).info == Some(SpecificInfo::Symlink(SymlinkInfo { target: None })),
{
    lemma_find_path_absent(ps, t);
}

/// The resolver pass: one linear sweep that rewrites every symlink
/// node's payload as `resolve_builder` says, touching nothing else.
pub fn resolve_links(builders: &mut Vec<FileItemBuilder>, paths: &Vec<(String, usize)>)
    ensures
        final(builders)@.len() == old(builders)@.len(),
        forall|i: int|
            0 <= i < old(builders)@.len() ==> final(builders)@[i] == resolve_builder(
                old(builders)@[i],
                paths@,
            ),
{
    let n = builders.len();
    let mut i: usize = 0;
    while i < n
        invariant
            i <= n,
            n == builders@.len(),
            builders@.len() == old(builders)@.len(),
            forall|j: int| i <= j < n ==> builders@[j] == old(builders)@[j],
            forall|j: int|
                0 <= j < i ==> builders@[j] == resolve_builder(old(builders)@[j], paths@),
        decreases n - i,
    {
        let mut b = FileItemBuilder::new(0, String::new(), String::new(), FileTimes::default());
        builders.set_and_swap(i, &mut b);
        let is_link = matches!(&b.info, Some(SpecificInfo::Symlink(_)));
        if is_link {
            let new_info = match &b.link {
                Some(LinkRead::Target(t)) => SpecificInfo::Symlink(
                    SymlinkInfo { target: lookup(paths, t) },
                ),
                _ => SpecificInfo::Inaccessible(FileType::Symlink),
            };
            b.info = Some(new_info);
        }
        builders.set(i, b);
        i = i + 1;
    }
}

// ---------------------------------------------------------------------
// The walker's state and its invariants
// ---------------------------------------------------------------------

/// How many of `n` enumerated entries are admitted when the next entry
/// would get identity `next` and the node count may not pass `limit`.
pub open spec fn kept_of(n: int, next: int, limit: Option<usize>) -> int {
    match limit {
        None => n,
        Some(l) => if next >= l {
            0
        } else if n <= l - next {
            n
        } else {
            l - next
        },
    }
}

/// Structure of the builder arena: identities equal positions, only the
/// root lacks a parent, parents precede their children, and a classified
/// directory's range names exactly nodes that call it parent.
pub open spec fn arena_wf(bs: Seq<FileItemBuilder>) -> bool {
    &&& 1 <= bs.len()
    &&& forall|i: int| 0 <= i < bs.len() ==> (#[trigger] bs[i].id) == i
    &&& bs[0].parent is None
    &&& forall|i: int|
        1 <= i < bs.len() ==> ((#[trigger] bs[i].parent) matches Some(p) && p < i)
    &&& forall|i: int| 0 <= i < bs.len() ==> dir_info_wf(bs, i)
}

/// The entry list a raw directory node carries, if it carries one.
pub open spec fn raw_entries(n: RawNode) -> Option<Vec<RawNode>> {
    match n.data {
        RawData::Dir(DirRead::Entries(es)) => Some(es),
        _ => None,
    }
}

/// The child range a classified directory builder carries, if any.
pub open spec fn dir_range(b: FileItemBuilder) -> Option<ChildRange> {
    match b.info {
        Some(SpecificInfo::Dir(di)) => Some(di.childs),
        _ => None,
    }
}

pub open spec fn dir_info_wf(bs: Seq<FileItemBuilder>, i: int) -> bool {
    dir_range(bs[i]) is Some ==> ({
        let cr = dir_range(bs[i])->0;
        &&& i < cr.start
        &&& cr.end < bs.len()
        &&& cr.start <= cr.end + 1
        &&& forall|j: int|
            cr.start <= j <= cr.end ==> (#[trigger] bs[j].parent) == Some(i as usize)
    })
}

/// Whether node `p` is a classified directory whose range covers `i`.
pub open spec fn dir_covers(bs: Seq<FileItemBuilder>, p: int, i: int) -> bool {
    dir_range(bs[p]) is Some && dir_range(bs[p])->0.covers(i)
}

/// Every non-root node's parent is a classified directory whose range
/// covers the node.
pub open spec fn parent_links(bs: Seq<FileItemBuilder>, i: int) -> bool {
    bs[i].parent matches Some(p) && (0 <= p < i && dir_covers(bs, p as int, i))
}

pub open spec fn parents_linked(bs: Seq<FileItemBuilder>) -> bool {
    forall|i: int| 1 <= i < bs.len() ==> #[trigger] parent_links(bs, i)
}

/// Like `parents_linked`, but nodes from `from` on are exempt: they are
/// the children of the directory being expanded, whose range is not set
/// yet.
pub open spec fn parents_linked_except(bs: Seq<FileItemBuilder>, from: int) -> bool {
    forall|i: int| 1 <= i < bs.len() && i < from ==> #[trigger] parent_links(bs, i)
}

/// A builder agrees with the raw entry it was made from: same name, path
/// and times, and a payload that classifies the raw outcome.  A `None`
/// payload is allowed only for a directory still waiting to be expanded.
pub open spec fn node_ok(b: FileItemBuilder, raw: RawNode, ffsm: bool) -> bool {
    &&& b.name@ == raw.name@
    &&& b.path@ == raw.path@
    &&& b.times == raw.times
    &&& match b.info {
        None => raw.data matches RawData::Dir(DirRead::Entries(_)) && b.link is None,
        Some(info) => info_ok(info, b.link, raw, ffsm),
    }
}

pub open spec fn info_ok(
    info: SpecificInfo,
    link: Option<LinkRead>,
    raw: RawNode,
    ffsm: bool,
) -> bool {
    match raw.data {
        RawData::File(FileRead::Content { bytes, metas }) => {
            &&& info matches SpecificInfo::Regular(ri) && ri.md5@ == md5_hex_of(bytes@)
                && ri.metas@ == (if ffsm {
                metas@
            } else {
                Seq::<(String, String)>::empty()
            })
            &&& link is None
        },
        RawData::File(FileRead::Denied) => info == SpecificInfo::Inaccessible(FileType::Regular)
            && link is None,
        RawData::File(FileRead::Fatal(_)) => false,
        RawData::Dir(DirRead::Entries(_)) => info matches SpecificInfo::Dir(_) && link is None,
        RawData::Dir(DirRead::Denied) => info == SpecificInfo::Inaccessible(FileType::Dir)
            && link is None,
        RawData::Dir(DirRead::Fatal(_)) => false,
        RawData::Symlink(lr) => info == SpecificInfo::Symlink(SymlinkInfo { target: None })
            && link == Some(lr),
    }
}

/// A classified directory's range holds exactly the admitted prefix of
/// its raw entries, in enumeration order, and was cut short only when the
/// limit was recorded as reached.
pub open spec fn ranges_ok(
    bs: Seq<FileItemBuilder>,
    m: Map<int, RawNode>,
    i: int,
    limit: Option<usize>,
    limit_reached: bool,
) -> bool {
    (raw_entries(m[i]) is Some && dir_range(bs[i]) is Some) ==> ({
        let es = raw_entries(m[i])->0;
        let cr = dir_range(bs[i])->0;
        &&& cr.size() == kept_of(es@.len() as int, cr.start as int, limit)
        &&& (cr.size() < es@.len() ==> limit_reached)
        &&& forall|j: int|
            cr.start <= j < cr.start + cr.size() ==> (#[trigger] st_key(m, j)) && m[j] == es@[j
                - cr.start]
    })
}

/// Shorthand used as a quantifier trigger.
pub open spec fn st_key(m: Map<int, RawNode>, i: int) -> bool {
    m.contains_key(i)
}

pub open spec fn tree_ok(
    bs: Seq<FileItemBuilder>,
    m: Map<int, RawNode>,
    ffsm: bool,
    limit: Option<usize>,
    limit_reached: bool,
) -> bool {
    &&& forall|i: int| 0 <= i < bs.len() ==> #[trigger] st_key(m, i)
    &&& forall|i: int| 0 <= i < bs.len() ==> node_ok(#[trigger] bs[i], m[i], ffsm)
    &&& forall|i: int| 0 <= i < bs.len() ==> #[trigger] ranges_ok(bs, m, i, limit, limit_reached)
}

pub open spec fn path_pair_ok(
    ps: Seq<(String, usize)>,
    m: Map<int, RawNode>,
    len: int,
    k: int,
) -> bool {
    &&& 1 <= ps[k].1 < len
    &&& m.contains_key(ps[k].1 as int)
    &&& ps[k].0@ == m[ps[k].1 as int].path@
}

pub open spec fn has_pair(ps: Seq<(String, usize)>, i: int) -> bool {
    exists|k: int| 0 <= k < ps.len() && (#[trigger] ps[k]).1 == i
}

/// The path index records every non-root node's path, and nothing else.
pub open spec fn paths_wf(ps: Seq<(String, usize)>, m: Map<int, RawNode>, len: int) -> bool {
    &&& forall|k: int| 0 <= k < ps.len() ==> #[trigger] path_pair_ok(ps, m, len, k)
    &&& forall|i: int| 1 <= i < len ==> #[trigger] has_pair(ps, i)
}

pub open spec fn denied_raw(n: RawNode) -> bool {
    n.data matches RawData::File(FileRead::Denied) || n.data matches RawData::Dir(DirRead::Denied)
}

/// How many of the first `len` recorded raw entries were denied.
pub open spec fn count_denied(m: Map<int, RawNode>, len: int) -> int
    decreases len,
{
    if len <= 0 {
        0
    } else {
        count_denied(m, len - 1) + if denied_raw(m[len - 1]) {
            1int
        } else {
            0int
        }
    }
}

proof fn lemma_count_denied_le(m: Map<int, RawNode>, len: int)
    ensures
        0 <= count_denied(m, len) <= (if len >= 0 {
            len
        } else {
            0
        }),
    decreases len,
{
    if len > 0 {
        lemma_count_denied_le(m, len - 1);
    }
}

proof fn lemma_count_denied_frame(m1: Map<int, RawNode>, m2: Map<int, RawNode>, len: int)
    requires
        forall|i: int| 0 <= i < len ==> m1[i] == m2[i],
    ensures
        count_denied(m1, len) == count_denied(m2, len),
    decreases len,
{
    if len > 0 {
        lemma_count_denied_frame(m1, m2, len - 1);
    }
}

pub open spec fn within_limit(len: int, limit: Option<usize>) -> bool {
    limit matches Some(l) ==> len <= (if l >= 1 {
        l as int
    } else {
        1int
    })
}

/// Everything one scan invocation owns while it runs; discarded or
/// frozen into the report when the scan finishes.
pub struct ScanState {
    pub builders: Vec<FileItemBuilder>,
    pub paths: Vec<(String, usize)>,
    pub inaccessible: usize,
    pub limit_reached: bool,
    /// Which raw entry each assigned identity stands for.
    pub raw_of: Ghost<Map<int, RawNode>>,
}

pub open spec fn st_inv(st: ScanState, ffsm: bool, limit: Option<usize>) -> bool {
    &&& arena_wf(st.builders@)
    &&& parents_linked(st.builders@)
    &&& forall|i: int| #[trigger] st.raw_of@.contains_key(i) ==> 0 <= i < st.builders@.len()
    &&& tree_ok(st.builders@, st.raw_of@, ffsm, limit, st.limit_reached)
    &&& paths_wf(st.paths@, st.raw_of@, st.builders@.len() as int)
    &&& within_limit(st.builders@.len() as int, limit)
    &&& st.inaccessible == count_denied(st.raw_of@, st.builders@.len() as int)
    &&& (limit is None ==> !st.limit_reached)
}

// ---------------------------------------------------------------------
// Fatal outcomes
// ---------------------------------------------------------------------

/// Whether the captured tree holds a fatal outcome carrying `msg`.
pub open spec fn fatal_in(n: RawNode, msg: Seq<char>) -> bool
    decreases n,
    via fatal_in_dec
{
    match n.data {
        RawData::File(FileRead::Fatal(e)) => e@ == msg,
        RawData::Dir(DirRead::Fatal(e)) => e@ == msg,
        RawData::Dir(DirRead::Entries(es)) => exists|k: int|
            0 <= k < es@.len() && fatal_in(#[trigger] es@[k], msg),
        _ => false,
    }
}

#[via_fn]
proof fn fatal_in_dec(n: RawNode, msg: Seq<char>) {
    if let RawData::Dir(dr) = n.data {
        if let DirRead::Entries(es) = dr {
            assert(decreases_to!(n => es@));
            assert forall|k: int| 0 <= k < es@.len() implies decreases_to!(n => es@[k]) by {
                assert(decreases_to!(es@ => es@[k]));
            }
        }
    }
}

/// Whether any fatal outcome at all lies in the captured tree.
pub open spec fn has_fatal(n: RawNode) -> bool {
    exists|msg: Seq<char>| fatal_in(n, msg)
}

// ---------------------------------------------------------------------
// Freezing the arena
// ---------------------------------------------------------------------

/// The item a fully classified builder freezes into.
pub open spec fn built_item(b: FileItemBuilder) -> FileItem {
    FileItem { id: b.id, name: b.name, parent: b.parent, info: b.info->0, times: b.times }
}

fn build_items(builders: Vec<FileItemBuilder>) -> (r: Vec<FileItem>)
    requires
        forall|i: int| 0 <= i < builders@.len() ==> (#[trigger] builders@[i].info) is Some,
    ensures
        r@.len() == builders@.len(),
        forall|i: int| 0 <= i < builders@.len() ==> #[trigger] r@[i] == built_item(builders@[i]),
{
    let ghost bs0 = builders@;
    let mut builders = builders;
    let n = builders.len();
    let mut items: Vec<FileItem> = Vec::new();
    let mut i: usize = 0;
    while i < n
        invariant
            i <= n,
            n == builders@.len(),
            n == bs0.len(),
            items@.len() == i,
            forall|j: int| i <= j < n ==> builders@[j] == bs0[j],
            forall|j: int| 0 <= j < i ==> #[trigger] items@[j] == built_item(bs0[j]),
            forall|j: int| 0 <= j < n ==> (#[trigger] bs0[j].info) is Some,
        decreases n - i,
    {
        let mut b = FileItemBuilder::new(0, String::new(), String::new(), FileTimes::default());
        builders.set_and_swap(i, &mut b);
        proof {
            assert(b == bs0[i as int]);
        }
        items.push(b.build());
        i = i + 1;
    }
    items
}

// ---------------------------------------------------------------------
// The traversal engine
// ---------------------------------------------------------------------

/// What expanding directory `d` leaves behind: the invariant holds again,
/// nothing before the expansion changed but `d` itself, `d` now carries
/// the range of the entries that were admitted, and every node added
/// below it is fully classified.
pub open spec fn expand_ok(
    pre: ScanState,
    post: ScanState,
    d: int,
    entries: Seq<RawNode>,
    settings: ScanSettings,
) -> bool {
    let n0 = pre.builders@.len() as int;
    &&& st_inv(post, settings.ffsm, settings.scan_limit)
    &&& post.builders@.len() >= n0
    &&& forall|i: int| 0 <= i < n0 && i != d ==> post.builders@[i] == pre.builders@[i]
    &&& post.builders@[d] == (FileItemBuilder {
        info: Some(
            SpecificInfo::Dir(
                DirInfo {
                    childs: ChildRange {
                        start: n0 as usize,
                        end: (n0 + kept_of(entries.len() as int, n0, settings.scan_limit)
                            - 1) as usize,
                    },
                },
            ),
        ),
        ..pre.builders@[d]
    })
    &&& forall|i: int|
        n0 <= i < post.builders@.len() ==> (#[trigger] post.builders@[i].info) is Some
    &&& forall|i: int|
        pre.raw_of@.contains_key(i) ==> (#[trigger] post.raw_of@.contains_key(i))
            && post.raw_of@[i] == pre.raw_of@[i]
    &&& pre.paths@.len() <= post.paths@.len()
    &&& forall|kk: int| 0 <= kk < pre.paths@.len() ==> #[trigger] post.paths@[kk] == pre.paths@[kk]
    &&& (pre.limit_reached ==> post.limit_reached)
}

spec fn from_snap(snap: Seq<RawNode>, es: Vec<RawNode>) -> bool {
    exists|q: int|
        0 <= q < snap.len() && (#[trigger] snap[q]).data == RawData::Dir(DirRead::Entries(es))
}

spec fn subdir_entry_ok(st: ScanState, cid: int, es: Vec<RawNode>, n0: int) -> bool {
    &&& n0 <= cid < st.builders@.len()
    &&& st.builders@[cid].info is None
    &&& st.raw_of@.contains_key(cid)
    &&& st.raw_of@[cid].data matches RawData::Dir(DirRead::Entries(v)) && v == es
}

/// Appending one fully classified non-directory node (or a pending
/// directory) keeps every structural invariant of the walker's state.
#[verifier::rlimit(100)]
#[verifier::spinoff_prover]
proof fn lemma_step_push(
    bs1: Seq<FileItemBuilder>,
    m1: Map<int, RawNode>,
    ps1: Seq<(String, usize)>,
    bs2: Seq<FileItemBuilder>,
    m2: Map<int, RawNode>,
    ps2: Seq<(String, usize)>,
    b: FileItemBuilder,
    raw: RawNode,
    pair: (String, usize),
    ffsm: bool,
    limit: Option<usize>,
    lr: bool,
    from: int,
)
    requires
        arena_wf(bs1),
        tree_ok(bs1, m1, ffsm, limit, lr),
        paths_wf(ps1, m1, bs1.len() as int),
        forall|i: int| #[trigger] m1.contains_key(i) ==> 0 <= i < bs1.len(),
        parents_linked_except(bs1, from),
        1 <= from <= bs1.len(),
        bs2 == bs1.push(b),
        m2 == m1.insert(bs1.len() as int, raw),
        ps2 == ps1.push(pair),
        pair.1 == bs1.len(),
        pair.0@ == raw.path@,
        b.id == bs1.len(),
        b.parent matches Some(p) && p < bs1.len(),
        !(b.info matches Some(SpecificInfo::Dir(_))),
        node_ok(b, raw, ffsm),
    ensures
        arena_wf(bs2),
        tree_ok(bs2, m2, ffsm, limit, lr),
        paths_wf(ps2, m2, bs2.len() as int),
        forall|i: int| #[trigger] m2.contains_key(i) ==> 0 <= i < bs2.len(),
        parents_linked_except(bs2, from),
        forall|i: int| m1.contains_key(i) ==> #[trigger] m2.contains_key(i) && m2[i] == m1[i],
{
    let li = bs1.len() as int;
    assert forall|i: int| 0 <= i < bs2.len() implies dir_info_wf(bs2, i) by {
        if i < li {
            assert(dir_info_wf(bs1, i));
            if dir_range(bs2[i]) is Some {
                let cr = dir_range(bs2[i])->0;
                assert forall|j: int|
                    cr.start <= j <= cr.end implies (#[trigger] bs2[j].parent) == Some(
                    i as usize,
                ) by {
                    assert(bs1[j].parent == Some(i as usize));
                }
            }
        }
    }
    assert(arena_wf(bs2));
    assert forall|i: int| 1 <= i < bs2.len() && i < from implies #[trigger] parent_links(
        bs2,
        i,
    ) by {
        assert(parent_links(bs1, i));
    }
    assert forall|i: int| 0 <= i < bs2.len() implies #[trigger] st_key(m2, i) by {
        if i < li {
            assert(st_key(m1, i));
        }
    }
    assert forall|i: int| 0 <= i < bs2.len() implies node_ok(#[trigger] bs2[i], m2[i], ffsm) by {
        if i < li {
            assert(node_ok(bs1[i], m1[i], ffsm));
        }
    }
    assert forall|i: int| 0 <= i < bs2.len() implies #[trigger] ranges_ok(bs2, m2, i, limit, lr) by {
        if i < li {
            assert(ranges_ok(bs1, m1, i, limit, lr));
            assert(dir_info_wf(bs1, i));
            assert(m2[i] == m1[i]);
            assert(bs2[i] == bs1[i]);
            if raw_entries(m2[i]) is Some && dir_range(bs2[i]) is Some {
                let ev = raw_entries(m2[i])->0;
                let cr = dir_range(bs2[i])->0;
                assert forall|j: int| cr.start <= j < cr.start + cr.size() implies #[trigger] st_key(
                    m2,
                    j,
                ) && m2[j] == ev@[j - cr.start] by {
                    assert(st_key(m1, j));
                    assert(j < li);
                }
            }
        }
    }
    assert forall|kk: int| 0 <= kk < ps2.len() implies #[trigger] path_pair_ok(
        ps2,
        m2,
        bs2.len() as int,
        kk,
    ) by {
        if kk < ps1.len() {
            assert(path_pair_ok(ps1, m1, li, kk));
            assert(ps2[kk] == ps1[kk]);
            assert(m2[ps1[kk].1 as int] == m1[ps1[kk].1 as int]);
        } else {
            assert(ps2[kk] == pair);
        }
    }
    assert forall|i: int| 1 <= i < bs2.len() implies #[trigger] has_pair(ps2, i) by {
        if i < li {
            assert(has_pair(ps1, i));
            let kk = choose|kk: int| 0 <= kk < ps1.len() && (#[trigger] ps1[kk]).1 == i;
            assert((ps2[kk]).1 == i);
        } else {
            assert((ps2[ps1.len() as int]).1 == i);
        }
    }
}

/// Recording that the limit was reached weakens nothing: every range
/// statement tolerates the flag turning on.
proof fn lemma_flag_monotone(
    bs: Seq<FileItemBuilder>,
    m: Map<int, RawNode>,
    ffsm: bool,
    limit: Option<usize>,
    lr1: bool,
    lr2: bool,
)
    requires
        tree_ok(bs, m, ffsm, limit, lr1),
        lr1 ==> lr2,
    ensures
        tree_ok(bs, m, ffsm, limit, lr2),
{
    assert forall|i: int| 0 <= i < bs.len() implies #[trigger] ranges_ok(bs, m, i, limit, lr2) by {
        assert(ranges_ok(bs, m, i, limit, lr1));
    }
}

/// One preserved key, read off the frame of a map extension.
proof fn lemma_frame_key(ma: Map<int, RawNode>, mb: Map<int, RawNode>, j: int)
    requires
        forall|i: int| ma.contains_key(i) ==> (#[trigger] mb.contains_key(i)) && mb[i] == ma[i],
        ma.contains_key(j),
    ensures
        mb.contains_key(j) && mb[j] == ma[j],
{
}

/// Preserved-key facts compose across two successive extensions of the
/// identity map.
proof fn lemma_map_frame_compose(ma: Map<int, RawNode>, mb: Map<int, RawNode>, mc: Map<
    int,
    RawNode,
>)
    requires
        forall|i: int| ma.contains_key(i) ==> (#[trigger] mb.contains_key(i)) && mb[i] == ma[i],
        forall|i: int| mb.contains_key(i) ==> (#[trigger] mc.contains_key(i)) && mc[i] == mb[i],
    ensures
        forall|i: int| ma.contains_key(i) ==> (#[trigger] mc.contains_key(i)) && mc[i] == ma[i],
{
}

/// One more admitted child extends the recorded block of this
/// expansion's children by one.
proof fn lemma_children_extend(
    mb: Map<int, RawNode>,
    mc: Map<int, RawNode>,
    base: int,
    k: int,
    snap: Seq<RawNode>,
)
    requires
        forall|j: int|
            base <= j < base + k ==> (#[trigger] mb.contains_key(j)) && mb[j] == snap[j - base],
        forall|i: int| mb.contains_key(i) ==> (#[trigger] mc.contains_key(i)) && mc[i] == mb[i],
        mc.contains_key(base + k),
        mc[base + k] == snap[k],
        0 <= k,
    ensures
        forall|j: int|
            base <= j < base + k + 1 ==> (#[trigger] mc.contains_key(j)) && mc[j] == snap[j
                - base],
{
}

/// The parts of the state that a nested expansion may not touch are
/// still as this expansion left them.
proof fn lemma_after_subexpand(
    pre_bs: Seq<FileItemBuilder>,
    mid_bs: Seq<FileItemBuilder>,
    post_bs: Seq<FileItemBuilder>,
    pre_ps: Seq<(String, usize)>,
    mid_ps: Seq<(String, usize)>,
    post_ps: Seq<(String, usize)>,
    d: int,
    cid: int,
    n0: int,
    dval: FileItemBuilder,
)
    requires
        forall|i: int| 0 <= i < n0 && i != d ==> mid_bs[i] == pre_bs[i],
        0 <= d < n0 <= mid_bs.len(),
        n0 <= cid,
        mid_bs[d] == dval,
        forall|i: int| 0 <= i < mid_bs.len() && i != cid ==> post_bs[i] == mid_bs[i],
        post_bs.len() >= mid_bs.len(),
        pre_ps.len() <= mid_ps.len(),
        forall|kk: int| 0 <= kk < pre_ps.len() ==> #[trigger] mid_ps[kk] == pre_ps[kk],
        mid_ps.len() <= post_ps.len(),
        forall|kk: int| 0 <= kk < mid_ps.len() ==> #[trigger] post_ps[kk] == mid_ps[kk],
    ensures
        forall|i: int| 0 <= i < n0 && i != d ==> post_bs[i] == pre_bs[i],
        post_bs[d] == dval,
        pre_ps.len() <= post_ps.len(),
        forall|kk: int| 0 <= kk < pre_ps.len() ==> #[trigger] post_ps[kk] == pre_ps[kk],
{
}

/// Expansions queued behind the one just finished are untouched by it.
#[verifier::rlimit(100)]
#[verifier::spinoff_prover]
proof fn lemma_subdirs_preserved(
    mid: ScanState,
    post: ScanState,
    subs: Seq<(usize, Vec<RawNode>)>,
    lo: int,
    hi: int,
    n0: int,
    cid: int,
)
    requires
        forall|m_: int|
            lo <= m_ < hi ==> #[trigger] subdir_entry_ok(mid, subs[m_].0 as int, subs[m_].1, n0),
        forall|i: int|
            0 <= i < mid.builders@.len() && i != cid ==> post.builders@[i] == mid.builders@[i],
        forall|i: int|
            mid.raw_of@.contains_key(i) ==> (#[trigger] post.raw_of@.contains_key(i))
                && post.raw_of@[i] == mid.raw_of@[i],
        post.builders@.len() >= mid.builders@.len(),
        forall|m_: int| lo <= m_ < hi ==> (#[trigger] subs[m_]).0 != cid,
    ensures
        forall|m_: int|
            lo <= m_ < hi ==> #[trigger] subdir_entry_ok(post, subs[m_].0 as int, subs[m_].1, n0),
{
    assert forall|m_: int| lo <= m_ < hi implies #[trigger] subdir_entry_ok(
        post,
        subs[m_].0 as int,
        subs[m_].1,
        n0,
    ) by {
        assert(subdir_entry_ok(mid, subs[m_].0 as int, subs[m_].1, n0));
        let c2 = subs[m_].0 as int;
        assert(post.builders@[c2] == mid.builders@[c2]);
        assert(mid.raw_of@.contains_key(c2));
        assert(post.raw_of@.contains_key(c2));
        assert(post.raw_of@[c2] == mid.raw_of@[c2]);
    }
}

/// A range statement depends only on the node's own fields and the map,
/// so it carries over to any arena that agrees on that node.
#[verifier::rlimit(100)]
#[verifier::spinoff_prover]
proof fn lemma_ranges_ok_congr(
    bs1: Seq<FileItemBuilder>,
    m: Map<int, RawNode>,
    bs2: Seq<FileItemBuilder>,
    i: int,
    limit: Option<usize>,
    lr: bool,
)
    requires
        ranges_ok(bs1, m, i, limit, lr),
        bs2[i] == bs1[i],
    ensures
        ranges_ok(bs2, m, i, limit, lr),
{
    if raw_entries(m[i]) is Some && dir_range(bs2[i]) is Some {
        let es = raw_entries(m[i])->0;
        let cr = dir_range(bs2[i])->0;
        assert(dir_range(bs1[i]) == dir_range(bs2[i]));
        assert(cr.size() == kept_of(es@.len() as int, cr.start as int, limit));
        assert(cr.size() < es@.len() ==> lr);
        assert forall|j: int| cr.start <= j < cr.start + cr.size() implies #[trigger] st_key(
            m,
            j,
        ) && m[j] == es@[j - cr.start] by {}
    }
}

/// Classifying the expanded directory with the range of the freshly
/// appended block restores every invariant that its pending state held
/// open.
#[verifier::rlimit(100)]
#[verifier::spinoff_prover]
proof fn lemma_freeze_dir(
    bs1: Seq<FileItemBuilder>,
    m: Map<int, RawNode>,
    bs2: Seq<FileItemBuilder>,
    dd: int,
    cr: ChildRange,
    es: Vec<RawNode>,
    snap: Seq<RawNode>,
    base: int,
    kk: int,
    ffsm: bool,
    limit: Option<usize>,
    lr: bool,
)
    requires
        arena_wf(bs1),
        tree_ok(bs1, m, ffsm, limit, lr),
        parents_linked_except(bs1, cr.start as int),
        0 <= dd < cr.start,
        bs1[dd].info is None,
        m.contains_key(dd),
        m[dd].data == RawData::Dir(DirRead::Entries(es)),
        cr.end as int == bs1.len() - 1,
        cr.start as int <= bs1.len(),
        1 <= cr.start,
        forall|j: int|
            cr.start <= j < bs1.len() ==> (#[trigger] bs1[j].parent) == Some(dd as usize),
        cr.size() == kept_of(es@.len() as int, cr.start as int, limit),
        cr.size() < es@.len() ==> lr,
        es@ == snap,
        cr.start as int == base,
        cr.size() <= kk,
        forall|j: int|
            base <= j < base + kk ==> (#[trigger] m.contains_key(j)) && m[j] == snap[j - base],
        bs2 == bs1.update(
            dd,
            (FileItemBuilder {
                info: Some(SpecificInfo::Dir(DirInfo { childs: cr })),
                ..bs1[dd]
            }),
        ),
    ensures
        arena_wf(bs2),
        parents_linked(bs2),
        tree_ok(bs2, m, ffsm, limit, lr),
{
    assert forall|i: int| 0 <= i < bs2.len() implies dir_info_wf(bs2, i) by {
        if i != dd {
            assert(dir_info_wf(bs1, i));
            if dir_range(bs2[i]) is Some {
                let cri = dir_range(bs2[i])->0;
                assert forall|j: int|
                    cri.start <= j <= cri.end implies (#[trigger] bs2[j].parent) == Some(
                    i as usize,
                ) by {
                    assert(bs1[j].parent == Some(i as usize));
                }
            }
        } else {
            assert forall|j: int| cr.start <= j <= cr.end implies (#[trigger] bs2[j].parent)
                == Some(dd as usize) by {
                assert(bs1[j].parent == Some(dd as usize));
            }
        }
    }
    assert(arena_wf(bs2));
    assert forall|i: int| 1 <= i < bs2.len() implies #[trigger] parent_links(bs2, i) by {
        if i < cr.start {
            assert(parent_links(bs1, i));
            if let Some(p) = bs1[i].parent {
                assert(bs2[p as int].info == bs1[p as int].info || p == dd);
                if p == dd {
                    assert(!dir_covers(bs1, dd, i));
                    assert(false);
                }
            }
        } else {
            assert(bs2[i].parent == Some(dd as usize));
            assert(dir_covers(bs2, dd, i));
        }
    }
    assert forall|i: int| 0 <= i < bs2.len() implies node_ok(#[trigger] bs2[i], m[i], ffsm) by {
        assert(node_ok(bs1[i], m[i], ffsm));
    }
    assert forall|i: int| 0 <= i < bs2.len() implies #[trigger] ranges_ok(bs2, m, i, limit, lr) by {
        if i != dd {
            lemma_ranges_ok_congr(bs1, m, bs2, i, limit, lr);
        } else {
            assert(raw_entries(m[dd]) == Some(es));
            assert(dir_range(bs2[dd]) == Some(cr));
            assert(cr.size() == kept_of(es@.len() as int, cr.start as int, limit));
            assert(cr.size() < es@.len() ==> lr);
            assert forall|j: int| cr.start <= j < cr.start + cr.size() implies #[trigger] st_key(
                m,
                j,
            ) && m[j] == es@[j - cr.start] by {
                assert(m.contains_key(j) && m[j] == snap[j - base]);
            }
        }
    }
    assert forall|i: int| 0 <= i < bs2.len() implies #[trigger] st_key(m, i) by {
        assert(st_key(m, i));
    }
}

/// Everything that holds of the walker's state after `k` entries of the
/// directory being expanded have been processed: the structural
/// invariants, the frame relative to the expansion's entry state, the
/// recorded block of children, and the queue of pending sub-expansions.
spec fn step_inv(
    st: ScanState,
    pre: ScanState,
    d: int,
    snap: Seq<RawNode>,
    k: int,
    subs: Seq<(usize, Vec<RawNode>)>,
    settings: ScanSettings,
) -> bool {
    let n0 = pre.builders@.len() as int;
    &&& arena_wf(st.builders@)
    &&& tree_ok(st.builders@, st.raw_of@, settings.ffsm, settings.scan_limit, st.limit_reached)
    &&& paths_wf(st.paths@, st.raw_of@, st.builders@.len() as int)
    &&& within_limit(st.builders@.len() as int, settings.scan_limit)
    &&& st.inaccessible == count_denied(st.raw_of@, st.builders@.len() as int)
    &&& (settings.scan_limit is None ==> !st.limit_reached)
    &&& forall|i: int| (#[trigger] st.raw_of@.contains_key(i)) ==> 0 <= i < st.builders@.len()
    &&& st.builders@.len() == n0 + k
    &&& forall|i: int| 0 <= i < n0 ==> st.builders@[i] == pre.builders@[i]
    &&& forall|i: int|
        pre.raw_of@.contains_key(i) ==> (#[trigger] st.raw_of@.contains_key(i)) && st.raw_of@[i]
            == pre.raw_of@[i]
    &&& pre.paths@.len() <= st.paths@.len()
    &&& forall|kk: int| 0 <= kk < pre.paths@.len() ==> #[trigger] st.paths@[kk] == pre.paths@[kk]
    &&& (pre.limit_reached ==> st.limit_reached)
    &&& forall|j: int|
        n0 <= j < st.builders@.len() ==> (#[trigger] st.builders@[j].parent) == Some(d as usize)
    &&& forall|j: int|
        n0 <= j < n0 + k ==> (#[trigger] st.raw_of@.contains_key(j)) && st.raw_of@[j] == snap[j
            - n0]
    &&& parents_linked_except(st.builders@, n0)
    &&& st.builders@[d].info is None
    &&& st.builders@[d] == pre.builders@[d]
    &&& forall|j: int|
        n0 <= j < st.builders@.len() ==> ((#[trigger] st.builders@[j].info) is Some || exists|
            m_: int,
        |
            0 <= m_ < subs.len() && (#[trigger] subs[m_]).0 == j)
    &&& forall|m_: int|
        0 <= m_ < subs.len() ==> #[trigger] subdir_entry_ok(st, subs[m_].0 as int, subs[m_].1, n0)
    &&& forall|m_: int| 0 <= m_ < subs.len() ==> #[trigger] from_snap(snap, subs[m_].1)
    &&& forall|m_: int| 0 <= m_ < subs.len() ==> decreases_to!(snap => (#[trigger] subs[m_]).1@)
    &&& forall|ma: int, mb: int|
        0 <= ma < mb < subs.len() ==> (#[trigger] subs[ma]).0 < (#[trigger] subs[mb]).0
}

/// Recording the limit as reached, and nothing else, keeps the walker's
/// state invariant.
#[verifier::rlimit(100)]
#[verifier::spinoff_prover]
proof fn lemma_step_inv_flag(
    st1: ScanState,
    st2: ScanState,
    pre: ScanState,
    d: int,
    snap: Seq<RawNode>,
    k: int,
    subs: Seq<(usize, Vec<RawNode>)>,
    settings: ScanSettings,
)
    requires
        step_inv(st1, pre, d, snap, k, subs, settings),
        st2.builders == st1.builders,
        st2.paths == st1.paths,
        st2.raw_of == st1.raw_of,
        st2.inaccessible == st1.inaccessible,
        st2.limit_reached == true,
        settings.scan_limit is Some,
    ensures
        step_inv(st2, pre, d, snap, k, subs, settings),
{
    lemma_flag_monotone(
        st2.builders@,
        st2.raw_of@,
        settings.ffsm,
        settings.scan_limit,
        st1.limit_reached,
        true,
    );
    let n0 = pre.builders@.len() as int;
    assert forall|m_: int| 0 <= m_ < subs.len() implies #[trigger] subdir_entry_ok(
        st2,
        subs[m_].0 as int,
        subs[m_].1,
        n0,
    ) by {
        assert(subdir_entry_ok(st1, subs[m_].0 as int, subs[m_].1, n0));
    }
}

/// Classifies one enumerated entry, assigns it the next identity, and
/// queues it for expansion if it is itself a directory that could be
/// read.
#[verifier::rlimit(100)]
#[verifier::spinoff_prover]
fn expand_entry(
    st: &mut ScanState,
    d: usize,
    node: RawNode,
    subdirs: &mut Vec<(usize, Vec<RawNode>)>,
    settings: &ScanSettings,
    Ghost(pre): Ghost<ScanState>,
    Ghost(snap): Ghost<Seq<RawNode>>,
    Ghost(k): Ghost<int>,
) -> (r: Result<(), String>)
    requires
        step_inv(*old(st), pre, d as int, snap, k, old(subdirs)@, *settings),
        0 <= k < snap.len(),
        node == snap[k],
        d < pre.builders@.len(),
        settings.scan_limit matches Some(l) ==> old(st).builders@.len() < l,
    ensures
        r is Ok ==> step_inv(*final(st), pre, d as int, snap, k + 1, final(subdirs)@, *settings),
        r matches Err(e) ==> fatal_in(snap[k], e@),
{
    let ghost st_top = *old(st);
    let ghost subdirs_top = old(subdirs)@;
    let ghost n0 = pre.builders@.len() as int;
    let child_id = st.builders.len();
    let RawNode { name, path, times, data } = node;
    let mut bldr = FileItemBuilder::new(child_id, path.clone(), name, times);
    bldr.parent(d);
    st.paths.push((path, child_id));
    let mut was_denied = false;
    match data {
        RawData::Symlink(lr) => {
            bldr.info(SpecificInfo::Symlink(SymlinkInfo { target: None }));
            bldr.link = Some(lr);
            st.builders.push(bldr);
            st.raw_of = Ghost(st_top.raw_of@.insert(child_id as int, snap[k]));
        }
        RawData::Dir(dr) => {
            match dr {
                DirRead::Fatal(e) => {
                    proof {
                        assert(fatal_in(snap[k], e@));
                    }
                    return Err(e);
                }
                DirRead::Denied => {
                    bldr.info(SpecificInfo::Inaccessible(FileType::Dir));
                    st.builders.push(bldr);
                    st.raw_of = Ghost(st_top.raw_of@.insert(child_id as int, snap[k]));
                    was_denied = true;
                }
                DirRead::Entries(es) => {
                    proof {
                        assert(decreases_to!(snap => snap[k]));
                        assert(decreases_to!(snap[k] => es@));
                        assert(decreases_to!(snap => es@));
                        assert(snap[k].data == RawData::Dir(DirRead::Entries(es)));
                    }
                    st.builders.push(bldr);
                    st.raw_of = Ghost(st_top.raw_of@.insert(child_id as int, snap[k]));
                    subdirs.push((child_id, es));
                }
            }
        }
        RawData::File(fr) => {
            match fr {
                FileRead::Fatal(e) => {
                    proof {
                        assert(fatal_in(snap[k], e@));
                    }
                    return Err(e);
                }
                FileRead::Denied => {
                    bldr.info(SpecificInfo::Inaccessible(FileType::Regular));
                    st.builders.push(bldr);
                    st.raw_of = Ghost(st_top.raw_of@.insert(child_id as int, snap[k]));
                    was_denied = true;
                }
                FileRead::Content { bytes, metas } => {
                    let digest = md5_hex(&bytes);
                    let metas_kept = if settings.ffsm {
                        metas
                    } else {
                        Vec::new()
                    };
                    bldr.info(SpecificInfo::Regular(RegularInfo { md5: digest, metas: metas_kept }));
                    st.builders.push(bldr);
                    st.raw_of = Ghost(st_top.raw_of@.insert(child_id as int, snap[k]));
                }
            }
        }
    }
    proof {
        let li = child_id as int;
        let newb = st.builders@[li];
        let newpair = st.paths@[st_top.paths@.len() as int];
        assert(node_ok(newb, snap[k], settings.ffsm));
        assert(!(newb.info matches Some(SpecificInfo::Dir(_))));
        lemma_step_push(
            st_top.builders@,
            st_top.raw_of@,
            st_top.paths@,
            st.builders@,
            st.raw_of@,
            st.paths@,
            newb,
            snap[k],
            newpair,
            settings.ffsm,
            settings.scan_limit,
            st.limit_reached,
            n0,
        );
        // the running count of denied entries
        lemma_count_denied_frame(st.raw_of@, st_top.raw_of@, li);
        lemma_count_denied_le(st_top.raw_of@, li);
        assert(count_denied(st.raw_of@, li + 1) == count_denied(st.raw_of@, li) + if denied_raw(
            st.raw_of@[li],
        ) {
            1int
        } else {
            0int
        });
        assert(st.builders.len() == st.builders@.len());
        if denied_raw(snap[k]) {
            assert(st.inaccessible < usize::MAX);
        }
    }
    if was_denied {
        st.inaccessible = st.inaccessible + 1;
    }
    proof {
        let li = child_id as int;
        assert(st.inaccessible == count_denied(st.raw_of@, li + 1));
        // frame facts relative to the whole expansion's entry state
        lemma_map_frame_compose(pre.raw_of@, st_top.raw_of@, st.raw_of@);
        assert(st.raw_of@.contains_key(n0 + k) && st.raw_of@[n0 + k] == snap[k]);
        lemma_children_extend(st_top.raw_of@, st.raw_of@, n0, k, snap);
        // pending directories are exactly the queued expansions
        assert forall|j: int|
            n0 <= j < st.builders@.len() implies ((#[trigger] st.builders@[j].info) is Some
                || exists|m_: int|
                0 <= m_ < subdirs@.len() && (#[trigger] subdirs@[m_]).0 == j) by {
            if j < li {
                if !(st.builders@[j].info is Some) {
                    let mm = choose|m_: int|
                        0 <= m_ < subdirs_top.len() && (#[trigger] subdirs_top[m_]).0 == j;
                    assert((subdirs@[mm]).0 == j);
                }
            } else {
                if !(st.builders@[j].info is Some) {
                    assert((subdirs@[subdirs@.len() - 1]).0 == j);
                }
            }
        }
        assert forall|i: int|
            0 <= i < st_top.builders@.len() && i != li implies st.builders@[i]
                == st_top.builders@[i] by {}
        assert forall|m_: int| 0 <= m_ < subdirs_top.len() implies (#[trigger] subdirs_top[m_]).0
            != li by {
            assert(subdir_entry_ok(st_top, subdirs_top[m_].0 as int, subdirs_top[m_].1, n0));
        }
        lemma_subdirs_preserved(st_top, *st, subdirs_top, 0, subdirs_top.len() as int, n0, li);
        assert forall|m_: int| 0 <= m_ < subdirs@.len() implies #[trigger] subdir_entry_ok(
            *st,
            subdirs@[m_].0 as int,
            subdirs@[m_].1,
            n0,
        ) by {
            if m_ < subdirs_top.len() {
                assert(subdirs@[m_] == subdirs_top[m_]);
                assert(subdir_entry_ok(*st, subdirs_top[m_].0 as int, subdirs_top[m_].1, n0));
            } else {
                assert((subdirs@[m_]).0 == child_id);
                assert(st.raw_of@.contains_key(li) && st.raw_of@[li] == snap[k]);
            }
        }
        assert forall|m_: int| 0 <= m_ < subdirs@.len() implies #[trigger] from_snap(
            snap,
            subdirs@[m_].1,
        ) by {
            if m_ < subdirs_top.len() {
                assert(from_snap(snap, subdirs_top[m_].1));
                assert(subdirs@[m_] == subdirs_top[m_]);
            } else {
                assert((snap[k]).data == RawData::Dir(DirRead::Entries(subdirs@[m_].1)));
            }
        }
        assert forall|m_: int|
            0 <= m_ < subdirs@.len() implies decreases_to!(
            snap => (#[trigger] subdirs@[m_]).1@) by {
            if m_ < subdirs_top.len() {
                assert(decreases_to!(snap => subdirs_top[m_].1@));
                assert(subdirs@[m_] == subdirs_top[m_]);
            }
        }
        assert forall|ma: int, mb: int|
            0 <= ma < mb < subdirs@.len() implies (#[trigger] subdirs@[ma]).0 < (
        #[trigger] subdirs@[mb]).0 by {
            assert(subdir_entry_ok(st_top, subdirs_top[ma].0 as int, subdirs_top[ma].1, n0));
            assert(subdirs@[ma] == subdirs_top[ma]);
            if mb < subdirs_top.len() {
                assert(subdirs@[mb] == subdirs_top[mb]);
            } else {
                assert((subdirs@[mb]).0 == child_id);
                assert(subdirs_top[ma].0 < st_top.builders@.len());
            }
        }
        assert(step_inv(*st, pre, d as int, snap, k + 1, subdirs@, *settings));
    }
    Ok(())
}

#[verifier::loop_isolation(false)]
#[verifier::rlimit(100)]
#[verifier::spinoff_prover]
fn expand(
    st: &mut ScanState,
    d: usize,
    entries: Vec<RawNode>,
    settings: &ScanSettings,
) -> (r: Result<(), String>)
    requires
        st_inv(*old(st), settings.ffsm, settings.scan_limit),
        d < old(st).builders@.len(),
        old(st).builders@[d as int].info is None,
        old(st).raw_of@[d as int].data matches RawData::Dir(DirRead::Entries(v)) && v@
            == entries@,
    ensures
        r is Ok ==> expand_ok(*old(st), *final(st), d as int, entries@, *settings),
        r matches Err(e) ==> exists|k: int|
            0 <= k < entries@.len() && fatal_in(#[trigger] entries@[k], e@),
    decreases entries@,
{
    let ghost pre = *old(st);
    let ghost snap = entries@;
    let mut entries = entries;
    let n = entries.len();
    let start = st.builders.len();
    let ghost n0 = pre.builders@.len() as int;
    let mut subdirs: Vec<(usize, Vec<RawNode>)> = Vec::new();
    let mut truncated = false;
    let mut k: usize = 0;
    while k < n && !truncated
        invariant
            k <= n,
            n == snap.len(),
            entries@.len() == n,
            forall|j: int| k <= j < n ==> entries@[j] == snap[j],
            start == n0,
            step_inv(*st, pre, d as int, snap, k as int, subdirs@, *settings),
            truncated ==> st.limit_reached,
            truncated ==> (settings.scan_limit matches Some(l) && (k < n && ((n0 >= l ==> k == 0)
                && (n0 < l ==> k == l - n0)))),
        decreases n - k + (if truncated { 0int } else { 1int }),
    {
        let mut hit = false;
        if let Some(l) = settings.scan_limit {
            if st.builders.len() >= l {
                hit = true;
            }
        }
        if hit {
            let ghost st_top = *st;
            st.limit_reached = true;
            truncated = true;
            proof {
                lemma_step_inv_flag(
                    st_top,
                    *st,
                    pre,
                    d as int,
                    snap,
                    k as int,
                    subdirs@,
                    *settings,
                );
            }
        } else {
            let mut tmp = RawNode {
                name: String::new(),
                path: String::new(),
                times: FileTimes::default(),
                data: RawData::Dir(DirRead::Denied),
            };
            entries.set_and_swap(k, &mut tmp);
            proof {
                assert(tmp == snap[k as int]);
            }
            let r = expand_entry(
                st,
                d,
                tmp,
                &mut subdirs,
                settings,
                Ghost(pre),
                Ghost(snap),
                Ghost(k as int),
            );
            match r {
                Err(e) => {
                    proof {
                        assert(fatal_in(snap[k as int], e@));
                    }
                    return Err(e);
                }
                Ok(_) => {}
            }
            k = k + 1;
        }
    }
    // Freeze the expanded directory's child range: exactly the identities
    // assigned during this expansion, and no others.
    let end_id = st.builders.len() - 1;
    let ghost kept = kept_of(snap.len() as int, n0, settings.scan_limit);
    proof {
        assert(k == kept);
        assert(end_id as int == n0 + kept - 1);
    }
    let ghost st_mid = *st;
    let mut dnode = FileItemBuilder::new(0, String::new(), String::new(), FileTimes::default());
    st.builders.set_and_swap(d, &mut dnode);
    dnode.info(SpecificInfo::Dir(DirInfo::new(start, end_id)));
    st.builders.set(d, dnode);
    let ghost cr = ChildRange { start: start, end: end_id };
    proof {
        assert(st.builders@ =~= st_mid.builders@.update(
            d as int,
            (FileItemBuilder {
                info: Some(SpecificInfo::Dir(DirInfo { childs: cr })),
                ..st_mid.builders@[d as int]
            }),
        ));
        assert(st_key(pre.raw_of@, d as int));
        assert(st.raw_of@.contains_key(d as int));
        assert(st.raw_of@[d as int] == pre.raw_of@[d as int]);
        let es_d = pre.raw_of@[d as int].data->Dir_0->Entries_0;
        assert(pre.raw_of@[d as int].data == RawData::Dir(DirRead::Entries(es_d)));
        assert(es_d@ == snap);
        assert(cr.size() == kept);
        if cr.size() < snap.len() {
            assert(truncated);
        }
        lemma_freeze_dir(
            st_mid.builders@,
            st.raw_of@,
            st.builders@,
            d as int,
            cr,
            es_d,
            snap,
            n0,
            k as int,
            settings.ffsm,
            settings.scan_limit,
            st.limit_reached,
        );
        assert forall|kk: int| 0 <= kk < st.paths@.len() implies #[trigger] path_pair_ok(
            st.paths@,
            st.raw_of@,
            st.builders@.len() as int,
            kk,
        ) by {
            assert(path_pair_ok(st.paths@, st.raw_of@, st_mid.builders@.len() as int, kk));
        }
        assert forall|m_: int| 0 <= m_ < subdirs@.len() implies #[trigger] subdir_entry_ok(
            *st,
            subdirs@[m_].0 as int,
            subdirs@[m_].1,
            n0,
        ) by {
            assert(subdir_entry_ok(st_mid, subdirs@[m_].0 as int, subdirs@[m_].1, n0));
            assert(subdirs@[m_].0 != d);
        }
        assert forall|j: int|
            n0 <= j < st.builders@.len() implies ((#[trigger] st.builders@[j].info) is Some
                || exists|m_: int|
                0 <= m_ < subdirs@.len() && (#[trigger] subdirs@[m_]).0 == j) by {
            assert(st.builders@[j] == st_mid.builders@[j]);
        }
        assert(st_inv(*st, settings.ffsm, settings.scan_limit));
    }
    let n_sub = subdirs.len();
    let mut s_i: usize = 0;
    while s_i < n_sub
        invariant
            s_i <= n_sub,
            n_sub == subdirs@.len(),
            st_inv(*st, settings.ffsm, settings.scan_limit),
            st.builders@.len() >= n0 + kept,
            forall|i: int| 0 <= i < n0 && i != d ==> st.builders@[i] == pre.builders@[i],
            st.builders@[d as int] == (FileItemBuilder {
                info: Some(SpecificInfo::Dir(DirInfo { childs: cr })),
                ..pre.builders@[d as int]
            }),
            forall|i: int|
                pre.raw_of@.contains_key(i) ==> (#[trigger] st.raw_of@.contains_key(i))
                    && st.raw_of@[i] == pre.raw_of@[i],
            pre.paths@.len() <= st.paths@.len(),
            forall|kk: int| 0 <= kk < pre.paths@.len() ==> #[trigger] st.paths@[kk] == pre.paths@[kk],
            pre.limit_reached ==> st.limit_reached,
            forall|i: int|
                n0 <= i < st.builders@.len() ==> ((#[trigger] st.builders@[i].info) is Some
                    || exists|m_: int|
                    s_i <= m_ < n_sub && (#[trigger] subdirs@[m_]).0 == i),
            forall|m_: int|
                s_i <= m_ < n_sub ==> #[trigger] subdir_entry_ok(
                    *st,
                    subdirs@[m_].0 as int,
                    subdirs@[m_].1,
                    n0,
                ),
            forall|m_: int| s_i <= m_ < n_sub ==> #[trigger] from_snap(snap, subdirs@[m_].1),
            forall|m_: int|
                s_i <= m_ < n_sub ==> decreases_to!(snap => (#[trigger] subdirs@[m_]).1@),
            forall|ma: int, mb: int|
                s_i <= ma < mb < n_sub ==> (#[trigger] subdirs@[ma]).0 < (
                #[trigger] subdirs@[mb]).0,
        decreases n_sub - s_i,
    {
        let ghost subs_head = subdirs@;
        let mut pair: (usize, Vec<RawNode>) = (0, Vec::new());
        subdirs.set_and_swap(s_i, &mut pair);
        let (cid, es) = pair;
        let ghost st_call = *st;
        proof {
            assert(subdir_entry_ok(st_call, cid as int, es, n0));
            assert(decreases_to!(snap => es@));
        }
        let rec = expand(st, cid, es, settings);
        match rec {
            Err(e) => {
                proof {
                    assert(from_snap(snap, es));
                    let q = choose|q: int|
                        0 <= q < snap.len() && (#[trigger] snap[q]).data == RawData::Dir(
                            DirRead::Entries(es),
                        );
                    assert(fatal_in(snap[q], e@));
                }
                return Err(e);
            }
            Ok(_) => {}
        }
        proof {
            let n0c = st_call.builders@.len() as int;
            assert(expand_ok(st_call, *st, cid as int, es@, *settings));
            lemma_map_frame_compose(pre.raw_of@, st_call.raw_of@, st.raw_of@);
            lemma_after_subexpand(
                pre.builders@,
                st_call.builders@,
                st.builders@,
                pre.paths@,
                st_call.paths@,
                st.paths@,
                d as int,
                cid as int,
                n0,
                (FileItemBuilder {
                    info: Some(SpecificInfo::Dir(DirInfo { childs: cr })),
                    ..pre.builders@[d as int]
                }),
            );
            assert forall|i: int|
                n0 <= i < st.builders@.len() implies ((#[trigger] st.builders@[i].info) is Some
                    || exists|m_: int|
                    s_i + 1 <= m_ < n_sub && (#[trigger] subdirs@[m_]).0 == i) by {
                if i < n0c {
                    if !(st.builders@[i].info is Some) {
                        assert(st.builders@[i] == st_call.builders@[i] || i == cid);
                        assert(!(st_call.builders@[i].info is Some) && i != cid);
                        let mm = choose|m_: int|
                            s_i <= m_ < n_sub && (#[trigger] subs_head[m_]).0 == i;
                        assert(cid == subs_head[s_i as int].0);
                        if mm == s_i {
                            assert(false);
                        }
                        assert(subdirs@[mm] == subs_head[mm]);
                        assert(s_i + 1 <= mm < n_sub && (subdirs@[mm]).0 == i);
                    }
                }
            }
            assert forall|m_: int| s_i + 1 <= m_ < n_sub implies #[trigger] subdir_entry_ok(
                st_call,
                subs_head[m_].0 as int,
                subs_head[m_].1,
                n0,
            ) by {
                assert(subdir_entry_ok(st_call, subs_head[m_].0 as int, subs_head[m_].1, n0));
            }
            assert forall|m_: int| s_i + 1 <= m_ < n_sub implies (#[trigger] subs_head[m_]).0
                != cid by {
                assert(subs_head[s_i as int].0 < subs_head[m_].0);
                assert(cid == subs_head[s_i as int].0);
            }
            lemma_subdirs_preserved(
                st_call,
                *st,
                subs_head,
                s_i as int + 1,
                n_sub as int,
                n0,
                cid as int,
            );
            assert forall|m_: int| s_i + 1 <= m_ < n_sub implies #[trigger] subdir_entry_ok(
                *st,
                subdirs@[m_].0 as int,
                subdirs@[m_].1,
                n0,
            ) by {
                assert(subdirs@[m_] == subs_head[m_]);
                assert(subdir_entry_ok(*st, subs_head[m_].0 as int, subs_head[m_].1, n0));
            }
            assert forall|m_: int| s_i + 1 <= m_ < n_sub implies #[trigger] from_snap(
                snap,
                subdirs@[m_].1,
            ) by {
                assert(subdirs@[m_] == subs_head[m_]);
                assert(from_snap(snap, subs_head[m_].1));
            }
            assert forall|m_: int|
                s_i + 1 <= m_ < n_sub implies decreases_to!(
                snap => (#[trigger] subdirs@[m_]).1@) by {
                assert(subdirs@[m_] == subs_head[m_]);
                assert(decreases_to!(snap => subs_head[m_].1@));
            }
            assert forall|ma: int, mb: int|
                s_i + 1 <= ma < mb < n_sub implies (#[trigger] subdirs@[ma]).0 < (
                #[trigger] subdirs@[mb]).0 by {
                assert(subdirs@[ma] == subs_head[ma]);
                assert(subdirs@[mb] == subs_head[mb]);
                assert(subs_head[ma].0 < subs_head[mb].0);
            }
        }
        s_i = s_i + 1;
    }
    proof {
        assert forall|i: int|
            n0 <= i < st.builders@.len() implies (#[trigger] st.builders@[i].info) is Some by {}
        assert(expand_ok(pre, *st, d as int, snap, *settings));
    }
    Ok(())
}


// ---------------------------------------------------------------------
// The finished report and its guarantees
// ---------------------------------------------------------------------

/// The child range a finished directory node carries, if any.
pub open spec fn item_dir_range(it: FileItem) -> Option<ChildRange> {
    match it.info {
        SpecificInfo::Dir(di) => Some(di.childs),
        _ => None,
    }
}

pub open spec fn item_dir_wf(items: Seq<FileItem>, i: int) -> bool {
    item_dir_range(items[i]) is Some ==> ({
        let cr = item_dir_range(items[i])->0;
        &&& i < cr.start
        &&& cr.end < items.len()
        &&& cr.start <= cr.end + 1
        &&& forall|j: int|
            cr.start <= j <= cr.end ==> (#[trigger] items[j].parent) == Some(i as usize)
    })
}

/// Whether finished node `p` is a directory whose range covers `i`.
pub open spec fn item_covers(items: Seq<FileItem>, p: int, i: int) -> bool {
    item_dir_range(items[p]) is Some && item_dir_range(items[p])->0.covers(i)
}

pub open spec fn item_linked(items: Seq<FileItem>, i: int) -> bool {
    items[i].parent matches Some(p) && (0 <= p < i && item_covers(items, p as int, i))
}

/// Structure of the finished node array: identities equal positions,
/// only the root lacks a parent, parents precede their children, and
/// every directory's range names exactly the nodes that call it parent.
pub open spec fn scan_wf(items: Seq<FileItem>) -> bool {
    &&& 1 <= items.len()
    &&& forall|i: int| 0 <= i < items.len() ==> (#[trigger] items[i].id) == i
    &&& items[0].parent is None
    &&& forall|i: int|
        1 <= i < items.len() ==> ((#[trigger] items[i].parent) matches Some(p) && p < i)
    &&& forall|i: int| 0 <= i < items.len() ==> #[trigger] item_dir_wf(items, i)
    &&& forall|i: int| 1 <= i < items.len() ==> #[trigger] item_linked(items, i)
}

/// What a resolved symlink target means: the matched identity carries
/// exactly the link's target path, and no identity is returned only when
/// no recorded node carries that path.
pub open spec fn target_ok(target: Option<usize>, t: Seq<char>, m: Map<int, RawNode>, len: int) -> bool {
    match target {
        Some(j) => 1 <= j < len && m.contains_key(j as int) && m[j as int].path@ == t,
        None => forall|j: int| 1 <= j < len ==> (#[trigger] m.contains_key(j)) && m[j].path@ != t,
    }
}

/// A finished node faithfully classifies the raw entry it stands for.
pub open spec fn item_matches(
    it: FileItem,
    raw: RawNode,
    ffsm: bool,
    m: Map<int, RawNode>,
    len: int,
) -> bool {
    &&& it.name@ == raw.name@
    &&& it.times == raw.times
    &&& match raw.data {
        RawData::File(FileRead::Content { bytes, metas }) => it.info matches SpecificInfo::Regular(
            ri,
        ) && ri.md5@ == md5_hex_of(bytes@) && ri.metas@ == (if ffsm {
            metas@
        } else {
            Seq::<(String, String)>::empty()
        }),
        RawData::File(FileRead::Denied) => it.info == SpecificInfo::Inaccessible(FileType::Regular),
        RawData::File(FileRead::Fatal(_)) => false,
        RawData::Dir(DirRead::Entries(_)) => it.info matches SpecificInfo::Dir(_),
        RawData::Dir(DirRead::Denied) => it.info == SpecificInfo::Inaccessible(FileType::Dir),
        RawData::Dir(DirRead::Fatal(_)) => false,
        RawData::Symlink(LinkRead::Unreadable) => it.info == SpecificInfo::Inaccessible(
            FileType::Symlink,
        ),
        RawData::Symlink(LinkRead::Target(t)) => it.info matches SpecificInfo::Symlink(si)
            && target_ok(si.target, t@, m, len),
    }
}

/// A finished directory's range holds exactly the admitted prefix of its
/// raw entries, in enumeration order.
pub open spec fn item_ranges_ok(
    items: Seq<FileItem>,
    m: Map<int, RawNode>,
    i: int,
    limit: Option<usize>,
    limit_reached: bool,
) -> bool {
    (raw_entries(m[i]) is Some && item_dir_range(items[i]) is Some) ==> ({
        let es = raw_entries(m[i])->0;
        let cr = item_dir_range(items[i])->0;
        &&& cr.size() == kept_of(es@.len() as int, cr.start as int, limit)
        &&& (cr.size() < es@.len() ==> limit_reached)
        &&& forall|j: int|
            cr.start <= j < cr.start + cr.size() ==> (#[trigger] m.contains_key(j)) && m[j]
                == es@[j - cr.start]
    })
}

/// The whole correspondence between a finished scan and the captured
/// tree: a map from identities to raw entries under which the root is
/// node 0, every node classifies its entry, every directory's range
/// holds its entries in order, and the inaccessible count counts the
/// denied entries.
pub open spec fn scan_matches(
    items: Seq<FileItem>,
    m: Map<int, RawNode>,
    root: RawNode,
    settings: ScanSettings,
    limit_reached: bool,
    inacc: int,
) -> bool {
    &&& m.contains_key(0) && m[0] == root
    &&& forall|i: int| 0 <= i < items.len() ==> #[trigger] m.contains_key(i)
    &&& forall|i: int|
        0 <= i < items.len() ==> item_matches(
            #[trigger] items[i],
            m[i],
            settings.ffsm,
            m,
            items.len() as int,
        )
    &&& forall|i: int|
        0 <= i < items.len() ==> #[trigger] item_ranges_ok(
            items,
            m,
            i,
            settings.scan_limit,
            limit_reached,
        )
    &&& inacc == count_denied(m, items.len() as int)
}

pub open spec fn spec_description(ffsm: bool) -> Seq<char> {
    if ffsm {
        "FFSM on. "@
    } else {
        "FFSM off. "@
    }
}

pub open spec fn spec_warning(limit_reached: bool, inacc: int) -> Seq<char> {
    (if limit_reached {
        "Limit reached. "@
    } else {
        Seq::<char>::empty()
    }) + (if inacc != 0 {
        "Inaccessible items: "@ + dec_str(inacc) + ". "@
    } else {
        Seq::<char>::empty()
    })
}

/// Everything `scan` promises of a successful report.
pub open spec fn scan_report_ok(s: Scan, root: RawNode, settings: ScanSettings) -> bool {
    &&& scan_wf(s.items@)
    &&& s.items@[0].name@ == root.name@
    &&& s.items@[0].times == root.times
    &&& (root.data matches RawData::Dir(DirRead::Denied) ==> s.items@.len() == 1 && s.items@[0].info
        == SpecificInfo::Inaccessible(FileType::Dir) && s.inaccessible == 1)
    &&& (root.data matches RawData::Dir(DirRead::Entries(ev)) ==> (s.items@[0].info
        matches SpecificInfo::Dir(di) && (di.childs.start == 1 && di.childs.size() == kept_of(
        ev@.len() as int,
        1,
        settings.scan_limit,
    ))))
    &&& (settings.scan_limit matches Some(l) ==> (l >= 1 ==> s.items@.len() <= l))
    &&& (settings.scan_limit is None ==> !s.limit_reached)
    &&& (exists|m: Map<int, RawNode>|
        scan_matches(s.items@, m, root, settings, s.limit_reached, s.inaccessible as int))
    &&& s.description@ == spec_description(settings.ffsm)
    &&& s.warning@ == spec_warning(s.limit_reached, s.inaccessible as int)
}

/// Resolving and freezing a fully classified arena yields a finished
/// array with the same structure and an exact correspondence to the
/// captured tree.
#[verifier::rlimit(100)]
#[verifier::spinoff_prover]
proof fn lemma_finalize(
    bs: Seq<FileItemBuilder>,
    ps: Seq<(String, usize)>,
    items: Seq<FileItem>,
    m: Map<int, RawNode>,
    settings: ScanSettings,
    limit_reached: bool,
)
    requires
        arena_wf(bs),
        parents_linked(bs),
        tree_ok(bs, m, settings.ffsm, settings.scan_limit, limit_reached),
        paths_wf(ps, m, bs.len() as int),
        forall|i: int| 0 <= i < bs.len() ==> (#[trigger] bs[i].info) is Some,
        items.len() == bs.len(),
        forall|i: int|
            0 <= i < bs.len() ==> #[trigger] items[i] == built_item(resolve_builder(bs[i], ps)),
    ensures
        scan_wf(items),
        forall|i: int|
            0 <= i < items.len() ==> item_matches(
                #[trigger] items[i],
                m[i],
                settings.ffsm,
                m,
                items.len() as int,
            ),
        forall|i: int|
            0 <= i < items.len() ==> #[trigger] item_ranges_ok(
                items,
                m,
                i,
                settings.scan_limit,
                limit_reached,
            ),
        forall|i: int|
            0 <= i < items.len() ==> (#[trigger] items[i]).name@ == bs[i].name@ && items[i].times
                == bs[i].times && items[i].parent == bs[i].parent && items[i].id == bs[i].id,
        forall|i: int|
            0 <= i < items.len() ==> #[trigger] item_dir_range(items[i]) == dir_range(bs[i]),
{
    assert forall|i: int|
        0 <= i < items.len() implies (#[trigger] items[i]).name@ == bs[i].name@ && items[i].times
            == bs[i].times && items[i].parent == bs[i].parent && items[i].id == bs[i].id by {}
    assert forall|i: int|
        0 <= i < items.len() implies #[trigger] item_dir_range(items[i]) == dir_range(bs[i]) by {
        assert(node_ok(bs[i], m[i], settings.ffsm));
    }
    assert forall|i: int| 0 <= i < items.len() implies #[trigger] item_dir_wf(items, i) by {
        assert(dir_info_wf(bs, i));
        if item_dir_range(items[i]) is Some {
            let cr = item_dir_range(items[i])->0;
            assert forall|j: int| cr.start <= j <= cr.end implies (#[trigger] items[j].parent)
                == Some(i as usize) by {
                assert(bs[j].parent == Some(i as usize));
            }
        }
    }
    assert forall|i: int| 1 <= i < items.len() implies #[trigger] item_linked(items, i) by {
        assert(parent_links(bs, i));
        if let Some(p) = bs[i].parent {
            assert(item_dir_range(items[p as int]) == dir_range(bs[p as int]));
            assert(item_covers(items, p as int, i));
        }
    }
    assert(scan_wf(items));
    assert forall|i: int| 0 <= i < items.len() implies item_matches(
        #[trigger] items[i],
        m[i],
        settings.ffsm,
        m,
        items.len() as int,
    ) by {
        assert(node_ok(bs[i], m[i], settings.ffsm));
        if let RawData::Symlink(lr) = m[i].data {
            if let LinkRead::Target(t) = lr {
                assert(bs[i].link == Some(LinkRead::Target(t)));
                assert(items[i].info == resolve_target(bs[i].link, ps));
                let found = find_path(ps, t@);
                if found is Some {
                    lemma_find_path_some(ps, t@);
                    let kk = choose|kk: int|
                        0 <= kk < ps.len() && (#[trigger] ps[kk]).0@ == t@ && ps[kk].1 == found->0;
                    assert(path_pair_ok(ps, m, bs.len() as int, kk));
                    assert(target_ok(found, t@, m, items.len() as int));
                } else {
                    lemma_find_path_none(ps, t@);
                    assert forall|j: int| 1 <= j < items.len() implies (#[trigger] m.contains_key(
                        j,
                    )) && m[j].path@ != t@ by {
                        assert(st_key(m, j));
                        assert(has_pair(ps, j));
                        let kk = choose|kk: int| 0 <= kk < ps.len() && (#[trigger] ps[kk]).1 == j;
                        assert(path_pair_ok(ps, m, bs.len() as int, kk));
                        assert(ps[kk].0@ != t@);
                    }
                    assert(target_ok(found, t@, m, items.len() as int));
                }
            }
        }
    }
    assert forall|i: int| 0 <= i < items.len() implies #[trigger] item_ranges_ok(
        items,
        m,
        i,
        settings.scan_limit,
        limit_reached,
    ) by {
        assert(ranges_ok(bs, m, i, settings.scan_limit, limit_reached));
        assert(item_dir_range(items[i]) == dir_range(bs[i]));
        if raw_entries(m[i]) is Some && item_dir_range(items[i]) is Some {
            let es = raw_entries(m[i])->0;
            let cr = item_dir_range(items[i])->0;
            assert(cr.size() == kept_of(es@.len() as int, cr.start as int, settings.scan_limit));
            assert(cr.size() < es@.len() ==> limit_reached);
            assert forall|j: int| cr.start <= j < cr.start + cr.size() implies (
            #[trigger] m.contains_key(j)) && m[j] == es@[j - cr.start] by {
                assert(st_key(m, j));
            }
        }
    }
}

/// Walks a captured directory tree: assigns identities in visitation
/// order, links each directory to the contiguous block of its children,
/// fingerprints regular files, resolves symlink targets in a second
/// pass, and assembles the report.  Reaching the size limit truncates
/// enumeration and is reported in the warning, never an error; only
/// non-permission failures abort the scan.
#[verifier::loop_isolation(false)]
#[verifier::rlimit(100)]
#[verifier::spinoff_prover]
pub fn scan(root: RawNode, settings: &ScanSettings) -> (r: Result<Scan, String>)
    requires
        root.data matches RawData::Dir(_),
    ensures
        r matches Ok(s) ==> scan_report_ok(s, root, *settings),
        r matches Err(e) ==> fatal_in(root, e@),
        !has_fatal(root) ==> r is Ok,
{
    let ghost root_snap = root;
    let RawNode { name, path, times, data } = root;
    let mut st = ScanState {
        builders: Vec::new(),
        paths: Vec::new(),
        inaccessible: 0,
        limit_reached: false,
        raw_of: Ghost(Map::empty().insert(0, root_snap)),
    };
    let mut b0 = FileItemBuilder::new(0, path, name, times);
    match data {
        RawData::Dir(dr) => {
            match dr {
                DirRead::Fatal(e) => {
                    proof {
                        assert(fatal_in(root_snap, e@));
                        assert(has_fatal(root_snap));
                    }
                    return Err(e);
                }
                DirRead::Denied => {
                    b0.info(SpecificInfo::Inaccessible(FileType::Dir));
                    st.builders.push(b0);
                    st.inaccessible = 1;
                    proof {
                        assert(count_denied(st.raw_of@, 0) == 0);
                        assert(st.raw_of@[0] == root_snap);
                        assert(denied_raw(root_snap));
                        assert(count_denied(st.raw_of@, 1) == 1);
                    }
                }
                DirRead::Entries(es) => {
                    st.builders.push(b0);
                    proof {
                        assert(count_denied(st.raw_of@, 0) == 0);
                        assert(st.raw_of@[0] == root_snap);
                        assert(!denied_raw(root_snap));
                        assert(count_denied(st.raw_of@, 1) == 0);
                        assert(st_inv(st, settings.ffsm, settings.scan_limit));
                    }
                    let ghost st0 = st;
                    let ghost es_snap = es@;
                    let rec = expand(&mut st, 0, es, settings);
                    match rec {
                        Err(e) => {
                            proof {
                                assert(fatal_in(root_snap, e@));
                                assert(has_fatal(root_snap));
                            }
                            return Err(e);
                        }
                        Ok(_) => {}
                    }
                    proof {
                        assert(expand_ok(st0, st, 0, es_snap, *settings));
                        assert(st0.raw_of@.contains_key(0));
                        lemma_frame_key(st0.raw_of@, st.raw_of@, 0);
                        assert(st.raw_of@.contains_key(0) && st.raw_of@[0] == root_snap);
                        assert(st.builders@[0] == (FileItemBuilder {
                            info: Some(
                                SpecificInfo::Dir(
                                    DirInfo {
                                        childs: ChildRange {
                                            start: 1 as usize,
                                            end: (1 + kept_of(
                                                es_snap.len() as int,
                                                1,
                                                settings.scan_limit,
                                            ) - 1) as usize,
                                        },
                                    },
                                ),
                            ),
                            ..st0.builders@[0]
                        }));
                        assert(st.builders@[0].name == root_snap.name);
                        assert(st.builders@[0].times == root_snap.times);
                    }
                }
            }
        }
        RawData::File(_) => {
            proof {
                assert(false);
            }
            return Err(String::new());
        }
        RawData::Symlink(_) => {
            proof {
                assert(false);
            }
            return Err(String::new());
        }
    }
    let ScanState { builders, paths, inaccessible, limit_reached, raw_of } = st;
    let mut builders = builders;
    let ghost bs_pre = builders@;
    proof {
        assert(forall|i: int| 0 <= i < bs_pre.len() ==> (#[trigger] bs_pre[i].info) is Some);
    }
    resolve_links(&mut builders, &paths);
    proof {
        assert(forall|i: int|
            0 <= i < builders@.len() ==> (#[trigger] builders@[i]) == resolve_builder(
                bs_pre[i],
                paths@,
            ));
        assert forall|i: int| 0 <= i < builders@.len() implies (
        #[trigger] builders@[i].info) is Some by {
            assert(bs_pre[i].info is Some);
        }
    }
    let items = build_items(builders);
    proof {
        assert forall|i: int| 0 <= i < bs_pre.len() implies #[trigger] items@[i] == built_item(
            resolve_builder(bs_pre[i], paths@),
        ) by {}
        lemma_finalize(bs_pre, paths@, items@, raw_of@, *settings, limit_reached);
    }
    let mut warning = String::new();
    if limit_reached {
        warning.append("Limit reached. ");
    }
    if inaccessible != 0 {
        warning.append("Inaccessible items: ");
        let num = usize_to_string(inaccessible);
        warning.append(num.as_str());
        warning.append(". ");
    }
    proof {
        assert(warning@ =~= spec_warning(limit_reached, inaccessible as int));
    }
    let description = if settings.ffsm {
        "FFSM on. ".to_owned()
    } else {
        "FFSM off. ".to_owned()
    };
    let result = Scan { items, description, warning, inaccessible, limit_reached };
    proof {
        assert(items@[0].name@ == bs_pre[0].name@ && items@[0].times == bs_pre[0].times);
        assert(item_dir_range(items@[0]) == dir_range(bs_pre[0]));
        assert(raw_of@.contains_key(0) && raw_of@[0] == root_snap);
        assert forall|i: int| 0 <= i < items@.len() implies #[trigger] raw_of@.contains_key(
            i,
        ) by {
            assert(st_key(raw_of@, i));
        }
        if let RawData::Dir(DirRead::Denied) = root_snap.data {
            assert(items@.len() == 1);
            assert(bs_pre[0].info == Some(SpecificInfo::Inaccessible(FileType::Dir)));
            assert(items@[0] == built_item(resolve_builder(bs_pre[0], paths@)));
            assert(items@[0].info == SpecificInfo::Inaccessible(FileType::Dir));
        }
        if let RawData::Dir(DirRead::Entries(ev)) = root_snap.data {
            let kept = kept_of(ev@.len() as int, 1, settings.scan_limit);
            assert(0 <= kept <= ev@.len());
            assert(dir_range(bs_pre[0]) == Some(
                ChildRange { start: 1 as usize, end: (1 + kept - 1) as usize },
            ));
            assert(item_dir_range(items@[0]) is Some);
            let cr0 = item_dir_range(items@[0])->0;
            assert(cr0.start == 1);
            assert(item_ranges_ok(items@, raw_of@, 0, settings.scan_limit, limit_reached));
            assert(raw_entries(raw_of@[0]) == Some(ev));
            assert(cr0.size() == kept);
        }
        assert(scan_wf(items@));
        assert(items@[0].name@ == root_snap.name@);
        assert(items@[0].times == root_snap.times);
        assert(within_limit(items@.len() as int, settings.scan_limit));
        assert(settings.scan_limit matches Some(l) ==> (l >= 1 ==> items@.len() <= l));
        assert(settings.scan_limit is None ==> !limit_reached);
        assert(description@ == spec_description(settings.ffsm));
        assert(warning@ == spec_warning(limit_reached, inaccessible as int));
        assert(scan_matches(
            result.items@,
            raw_of@,
            root_snap,
            *settings,
            result.limit_reached,
            result.inaccessible as int,
        ));
        assert(scan_report_ok(result, root_snap, *settings));
    }
    Ok(result)
}

// ---------------------------------------------------------------------
// Stated guarantees of the finished array
// ---------------------------------------------------------------------

/// Children ranges partition the identity space: every non-root node
/// lies in the range of exactly one directory, namely its parent, so the
/// union of all ranges plus the root covers every identity with no gaps
/// and no overlaps.
/// Whether some directory before `i` covers identity `i`.
pub open spec fn has_covering_dir(items: Seq<FileItem>, i: int) -> bool {
    exists|p: int| 0 <= p < i && #[trigger] item_covers(items, p, i)
}

/// A node that carries no child range has no children at all: no other
/// node names it as parent.  In particular a directory that was denied
/// enumeration gets nothing assigned beneath it.
pub proof fn lemma_no_children_without_range(items: Seq<FileItem>, p: int)
    requires
        scan_wf(items),
        0 <= p < items.len(),
        item_dir_range(items[p]) is None,
    ensures
        forall|i: int|
            1 <= i < items.len() ==> !((#[trigger] items[i].parent) matches Some(q) && q as int
                == p),
{
    assert forall|i: int|
        1 <= i < items.len() implies !((#[trigger] items[i].parent) matches Some(q) && q as int
            == p) by {
        assert(item_linked(items, i));
        if let Some(q) = items[i].parent {
            assert(item_covers(items, q as int, i));
            if q as int == p {
                assert(item_dir_range(items[p]) is Some);
                assert(false);
            }
        }
    }
}

/// Any recorded denied entry makes the denied count positive: a scan
/// that met a permission failure reports it.
pub proof fn lemma_denied_count_positive(m: Map<int, RawNode>, len: int, i: int)
    requires
        0 <= i < len,
        denied_raw(m[i]),
    ensures
        count_denied(m, len) >= 1,
    decreases len,
{
    lemma_count_denied_le(m, i);
    if i == len - 1 {
    } else {
        lemma_denied_count_positive(m, len - 1, i);
    }
}

pub proof fn lemma_children_partition(items: Seq<FileItem>)
    requires
        scan_wf(items),
    ensures
        forall|i: int| 1 <= i < items.len() ==> #[trigger] has_covering_dir(items, i),
        forall|i: int, p1: int, p2: int|
            1 <= i < items.len() && 0 <= p1 < items.len() && 0 <= p2 < items.len()
                && #[trigger] item_covers(items, p1, i) && #[trigger] item_covers(items, p2, i)
                ==> p1 == p2,
{
    assert forall|i: int| 1 <= i < items.len() implies #[trigger] has_covering_dir(
        items,
        i,
    ) by {
        assert(item_linked(items, i));
        if let Some(p) = items[i].parent {
            assert(0 <= p < i && item_covers(items, p as int, i));
        }
    }
    assert forall|i: int, p1: int, p2: int|
        1 <= i < items.len() && 0 <= p1 < items.len() && 0 <= p2 < items.len()
            && #[trigger] item_covers(items, p1, i) && #[trigger] item_covers(
            items,
            p2,
            i,
        ) implies p1 == p2 by {
        assert(item_dir_wf(items, p1));
        assert(item_dir_wf(items, p2));
        assert(items[i].parent == Some(p1 as usize));
        assert(items[i].parent == Some(p2 as usize));
    }
}


} // verus!

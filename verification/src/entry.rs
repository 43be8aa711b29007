//! The files that an existing archive holds, each as a byte range of the
//! archive's own bytes.

use vstd::prelude::*;
use crate::name::{file_stem, stem_of};
use crate::path::{ArchivePath, split_path, path_order, parent_of, file_name_of};
use crate::sorting::{sorted_order, arranged, path_views, sort_order};
use crate::tarball::{Member, MemberView};

verus! {

/// A file found in an archive: its path there, and where its payload lies in
/// the archive's bytes.
#[derive(Debug, PartialEq, Eq)]
pub struct SourceEntry {
    pub path: ArchivePath,
    pub offset: u64,
    pub len: u64,
}

/// A [`SourceEntry`] as a mathematical value.
pub struct SourceEntryView {
    pub path: Seq<Seq<u8>>,
    pub offset: u64,
    pub len: u64,
}

impl View for SourceEntry {
    type V = SourceEntryView;

    open spec fn view(&self) -> SourceEntryView {
        SourceEntryView { path: self.path@, offset: self.offset, len: self.len }
    }
}

/// The views of a list of entries.
pub open spec fn entry_views(entries: Seq<SourceEntry>) -> Seq<SourceEntryView> {
    entries.map_values(|e: SourceEntry| e@)
}

/// The paths of a list of entries.
pub open spec fn entry_paths(entries: Seq<SourceEntryView>) -> Seq<Seq<Seq<u8>>> {
    entries.map_values(|e: SourceEntryView| e.path)
}

/// The file names of a list of entries.
pub open spec fn entry_names(entries: Seq<SourceEntryView>) -> Seq<Seq<u8>> {
    entries.map_values(|e: SourceEntryView| file_name_of(e.path))
}

/// The entry that a member of an archive's table stands for.
pub open spec fn entry_of(member: MemberView) -> SourceEntryView {
    SourceEntryView { path: split_path(member.path), offset: member.offset, len: member.len }
}

/// `entries` in ascending order of their paths, entries with the same path
/// staying in the order in which they stand.
pub open spec fn sorted_entries(entries: Seq<SourceEntryView>) -> Seq<SourceEntryView> {
    arranged(entries, sorted_order(path_order(), entry_paths(entries)))
}

/// Whether the range of `entry` lies within a buffer of `size` bytes.
pub open spec fn in_range(entry: SourceEntryView, size: nat) -> bool {
    entry.offset + entry.len <= size
}

/// The bytes of `source` that `entry` points at.
pub open spec fn payload(entry: SourceEntryView, source: Seq<u8>) -> Seq<u8> {
    source.subrange(entry.offset as int, entry.offset + entry.len)
}

impl SourceEntry {
    /// The entry that `member` stands for.
    pub fn from_member(member: &Member) -> (r: SourceEntry)
        ensures
            r@ == entry_of(member@),
    {
        SourceEntry { path: ArchivePath::parse(&member.path), offset: member.offset, len: member.len }
    }

    /// A copy of this entry.
    pub fn duplicate(&self) -> (r: SourceEntry)
        ensures
            r@ == self@,
    {
        SourceEntry { path: self.path.duplicate(), offset: self.offset, len: self.len }
    }

    /// The directory that holds this entry.
    pub fn parent(&self) -> (r: ArchivePath)
        ensures
            r@ == parent_of(self@.path),
    {
        self.path.parent()
    }

    /// The name of this entry within its directory.
    pub fn file_name(&self) -> (r: Vec<u8>)
        ensures
            r@ == file_name_of(self@.path),
    {
        self.path.file_name()
    }

    /// The name of this entry without its extension.
    pub fn file_stem(&self) -> (r: Vec<u8>)
        ensures
            r@ == file_stem(file_name_of(self@.path)),
    {
        let name = self.path.file_name();
        stem_of(&name)
    }

    /// The payload of this entry in `source`, or `None` where its range
    /// reaches beyond the end of `source`.
    pub fn read<'a>(&self, source: &'a [u8]) -> (r: Option<&'a [u8]>)
        ensures
            r is Some <==> in_range(self@, source@.len()),
            r is Some ==> r->0@ == payload(self@, source@),
    {
        let size = source.len();
        if self.offset > size as u64 {
            return None;
        }
        if self.len > size as u64 - self.offset {
            return None;
        }
        let start = self.offset as usize;
        let end = start + self.len as usize;
        Some(&source[start..end])
    }
}

/// Copies of `entries`, in ascending order of their paths.
pub fn sort_entries(entries: &Vec<SourceEntry>) -> (r: Vec<SourceEntry>)
    ensures
        entry_views(r@) == sorted_entries(entry_views(entries@)),
{
    let mut keys: Vec<ArchivePath> = Vec::new();
    let mut k: usize = 0;
    while k < entries.len()
        invariant
            k <= entries.len(),
            path_views(keys@) == entry_paths(entry_views(entries@)).take(k as int),
        decreases entries.len() - k,
    {
        let ghost done = path_views(keys@);
        let key = entries[k].path.duplicate();
        keys.push(key);
        assert(path_views(keys@) =~= done.push(key@));
        assert(entry_paths(entry_views(entries@)).take(k + 1)
            =~= entry_paths(entry_views(entries@)).take(k as int).push(key@));
        k += 1;
    }
    assert(entry_paths(entry_views(entries@)).take(k as int) =~= entry_paths(entry_views(entries@)));
    let order = sort_order(&keys);
    let mut out: Vec<SourceEntry> = Vec::new();
    let mut i: usize = 0;
    while i < order.len()
        invariant
            i <= order.len(),
            order@.len() == entries@.len(),
            forall|j: int| 0 <= j < order@.len() ==> #[trigger] order@[j] < entries@.len(),
            entry_views(out@) == arranged(entry_views(entries@), order@.take(i as int)),
        decreases order.len() - i,
    {
        assert(order@[i as int] < entries@.len());
        let ghost done = entry_views(out@);
        let copy = entries[order[i]].duplicate();
        out.push(copy);
        assert(entry_views(out@) =~= done.push(copy@));
        assert(arranged(entry_views(entries@), order@.take(i + 1))
            =~= arranged(entry_views(entries@), order@.take(i as int)).push(copy@));
        i += 1;
    }
    assert(order@.take(i as int) =~= order@);
    out
}

} // verus!

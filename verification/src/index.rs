//! The index of an existing archive: its directory markers in order, and for
//! each directory the files that lie directly in it, in order.

use vstd::prelude::*;
use crate::error::ArchiveError;
use crate::path::{ArchivePath, path_order, path_le, parent_of, lemma_path_order_total_preorder};
use crate::sorting::{sorted_order, arranged, path_views, sort_order, arrange_paths, lemma_sorted_order_sorts};
use crate::entry::{SourceEntry, SourceEntryView, entry_views, entry_paths, entry_of, sorted_entries, sort_entries};
use crate::tarball::{Member, MemberView, member_views};
use crate::table::{SlotTable, slots, table_new, table_insert, table_get};

verus! {

/// An index as a mathematical value.
#[verifier::ext_equal]
pub struct IndexView {
    /// The paths of the directory markers, in ascending order.
    pub directories: Seq<Seq<Seq<u8>>>,
    /// For each directory that holds files, those files in ascending order of
    /// their paths.
    pub listings: Map<Seq<Seq<u8>>, Seq<SourceEntryView>>,
}

/// The index of an archive. It is made once from the archive's entry table
/// and only read afterwards.
pub struct ArchiveIndex {
    directories: Vec<ArchivePath>,
    bins: Vec<Vec<SourceEntry>>,
    table: SlotTable,
}

/// A member of size zero marks a directory.
pub open spec fn is_marker() -> spec_fn(SourceEntryView) -> bool {
    |e: SourceEntryView| e.len == 0
}

/// The files that lie directly in `dir`.
pub open spec fn lies_in(dir: Seq<Seq<u8>>) -> spec_fn(SourceEntryView) -> bool {
    |e: SourceEntryView| e.len != 0 && parent_of(e.path) == dir
}

/// The paths of the directory markers among `entries`, as they come.
pub open spec fn markers(entries: Seq<SourceEntryView>) -> Seq<Seq<Seq<u8>>> {
    entry_paths(entries.filter(is_marker()))
}

/// The files among `entries` that lie directly in `dir`, as they come.
pub open spec fn files_in(entries: Seq<SourceEntryView>, dir: Seq<Seq<u8>>) -> Seq<SourceEntryView> {
    entries.filter(lies_in(dir))
}

/// Whether `entries` lists a file whose path holds no name.
pub open spec fn has_nameless_file(entries: Seq<SourceEntryView>) -> bool {
    exists|i: int| 0 <= i < entries.len() && (#[trigger] entries[i]).len != 0 && entries[i].path.len() == 0
}

/// The entries that the members of an entry table stand for.
pub open spec fn member_entries(members: Seq<MemberView>) -> Seq<SourceEntryView> {
    members.map_values(|m: MemberView| entry_of(m))
}

/// The index of `entries`: the markers sorted by path, and under each
/// directory that holds a file, its files sorted by path.
pub open spec fn indexed(entries: Seq<SourceEntryView>) -> IndexView {
    IndexView {
        directories: arranged(markers(entries), sorted_order(path_order(), markers(entries))),
        listings: Map::new(
            |d: Seq<Seq<u8>>| files_in(entries, d).len() > 0,
            |d: Seq<Seq<u8>>| sorted_entries(files_in(entries, d)),
        ),
    }
}

/// The directory markers of an index ascend in the order of paths.
pub proof fn lemma_directories_ascend(entries: Seq<SourceEntryView>, i: int, j: int)
    requires
        entries.len() <= usize::MAX,
        0 <= i <= j < indexed(entries).directories.len(),
    ensures
        path_le(indexed(entries).directories[i], indexed(entries).directories[j]),
{
    let keys = markers(entries);
    entries.lemma_filter_len(is_marker());
    lemma_path_order_total_preorder();
    lemma_sorted_order_sorts(path_order(), keys);
    let order = sorted_order(path_order(), keys);
    if i < j {
        let _ = (order[i], order[j]);
        assert(path_order()(keys[order[i] as int], keys[order[j] as int]));
    } else {
        assert(path_order()(keys[order[i] as int], keys[order[i] as int]) || path_order()(keys[order[i] as int], keys[order[i] as int]));
    }
}

/// The files of each listing of an index lie directly in the listing's
/// directory, and ascend in the order of their paths.
pub proof fn lemma_listing_ascends(entries: Seq<SourceEntryView>, dir: Seq<Seq<u8>>, i: int, j: int)
    requires
        entries.len() <= usize::MAX,
        indexed(entries).listings.contains_key(dir),
        0 <= i <= j < indexed(entries).listings[dir].len(),
    ensures
        indexed(entries).listings[dir][i].len != 0,
        parent_of(indexed(entries).listings[dir][i].path) == dir,
        path_le(indexed(entries).listings[dir][i].path, indexed(entries).listings[dir][j].path),
{
    let files = files_in(entries, dir);
    let keys = entry_paths(files);
    entries.lemma_filter_len(lies_in(dir));
    lemma_path_order_total_preorder();
    lemma_sorted_order_sorts(path_order(), keys);
    let order = sorted_order(path_order(), keys);
    entries.lemma_filter_pred(lies_in(dir), order[i] as int);
    assert(lies_in(dir)(files[order[i] as int]));
    if i < j {
        let _ = (order[i], order[j]);
        assert(path_order()(keys[order[i] as int], keys[order[j] as int]));
    } else {
        assert(path_order()(keys[order[i] as int], keys[order[i] as int]) || path_order()(keys[order[i] as int], keys[order[i] as int]));
    }
}

impl View for ArchiveIndex {
    type V = IndexView;

    closed spec fn view(&self) -> IndexView {
        IndexView {
            directories: path_views(self.directories@),
            listings: Map::new(
                |d: Seq<Seq<u8>>| slots(self.table).contains_key(d),
                |d: Seq<Seq<u8>>| entry_views(self.bins@[slots(self.table)[d] as int]@),
            ),
        }
    }
}

/// Adds `entry` at the end of the bin at `slot`, and leaves the others alone.
fn push_into(bins: &mut Vec<Vec<SourceEntry>>, slot: usize, entry: SourceEntry)
    requires
        slot < old(bins)@.len(),
    ensures
        final(bins)@.len() == old(bins)@.len(),
        forall|i: int| 0 <= i < old(bins)@.len() && i != slot ==> final(bins)@[i] == old(bins)@[i],
        entry_views(final(bins)@[slot as int]@) == entry_views(old(bins)@[slot as int]@).push(entry@),
{
    let ghost whole = bins@;
    let mut bin = bins.remove(slot);
    let ghost was = entry_views(bin@);
    bin.push(entry);
    assert(entry_views(bin@) =~= was.push(entry@));
    bins.insert(slot, bin);
    assert(bins@ =~= whole.update(slot as int, bin));
}

impl ArchiveIndex {
    /// Every slot of the table leads to a bin.
    #[verifier::type_invariant]
    spec fn well_formed(&self) -> bool {
        forall|d: Seq<Seq<u8>>| slots(self.table).contains_key(d) ==> (#[trigger] slots(self.table)[d]) < self.bins@.len()
    }

    /// Builds the index of an archive from its entry table. A member of size
    /// zero is a directory marker; any other is a file, and goes under the
    /// directory that its path names. A file whose path holds no name makes
    /// the table malformed.
    pub fn build(members: &Vec<Member>) -> (r: Result<ArchiveIndex, ArchiveError>)
        ensures
            r is Err <==> has_nameless_file(member_entries(member_views(members@))),
            r is Err ==> r->Err_0 == ArchiveError::MalformedArchive,
            r is Ok ==> r->Ok_0@ =~= indexed(member_entries(member_views(members@))),
    {
        let ghost entries = member_entries(member_views(members@));
        let mut marks: Vec<ArchivePath> = Vec::new();
        let mut bins: Vec<Vec<SourceEntry>> = Vec::new();
        let mut table = table_new();
        let mut k: usize = 0;
        assert(entries.take(0) =~= Seq::<SourceEntryView>::empty());
        assert(entries.take(0).filter(is_marker()) =~= Seq::<SourceEntryView>::empty()) by {
            reveal(Seq::filter);
        }
        assert forall|d: Seq<Seq<u8>>| #[trigger] files_in(entries.take(0), d).len() == 0 by {
            reveal(Seq::filter);
        }
        while k < members.len()
            invariant
                k <= members.len(),
                entries == member_entries(member_views(members@)),
                !has_nameless_file(entries.take(k as int)),
                path_views(marks@) == markers(entries.take(k as int)),
                forall|d: Seq<Seq<u8>>| #![trigger slots(table).contains_key(d)]
                    slots(table).contains_key(d) <==> files_in(entries.take(k as int), d).len() > 0,
                forall|d: Seq<Seq<u8>>| #![trigger slots(table)[d]]
                    slots(table).contains_key(d) ==> slots(table)[d] < bins@.len()
                        && entry_views(bins@[slots(table)[d] as int]@) == files_in(entries.take(k as int), d),
                forall|c: Seq<Seq<u8>>, d: Seq<Seq<u8>>| #![trigger slots(table)[c], slots(table)[d]]
                    slots(table).contains_key(c) && slots(table).contains_key(d) && slots(table)[c] == slots(table)[d] ==> c == d,
            decreases members.len() - k,
        {
            let ghost seen = entries.take(k as int);
            let ghost next = entries.take(k + 1);
            let ghost old_slots = slots(table);
            let ghost old_bins = bins@;
            let entry = SourceEntry::from_member(&members[k]);
            let ghost e = entry@;
            assert(e == entries[k as int]);
            assert(next =~= seen.push(e));
            proof {
                seen.lemma_filter_push(e, is_marker());
                assert forall|d: Seq<Seq<u8>>| #[trigger] files_in(next, d) == if lies_in(d)(e) {
                    files_in(seen, d).push(e)
                } else {
                    files_in(seen, d)
                } by {
                    seen.lemma_filter_push(e, lies_in(d));
                }
            }
            if entry.len == 0 {
                let ghost done = path_views(marks@);
                marks.push(entry.path);
                assert(path_views(marks@) =~= done.push(e.path));
                assert(entry_paths(seen.filter(is_marker()).push(e)) =~= entry_paths(seen.filter(is_marker())).push(e.path));
                assert forall|d: Seq<Seq<u8>>| files_in(next, d) == files_in(seen, d) by {
                    assert(!lies_in(d)(e));
                    let _ = files_in(next, d);
                }
            } else if entry.path.segments.len() == 0 {
                assert(e.path.len() == 0);
                assert(has_nameless_file(entries));
                return Err(ArchiveError::MalformedArchive);
            } else {
                let home = entry.parent();
                let ghost h = home@;
                assert(lies_in(h)(e));
                assert forall|d: Seq<Seq<u8>>| d != h implies files_in(next, d) == files_in(seen, d) by {
                    assert(!lies_in(d)(e));
                    let _ = files_in(next, d);
                }
                assert(files_in(next, h) == files_in(seen, h).push(e)) by {
                    let _ = files_in(next, h);
                }
                match table_get(&table, &home.segments) {
                    Some(slot) => {
                        assert(slot == old_slots[h]);
                        push_into(&mut bins, slot, entry);
                        assert forall|d: Seq<Seq<u8>>| #![trigger slots(table)[d]]
                            slots(table).contains_key(d) implies slots(table)[d] < bins@.len()
                                && entry_views(bins@[slots(table)[d] as int]@) == files_in(next, d) by {
                            if d != h {
                                assert(old_slots[d] != old_slots[h]);
                            }
                        }
                    },
                    None => {
                        let slot = bins.len();
                        let mut bin: Vec<SourceEntry> = Vec::new();
                        bin.push(entry);
                        assert(entry_views(bin@) =~= seq![e]);
                        assert(files_in(seen, h) =~= Seq::<SourceEntryView>::empty());
                        assert(files_in(next, h) =~= seq![e]);
                        bins.push(bin);
                        table_insert(&mut table, home.segments, slot);
                        assert(slots(table) == old_slots.insert(h, slot));
                    },
                }
            }
            assert(!has_nameless_file(next)) by {
                if has_nameless_file(next) {
                    let i = choose|i: int| 0 <= i < next.len() && (#[trigger] next[i]).len != 0 && next[i].path.len() == 0;
                    if i < k {
                        assert(seen[i] == next[i]);
                    }
                }
            }
            k += 1;
        }
        assert(entries.take(k as int) =~= entries);
        let order = sort_order(&marks);
        let directories = arrange_paths(&marks, &order);
        let mut sorted: Vec<Vec<SourceEntry>> = Vec::new();
        let mut i: usize = 0;
        while i < bins.len()
            invariant
                i <= bins.len(),
                sorted@.len() == i,
                forall|j: int| 0 <= j < i ==> entry_views(#[trigger] sorted@[j]@) == sorted_entries(entry_views(bins@[j]@)),
            decreases bins.len() - i,
        {
            sorted.push(sort_entries(&bins[i]));
            i += 1;
        }
        let index = ArchiveIndex { directories, bins: sorted, table };
        assert(index@.listings =~= indexed(entries).listings);
        assert(index@.directories =~= indexed(entries).directories);
        Ok(index)
    }

    /// The directory markers of the archive, in ascending order of their paths.
    pub fn directories(&self) -> (r: &Vec<ArchivePath>)
        ensures
            path_views(r@) == self@.directories,
    {
        &self.directories
    }

    /// The files that lie directly in `dir`, in ascending order of their
    /// paths, or `None` where the archive holds no file there.
    pub fn files_in(&self, dir: &ArchivePath) -> (r: Option<&Vec<SourceEntry>>)
        ensures
            r is Some <==> self@.listings.contains_key(dir@),
            r is Some ==> entry_views(r->0@) == self@.listings[dir@],
    {
        proof {
            use_type_invariant(self);
        }
        match table_get(&self.table, &dir.segments) {
            Some(slot) => {
                assert(slot == slots(self.table)[dir@]);
                Some(&self.bins[slot])
            },
            None => None,
        }
    }
}

} // verus!

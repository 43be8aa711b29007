//! Rebuilding an archive: every directory that is no `webp` directory gets
//! its files back, each replaced by its variant from the `webp` directory
//! below where there is one, with the payloads taken from the old archive's
//! bytes.

use vstd::prelude::*;
use crate::error::ArchiveError;
use crate::path::{webp_name, webp, file_name_of, parent_of, ends_in_webp, webp_free};
use crate::sorting::path_views;
use crate::entry::{SourceEntry, SourceEntryView, entry_views, in_range, payload};
use crate::merge::{merged, merge};
use crate::index::{ArchiveIndex, IndexView, indexed, member_entries, has_nameless_file};
use crate::pack::{Page, PageView, page_views, encoded, encode};
use crate::tarball::{tar_entry_table, tar_raw_kinds, plain_kinds, read_entry_table, read_entry_kinds, SPARSE, PAX_LOCAL};

verus! {

/// The entry `e` as it goes into the new archive under `dir`: it keeps its
/// own file name and its payload.
pub open spec fn placed(dir: Seq<Seq<u8>>, e: SourceEntryView) -> SourceEntryView {
    SourceEntryView { path: dir.push(file_name_of(e.path)), offset: e.offset, len: e.len }
}

/// The entries of `entries`, each placed under `dir`.
pub open spec fn placed_all(dir: Seq<Seq<u8>>, entries: Seq<SourceEntryView>) -> Seq<SourceEntryView> {
    entries.map_values(|e: SourceEntryView| placed(dir, e))
}

/// The files of `dir`'s `webp` subdirectory, none where it holds no file.
pub open spec fn variants(index: IndexView, dir: Seq<Seq<u8>>) -> Seq<SourceEntryView> {
    if index.listings.contains_key(dir.push(webp_name())) {
        index.listings[dir.push(webp_name())]
    } else {
        Seq::empty()
    }
}

/// What the new archive gets for one directory marker: nothing for a `webp`
/// directory or one without files, else its files merged with their variants.
pub open spec fn dir_plan(index: IndexView, dir: Seq<Seq<u8>>) -> Seq<SourceEntryView> {
    if ends_in_webp(dir) || !index.listings.contains_key(dir) {
        Seq::empty()
    } else {
        placed_all(dir, merged(index.listings[dir], variants(index, dir)))
    }
}

/// What the new archive gets for the first `n` directory markers.
pub open spec fn plan_upto(index: IndexView, n: int) -> Seq<SourceEntryView>
    decreases n,
{
    if n <= 0 {
        Seq::empty()
    } else {
        plan_upto(index, n - 1) + dir_plan(index, index.directories[n - 1])
    }
}

/// The entries of the new archive, in the order in which they are written:
/// directory by directory, and within each in the order of its files.
pub open spec fn repair_plan(index: IndexView) -> Seq<SourceEntryView> {
    plan_upto(index, index.directories.len() as int)
}

/// Whether every entry of `plan` lies within `source`.
pub open spec fn all_in_range(plan: Seq<SourceEntryView>, source: Seq<u8>) -> bool {
    forall|i: int| 0 <= i < plan.len() ==> in_range(#[trigger] plan[i], source.len())
}

/// The pages that `plan` stands for: each entry with its payload from `source`.
pub open spec fn resolved(plan: Seq<SourceEntryView>, source: Seq<u8>, mtime: u64) -> Seq<PageView> {
    plan.map_values(|e: SourceEntryView| PageView { target: e.path, data: payload(e, source), mtime })
}

/// The archive that holds what `plan` takes from `source`.
pub open spec fn packed(plan: Seq<SourceEntryView>, source: Seq<u8>, mtime: u64) -> Result<Seq<u8>, ArchiveError> {
    if !all_in_range(plan, source) {
        Err(ArchiveError::Unreadable)
    } else {
        match encoded(resolved(plan, source, mtime)) {
            Some(bytes) => Ok(bytes),
            None => Err(ArchiveError::Unwritable),
        }
    }
}

/// Whether the entry table of an archive that holds `source` can be taken:
/// its headers can be read one after the other, and none of them is a sparse
/// member or holds pax extensions.
pub open spec fn readable(source: Seq<u8>) -> bool {
    tar_raw_kinds(source) is Some && plain_kinds(tar_raw_kinds(source)->0)
}

/// The rebuilt archive for an archive that holds `source`, every entry
/// stamped with `mtime`. An archive whose table cannot be taken or read, or
/// lists a file without a name, is malformed.
pub open spec fn repaired(source: Seq<u8>, mtime: u64) -> Result<Seq<u8>, ArchiveError> {
    if !readable(source) {
        Err(ArchiveError::MalformedArchive)
    } else {
        match tar_entry_table(source) {
            None => Err(ArchiveError::MalformedArchive),
            Some(members) => {
                if has_nameless_file(member_entries(members)) {
                    Err(ArchiveError::MalformedArchive)
                } else {
                    packed(repair_plan(indexed(member_entries(members))), source, mtime)
                }
            },
        }
    }
}

/// Whether the headers of an archive are all of kinds that the reader takes
/// as they stand.
pub fn all_plain(kinds: &Vec<u8>) -> (r: bool)
    ensures
        r == plain_kinds(kinds@),
{
    let mut i: usize = 0;
    while i < kinds.len()
        invariant
            i <= kinds.len(),
            plain_kinds(kinds@.take(i as int)),
        decreases kinds.len() - i,
    {
        if kinds[i] == SPARSE || kinds[i] == PAX_LOCAL {
            return false;
        }
        assert forall|j: int| 0 <= j < i + 1 implies #[trigger] kinds@.take(i + 1)[j] != SPARSE && kinds@.take(i + 1)[j] != PAX_LOCAL by {
            if j < i {
                assert(kinds@.take(i as int)[j] == kinds@.take(i + 1)[j]);
            }
        }
        i += 1;
    }
    assert(kinds@.take(i as int) =~= kinds@);
    true
}

/// Every entry of the plan was planned for one of the directory markers.
pub proof fn lemma_plan_entry_origin(index: IndexView, n: int, i: int) -> (at: (int, int))
    requires
        0 <= n <= index.directories.len(),
        0 <= i < plan_upto(index, n).len(),
    ensures
        0 <= at.0 < n,
        0 <= at.1 < dir_plan(index, index.directories[at.0]).len(),
        plan_upto(index, n)[i] == dir_plan(index, index.directories[at.0])[at.1],
    decreases n,
{
    let before = plan_upto(index, n - 1);
    if i < before.len() {
        lemma_plan_entry_origin(index, n - 1, i)
    } else {
        (n - 1, i - before.len())
    }
}

/// Nothing is ever placed in a `webp` directory: the directory of every
/// entry of the plan is one whose last name is not `webp`.
pub proof fn lemma_repair_places_outside_webp(index: IndexView, i: int)
    requires
        0 <= i < repair_plan(index).len(),
    ensures
        repair_plan(index)[i].path.len() > 0,
        !ends_in_webp(parent_of(repair_plan(index)[i].path)),
{
    let at = lemma_plan_entry_origin(index, index.directories.len() as int, i);
    let dir = index.directories[at.0];
    let e = merged(index.listings[dir], variants(index, dir))[at.1];
    assert(repair_plan(index)[i] == placed(dir, e));
    assert(dir.push(file_name_of(e.path)).drop_last() =~= dir);
}

/// The files that go into the rebuilt archive for `dir`, as the index has them.
pub open spec fn chosen(index: IndexView, dir: Seq<Seq<u8>>) -> Seq<SourceEntryView> {
    merged(index.listings[dir], variants(index, dir))
}

/// Whether the name `webp` is kept out of what is rebuilt: wherever a
/// directory marker gets a file, the marker's path does not hold the name,
/// and the file that the merge chooses does not bear it.
pub open spec fn keeps_webp_out(index: IndexView) -> bool {
    &&& forall|k: int|
        0 <= k < index.directories.len() && dir_plan(index, #[trigger] index.directories[k]).len() > 0 ==> webp_free(
            index.directories[k],
        )
    &&& forall|k: int, j: int|
        0 <= k < index.directories.len() && 0 <= j < dir_plan(index, index.directories[k]).len() ==> file_name_of(
            (#[trigger] chosen(index, index.directories[k])[j]).path,
        ) != webp_name()
}

/// Whether no path of the rebuilt archive holds the name `webp`.
pub open spec fn rebuilt_webp_free(index: IndexView) -> bool {
    forall|i: int| 0 <= i < repair_plan(index).len() ==> webp_free(#[trigger] repair_plan(index)[i].path)
}

/// What is planned for a directory marker stands in the plan.
pub proof fn lemma_plan_holds(index: IndexView, n: int, k: int, j: int) -> (i: int)
    requires
        0 <= k < n <= index.directories.len(),
        0 <= j < dir_plan(index, index.directories[k]).len(),
    ensures
        0 <= i < plan_upto(index, n).len(),
        plan_upto(index, n)[i] == dir_plan(index, index.directories[k])[j],
    decreases n,
{
    if k == n - 1 {
        plan_upto(index, n - 1).len() + j
    } else {
        lemma_plan_holds(index, n - 1, k, j)
    }
}

/// A path with a name below it holds `webp` just where the path or the name does.
pub proof fn lemma_webp_free_push(dir: Seq<Seq<u8>>, name: Seq<u8>)
    ensures
        webp_free(dir.push(name)) <==> webp_free(dir) && name != webp_name(),
{
    let path = dir.push(name);
    if webp_free(dir) && name != webp_name() {
        assert forall|s: int| 0 <= s < path.len() implies #[trigger] path[s] != webp_name() by {
            if s < dir.len() {
                assert(path[s] == dir[s]);
            }
        }
    }
    if webp_free(path) {
        assert(path[dir.len() as int] == name);
        assert forall|s: int| 0 <= s < dir.len() implies #[trigger] dir[s] != webp_name() by {
            assert(path[s] == dir[s]);
        }
    }
}

/// No path of the rebuilt archive holds the name `webp` exactly where the
/// name is kept out of what is rebuilt: the name gets into the new archive
/// only with a marker's own path or with the name of a file that is chosen,
/// never by a walk into a `webp` directory.
pub proof fn lemma_repair_drops_webp(index: IndexView)
    ensures
        keeps_webp_out(index) <==> rebuilt_webp_free(index),
{
    let n = index.directories.len() as int;
    if keeps_webp_out(index) {
        assert forall|i: int| 0 <= i < repair_plan(index).len() implies webp_free(#[trigger] repair_plan(index)[i].path) by {
            let at = lemma_plan_entry_origin(index, n, i);
            let dir = index.directories[at.0];
            let e = chosen(index, dir)[at.1];
            assert(repair_plan(index)[i] == placed(dir, e));
            assert(dir_plan(index, dir).len() > 0);
            lemma_webp_free_push(dir, file_name_of(e.path));
        }
    }
    if rebuilt_webp_free(index) {
        assert forall|k: int, j: int|
            0 <= k < index.directories.len() && 0 <= j < dir_plan(index, index.directories[k]).len() implies file_name_of(
            (#[trigger] chosen(index, index.directories[k])[j]).path,
        ) != webp_name() by {
            let dir = index.directories[k];
            let e = chosen(index, dir)[j];
            let i = lemma_plan_holds(index, n, k, j);
            assert(dir_plan(index, dir)[j] == placed(dir, e));
            assert(webp_free(repair_plan(index)[i].path));
            lemma_webp_free_push(dir, file_name_of(e.path));
        }
        assert forall|k: int|
            0 <= k < index.directories.len() && dir_plan(index, #[trigger] index.directories[k]).len() > 0 implies webp_free(
            index.directories[k],
        ) by {
            let dir = index.directories[k];
            let e = chosen(index, dir)[0];
            let i = lemma_plan_holds(index, n, k, 0);
            assert(dir_plan(index, dir)[0] == placed(dir, e));
            assert(webp_free(repair_plan(index)[i].path));
            lemma_webp_free_push(dir, file_name_of(e.path));
        }
    }
}

/// The payload of every page of a rebuilt archive is the bytes of the old
/// archive at the range that the plan records for it.
pub proof fn lemma_payload_fidelity(plan: Seq<SourceEntryView>, source: Seq<u8>, mtime: u64, i: int)
    requires
        packed(plan, source, mtime) is Ok,
        0 <= i < plan.len(),
    ensures
        plan[i].offset + plan[i].len <= source.len(),
        resolved(plan, source, mtime).len() == plan.len(),
        resolved(plan, source, mtime)[i].target == plan[i].path,
        resolved(plan, source, mtime)[i].data == source.subrange(plan[i].offset as int, plan[i].offset + plan[i].len),
{
}

/// What is rebuilt from an archive depends on the time of the run only in
/// the time that is stamped on the pages: the same pages come in the same
/// order, each with the same payload, and within one run all bear one time.
pub proof fn lemma_pages_differ_only_in_time(plan: Seq<SourceEntryView>, source: Seq<u8>, first: u64, second: u64, i: int)
    requires
        0 <= i < plan.len(),
    ensures
        resolved(plan, source, first).len() == resolved(plan, source, second).len(),
        resolved(plan, source, first)[i].target == resolved(plan, source, second)[i].target,
        resolved(plan, source, first)[i].data == resolved(plan, source, second)[i].data,
        resolved(plan, source, first)[i].mtime == first,
        resolved(plan, source, second)[i].mtime == second,
        all_in_range(plan, source) ==> (packed(plan, source, first) is Ok <==> encoded(resolved(plan, source, first)) is Some),
{
}

/// Lists what the rebuilt archive holds: for each directory marker of the
/// index, in order, the merged files of that directory.
pub fn plan_repair(index: &ArchiveIndex) -> (r: Vec<SourceEntry>)
    ensures
        entry_views(r@) == repair_plan(index@),
{
    let directories = index.directories();
    let webp_dir = webp();
    let mut plan: Vec<SourceEntry> = Vec::new();
    let mut n: usize = 0;
    while n < directories.len()
        invariant
            n <= directories.len(),
            path_views(directories@) == index@.directories,
            webp_dir@ == webp_name(),
            entry_views(plan@) == plan_upto(index@, n as int),
        decreases directories.len() - n,
    {
        let dir = &directories[n];
        assert(dir@ == index@.directories[n as int]);
        let ghost before = entry_views(plan@);
        if !dir.is_webp_dir() {
            if let Some(files) = index.files_in(dir) {
                let below = dir.child(&webp_dir);
                let none: Vec<SourceEntry> = Vec::new();
                assert(entry_views(none@) =~= Seq::<SourceEntryView>::empty());
                let chosen = match index.files_in(&below) {
                    Some(found) => merge(files, found),
                    None => merge(files, &none),
                };
                assert(entry_views(chosen@) == merged(index@.listings[dir@], variants(index@, dir@)));
                let mut i: usize = 0;
                while i < chosen.len()
                    invariant
                        i <= chosen.len(),
                        entry_views(plan@) == before + placed_all(dir@, entry_views(chosen@)).take(i as int),
                    decreases chosen.len() - i,
                {
                    let ghost done = entry_views(plan@);
                    let e = &chosen[i];
                    let name = e.file_name();
                    let put = SourceEntry { path: dir.child(&name), offset: e.offset, len: e.len };
                    assert(put@ == placed(dir@, e@));
                    plan.push(put);
                    assert(entry_views(plan@) =~= done.push(put@));
                    assert(placed_all(dir@, entry_views(chosen@)).take(i + 1)
                        =~= placed_all(dir@, entry_views(chosen@)).take(i as int).push(put@));
                    assert(before + placed_all(dir@, entry_views(chosen@)).take(i as int).push(put@)
                        =~= (before + placed_all(dir@, entry_views(chosen@)).take(i as int)).push(put@));
                    i += 1;
                }
                assert(placed_all(dir@, entry_views(chosen@)).take(i as int) =~= placed_all(dir@, entry_views(chosen@)));
            }
        }
        assert(entry_views(plan@) =~= before + dir_plan(index@, dir@));
        n += 1;
    }
    plan
}

/// Takes the payload of each entry of `plan` out of `source`.
pub fn resolve<'a>(plan: &Vec<SourceEntry>, source: &'a [u8], mtime: u64) -> (r: Result<Vec<Page<'a>>, ArchiveError>)
    ensures
        r is Ok <==> all_in_range(entry_views(plan@), source@),
        r is Ok ==> page_views(r->Ok_0@) == resolved(entry_views(plan@), source@, mtime),
        r is Err ==> r->Err_0 == ArchiveError::Unreadable,
{
    let ghost pv = entry_views(plan@);
    let mut pages: Vec<Page<'a>> = Vec::new();
    let mut i: usize = 0;
    while i < plan.len()
        invariant
            i <= plan.len(),
            pv == entry_views(plan@),
            all_in_range(pv.take(i as int), source@),
            page_views(pages@) == resolved(pv, source@, mtime).take(i as int),
        decreases plan.len() - i,
    {
        let e = &plan[i];
        assert(pv[i as int] == e@);
        match e.read(source) {
            Some(data) => {
                let ghost done = page_views(pages@);
                let page = Page { target: e.path.duplicate(), data, mtime };
                pages.push(page);
                assert(page_views(pages@) =~= done.push(page@));
                assert(resolved(pv, source@, mtime).take(i + 1) =~= resolved(pv, source@, mtime).take(i as int).push(page@));
                assert forall|j: int| 0 <= j < i + 1 implies in_range(#[trigger] pv.take(i + 1)[j], source@.len()) by {
                    if j < i {
                        assert(pv.take(i as int)[j] == pv.take(i + 1)[j]);
                    }
                }
            },
            None => {
                return Err(ArchiveError::Unreadable);
            },
        }
        i += 1;
    }
    assert(pv.take(i as int) =~= pv);
    assert(resolved(pv, source@, mtime).take(i as int) =~= resolved(pv, source@, mtime));
    Ok(pages)
}

/// Writes what `plan` takes from `source` into a new archive.
pub fn pack_plan(plan: &Vec<SourceEntry>, source: &[u8], mtime: u64) -> (r: Result<Vec<u8>, ArchiveError>)
    ensures
        r is Ok ==> packed(entry_views(plan@), source@, mtime) == Ok::<Seq<u8>, ArchiveError>(r->Ok_0@),
        r is Err ==> packed(entry_views(plan@), source@, mtime) == Err::<Seq<u8>, ArchiveError>(r->Err_0),
{
    match resolve(plan, source, mtime) {
        Ok(pages) => encode(&pages),
        Err(e) => Err(e),
    }
}

/// Rebuilds the archive that holds `source`. The entry table is read and
/// indexed, each directory's files are merged with their `webp` variants, and
/// the chosen payloads are copied from `source` into a new archive in which
/// every entry carries `mtime`.
pub fn repair(source: &[u8], mtime: u64) -> (r: Result<Vec<u8>, ArchiveError>)
    ensures
        r is Ok ==> repaired(source@, mtime) == Ok::<Seq<u8>, ArchiveError>(r->Ok_0@),
        r is Err ==> repaired(source@, mtime) == Err::<Seq<u8>, ArchiveError>(r->Err_0),
{
    match read_entry_kinds(source) {
        Ok(kinds) => {
            if !all_plain(&kinds) {
                return Err(ArchiveError::MalformedArchive);
            }
        },
        Err(_) => {
            return Err(ArchiveError::MalformedArchive);
        },
    }
    let members = match read_entry_table(source) {
        Ok(members) => members,
        Err(_) => {
            return Err(ArchiveError::MalformedArchive);
        },
    };
    let index = match ArchiveIndex::build(&members) {
        Ok(index) => index,
        Err(e) => {
            return Err(e);
        },
    };
    let plan = plan_repair(&index);
    pack_plan(&plan, source, mtime)
}

} // verus!

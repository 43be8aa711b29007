//! The merge policy: a page gives way to the file of the same stem in its
//! directory's `webp` subdirectory, and to nothing else.

use vstd::prelude::*;
use crate::name::{names_view, file_stem, stem_of};
use crate::path::file_name_of;
use crate::entry::{SourceEntry, SourceEntryView, entry_views, entry_names};
use crate::table::{slots, table_new, table_insert, table_get};

verus! {

/// The place in `webp` of the file that overrides pages of the given stem:
/// the last one whose own stem is `stem`, or `None` where there is none.
pub open spec fn override_for(webp: Seq<Seq<u8>>, stem: Seq<u8>) -> Option<usize>
    decreases webp.len(),
{
    if webp.len() == 0 {
        None
    } else if file_stem(webp.last()) == stem {
        Some((webp.len() - 1) as usize)
    } else {
        override_for(webp.drop_last(), stem)
    }
}

/// For each name in `primary`, the place in `webp` of the file that takes its
/// place, or `None` where the page itself stays.
pub open spec fn selection(primary: Seq<Seq<u8>>, webp: Seq<Seq<u8>>) -> Seq<Option<usize>> {
    Seq::new(primary.len(), |i: int| override_for(webp, file_stem(primary[i])))
}

/// The entries that go into the archive for a directory that holds `primary`
/// and whose `webp` subdirectory holds `webp`: one for each entry of
/// `primary`, in that order, each replaced by its override where it has one.
pub open spec fn merged(primary: Seq<SourceEntryView>, webp: Seq<SourceEntryView>) -> Seq<SourceEntryView> {
    Seq::new(
        primary.len(),
        |i: int|
            match override_for(entry_names(webp), file_stem(file_name_of(primary[i].path))) {
                Some(j) => webp[j as int],
                None => primary[i],
            },
    )
}

/// An override lies within `webp` and has the stem that was asked for.
pub proof fn lemma_override_for(webp: Seq<Seq<u8>>, stem: Seq<u8>)
    requires
        webp.len() <= usize::MAX,
    ensures
        override_for(webp, stem) matches Some(j) ==> j < webp.len() && file_stem(webp[j as int]) == stem,
        override_for(webp, stem) is None ==> forall|j: int| 0 <= j < webp.len() ==> file_stem(#[trigger] webp[j]) != stem,
    decreases webp.len(),
{
    if webp.len() != 0 && file_stem(webp.last()) != stem {
        let front = webp.drop_last();
        lemma_override_for(front, stem);
        if override_for(webp, stem) is None {
            assert forall|j: int| 0 <= j < webp.len() implies file_stem(#[trigger] webp[j]) != stem by {
                if j < front.len() {
                    assert(front[j] == webp[j]);
                }
            }
        }
    }
}

/// The merge yields one entry for each primary entry. Where `webp` holds a
/// file of the same stem, that entry is a file of `webp` with that stem;
/// where it holds none, the entry is the primary entry itself.
pub proof fn lemma_merged_choice(primary: Seq<SourceEntryView>, webp: Seq<SourceEntryView>, i: int)
    requires
        0 <= i < primary.len(),
        webp.len() <= usize::MAX,
    ensures
        merged(primary, webp).len() == primary.len(),
        (exists|j: int| 0 <= j < webp.len() && file_stem(file_name_of(#[trigger] webp[j].path)) == file_stem(file_name_of(primary[i].path)))
            ==> (exists|j: int| 0 <= j < webp.len() && merged(primary, webp)[i] == #[trigger] webp[j]
                && file_stem(file_name_of(webp[j].path)) == file_stem(file_name_of(primary[i].path))),
        (forall|j: int| 0 <= j < webp.len() ==> file_stem(file_name_of(#[trigger] webp[j].path)) != file_stem(file_name_of(primary[i].path)))
            ==> merged(primary, webp)[i] == primary[i],
{
    let names = entry_names(webp);
    let stem = file_stem(file_name_of(primary[i].path));
    lemma_override_for(names, stem);
    match override_for(names, stem) {
        Some(j) => {
            assert(names[j as int] == file_name_of(webp[j as int].path));
            assert(merged(primary, webp)[i] == webp[j as int]);
        },
        None => {
            assert forall|j: int| 0 <= j < webp.len() implies file_stem(file_name_of(#[trigger] webp[j].path)) != stem by {
                assert(names[j] == file_name_of(webp[j].path));
            }
        },
    }
}

/// Decides, for each name in `primary`, which file of `webp` takes its place.
pub fn select(primary: &Vec<Vec<u8>>, webp: &Vec<Vec<u8>>) -> (r: Vec<Option<usize>>)
    ensures
        r@ == selection(names_view(*primary), names_view(*webp)),
{
    let ghost pv = names_view(*primary);
    let ghost wv = names_view(*webp);
    let mut table = table_new();
    let mut j: usize = 0;
    while j < webp.len()
        invariant
            j <= webp.len(),
            wv == names_view(*webp),
            forall|s: Seq<u8>|
                #![trigger override_for(wv.take(j as int), s)]
                match override_for(wv.take(j as int), s) {
                    Some(at) => slots(table).contains_key(seq![s]) && slots(table)[seq![s]] == at,
                    None => !slots(table).contains_key(seq![s]),
                },
        decreases webp.len() - j,
    {
        let stem = stem_of(&webp[j]);
        let ghost before = slots(table);
        let mut key: Vec<Vec<u8>> = Vec::new();
        key.push(stem);
        assert(names_view(key) =~= seq![file_stem(wv[j as int])]);
        table_insert(&mut table, key, j);
        assert forall|s: Seq<u8>|
            #![trigger override_for(wv.take(j + 1), s)]
            match override_for(wv.take(j + 1), s) {
                Some(at) => slots(table).contains_key(seq![s]) && slots(table)[seq![s]] == at,
                None => !slots(table).contains_key(seq![s]),
            } by {
            let upto = wv.take(j + 1);
            assert(upto.drop_last() =~= wv.take(j as int));
            assert(upto.last() == wv[j as int]);
            if file_stem(wv[j as int]) != s {
                assert(seq![s][0] == s);
                assert(seq![file_stem(wv[j as int])][0] == file_stem(wv[j as int]));
                assert(seq![s] != seq![file_stem(wv[j as int])]);
                let _ = override_for(wv.take(j as int), s);
            }
        }
        j += 1;
    }
    assert(wv.take(j as int) =~= wv);
    let mut out: Vec<Option<usize>> = Vec::new();
    let mut i: usize = 0;
    while i < primary.len()
        invariant
            i <= primary.len(),
            pv == names_view(*primary),
            wv == names_view(*webp),
            forall|s: Seq<u8>|
                #![trigger override_for(wv, s)]
                match override_for(wv, s) {
                    Some(at) => slots(table).contains_key(seq![s]) && slots(table)[seq![s]] == at,
                    None => !slots(table).contains_key(seq![s]),
                },
            out@ == selection(pv, wv).take(i as int),
        decreases primary.len() - i,
    {
        let stem = stem_of(&primary[i]);
        let mut key: Vec<Vec<u8>> = Vec::new();
        key.push(stem);
        assert(names_view(key) =~= seq![file_stem(pv[i as int])]);
        let found = table_get(&table, &key);
        let ghost want = override_for(wv, file_stem(pv[i as int]));
        assert(found == want);
        out.push(found);
        assert(out@ =~= selection(pv, wv).take(i + 1));
        i += 1;
    }
    assert(selection(pv, wv).take(i as int) =~= selection(pv, wv));
    out
}

/// The file names of `entries`.
pub fn names_of(entries: &Vec<SourceEntry>) -> (r: Vec<Vec<u8>>)
    ensures
        names_view(r) == entry_names(entry_views(entries@)),
{
    let mut names: Vec<Vec<u8>> = Vec::new();
    let mut i: usize = 0;
    while i < entries.len()
        invariant
            i <= entries.len(),
            names_view(names) == entry_names(entry_views(entries@)).take(i as int),
        decreases entries.len() - i,
    {
        let ghost done = names_view(names);
        let name = entries[i].file_name();
        let ghost shown = name@;
        names.push(name);
        assert(names_view(names) =~= done.push(shown));
        assert(entry_names(entry_views(entries@)).take(i + 1)
            =~= entry_names(entry_views(entries@)).take(i as int).push(shown));
        i += 1;
    }
    assert(entry_names(entry_views(entries@)).take(i as int) =~= entry_names(entry_views(entries@)));
    names
}

/// Merges the files of a directory with those of its `webp` subdirectory:
/// each entry of `primary`, in order, or the entry of `webp` that overrides it.
pub fn merge(primary: &Vec<SourceEntry>, webp: &Vec<SourceEntry>) -> (r: Vec<SourceEntry>)
    ensures
        entry_views(r@) == merged(entry_views(primary@), entry_views(webp@)),
{
    let ghost pv = entry_views(primary@);
    let ghost wv = entry_views(webp@);
    let primary_names = names_of(primary);
    let webp_names = names_of(webp);
    let picks = select(&primary_names, &webp_names);
    let count = webp.len();
    let mut out: Vec<SourceEntry> = Vec::new();
    let mut i: usize = 0;
    while i < primary.len()
        invariant
            i <= primary.len(),
            webp@.len() == count,
            pv == entry_views(primary@),
            wv == entry_views(webp@),
            picks@ == selection(entry_names(pv), entry_names(wv)),
            entry_views(out@) == merged(pv, wv).take(i as int),
        decreases primary.len() - i,
    {
        assert(picks@[i as int] == override_for(entry_names(wv), file_stem(entry_names(pv)[i as int])));
        assert(entry_names(pv)[i as int] == file_name_of(pv[i as int].path));
        assert(entry_names(wv).len() == webp@.len());
        let ghost done = entry_views(out@);
        let copy = match picks[i] {
            Some(j) => {
                proof {
                    lemma_override_for(entry_names(wv), file_stem(entry_names(pv)[i as int]));
                }
                webp[j].duplicate()
            },
            None => primary[i].duplicate(),
        };
        assert(copy@ == merged(pv, wv)[i as int]);
        out.push(copy);
        assert(entry_views(out@) =~= done.push(copy@));
        assert(merged(pv, wv).take(i + 1) =~= merged(pv, wv).take(i as int).push(copy@));
        i += 1;
    }
    assert(merged(pv, wv).take(i as int) =~= merged(pv, wv));
    out
}

} // verus!

//! Packing a directory tree: which files of the tree go into the archive,
//! from where, and under which path.

use vstd::prelude::*;
use crate::error::ArchiveError;
use crate::name::{names_view, file_stem, same_name, copy_name};
use crate::path::{ArchivePath, webp_name, webp, path_order, webp_free, lemma_path_order_total_preorder};
use crate::sorting::{sorted_order, arranged, path_views, sort_order, lemma_sorted_order_in_range, lemma_sorted_order_sorts};
use crate::repair::lemma_webp_free_push;
use crate::merge::{override_for, selection, select, lemma_override_for};
use crate::pack::{Page, PageView, page_views, encoded, encode};

verus! {

/// What one directory holds, by name: its files and its subdirectories.
#[derive(Debug, PartialEq, Eq)]
pub struct DirectoryLevel {
    pub files: Vec<Vec<u8>>,
    pub dirs: Vec<Vec<u8>>,
}

/// What becomes of one directory level.
#[derive(Clone, Copy, Debug, PartialEq, Eq, Structural)]
pub enum Disposition {
    /// The level holds nothing and adds nothing.
    Empty,
    /// The only subdirectory is `webp`: its files are merged with the
    /// level's own, and nothing below is visited.
    MergedWebpLeaf,
    /// The level's files go in as they are and every subdirectory is visited.
    RecurseIntoChildren,
}

/// The disposition of a level with `files` files and the subdirectories `dirs`.
pub open spec fn disposition_of(files: nat, dirs: Seq<Seq<u8>>) -> Disposition {
    if files == 0 && dirs.len() == 0 {
        Disposition::Empty
    } else if dirs.len() == 1 && dirs[0] == webp_name() {
        Disposition::MergedWebpLeaf
    } else {
        Disposition::RecurseIntoChildren
    }
}

/// Decides what becomes of a directory level.
pub fn classify_level(level: &DirectoryLevel) -> (r: Disposition)
    ensures
        r == disposition_of(level.files@.len(), names_view(level.dirs)),
{
    if level.files.len() == 0 && level.dirs.len() == 0 {
        Disposition::Empty
    } else if level.dirs.len() == 1 {
        let name = webp();
        if same_name(&level.dirs[0], &name) {
            Disposition::MergedWebpLeaf
        } else {
            Disposition::RecurseIntoChildren
        }
    } else {
        Disposition::RecurseIntoChildren
    }
}

/// A directory with all that lies below it, by name.
#[derive(Debug, PartialEq, Eq)]
pub struct DirTree {
    pub name: Vec<u8>,
    pub files: Vec<Vec<u8>>,
    pub dirs: Vec<DirTree>,
}

/// A file that is to go into the archive: where it is read from, as a path
/// from the directory that holds the tree's root, and where it goes in the
/// archive.
#[derive(Debug, PartialEq, Eq)]
pub struct PlannedFile {
    pub source: ArchivePath,
    pub target: ArchivePath,
}

/// A [`PlannedFile`] as a mathematical value.
pub struct PlannedFileView {
    pub source: Seq<Seq<u8>>,
    pub target: Seq<Seq<u8>>,
}

impl View for PlannedFile {
    type V = PlannedFileView;

    open spec fn view(&self) -> PlannedFileView {
        PlannedFileView { source: self.source@, target: self.target@ }
    }
}

/// The views of a list of planned files.
pub open spec fn planned_views(plan: Seq<PlannedFile>) -> Seq<PlannedFileView> {
    plan.map_values(|p: PlannedFile| p@)
}

/// The names of a list of directories.
pub open spec fn dir_names(dirs: Seq<DirTree>) -> Seq<Seq<u8>> {
    dirs.map_values(|d: DirTree| d.name@)
}

/// The paths of `names` under `here`.
pub open spec fn paths_under(here: Seq<Seq<u8>>, names: Seq<Seq<u8>>) -> Seq<Seq<Seq<u8>>> {
    names.map_values(|n: Seq<u8>| here.push(n))
}

/// The order in which the names of one level are taken: ascending by path.
pub open spec fn level_order(here: Seq<Seq<u8>>, names: Seq<Seq<u8>>) -> Seq<usize> {
    sorted_order(path_order(), paths_under(here, names))
}

/// The names of one level in the order in which they are taken.
pub open spec fn in_level_order(here: Seq<Seq<u8>>, names: Seq<Seq<u8>>) -> Seq<Seq<u8>> {
    arranged(names, level_order(here, names))
}

/// Whether the only subdirectory of `tree` is `webp`.
pub open spec fn is_webp_leaf(tree: DirTree) -> bool {
    tree.dirs@.len() == 1 && tree.dirs@[0].name@ == webp_name()
}

/// A file of `here` that goes in as it is.
pub open spec fn kept(here: Seq<Seq<u8>>, name: Seq<u8>) -> PlannedFileView {
    PlannedFileView { source: here.push(name), target: here.push(name) }
}

/// A file of `here`'s `webp` subdirectory that goes in, under `here` itself.
pub open spec fn lifted(here: Seq<Seq<u8>>, name: Seq<u8>) -> PlannedFileView {
    PlannedFileView { source: here.push(webp_name()).push(name), target: here.push(name) }
}

/// The plan for a level that goes in as it is: its files, in order.
pub open spec fn own_plan(here: Seq<Seq<u8>>, files: Seq<Seq<u8>>) -> Seq<PlannedFileView> {
    files.map_values(|n: Seq<u8>| kept(here, n))
}

/// The plan for a level whose only subdirectory is `webp`: one file for each
/// of the level's own, in order, taken from `webp` where a file of the same
/// stem is there.
pub open spec fn leaf_plan(here: Seq<Seq<u8>>, files: Seq<Seq<u8>>, webp: Seq<Seq<u8>>) -> Seq<PlannedFileView> {
    Seq::new(
        files.len(),
        |i: int|
            match override_for(webp, file_stem(files[i])) {
                Some(j) => lifted(here, webp[j as int]),
                None => kept(here, files[i]),
            },
    )
}

/// The plan for `tree`, which lies under `above`.
pub open spec fn tree_plan(tree: DirTree, above: Seq<Seq<u8>>) -> Seq<PlannedFileView>
    decreases tree, tree.dirs@.len() + 1,
{
    let here = above.push(tree.name@);
    let files = in_level_order(here, names_view(tree.files));
    if is_webp_leaf(tree) {
        leaf_plan(here, files, in_level_order(here.push(webp_name()), names_view(tree.dirs@[0].files)))
    } else {
        own_plan(here, files) + forest_plan(tree, level_order(here, dir_names(tree.dirs@)), tree.dirs@.len() as int, here)
    }
}

/// The plans of the first `n` subdirectories of `tree` in the given order.
pub open spec fn forest_plan(tree: DirTree, order: Seq<usize>, n: int, here: Seq<Seq<u8>>) -> Seq<PlannedFileView>
    decreases tree, n,
{
    if n <= 0 || n > order.len() {
        Seq::empty()
    } else {
        let j = order[n - 1] as int;
        forest_plan(tree, order, n - 1, here) + if j < tree.dirs@.len() {
            tree_plan(tree.dirs@[j], here)
        } else {
            Seq::empty()
        }
    }
}

/// A tree's root is a `webp` leaf just where its level is one to merge.
pub proof fn lemma_leaf_disposition(tree: DirTree)
    ensures
        is_webp_leaf(tree) <==> disposition_of(tree.files@.len(), dir_names(tree.dirs@)) == Disposition::MergedWebpLeaf,
{
}

/// Whether `tree` holds no file at any level.
pub open spec fn no_files(tree: DirTree) -> bool
    decreases tree,
{
    tree.files@.len() == 0 && forall|i: int| 0 <= i < tree.dirs@.len() ==> no_files(#[trigger] tree.dirs@[i])
}

/// The name under which the `i`-th file of a level goes in, where the
/// level's only subdirectory is `webp` and holds `variants`.
pub open spec fn leaf_choice(files: Seq<Seq<u8>>, variants: Seq<Seq<u8>>, i: int) -> Seq<u8> {
    match override_for(variants, file_stem(files[i])) {
        Some(j) => variants[j as int],
        None => files[i],
    }
}

/// Whether the name `webp` is kept out of what is planned for `tree`, which
/// lies under `above`: wherever a directory gives a file, the directory's
/// path does not hold the name, and the file does not go in under it.
/// Directories that give no file may bear any name.
pub open spec fn keeps_webp_out(tree: DirTree, above: Seq<Seq<u8>>) -> bool
    decreases tree,
{
    let here = above.push(tree.name@);
    let files = in_level_order(here, names_view(tree.files));
    if is_webp_leaf(tree) {
        let variants = in_level_order(here.push(webp_name()), names_view(tree.dirs@[0].files));
        &&& files.len() > 0 ==> webp_free(here)
        &&& forall|i: int| 0 <= i < files.len() ==> #[trigger] leaf_choice(files, variants, i) != webp_name()
    } else {
        &&& files.len() > 0 ==> webp_free(here)
        &&& webp_free(files)
        &&& forall|i: int| 0 <= i < tree.dirs@.len() ==> keeps_webp_out(#[trigger] tree.dirs@[i], here)
    }
}

/// Whether no file of the plan for `tree` goes to a path that holds `webp`.
pub open spec fn plan_webp_free(tree: DirTree, above: Seq<Seq<u8>>) -> bool {
    forall|i: int| 0 <= i < tree_plan(tree, above).len() ==> webp_free(#[trigger] tree_plan(tree, above)[i].target)
}

/// The names of a level in the order in which they are taken are the names
/// of the level, each in some place.
pub proof fn lemma_in_level_order(here: Seq<Seq<u8>>, names: Seq<Seq<u8>>)
    requires
        names.len() <= usize::MAX,
    ensures
        in_level_order(here, names).len() == names.len(),
        level_order(here, names).len() == names.len(),
        forall|i: int| 0 <= i < names.len() ==> (#[trigger] level_order(here, names)[i]) < names.len(),
        webp_free(names) ==> webp_free(in_level_order(here, names)),
{
    lemma_sorted_order_in_range(path_order(), paths_under(here, names));
    if webp_free(names) {
        assert forall|i: int| 0 <= i < names.len() implies #[trigger] in_level_order(here, names)[i] != webp_name() by {
            let j = level_order(here, names)[i];
            assert(in_level_order(here, names)[i] == names[j as int]);
        }
    }
}

/// A tree without files adds nothing to an archive.
pub proof fn lemma_empty_tree_plans_nothing(tree: DirTree, above: Seq<Seq<u8>>)
    requires
        no_files(tree),
    ensures
        tree_plan(tree, above).len() == 0,
    decreases tree, tree.dirs@.len() + 1,
{
    let here = above.push(tree.name@);
    lemma_in_level_order(here, names_view(tree.files));
    if !is_webp_leaf(tree) {
        lemma_empty_forest_plans_nothing(tree, level_order(here, dir_names(tree.dirs@)), tree.dirs@.len() as int, here);
    }
}

/// The subdirectories of a tree without files add nothing to an archive.
pub proof fn lemma_empty_forest_plans_nothing(tree: DirTree, order: Seq<usize>, n: int, here: Seq<Seq<u8>>)
    requires
        no_files(tree),
    ensures
        forest_plan(tree, order, n, here).len() == 0,
    decreases tree, n,
{
    if !(n <= 0 || n > order.len()) {
        lemma_empty_forest_plans_nothing(tree, order, n - 1, here);
        let j = order[n - 1] as int;
        if j < tree.dirs@.len() {
            lemma_empty_tree_plans_nothing(tree.dirs@[j], here);
        }
    }
}

/// Where `webp` is kept out of what is planned for `tree`, no file of the
/// plan goes to a path that holds the name `webp`.
pub proof fn lemma_tree_plan_drops_webp(tree: DirTree, above: Seq<Seq<u8>>, i: int)
    requires
        keeps_webp_out(tree, above),
        0 <= i < tree_plan(tree, above).len(),
    ensures
        webp_free(tree_plan(tree, above)[i].target),
    decreases tree, tree.dirs@.len() + 1,
{
    let here = above.push(tree.name@);
    let files = in_level_order(here, names_view(tree.files));
    if is_webp_leaf(tree) {
        let variants = in_level_order(here.push(webp_name()), names_view(tree.dirs@[0].files));
        let name = leaf_choice(files, variants, i);
        assert(tree_plan(tree, above)[i].target == here.push(name));
        lemma_webp_free_push(here, name);
    } else {
        let own = own_plan(here, files);
        if i < own.len() {
            assert(tree_plan(tree, above)[i].target == here.push(files[i]));
            lemma_webp_free_push(here, files[i]);
        } else {
            lemma_forest_plan_drops_webp(tree, level_order(here, dir_names(tree.dirs@)), tree.dirs@.len() as int, here, i - own.len());
        }
    }
}

/// The same for the subdirectories of a tree that is no `webp` leaf.
pub proof fn lemma_forest_plan_drops_webp(tree: DirTree, order: Seq<usize>, n: int, here: Seq<Seq<u8>>, i: int)
    requires
        forall|c: int| 0 <= c < tree.dirs@.len() ==> keeps_webp_out(#[trigger] tree.dirs@[c], here),
        0 <= i < forest_plan(tree, order, n, here).len(),
    ensures
        webp_free(forest_plan(tree, order, n, here)[i].target),
    decreases tree, n,
{
    let before = forest_plan(tree, order, n - 1, here);
    if i < before.len() {
        lemma_forest_plan_drops_webp(tree, order, n - 1, here, i);
    } else {
        let j = order[n - 1] as int;
        lemma_tree_plan_drops_webp(tree.dirs@[j], here, i - before.len());
    }
}

/// What is planned for a subdirectory stands in the plan of the subdirectories.
pub proof fn lemma_forest_holds(tree: DirTree, order: Seq<usize>, n: int, m: int, here: Seq<Seq<u8>>, i: int) -> (at: int)
    requires
        1 <= m <= n <= order.len(),
        order[m - 1] < tree.dirs@.len(),
        0 <= i < tree_plan(tree.dirs@[order[m - 1] as int], here).len(),
    ensures
        0 <= at < forest_plan(tree, order, n, here).len(),
        forest_plan(tree, order, n, here)[at] == tree_plan(tree.dirs@[order[m - 1] as int], here)[i],
    decreases n,
{
    if m == n {
        forest_plan(tree, order, n - 1, here).len() + i
    } else {
        lemma_forest_holds(tree, order, n - 1, m, here, i)
    }
}

/// Where no file of the plan for `tree` goes to a path that holds `webp`,
/// the name is kept out of what is planned: the condition of
/// [`lemma_tree_plan_drops_webp`] leaves out no tree of which its
/// conclusion holds.
pub proof fn lemma_webp_free_plan_keeps_out(tree: DirTree, above: Seq<Seq<u8>>)
    requires
        plan_webp_free(tree, above),
    ensures
        keeps_webp_out(tree, above),
    decreases tree,
{
    let here = above.push(tree.name@);
    let files = in_level_order(here, names_view(tree.files));
    let plan = tree_plan(tree, above);
    if is_webp_leaf(tree) {
        let variants = in_level_order(here.push(webp_name()), names_view(tree.dirs@[0].files));
        assert forall|i: int| 0 <= i < files.len() implies #[trigger] leaf_choice(files, variants, i) != webp_name() by {
            assert(plan[i].target == here.push(leaf_choice(files, variants, i)));
            lemma_webp_free_push(here, leaf_choice(files, variants, i));
        }
        if files.len() > 0 {
            assert(plan[0].target == here.push(leaf_choice(files, variants, 0)));
            lemma_webp_free_push(here, leaf_choice(files, variants, 0));
        }
    } else {
        let own = own_plan(here, files);
        let order = level_order(here, dir_names(tree.dirs@));
        let count = tree.dirs@.len() as int;
        let below = forest_plan(tree, order, count, here);
        assert forall|i: int| 0 <= i < files.len() implies #[trigger] files[i] != webp_name() by {
            assert(plan[i].target == here.push(files[i]));
            lemma_webp_free_push(here, files[i]);
        }
        if files.len() > 0 {
            assert(plan[0].target == here.push(files[0]));
            lemma_webp_free_push(here, files[0]);
        }
        assert(dir_names(tree.dirs@).len() == tree.dirs.len());
        lemma_path_order_total_preorder();
        lemma_sorted_order_sorts(path_order(), paths_under(here, dir_names(tree.dirs@)));
        assert forall|c: int| 0 <= c < tree.dirs@.len() implies keeps_webp_out(#[trigger] tree.dirs@[c], here) by {
            assert(order.contains(c as usize));
            let m = choose|m: int| 0 <= m < order.len() && order[m] == c as usize;
            let child = tree.dirs@[c];
            assert forall|i: int| 0 <= i < tree_plan(child, here).len() implies webp_free(#[trigger] tree_plan(child, here)[i].target) by {
                let at = lemma_forest_holds(tree, order, count, m + 1, here, i);
                assert(plan[own.len() + at] == below[at]);
            }
            lemma_webp_free_plan_keeps_out(child, here);
        }
    }
}

/// Copies of `names`, in ascending order of their paths under `here`.
pub fn sort_level(here: &ArchivePath, names: &Vec<Vec<u8>>) -> (r: Vec<Vec<u8>>)
    ensures
        names_view(r) == in_level_order(here@, names_view(*names)),
{
    let ghost nv = names_view(*names);
    let mut keys: Vec<ArchivePath> = Vec::new();
    let mut k: usize = 0;
    while k < names.len()
        invariant
            k <= names.len(),
            nv == names_view(*names),
            path_views(keys@) == paths_under(here@, nv).take(k as int),
        decreases names.len() - k,
    {
        let ghost done = path_views(keys@);
        let key = here.child(&names[k]);
        keys.push(key);
        assert(path_views(keys@) =~= done.push(key@));
        assert(paths_under(here@, nv).take(k + 1) =~= paths_under(here@, nv).take(k as int).push(key@));
        k += 1;
    }
    assert(paths_under(here@, nv).take(k as int) =~= paths_under(here@, nv));
    let order = sort_order(&keys);
    let mut out: Vec<Vec<u8>> = Vec::new();
    let mut i: usize = 0;
    while i < order.len()
        invariant
            i <= order.len(),
            nv == names_view(*names),
            order@.len() == names@.len(),
            forall|j: int| 0 <= j < order@.len() ==> #[trigger] order@[j] < names@.len(),
            names_view(out) == arranged(nv, order@.take(i as int)),
        decreases order.len() - i,
    {
        assert(order@[i as int] < names@.len());
        let ghost done = names_view(out);
        let copy = copy_name(&names[order[i]]);
        let ghost shown = copy@;
        out.push(copy);
        assert(names_view(out) =~= done.push(shown));
        assert(arranged(nv, order@.take(i + 1)) =~= arranged(nv, order@.take(i as int)).push(shown));
        i += 1;
    }
    assert(order@.take(i as int) =~= order@);
    out
}

/// Adds the plan for `tree`, which lies under `above`, to `plan`.
pub fn plan_into(tree: &DirTree, above: &ArchivePath, plan: &mut Vec<PlannedFile>)
    ensures
        planned_views(final(plan)@) == planned_views(old(plan)@) + tree_plan(*tree, above@),
    decreases tree,
{
    let ghost before = planned_views(plan@);
    let here = above.child(&tree.name);
    let files = sort_level(&here, &tree.files);
    let ghost fv = names_view(files);
    let webp_dir = webp();
    let leaf = tree.dirs.len() == 1 && same_name(&tree.dirs[0].name, &webp_dir);
    if leaf {
        let below = here.child(&webp_dir);
        let variants = sort_level(&below, &tree.dirs[0].files);
        let ghost wv = names_view(variants);
        let picks = select(&files, &variants);
        let count = variants.len();
        let mut i: usize = 0;
        while i < files.len()
            invariant
                i <= files.len(),
                fv == names_view(files),
                wv == names_view(variants),
                variants@.len() == count,
                below@ == here@.push(webp_name()),
                picks@ == selection(fv, wv),
                planned_views(plan@) == before + leaf_plan(here@, fv, wv).take(i as int),
            decreases files.len() - i,
        {
            let ghost done = planned_views(plan@);
            assert(picks@[i as int] == override_for(wv, file_stem(fv[i as int])));
            let put = match picks[i] {
                Some(j) => {
                    proof {
                        lemma_override_for(wv, file_stem(fv[i as int]));
                    }
                    PlannedFile { source: below.child(&variants[j]), target: here.child(&variants[j]) }
                },
                None => PlannedFile { source: here.child(&files[i]), target: here.child(&files[i]) },
            };
            assert(put@ == leaf_plan(here@, fv, wv)[i as int]);
            plan.push(put);
            assert(planned_views(plan@) =~= done.push(put@));
            assert(before + leaf_plan(here@, fv, wv).take(i + 1) =~= (before + leaf_plan(here@, fv, wv).take(i as int)).push(put@));
            i += 1;
        }
        assert(leaf_plan(here@, fv, wv).take(i as int) =~= leaf_plan(here@, fv, wv));
    } else {
        let mut i: usize = 0;
        while i < files.len()
            invariant
                i <= files.len(),
                fv == names_view(files),
                planned_views(plan@) == before + own_plan(here@, fv).take(i as int),
            decreases files.len() - i,
        {
            let ghost done = planned_views(plan@);
            let put = PlannedFile { source: here.child(&files[i]), target: here.child(&files[i]) };
            assert(put@ == own_plan(here@, fv)[i as int]);
            plan.push(put);
            assert(planned_views(plan@) =~= done.push(put@));
            assert(before + own_plan(here@, fv).take(i + 1) =~= (before + own_plan(here@, fv).take(i as int)).push(put@));
            i += 1;
        }
        assert(own_plan(here@, fv).take(i as int) =~= own_plan(here@, fv));
        let ghost mid = planned_views(plan@);
        let mut keys: Vec<ArchivePath> = Vec::new();
        let mut k: usize = 0;
        while k < tree.dirs.len()
            invariant
                k <= tree.dirs.len(),
                path_views(keys@) == paths_under(here@, dir_names(tree.dirs@)).take(k as int),
            decreases tree.dirs.len() - k,
        {
            let ghost done = path_views(keys@);
            let key = here.child(&tree.dirs[k].name);
            keys.push(key);
            assert(path_views(keys@) =~= done.push(key@));
            assert(paths_under(here@, dir_names(tree.dirs@)).take(k + 1)
                =~= paths_under(here@, dir_names(tree.dirs@)).take(k as int).push(key@));
            k += 1;
        }
        assert(paths_under(here@, dir_names(tree.dirs@)).take(k as int) =~= paths_under(here@, dir_names(tree.dirs@)));
        let order = sort_order(&keys);
        let mut n: usize = 0;
        while n < order.len()
            invariant
                n <= order.len(),
                order@ == level_order(here@, dir_names(tree.dirs@)),
                order@.len() == tree.dirs@.len(),
                forall|j: int| 0 <= j < order@.len() ==> #[trigger] order@[j] < tree.dirs@.len(),
                planned_views(plan@) == mid + forest_plan(*tree, order@, n as int, here@),
            decreases order.len() - n,
        {
            assert(order@[n as int] < tree.dirs@.len());
            let ghost done = planned_views(plan@);
            let child = &tree.dirs[order[n]];
            plan_into(child, &here, plan);
            assert(planned_views(plan@) =~= mid + forest_plan(*tree, order@, n + 1, here@));
            n += 1;
        }
        assert(planned_views(plan@) =~= before + tree_plan(*tree, above@));
    }
}

/// Lists the files of `tree` that go into the archive. The root's own name
/// is the first name of every path. At each level the files and the
/// subdirectories are taken in ascending order; where a level's only
/// subdirectory is `webp`, that level's files are merged with the files of
/// `webp` and nothing below is visited.
pub fn plan_tree(tree: &DirTree) -> (r: Vec<PlannedFile>)
    ensures
        planned_views(r@) == tree_plan(*tree, Seq::empty()),
{
    let mut plan: Vec<PlannedFile> = Vec::new();
    let root = ArchivePath { segments: Vec::new() };
    assert(root@ =~= Seq::<Seq<u8>>::empty());
    assert(planned_views(plan@) =~= Seq::<PlannedFileView>::empty());
    plan_into(tree, &root, &mut plan);
    assert(Seq::<PlannedFileView>::empty() + tree_plan(*tree, Seq::empty()) =~= tree_plan(*tree, Seq::empty()));
    plan
}

/// A file that was read for the archive.
#[derive(Debug, PartialEq, Eq)]
pub struct LoadedFile {
    pub target: ArchivePath,
    pub data: Vec<u8>,
    pub mtime: u64,
}

/// The pages that a list of loaded files stands for.
pub open spec fn loaded_pages(files: Seq<LoadedFile>) -> Seq<PageView> {
    files.map_values(|f: LoadedFile| PageView { target: f.target@, data: f.data@, mtime: f.mtime })
}

/// The archive for `files`: none at all where there is no file.
pub open spec fn built(files: Seq<LoadedFile>) -> Result<Option<Seq<u8>>, ArchiveError> {
    if files.len() == 0 {
        Ok(None)
    } else {
        match encoded(loaded_pages(files)) {
            Some(bytes) => Ok(Some(bytes)),
            None => Err(ArchiveError::Unwritable),
        }
    }
}

/// Packs `files`, in their order, into a new archive. With no file there is
/// no archive, and that is no failure.
pub fn pack_files(files: &Vec<LoadedFile>) -> (r: Result<Option<Vec<u8>>, ArchiveError>)
    ensures
        r is Err ==> built(files@) == Err::<Option<Seq<u8>>, ArchiveError>(r->Err_0),
        r is Ok ==> match r->Ok_0 {
            Some(bytes) => built(files@) == Ok::<Option<Seq<u8>>, ArchiveError>(Some(bytes@)),
            None => built(files@) == Ok::<Option<Seq<u8>>, ArchiveError>(None),
        },
{
    if files.len() == 0 {
        return Ok(None);
    }
    let mut pages: Vec<Page> = Vec::new();
    let mut i: usize = 0;
    while i < files.len()
        invariant
            i <= files.len(),
            page_views(pages@) == loaded_pages(files@).take(i as int),
        decreases files.len() - i,
    {
        let ghost done = page_views(pages@);
        let f = &files[i];
        let page = Page { target: f.target.duplicate(), data: f.data.as_slice(), mtime: f.mtime };
        pages.push(page);
        assert(page_views(pages@) =~= done.push(page@));
        assert(loaded_pages(files@).take(i + 1) =~= loaded_pages(files@).take(i as int).push(page@));
        i += 1;
    }
    assert(loaded_pages(files@).take(i as int) =~= loaded_pages(files@));
    match encode(&pages) {
        Ok(bytes) => Ok(Some(bytes)),
        Err(e) => Err(e),
    }
}

} // verus!

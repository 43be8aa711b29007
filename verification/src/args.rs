//! What the user asks for: the inputs, where the archives go, and whether
//! existing files may be overwritten.

use vstd::prelude::*;
use vstd::string::*;
use vstd::pervasive::unreached;
use crate::fspath::{fs_file_name, fs_join, fs_with_extension, file_name, join, with_extension};
use crate::item::{Item, PathKind, item_views, ItemView, classified};

verus! {

/// The arguments of one run.
#[derive(Debug)]
pub struct Args {
    /// input file paths
    pub paths: Vec<String>,
    /// output directory
    pub output: Option<String>,
    /// overwrite existing files
    pub force: bool,
}

/// What every item of one run is processed with.
#[derive(Clone, Copy, Debug)]
pub struct ProcessingContext<'a> {
    /// overwrite existing files or directories
    pub force: bool,
    /// output directory
    pub target: Option<&'a str>,
}

/// Where the archive for the input `path` goes. Without a target directory
/// it lies beside the input; with one, it lies in that directory under the
/// input's own final name. Either way its extension is set to `cbz`. With a
/// target directory, an input without a final name has no destination.
pub open spec fn destination(target: Option<Seq<char>>, path: Seq<char>) -> Option<Seq<char>> {
    match target {
        Some(dir) => match fs_file_name(path) {
            Some(name) => Some(fs_with_extension(fs_join(dir, name), "cbz"@)),
            None => None,
        },
        None => Some(fs_with_extension(path, "cbz"@)),
    }
}

/// The items among the first `n` of `paths`, each seen as `kinds` says; a
/// path without a kind counts as neither file nor directory.
pub open spec fn items_upto(paths: Seq<String>, kinds: Seq<PathKind>, n: int) -> Seq<ItemView>
    decreases n,
{
    if n <= 0 {
        Seq::empty()
    } else {
        let kind = if n - 1 < kinds.len() { kinds[n - 1] } else { PathKind::Other };
        match classified(paths[n - 1]@, kind) {
            Some(item) => items_upto(paths, kinds, n - 1).push(item),
            None => items_upto(paths, kinds, n - 1),
        }
    }
}

impl Args {
    /// The items to process: the paths that are archives or directories, in
    /// the order in which they were given. `kinds` says of each path, by its
    /// place, what was found there.
    pub fn items(&self, kinds: &Vec<PathKind>) -> (r: Vec<Item>)
        ensures
            item_views(r@) == items_upto(self.paths@, kinds@, self.paths@.len() as int),
    {
        let mut out: Vec<Item> = Vec::new();
        let mut n: usize = 0;
        assert(item_views(out@) =~= Seq::<ItemView>::empty());
        while n < self.paths.len()
            invariant
                n <= self.paths.len(),
                item_views(out@) == items_upto(self.paths@, kinds@, n as int),
            decreases self.paths.len() - n,
        {
            let kind = if n < kinds.len() { kinds[n] } else { PathKind::Other };
            let ghost done = item_views(out@);
            match Item::classify(self.paths[n].as_str(), kind) {
                Some(item) => {
                    out.push(item);
                    assert(item_views(out@) =~= done.push(item@));
                },
                None => {},
            }
            n += 1;
        }
        out
    }

    /// The context in which the items of this run are processed.
    pub fn as_processing_context(&self) -> (r: ProcessingContext<'_>)
        ensures
            r.force == self.force,
            r.target() == match self.output {
                Some(dir) => Some(dir@),
                None => None,
            },
    {
        ProcessingContext {
            force: self.force,
            target: match &self.output {
                Some(dir) => Some(dir.as_str()),
                None => None,
            },
        }
    }
}

impl<'a> ProcessingContext<'a> {
    /// The output directory, if one was given.
    pub open spec fn target(&self) -> Option<Seq<char>> {
        match self.target {
            Some(dir) => Some(dir@),
            None => None,
        }
    }

    /// Where the archive for the input `path` goes. Where a target directory
    /// is set, `path` must have a final name.
    pub fn output_path(&self, path: &str) -> (r: String)
        requires
            self.target() is Some ==> fs_file_name(path@) is Some,
        ensures
            destination(self.target(), path@) == Some(r@),
    {
        proof {
            reveal_strlit("cbz");
            assert(!"cbz"@.contains('/'));
            assert(!"cbz"@.contains('\\'));
        }
        match self.target {
            Some(target) => {
                let name = match file_name(path) {
                    Some(name) => name,
                    None => unreached(),
                };
                let inside = join(target, name.as_str());
                with_extension(inside.as_str(), "cbz")
            },
            None => with_extension(path, "cbz"),
        }
    }

    /// Where the archive for the input `path` goes, or `None` where a target
    /// directory is set and `path` has no final name.
    pub fn find_output_path(&self, path: &str) -> (r: Option<String>)
        ensures
            r is Some ==> destination(self.target(), path@) == Some(r->0@),
            r is None ==> destination(self.target(), path@) is None,
    {
        match self.target {
            Some(_) => match file_name(path) {
                Some(_) => Some(self.output_path(path)),
                None => None,
            },
            None => Some(self.output_path(path)),
        }
    }

    /// Whether an archive may be written to a destination that is or is not
    /// there already.
    pub fn guard(&self, dest_exists: bool) -> (r: Result<(), crate::error::ArchiveError>)
        ensures
            r is Err <==> dest_exists && !self.force,
            r is Err ==> r->Err_0 == crate::error::ArchiveError::DestinationExists,
    {
        if dest_exists && !self.force {
            Err(crate::error::ArchiveError::DestinationExists)
        } else {
            Ok(())
        }
    }
}

} // verus!

//! Work items: a directory to pack, or an archive to rebuild.

use vstd::prelude::*;
use vstd::string::*;
use crate::error::ArchiveError;
use crate::args::ProcessingContext;
use crate::builder::LoadedFile;
use crate::processor::{Outcome, OutcomeView, created, rebuilt, is_outcome, create_tarball, repair_tarball};

verus! {

/// What was found at a path.
#[derive(Clone, Copy, Debug, PartialEq, Eq, Structural)]
pub enum PathKind {
    /// A regular file.
    File,
    /// A directory.
    Directory,
    /// Nothing, or something else.
    Other,
}

/// A work item: an archive with the `.cbz` extension that is to be rebuilt,
/// or a directory of page images that is to be packed.
#[derive(Debug, PartialEq, Eq)]
pub enum Item {
    Directory(String),
    Tarball(String),
}

/// An [`Item`] as a mathematical value.
pub enum ItemView {
    Directory(Seq<char>),
    Tarball(Seq<char>),
}

impl View for Item {
    type V = ItemView;

    open spec fn view(&self) -> ItemView {
        match *self {
            Item::Directory(path) => ItemView::Directory(path@),
            Item::Tarball(path) => ItemView::Tarball(path@),
        }
    }
}

/// The views of a list of items.
pub open spec fn item_views(items: Seq<Item>) -> Seq<ItemView> {
    items.map_values(|i: Item| i@)
}

/// What was read for an item.
#[derive(Debug, PartialEq, Eq)]
pub enum ItemInput {
    /// The chosen files of a directory, each with what it holds.
    Files(Vec<LoadedFile>),
    /// The bytes of an archive.
    Archive(Vec<u8>),
}

/// Whether `path` ends in `.cbz`.
pub open spec fn names_archive(path: Seq<char>) -> bool {
    path.len() >= 4 && path.subrange(path.len() - 4, path.len() as int) == ".cbz"@
}

/// The item that `path` stands for: an archive where it is a file whose
/// name ends in `.cbz`, a directory where it is one, and none otherwise.
pub open spec fn classified(path: Seq<char>, kind: PathKind) -> Option<ItemView> {
    if kind == PathKind::File && names_archive(path) {
        Some(ItemView::Tarball(path))
    } else if kind == PathKind::Directory {
        Some(ItemView::Directory(path))
    } else {
        None
    }
}

/// What becomes of `item` when it is processed with what was read for it.
/// An input of the wrong kind counts as unreadable.
pub open spec fn processed(
    item: ItemView,
    target: Option<Seq<char>>,
    force: bool,
    input: ItemInput,
    mtime: u64,
    dest_exists: bool,
) -> Result<OutcomeView, ArchiveError> {
    match (item, input) {
        (ItemView::Directory(path), ItemInput::Files(files)) => created(target, force, path, files@, dest_exists),
        (ItemView::Tarball(path), ItemInput::Archive(source)) => rebuilt(target, force, path, source@, mtime, dest_exists),
        _ => Err(ArchiveError::Unreadable),
    }
}

/// How the items of one run have fared so far.
#[derive(Clone, Copy, Debug, PartialEq, Eq, Structural)]
pub struct Report {
    /// Whether any item has failed.
    pub failed: bool,
}

impl Report {
    /// The report of a run in which nothing has happened yet.
    pub fn new() -> (r: Report)
        ensures
            !r.failed,
    {
        Report { failed: false }
    }

    /// Takes note of how one item has fared. A failure is kept in mind; the
    /// run goes on with the next item all the same.
    pub fn record(&mut self, result: &Result<Outcome, ArchiveError>)
        ensures
            final(self).failed == (old(self).failed || *result is Err),
    {
        if result.is_err() {
            self.failed = true;
        }
    }

    /// The exit status of the run: zero where every item went well.
    pub fn exit_status(&self) -> (r: u8)
        ensures
            r == if self.failed { 1u8 } else { 0u8 },
    {
        if self.failed {
            1
        } else {
            0
        }
    }
}

impl Item {
    /// Whether `path` ends in `.cbz`.
    pub fn names_archive(path: &str) -> (r: bool)
        ensures
            r == names_archive(path@),
    {
        proof {
            reveal_strlit(".cbz");
        }
        let n = path.unicode_len();
        if n < 4 {
            return false;
        }
        let hit = path.get_char(n - 4) == '.' && path.get_char(n - 3) == 'c' && path.get_char(n - 2) == 'b'
            && path.get_char(n - 1) == 'z';
        proof {
            let tail = path@.subrange(n - 4, n as int);
            if hit {
                assert(tail =~= ".cbz"@);
            } else {
                assert(tail[0] == path@[n - 4] && tail[1] == path@[n - 3] && tail[2] == path@[n - 2] && tail[3] == path@[n - 1]);
            }
        }
        hit
    }

    /// The item that `path` stands for, given what was found there.
    pub fn classify(path: &str, kind: PathKind) -> (r: Option<Item>)
        ensures
            r is Some ==> classified(path@, kind) == Some(r->0@),
            r is None ==> classified(path@, kind) is None,
    {
        if kind == PathKind::File && Item::names_archive(path) {
            Some(Item::Tarball(path.to_owned()))
        } else if kind == PathKind::Directory {
            Some(Item::Directory(path.to_owned()))
        } else {
            None
        }
    }

    /// Processes this item with what was read for it: a directory is packed,
    /// an archive is rebuilt with `mtime` on every entry. `dest_exists` says
    /// whether something is there already at the item's destination.
    pub fn process(&self, context: &ProcessingContext, input: &ItemInput, mtime: u64, dest_exists: bool) -> (r: Result<Outcome, ArchiveError>)
        ensures
            is_outcome(r, processed(self@, context.target(), context.force, *input, mtime, dest_exists)),
    {
        match self {
            Item::Directory(path) => match input {
                ItemInput::Files(files) => create_tarball(context, path.as_str(), files, dest_exists),
                ItemInput::Archive(_) => Err(ArchiveError::Unreadable),
            },
            Item::Tarball(path) => match input {
                ItemInput::Archive(source) => repair_tarball(context, path.as_str(), source.as_slice(), mtime, dest_exists),
                ItemInput::Files(_) => Err(ArchiveError::Unreadable),
            },
        }
    }
}

} // verus!

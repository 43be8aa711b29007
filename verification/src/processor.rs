//! Processing one item from what was read for it to what is to be written.

use vstd::prelude::*;
use crate::error::ArchiveError;
use crate::args::{ProcessingContext, destination};
use crate::builder::{LoadedFile, built, pack_files};
use crate::repair::{repaired, repair};

verus! {

/// What is to be done once an item has been processed.
#[derive(Debug, PartialEq, Eq)]
pub enum Outcome {
    /// Nothing: the source held no file.
    Skipped,
    /// The archive `bytes` is to be written to `path`.
    Written { path: String, bytes: Vec<u8> },
}

/// An [`Outcome`] as a mathematical value.
pub enum OutcomeView {
    Skipped,
    Written { path: Seq<char>, bytes: Seq<u8> },
}

impl View for Outcome {
    type V = OutcomeView;

    open spec fn view(&self) -> OutcomeView {
        match *self {
            Outcome::Skipped => OutcomeView::Skipped,
            Outcome::Written { path, bytes } => OutcomeView::Written { path: path@, bytes: bytes@ },
        }
    }
}

/// What becomes of a finished archive for the input `path`: it is written to
/// its destination, unless the input has none, or the destination is there
/// already and overwriting was not asked for.
pub open spec fn committed(
    target: Option<Seq<char>>,
    force: bool,
    path: Seq<char>,
    dest_exists: bool,
    bytes: Seq<u8>,
) -> Result<OutcomeView, ArchiveError> {
    match destination(target, path) {
        None => Err(ArchiveError::NoDestination),
        Some(dest) => if dest_exists && !force {
            Err(ArchiveError::DestinationExists)
        } else {
            Ok(OutcomeView::Written { path: dest, bytes })
        },
    }
}

/// What becomes of the directory `path` whose chosen files are `files`.
pub open spec fn created(
    target: Option<Seq<char>>,
    force: bool,
    path: Seq<char>,
    files: Seq<LoadedFile>,
    dest_exists: bool,
) -> Result<OutcomeView, ArchiveError> {
    match built(files) {
        Err(e) => Err(e),
        Ok(None) => Ok(OutcomeView::Skipped),
        Ok(Some(bytes)) => committed(target, force, path, dest_exists, bytes),
    }
}

/// What becomes of the archive `path` that holds `source`.
pub open spec fn rebuilt(
    target: Option<Seq<char>>,
    force: bool,
    path: Seq<char>,
    source: Seq<u8>,
    mtime: u64,
    dest_exists: bool,
) -> Result<OutcomeView, ArchiveError> {
    match repaired(source, mtime) {
        Err(e) => Err(e),
        Ok(bytes) => committed(target, force, path, dest_exists, bytes),
    }
}

/// Over a destination that is there already nothing is written unless
/// overwriting was asked for: the attempt fails, and where the input has a
/// destination at all, it fails as `DestinationExists`. Where overwriting
/// was asked for, it makes no difference whether the destination is there.
pub proof fn lemma_overwrite_guard(target: Option<Seq<char>>, force: bool, path: Seq<char>, bytes: Seq<u8>)
    ensures
        !force ==> committed(target, force, path, true, bytes) is Err,
        !force && destination(target, path) is Some ==> committed(target, force, path, true, bytes)
            == Err::<OutcomeView, ArchiveError>(ArchiveError::DestinationExists),
        force ==> committed(target, force, path, true, bytes) == committed(target, force, path, false, bytes),
        destination(target, path) is Some ==> committed(target, force, path, false, bytes) is Ok,
{
}

/// Rebuilding an archive never yields anything to write over a destination
/// that is there already, unless overwriting was asked for; and what it
/// yields is the same whether or not the destination is there, where it was.
pub proof fn lemma_rebuilt_respects_guard(target: Option<Seq<char>>, force: bool, path: Seq<char>, source: Seq<u8>, mtime: u64)
    ensures
        !force ==> rebuilt(target, force, path, source, mtime, true) is Err,
        force ==> rebuilt(target, force, path, source, mtime, true) == rebuilt(target, force, path, source, mtime, false),
{
}

/// A directory without files is skipped whatever else holds: nothing is
/// written for it, and that is no failure.
pub proof fn lemma_empty_source_is_skipped(target: Option<Seq<char>>, force: bool, path: Seq<char>, dest_exists: bool)
    ensures
        created(target, force, path, Seq::empty(), dest_exists) == Ok::<OutcomeView, ArchiveError>(OutcomeView::Skipped),
{
}

/// Whether `r` is the outcome that `want` describes.
pub open spec fn is_outcome(r: Result<Outcome, ArchiveError>, want: Result<OutcomeView, ArchiveError>) -> bool {
    match r {
        Ok(outcome) => want == Ok::<OutcomeView, ArchiveError>(outcome@),
        Err(e) => want == Err::<OutcomeView, ArchiveError>(e),
    }
}

/// Decides what becomes of a finished archive for the input `path`.
/// `dest_exists` says whether something is there already at the place that
/// [`ProcessingContext::find_output_path`] gives for `path`.
pub fn commit(context: &ProcessingContext, path: &str, dest_exists: bool, bytes: Vec<u8>) -> (r: Result<Outcome, ArchiveError>)
    ensures
        is_outcome(r, committed(context.target(), context.force, path@, dest_exists, bytes@)),
{
    let dest = match context.find_output_path(path) {
        Some(dest) => dest,
        None => {
            return Err(ArchiveError::NoDestination);
        },
    };
    match context.guard(dest_exists) {
        Ok(()) => Ok(Outcome::Written { path: dest, bytes }),
        Err(e) => Err(e),
    }
}

/// Packs the chosen files of the directory `path` into an archive for its
/// destination. With no file nothing is written, and that is no failure.
pub fn create_tarball(context: &ProcessingContext, path: &str, files: &Vec<LoadedFile>, dest_exists: bool) -> (r: Result<Outcome, ArchiveError>)
    ensures
        is_outcome(r, created(context.target(), context.force, path@, files@, dest_exists)),
{
    match pack_files(files) {
        Err(e) => Err(e),
        Ok(None) => Ok(Outcome::Skipped),
        Ok(Some(bytes)) => commit(context, path, dest_exists, bytes),
    }
}

/// Rebuilds the archive `path`, which holds `source`, for its destination,
/// every entry stamped with `mtime`.
pub fn repair_tarball(context: &ProcessingContext, path: &str, source: &[u8], mtime: u64, dest_exists: bool) -> (r: Result<Outcome, ArchiveError>)
    ensures
        is_outcome(r, rebuilt(context.target(), context.force, path@, source@, mtime, dest_exists)),
{
    match repair(source, mtime) {
        Err(e) => Err(e),
        Ok(bytes) => commit(context, path, dest_exists, bytes),
    }
}

} // verus!

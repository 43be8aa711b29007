//! The tape-archive container, read and written by the `tar` crate.
//!
//! Nothing in this module is proved: each function states what the crate's
//! source shows of the call it makes, and the rest of the library is verified
//! against those statements. What the crate reads and writes is the same for
//! the same bytes wherever the program runs on one kind of system; where
//! systems part the names of a path differently, it follows the system.

use vstd::prelude::*;

verus! {

/// `std::io::Error`, as an opaque value that is only carried along.
#[verifier::external_type_specification]
#[verifier::external_body]
pub struct ExIoError(std::io::Error);

/// One member of an archive as its entry table lists it: the raw path, where
/// its payload starts in the archive's bytes, and how long it claims to be.
#[derive(Debug, PartialEq, Eq)]
pub struct Member {
    pub path: Vec<u8>,
    pub offset: u64,
    pub len: u64,
}

/// A [`Member`] as a mathematical value.
pub struct MemberView {
    pub path: Seq<u8>,
    pub offset: u64,
    pub len: u64,
}

impl View for Member {
    type V = MemberView;

    open spec fn view(&self) -> MemberView {
        MemberView { path: self.path@, offset: self.offset, len: self.len }
    }
}

/// The views of a list of members.
pub open spec fn member_views(members: Seq<Member>) -> Seq<MemberView> {
    members.map_values(|m: Member| m@)
}

/// What `tar::Archive::entries_with_seek` yields for an archive that holds
/// `source`: the members in the order in which they lie in it, or `None`
/// where the iterator reports an error at any member.
pub uninterp spec fn tar_entry_table(source: Seq<u8>) -> Option<Seq<MemberView>>;

/// What `tar::Builder::append_data` writes for one file with a blank GNU
/// header that carries the payload's length and `mtime`: the header blocks and
/// the padded payload, or `None` where the path is refused.
pub uninterp spec fn tar_member_bytes(path: Seq<u8>, data: Seq<u8>, mtime: u64) -> Option<Seq<u8>>;

/// What `tar::Archive::entries_with_seek`, set to `raw(true)`, yields for an
/// archive that holds `source`: the type byte of each header in the order in
/// which they lie in it, or `None` where the iterator reports an error.
pub uninterp spec fn tar_raw_kinds(source: Seq<u8>) -> Option<Seq<u8>>;

/// The type byte of a GNU sparse member.
pub const SPARSE: u8 = 0x53;

/// The type byte of a member that holds pax extensions for the next member.
pub const PAX_LOCAL: u8 = 0x78;

/// Whether the headers of an archive are all of kinds that the reader takes
/// as they stand: none is a sparse member, and none changes how the member
/// behind it is read.
pub open spec fn plain_kinds(kinds: Seq<u8>) -> bool {
    forall|i: int| 0 <= i < kinds.len() ==> #[trigger] kinds[i] != SPARSE && kinds[i] != PAX_LOCAL
}

/// What ends every archive: two blocks of zero bytes.
pub open spec fn trailer() -> Seq<u8> {
    Seq::new(1024, |i: int| 0u8)
}

/// An archive under construction in memory.
#[verifier::external_body]
pub struct ArchiveWriter {
    inner: tar::Builder<Vec<u8>>,
}

/// The bytes that a writer has put out so far.
pub uninterp spec fn written_bytes(writer: ArchiveWriter) -> Seq<u8>;

/// Walks `tar::Archive::entries_with_seek` with `raw(true)` over a cursor on
/// `source` and records of each header `entry_type().as_byte()`. In this mode
/// the iterator reads one header after the other and nothing else: it takes
/// no account of long names, pax extensions or sparse members. The position
/// of the next header is computed with checked additions; the one step
/// without a check moves past a header that was just read in full, and so
/// stays within the length of `source`.
#[verifier::external_body]
pub(crate) fn read_entry_kinds(source: &[u8]) -> (r: Result<Vec<u8>, std::io::Error>)
    ensures
        r is Ok ==> tar_raw_kinds(source@) == Some(r->Ok_0@),
        r is Err ==> tar_raw_kinds(source@) is None,
{
    let mut archive = tar::Archive::new(std::io::Cursor::new(source));
    let mut kinds = Vec::new();
    for entry in archive.entries_with_seek()?.raw(true) {
        kinds.push(entry?.header().entry_type().as_byte());
    }
    Ok(kinds)
}

/// Walks `tar::Archive::entries_with_seek` over a cursor on `source` and
/// records of each entry `path_bytes` (the bytes that `path` makes a path
/// of), `raw_file_position` and `size`. The result is the named table; an
/// error of the iterator, at its start or at any entry, is handed on. That a
/// payload lies within `source` is not claimed: the iterator seeks past a
/// payload without reading it.
///
/// While it handles a sparse member the iterator moves its position on
/// without a check, and that can overflow; so the archive must hold none.
/// Nor may it hold pax extensions, which change the size by which the
/// iterator skips the next member: without them it meets the very headers
/// that the raw walk lists.
#[verifier::external_body]
pub(crate) fn read_entry_table(source: &[u8]) -> (r: Result<Vec<Member>, std::io::Error>)
    requires
        tar_raw_kinds(source@) is Some,
        plain_kinds(tar_raw_kinds(source@)->0),
    ensures
        r is Ok ==> tar_entry_table(source@) == Some(member_views(r->Ok_0@)),
        r is Err ==> tar_entry_table(source@) is None,
{
    let mut archive = tar::Archive::new(std::io::Cursor::new(source));
    let mut table = Vec::new();
    for entry in archive.entries_with_seek()? {
        let entry = entry?;
        table.push(Member {
            path: entry.path_bytes().into_owned(),
            offset: entry.raw_file_position(),
            len: entry.size(),
        });
    }
    Ok(table)
}

/// `tar::Builder::new` over an empty vector: nothing is written yet.
#[verifier::external_body]
pub(crate) fn writer_new() -> (w: ArchiveWriter)
    ensures
        written_bytes(w) == Seq::<u8>::empty(),
{
    ArchiveWriter { inner: tar::Builder::new(Vec::new()) }
}

/// `tar::Builder::append_data` with a header from `tar::Header::new_gnu` on
/// which `set_size` and `set_mtime` were called. On success the writer has
/// grown by the named bytes. A path that is not UTF-8 is refused here, before
/// the call; of the writer after a refusal nothing is claimed.
#[verifier::external_body]
pub(crate) fn writer_append(w: &mut ArchiveWriter, path: &Vec<u8>, data: &[u8], mtime: u64) -> (r: Result<(), std::io::Error>)
    ensures
        r is Ok <==> tar_member_bytes(path@, data@, mtime) is Some,
        r is Ok ==> written_bytes(*final(w)) == written_bytes(*old(w)) + tar_member_bytes(path@, data@, mtime)->0,
{
    let text = match std::str::from_utf8(path) {
        Ok(text) => text,
        Err(e) => return Err(std::io::Error::new(std::io::ErrorKind::InvalidData, e)),
    };
    let mut header = tar::Header::new_gnu();
    header.set_size(data.len() as u64);
    header.set_mtime(mtime);
    w.inner.append_data(&mut header, text, data)
}

/// `tar::Builder::into_inner`: it writes the trailer behind what was written
/// and hands the vector out. The one thing that could fail in it is the
/// write of those 1024 bytes, and a write to a vector appends and does not
/// fail.
#[verifier::external_body]
pub(crate) fn writer_finish(w: ArchiveWriter) -> (r: Result<Vec<u8>, std::io::Error>)
    ensures
        r is Ok,
        r->Ok_0@ == written_bytes(w) + trailer(),
{
    w.inner.into_inner()
}

} // verus!

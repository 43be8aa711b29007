//! Writing pages into a new archive.

use vstd::prelude::*;
use crate::error::ArchiveError;
use crate::path::{ArchivePath, joined};
use crate::tarball::{tar_member_bytes, trailer, written_bytes, writer_new, writer_append, writer_finish};

verus! {

/// A file that goes into a new archive: where it goes, what it holds, and the
/// modification time to record for it.
#[derive(Debug, PartialEq, Eq)]
pub struct Page<'a> {
    pub target: ArchivePath,
    pub data: &'a [u8],
    pub mtime: u64,
}

/// A [`Page`] as a mathematical value.
pub struct PageView {
    pub target: Seq<Seq<u8>>,
    pub data: Seq<u8>,
    pub mtime: u64,
}

impl<'a> View for Page<'a> {
    type V = PageView;

    open spec fn view(&self) -> PageView {
        PageView { target: self.target@, data: self.data@, mtime: self.mtime }
    }
}

/// The views of a list of pages.
pub open spec fn page_views(pages: Seq<Page>) -> Seq<PageView> {
    pages.map_values(|p: Page| p@)
}

/// What the archive writer puts out for one page, or `None` where it refuses
/// the page's path.
pub open spec fn page_bytes(page: PageView) -> Option<Seq<u8>> {
    tar_member_bytes(joined(page.target), page.data, page.mtime)
}

/// What the archive writer has put out after the first `n` of `pages`, or
/// `None` where it refuses one of them.
pub open spec fn body_upto(pages: Seq<PageView>, n: int) -> Option<Seq<u8>>
    decreases n,
{
    if n <= 0 {
        Some(Seq::empty())
    } else {
        match (body_upto(pages, n - 1), page_bytes(pages[n - 1])) {
            (Some(body), Some(bytes)) => Some(body + bytes),
            _ => None,
        }
    }
}

/// The finished archive that holds `pages` in their order: what the writer
/// puts out for each, and the trailer; or `None` where the writer refuses a
/// page.
pub open spec fn encoded(pages: Seq<PageView>) -> Option<Seq<u8>> {
    match body_upto(pages, pages.len() as int) {
        Some(body) => Some(body + trailer()),
        None => None,
    }
}

/// Writes `pages`, in their order, into a new archive.
pub fn encode(pages: &Vec<Page>) -> (r: Result<Vec<u8>, ArchiveError>)
    ensures
        r is Ok ==> encoded(page_views(pages@)) == Some(r->Ok_0@),
        r is Err ==> encoded(page_views(pages@)) is None && r->Err_0 == ArchiveError::Unwritable,
{
    let ghost pv = page_views(pages@);
    let mut writer = writer_new();
    let mut i: usize = 0;
    while i < pages.len()
        invariant
            i <= pages.len(),
            pv == page_views(pages@),
            body_upto(pv, i as int) == Some(written_bytes(writer)),
        decreases pages.len() - i,
    {
        let page = &pages[i];
        assert(pv[i as int] == page@);
        let path = page.target.to_bytes();
        match writer_append(&mut writer, &path, page.data, page.mtime) {
            Ok(()) => {},
            Err(_) => {
                assert(body_upto(pv, i + 1) is None);
                assert(encoded(pv) is None) by {
                    lemma_refusal_stays(pv, i + 1, pv.len() as int);
                }
                return Err(ArchiveError::Unwritable);
            },
        }
        i += 1;
    }
    match writer_finish(writer) {
        Ok(bytes) => Ok(bytes),
        Err(_) => Err(ArchiveError::Unwritable),
    }
}

/// Once a page is refused, nothing that follows brings the archive back.
pub proof fn lemma_refusal_stays(pages: Seq<PageView>, n: int, m: int)
    requires
        0 <= n <= m,
        body_upto(pages, n) is None,
    ensures
        body_upto(pages, m) is None,
    decreases m - n,
{
    if n < m {
        lemma_refusal_stays(pages, n, m - 1);
    }
}

} // verus!

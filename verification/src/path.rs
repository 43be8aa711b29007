//! Paths inside an archive: lists of names, one for each level from the
//! archive's root down.

use vstd::prelude::*;
use crate::order::{lex_le, total_preorder, lemma_lex_preorder};
use crate::name::{names_view, name_order, name_precedes, same_name, copy_name, lemma_name_order_total_preorder};

verus! {

/// The byte `/`, which parts the names of a path where it is written out.
pub const SLASH: u8 = 0x2f;

/// The name `webp`: the directory that holds the variants of its parent's pages.
pub open spec fn webp_name() -> Seq<u8> {
    seq![0x77u8, 0x65u8, 0x62u8, 0x70u8]
}

/// A path inside an archive.
#[derive(Debug, PartialEq, Eq)]
pub struct ArchivePath {
    pub segments: Vec<Vec<u8>>,
}

impl View for ArchivePath {
    type V = Seq<Seq<u8>>;

    open spec fn view(&self) -> Seq<Seq<u8>> {
        names_view(self.segments)
    }
}

/// The names that `raw` spells out: its runs of bytes other than `/`, in order.
pub open spec fn split_path(raw: Seq<u8>) -> Seq<Seq<u8>>
    decreases raw.len(),
{
    if raw.len() == 0 {
        Seq::empty()
    } else {
        let front = split_path(raw.drop_last());
        let b = raw.last();
        if b == SLASH {
            front
        } else if raw.len() >= 2 && raw[raw.len() - 2] != SLASH {
            front.drop_last().push(front.last().push(b))
        } else {
            front.push(seq![b])
        }
    }
}

/// A path written out: its names with a `/` between each two.
pub open spec fn joined(path: Seq<Seq<u8>>) -> Seq<u8>
    decreases path.len(),
{
    if path.len() == 0 {
        Seq::empty()
    } else if path.len() == 1 {
        path[0]
    } else {
        joined(path.drop_last()) + seq![SLASH] + path.last()
    }
}

/// `p` comes no later than `q`: dictionary order on the names, each name
/// taken in byte-wise dictionary order.
pub open spec fn path_le(p: Seq<Seq<u8>>, q: Seq<Seq<u8>>) -> bool {
    lex_le(name_order(), p, q)
}

/// The order of paths, as a value to hand on.
pub open spec fn path_order() -> spec_fn(Seq<Seq<u8>>, Seq<Seq<u8>>) -> bool {
    |p: Seq<Seq<u8>>, q: Seq<Seq<u8>>| path_le(p, q)
}

/// The directory that holds `path`: all of its names but the last.
pub open spec fn parent_of(path: Seq<Seq<u8>>) -> Seq<Seq<u8>> {
    if path.len() == 0 {
        path
    } else {
        path.drop_last()
    }
}

/// The last name of `path`, empty where the path has no name at all.
pub open spec fn file_name_of(path: Seq<Seq<u8>>) -> Seq<u8> {
    if path.len() == 0 {
        Seq::empty()
    } else {
        path.last()
    }
}

/// Whether the last name of `path` is `webp`.
pub open spec fn ends_in_webp(path: Seq<Seq<u8>>) -> bool {
    path.len() > 0 && path.last() == webp_name()
}

/// Whether none of `names` is `webp`.
pub open spec fn webp_free(names: Seq<Seq<u8>>) -> bool {
    forall|i: int| 0 <= i < names.len() ==> #[trigger] names[i] != webp_name()
}

/// Whether `s` can stand as one name of a path: it is not empty and holds no `/`.
pub open spec fn is_name(s: Seq<u8>) -> bool {
    s.len() > 0 && forall|i: int| 0 <= i < s.len() ==> #[trigger] s[i] != SLASH
}

/// Whether every name of `path` can stand as a name.
pub open spec fn all_names(path: Seq<Seq<u8>>) -> bool {
    forall|i: int| 0 <= i < path.len() ==> is_name(#[trigger] path[i])
}

/// What `raw` spells out is made of names, and there is at least one where
/// `raw` ends in a byte other than `/`.
pub proof fn lemma_split_path_names(raw: Seq<u8>)
    ensures
        all_names(split_path(raw)),
        raw.len() > 0 && raw.last() != SLASH ==> split_path(raw).len() > 0,
    decreases raw.len(),
{
    if raw.len() != 0 {
        let front = split_path(raw.drop_last());
        let b = raw.last();
        lemma_split_path_names(raw.drop_last());
        if b != SLASH {
            if raw.len() >= 2 && raw[raw.len() - 2] != SLASH {
                assert(raw.drop_last().last() == raw[raw.len() - 2]);
                let grown = front.last().push(b);
                assert(is_name(front.last()));
                assert(is_name(grown)) by {
                    assert forall|i: int| 0 <= i < grown.len() implies #[trigger] grown[i] != SLASH by {
                        if i < front.last().len() {
                            assert(grown[i] == front.last()[i]);
                        }
                    }
                }
                let out = front.drop_last().push(grown);
                assert forall|i: int| 0 <= i < out.len() implies is_name(#[trigger] out[i]) by {
                    if i < out.len() - 1 {
                        assert(out[i] == front[i]);
                    }
                }
            } else {
                let out = front.push(seq![b]);
                assert(is_name(seq![b]));
                assert forall|i: int| 0 <= i < out.len() implies is_name(#[trigger] out[i]) by {
                    if i < front.len() {
                        assert(out[i] == front[i]);
                    }
                }
            }
        }
    }
}

/// A name written behind a `/`, or at the start, is read back as one name more.
pub proof fn lemma_split_path_append(raw: Seq<u8>, name: Seq<u8>)
    requires
        is_name(name),
        raw.len() == 0 || raw.last() == SLASH,
    ensures
        split_path(raw + name) == split_path(raw).push(name),
    decreases name.len(),
{
    let whole = raw + name;
    let front = name.drop_last();
    let b = name.last();
    assert(whole.drop_last() =~= raw + front);
    assert(whole.last() == b);
    if front.len() == 0 {
        assert(raw + front =~= raw);
        assert(name =~= seq![b]);
        if whole.len() >= 2 {
            assert(whole[whole.len() - 2] == raw.last());
        }
    } else {
        assert(is_name(front)) by {
            assert forall|i: int| 0 <= i < front.len() implies #[trigger] front[i] != SLASH by {
                assert(front[i] == name[i]);
            }
        }
        lemma_split_path_append(raw, front);
        assert(whole[whole.len() - 2] == front.last());
        assert(front.last() == name[name.len() - 2]);
        let read = split_path(raw).push(front);
        assert(read.drop_last() =~= split_path(raw));
        assert(front.push(b) =~= name);
    }
}

/// A path made of names is read back from its written form as it was.
pub proof fn lemma_split_joined(path: Seq<Seq<u8>>)
    requires
        all_names(path),
    ensures
        split_path(joined(path)) == path,
    decreases path.len(),
{
    if path.len() == 0 {
    } else if path.len() == 1 {
        lemma_split_path_append(Seq::empty(), path[0]);
        assert(Seq::<u8>::empty() + path[0] =~= path[0]);
        assert(Seq::<Seq<u8>>::empty().push(path[0]) =~= path);
    } else {
        let front = path.drop_last();
        assert(all_names(front)) by {
            assert forall|i: int| 0 <= i < front.len() implies is_name(#[trigger] front[i]) by {
                assert(front[i] == path[i]);
            }
        }
        lemma_split_joined(front);
        let raw = joined(front) + seq![SLASH];
        assert(raw.drop_last() =~= joined(front));
        assert(split_path(raw) == front);
        lemma_split_path_append(raw, path.last());
        assert(front.push(path.last()) =~= path);
    }
}

/// The order of paths is a total preorder.
pub proof fn lemma_path_order_total_preorder()
    ensures
        total_preorder(path_order()),
{
    lemma_name_order_total_preorder();
    lemma_lex_preorder(name_order());
    assert(path_order() == (|p: Seq<Seq<u8>>, q: Seq<Seq<u8>>| lex_le(name_order(), p, q)));
}

/// The name `webp`.
pub fn webp() -> (r: Vec<u8>)
    ensures
        r@ == webp_name(),
{
    let mut name: Vec<u8> = Vec::new();
    name.push(0x77u8);
    name.push(0x65u8);
    name.push(0x62u8);
    name.push(0x70u8);
    assert(name@ =~= webp_name());
    name
}

impl ArchivePath {
    /// The path that `raw` spells out: its runs of bytes other than `/`,
    /// none of them empty.
    pub fn parse(raw: &Vec<u8>) -> (r: ArchivePath)
        ensures
            r@ == split_path(raw@),
            all_names(r@),
    {
        proof {
            lemma_split_path_names(raw@);
        }
        let mut segments: Vec<Vec<u8>> = Vec::new();
        let mut current: Vec<u8> = Vec::new();
        let mut i: usize = 0;
        while i < raw.len()
            invariant
                i <= raw.len(),
                current@.len() > 0 <==> (i > 0 && raw@[i - 1] != SLASH),
                split_path(raw@.take(i as int)) == if current@.len() > 0 {
                    names_view(segments).push(current@)
                } else {
                    names_view(segments)
                },
            decreases raw.len() - i,
        {
            let b = raw[i];
            let ghost seen = raw@.take(i as int);
            let ghost next = raw@.take(i + 1);
            let ghost done = names_view(segments);
            let ghost open = current@;
            assert(next.drop_last() =~= seen);
            assert(next.last() == b);
            if b == SLASH {
                if current.len() > 0 {
                    segments.push(current);
                    current = Vec::new();
                    assert(names_view(segments) =~= done.push(open));
                }
            } else {
                current.push(b);
                proof {
                    if open.len() > 0 {
                        assert(next[next.len() - 2] == raw@[i - 1]);
                        assert(done.push(open).drop_last() =~= done);
                    } else {
                        assert(current@ =~= seq![b]);
                    }
                }
            }
            i += 1;
        }
        assert(raw@.take(i as int) =~= raw@);
        if current.len() > 0 {
            let ghost done = names_view(segments);
            let ghost open = current@;
            segments.push(current);
            assert(names_view(segments) =~= done.push(open));
        }
        ArchivePath { segments }
    }

    /// The path written out, with `/` between its names.
    pub fn to_bytes(&self) -> (r: Vec<u8>)
        ensures
            r@ == joined(self@),
    {
        let mut out: Vec<u8> = Vec::new();
        let mut i: usize = 0;
        while i < self.segments.len()
            invariant
                i <= self.segments.len(),
                out@ == joined(self@.take(i as int)),
            decreases self.segments.len() - i,
        {
            let ghost before = out@;
            if i > 0 {
                out.push(SLASH);
            }
            let name = &self.segments[i];
            let ghost mid = out@;
            let mut j: usize = 0;
            while j < name.len()
                invariant
                    j <= name.len(),
                    out@ == mid + name@.take(j as int),
                decreases name.len() - j,
            {
                out.push(name[j]);
                assert(name@.take(j + 1) =~= name@.take(j as int).push(name@[j as int]));
                assert(out@ =~= mid + name@.take(j + 1));
                j += 1;
            }
            assert(name@.take(j as int) =~= name@);
            assert(self@.take(i + 1).drop_last() =~= self@.take(i as int));
            assert(self@.take(i + 1).last() == name@);
            assert(out@ =~= joined(self@.take(i + 1))) by {
                if i > 0 {
                    assert(mid =~= before + seq![SLASH]);
                } else {
                    assert(before =~= Seq::<u8>::empty());
                    assert(self@.take(1)[0] == name@);
                }
            }
            i += 1;
        }
        assert(self@.take(i as int) =~= self@);
        out
    }

    /// A copy of this path.
    pub fn duplicate(&self) -> (r: ArchivePath)
        ensures
            r@ == self@,
    {
        let mut segments: Vec<Vec<u8>> = Vec::new();
        let mut i: usize = 0;
        while i < self.segments.len()
            invariant
                i <= self.segments.len(),
                names_view(segments) == self@.take(i as int),
            decreases self.segments.len() - i,
        {
            let ghost done = names_view(segments);
            segments.push(copy_name(&self.segments[i]));
            assert(names_view(segments) =~= done.push(self@[i as int]));
            assert(self@.take(i + 1) =~= self@.take(i as int).push(self@[i as int]));
            i += 1;
        }
        assert(self@.take(i as int) =~= self@);
        ArchivePath { segments }
    }

    /// Whether the two paths hold the same names.
    pub fn same(&self, other: &ArchivePath) -> (r: bool)
        ensures
            r == (self@ == other@),
    {
        if self.segments.len() != other.segments.len() {
            return false;
        }
        let mut i: usize = 0;
        while i < self.segments.len()
            invariant
                self.segments.len() == other.segments.len(),
                i <= self.segments.len(),
                self@.take(i as int) == other@.take(i as int),
            decreases self.segments.len() - i,
        {
            if !same_name(&self.segments[i], &other.segments[i]) {
                assert(self@[i as int] != other@[i as int]);
                return false;
            }
            assert(self@.take(i + 1) =~= self@.take(i as int).push(self@[i as int]));
            assert(other@.take(i + 1) =~= other@.take(i as int).push(other@[i as int]));
            i += 1;
        }
        assert(self@.take(i as int) =~= self@);
        assert(other@.take(i as int) =~= other@);
        true
    }

    /// Whether this path comes no later than `other` in the order of paths.
    pub fn precedes(&self, other: &ArchivePath) -> (r: bool)
        ensures
            r == path_le(self@, other@),
    {
        let mut i: usize = 0;
        assert(self@.skip(0) =~= self@ && other@.skip(0) =~= other@);
        while i < self.segments.len()
            invariant
                i <= self.segments.len(),
                i <= other.segments.len(),
                path_le(self@, other@) == path_le(self@.skip(i as int), other@.skip(i as int)),
            decreases self.segments.len() - i,
        {
            let ghost ra = self@.skip(i as int);
            let ghost rb = other@.skip(i as int);
            if i >= other.segments.len() {
                assert(rb.len() == 0 && ra.len() != 0);
                return false;
            }
            assert(ra[0] == self@[i as int] && rb[0] == other@[i as int]);
            let forth = name_precedes(&self.segments[i], &other.segments[i]);
            let back = name_precedes(&other.segments[i], &self.segments[i]);
            assert(name_order()(ra[0], rb[0]) == forth);
            assert(name_order()(rb[0], ra[0]) == back);
            if !(forth && back) {
                return forth;
            }
            assert(ra.drop_first() =~= self@.skip(i + 1));
            assert(rb.drop_first() =~= other@.skip(i + 1));
            i += 1;
        }
        assert(self@.skip(i as int).len() == 0);
        true
    }

    /// The directory that holds this path.
    pub fn parent(&self) -> (r: ArchivePath)
        ensures
            r@ == parent_of(self@),
    {
        let mut copy = self.duplicate();
        let ghost whole = names_view(copy.segments);
        if copy.segments.len() > 0 {
            copy.segments.pop();
            assert(names_view(copy.segments) =~= whole.drop_last());
        }
        copy
    }

    /// The last name of this path, empty where the path has no name at all.
    pub fn file_name(&self) -> (r: Vec<u8>)
        ensures
            r@ == file_name_of(self@),
    {
        let n = self.segments.len();
        if n == 0 {
            Vec::new()
        } else {
            copy_name(&self.segments[n - 1])
        }
    }

    /// This path with `name` below it.
    pub fn child(&self, name: &Vec<u8>) -> (r: ArchivePath)
        ensures
            r@ == self@.push(name@),
    {
        let mut copy = self.duplicate();
        let ghost whole = names_view(copy.segments);
        copy.segments.push(copy_name(name));
        assert(names_view(copy.segments) =~= whole.push(name@));
        copy
    }

    /// Whether the last name of this path is `webp`.
    pub fn is_webp_dir(&self) -> (r: bool)
        ensures
            r == ends_in_webp(self@),
    {
        let n = self.segments.len();
        if n == 0 {
            false
        } else {
            let name = webp();
            same_name(&self.segments[n - 1], &name)
        }
    }
}

} // verus!

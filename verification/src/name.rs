//! File names as byte strings: equality, order, and the stem by which a page
//! is matched with its variants.

use vstd::prelude::*;
use crate::order::{lex_le, total_preorder, lemma_lex_preorder, lemma_lex_antisymmetric};

verus! {

/// The byte `.`, which parts a file name from its extension.
pub const DOT: u8 = 0x2e;

/// A list of names as a mathematical value.
pub open spec fn names_view(names: Vec<Vec<u8>>) -> Seq<Seq<u8>> {
    names@.map_values(|s: Vec<u8>| s@)
}

/// The order of single bytes.
pub open spec fn byte_order() -> spec_fn(u8, u8) -> bool {
    |x: u8, y: u8| x <= y
}

/// `a` comes no later than `b` in byte-wise dictionary order.
pub open spec fn name_le(a: Seq<u8>, b: Seq<u8>) -> bool {
    lex_le(byte_order(), a, b)
}

/// The order of names, as a value to hand to [`lex_le`].
pub open spec fn name_order() -> spec_fn(Seq<u8>, Seq<u8>) -> bool {
    |a: Seq<u8>, b: Seq<u8>| name_le(a, b)
}

/// The place of the last `.` in `name`, or -1 where it holds none.
pub open spec fn last_dot(name: Seq<u8>) -> int
    decreases name.len(),
{
    if name.len() == 0 {
        -1
    } else if name.last() == DOT {
        name.len() - 1
    } else {
        last_dot(name.drop_last())
    }
}

/// How many leading bytes of `name` make up its stem: all that stands before
/// the last `.`, or the whole name where it has no `.` or only a leading one.
pub open spec fn stem_len(name: Seq<u8>) -> int {
    if last_dot(name) <= 0 {
        name.len() as int
    } else {
        last_dot(name)
    }
}

/// The stem of a file name: the name without its extension.
pub open spec fn file_stem(name: Seq<u8>) -> Seq<u8> {
    name.take(stem_len(name))
}

/// Byte order is a total preorder, and so is the order of names.
pub proof fn lemma_name_order_total_preorder()
    ensures
        total_preorder(byte_order()),
        total_preorder(name_order()),
{
    assert(total_preorder(byte_order()));
    lemma_lex_preorder(byte_order());
    assert(name_order() == (|a: Seq<u8>, b: Seq<u8>| lex_le(byte_order(), a, b)));
}

/// Names that precede each other are the same name.
pub proof fn lemma_name_le_antisymmetric(a: Seq<u8>, b: Seq<u8>)
    requires
        name_le(a, b),
        name_le(b, a),
    ensures
        a == b,
{
    lemma_lex_antisymmetric(byte_order(), a, b);
}

/// The last `.` lies inside the name, and nothing after it is a `.`.
pub proof fn lemma_last_dot(name: Seq<u8>)
    ensures
        -1 <= last_dot(name) < name.len(),
        last_dot(name) >= 0 ==> name[last_dot(name)] == DOT,
        forall|i: int| last_dot(name) < i < name.len() ==> name[i] != DOT,
    decreases name.len(),
{
    if name.len() != 0 && name.last() != DOT {
        let front = name.drop_last();
        lemma_last_dot(front);
        assert forall|i: int| last_dot(name) < i < name.len() implies name[i] != DOT by {
            if i < front.len() {
                assert(front[i] == name[i]);
            }
        }
    }
}

/// Whether two names hold the same bytes.
pub fn same_name(a: &Vec<u8>, b: &Vec<u8>) -> (r: bool)
    ensures
        r == (a@ == b@),
{
    if a.len() != b.len() {
        return false;
    }
    let mut i: usize = 0;
    while i < a.len()
        invariant
            a.len() == b.len(),
            i <= a.len(),
            a@.take(i as int) == b@.take(i as int),
        decreases a.len() - i,
    {
        if a[i] != b[i] {
            return false;
        }
        assert(a@.take(i + 1) =~= a@.take(i as int).push(a@[i as int]));
        assert(b@.take(i + 1) =~= b@.take(i as int).push(b@[i as int]));
        i += 1;
    }
    assert(a@ =~= a@.take(i as int));
    assert(b@ =~= b@.take(i as int));
    true
}

/// Whether `a` comes no later than `b` in byte-wise dictionary order.
pub fn name_precedes(a: &Vec<u8>, b: &Vec<u8>) -> (r: bool)
    ensures
        r == name_le(a@, b@),
{
    let mut i: usize = 0;
    assert(a@.skip(0) =~= a@ && b@.skip(0) =~= b@);
    while i < a.len()
        invariant
            i <= a.len(),
            i <= b.len(),
            name_le(a@, b@) == name_le(a@.skip(i as int), b@.skip(i as int)),
        decreases a.len() - i,
    {
        let ghost ra = a@.skip(i as int);
        let ghost rb = b@.skip(i as int);
        if i >= b.len() {
            assert(rb.len() == 0 && ra.len() != 0);
            return false;
        }
        assert(ra[0] == a@[i as int] && rb[0] == b@[i as int]);
        if a[i] != b[i] {
            return a[i] < b[i];
        }
        assert(ra.drop_first() =~= a@.skip(i + 1));
        assert(rb.drop_first() =~= b@.skip(i + 1));
        i += 1;
    }
    assert(a@.skip(i as int).len() == 0);
    true
}

/// A copy of `name`.
pub fn copy_name(name: &Vec<u8>) -> (r: Vec<u8>)
    ensures
        r@ == name@,
{
    let mut out: Vec<u8> = Vec::new();
    let mut i: usize = 0;
    while i < name.len()
        invariant
            i <= name.len(),
            out@ == name@.take(i as int),
        decreases name.len() - i,
    {
        out.push(name[i]);
        assert(name@.take(i + 1) =~= name@.take(i as int).push(name@[i as int]));
        i += 1;
    }
    assert(name@ =~= name@.take(i as int));
    out
}

/// The stem of `name`, as a name of its own.
pub fn stem_of(name: &Vec<u8>) -> (r: Vec<u8>)
    ensures
        r@ == file_stem(name@),
{
    let mut dot: usize = name.len();
    let mut found = false;
    let mut i: usize = 0;
    while i < name.len()
        invariant
            i <= name.len(),
            found ==> dot < i && last_dot(name@.take(i as int)) == dot,
            !found ==> last_dot(name@.take(i as int)) == -1,
        decreases name.len() - i,
    {
        assert(name@.take(i + 1).drop_last() =~= name@.take(i as int));
        if name[i] == DOT {
            dot = i;
            found = true;
        }
        i += 1;
    }
    assert(name@ =~= name@.take(i as int));
    let keep: usize = if found && dot > 0 { dot } else { name.len() };
    let mut out: Vec<u8> = Vec::new();
    let mut j: usize = 0;
    while j < keep
        invariant
            j <= keep <= name.len(),
            out@ == name@.take(j as int),
        decreases keep - j,
    {
        out.push(name[j]);
        assert(name@.take(j + 1) =~= name@.take(j as int).push(name@[j as int]));
        j += 1;
    }
    out
}

} // verus!

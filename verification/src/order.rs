//! Lexicographic order on sequences, over any total preorder of the items.

use vstd::prelude::*;

verus! {

/// `le` relates every two items one way or the other, and is transitive.
pub open spec fn total_preorder<A>(le: spec_fn(A, A) -> bool) -> bool {
    &&& forall|x: A, y: A| #[trigger] le(x, y) || #[trigger] le(y, x)
    &&& forall|x: A, y: A, z: A| #[trigger] le(x, y) && #[trigger] le(y, z) ==> le(x, z)
}

/// `a` comes no later than `b` in dictionary order: at the first place where
/// the two differ under `le`, `a` holds the smaller item, or `a` ends first.
pub open spec fn lex_le<A>(le: spec_fn(A, A) -> bool, a: Seq<A>, b: Seq<A>) -> bool
    decreases a.len(),
{
    if a.len() == 0 {
        true
    } else if b.len() == 0 {
        false
    } else if le(a[0], b[0]) && le(b[0], a[0]) {
        lex_le(le, a.drop_first(), b.drop_first())
    } else {
        le(a[0], b[0])
    }
}

/// Dictionary order relates every two sequences one way or the other.
pub proof fn lemma_lex_total<A>(le: spec_fn(A, A) -> bool, a: Seq<A>, b: Seq<A>)
    requires
        total_preorder(le),
    ensures
        lex_le(le, a, b) || lex_le(le, b, a),
    decreases a.len(),
{
    if a.len() != 0 && b.len() != 0 {
        assert(le(a[0], b[0]) || le(b[0], a[0]));
        lemma_lex_total(le, a.drop_first(), b.drop_first());
    }
}

/// Dictionary order is transitive.
pub proof fn lemma_lex_transitive<A>(le: spec_fn(A, A) -> bool, a: Seq<A>, b: Seq<A>, c: Seq<A>)
    requires
        total_preorder(le),
        lex_le(le, a, b),
        lex_le(le, b, c),
    ensures
        lex_le(le, a, c),
    decreases a.len(),
{
    if a.len() != 0 {
        assert(b.len() != 0);
        assert(c.len() != 0);
        let (x, y, z) = (a[0], b[0], c[0]);
        assert(le(x, y));
        assert(le(y, z));
        assert(le(x, z));
        if le(z, x) {
            assert(le(z, y)) by {
                assert(le(z, x) && le(x, y));
            }
            assert(le(y, x)) by {
                assert(le(y, z) && le(z, x));
            }
            lemma_lex_transitive(le, a.drop_first(), b.drop_first(), c.drop_first());
        }
    }
}

/// Dictionary order over a total preorder is itself a total preorder.
pub proof fn lemma_lex_preorder<A>(le: spec_fn(A, A) -> bool)
    requires
        total_preorder(le),
    ensures
        total_preorder(|a: Seq<A>, b: Seq<A>| lex_le(le, a, b)),
{
    let up = |a: Seq<A>, b: Seq<A>| lex_le(le, a, b);
    assert forall|a: Seq<A>, b: Seq<A>| #[trigger] up(a, b) || #[trigger] up(b, a) by {
        lemma_lex_total(le, a, b);
    }
    assert forall|a: Seq<A>, b: Seq<A>, c: Seq<A>| #[trigger] up(a, b) && #[trigger] up(b, c) implies up(a, c) by {
        lemma_lex_transitive(le, a, b, c);
    }
}

/// Two sequences that precede each other are equal, where that holds of the items.
pub proof fn lemma_lex_antisymmetric<A>(le: spec_fn(A, A) -> bool, a: Seq<A>, b: Seq<A>)
    requires
        forall|x: A, y: A| #[trigger] le(x, y) && le(y, x) ==> x == y,
        lex_le(le, a, b),
        lex_le(le, b, a),
    ensures
        a == b,
    decreases a.len(),
{
    if a.len() == 0 {
        assert(b.len() == 0);
        assert(a =~= b);
    } else {
        assert(b.len() != 0);
        assert(le(a[0], b[0]) && le(b[0], a[0]));
        lemma_lex_antisymmetric(le, a.drop_first(), b.drop_first());
        assert(a =~= seq![a[0]] + a.drop_first());
        assert(b =~= seq![b[0]] + b.drop_first());
    }
}

} // verus!

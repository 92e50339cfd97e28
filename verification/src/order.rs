//! The strict lexicographic order on byte sequences, and its laws.
//!
//! Keys of the prefix tree are byte strings; iteration order and the
//! sortedness invariant of sibling nodes are both stated in terms of
//! this order.

use vstd::prelude::*;

verus! {

/// `a` comes strictly before `b` in lexicographic (shortlex-free,
/// dictionary) order: at the first position where they differ the byte of
/// `a` is smaller, or `a` is a proper prefix of `b`.
pub open spec fn lex_lt(a: Seq<u8>, b: Seq<u8>) -> bool
    decreases a.len(),
{
    if b.len() == 0 {
        false
    } else if a.len() == 0 {
        true
    } else if a[0] < b[0] {
        true
    } else if a[0] > b[0] {
        false
    } else {
        lex_lt(a.drop_first(), b.drop_first())
    }
}

/// The order is irreflexive: no sequence comes before itself.
pub proof fn lemma_lex_irrefl(a: Seq<u8>)
    ensures
        !lex_lt(a, a),
    decreases a.len(),
{
    if a.len() > 0 {
        lemma_lex_irrefl(a.drop_first());
    }
}

/// The order is total: two distinct sequences are ordered one way or the other.
pub proof fn lemma_lex_total(a: Seq<u8>, b: Seq<u8>)
    ensures
        a == b || lex_lt(a, b) || lex_lt(b, a),
    decreases a.len(),
{
    if a.len() == 0 || b.len() == 0 {
        if a.len() == 0 && b.len() == 0 {
            assert(a =~= b);
        }
    } else if a[0] == b[0] {
        lemma_lex_total(a.drop_first(), b.drop_first());
        if a.drop_first() == b.drop_first() {
            assert(a.drop_first().len() == a.len() - 1);
            assert(b.drop_first().len() == b.len() - 1);
            assert(a.len() == b.len());
            assert(a =~= b) by {
                assert forall|i: int| 0 <= i < a.len() implies a[i] == b[i] by {
                    if i > 0 {
                        assert(a[i] == a.drop_first()[i - 1]);
                        assert(b[i] == b.drop_first()[i - 1]);
                    }
                }
            }
        }
    }
}

/// The order is transitive.
pub proof fn lemma_lex_trans(a: Seq<u8>, b: Seq<u8>, c: Seq<u8>)
    requires
        lex_lt(a, b),
        lex_lt(b, c),
    ensures
        lex_lt(a, c),
    decreases b.len(),
{
    if a.len() > 0 && b.len() > 0 && c.len() > 0 {
        if a[0] == b[0] && b[0] == c[0] {
            lemma_lex_trans(a.drop_first(), b.drop_first(), c.drop_first());
        }
    }
}

/// The order is asymmetric.
pub proof fn lemma_lex_asym(a: Seq<u8>, b: Seq<u8>)
    requires
        lex_lt(a, b),
    ensures
        !lex_lt(b, a),
        a != b,
{
    lemma_lex_irrefl(a);
    if lex_lt(b, a) {
        lemma_lex_trans(a, b, a);
    }
}

/// A proper prefix comes strictly before every sequence it is a prefix of.
pub proof fn lemma_lex_proper_prefix(p: Seq<u8>, b: Seq<u8>)
    requires
        p.is_prefix_of(b),
        p.len() < b.len(),
    ensures
        lex_lt(p, b),
    decreases p.len(),
{
    if p.len() > 0 {
        assert(p.drop_first().is_prefix_of(b.drop_first()));
        lemma_lex_proper_prefix(p.drop_first(), b.drop_first());
    }
}

/// Two sequences that share a prefix `p` and then diverge are ordered by
/// the first byte after the prefix.
pub proof fn lemma_lex_after_prefix(p: Seq<u8>, a: Seq<u8>, b: Seq<u8>)
    requires
        p.is_prefix_of(a),
        p.is_prefix_of(b),
        p.len() < a.len(),
        p.len() < b.len(),
        a[p.len() as int] < b[p.len() as int],
    ensures
        lex_lt(a, b),
    decreases p.len(),
{
    if p.len() == 0 {
    } else {
        assert(a.subrange(0, p.len() as int)[0] == a[0]);
        assert(b.subrange(0, p.len() as int)[0] == b[0]);
        assert(a[0] == p[0] && b[0] == p[0]);
        assert(p.drop_first().is_prefix_of(a.drop_first()));
        assert(p.drop_first().is_prefix_of(b.drop_first()));
        assert(a.drop_first()[p.len() - 1] == a[p.len() as int]);
        assert(b.drop_first()[p.len() - 1] == b[p.len() as int]);
        lemma_lex_after_prefix(p.drop_first(), a.drop_first(), b.drop_first());
    }
}

/// A sequence is its prefix followed by the rest.
pub proof fn lemma_prefix_recompose(p: Seq<u8>, k: Seq<u8>)
    requires
        p.is_prefix_of(k),
    ensures
        p + k.skip(p.len() as int) == k,
{
    assert(p + k.skip(p.len() as int) =~= k) by {
        assert forall|i: int| 0 <= i < k.len() implies (p + k.skip(p.len() as int))[i] == k[i] by {
            if i < p.len() {
                assert(p[i] == k.subrange(0, p.len() as int)[i]);
            }
        }
    }
}

} // verus!

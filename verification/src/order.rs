//! Lexicographic order on character sequences, by code point.
//!
//! Completion results are sorted ascending in this order.

use vstd::prelude::*;

verus! {

/// Strict lexicographic order: `a` comes before `b`.
pub open spec fn lex_lt(a: Seq<char>, b: Seq<char>) -> bool
    decreases a.len(),
{
    if b.len() == 0 {
        false
    } else if a.len() == 0 {
        true
    } else if a[0] != b[0] {
        a[0] < b[0]
    } else {
        lex_lt(a.drop_first(), b.drop_first())
    }
}

/// A proper prefix comes strictly before its extensions.
pub proof fn lemma_proper_prefix_lt(a: Seq<char>, b: Seq<char>)
    requires
        a.len() < b.len(),
        a == b.take(a.len() as int),
    ensures
        lex_lt(a, b),
    decreases a.len(),
{
    if a.len() > 0 {
        assert(a[0] == b[0]);
        assert(a.drop_first() == b.drop_first().take(a.len() - 1)) by {
            assert(a.drop_first() =~= b.drop_first().take(a.len() - 1));
        }
        lemma_proper_prefix_lt(a.drop_first(), b.drop_first());
    }
}

/// Prepending a common prefix keeps the strict order.
pub proof fn lemma_lex_prepend(p: Seq<char>, a: Seq<char>, b: Seq<char>)
    requires
        lex_lt(a, b),
    ensures
        lex_lt(p + a, p + b),
    decreases p.len(),
{
    if p.len() == 0 {
        assert(p + a =~= a);
        assert(p + b =~= b);
    } else {
        assert((p + a)[0] == p[0]);
        assert((p + b)[0] == p[0]);
        assert((p + a).drop_first() =~= p.drop_first() + a);
        assert((p + b).drop_first() =~= p.drop_first() + b);
        lemma_lex_prepend(p.drop_first(), a, b);
        assert((p + b).len() > 0);
    }
}

/// Two sequences that agree up to position `m` and differ there compare
/// by their characters at `m`.
pub proof fn lemma_common_prefix_lt(a: Seq<char>, b: Seq<char>, m: int)
    requires
        0 <= m < a.len(),
        m < b.len(),
        a.take(m) == b.take(m),
        a[m] != b[m],
        a[m] < b[m],
    ensures
        lex_lt(a, b),
    decreases m,
{
    if m == 0 {
        assert(a[0] != b[0]);
    } else {
        assert(a.take(m)[0] == a[0]);
        assert(b.take(m)[0] == b[0]);
        assert(a[0] == b[0]);
        assert(a.drop_first().take(m - 1) == b.drop_first().take(m - 1)) by {
            assert(forall|j: int|
                0 <= j < m - 1 ==> a.drop_first()[j] == a.take(m)[j + 1] && b.drop_first()[j]
                    == b.take(m)[j + 1]);
            assert(a.drop_first().take(m - 1) =~= b.drop_first().take(m - 1));
        }
        lemma_common_prefix_lt(a.drop_first(), b.drop_first(), m - 1);
    }
}

} // verus!

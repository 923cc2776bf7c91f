//! Laws of the completion tree, stated over its model and proved once for
//! all inputs.

use vstd::prelude::*;

use crate::chars::accepted;
use crate::completion_tree::added_count;
use crate::completion_tree::inserted_word;
use crate::completion_tree::new_word_at;
use crate::completion_tree::tokens_spec;
use crate::completion_tree::CompletionTree;
use crate::node::lemma_step_child;
use crate::node::CompletionNode;

verus! {

/// Every stored word is reached by completing any prefix of it: walking
/// the prefix stays inside the trie, and the word's remainder is stored
/// below the node reached, so the completion list holds the word.
pub proof fn lemma_prefix_reaches_word(n: CompletionNode, s: Seq<char>, k: int)
    requires
        n.wf(),
        n.contains_word(s),
        0 <= k <= s.len(),
    ensures
        n.has_path(s.take(k)),
        n.subtree_at(s.take(k)).contains_word(s.skip(k)),
    decreases k,
{
    if k == 0 {
        assert(s.take(0).len() == 0);
        assert(s.skip(0) =~= s);
    } else {
        let i = choose|i: int|
            0 <= i < n.children@.len() && n.children@[i].0 == s[0]
                && n.children@[i].1.contains_word(s.drop_first());
        let child = n.children@[i].1;
        assert(s.take(k)[0] == s[0]);
        assert(s.take(k).drop_first() =~= s.drop_first().take(k - 1));
        lemma_prefix_reaches_word(child, s.drop_first(), k - 1);
        lemma_step_child(n, i, s.take(k));
        assert(child.has_path(s.take(k).drop_first()));
        assert(n.has_path(s.take(k)));
        assert(s.drop_first().skip(k - 1) =~= s.skip(k));
    }
}

/// The corollary at the tree: completing any non-empty prefix of a stored
/// word succeeds, and the completion list holds that word.
pub proof fn lemma_prefix_completes(tree: CompletionTree, s: Seq<char>, k: int)
    requires
        tree.wf(),
        tree.contains(s),
        0 < k <= s.len(),
    ensures
        tree.root.has_path(s.take(k)),
        tree.root.subtree_at(s.take(k)).contains_word(s.skip(k)),
{
    lemma_prefix_reaches_word(tree.root, s, k);
}

/// Inserting distinct fresh tokens, each long enough and made of
/// word-constituents only, grows the word count by exactly their number,
/// shared prefixes or not.
pub proof fn lemma_distinct_new_tokens_count(
    n0: CompletionNode,
    toks: Seq<Seq<char>>,
    min: nat,
    incl: Seq<char>,
)
    requires
        forall|t: int| 0 <= t < toks.len() ==> (#[trigger] toks[t]).len() >= min,
        forall|t: int| 0 <= t < toks.len() ==> accepted(#[trigger] toks[t], incl) == toks[t],
        forall|t: int, u: int| 0 <= t < u < toks.len() ==> toks[t] != toks[u],
        forall|t: int| 0 <= t < toks.len() ==> !n0.contains_word(#[trigger] toks[t]),
    ensures
        added_count(n0, toks, min, incl) == toks.len(),
    decreases toks.len(),
{
    reveal(new_word_at);
    if toks.len() > 0 {
        let m = toks.len() - 1;
        let rest = toks.drop_last();
        assert(forall|t: int| 0 <= t < rest.len() ==> (#[trigger] rest[t]) == toks[t]);
        lemma_distinct_new_tokens_count(n0, rest, min, incl);
        assert(new_word_at(n0, toks, min, incl, m)) by {
            assert(accepted(toks[m], incl) == toks[m]);
            assert forall|u: int|
                0 <= u < m && (#[trigger] toks[u]).len() >= min implies accepted(toks[u], incl)
                != accepted(toks[m], incl) by {
                assert(accepted(toks[u], incl) == toks[u]);
                assert(toks[u] != toks[m]);
            }
        }
    }
}

/// Tokens shorter than the minimum word length add no word: they are
/// never completable and leave the word count alone.
pub proof fn lemma_short_tokens_add_nothing(
    n0: CompletionNode,
    toks: Seq<Seq<char>>,
    min: nat,
    incl: Seq<char>,
)
    requires
        forall|t: int| 0 <= t < toks.len() ==> (#[trigger] toks[t]).len() < min,
    ensures
        added_count(n0, toks, min, incl) == 0,
        forall|w: Seq<char>| !inserted_word(toks, min, incl, w),
    decreases toks.len(),
{
    reveal(new_word_at);
    reveal(inserted_word);
    if toks.len() > 0 {
        let rest = toks.drop_last();
        assert(forall|t: int| 0 <= t < rest.len() ==> (#[trigger] rest[t]) == toks[t]);
        lemma_short_tokens_add_nothing(n0, rest, min, incl);
        assert(!new_word_at(n0, toks, min, incl, toks.len() - 1));
    }
}

/// A non-empty walkable prefix is shared by some stored word: every node
/// of the trie lies on the way to a word.
pub proof fn lemma_path_implies_shared_word(n: CompletionNode, p: Seq<char>)
    requires
        n.wf(),
        n.has_path(p),
        p.len() > 0,
    ensures
        exists|w: Seq<char>|
            #[trigger] n.contains_word(w) && p.len() <= w.len() && w.take(p.len() as int) == p,
    decreases p.len(),
{
    let i = choose|i: int|
        0 <= i < n.children@.len() && n.children@[i].0 == p[0] && n.children@[i].1.has_path(
            p.drop_first(),
        );
    let child = n.children@[i].1;
    if p.len() == 1 {
        let w2 = choose|w2: Seq<char>| child.contains_word(w2);
        let w = seq![p[0]] + w2;
        assert(w[0] == p[0]);
        assert(w.drop_first() =~= w2);
        assert(n.contains_word(w));
        assert(w.take(1) =~= p);
    } else {
        lemma_path_implies_shared_word(child, p.drop_first());
        let w2 = choose|w2: Seq<char>|
            #[trigger] child.contains_word(w2) && p.drop_first().len() <= w2.len() && w2.take(
                p.drop_first().len() as int,
            ) == p.drop_first();
        let w = seq![p[0]] + w2;
        assert(w[0] == p[0]);
        assert(w.drop_first() =~= w2);
        assert(n.contains_word(w));
        assert(w.take(p.len() as int) =~= p) by {
            assert forall|m: int| 0 <= m < p.len() implies w.take(p.len() as int)[m] == p[m] by {
                if m > 0 {
                    assert(w[m] == w2[m - 1]);
                    assert(w2.take(p.drop_first().len() as int)[m - 1] == p.drop_first()[m - 1]);
                }
            }
        }
    }
}

/// Completing a non-empty prefix that no stored word shares yields no
/// match: the walk falls off the trie.
pub proof fn lemma_no_shared_word_no_path(tree: CompletionTree, p: Seq<char>)
    requires
        tree.wf(),
        p.len() > 0,
        forall|w: Seq<char>| #![trigger tree.contains(w)]
            tree.contains(w) ==> !(p.len() <= w.len() && w.take(p.len() as int) == p),
    ensures
        !tree.root.has_path(p),
{
    if tree.root.has_path(p) {
        lemma_path_implies_shared_word(tree.root, p);
        let w = choose|w: Seq<char>|
            #[trigger] tree.root.contains_word(w) && p.len() <= w.len() && w.take(p.len() as int)
                == p;
        assert(tree.contains(w));
        assert(false);
    }
}

/// Two lines that split into the same tokens insert the same words,
/// whatever splitting rule produced the tokens: trees with equal content
/// and settings stay equal in content after inserting either line under
/// its policy.
pub proof fn lemma_separator_equivalence(
    a0: CompletionTree,
    a1: CompletionTree,
    b0: CompletionTree,
    b1: CompletionTree,
    la: Seq<char>,
    lb: Seq<char>,
)
    requires
        forall|w: Seq<char>| #![trigger a0.contains(w)] a0.contains(w) == b0.contains(w),
        a0.min_word_len == b0.min_word_len,
        a0.inclusions@ == b0.inclusions@,
        tokens_spec(la, a0.separator) == tokens_spec(lb, b0.separator),
        forall|w: Seq<char>| #![trigger a1.contains(w)]
            a1.contains(w) <==> (a0.contains(w) || inserted_word(
                tokens_spec(la, a0.separator),
                a0.min_word_len as nat,
                a0.inclusions@,
                w,
            )),
        forall|w: Seq<char>| #![trigger b1.contains(w)]
            b1.contains(w) <==> (b0.contains(w) || inserted_word(
                tokens_spec(lb, b0.separator),
                b0.min_word_len as nat,
                b0.inclusions@,
                w,
            )),
    ensures
        forall|w: Seq<char>| #![trigger a1.contains(w)] a1.contains(w) == b1.contains(w),
{
    assert forall|w: Seq<char>| #![trigger a1.contains(w)] a1.contains(w) == b1.contains(w) by {
        assert(a1.contains(w) <==> (a0.contains(w) || inserted_word(
            tokens_spec(la, a0.separator),
            a0.min_word_len as nat,
            a0.inclusions@,
            w,
        )));
        assert(b1.contains(w) <==> (b0.contains(w) || inserted_word(
            tokens_spec(lb, b0.separator),
            b0.min_word_len as nat,
            b0.inclusions@,
            w,
        )));
        assert(a0.contains(w) == b0.contains(w));
    }
}

} // verus!

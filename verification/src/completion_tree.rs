//! The public completion tree: owns the trie root, the inclusion set, the
//! minimum word length and the separator policy, and drives insertion and
//! prefix completion.

use vstd::prelude::*;

use crate::chars::accepted;
use crate::chars::append_chars;
use crate::chars::str_to_chars;
use crate::node::clamp32;
use crate::node::CompletionNode;
use crate::order::lemma_lex_prepend;
use crate::order::lex_lt;
use crate::split::split_lit;
use crate::split::split_literal_vec;
use crate::split::split_whitespace_vec;
use crate::split::split_ws;
use crate::split::token_views;

verus! {

/// Word separation type used by `CompletionTree::insert`.
#[derive(Debug, Clone, Copy, PartialEq)]
pub enum WordSeparator {
    /// Split on maximal runs of whitespace.
    Whitespace,
    /// Split on exact occurrences of a literal delimiter.
    Separator(&'static str),
}

/// A completion tree that holds and hands out completions.
#[derive(Debug)]
pub struct CompletionTree {
    /// The trie of stored words; the root stands for the empty prefix.
    pub root: CompletionNode,
    /// Extra characters accepted as word-constituents beyond alphanumerics.
    pub inclusions: Vec<char>,
    /// Minimum character length a token needs to be inserted.
    pub min_word_len: usize,
    /// How `insert` splits a line into tokens.
    pub separator: WordSeparator,
}

/// The tokens a line splits into under a separator policy.
pub open spec fn tokens_spec(line: Seq<char>, sep: WordSeparator) -> Seq<Seq<char>> {
    match sep {
        WordSeparator::Whitespace => split_ws(line),
        WordSeparator::Separator(d) => split_lit(line, d@),
    }
}

/// The last whitespace-bounded word of a line; empty when there is none.
pub open spec fn last_word_spec(line: Seq<char>) -> Seq<char> {
    if split_ws(line).len() == 0 {
        Seq::empty()
    } else {
        split_ws(line).last()
    }
}

/// `w` is the accepted form of some long-enough token of the line.
#[verifier::opaque]
pub open spec fn inserted_word(
    tokens: Seq<Seq<char>>,
    min: nat,
    incl: Seq<char>,
    w: Seq<char>,
) -> bool {
    exists|t: int|
        0 <= t < tokens.len() && (#[trigger] tokens[t]).len() >= min && w == accepted(
            tokens[t],
            incl,
        )
}

/// Processing token `t` stores a word that neither the tree nor an earlier
/// token of the line had stored.
#[verifier::opaque]
pub open spec fn new_word_at(
    n0: CompletionNode,
    tokens: Seq<Seq<char>>,
    min: nat,
    incl: Seq<char>,
    t: int,
) -> bool {
    &&& tokens[t].len() >= min
    &&& !n0.contains_word(accepted(tokens[t], incl))
    &&& forall|u: int|
        0 <= u < t && (#[trigger] tokens[u]).len() >= min ==> accepted(tokens[u], incl)
            != accepted(tokens[t], incl)
}

/// How many tokens of the line store a word not stored before: the number
/// of distinct fresh accepted forms among the long-enough tokens.
pub open spec fn added_count(
    n0: CompletionNode,
    tokens: Seq<Seq<char>>,
    min: nat,
    incl: Seq<char>,
) -> nat
    decreases tokens.len(),
{
    if tokens.len() == 0 {
        0nat
    } else {
        added_count(n0, tokens.drop_last(), min, incl) + (if new_word_at(
            n0,
            tokens,
            min,
            incl,
            tokens.len() - 1,
        ) {
            1nat
        } else {
            0nat
        })
    }
}

impl CompletionTree {
    /// The whole tree is well-formed.
    pub open spec fn wf(self) -> bool {
        self.root.wf()
    }

    /// The tree stores the word `w`.
    pub open spec fn contains(self, w: Seq<char>) -> bool {
        self.root.contains_word(w)
    }

    /// Create a new CompletionTree with the provided non-alphanumeric
    /// characters whitelisted. A default CompletionTree only accepts
    /// alphanumeric characters; use this to accept further characters as
    /// parts of words.
    pub fn with_inclusions(incl: &[char]) -> (r: Self)
        ensures
            r.wf(),
            r.min_word_len == 5,
            r.inclusions@ == incl@,
            r.separator == WordSeparator::Whitespace,
            r.root.wc() == 0,
            r.root.size() == 1,
            forall|w: Seq<char>| !r.contains(w),
    {
        let mut v: Vec<char> = Vec::new();
        let mut i: usize = 0;
        while i < incl.len()
            invariant
                i <= incl@.len(),
                v@ == incl@.take(i as int),
            decreases incl@.len() - i,
        {
            let c = *vstd::slice::slice_index_get(incl, i);
            v.push(c);
            proof {
                assert(v@ =~= incl@.take(i as int + 1));
            }
            i = i + 1;
        }
        proof {
            assert(incl@.take(incl@.len() as int) =~= incl@);
        }
        CompletionTree {
            root: CompletionNode::new(),
            inclusions: v,
            min_word_len: 5,
            separator: WordSeparator::Whitespace,
        }
    }

    /// Inserts one or more words into the completion tree. The line is
    /// split into tokens by the configured separator; every token of at
    /// least `min_word_len` characters has its accepted form stored, and
    /// the word count grows by the number of distinct forms not stored
    /// before. Shorter tokens change nothing.
    pub fn insert(&mut self, line: &str)
        requires
            old(self).wf(),
        ensures
            final(self).wf(),
            final(self).inclusions == old(self).inclusions,
            final(self).min_word_len == old(self).min_word_len,
            final(self).separator == old(self).separator,
            forall|w: Seq<char>| #![trigger final(self).contains(w)]
                final(self).contains(w) <==> (old(self).contains(w) || inserted_word(
                    tokens_spec(line@, old(self).separator),
                    old(self).min_word_len as nat,
                    old(self).inclusions@,
                    w,
                )),
            final(self).root.wc() == old(self).root.wc() + added_count(
                old(self).root,
                tokens_spec(line@, old(self).separator),
                old(self).min_word_len as nat,
                old(self).inclusions@,
            ),
            old(self).root.size() <= final(self).root.size(),
    {
        let chars = str_to_chars(line);
        let tokens: Vec<Vec<char>> = match self.separator {
            WordSeparator::Whitespace => split_whitespace_vec(&chars),
            WordSeparator::Separator(sep) => {
                let d = str_to_chars(sep);
                split_literal_vec(&chars, &d)
            },
        };
        let ghost toks = tokens_spec(line@, self.separator);
        let ghost n0 = self.root;
        let ghost min = self.min_word_len as nat;
        let ghost inc = self.inclusions@;
        let ghost incl0 = self.inclusions;
        let ghost sep0 = self.separator;
        let ghost mwl0 = self.min_word_len;
        proof {
            assert(token_views(tokens@) == toks);
            assert(toks.take(0) =~= Seq::<Seq<char>>::empty());
            assert forall|w: Seq<char>| !inserted_word(toks.take(0), min, inc, w) by {
                reveal(inserted_word);
            }
            assert(added_count(n0, toks.take(0), min, inc) == 0);
        }
        let mut t: usize = 0;
        while t < tokens.len()
            invariant
                self.root.wf(),
                self.inclusions == incl0,
                self.separator == sep0,
                self.min_word_len == mwl0,
                min == mwl0 as nat,
                inc == incl0@,
                t <= tokens@.len(),
                token_views(tokens@) == toks,
                forall|w: Seq<char>| #![trigger self.root.contains_word(w)]
                    self.root.contains_word(w) <==> (n0.contains_word(w) || inserted_word(
                        toks.take(t as int),
                        min,
                        inc,
                        w,
                    )),
                self.root.wc() == n0.wc() + added_count(n0, toks.take(t as int), min, inc),
                n0.size() <= self.root.size(),
            decreases tokens@.len() - t,
        {
            proof {
                assert(token_views(tokens@)[t as int] == tokens@[t as int]@);
            }
            if tokens[t].len() >= self.min_word_len {
                let ghost before = self.root;
                self.root.insert_rec(&tokens[t], 0, &self.inclusions);
                proof {
                    assert(tokens@[t as int]@.skip(0) =~= toks[t as int]);
                    lemma_insert_token_step(n0, before, self.root, toks, t as int, min, inc);
                }
            } else {
                proof {
                    lemma_skip_token_step(n0, self.root, toks, t as int, min, inc);
                }
            }
            t = t + 1;
        }
        proof {
            assert(toks.take(toks.len() as int) =~= toks);
            assert forall|w: Seq<char>| #![trigger self.root.contains_word(w)]
                self.root.contains_word(w) <==> (n0.contains_word(w) || inserted_word(
                    toks,
                    min,
                    inc,
                    w,
                )) by {
                assert(self.root.contains_word(w) <==> (n0.contains_word(w) || inserted_word(
                    toks.take(toks.len() as int),
                    min,
                    inc,
                    w,
                )));
            }
            assert(added_count(n0, toks, min, inc) == added_count(
                n0,
                toks.take(toks.len() as int),
                min,
                inc,
            ));
        }
    }

    /// Changes the word separator used by `insert`. Nothing already stored
    /// changes.
    pub fn separator(&mut self, separator: WordSeparator)
        ensures
            final(self).separator == separator,
            final(self).root == old(self).root,
            final(self).inclusions == old(self).inclusions,
            final(self).min_word_len == old(self).min_word_len,
    {
        self.separator = separator;
    }

    /// Returns the completions of the last whitespace-bounded word of the
    /// line: one string per stored word extending it, each the full input
    /// line with the word's remainder appended, sorted ascending; `None`
    /// when the line is empty or no stored word shares the prefix.
    pub fn complete(&self, line: &str) -> (r: Option<Vec<String>>)
        requires
            self.wf(),
        ensures
            line@.len() == 0 ==> r is None,
            line@.len() > 0 ==> ((r is Some) <==> self.root.has_path(last_word_spec(line@))),
            r is Some ==> forall|j: int|
                0 <= j < r->0@.len() ==> (#[trigger] r->0@[j]@).len() >= line@.len()
                    && r->0@[j]@.take(line@.len() as int) == line@ && self.root.subtree_at(
                    last_word_spec(line@),
                ).contains_word(r->0@[j]@.skip(line@.len() as int)),
            r is Some ==> forall|s: Seq<char>|
                self.root.subtree_at(last_word_spec(line@)).contains_word(s) ==> exists|j: int|
                    0 <= j < r->0@.len() && (#[trigger] r->0@[j]@) == line@ + s,
            r is Some ==> forall|j1: int, j2: int|
                0 <= j1 < j2 < r->0@.len() ==> lex_lt(#[trigger] r->0@[j1]@, #[trigger] r->0@[j2]@),
    {
        let chars = str_to_chars(line);
        if chars.len() == 0 {
            return None;
        }
        let mut tokens = split_whitespace_vec(&chars);
        let ghost tv0 = tokens@;
        let ghost tvv = token_views(tv0);
        let lw: Vec<char> = match tokens.pop() {
            Some(x) => x,
            None => Vec::new(),
        };
        proof {
            assert(tvv == split_ws(line@));
            if tvv.len() == 0 {
                assert(lw@ =~= Seq::<char>::empty());
                assert(lw@ == last_word_spec(line@));
            } else {
                assert(lw == tv0.last());
                assert(tvv[tvv.len() - 1] == tv0[tv0.len() - 1]@);
                assert(lw@ == last_word_spec(line@));
            }
        }
        let found = self.root.complete_rec(&lw, 0);
        proof {
            assert(lw@.skip(0) =~= lw@);
        }
        match found {
            None => None,
            Some(exts) => {
                let ghost sub = self.root.subtree_at(last_word_spec(line@));
                let mut out: Vec<String> = Vec::new();
                let mut j: usize = 0;
                while j < exts.len()
                    invariant
                        out@.len() == j,
                        j <= exts@.len(),
                        forall|m: int| 0 <= m < j ==> (#[trigger] out@[m]@) == line@ + exts@[m]@,
                    decreases exts@.len() - j,
                {
                    let s = append_chars(line, &exts[j]);
                    out.push(s);
                    j = j + 1;
                }
                proof {
                    lemma_complete_out(*self, line@, exts@, out@);
                }
                let res: Option<Vec<String>> = Some(out);
                proof {
                    assert forall|s: Seq<char>|
                        self.root.subtree_at(last_word_spec(line@)).contains_word(
                            s,
                        ) implies exists|j: int|
                        0 <= j < res->0@.len() && (#[trigger] res->0@[j]@) == line@ + s by {
                        let j = choose|j: int| 0 <= j < res->0@.len() && res->0@[j]@ == line@ + s;
                        assert(0 <= j < res->0@.len() && res->0@[j]@ == line@ + s);
                    }
                }
                res
            },
        }
    }

    /// Clears all stored words; the tree shrinks back to its root, and the
    /// inclusion set, minimum word length and separator stay.
    pub fn clear(&mut self)
        ensures
            final(self).wf(),
            final(self).root.wc() == 0,
            final(self).root.size() == 1,
            forall|w: Seq<char>| !final(self).contains(w),
            final(self).inclusions == old(self).inclusions,
            final(self).min_word_len == old(self).min_word_len,
            final(self).separator == old(self).separator,
    {
        self.root = CompletionNode::new();
    }

    /// Returns how many words the tree stores, topping out at `u32::MAX`.
    pub fn word_count(&self) -> (r: u32)
        ensures
            r == clamp32(self.root.wc()),
    {
        self.root.word_count()
    }

    /// Returns how many nodes the tree holds, the root included, topping
    /// out at `u32::MAX`.
    pub fn size(&self) -> (r: u32)
        ensures
            r == clamp32(self.root.size()),
    {
        self.root.subnode_count()
    }

    /// Returns the minimum character length a token needs to be inserted.
    pub fn min_word_len(&self) -> (r: usize)
        ensures
            r == self.min_word_len,
    {
        self.min_word_len
    }

    /// Sets the minimum character length for future insertions. Nothing
    /// already stored changes, and nothing skipped earlier appears.
    pub fn set_min_word_len(&mut self, len: usize)
        ensures
            final(self).min_word_len == len,
            final(self).root == old(self).root,
            final(self).inclusions == old(self).inclusions,
            final(self).separator == old(self).separator,
    {
        self.min_word_len = len;
    }
}

impl Default for CompletionTree {
    /// An empty tree: no inclusions, minimum word length five, whitespace
    /// separation.
    fn default() -> (r: Self)
        ensures
            r.wf(),
            r.min_word_len == 5,
            r.inclusions@ == Seq::<char>::empty(),
            r.separator == WordSeparator::Whitespace,
            r.root.wc() == 0,
            r.root.size() == 1,
            forall|w: Seq<char>| !r.contains(w),
    {
        CompletionTree {
            root: CompletionNode::new(),
            inclusions: Vec::new(),
            min_word_len: 5,
            separator: WordSeparator::Whitespace,
        }
    }
}

/// Inserting a long-enough token stores exactly its accepted form on top
/// of what the line's earlier tokens stored, and bumps the count exactly
/// when that form is a fresh word.
pub proof fn lemma_insert_token_step(
    n0: CompletionNode,
    before: CompletionNode,
    after: CompletionNode,
    toks: Seq<Seq<char>>,
    t: int,
    min: nat,
    inc: Seq<char>,
)
    requires
        0 <= t < toks.len(),
        toks[t].len() >= min,
        forall|w: Seq<char>| #![trigger before.contains_word(w)]
            before.contains_word(w) <==> (n0.contains_word(w) || inserted_word(
                toks.take(t),
                min,
                inc,
                w,
            )),
        before.wc() == n0.wc() + added_count(n0, toks.take(t), min, inc),
        forall|w: Seq<char>| #![trigger after.contains_word(w)]
            after.contains_word(w) <==> (before.contains_word(w) || w == accepted(toks[t], inc)),
        after.wc() + (if before.contains_word(accepted(toks[t], inc)) {
            1nat
        } else {
            0nat
        }) == before.wc() + 1,
    ensures
        forall|w: Seq<char>| #![trigger after.contains_word(w)]
            after.contains_word(w) <==> (n0.contains_word(w) || inserted_word(
                toks.take(t + 1),
                min,
                inc,
                w,
            )),
        after.wc() == n0.wc() + added_count(n0, toks.take(t + 1), min, inc),
{
    reveal(inserted_word);
    reveal(new_word_at);
    let acc = accepted(toks[t], inc);
    assert(toks.take(t + 1)[t] == toks[t]);
    assert forall|w: Seq<char>| #![trigger after.contains_word(w)]
        after.contains_word(w) <==> (n0.contains_word(w) || inserted_word(
            toks.take(t + 1),
            min,
            inc,
            w,
        )) by {
        if inserted_word(toks.take(t + 1), min, inc, w) {
            let u = choose|u: int|
                0 <= u < toks.take(t + 1).len() && (#[trigger] toks.take(t + 1)[u]).len() >= min
                    && w == accepted(toks.take(t + 1)[u], inc);
            if u < t {
                assert(toks.take(t)[u] == toks[u]);
                assert(inserted_word(toks.take(t), min, inc, w));
            } else {
                assert(w == acc);
            }
        }
        if inserted_word(toks.take(t), min, inc, w) {
            let u = choose|u: int|
                0 <= u < toks.take(t).len() && (#[trigger] toks.take(t)[u]).len() >= min && w
                    == accepted(toks.take(t)[u], inc);
            assert(toks.take(t + 1)[u] == toks[u]);
            assert(inserted_word(toks.take(t + 1), min, inc, w));
        }
        if w == acc {
            assert((toks.take(t + 1)[t]).len() >= min);
            assert(inserted_word(toks.take(t + 1), min, inc, w));
        }
    }
    assert(toks.take(t + 1).drop_last() =~= toks.take(t));
    assert(new_word_at(n0, toks.take(t + 1), min, inc, t) <==> !before.contains_word(acc)) by {
        assert forall|u: int| 0 <= u < t implies toks.take(t + 1)[u] == toks[u] && toks.take(t)[u]
            == toks[u] by {}
        if !before.contains_word(acc) {
            assert(!n0.contains_word(acc));
            assert(!inserted_word(toks.take(t), min, inc, acc));
            assert forall|u: int|
                0 <= u < t && (#[trigger] toks.take(t + 1)[u]).len() >= min implies accepted(
                toks.take(t + 1)[u],
                inc,
            ) != accepted(toks.take(t + 1)[t], inc) by {
                if accepted(toks.take(t + 1)[u], inc) == acc {
                    assert(toks.take(t)[u].len() >= min && acc == accepted(toks.take(t)[u], inc));
                    assert(inserted_word(toks.take(t), min, inc, acc));
                }
            }
        }
        if new_word_at(n0, toks.take(t + 1), min, inc, t) {
            assert(!n0.contains_word(acc));
            assert(!inserted_word(toks.take(t), min, inc, acc)) by {
                if inserted_word(toks.take(t), min, inc, acc) {
                    let u = choose|u: int|
                        0 <= u < toks.take(t).len() && (#[trigger] toks.take(t)[u]).len() >= min
                            && acc == accepted(toks.take(t)[u], inc);
                    assert(toks.take(t + 1)[u].len() >= min);
                    assert(accepted(toks.take(t + 1)[u], inc) != accepted(
                        toks.take(t + 1)[t],
                        inc,
                    ));
                }
            }
        }
    }
}

/// A token shorter than the minimum changes neither the stored words nor
/// the count.
pub proof fn lemma_skip_token_step(
    n0: CompletionNode,
    cur: CompletionNode,
    toks: Seq<Seq<char>>,
    t: int,
    min: nat,
    inc: Seq<char>,
)
    requires
        0 <= t < toks.len(),
        toks[t].len() < min,
        forall|w: Seq<char>| #![trigger cur.contains_word(w)]
            cur.contains_word(w) <==> (n0.contains_word(w) || inserted_word(
                toks.take(t),
                min,
                inc,
                w,
            )),
    ensures
        forall|w: Seq<char>| #![trigger cur.contains_word(w)]
            cur.contains_word(w) <==> (n0.contains_word(w) || inserted_word(
                toks.take(t + 1),
                min,
                inc,
                w,
            )),
        added_count(n0, toks.take(t + 1), min, inc) == added_count(n0, toks.take(t), min, inc),
{
    reveal(inserted_word);
    reveal(new_word_at);
    assert(toks.take(t + 1)[t] == toks[t]);
    assert forall|w: Seq<char>|
        inserted_word(toks.take(t + 1), min, inc, w) <==> inserted_word(
            toks.take(t),
            min,
            inc,
            w,
        ) by {
        if inserted_word(toks.take(t + 1), min, inc, w) {
            let u = choose|u: int|
                0 <= u < toks.take(t + 1).len() && (#[trigger] toks.take(t + 1)[u]).len() >= min
                    && w == accepted(toks.take(t + 1)[u], inc);
            assert(u != t);
            assert(toks.take(t)[u] == toks[u] && toks.take(t + 1)[u] == toks[u]);
            assert(inserted_word(toks.take(t), min, inc, w));
        }
        if inserted_word(toks.take(t), min, inc, w) {
            let u = choose|u: int|
                0 <= u < toks.take(t).len() && (#[trigger] toks.take(t)[u]).len() >= min && w
                    == accepted(toks.take(t)[u], inc);
            assert(toks.take(t + 1)[u] == toks[u]);
            assert(inserted_word(toks.take(t + 1), min, inc, w));
        }
    }
    assert(toks.take(t + 1).drop_last() =~= toks.take(t));
    assert(!new_word_at(n0, toks.take(t + 1), min, inc, t));
    assert forall|w: Seq<char>| #![trigger cur.contains_word(w)]
        cur.contains_word(w) <==> (n0.contains_word(w) || inserted_word(
            toks.take(t + 1),
            min,
            inc,
            w,
        )) by {
        assert(cur.contains_word(w) <==> (n0.contains_word(w) || inserted_word(
            toks.take(t),
            min,
            inc,
            w,
        )));
        assert(inserted_word(toks.take(t + 1), min, inc, w) <==> inserted_word(
            toks.take(t),
            min,
            inc,
            w,
        ));
    }
}

/// Appending each discovered remainder to the input line keeps the
/// completion facts: every result extends the line by a stored remainder,
/// every stored remainder appears, and the order stays strictly ascending.
pub proof fn lemma_complete_out(
    tree: CompletionTree,
    line: Seq<char>,
    exts: Seq<Vec<char>>,
    out: Seq<String>,
)
    requires
        out.len() == exts.len(),
        forall|m: int| 0 <= m < out.len() ==> (#[trigger] out[m]@) == line + exts[m]@,
        forall|j: int|
            0 <= j < exts.len() ==> tree.root.subtree_at(last_word_spec(line)).contains_word(
                #[trigger] exts[j]@,
            ),
        forall|s: Seq<char>|
            tree.root.subtree_at(last_word_spec(line)).contains_word(s) ==> exists|j: int|
                0 <= j < exts.len() && (#[trigger] exts[j]@) == s,
        forall|j1: int, j2: int|
            0 <= j1 < j2 < exts.len() ==> lex_lt(#[trigger] exts[j1]@, #[trigger] exts[j2]@),
    ensures
        forall|j: int|
            0 <= j < out.len() ==> (#[trigger] out[j]@).len() >= line.len() && out[j]@.take(
                line.len() as int,
            ) == line && tree.root.subtree_at(last_word_spec(line)).contains_word(
                out[j]@.skip(line.len() as int),
            ),
        forall|s: Seq<char>|
            tree.root.subtree_at(last_word_spec(line)).contains_word(s) ==> exists|j: int|
                0 <= j < out.len() && (#[trigger] out[j]@) == line + s,
        forall|j1: int, j2: int|
            0 <= j1 < j2 < out.len() ==> lex_lt(#[trigger] out[j1]@, #[trigger] out[j2]@),
{
    let sub = tree.root.subtree_at(last_word_spec(line));
    assert forall|j: int| 0 <= j < out.len() implies (#[trigger] out[j]@).len() >= line.len()
        && out[j]@.take(line.len() as int) == line && sub.contains_word(
        out[j]@.skip(line.len() as int),
    ) by {
        assert(out[j]@ == line + exts[j]@);
        assert(out[j]@.take(line.len() as int) =~= line);
        assert(out[j]@.skip(line.len() as int) =~= exts[j]@);
    }
    assert forall|s: Seq<char>| sub.contains_word(s) implies exists|j: int|
        0 <= j < out.len() && (#[trigger] out[j]@) == line + s by {
        let j = choose|j: int| 0 <= j < exts.len() && exts[j]@ == s;
        assert(out[j]@ == line + s);
    }
    assert forall|j1: int, j2: int| 0 <= j1 < j2 < out.len() implies lex_lt(
        #[trigger] out[j1]@,
        #[trigger] out[j2]@,
    ) by {
        lemma_lex_prepend(line, exts[j1]@, exts[j2]@);
    }
}

} // verus!

//! The trie vertex: a mapping from characters to child nodes, plus a flag
//! marking that a stored word ends here.
//!
//! The children are kept strictly sorted by character code point, so that
//! enumeration is deterministic and collected completions come out sorted.

use vstd::prelude::*;

use crate::chars::accepted;
use crate::chars::clone_chars;
use crate::chars::constituent;
use crate::chars::constituent_spec;
use crate::order::lemma_common_prefix_lt;
use crate::order::lemma_proper_prefix_lt;
use crate::order::lex_lt;

verus! {

/// One vertex of the completion trie.
#[derive(Debug)]
pub struct CompletionNode {
    /// Child edges, strictly sorted ascending by character code point.
    pub children: Vec<(char, CompletionNode)>,
    /// True when some inserted word's accepted form ends exactly here.
    pub leaf: bool,
}

impl CompletionNode {
    /// The subtree stores the word `w`: walking `w`'s characters from this
    /// node ends at a node whose leaf flag is set.
    pub open spec fn contains_word(self, w: Seq<char>) -> bool
        decreases w.len(),
    {
        if w.len() == 0 {
            self.leaf
        } else {
            exists|i: int|
                0 <= i < self.children@.len() && self.children@[i].0 == w[0]
                    && self.children@[i].1.contains_word(w.drop_first())
        }
    }

    /// Some word ends in this subtree.
    pub open spec fn has_word(self) -> bool {
        exists|w: Seq<char>| self.contains_word(w)
    }

    /// Well-formed: keys strictly sorted (hence unique), every child
    /// well-formed, and every child subtree holds at least one word.
    pub open spec fn wf(self) -> bool
        decreases self,
    {
        &&& (forall|i: int, j: int|
            0 <= i < j < self.children@.len() ==> (#[trigger] self.children@[i].0) < (#[trigger] self.children@[j].0))
        &&& (forall|i: int|
            0 <= i < self.children@.len() ==> (#[trigger] self.children@[i].1).wf())
        &&& (forall|i: int|
            0 <= i < self.children@.len() ==> (#[trigger] self.children@[i].1).has_word())
    }

    /// Walking the characters of `p` from this node stays inside the trie.
    pub open spec fn has_path(self, p: Seq<char>) -> bool
        decreases p.len(),
    {
        if p.len() == 0 {
            true
        } else {
            exists|i: int|
                0 <= i < self.children@.len() && self.children@[i].0 == p[0]
                    && self.children@[i].1.has_path(p.drop_first())
        }
    }

    /// The node reached by walking `p`; meaningful only when `has_path(p)`.
    pub open spec fn subtree_at(self, p: Seq<char>) -> CompletionNode
        decreases p.len(),
    {
        if p.len() == 0 {
            self
        } else {
            let i = choose|i: int|
                0 <= i < self.children@.len() && self.children@[i].0 == p[0]
                    && self.children@[i].1.has_path(p.drop_first());
            self.children@[i].1.subtree_at(p.drop_first())
        }
    }

    /// Number of words stored in this subtree: one per set leaf flag.
    pub open spec fn wc(self) -> nat
        decreases self, 1int,
    {
        (if self.leaf {
            1nat
        } else {
            0nat
        }) + wc_seq(self.children@)
    }

    /// Number of nodes in this subtree, this node included.
    pub open spec fn size(self) -> nat
        decreases self, 1int,
    {
        1 + size_seq(self.children@)
    }

    /// A fresh node: no children, no word ends here.
    pub fn new() -> (r: Self)
        ensures
            r.wf(),
            r.wc() == 0,
            r.size() == 1,
            !r.leaf,
            r.children@.len() == 0,
            forall|w: Seq<char>| !r.contains_word(w),
    {
        let r = CompletionNode { children: Vec::new(), leaf: false };
        proof {
            assert(forall|w: Seq<char>| !r.contains_word(w)) by {
                assert(forall|w: Seq<char>| w.len() == 0 ==> !r.contains_word(w));
                assert(forall|w: Seq<char>| w.len() != 0 ==> !r.contains_word(w));
            }
        }
        r
    }

    /// Finds the child keyed by `c`: `(true, k)` when child `k` carries `c`,
    /// else `(false, k)` with `k` the slot where such a child would keep the
    /// keys sorted.
    pub fn find_slot(&self, c: char) -> (r: (bool, usize))
        requires
            self.wf(),
        ensures
            r.1 <= self.children@.len(),
            r.0 ==> r.1 < self.children@.len() && self.children@[r.1 as int].0 == c,
            !r.0 ==> forall|j: int|
                0 <= j < self.children@.len() ==> (#[trigger] self.children@[j].0) != c,
            forall|j: int| 0 <= j < r.1 ==> (#[trigger] self.children@[j].0) < c,
            !r.0 ==> forall|j: int|
                r.1 <= j < self.children@.len() ==> c < (#[trigger] self.children@[j].0),
    {
        let n = self.children.len();
        let mut k: usize = 0;
        while k < n && self.children[k].0 < c
            invariant
                n == self.children@.len(),
                k <= n,
                forall|j: int| 0 <= j < k ==> (#[trigger] self.children@[j].0) < c,
            decreases n - k,
        {
            k = k + 1;
        }
        if k < n && self.children[k].0 == c {
            (true, k)
        } else {
            proof {
                if k < n {
                    assert(self.children@[k as int].0 != c);
                    assert(forall|j: int|
                        k < j < self.children@.len() ==> (#[trigger] self.children@[j].0)
                            > self.children@[k as int].0);
                }
            }
            (false, k)
        }
    }

    /// Inserts the suffix `w[i..]` below this node: walks constituent
    /// characters, creating children as needed, and marks the node reached
    /// at the word's end -- or at its first non-constituent character -- as
    /// a word end. Exactly the accepted form of the suffix becomes a stored
    /// word; everything already stored stays.
    pub fn insert_rec(&mut self, w: &Vec<char>, i: usize, incl: &Vec<char>)
        requires
            old(self).wf(),
            i <= w@.len(),
        ensures
            final(self).wf(),
            forall|s: Seq<char>|
                final(self).contains_word(s) <==> (old(self).contains_word(s) || s == accepted(
                    w@.skip(i as int),
                    incl@,
                )),
            final(self).wc() + (if old(self).contains_word(
                accepted(w@.skip(i as int), incl@),
            ) {
                1nat
            } else {
                0nat
            }) == old(self).wc() + 1,
            old(self).size() <= final(self).size() <= old(self).size() + (w@.len() - i),
        decreases w@.len() - i,
    {
        if i == w.len() {
            self.leaf = true;
            proof {
                assert(w@.skip(i as int).len() == 0);
                lemma_mark_leaf(*old(self), *self, accepted(w@.skip(i as int), incl@));
            }
        } else {
            let c = w[i];
            proof {
                assert(w@.skip(i as int)[0] == w@[i as int]);
            }
            if constituent(c, incl) {
                proof {
                    assert(w@.skip(i as int).drop_first() =~= w@.skip(i as int + 1));
                }
                let r = self.find_slot(c);
                let k = r.1;
                if r.0 {
                    let pair = self.children.remove(k);
                    let kc = pair.0;
                    let mut child = pair.1;
                    child.insert_rec(w, i + 1, incl);
                    self.children.insert(k, (kc, child));
                    proof {
                        assert(self.children@ =~= old(self).children@.update(
                            k as int,
                            (c, child),
                        ));
                        lemma_update_child(
                            *old(self),
                            *self,
                            k as int,
                            child,
                            c,
                            w@.skip(i as int),
                            incl@,
                        );
                    }
                } else {
                    let mut child = CompletionNode::new();
                    child.insert_rec(w, i + 1, incl);
                    self.children.insert(k, (c, child));
                    proof {
                        lemma_insert_child(
                            *old(self),
                            *self,
                            k as int,
                            child,
                            c,
                            w@.skip(i as int),
                            incl@,
                        );
                    }
                }
            } else {
                self.leaf = true;
                proof {
                    assert(!constituent_spec(w@.skip(i as int)[0], incl@));
                    assert(accepted(w@.skip(i as int), incl@).len() == 0);
                    lemma_mark_leaf(*old(self), *self, accepted(w@.skip(i as int), incl@));
                }
            }
        }
    }

    /// Walks the characters `p[i..]` from this node. Returns the words
    /// stored below the node reached, sorted ascending, each given as a
    /// full word relative to that node; or `None` when the walk falls off
    /// the trie.
    pub fn complete_rec(&self, p: &Vec<char>, i: usize) -> (r: Option<Vec<Vec<char>>>)
        requires
            self.wf(),
            i <= p@.len(),
        ensures
            r is Some <==> self.has_path(p@.skip(i as int)),
            r is Some ==> forall|j: int|
                0 <= j < r->0@.len() ==> self.subtree_at(p@.skip(i as int)).contains_word(
                    #[trigger] r->0@[j]@,
                ),
            r is Some ==> forall|s: Seq<char>|
                self.subtree_at(p@.skip(i as int)).contains_word(s) ==> exists|j: int|
                    0 <= j < r->0@.len() && #[trigger] r->0@[j]@ == s,
            r is Some ==> forall|j1: int, j2: int|
                0 <= j1 < j2 < r->0@.len() ==> lex_lt(#[trigger] r->0@[j1]@, #[trigger] r->0@[j2]@),
        decreases p@.len() - i,
    {
        if i == p.len() {
            proof {
                assert(p@.skip(i as int).len() == 0);
            }
            let empty: Vec<char> = Vec::new();
            let out = self.collect(&empty);
            proof {
                assert(self.subtree_at(p@.skip(i as int)) == *self);
                assert(forall|j: int|
                    0 <= j < out@.len() ==> (#[trigger] out@[j]@).skip(0) =~= out@[j]@);
                assert forall|s: Seq<char>| self.contains_word(s) implies exists|j: int|
                    0 <= j < out@.len() && #[trigger] out@[j]@ == s by {
                    let j = choose|j: int| 0 <= j < out@.len() && out@[j]@ == Seq::<char>::empty() + s;
                    assert(Seq::<char>::empty() + s =~= s);
                    assert(out@[j]@ == s);
                }
            }
            Some(out)
        } else {
            let c = p[i];
            proof {
                assert(p@.skip(i as int)[0] == p@[i as int]);
                assert(p@.skip(i as int).drop_first() =~= p@.skip(i as int + 1));
            }
            let r = self.find_slot(c);
            let k = r.1;
            if r.0 {
                proof {
                    assert(decreases_to!(*self => self.children@[k as int].1));
                    lemma_step_child(*self, k as int, p@.skip(i as int));
                }
                self.children[k].1.complete_rec(p, i + 1)
            } else {
                proof {
                    assert(!self.has_path(p@.skip(i as int))) by {
                        if self.has_path(p@.skip(i as int)) {
                            let m = choose|m: int|
                                0 <= m < self.children@.len() && self.children@[m].0 == p@.skip(
                                    i as int,
                                )[0] && self.children@[m].1.has_path(p@.skip(i as int).drop_first());
                            assert(self.children@[m].0 != c);
                        }
                    }
                }
                None
            }
        }
    }

    /// Gathers every word stored in this subtree, each prefixed by
    /// `partial`, in ascending lexicographic order.
    pub fn collect(&self, partial: &Vec<char>) -> (r: Vec<Vec<char>>)
        requires
            self.wf(),
        ensures
            forall|j: int|
                0 <= j < r@.len() ==> (#[trigger] r@[j]@).len() >= partial@.len() && r@[j]@.take(
                    partial@.len() as int,
                ) == partial@ && self.contains_word(r@[j]@.skip(partial@.len() as int)),
            forall|s: Seq<char>|
                self.contains_word(s) ==> exists|j: int|
                    0 <= j < r@.len() && #[trigger] r@[j]@ == partial@ + s,
            forall|j1: int, j2: int|
                0 <= j1 < j2 < r@.len() ==> lex_lt(#[trigger] r@[j1]@, #[trigger] r@[j2]@),
        decreases *self,
    {
        let ghost pp = partial@;
        let ghost ch = self.children@;
        let mut out: Vec<Vec<char>> = Vec::new();
        if self.leaf {
            out.push(clone_chars(partial));
            proof {
                lemma_collected_init_leaf(*self, pp, out@);
            }
        } else {
            proof {
                lemma_collected_init_empty(*self, pp);
            }
        }
        let mut k: usize = 0;
        while k < self.children.len()
            invariant
                self.wf(),
                pp == partial@,
                ch == self.children@,
                k <= ch.len(),
                collected_ok(*self, pp, k as int, out@),
            decreases ch.len() - k,
        {
            let c = self.children[k].0;
            let mut p2 = clone_chars(partial);
            p2.push(c);
            proof {
                assert(decreases_to!(*self => self.children@[k as int].1));
                assert(p2@ == pp.push(c));
            }
            let mut sub = self.children[k].1.collect(&p2);
            let ghost old_out = out@;
            let ghost subs = sub@;
            out.append(&mut sub);
            proof {
                lemma_collect_step(*self, pp, k as int, old_out, subs, out@);
            }
            k = k + 1;
        }
        proof {
            lemma_collected_finish(*self, pp, out@);
        }
        out
    }

    /// Counts the words in this subtree, topping out at `u32::MAX`.
    pub fn word_count(&self) -> (r: u32)
        ensures
            r == clamp32(self.wc()),
        decreases *self,
    {
        let mut total: u32 = if self.leaf {
            1
        } else {
            0
        };
        let mut k: usize = 0;
        while k < self.children.len()
            invariant
                k <= self.children@.len(),
                total == clamp32(
                    (if self.leaf {
                        1nat
                    } else {
                        0nat
                    }) + wc_seq(self.children@.take(k as int)),
                ),
            decreases self.children@.len() - k,
        {
            proof {
                assert(decreases_to!(*self => self.children@[k as int].1));
                lemma_wc_seq_take_step(self.children@, k as int);
            }
            let sub = self.children[k].1.word_count();
            total = total.saturating_add(sub);
            k = k + 1;
        }
        proof {
            assert(self.children@.take(self.children@.len() as int) == self.children@);
        }
        total
    }

    /// Counts the nodes in this subtree, topping out at `u32::MAX`.
    pub fn subnode_count(&self) -> (r: u32)
        ensures
            r == clamp32(self.size()),
        decreases *self,
    {
        let mut total: u32 = 1;
        let mut k: usize = 0;
        while k < self.children.len()
            invariant
                k <= self.children@.len(),
                total == clamp32(1 + size_seq(self.children@.take(k as int))),
            decreases self.children@.len() - k,
        {
            proof {
                assert(decreases_to!(*self => self.children@[k as int].1));
                lemma_size_seq_take_step(self.children@, k as int);
            }
            let sub = self.children[k].1.subnode_count();
            total = total.saturating_add(sub);
            k = k + 1;
        }
        proof {
            assert(self.children@.take(self.children@.len() as int) == self.children@);
        }
        total
    }
}

/// A count reported through a `u32`: exact until it would overflow.
pub open spec fn clamp32(n: nat) -> u32 {
    if n > u32::MAX {
        u32::MAX
    } else {
        n as u32
    }
}

/// Sum of the word counts of the children in `s`.
pub open spec fn wc_seq(s: Seq<(char, CompletionNode)>) -> nat
    decreases s, 0int,
{
    if s.len() == 0 {
        0nat
    } else {
        s[0].1.wc() + wc_seq(s.drop_first())
    }
}

/// Sum of the node counts of the children in `s`.
pub open spec fn size_seq(s: Seq<(char, CompletionNode)>) -> nat
    decreases s, 0int,
{
    if s.len() == 0 {
        0nat
    } else {
        s[0].1.size() + size_seq(s.drop_first())
    }
}

/// Word containment below the first character only looks at the children,
/// so nodes with equal child lists store the same non-empty words.
pub proof fn lemma_same_children_contains(a: CompletionNode, b: CompletionNode, s: Seq<char>)
    requires
        a.children@ == b.children@,
        s.len() > 0,
    ensures
        a.contains_word(s) == b.contains_word(s),
{
    if a.contains_word(s) {
        let i = choose|i: int|
            0 <= i < a.children@.len() && a.children@[i].0 == s[0]
                && a.children@[i].1.contains_word(s.drop_first());
        assert(0 <= i < b.children@.len() && b.children@[i].0 == s[0]
            && b.children@[i].1.contains_word(s.drop_first()));
    }
    if b.contains_word(s) {
        let i = choose|i: int|
            0 <= i < b.children@.len() && b.children@[i].0 == s[0]
                && b.children@[i].1.contains_word(s.drop_first());
        assert(0 <= i < a.children@.len() && a.children@[i].0 == s[0]
            && a.children@[i].1.contains_word(s.drop_first()));
    }
}

/// In a well-formed node the keys are pairwise distinct, so a word that
/// starts with child `j`'s key is stored iff its tail is stored below
/// child `j`.
pub proof fn lemma_contains_via_child(n: CompletionNode, j: int, s: Seq<char>)
    requires
        n.wf(),
        s.len() > 0,
        0 <= j < n.children@.len(),
        n.children@[j].0 == s[0],
    ensures
        n.contains_word(s) <==> n.children@[j].1.contains_word(s.drop_first()),
{
    if n.contains_word(s) {
        let i = choose|i: int|
            0 <= i < n.children@.len() && n.children@[i].0 == s[0]
                && n.children@[i].1.contains_word(s.drop_first());
        if i < j {
            assert(n.children@[i].0 < n.children@[j].0);
        } else if j < i {
            assert(n.children@[j].0 < n.children@[i].0);
        }
        assert(i == j);
    }
}

/// In a well-formed node the keys are pairwise distinct, so walking and
/// landing go through the unique child that carries the next character.
pub proof fn lemma_step_child(n: CompletionNode, j: int, p: Seq<char>)
    requires
        n.wf(),
        p.len() > 0,
        0 <= j < n.children@.len(),
        n.children@[j].0 == p[0],
    ensures
        n.has_path(p) <==> n.children@[j].1.has_path(p.drop_first()),
        n.has_path(p) ==> n.subtree_at(p) == n.children@[j].1.subtree_at(p.drop_first()),
{
    if n.has_path(p) {
        let i = choose|i: int|
            0 <= i < n.children@.len() && n.children@[i].0 == p[0]
                && n.children@[i].1.has_path(p.drop_first());
        if i < j {
            assert(n.children@[i].0 < n.children@[j].0);
        } else if j < i {
            assert(n.children@[j].0 < n.children@[i].0);
        }
        assert(i == j);
    }
    if n.children@[j].1.has_path(p.drop_first()) {
        assert(n.has_path(p));
    }
}

/// The state `collect` maintains while walking the children: every word
/// gathered into `out` so far extends `pp`, is stored in `n`'s subtree,
/// continues (if at all) below one of the first `k` children, every stored
/// word that ends here or continues below those children was gathered, and
/// the gathered words are sorted ascending.
#[verifier::opaque]
pub open spec fn collected_ok(
    n: CompletionNode,
    pp: Seq<char>,
    k: int,
    out: Seq<Vec<char>>,
) -> bool {
    &&& (forall|j: int|
        0 <= j < out.len() ==> (#[trigger] out[j]@).len() >= pp.len() && out[j]@.take(
            pp.len() as int,
        ) == pp && n.contains_word(out[j]@.skip(pp.len() as int)))
    &&& (forall|j: int|
        0 <= j < out.len() ==> (#[trigger] out[j]@).len() == pp.len() || (out[j]@.len() > pp.len()
            && exists|m: int| 0 <= m < k && out[j]@[pp.len() as int] == n.children@[m].0))
    &&& (forall|s: Seq<char>|
        n.contains_word(s) && (s.len() == 0 || exists|m: int|
            0 <= m < k && n.children@[m].0 == s[0]) ==> exists|j: int|
            0 <= j < out.len() && (#[trigger] out[j]@) == pp + s)
    &&& (forall|j1: int, j2: int|
        0 <= j1 < j2 < out.len() ==> lex_lt(#[trigger] out[j1]@, #[trigger] out[j2]@))
}

/// Before any child is visited, a node that ends no word has gathered
/// nothing.
pub proof fn lemma_collected_init_empty(n: CompletionNode, pp: Seq<char>)
    requires
        !n.leaf,
    ensures
        collected_ok(n, pp, 0, Seq::<Vec<char>>::empty()),
{
    reveal(collected_ok);
    let out = Seq::<Vec<char>>::empty();
    assert forall|s: Seq<char>|
        n.contains_word(s) && (s.len() == 0 || exists|m: int|
            0 <= m < 0 && n.children@[m].0 == s[0]) implies exists|j: int|
        0 <= j < out.len() && (#[trigger] out[j]@) == pp + s by {
        assert(s.len() == 0);
        assert(n.leaf);
    }
}

/// Before any child is visited, a node that ends a word has gathered
/// exactly the prefix itself.
pub proof fn lemma_collected_init_leaf(n: CompletionNode, pp: Seq<char>, out: Seq<Vec<char>>)
    requires
        n.leaf,
        out.len() == 1,
        out[0]@ == pp,
    ensures
        collected_ok(n, pp, 0, out),
{
    reveal(collected_ok);
    let ll = pp.len() as int;
    assert(out[0]@.take(ll) =~= pp);
    assert(out[0]@.skip(ll) =~= Seq::<char>::empty());
    assert(n.contains_word(out[0]@.skip(ll)));
    assert forall|s: Seq<char>|
        n.contains_word(s) && (s.len() == 0 || exists|m: int|
            0 <= m < 0 && n.children@[m].0 == s[0]) implies exists|j: int|
        0 <= j < out.len() && (#[trigger] out[j]@) == pp + s by {
        assert(s.len() == 0);
        assert(pp + s =~= pp);
        assert(out[0]@ == pp + s);
    }
}

/// Concatenation keeps every gathered word extending `pp` and stored.
pub proof fn lemma_part_sound(
    n: CompletionNode,
    pp: Seq<char>,
    old_out: Seq<Vec<char>>,
    subs: Seq<Vec<char>>,
    new_out: Seq<Vec<char>>,
)
    requires
        new_out == old_out + subs,
        forall|j: int|
            0 <= j < old_out.len() ==> (#[trigger] old_out[j]@).len() >= pp.len()
                && old_out[j]@.take(pp.len() as int) == pp && n.contains_word(
                old_out[j]@.skip(pp.len() as int),
            ),
        forall|j: int|
            0 <= j < subs.len() ==> (#[trigger] subs[j]@).len() > pp.len() && subs[j]@.take(
                pp.len() as int,
            ) == pp && n.contains_word(subs[j]@.skip(pp.len() as int)),
    ensures
        forall|j: int|
            0 <= j < new_out.len() ==> (#[trigger] new_out[j]@).len() >= pp.len()
                && new_out[j]@.take(pp.len() as int) == pp && n.contains_word(
                new_out[j]@.skip(pp.len() as int),
            ),
{
    assert forall|j: int| 0 <= j < new_out.len() implies (#[trigger] new_out[j]@).len() >= pp.len()
        && new_out[j]@.take(pp.len() as int) == pp && n.contains_word(
        new_out[j]@.skip(pp.len() as int),
    ) by {
        if j < old_out.len() {
            assert(new_out[j]@ == old_out[j]@);
        } else {
            assert(new_out[j]@ == subs[j - old_out.len()]@);
        }
    }
}

/// Concatenation keeps every gathered word keyed below a visited child.
pub proof fn lemma_part_keys(
    n: CompletionNode,
    pp: Seq<char>,
    k: int,
    old_out: Seq<Vec<char>>,
    subs: Seq<Vec<char>>,
    new_out: Seq<Vec<char>>,
)
    requires
        0 <= k < n.children@.len(),
        new_out == old_out + subs,
        forall|j: int|
            0 <= j < old_out.len() ==> (#[trigger] old_out[j]@).len() == pp.len() || (
            old_out[j]@.len() > pp.len() && exists|m: int|
                0 <= m < k && old_out[j]@[pp.len() as int] == n.children@[m].0),
        forall|j: int|
            0 <= j < subs.len() ==> (#[trigger] subs[j]@).len() > pp.len()
                && subs[j]@[pp.len() as int] == n.children@[k].0,
    ensures
        forall|j: int|
            0 <= j < new_out.len() ==> (#[trigger] new_out[j]@).len() == pp.len() || (
            new_out[j]@.len() > pp.len() && exists|m: int|
                0 <= m < k + 1 && new_out[j]@[pp.len() as int] == n.children@[m].0),
{
    let ll = pp.len() as int;
    assert forall|j: int| 0 <= j < new_out.len() implies (#[trigger] new_out[j]@).len() == pp.len()
        || (new_out[j]@.len() > pp.len() && exists|m: int|
        0 <= m < k + 1 && new_out[j]@[ll] == n.children@[m].0) by {
        if j < old_out.len() {
            assert(new_out[j]@ == old_out[j]@);
            if old_out[j]@.len() != pp.len() {
                let m = choose|m: int| 0 <= m < k && old_out[j]@[ll] == n.children@[m].0;
                assert(0 <= m < k + 1 && new_out[j]@[ll] == n.children@[m].0);
            }
        } else {
            assert(new_out[j]@ == subs[j - old_out.len()]@);
            assert(0 <= k < k + 1 && new_out[j]@[ll] == n.children@[k].0);
        }
    }
}

/// Concatenation stays complete: words seen before stay found, and words
/// continuing below child `k` are found in the appended part.
pub proof fn lemma_part_complete(
    n: CompletionNode,
    pp: Seq<char>,
    k: int,
    old_out: Seq<Vec<char>>,
    subs: Seq<Vec<char>>,
    new_out: Seq<Vec<char>>,
)
    requires
        n.wf(),
        0 <= k < n.children@.len(),
        new_out == old_out + subs,
        forall|s: Seq<char>|
            n.contains_word(s) && (s.len() == 0 || exists|m: int|
                0 <= m < k && n.children@[m].0 == s[0]) ==> exists|j: int|
                0 <= j < old_out.len() && (#[trigger] old_out[j]@) == pp + s,
        forall|s: Seq<char>|
            n.contains_word(s) && s.len() > 0 && s[0] == n.children@[k].0 ==> exists|j: int|
                0 <= j < subs.len() && (#[trigger] subs[j]@) == pp + s,
    ensures
        forall|s: Seq<char>|
            n.contains_word(s) && (s.len() == 0 || exists|m: int|
                0 <= m < k + 1 && n.children@[m].0 == s[0]) ==> exists|j: int|
                0 <= j < new_out.len() && (#[trigger] new_out[j]@) == pp + s,
{
    let ch = n.children@;
    assert forall|s: Seq<char>|
        n.contains_word(s) && (s.len() == 0 || exists|m: int|
            0 <= m < k + 1 && ch[m].0 == s[0]) implies exists|j: int|
        0 <= j < new_out.len() && (#[trigger] new_out[j]@) == pp + s by {
        if s.len() == 0 || (exists|m: int| 0 <= m < k && ch[m].0 == s[0]) {
            let j = choose|j: int| 0 <= j < old_out.len() && old_out[j]@ == pp + s;
            assert(new_out[j]@ == pp + s);
        } else {
            let m = choose|m: int| 0 <= m < k + 1 && ch[m].0 == s[0];
            assert(m == k);
            let j = choose|j: int| 0 <= j < subs.len() && subs[j]@ == pp + s;
            assert(new_out[old_out.len() + j]@ == pp + s);
        }
    }
}

/// Concatenation stays sorted: what was gathered either is `pp` itself or
/// continues with a character below `c`, while everything appended
/// continues with `c`.
pub proof fn lemma_part_sorted(
    pp: Seq<char>,
    c: char,
    old_out: Seq<Vec<char>>,
    subs: Seq<Vec<char>>,
    new_out: Seq<Vec<char>>,
)
    requires
        new_out == old_out + subs,
        forall|j1: int, j2: int|
            0 <= j1 < j2 < old_out.len() ==> lex_lt(
                #[trigger] old_out[j1]@,
                #[trigger] old_out[j2]@,
            ),
        forall|j1: int, j2: int|
            0 <= j1 < j2 < subs.len() ==> lex_lt(#[trigger] subs[j1]@, #[trigger] subs[j2]@),
        forall|j: int|
            0 <= j < old_out.len() ==> (#[trigger] old_out[j]@).len() >= pp.len()
                && old_out[j]@.take(pp.len() as int) == pp,
        forall|j: int|
            0 <= j < old_out.len() ==> (#[trigger] old_out[j]@).len() == pp.len() || (
            old_out[j]@.len() > pp.len() && old_out[j]@[pp.len() as int] != c
                && old_out[j]@[pp.len() as int] < c),
        forall|j: int|
            0 <= j < subs.len() ==> (#[trigger] subs[j]@).len() > pp.len() && subs[j]@.take(
                pp.len() as int,
            ) == pp && subs[j]@[pp.len() as int] == c,
    ensures
        forall|j1: int, j2: int|
            0 <= j1 < j2 < new_out.len() ==> lex_lt(
                #[trigger] new_out[j1]@,
                #[trigger] new_out[j2]@,
            ),
{
    assert forall|j1: int, j2: int| 0 <= j1 < j2 < new_out.len() implies lex_lt(
        #[trigger] new_out[j1]@,
        #[trigger] new_out[j2]@,
    ) by {
        if j2 < old_out.len() {
            assert(new_out[j1]@ == old_out[j1]@ && new_out[j2]@ == old_out[j2]@);
        } else if j1 >= old_out.len() {
            assert(new_out[j1]@ == subs[j1 - old_out.len()]@ && new_out[j2]@ == subs[j2
                - old_out.len()]@);
        } else {
            let x = old_out[j1]@;
            let y = subs[j2 - old_out.len()]@;
            assert(new_out[j1]@ == x && new_out[j2]@ == y);
            lemma_cross_lt(x, y, pp, c);
        }
    }
}

/// One loop step of `collect`: appending the words gathered below child
/// `k` preserves the gathering state, advanced past that child.
pub proof fn lemma_collect_step(
    n: CompletionNode,
    pp: Seq<char>,
    k: int,
    old_out: Seq<Vec<char>>,
    subs: Seq<Vec<char>>,
    new_out: Seq<Vec<char>>,
)
    requires
        n.wf(),
        0 <= k < n.children@.len(),
        collected_ok(n, pp, k, old_out),
        new_out == old_out + subs,
        forall|j: int|
            0 <= j < subs.len() ==> (#[trigger] subs[j]@).len() >= pp.len() + 1
                && subs[j]@.take(pp.len() as int + 1) == pp.push(n.children@[k].0)
                && n.children@[k].1.contains_word(subs[j]@.skip(pp.len() as int + 1)),
        forall|s: Seq<char>|
            n.children@[k].1.contains_word(s) ==> exists|j: int|
                0 <= j < subs.len() && (#[trigger] subs[j]@) == pp.push(n.children@[k].0) + s,
        forall|j1: int, j2: int|
            0 <= j1 < j2 < subs.len() ==> lex_lt(#[trigger] subs[j1]@, #[trigger] subs[j2]@),
    ensures
        collected_ok(n, pp, k + 1, new_out),
{
    reveal(collected_ok);
    let ll = pp.len() as int;
    let ch = n.children@;
    lemma_append_sound(n, k, pp, subs);
    lemma_append_complete(n, k, pp, subs);
    assert forall|j: int|
        0 <= j < old_out.len() && (#[trigger] old_out[j]@).len() > pp.len() implies
        old_out[j]@[ll] != ch[k].0 && old_out[j]@[ll] < ch[k].0 by {
        let m = choose|m: int| 0 <= m < k && old_out[j]@[ll] == ch[m].0;
        assert(ch[m].0 < ch[k].0);
    }
    lemma_part_sound(n, pp, old_out, subs, new_out);
    lemma_part_keys(n, pp, k, old_out, subs, new_out);
    lemma_part_complete(n, pp, k, old_out, subs, new_out);
    lemma_part_sorted(pp, ch[k].0, old_out, subs, new_out);
}

/// After the last child, the gathering state gives `collect`'s contract:
/// soundness, completeness and ascending order.
pub proof fn lemma_collected_finish(n: CompletionNode, pp: Seq<char>, out: Seq<Vec<char>>)
    requires
        collected_ok(n, pp, n.children@.len() as int, out),
    ensures
        forall|j: int|
            0 <= j < out.len() ==> (#[trigger] out[j]@).len() >= pp.len() && out[j]@.take(
                pp.len() as int,
            ) == pp && n.contains_word(out[j]@.skip(pp.len() as int)),
        forall|s: Seq<char>|
            n.contains_word(s) ==> exists|j: int| 0 <= j < out.len() && #[trigger] out[j]@ == pp
                + s,
        forall|j1: int, j2: int|
            0 <= j1 < j2 < out.len() ==> lex_lt(#[trigger] out[j1]@, #[trigger] out[j2]@),
{
    reveal(collected_ok);
    assert forall|s: Seq<char>| n.contains_word(s) implies exists|j: int|
        0 <= j < out.len() && #[trigger] out[j]@ == pp + s by {
        if s.len() > 0 {
            let m = choose|m: int|
                0 <= m < n.children@.len() && n.children@[m].0 == s[0]
                    && n.children@[m].1.contains_word(s.drop_first());
            assert(0 <= m < n.children@.len() && n.children@[m].0 == s[0]);
        }
    }
}

/// A sequence that starts with `pp.push(c)` agrees with `pp` first, then
/// reads `c` where its tail after `pp` begins.
pub proof fn lemma_elem_extends(pp: Seq<char>, c: char, y: Seq<char>)
    requires
        y.len() >= pp.len() + 1,
        y.take(pp.len() as int + 1) == pp.push(c),
    ensures
        y.take(pp.len() as int) == pp,
        y[pp.len() as int] == c,
        y.skip(pp.len() as int).len() > 0,
        y.skip(pp.len() as int)[0] == c,
        y.skip(pp.len() as int).drop_first() == y.skip(pp.len() as int + 1),
{
    let ll = pp.len() as int;
    assert(y.take(ll + 1)[ll] == y[ll]);
    assert(pp.push(c)[ll] == c);
    assert forall|idx: int| 0 <= idx < ll implies y.take(ll)[idx] == pp[idx] by {
        assert(y.take(ll)[idx] == y[idx]);
        assert(y.take(ll + 1)[idx] == y[idx]);
        assert(pp.push(c)[idx] == pp[idx]);
    }
    assert(y.take(ll) =~= pp);
    assert(y.skip(ll)[0] == y[ll]);
    assert(y.skip(ll).drop_first() =~= y.skip(ll + 1));
}

/// Words gathered below child `k` under the prefix `pp` plus that child's
/// key are words of the parent under the prefix `pp`.
pub proof fn lemma_append_sound(n: CompletionNode, k: int, pp: Seq<char>, subs: Seq<Vec<char>>)
    requires
        0 <= k < n.children@.len(),
        forall|j: int|
            0 <= j < subs.len() ==> (#[trigger] subs[j]@).len() >= pp.len() + 1
                && subs[j]@.take(pp.len() as int + 1) == pp.push(n.children@[k].0)
                && n.children@[k].1.contains_word(subs[j]@.skip(pp.len() as int + 1)),
    ensures
        forall|j: int|
            0 <= j < subs.len() ==> (#[trigger] subs[j]@).len() > pp.len() && subs[j]@.take(
                pp.len() as int,
            ) == pp && subs[j]@[pp.len() as int] == n.children@[k].0 && n.contains_word(
                subs[j]@.skip(pp.len() as int),
            ),
{
    let ll = pp.len() as int;
    let c = n.children@[k].0;
    assert forall|j: int| 0 <= j < subs.len() implies (#[trigger] subs[j]@).len() > pp.len()
        && subs[j]@.take(ll) == pp && subs[j]@[ll] == c && n.contains_word(subs[j]@.skip(ll)) by {
        let y = subs[j]@;
        lemma_elem_extends(pp, c, y);
        assert(n.children@[k].0 == y.skip(ll)[0]);
        assert(n.children@[k].1.contains_word(y.skip(ll).drop_first()));
        assert(n.contains_word(y.skip(ll)));
    }
}

/// Every word of the parent that continues through child `k` appears in
/// that child's gathered list, prefixed by `pp`.
pub proof fn lemma_append_complete(n: CompletionNode, k: int, pp: Seq<char>, subs: Seq<Vec<char>>)
    requires
        n.wf(),
        0 <= k < n.children@.len(),
        forall|s: Seq<char>|
            n.children@[k].1.contains_word(s) ==> exists|j: int|
                0 <= j < subs.len() && (#[trigger] subs[j]@) == pp.push(n.children@[k].0) + s,
    ensures
        forall|s: Seq<char>|
            n.contains_word(s) && s.len() > 0 && s[0] == n.children@[k].0 ==> exists|j: int|
                0 <= j < subs.len() && (#[trigger] subs[j]@) == pp + s,
{
    let c = n.children@[k].0;
    assert forall|s: Seq<char>|
        n.contains_word(s) && s.len() > 0 && s[0] == c implies exists|j: int|
        0 <= j < subs.len() && (#[trigger] subs[j]@) == pp + s by {
        lemma_contains_via_child(n, k, s);
        let j = choose|j: int| 0 <= j < subs.len() && subs[j]@ == pp.push(c) + s.drop_first();
        assert(pp.push(c) + s.drop_first() =~= pp + s);
        assert(subs[j]@ == pp + s);
    }
}

/// A word under prefix `pp` that either is `pp` itself or continues with
/// a smaller character comes before one continuing with `cy`.
pub proof fn lemma_cross_lt(x: Seq<char>, y: Seq<char>, pp: Seq<char>, cy: char)
    requires
        x.len() >= pp.len(),
        x.take(pp.len() as int) == pp,
        y.len() > pp.len(),
        y.take(pp.len() as int) == pp,
        y[pp.len() as int] == cy,
        x.len() > pp.len() ==> x[pp.len() as int] != cy && x[pp.len() as int] < cy,
    ensures
        lex_lt(x, y),
{
    let ll = pp.len() as int;
    if x.len() == pp.len() {
        assert(x.take(ll) =~= x);
        assert(x == y.take(x.len() as int));
        lemma_proper_prefix_lt(x, y);
    } else {
        assert(x.take(ll) == y.take(ll));
        lemma_common_prefix_lt(x, y, ll);
    }
}

/// Setting the leaf flag stores exactly the empty word and keeps all else.
pub proof fn lemma_mark_leaf(a: CompletionNode, b: CompletionNode, acc: Seq<char>)
    requires
        a.wf(),
        b.children@ == a.children@,
        b.leaf == true,
        acc.len() == 0,
    ensures
        b.wf(),
        forall|s: Seq<char>| b.contains_word(s) <==> (a.contains_word(s) || s == acc),
        b.wc() + (if a.contains_word(acc) {
            1nat
        } else {
            0nat
        }) == a.wc() + 1,
        b.size() == a.size(),
{
    assert(acc =~= Seq::<char>::empty());
    assert(b.wf()) by {
        assert(forall|i: int|
            0 <= i < b.children@.len() ==> (#[trigger] b.children@[i].1).wf() && (
            #[trigger] b.children@[i].1).has_word());
    }
    assert forall|s: Seq<char>| b.contains_word(s) <==> (a.contains_word(s) || s == acc) by {
        if s.len() == 0 {
            assert(s =~= acc);
            assert(b.contains_word(s) == b.leaf);
        } else {
            lemma_same_children_contains(a, b, s);
            assert(s.len() != acc.len());
        }
    }
    assert(a.contains_word(acc) == a.leaf);
}

/// Replacing the subtree below child `k` (same key) rewires word storage
/// below that key and touches nothing else.
pub proof fn lemma_update_child(
    a: CompletionNode,
    b: CompletionNode,
    k: int,
    nc: CompletionNode,
    c: char,
    rest: Seq<char>,
    incl: Seq<char>,
)
    requires
        a.wf(),
        0 <= k < a.children@.len(),
        a.children@[k].0 == c,
        b.leaf == a.leaf,
        b.children@ == a.children@.update(k, (c, nc)),
        rest.len() > 0,
        rest[0] == c,
        constituent_spec(c, incl),
        nc.wf(),
        forall|s: Seq<char>|
            nc.contains_word(s) <==> (a.children@[k].1.contains_word(s) || s == accepted(
                rest.drop_first(),
                incl,
            )),
        nc.wc() + (if a.children@[k].1.contains_word(accepted(rest.drop_first(), incl)) {
            1nat
        } else {
            0nat
        }) == a.children@[k].1.wc() + 1,
    ensures
        b.wf(),
        forall|s: Seq<char>|
            b.contains_word(s) <==> (a.contains_word(s) || s == accepted(rest, incl)),
        b.wc() + (if a.contains_word(accepted(rest, incl)) {
            1nat
        } else {
            0nat
        }) == a.wc() + 1,
        b.size() + a.children@[k].1.size() == a.size() + nc.size(),
{
    let acc2 = accepted(rest.drop_first(), incl);
    let acc = accepted(rest, incl);
    let oc = a.children@[k].1;
    assert(acc == seq![rest[0]] + acc2);
    assert(acc[0] == c);
    assert(acc.drop_first() =~= acc2);
    assert(forall|m: int| 0 <= m < b.children@.len() ==> (#[trigger] b.children@[m]) == (if m == k {
        (c, nc)
    } else {
        a.children@[m]
    }));
    assert(b.wf()) by {
        assert forall|i2: int| 0 <= i2 < b.children@.len() implies (
        #[trigger] b.children@[i2].1).wf() && b.children@[i2].1.has_word() by {
            if i2 == k {
                assert(nc.contains_word(acc2));
            }
        }
    }
    assert forall|s: Seq<char>| b.contains_word(s) <==> (a.contains_word(s) || s == acc) by {
        if s.len() == 0 {
            assert(b.contains_word(s) == b.leaf);
            assert(a.contains_word(s) == a.leaf);
            assert(s.len() != acc.len());
        } else if s[0] == c {
            lemma_contains_via_child(b, k, s);
            lemma_contains_via_child(a, k, s);
            assert(b.children@[k].1 == nc);
            if s.drop_first() == acc2 {
                assert(s =~= acc);
            }
            if s == acc {
                assert(s.drop_first() =~= acc2);
            }
        } else {
            if b.contains_word(s) {
                let i2 = choose|i2: int|
                    0 <= i2 < b.children@.len() && b.children@[i2].0 == s[0]
                        && b.children@[i2].1.contains_word(s.drop_first());
                assert(i2 != k);
                assert(a.children@[i2].0 == s[0] && a.children@[i2].1.contains_word(
                    s.drop_first(),
                ));
            }
            if a.contains_word(s) {
                let i2 = choose|i2: int|
                    0 <= i2 < a.children@.len() && a.children@[i2].0 == s[0]
                        && a.children@[i2].1.contains_word(s.drop_first());
                assert(i2 != k);
                assert(b.children@[i2].0 == s[0] && b.children@[i2].1.contains_word(
                    s.drop_first(),
                ));
            }
            assert(s != acc) by {
                if s == acc {
                    assert(s[0] == acc[0]);
                }
            }
        }
    }
    lemma_contains_via_child(a, k, acc);
    lemma_wc_seq_update(a.children@, k, (c, nc));
    lemma_size_seq_update(a.children@, k, (c, nc));
}

/// Hanging a fresh subtree under a new key `c` at slot `k` adds exactly
/// that subtree's words and keeps the keys sorted.
pub proof fn lemma_insert_child(
    a: CompletionNode,
    b: CompletionNode,
    k: int,
    nc: CompletionNode,
    c: char,
    rest: Seq<char>,
    incl: Seq<char>,
)
    requires
        a.wf(),
        0 <= k <= a.children@.len(),
        forall|j: int| 0 <= j < k ==> (#[trigger] a.children@[j].0) < c,
        forall|j: int| k <= j < a.children@.len() ==> c < (#[trigger] a.children@[j].0),
        b.leaf == a.leaf,
        b.children@ == a.children@.insert(k, (c, nc)),
        rest.len() > 0,
        rest[0] == c,
        constituent_spec(c, incl),
        nc.wf(),
        forall|s: Seq<char>|
            nc.contains_word(s) <==> s == accepted(rest.drop_first(), incl),
        nc.wc() == 1,
    ensures
        b.wf(),
        forall|s: Seq<char>|
            b.contains_word(s) <==> (a.contains_word(s) || s == accepted(rest, incl)),
        !a.contains_word(accepted(rest, incl)),
        b.wc() == a.wc() + 1,
        b.size() == a.size() + nc.size(),
{
    let acc2 = accepted(rest.drop_first(), incl);
    let acc = accepted(rest, incl);
    assert(acc == seq![rest[0]] + acc2);
    assert(acc[0] == c);
    assert(acc.drop_first() =~= acc2);
    a.children@.insert_ensures(k, (c, nc));
    assert(b.children@[k] == (c, nc));
    assert(b.wf()) by {
        assert forall|i2: int, j2: int|
            0 <= i2 < j2 < b.children@.len() implies (#[trigger] b.children@[i2].0) < (
        #[trigger] b.children@[j2].0) by {
            if j2 < k {
            } else if i2 < k && j2 == k {
                assert(b.children@[i2] == a.children@[i2]);
            } else if i2 == k {
                assert(b.children@[j2] == a.children@[j2 - 1]);
            } else if i2 < k {
                assert(b.children@[i2] == a.children@[i2]);
                assert(b.children@[j2] == a.children@[j2 - 1]);
                assert(a.children@[i2].0 < c);
                assert(c < a.children@[j2 - 1].0);
            } else {
                assert(b.children@[i2] == a.children@[i2 - 1]);
                assert(b.children@[j2] == a.children@[j2 - 1]);
            }
        }
        assert forall|i2: int| 0 <= i2 < b.children@.len() implies (
        #[trigger] b.children@[i2].1).wf() && b.children@[i2].1.has_word() by {
            if i2 == k {
                assert(nc.contains_word(acc2));
            } else if i2 < k {
                assert(b.children@[i2] == a.children@[i2]);
            } else {
                assert(b.children@[i2] == a.children@[i2 - 1]);
            }
        }
    }
    assert forall|s: Seq<char>| b.contains_word(s) <==> (a.contains_word(s) || s == acc) by {
        if s.len() == 0 {
            assert(b.contains_word(s) == b.leaf);
            assert(a.contains_word(s) == a.leaf);
            assert(s.len() != acc.len());
        } else if s[0] == c {
            lemma_contains_via_child(b, k, s);
            assert(b.children@[k].1 == nc);
            if s.drop_first() == acc2 {
                assert(s =~= acc);
            }
            if s == acc {
                assert(s.drop_first() =~= acc2);
            }
            assert(!a.contains_word(s)) by {
                if a.contains_word(s) {
                    let i2 = choose|i2: int|
                        0 <= i2 < a.children@.len() && a.children@[i2].0 == s[0]
                            && a.children@[i2].1.contains_word(s.drop_first());
                    assert(a.children@[i2].0 != c);
                }
            }
        } else {
            if b.contains_word(s) {
                let i2 = choose|i2: int|
                    0 <= i2 < b.children@.len() && b.children@[i2].0 == s[0]
                        && b.children@[i2].1.contains_word(s.drop_first());
                assert(i2 != k);
                if i2 < k {
                    assert(a.children@[i2].0 == s[0] && a.children@[i2].1.contains_word(
                        s.drop_first(),
                    ));
                } else {
                    assert(a.children@[i2 - 1].0 == s[0] && a.children@[i2 - 1].1.contains_word(
                        s.drop_first(),
                    ));
                }
            }
            if a.contains_word(s) {
                let i2 = choose|i2: int|
                    0 <= i2 < a.children@.len() && a.children@[i2].0 == s[0]
                        && a.children@[i2].1.contains_word(s.drop_first());
                if i2 < k {
                    assert(b.children@[i2].0 == s[0] && b.children@[i2].1.contains_word(
                        s.drop_first(),
                    ));
                } else {
                    assert(b.children@[i2 + 1].0 == s[0] && b.children@[i2 + 1].1.contains_word(
                        s.drop_first(),
                    ));
                }
            }
            assert(s != acc) by {
                if s == acc {
                    assert(s[0] == acc[0]);
                }
            }
        }
    }
    assert(!a.contains_word(acc)) by {
        if a.contains_word(acc) {
            let i2 = choose|i2: int|
                0 <= i2 < a.children@.len() && a.children@[i2].0 == acc[0]
                    && a.children@[i2].1.contains_word(acc.drop_first());
            assert(a.children@[i2].0 != c);
        }
    }
    lemma_wc_seq_insert(a.children@, k, (c, nc));
    lemma_size_seq_insert(a.children@, k, (c, nc));
}

/// Replacing one child changes the summed word count by the difference.
pub proof fn lemma_wc_seq_update(s: Seq<(char, CompletionNode)>, k: int, x: (char, CompletionNode))
    requires
        0 <= k < s.len(),
    ensures
        wc_seq(s.update(k, x)) + s[k].1.wc() == wc_seq(s) + x.1.wc(),
    decreases k,
{
    reveal_with_fuel(wc_seq, 2);
    if k == 0 {
        assert(s.update(0, x)[0] == x);
        assert(s.update(0, x).drop_first() =~= s.drop_first());
    } else {
        assert(s.update(k, x)[0] == s[0]);
        assert(s.update(k, x).drop_first() =~= s.drop_first().update(k - 1, x));
        lemma_wc_seq_update(s.drop_first(), k - 1, x);
        assert(s.drop_first()[k - 1] == s[k]);
    }
}

/// Inserting one child adds exactly that child's word count to the sum.
pub proof fn lemma_wc_seq_insert(s: Seq<(char, CompletionNode)>, k: int, x: (char, CompletionNode))
    requires
        0 <= k <= s.len(),
    ensures
        wc_seq(s.insert(k, x)) == wc_seq(s) + x.1.wc(),
    decreases k,
{
    reveal_with_fuel(wc_seq, 2);
    if k == 0 {
        assert(s.insert(0, x)[0] == x);
        assert(s.insert(0, x).drop_first() =~= s);
    } else {
        assert(s.insert(k, x)[0] == s[0]);
        assert(s.insert(k, x).drop_first() =~= s.drop_first().insert(k - 1, x));
        lemma_wc_seq_insert(s.drop_first(), k - 1, x);
    }
}

/// Replacing one child changes the summed node count by the difference.
pub proof fn lemma_size_seq_update(
    s: Seq<(char, CompletionNode)>,
    k: int,
    x: (char, CompletionNode),
)
    requires
        0 <= k < s.len(),
    ensures
        size_seq(s.update(k, x)) + s[k].1.size() == size_seq(s) + x.1.size(),
    decreases k,
{
    reveal_with_fuel(size_seq, 2);
    if k == 0 {
        assert(s.update(0, x)[0] == x);
        assert(s.update(0, x).drop_first() =~= s.drop_first());
    } else {
        assert(s.update(k, x)[0] == s[0]);
        assert(s.update(k, x).drop_first() =~= s.drop_first().update(k - 1, x));
        lemma_size_seq_update(s.drop_first(), k - 1, x);
        assert(s.drop_first()[k - 1] == s[k]);
    }
}

/// Inserting one child adds exactly that child's node count to the sum.
pub proof fn lemma_size_seq_insert(
    s: Seq<(char, CompletionNode)>,
    k: int,
    x: (char, CompletionNode),
)
    requires
        0 <= k <= s.len(),
    ensures
        size_seq(s.insert(k, x)) == size_seq(s) + x.1.size(),
    decreases k,
{
    reveal_with_fuel(size_seq, 2);
    if k == 0 {
        assert(s.insert(0, x)[0] == x);
        assert(s.insert(0, x).drop_first() =~= s);
    } else {
        assert(s.insert(k, x)[0] == s[0]);
        assert(s.insert(k, x).drop_first() =~= s.drop_first().insert(k - 1, x));
        lemma_wc_seq_insert(s.drop_first(), k - 1, x);
        lemma_size_seq_insert(s.drop_first(), k - 1, x);
    }
}

/// Taking one more child adds exactly that child's word count.
pub proof fn lemma_wc_seq_take_step(s: Seq<(char, CompletionNode)>, k: int)
    requires
        0 <= k < s.len(),
    ensures
        wc_seq(s.take(k + 1)) == wc_seq(s.take(k)) + s[k].1.wc(),
    decreases k,
{
    reveal_with_fuel(wc_seq, 3);
    if k == 0 {
        assert(s.take(0).len() == 0);
        assert(s.take(1)[0] == s[0]);
        assert(s.take(1).drop_first().len() == 0);
    } else {
        assert(s.take(k + 1)[0] == s[0]);
        assert(s.take(k)[0] == s[0]);
        assert(s.take(k + 1).drop_first() == s.drop_first().take(k)) by {
            assert(s.take(k + 1).drop_first() =~= s.drop_first().take(k));
        }
        assert(s.take(k).drop_first() == s.drop_first().take(k - 1)) by {
            assert(s.take(k).drop_first() =~= s.drop_first().take(k - 1));
        }
        lemma_wc_seq_take_step(s.drop_first(), k - 1);
        assert(s.drop_first()[k - 1] == s[k]);
    }
}

/// Taking one more child adds exactly that child's node count.
pub proof fn lemma_size_seq_take_step(s: Seq<(char, CompletionNode)>, k: int)
    requires
        0 <= k < s.len(),
    ensures
        size_seq(s.take(k + 1)) == size_seq(s.take(k)) + s[k].1.size(),
    decreases k,
{
    reveal_with_fuel(size_seq, 3);
    if k == 0 {
        assert(s.take(0).len() == 0);
        assert(s.take(1)[0] == s[0]);
        assert(s.take(1).drop_first().len() == 0);
    } else {
        assert(s.take(k + 1)[0] == s[0]);
        assert(s.take(k)[0] == s[0]);
        assert(s.take(k + 1).drop_first() == s.drop_first().take(k)) by {
            assert(s.take(k + 1).drop_first() =~= s.drop_first().take(k));
        }
        assert(s.take(k).drop_first() == s.drop_first().take(k - 1)) by {
            assert(s.take(k).drop_first() =~= s.drop_first().take(k - 1));
        }
        lemma_size_seq_take_step(s.drop_first(), k - 1);
        assert(s.drop_first()[k - 1] == s[k]);
    }
}

} // verus!

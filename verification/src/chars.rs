//! Character classification: which characters may extend a word in the trie.
//!
//! A character is a word-constituent when it is alphanumeric or when the
//! tree's inclusion set names it explicitly; any other character ends a word.

use vstd::prelude::*;
use vstd::string::StrSliceExecFns;

verus! {

/// Relies on `String::push`: appends the given character to the string.
pub assume_specification[ String::push ](s: &mut String, c: char)
    ensures
        final(s)@ == old(s)@.push(c),
;

/// Reads the characters of a string slice into a vector.
pub fn str_to_chars(s: &str) -> (r: Vec<char>)
    ensures
        r@ == s@,
{
    let n = s.unicode_len();
    let mut r: Vec<char> = Vec::new();
    let mut i: usize = 0;
    while i < n
        invariant
            n == s@.len(),
            i <= n,
            r@ == s@.take(i as int),
        decreases n - i,
    {
        r.push(s.get_char(i));
        proof {
            assert(r@ =~= s@.take(i as int + 1));
        }
        i = i + 1;
    }
    proof {
        assert(s@.take(n as int) =~= s@);
    }
    r
}

/// Builds the string `line` with the characters of `ext` appended.
pub fn append_chars(line: &str, ext: &Vec<char>) -> (r: String)
    ensures
        r@ == line@ + ext@,
{
    let mut out = line.to_owned();
    proof {
        assert(out@ =~= line@ + ext@.take(0));
    }
    let mut i: usize = 0;
    while i < ext.len()
        invariant
            i <= ext@.len(),
            out@ == line@ + ext@.take(i as int),
        decreases ext@.len() - i,
    {
        out.push(ext[i]);
        proof {
            assert(out@ =~= line@ + ext@.take(i as int + 1));
        }
        i = i + 1;
    }
    proof {
        assert(ext@.take(ext@.len() as int) =~= ext@);
    }
    out
}

/// What `char::is_alphanumeric` returns: the result depends on the character
/// alone (a fixed Unicode property), so it only gets a name here.
pub uninterp spec fn alphanumeric(c: char) -> bool;

/// What `char::is_whitespace` returns: likewise a fixed Unicode property.
pub uninterp spec fn whitespace(c: char) -> bool;

/// Relies on `char::is_alphanumeric`: a pure classification by Unicode tables.
pub assume_specification[ char::is_alphanumeric ](c: char) -> (r: bool)
    ensures
        r == alphanumeric(c),
;

/// Relies on `char::is_whitespace`: a pure classification by Unicode tables.
pub assume_specification[ char::is_whitespace ](c: char) -> (r: bool)
    ensures
        r == whitespace(c),
;

/// A character may extend a word when it is alphanumeric or explicitly
/// included.
pub open spec fn constituent_spec(c: char, incl: Seq<char>) -> bool {
    alphanumeric(c) || incl.contains(c)
}

/// Decides whether `c` may extend a word under the inclusion set `incl`.
pub fn constituent(c: char, incl: &Vec<char>) -> (r: bool)
    ensures
        r == constituent_spec(c, incl@),
{
    if c.is_alphanumeric() {
        return true;
    }
    let mut i: usize = 0;
    while i < incl.len()
        invariant
            0 <= i <= incl.len(),
            forall|j: int| 0 <= j < i ==> incl@[j] != c,
        decreases incl.len() - i,
    {
        if incl[i] == c {
            return true;
        }
        i = i + 1;
    }
    false
}

/// Copies a character vector.
pub fn clone_chars(v: &Vec<char>) -> (r: Vec<char>)
    ensures
        r@ == v@,
{
    let mut r: Vec<char> = Vec::new();
    let mut i: usize = 0;
    while i < v.len()
        invariant
            i <= v@.len(),
            r@ == v@.take(i as int),
        decreases v.len() - i,
    {
        r.push(v[i]);
        proof {
            assert(r@ =~= v@.take(i as int + 1));
        }
        i = i + 1;
    }
    proof {
        assert(v@.take(v@.len() as int) =~= v@);
    }
    r
}

/// The accepted form of a word: its longest prefix made of constituent
/// characters only. Insertion stores exactly this prefix.
pub open spec fn accepted(w: Seq<char>, incl: Seq<char>) -> Seq<char>
    decreases w.len(),
{
    if w.len() == 0 {
        w
    } else if constituent_spec(w[0], incl) {
        seq![w[0]] + accepted(w.drop_first(), incl)
    } else {
        Seq::empty()
    }
}

} // verus!

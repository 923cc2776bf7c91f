//! Splitting an input line into candidate words.
//!
//! Insertion splits on maximal runs of whitespace, or on exact occurrences
//! of a literal delimiter; completion always takes the last
//! whitespace-bounded word.

use vstd::prelude::*;

use crate::chars::whitespace;

verus! {

/// The views of a list of character vectors.
pub open spec fn token_views(ts: Seq<Vec<char>>) -> Seq<Seq<char>> {
    ts.map_values(|t: Vec<char>| t@)
}

/// Length of the leading run of non-whitespace characters.
pub open spec fn first_break(s: Seq<char>) -> nat
    decreases s.len(),
{
    if s.len() == 0 {
        0
    } else if whitespace(s[0]) {
        0
    } else {
        1 + first_break(s.drop_first())
    }
}

/// The leading run never reaches past the end.
pub proof fn lemma_first_break_le(s: Seq<char>)
    ensures
        first_break(s) <= s.len(),
    decreases s.len(),
{
    if s.len() > 0 && !whitespace(s[0]) {
        lemma_first_break_le(s.drop_first());
    }
}

/// The leading run is exactly the first position holding whitespace.
pub proof fn lemma_first_break_is(s: Seq<char>, n: int)
    requires
        0 <= n <= s.len(),
        forall|m: int| 0 <= m < n ==> !whitespace(#[trigger] s[m]),
        n < s.len() ==> whitespace(s[n]),
    ensures
        first_break(s) == n,
    decreases n,
{
    if n == 0 {
    } else {
        assert(!whitespace(s[0]));
        lemma_first_break_is(s.drop_first(), n - 1);
    }
}

/// The words of a line: its maximal runs of non-whitespace characters.
pub open spec fn split_ws(s: Seq<char>) -> Seq<Seq<char>>
    decreases s.len(),
    via split_ws_decreases
{
    if s.len() == 0 {
        Seq::empty()
    } else if whitespace(s[0]) {
        split_ws(s.drop_first())
    } else {
        seq![s.take(first_break(s) as int)] + split_ws(s.skip(first_break(s) as int))
    }
}

#[via_fn]
proof fn split_ws_decreases(s: Seq<char>) {
    lemma_first_break_le(s);
}

/// Skipping a whitespace character does not change the words.
pub proof fn lemma_split_ws_skip(s: Seq<char>, i: int)
    requires
        0 <= i < s.len(),
        whitespace(s[i]),
    ensures
        split_ws(s.skip(i)) == split_ws(s.skip(i + 1)),
{
    assert(s.skip(i)[0] == s[i]);
    assert(s.skip(i).drop_first() =~= s.skip(i + 1));
}

/// A maximal non-whitespace run `s[i..j]` is the next word.
pub proof fn lemma_split_ws_token(s: Seq<char>, i: int, j: int)
    requires
        0 <= i < j <= s.len(),
        forall|m: int| i <= m < j ==> !whitespace(#[trigger] s[m]),
        j < s.len() ==> whitespace(s[j]),
    ensures
        split_ws(s.skip(i)) == seq![s.subrange(i, j)] + split_ws(s.skip(j)),
{
    let t = s.skip(i);
    assert forall|m: int| 0 <= m < j - i implies !whitespace(#[trigger] t[m]) by {
        assert(t[m] == s[i + m]);
    }
    if j - i < t.len() {
        assert(t[j - i] == s[j]);
    }
    lemma_first_break_is(t, j - i);
    assert(!whitespace(t[0]));
    assert(t.take(j - i) =~= s.subrange(i, j));
    assert(t.skip(j - i) =~= s.skip(j));
}

/// The delimiter `d` occurs in `s` at position `m`.
pub open spec fn lit_match_at(s: Seq<char>, d: Seq<char>, m: int) -> bool {
    s.subrange(m, m + d.len() as int) == d
}

/// Index of the first occurrence of the delimiter `d` in `s`, if any.
pub open spec fn first_occ(s: Seq<char>, d: Seq<char>) -> Option<int>
    decreases s.len(),
{
    if d.len() == 0 {
        Some(0)
    } else if s.len() < d.len() {
        None
    } else if s.take(d.len() as int) == d {
        Some(0)
    } else {
        match first_occ(s.drop_first(), d) {
            None => None,
            Some(k) => Some(k + 1),
        }
    }
}

/// A position matching `d`, with none before it, is the first occurrence.
pub proof fn lemma_first_occ_is(s: Seq<char>, d: Seq<char>, n: int)
    requires
        d.len() >= 1,
        0 <= n,
        n + d.len() <= s.len(),
        lit_match_at(s, d, n),
        forall|m: int| 0 <= m < n ==> !(#[trigger] lit_match_at(s, d, m)),
    ensures
        first_occ(s, d) == Some(n),
    decreases n,
{
    if n == 0 {
        assert(s.take(d.len() as int) =~= s.subrange(0, d.len() as int));
    } else {
        assert(s.take(d.len() as int) =~= s.subrange(0, d.len() as int));
        assert(!lit_match_at(s, d, 0));
        assert(s.take(d.len() as int) != d);
        let t = s.drop_first();
        assert forall|m: int| 0 <= m < n - 1 implies !(#[trigger] lit_match_at(t, d, m)) by {
            assert(t.subrange(m, m + d.len() as int) =~= s.subrange(m + 1, m + 1 + d.len() as int));
            assert(!lit_match_at(s, d, m + 1));
        }
        assert(t.subrange(n - 1, n - 1 + d.len() as int) =~= s.subrange(n, n + d.len() as int));
        assert(lit_match_at(t, d, n - 1));
        lemma_first_occ_is(t, d, n - 1);
    }
}

/// When no position matches `d`, there is no first occurrence.
pub proof fn lemma_first_occ_none(s: Seq<char>, d: Seq<char>)
    requires
        d.len() >= 1,
        forall|m: int|
            0 <= m && m + d.len() <= s.len() ==> !(#[trigger] lit_match_at(s, d, m)),
    ensures
        first_occ(s, d) is None,
    decreases s.len(),
{
    if s.len() >= d.len() {
        assert(s.take(d.len() as int) =~= s.subrange(0, d.len() as int));
        assert(!lit_match_at(s, d, 0));
        assert(s.take(d.len() as int) != d);
        let t = s.drop_first();
        assert forall|m: int| 0 <= m && m + d.len() <= t.len() implies !(#[trigger] lit_match_at(
            t,
            d,
            m,
        )) by {
            assert(t.subrange(m, m + d.len() as int) =~= s.subrange(m + 1, m + 1 + d.len() as int));
            assert(!lit_match_at(s, d, m + 1));
        }
        lemma_first_occ_none(t, d);
    }
}

/// The pieces of `s` between exact occurrences of the delimiter `d`.
/// An empty delimiter, as in the standard library, yields an empty piece,
/// then each character on its own, then an empty piece.
pub open spec fn split_lit(s: Seq<char>, d: Seq<char>) -> Seq<Seq<char>>
    decreases s.len(),
    via split_lit_decreases
{
    if d.len() == 0 {
        seq![Seq::<char>::empty()] + Seq::new(s.len(), |i: int| seq![s[i]]) + seq![
            Seq::<char>::empty(),
        ]
    } else {
        match first_occ(s, d) {
            None => seq![s],
            Some(k) => seq![s.take(k)] + split_lit(s.skip(k + d.len() as int), d),
        }
    }
}

#[via_fn]
proof fn split_lit_decreases(s: Seq<char>, d: Seq<char>) {
    if d.len() > 0 {
        lemma_first_occ_bounds(s, d);
    }
}

/// A first occurrence lies within the text and leaves room for `d`.
pub proof fn lemma_first_occ_bounds(s: Seq<char>, d: Seq<char>)
    requires
        d.len() >= 1,
    ensures
        first_occ(s, d) is Some ==> 0 <= first_occ(s, d)->0 && first_occ(s, d)->0 + d.len()
            <= s.len(),
    decreases s.len(),
{
    if s.len() >= d.len() && s.take(d.len() as int) != d {
        lemma_first_occ_bounds(s.drop_first(), d);
    }
}

/// Copies the characters `s[a..b]`.
pub fn copy_range(s: &Vec<char>, a: usize, b: usize) -> (r: Vec<char>)
    requires
        a <= b <= s@.len(),
    ensures
        r@ == s@.subrange(a as int, b as int),
{
    let mut r: Vec<char> = Vec::new();
    let mut m: usize = a;
    while m < b
        invariant
            a <= m <= b <= s@.len(),
            r@ == s@.subrange(a as int, m as int),
        decreases b - m,
    {
        r.push(s[m]);
        proof {
            assert(r@ =~= s@.subrange(a as int, m as int + 1));
        }
        m = m + 1;
    }
    r
}

/// Decides whether the delimiter `d` occurs in `s` at position `k`.
pub fn matches_at(s: &Vec<char>, d: &Vec<char>, k: usize) -> (r: bool)
    requires
        k + d@.len() <= s@.len(),
    ensures
        r == (s@.subrange(k as int, k as int + d@.len() as int) == d@),
{
    let n = s.len();
    let dl = d.len();
    let mut m: usize = 0;
    while m < dl
        invariant
            m <= dl,
            dl == d@.len(),
            n == s@.len(),
            k + dl <= n,
            forall|t: int| 0 <= t < m ==> s@[k + t] == d@[t],
        decreases dl - m,
    {
        if s[k + m] != d[m] {
            proof {
                assert(s@.subrange(k as int, k as int + d@.len() as int)[m as int] == s@[k + m]);
            }
            return false;
        }
        m = m + 1;
    }
    proof {
        assert(s@.subrange(k as int, k as int + d@.len() as int) =~= d@);
    }
    true
}

/// Finds the first occurrence of `d` in `s` at or after `start`.
pub fn find_match(s: &Vec<char>, d: &Vec<char>, start: usize) -> (r: (bool, usize))
    requires
        d@.len() >= 1,
        start <= s@.len(),
    ensures
        r.0 ==> start <= r.1 && r.1 + d@.len() <= s@.len() && lit_match_at(s@, d@, r.1 as int)
            && forall|m: int| start <= m < r.1 ==> !(#[trigger] lit_match_at(s@, d@, m)),
        !r.0 ==> forall|m: int|
            start <= m && m + d@.len() <= s@.len() ==> !(#[trigger] lit_match_at(s@, d@, m)),
{
    if d.len() > s.len() {
        return (false, 0);
    }
    let last = s.len() - d.len();
    if start > last {
        return (false, 0);
    }
    let mut k: usize = start;
    while k <= last
        invariant
            start <= k <= last + 1,
            last == s@.len() - d@.len(),
            s@.len() <= usize::MAX,
            d@.len() >= 1,
            forall|m: int| start <= m < k ==> !(#[trigger] lit_match_at(s@, d@, m)),
        decreases last + 1 - k,
    {
        if matches_at(s, d, k) {
            return (true, k);
        }
        proof {
            assert(!lit_match_at(s@, d@, k as int));
        }
        k = k + 1;
    }
    (false, 0)
}

/// Splits on maximal runs of whitespace, discarding the empty pieces.
pub fn split_whitespace_vec(s: &Vec<char>) -> (r: Vec<Vec<char>>)
    ensures
        token_views(r@) == split_ws(s@),
{
    let mut r: Vec<Vec<char>> = Vec::new();
    let mut i: usize = 0;
    proof {
        assert(token_views(r@) =~= Seq::<Seq<char>>::empty());
        assert(s@.skip(0) =~= s@);
    }
    while i < s.len()
        invariant
            i <= s@.len(),
            token_views(r@) + split_ws(s@.skip(i as int)) == split_ws(s@),
        decreases s@.len() - i,
    {
        if s[i].is_whitespace() {
            proof {
                lemma_split_ws_skip(s@, i as int);
            }
            i = i + 1;
        } else {
            let mut j: usize = i;
            while j < s.len() && !s[j].is_whitespace()
                invariant
                    i <= j <= s@.len(),
                    forall|m: int| i <= m < j ==> !whitespace(#[trigger] s@[m]),
                decreases s@.len() - j,
            {
                j = j + 1;
            }
            let token = copy_range(s, i, j);
            proof {
                lemma_split_ws_token(s@, i as int, j as int);
                assert(token_views(r@.push(token)) =~= token_views(r@) + seq![token@]);
                assert((token_views(r@) + seq![s@.subrange(i as int, j as int)]) + split_ws(
                    s@.skip(j as int),
                ) =~= token_views(r@) + (seq![s@.subrange(i as int, j as int)] + split_ws(
                    s@.skip(j as int),
                )));
            }
            r.push(token);
            i = j;
        }
    }
    proof {
        assert(s@.skip(i as int).len() == 0);
        assert(split_ws(s@.skip(i as int)) =~= Seq::<Seq<char>>::empty());
        assert(token_views(r@) =~= token_views(r@) + split_ws(s@.skip(i as int)));
    }
    r
}

/// Splits `s[start..]` on exact occurrences of the non-empty delimiter.
fn split_lit_from(s: &Vec<char>, d: &Vec<char>, start: usize) -> (r: Vec<Vec<char>>)
    requires
        d@.len() >= 1,
        start <= s@.len(),
    ensures
        token_views(r@) == split_lit(s@.skip(start as int), d@),
    decreases s@.len() - start,
{
    let f = find_match(s, d, start);
    let mut r: Vec<Vec<char>> = Vec::new();
    if f.0 {
        let k = f.1;
        let n = s.len();
        proof {
            assert(k + d@.len() <= n);
        }
        let token = copy_range(s, start, k);
        proof {
            let t = s@.skip(start as int);
            assert(t.subrange(k - start, k - start + d@.len() as int) =~= s@.subrange(
                k as int,
                k as int + d@.len() as int,
            ));
            assert(lit_match_at(t, d@, k - start));
            assert forall|m: int| 0 <= m < k - start implies !(#[trigger] lit_match_at(
                t,
                d@,
                m,
            )) by {
                assert(t.subrange(m, m + d@.len() as int) =~= s@.subrange(
                    start + m,
                    start + m + d@.len() as int,
                ));
                assert(!lit_match_at(s@, d@, start + m));
            }
            lemma_first_occ_is(t, d@, k - start);
            assert(t.take(k - start) =~= s@.subrange(start as int, k as int));
            assert(t.skip(k - start + d@.len() as int) =~= s@.skip(k + d@.len() as int));
        }
        let mut rest = split_lit_from(s, d, k + d.len());
        r.push(token);
        let ghost rest_views = token_views(rest@);
        r.append(&mut rest);
        proof {
            assert(token_views(r@) =~= seq![token@] + rest_views);
            assert(split_lit(s@.skip(start as int), d@) == seq![s@.subrange(
                start as int,
                k as int,
            )] + split_lit(s@.skip(k + d@.len() as int), d@));
        }
    } else {
        let token = copy_range(s, start, s.len());
        r.push(token);
        proof {
            let t = s@.skip(start as int);
            assert forall|m: int| 0 <= m && m + d@.len() <= t.len() implies !(
            #[trigger] lit_match_at(t, d@, m)) by {
                assert(t.subrange(m, m + d@.len() as int) =~= s@.subrange(
                    start + m,
                    start + m + d@.len() as int,
                ));
                assert(!lit_match_at(s@, d@, start + m));
            }
            lemma_first_occ_none(t, d@);
            assert(t =~= s@.subrange(start as int, s@.len() as int));
            assert(token_views(r@) =~= seq![t]);
        }
    }
    r
}

/// Splits on exact occurrences of a literal delimiter, as the standard
/// library's substring splitting does, the empty delimiter included.
pub fn split_literal_vec(s: &Vec<char>, d: &Vec<char>) -> (r: Vec<Vec<char>>)
    ensures
        token_views(r@) == split_lit(s@, d@),
{
    if d.len() == 0 {
        let mut r: Vec<Vec<char>> = Vec::new();
        let empty: Vec<char> = Vec::new();
        r.push(empty);
        proof {
            assert(token_views(r@) =~= seq![Seq::<char>::empty()] + Seq::new(
                0nat,
                |m: int| seq![s@[m]],
            ));
        }
        let mut i: usize = 0;
        while i < s.len()
            invariant
                i <= s@.len(),
                token_views(r@) =~= seq![Seq::<char>::empty()] + Seq::new(
                    i as nat,
                    |m: int| seq![s@[m]],
                ),
            decreases s@.len() - i,
        {
            let mut one: Vec<char> = Vec::new();
            one.push(s[i]);
            let ghost prior = r@;
            let ghost onev = one@;
            r.push(one);
            proof {
                assert(onev =~= seq![s@[i as int]]);
                assert(token_views(r@) =~= token_views(prior) + seq![onev]);
                assert(token_views(r@) =~= seq![Seq::<char>::empty()] + Seq::new(
                    i as nat + 1,
                    |m: int| seq![s@[m]],
                ));
            }
            i = i + 1;
        }
        let empty2: Vec<char> = Vec::new();
        let ghost prior2 = r@;
        r.push(empty2);
        proof {
            assert(token_views(r@) =~= token_views(prior2) + seq![Seq::<char>::empty()]);
            assert(token_views(r@) =~= (seq![Seq::<char>::empty()] + Seq::new(
                s@.len(),
                |m: int| seq![s@[m]],
            )) + seq![Seq::<char>::empty()]);
        }
        r
    } else {
        let r = split_lit_from(s, d, 0);
        proof {
            assert(s@.skip(0) =~= s@);
        }
        r
    }
}

} // verus!

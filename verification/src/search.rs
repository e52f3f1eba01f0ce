//! Searching text for patterns: the first match, splitting once or at every
//! match, and prefixes.

use vstd::prelude::*;
use crate::wordlist::{text_lines, lemma_lines_step, lemma_lines_last};

verus! {

/// Whether `p` occurs in `s` at index `i`.
pub open spec fn matches_at(s: Seq<char>, p: Seq<char>, i: int) -> bool {
    0 <= i && i + p.len() <= s.len() && s.subrange(i, i + p.len()) == p
}

/// The first index from `i` on where `p` occurs in `s`, or -1.
pub open spec fn first_match(s: Seq<char>, p: Seq<char>, i: int) -> int
    decreases s.len() - i,
{
    if i < 0 || i + p.len() > s.len() {
        -1
    } else if matches_at(s, p, i) {
        i
    } else if i + p.len() == s.len() {
        -1
    } else {
        first_match(s, p, i + 1)
    }
}

/// The text before and after the first occurrence of `p`, as
/// `str::split_once` gives them.
pub open spec fn split_once(s: Seq<char>, p: Seq<char>) -> Option<(Seq<char>, Seq<char>)> {
    let i = first_match(s, p, 0);
    if i < 0 {
        None
    } else {
        Some((s.take(i), s.skip(i + p.len())))
    }
}

/// The text after the prefix `p`, as `str::strip_prefix` gives it.
pub open spec fn strip_prefix(s: Seq<char>, p: Seq<char>) -> Option<Seq<char>> {
    if p.len() <= s.len() && s.take(p.len() as int) == p {
        Some(s.skip(p.len() as int))
    } else {
        None
    }
}

/// Whether `p` occurs in `s`.
pub open spec fn contains_seq(s: Seq<char>, p: Seq<char>) -> bool {
    first_match(s, p, 0) >= 0
}

/// The pieces between the occurrences of a non-empty pattern `p`, as
/// `str::split` gives them.
pub open spec fn split_all(s: Seq<char>, p: Seq<char>) -> Seq<Seq<char>>
    decreases s.len(),
{
    let i = first_match(s, p, 0);
    if p.len() == 0 || i < 0 {
        seq![s]
    } else {
        proof {
            lemma_first_match_bounds(s, p, 0);
        }
        seq![s.take(i)] + split_all(s.skip(i + p.len()), p)
    }
}

pub proof fn lemma_first_match_bounds(s: Seq<char>, p: Seq<char>, i: int)
    requires
        0 <= i,
    ensures
        first_match(s, p, i) == -1 || (i <= first_match(s, p, i) && matches_at(s, p, first_match(s, p, i))),
        forall|j: int| i <= j < first_match(s, p, i) ==> !matches_at(s, p, j),
        first_match(s, p, i) == -1 ==> forall|j: int| i <= j ==> !matches_at(s, p, j),
    decreases s.len() - i,
{
    if i < 0 || i + p.len() > s.len() {
    } else if matches_at(s, p, i) {
    } else if i + p.len() == s.len() {
    } else {
        lemma_first_match_bounds(s, p, i + 1);
    }
}

/// Whether `p` occurs in `s` at index `i`.
pub fn matches_at_exec(s: &Vec<char>, p: &Vec<char>, i: usize) -> (r: bool)
    ensures
        r == matches_at(s@, p@, i as int),
{
    if i > s.len() || p.len() > s.len() - i {
        return false;
    }
    let n = s.len();
    let m = p.len();
    let mut j: usize = 0;
    while j < m
        invariant
            n == s@.len(),
            m == p@.len(),
            i + m <= n,
            j <= p@.len(),
            forall|k: int| 0 <= k < j ==> s@[i + k] == p@[k],
        decreases m - j,
    {
        if s[i + j] != p[j] {
            assert(s@.subrange(i as int, i + p@.len())[j as int] != p@[j as int]);
            return false;
        }
        j = j + 1;
    }
    assert(s@.subrange(i as int, i + p@.len()) =~= p@);
    true
}

/// The first index from `from` on where `p` occurs in `s`.
pub fn find_from(s: &Vec<char>, p: &Vec<char>, from: usize) -> (r: Option<usize>)
    ensures
        match r {
            Some(i) => i as int == first_match(s@, p@, from as int),
            None => first_match(s@, p@, from as int) == -1,
        },
{
    if p.len() > s.len() || from > s.len() - p.len() {
        return None;
    }
    let last = s.len() - p.len();
    let mut i = from;
    while i < last
        invariant
            from <= i <= last,
            last + p@.len() == s@.len(),
            first_match(s@, p@, from as int) == first_match(s@, p@, i as int),
        decreases last - i,
    {
        if matches_at_exec(s, p, i) {
            return Some(i);
        }
        i = i + 1;
    }
    if matches_at_exec(s, p, last) {
        Some(last)
    } else {
        None
    }
}

/// Whether `p` occurs in `s`.
pub fn contains_exec(s: &Vec<char>, p: &Vec<char>) -> (r: bool)
    ensures
        r == contains_seq(s@, p@),
{
    find_from(s, p, 0).is_some()
}

/// The characters `s[a..b]`.
pub fn sub_vec(s: &Vec<char>, a: usize, b: usize) -> (r: Vec<char>)
    requires
        a <= b <= s@.len(),
    ensures
        r@ == s@.subrange(a as int, b as int),
{
    let mut r: Vec<char> = Vec::new();
    let mut i = a;
    while i < b
        invariant
            a <= i <= b <= s@.len(),
            r@ == s@.subrange(a as int, i as int),
        decreases b - i,
    {
        r.push(s[i]);
        assert(r@ =~= s@.subrange(a as int, i + 1));
        i = i + 1;
    }
    r
}

/// The characters of `a` followed by those of `b`.
pub fn concat(a: &Vec<char>, b: &Vec<char>) -> (r: Vec<char>)
    ensures
        r@ == a@ + b@,
{
    let mut r = sub_vec(a, 0, a.len());
    let mut i: usize = 0;
    while i < b.len()
        invariant
            i <= b@.len(),
            r@ == a@ + b@.take(i as int),
        decreases b@.len() - i,
    {
        r.push(b[i]);
        assert(r@ =~= a@ + b@.take(i + 1));
        i = i + 1;
    }
    assert(b@.take(b@.len() as int) =~= b@);
    r
}

/// `str::split_once` on characters.
pub fn split_once_exec(s: &Vec<char>, p: &Vec<char>) -> (r: Option<(Vec<char>, Vec<char>)>)
    ensures
        match r {
            Some((a, b)) => split_once(s@, p@) == Some((a@, b@)),
            None => split_once(s@, p@) is None,
        },
{
    match find_from(s, p, 0) {
        Some(i) => {
            proof {
                lemma_first_match_bounds(s@, p@, 0);
            }
            assert(matches_at(s@, p@, i as int));
            let m = p.len();
            let n = s.len();
            assert(i + m <= n);
            let a = sub_vec(s, 0, i);
            let b = sub_vec(s, i + m, n);
            assert(a@ =~= s@.take(i as int));
            assert(b@ =~= s@.skip(i + p@.len()));
            Some((a, b))
        },
        None => None,
    }
}

/// `str::strip_prefix` on characters.
pub fn strip_prefix_exec(s: &Vec<char>, p: &Vec<char>) -> (r: Option<Vec<char>>)
    ensures
        match r {
            Some(b) => strip_prefix(s@, p@) == Some(b@),
            None => strip_prefix(s@, p@) is None,
        },
{
    if matches_at_exec(s, p, 0) {
        assert(s@.subrange(0, p@.len() as int) =~= s@.take(p@.len() as int));
        let b = sub_vec(s, p.len(), s.len());
        assert(b@ =~= s@.skip(p@.len() as int));
        Some(b)
    } else {
        proof {
            if p@.len() <= s@.len() && s@.take(p@.len() as int) == p@ {
                assert(s@.subrange(0, p@.len() as int) =~= s@.take(p@.len() as int));
            }
        }
        None
    }
}

/// `str::split` on characters, for a non-empty pattern.
pub fn split_all_exec(s: &Vec<char>, p: &Vec<char>) -> (r: Vec<Vec<char>>)
    requires
        p@.len() > 0,
    ensures
        r@.map_values(|v: Vec<char>| v@) == split_all(s@, p@),
{
    let mut out: Vec<Vec<char>> = Vec::new();
    let mut rest = sub_vec(s, 0, s.len());
    assert(rest@ =~= s@);
    loop
        invariant
            p@.len() > 0,
            split_all(s@, p@) == out@.map_values(|v: Vec<char>| v@) + split_all(rest@, p@),
        decreases rest@.len(),
    {
        match find_from(&rest, p, 0) {
            Some(i) => {
                proof {
                    lemma_first_match_bounds(rest@, p@, 0);
                }
                assert(matches_at(rest@, p@, i as int));
                let m = p.len();
                let n = rest.len();
                assert(i + m <= n);
                let piece = sub_vec(&rest, 0, i);
                let next = sub_vec(&rest, i + m, n);
                assert(piece@ =~= rest@.take(i as int));
                assert(next@ =~= rest@.skip(i + p@.len()));
                let ghost old_out = out@;
                out.push(piece);
                assert(out@.map_values(|v: Vec<char>| v@) =~= old_out.map_values(|v: Vec<char>| v@).push(piece@));
                assert(split_all(s@, p@) =~= out@.map_values(|v: Vec<char>| v@) + split_all(next@, p@));
                rest = next;
            },
            None => {
                let ghost old_out = out@;
                out.push(rest);
                assert(out@.map_values(|v: Vec<char>| v@) =~= old_out.map_values(|v: Vec<char>| v@).push(rest@));
                assert(split_all(s@, p@) =~= out@.map_values(|v: Vec<char>| v@));
                return out;
            },
        }
    }
}

/// The bounds of the lines of `cs`, each as (start, end), as `str::lines`
/// splits them.
pub fn line_bounds(cs: &Vec<char>) -> (r: Vec<(usize, usize)>)
    ensures
        r@.len() == text_lines(cs@).len(),
        forall|k: int|
            0 <= k < r@.len() ==> (#[trigger] r@[k]).0 <= r@[k].1 <= cs@.len() && cs@.subrange(
                r@[k].0 as int,
                r@[k].1 as int,
            ) == text_lines(cs@)[k],
{
    let n = cs.len();
    let mut out: Vec<(usize, usize)> = Vec::new();
    let ghost mut done: Seq<Seq<char>> = seq![];
    let mut ls: usize = 0;
    let mut i: usize = 0;
    assert(cs@.skip(0) =~= cs@);
    while i < n
        invariant
            n == cs.len(),
            ls <= i <= n,
            forall|j: int| ls <= j < i ==> cs@[j] != '\n',
            text_lines(cs@) == done + text_lines(cs@.skip(ls as int)),
            out@.len() == done.len(),
            forall|k: int|
                0 <= k < out@.len() ==> (#[trigger] out@[k]).0 <= out@[k].1 <= cs@.len() && cs@.subrange(
                    out@[k].0 as int,
                    out@[k].1 as int,
                ) == done[k],
        decreases n - i,
    {
        if cs[i] == '\n' {
            let end = if i > ls && cs[i - 1] == '\r' { i - 1 } else { i };
            proof {
                lemma_lines_step(cs@, ls as int, i as int);
                assert(crate::wordlist::strip_cr(cs@.subrange(ls as int, i as int)) =~= cs@.subrange(
                    ls as int,
                    end as int,
                ));
                assert(done + text_lines(cs@.skip(ls as int)) =~= done.push(
                    cs@.subrange(ls as int, end as int),
                ) + text_lines(cs@.skip(i + 1)));
            }
            out.push((ls, end));
            proof {
                done = done.push(cs@.subrange(ls as int, end as int));
            }
            ls = i + 1;
        }
        i = i + 1;
    }
    proof {
        lemma_lines_last(cs@, ls as int);
    }
    if ls < n {
        assert(done + text_lines(cs@.skip(ls as int)) =~= done.push(cs@.subrange(ls as int, n as int)));
        out.push((ls, n));
    } else {
        assert(done + text_lines(cs@.skip(ls as int)) =~= done);
    }
    out
}

} // verus!

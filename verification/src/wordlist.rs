//! The word list: one entry per line, `link,word`, where `word` has exactly
//! five characters.

use vstd::prelude::*;
use vstd::utf8::{valid_utf8, decode_utf8};
use crate::text::{CHAR_COUNT, TargetWord};

verus! {

/// A word of the list together with the page it was taken from.
#[derive(Clone, Debug)]
pub struct WordWithLink {
    pub link: String,
    pub word: TargetWord,
}

impl View for WordWithLink {
    type V = (Seq<char>, Seq<char>);

    open spec fn view(&self) -> (Seq<char>, Seq<char>) {
        (self.link@, self.word@)
    }
}

/// The entries of a list, each as (link, word).
pub open spec fn entries_view(v: Seq<WordWithLink>) -> Seq<(Seq<char>, Seq<char>)> {
    v.map_values(|w: WordWithLink| w@)
}

/// Index of the first `c` in `s`, or `s.len()` where `s` holds none.
pub open spec fn first_index_of(s: Seq<char>, c: char) -> int
    decreases s.len(),
{
    if s.len() == 0 {
        0
    } else if s[0] == c {
        0
    } else {
        1 + first_index_of(s.drop_first(), c)
    }
}

/// A line without the carriage return that ends it, if it has one.
pub open spec fn strip_cr(line: Seq<char>) -> Seq<char> {
    if line.len() > 0 && line.last() == '\r' {
        line.drop_last()
    } else {
        line
    }
}

/// The lines of a text, as `str::lines` splits them: at each `\n`, a `\r`
/// before it dropped, and no empty line after a final `\n`.
pub open spec fn text_lines(s: Seq<char>) -> Seq<Seq<char>>
    decreases s.len(),
{
    if s.len() == 0 {
        seq![]
    } else {
        let k = first_index_of(s, '\n');
        if 0 <= k < s.len() {
            seq![strip_cr(s.take(k))] + text_lines(s.skip(k + 1))
        } else {
            seq![s]
        }
    }
}

/// One line of the list: the link before the first comma, the word after
/// it, which must have exactly five characters.
pub open spec fn parse_line(line: Seq<char>) -> Option<(Seq<char>, Seq<char>)> {
    let k = first_index_of(line, ',');
    if 0 <= k < line.len() && line.len() - (k + 1) == CHAR_COUNT {
        Some((line.take(k), line.skip(k + 1)))
    } else {
        None
    }
}

/// All lines parsed, or `None` where any line is malformed.
pub open spec fn parse_entries(lines: Seq<Seq<char>>) -> Option<Seq<(Seq<char>, Seq<char>)>>
    decreases lines.len(),
{
    if lines.len() == 0 {
        Some(seq![])
    } else {
        match (parse_entries(lines.drop_last()), parse_line(lines.last())) {
            (Some(a), Some(e)) => Some(a.push(e)),
            _ => None,
        }
    }
}

/// The entries of a list given as text, or `None` where it is malformed.
pub open spec fn spec_wordlist(text: Seq<char>) -> Option<Seq<(Seq<char>, Seq<char>)>> {
    parse_entries(text_lines(text))
}

/// The entries of a list given as bytes, or `None` where they are not UTF-8
/// or the text is malformed.
pub open spec fn spec_wordlist_bytes(bytes: Seq<u8>) -> Option<Seq<(Seq<char>, Seq<char>)>> {
    if valid_utf8(bytes) {
        spec_wordlist(decode_utf8(bytes))
    } else {
        None
    }
}

proof fn lemma_first_index_bounds(s: Seq<char>, c: char)
    ensures
        0 <= first_index_of(s, c) <= s.len(),
        first_index_of(s, c) < s.len() ==> s[first_index_of(s, c)] == c,
        forall|j: int| 0 <= j < first_index_of(s, c) ==> s[j] != c,
    decreases s.len(),
{
    if s.len() > 0 && s[0] != c {
        lemma_first_index_bounds(s.drop_first(), c);
        assert forall|j: int| 0 <= j < first_index_of(s, c) implies s[j] != c by {
            if j > 0 {
                assert(s[j] == s.drop_first()[j - 1]);
            }
        }
    }
}

proof fn lemma_first_index_is(s: Seq<char>, c: char, j: int)
    requires
        0 <= j <= s.len(),
        j < s.len() ==> s[j] == c,
        forall|k: int| 0 <= k < j ==> s[k] != c,
    ensures
        first_index_of(s, c) == j,
    decreases s.len(),
{
    if s.len() > 0 && s[0] != c {
        assert forall|k: int| 0 <= k < j - 1 implies s.drop_first()[k] != c by {
            assert(s.drop_first()[k] == s[k + 1]);
        }
        lemma_first_index_is(s.drop_first(), c, j - 1);
    }
}

proof fn lemma_parse_entries_none(a: Seq<Seq<char>>, b: Seq<Seq<char>>)
    requires
        parse_entries(a) is None,
    ensures
        parse_entries(a + b) is None,
    decreases b.len(),
{
    if b.len() == 0 {
        assert(a + b =~= a);
    } else {
        lemma_parse_entries_none(a, b.drop_last());
        assert((a + b).drop_last() =~= a + b.drop_last());
    }
}

/// `String::push` appends the character to the end of the string, as its
/// documentation says. Trusted.
pub assume_specification[ String::push ](s: &mut String, ch: char)
    ensures
        final(s)@ == old(s)@.push(ch),
;

/// Builds a `String` from the characters `cs[start..end]`.
pub(crate) fn string_of(cs: &Vec<char>, start: usize, end: usize) -> (s: String)
    requires
        start <= end <= cs.len(),
    ensures
        s@ == cs@.subrange(start as int, end as int),
{
    let mut s = String::new();
    let mut i = start;
    while i < end
        invariant
            start <= i <= end <= cs.len(),
            s@ == cs@.subrange(start as int, i as int),
        decreases end - i,
    {
        s.push(cs[i]);
        assert(s@ =~= cs@.subrange(start as int, i + 1));
        i = i + 1;
    }
    s
}

/// Parses the line `cs[start..end]`.
fn parse_line_at(cs: &Vec<char>, start: usize, end: usize) -> (res: Option<WordWithLink>)
    requires
        start <= end <= cs.len(),
    ensures
        match res {
            Some(w) => parse_line(cs@.subrange(start as int, end as int)) == Some(w@),
            None => parse_line(cs@.subrange(start as int, end as int)) is None,
        },
{
    let ghost line = cs@.subrange(start as int, end as int);
    let mut k = start;
    while k < end && cs[k] != ','
        invariant
            start <= k <= end <= cs.len(),
            forall|j: int| start <= j < k ==> cs@[j] != ',',
        decreases end - k,
    {
        k = k + 1;
    }
    proof {
        lemma_first_index_is(line, ',', k - start);
    }
    if k == end || end - (k + 1) != CHAR_COUNT {
        return None;
    }
    let link = string_of(cs, start, k);
    let word: TargetWord = [cs[k + 1], cs[k + 2], cs[k + 3], cs[k + 4], cs[k + 5]];
    assert(link@ =~= line.take(k - start));
    assert(word@ =~= line.skip(k - start + 1));
    Some(WordWithLink { link, word })
}

/// The characters of `s`, in order.
pub(crate) fn chars_of(s: &str) -> (v: Vec<char>)
    ensures
        v@ == s@,
{
    broadcast use vstd::string::group_string_axioms;
    let mut v: Vec<char> = Vec::new();
    for c in it: s.chars()
        invariant
            v.len() == it.index(),
            forall|j: int| 0 <= j < v.len() ==> v@[j] == it.seq()[j],
    {
        v.push(c);
    }
    assert(v@ =~= s@);
    v
}

pub(crate) proof fn lemma_lines_step(s: Seq<char>, ls: int, i: int)
    requires
        0 <= ls <= i < s.len(),
        s[i] == '\n',
        forall|j: int| ls <= j < i ==> s[j] != '\n',
    ensures
        text_lines(s.skip(ls)) == seq![strip_cr(s.subrange(ls, i))] + text_lines(s.skip(i + 1)),
{
    let t = s.skip(ls);
    assert forall|k: int| 0 <= k < i - ls implies t[k] != '\n' by {
        assert(t[k] == s[ls + k]);
    }
    lemma_first_index_is(t, '\n', i - ls);
    assert(t.take(i - ls) =~= s.subrange(ls, i));
    assert(t.skip(i - ls + 1) =~= s.skip(i + 1));
}

pub(crate) proof fn lemma_lines_last(s: Seq<char>, ls: int)
    requires
        0 <= ls <= s.len(),
        forall|j: int| ls <= j < s.len() ==> s[j] != '\n',
    ensures
        ls < s.len() ==> text_lines(s.skip(ls)) == seq![s.subrange(ls, s.len() as int)],
        ls == s.len() ==> text_lines(s.skip(ls)) == Seq::<Seq<char>>::empty(),
{
    let t = s.skip(ls);
    assert forall|k: int| 0 <= k < t.len() implies t[k] != '\n' by {
        assert(t[k] == s[ls + k]);
    }
    lemma_first_index_is(t, '\n', t.len() as int);
    assert(t =~= s.subrange(ls, s.len() as int));
}

/// Parses a word list given as text: one entry per line, `link,word`.
/// `None` where a line has no comma or its word is not five characters long.
pub fn parse_wordlist_text(text: &str) -> (res: Option<Vec<WordWithLink>>)
    ensures
        match res {
            Some(v) => spec_wordlist(text@) == Some(entries_view(v@)),
            None => spec_wordlist(text@) is None,
        },
{
    let cs = chars_of(text);
    let n = cs.len();
    let mut out: Vec<WordWithLink> = Vec::new();
    let ghost mut done: Seq<Seq<char>> = seq![];
    let mut ls: usize = 0;
    let mut i: usize = 0;
    assert(cs@.skip(0) =~= cs@);
    while i < n
        invariant
            n == cs.len(),
            cs@ == text@,
            ls <= i <= n,
            forall|j: int| ls <= j < i ==> cs@[j] != '\n',
            text_lines(cs@) == done + text_lines(cs@.skip(ls as int)),
            parse_entries(done) == Some(entries_view(out@)),
        decreases n - i,
    {
        if cs[i] == '\n' {
            let end = if i > ls && cs[i - 1] == '\r' { i - 1 } else { i };
            proof {
                lemma_lines_step(cs@, ls as int, i as int);
                assert(strip_cr(cs@.subrange(ls as int, i as int)) =~= cs@.subrange(ls as int, end as int));
            }
            let ghost line = cs@.subrange(ls as int, end as int);
            let ghost rest = text_lines(cs@.skip(i + 1));
            assert(done + text_lines(cs@.skip(ls as int)) =~= done.push(line) + rest);
            match parse_line_at(&cs, ls, end) {
                Some(w) => {
                    proof {
                        assert(done.push(line).drop_last() =~= done);
                        assert(entries_view(out@.push(w)) =~= entries_view(out@).push(w@));
                    }
                    out.push(w);
                    proof {
                        done = done.push(line);
                    }
                },
                None => {
                    proof {
                        assert(done.push(line).drop_last() =~= done);
                        lemma_parse_entries_none(done.push(line), rest);
                    }
                    return None;
                },
            }
            ls = i + 1;
        }
        i = i + 1;
    }
    proof {
        lemma_lines_last(cs@, ls as int);
    }
    if ls < n {
        let ghost line = cs@.subrange(ls as int, n as int);
        assert(done + text_lines(cs@.skip(ls as int)) =~= done.push(line));
        assert(done.push(line).drop_last() =~= done);
        match parse_line_at(&cs, ls, n) {
            Some(w) => {
                assert(entries_view(out@.push(w)) =~= entries_view(out@).push(w@));
                out.push(w);
            },
            None => {
                return None;
            },
        }
    } else {
        assert(done + text_lines(cs@.skip(ls as int)) =~= done);
    }
    Some(out)
}

#[verifier::external_type_specification]
#[verifier::external_body]
pub struct ExUtf8Error(std::str::Utf8Error);

/// Calls `std::str::from_utf8`. Trusted: as std documents, it succeeds
/// exactly on valid UTF-8, and the text it gives back is what the bytes
/// encode.
#[verifier::external_body]
fn str_from_utf8(bytes: &[u8]) -> (r: Result<&str, std::str::Utf8Error>)
    ensures
        r is Ok <==> valid_utf8(bytes@),
        r matches Ok(s) ==> s@ == decode_utf8(bytes@),
{
    std::str::from_utf8(bytes)
}

/// Parses a word list given as bytes: `None` where they are not UTF-8 or
/// a line is malformed.
pub fn parse_wordlist(list: &[u8]) -> (res: Option<Vec<WordWithLink>>)
    ensures
        match res {
            Some(v) => spec_wordlist_bytes(list@) == Some(entries_view(v@)),
            None => spec_wordlist_bytes(list@) is None,
        },
{
    match str_from_utf8(list) {
        Ok(text) => parse_wordlist_text(text),
        Err(_) => None,
    }
}

/// The German word list, from its bytes: one entry per line, `link,word`.
/// The bytes must be UTF-8 and every line well formed.
pub fn wordlist_german(list: &[u8]) -> (res: Vec<WordWithLink>)
    requires
        spec_wordlist_bytes(list@) is Some,
    ensures
        spec_wordlist_bytes(list@) == Some(entries_view(res@)),
{
    parse_wordlist(list).unwrap()
}

} // verus!

//! Building the word list from Wiktionary: reading a category listing,
//! deciding from a word's page whether the word is kept, and reading a
//! category page with its links and the link to the next page.

use vstd::prelude::*;
use crate::search::{
    matches_at, lemma_first_match_bounds, split_once, strip_prefix, contains_seq, split_all, split_once_exec, strip_prefix_exec,
    contains_exec, split_all_exec, line_bounds, sub_vec, concat,
};
use crate::text::ascii_upper;
use crate::text::ascii_uppercase;
use crate::wordlist::{text_lines, chars_of, string_of};

verus! {

/// A word of a category listing with the page it links to.
pub struct ListedWord {
    pub word: String,
    pub link: String,
}

impl View for ListedWord {
    type V = (Seq<char>, Seq<char>);

    open spec fn view(&self) -> (Seq<char>, Seq<char>) {
        (self.word@, self.link@)
    }
}

/// Whether `c` is an ASCII letter.
pub open spec fn is_ascii_letter(c: char) -> bool {
    ('a' <= c && c <= 'z') || ('A' <= c && c <= 'Z')
}

/// Whether `w` is five ASCII letters: five bytes, all ASCII letters.
pub open spec fn five_ascii_letters(w: Seq<char>) -> bool {
    w.len() == 5 && forall|i: int| 0 <= i < w.len() ==> is_ascii_letter(#[trigger] w[i])
}

/// One line of a listing: `/wiki/LINK" title="WORD`. `None` where the line
/// lacks the separator or the prefix; `Some(None)` where the word is not
/// five ASCII letters and is left out; else the word and the link.
pub open spec fn listing_line(line: Seq<char>) -> Option<Option<(Seq<char>, Seq<char>)>> {
    match split_once(line, "\" title=\""@) {
        None => None,
        Some((link, word)) => match strip_prefix(link, "/wiki/"@) {
            None => None,
            Some(l) => if five_ascii_letters(word) {
                Some(Some((word, l)))
            } else {
                Some(None)
            },
        },
    }
}

/// The kept entries of the lines, or `None` where a line is malformed.
pub open spec fn parse_listing(lines: Seq<Seq<char>>) -> Option<Seq<(Seq<char>, Seq<char>)>>
    decreases lines.len(),
{
    if lines.len() == 0 {
        Some(seq![])
    } else {
        match (parse_listing(lines.drop_last()), listing_line(lines.last())) {
            (Some(a), Some(Some(e))) => Some(a.push(e)),
            (Some(a), Some(None)) => Some(a),
            _ => None,
        }
    }
}

proof fn lemma_parse_listing_none(a: Seq<Seq<char>>, b: Seq<Seq<char>>)
    requires
        parse_listing(a) is None,
    ensures
        parse_listing(a + b) is None,
    decreases b.len(),
{
    if b.len() == 0 {
        assert(a + b =~= a);
    } else {
        lemma_parse_listing_none(a, b.drop_last());
        assert((a + b).drop_last() =~= a + b.drop_last());
    }
}

/// Whether every character of `w` is an ASCII letter.
fn all_ascii_letters(w: &Vec<char>) -> (r: bool)
    ensures
        r == forall|i: int| 0 <= i < w@.len() ==> is_ascii_letter(#[trigger] w@[i]),
{
    let mut i: usize = 0;
    while i < w.len()
        invariant
            i <= w@.len(),
            forall|j: int| 0 <= j < i ==> is_ascii_letter(#[trigger] w@[j]),
        decreases w@.len() - i,
    {
        let c = w[i];
        if !(('a' <= c && c <= 'z') || ('A' <= c && c <= 'Z')) {
            return false;
        }
        i = i + 1;
    }
    true
}

/// Reads a category listing, one entry per line in the form
/// `/wiki/LINK" title="WORD`, and keeps the words of five ASCII letters.
/// `None` where a line lacks the separator or the `/wiki/` prefix.
pub fn parse_category_listing(text: &str) -> (r: Option<Vec<ListedWord>>)
    ensures
        match r {
            Some(v) => parse_listing(text_lines(text@)) == Some(v@.map_values(|w: ListedWord| w@)),
            None => parse_listing(text_lines(text@)) is None,
        },
{
    let cs = chars_of(text);
    let bounds = line_bounds(&cs);
    let sep = chars_of("\" title=\"");
    let prefix = chars_of("/wiki/");
    let ghost lines = text_lines(cs@);
    let mut out: Vec<ListedWord> = Vec::new();
    let mut k: usize = 0;
    assert(lines.take(0) =~= Seq::<Seq<char>>::empty());
    while k < bounds.len()
        invariant
            cs@ == text@,
            lines == text_lines(cs@),
            bounds@.len() == lines.len(),
            forall|j: int|
                0 <= j < bounds@.len() ==> (#[trigger] bounds@[j]).0 <= bounds@[j].1 <= cs@.len()
                    && cs@.subrange(bounds@[j].0 as int, bounds@[j].1 as int) == lines[j],
            sep@ == "\" title=\""@,
            prefix@ == "/wiki/"@,
            k <= bounds@.len(),
            parse_listing(lines.take(k as int)) == Some(out@.map_values(|w: ListedWord| w@)),
        decreases bounds@.len() - k,
    {
        let (a, b) = bounds[k];
        assert(bounds@[k as int] == (a, b));
        let line = sub_vec(&cs, a, b);
        assert(lines.take(k + 1).drop_last() =~= lines.take(k as int));
        assert(lines.take(k + 1).last() == line@);
        match split_once_exec(&line, &sep) {
            None => {
                proof {
                    lemma_parse_listing_none(lines.take(k + 1), lines.skip(k + 1));
                    assert(lines.take(k + 1) + lines.skip(k + 1) =~= lines);
                }
                return None;
            },
            Some((link, word)) => match strip_prefix_exec(&link, &prefix) {
                None => {
                    proof {
                        lemma_parse_listing_none(lines.take(k + 1), lines.skip(k + 1));
                        assert(lines.take(k + 1) + lines.skip(k + 1) =~= lines);
                    }
                    return None;
                },
                Some(l) => {
                    if word.len() == 5 && all_ascii_letters(&word) {
                        let w = ListedWord {
                            word: string_of(&word, 0, word.len()),
                            link: string_of(&l, 0, l.len()),
                        };
                        assert(word@.subrange(0, word@.len() as int) =~= word@);
                        assert(l@.subrange(0, l@.len() as int) =~= l@);
                        let ghost old_out = out@;
                        out.push(w);
                        assert(out@.map_values(|w: ListedWord| w@) =~= old_out.map_values(
                            |w: ListedWord| w@,
                        ).push((word@, l@)));
                    }
                },
            },
        }
        k = k + 1;
    }
    assert(lines.take(bounds@.len() as int) =~= lines);
    Some(out)
}

/// The verdict on a word's page.
pub enum PageVerdict {
    /// The page has no German section for the word.
    NoGerman,
    /// The page has more than one German section for the word.
    Ambiguous,
    /// The German section names no first subsection.
    NoSublist,
    /// The first subsection is of a kind that is left out.
    Skipped,
    /// The word is kept; the first subsection's identifier.
    Keep(String),
}

/// The start of a table-of-contents entry for the word.
pub open spec fn toc_start(word: Seq<char>) -> Seq<char> {
    "<li id=\"toc-"@ + word + "_"@
}

/// The start of the subsection list of the word's German section.
pub open spec fn sublist_marker(word: Seq<char>) -> Seq<char> {
    "<ul id=\"toc-"@ + word + "_(Deutsch)-sublist\""@
}

/// The pieces that start with `(Deutsch)"`, without that prefix.
pub open spec fn german_parts(pieces: Seq<Seq<char>>) -> Seq<Seq<char>>
    decreases pieces.len(),
{
    if pieces.len() == 0 {
        seq![]
    } else {
        german_parts(pieces.drop_last()) + match strip_prefix(pieces.last(), "(Deutsch)\""@) {
            Some(r) => seq![r],
            None => Seq::<Seq<char>>::empty(),
        }
    }
}

/// The German sections of the word's page: the parts between the word's
/// table-of-contents entries that continue with `(Deutsch)"`.
pub open spec fn german_sections(page: Seq<char>, word: Seq<char>) -> Seq<Seq<char>> {
    german_parts(split_all(page, toc_start(word)))
}

/// The identifier of the first subsection of a German section: after the
/// subsection list's start, after the next entry start, up to the next `"`.
pub open spec fn sublist_of(entry: Seq<char>, word: Seq<char>) -> Option<Seq<char>> {
    match split_once(entry, sublist_marker(word)) {
        None => None,
        Some((_, x)) => match split_once(x, "<li id=\"toc-"@) {
            None => None,
            Some((_, y)) => match split_once(y, "\""@) {
                None => None,
                Some((z, _)) => Some(z),
            },
        },
    }
}

/// Whether the subsection is of a kind that is left out: an abbreviation,
/// a proper name, a greeting, a surname, a trademark noun, a place name or
/// a first name.
pub open spec fn skipped_kind(sub: Seq<char>) -> bool {
    ||| contains_seq(sub, "Abkürzung"@)
    ||| contains_seq(sub, "Eigenname"@)
    ||| contains_seq(sub, "Grußformel"@)
    ||| contains_seq(sub, "Nachname"@)
    ||| contains_seq(sub, "Substantiv®"@)
    ||| contains_seq(sub, "Toponym"@)
    ||| contains_seq(sub, "Vorname"@)
}

/// `r` is the verdict on the page for the word: no German section, more
/// than one, no named first subsection, a left-out kind, or kept with the
/// first subsection's identifier.
pub open spec fn verdict_holds(page: Seq<char>, word: Seq<char>, r: PageVerdict) -> bool {
    let g = german_sections(page, word);
    match r {
        PageVerdict::NoGerman => g.len() == 0,
        PageVerdict::Ambiguous => g.len() > 1,
        PageVerdict::NoSublist => g.len() == 1 && sublist_of(g[0], word) is None,
        PageVerdict::Skipped => g.len() == 1 && sublist_of(g[0], word) is Some && skipped_kind(
            sublist_of(g[0], word).unwrap(),
        ),
        PageVerdict::Keep(s) => g.len() == 1 && sublist_of(g[0], word) == Some(s@) && !skipped_kind(
            s@,
        ),
    }
}

/// A page whose single German section has a first subsection whose
/// identifier holds, at any place, one of the words Abkürzung, Eigenname,
/// Grußformel, Nachname, Substantiv®, Toponym or Vorname is skipped: the
/// word is never kept.
pub proof fn lemma_left_out_kinds_are_skipped(
    page: Seq<char>,
    word: Seq<char>,
    r: PageVerdict,
    kind: Seq<char>,
    i: int,
)
    requires
        verdict_holds(page, word, r),
        german_sections(page, word).len() == 1,
        sublist_of(german_sections(page, word)[0], word) is Some,
        kind == "Abkürzung"@ || kind == "Eigenname"@ || kind == "Grußformel"@ || kind == "Nachname"@
            || kind == "Substantiv®"@ || kind == "Toponym"@ || kind == "Vorname"@,
        0 <= i,
        i + kind.len() <= sublist_of(german_sections(page, word)[0], word).unwrap().len(),
        sublist_of(german_sections(page, word)[0], word).unwrap().subrange(i, i + kind.len()) == kind,
    ensures
        r is Skipped,
{
    let z = sublist_of(german_sections(page, word)[0], word).unwrap();
    lemma_first_match_bounds(z, kind, 0);
    assert(matches_at(z, kind, i));
    assert(contains_seq(z, kind));
    assert(skipped_kind(z));
}

/// Whether the subsection is of a kind that is left out.
fn is_skipped_kind(sub: &Vec<char>) -> (r: bool)
    ensures
        r == skipped_kind(sub@),
{
    contains_exec(sub, &chars_of("Abkürzung")) || contains_exec(sub, &chars_of("Eigenname"))
        || contains_exec(sub, &chars_of("Grußformel")) || contains_exec(sub, &chars_of("Nachname"))
        || contains_exec(sub, &chars_of("Substantiv®")) || contains_exec(sub, &chars_of("Toponym"))
        || contains_exec(sub, &chars_of("Vorname"))
}

/// Decides from the HTML of a word's page whether the word is kept: it
/// needs exactly one German section, whose first subsection is named and
/// not of a kind that is left out.
pub fn checked_entry(page: &str, word: &str) -> (r: PageVerdict)
    ensures
        verdict_holds(page@, word@, r),
{
    let page_cs = chars_of(page);
    let word_cs = chars_of(word);
    let start = concat(&concat(&chars_of("<li id=\"toc-"), &word_cs), &chars_of("_"));
    assert(start@ == toc_start(word@));
    assert(start@.len() > 0) by {
        reveal_strlit("_");
        assert("_"@.len() == 1);
    }
    let pieces = split_all_exec(&page_cs, &start);
    let ghost pv = pieces@.map_values(|v: Vec<char>| v@);
    let de = chars_of("(Deutsch)\"");
    let mut found: Vec<Vec<char>> = Vec::new();
    let mut k: usize = 0;
    assert(pv.take(0) =~= Seq::<Seq<char>>::empty());
    while k < pieces.len()
        invariant
            pv == pieces@.map_values(|v: Vec<char>| v@),
            pv == split_all(page@, toc_start(word@)),
            de@ == "(Deutsch)\""@,
            k <= pieces@.len(),
            found@.map_values(|v: Vec<char>| v@) == german_parts(pv.take(k as int)),
        decreases pieces@.len() - k,
    {
        assert(pv.take(k + 1).drop_last() =~= pv.take(k as int));
        assert(pv.take(k + 1).last() == pieces@[k as int]@);
        match strip_prefix_exec(&pieces[k], &de) {
            Some(rest) => {
                let ghost old_found = found@;
                found.push(rest);
                assert(found@.map_values(|v: Vec<char>| v@) =~= old_found.map_values(
                    |v: Vec<char>| v@,
                ) + seq![rest@]);
            },
            None => {
                assert(german_parts(pv.take(k + 1)) =~= german_parts(pv.take(k as int)));
            },
        }
        k = k + 1;
    }
    assert(pv.take(pieces@.len() as int) =~= pv);
    let ghost g = german_sections(page@, word@);
    assert(g == found@.map_values(|v: Vec<char>| v@));
    if found.len() == 0 {
        return PageVerdict::NoGerman;
    }
    if found.len() > 1 {
        return PageVerdict::Ambiguous;
    }
    let entry = &found[0];
    assert(entry@ == g[0]);
    let marker = concat(
        &concat(&chars_of("<ul id=\"toc-"), &word_cs),
        &chars_of("_(Deutsch)-sublist\""),
    );
    assert(marker@ == sublist_marker(word@));
    let sub = match split_once_exec(entry, &marker) {
        None => {
            return PageVerdict::NoSublist;
        },
        Some((_, x)) => match split_once_exec(&x, &chars_of("<li id=\"toc-")) {
            None => {
                return PageVerdict::NoSublist;
            },
            Some((_, y)) => match split_once_exec(&y, &chars_of("\"")) {
                None => {
                    return PageVerdict::NoSublist;
                },
                Some((z, _)) => z,
            },
        },
    };
    assert(sublist_of(g[0], word@) == Some(sub@));
    if is_skipped_kind(&sub) {
        PageVerdict::Skipped
    } else {
        let s = string_of(&sub, 0, sub.len());
        assert(sub@.subrange(0, sub@.len() as int) =~= sub@);
        PageVerdict::Keep(s)
    }
}

/// The line written for a kept word: the link, a comma, and the word in
/// ASCII upper case.
pub fn kept_line(link: &str, word: &str) -> (line: String)
    ensures
        line@ == link@ + ","@ + word@.map_values(|c: char| ascii_upper(c)),
{
    let l = chars_of(link);
    let w = chars_of(word);
    let mut line = string_of(&l, 0, l.len());
    assert(l@.subrange(0, l@.len() as int) =~= l@);
    line.push(',');
    assert(","@ =~= seq![',']) by {
        reveal_strlit(",");
    }
    let mut i: usize = 0;
    while i < w.len()
        invariant
            i <= w@.len(),
            w@ == word@,
            line@ == link@ + ","@ + w@.take(i as int).map_values(|c: char| ascii_upper(c)),
        decreases w@.len() - i,
    {
        line.push(ascii_uppercase(w[i]));
        assert(w@.take(i + 1) =~= w@.take(i as int).push(w@[i as int]));
        assert(line@ =~= link@ + ","@ + w@.take(i + 1).map_values(|c: char| ascii_upper(c)));
        i = i + 1;
    }
    assert(w@.take(w@.len() as int) =~= w@);
    line
}

/// Whether `c` is a decimal digit.
pub open spec fn is_digit(c: char) -> bool {
    '0' <= c && c <= '9'
}

/// The value of a string of decimal digits.
pub open spec fn digits_value(d: Seq<char>) -> int
    decreases d.len(),
{
    if d.len() == 0 {
        0
    } else {
        digits_value(d.drop_last()) * 10 + ((d.last() as int) - ('0' as int))
    }
}

/// The text without a leading `+`.
pub open spec fn without_plus(s: Seq<char>) -> Seq<char> {
    if s.len() > 0 && s[0] == '+' {
        s.drop_first()
    } else {
        s
    }
}

/// Whether every character is a decimal digit.
pub open spec fn all_digits(d: Seq<char>) -> bool {
    forall|i: int| 0 <= i < d.len() ==> is_digit(#[trigger] d[i])
}

/// A `usize` written in decimal, as `str::parse::<usize>` reads it: an
/// optional `+`, then at least one digit, and a value that fits.
pub open spec fn parse_usize(s: Seq<char>) -> Option<usize> {
    let d = without_plus(s);
    if d.len() > 0 && all_digits(d) && digits_value(d) <= usize::MAX {
        Some(digits_value(d) as usize)
    } else {
        None
    }
}

proof fn lemma_digits_grow(d: Seq<char>, i: int, j: int)
    requires
        0 <= i <= j <= d.len(),
        forall|k: int| 0 <= k < d.len() ==> is_digit(#[trigger] d[k]),
    ensures
        0 <= digits_value(d.take(i)) <= digits_value(d.take(j)),
    decreases j,
{
    if j > 0 {
        assert(d.take(j).drop_last() =~= d.take(j - 1));
        assert(is_digit(d[j - 1]));
        if i < j {
            lemma_digits_grow(d, i, j - 1);
        } else {
            lemma_digits_grow(d, i - 1, j - 1);
            assert(d.take(i).drop_last() =~= d.take(i - 1));
        }
    } else {
        assert(d.take(i) =~= Seq::<char>::empty());
    }
}

/// Reads a `usize` written in decimal (see `parse_usize`).
pub fn parse_usize_exec(s: &Vec<char>) -> (r: Option<usize>)
    ensures
        r == parse_usize(s@),
{
    let start: usize = if s.len() > 0 && s[0] == '+' { 1 } else { 0 };
    let d = sub_vec(s, start, s.len());
    assert(d@ =~= without_plus(s@));
    if d.len() == 0 {
        return None;
    }
    let mut i: usize = 0;
    while i < d.len()
        invariant
            d@ == without_plus(s@),
            i <= d@.len(),
            forall|k: int| 0 <= k < i ==> is_digit(#[trigger] d@[k]),
        decreases d@.len() - i,
    {
        if !('0' <= d[i] && d[i] <= '9') {
            assert(!is_digit(d@[i as int]));
            assert(!all_digits(d@));
            assert(parse_usize(s@) is None);
            return None;
        }
        i = i + 1;
    }
    let mut v: usize = 0;
    let mut j: usize = 0;
    assert(d@.take(0) =~= Seq::<char>::empty());
    while j < d.len()
        invariant
            d@ == without_plus(s@),
            d@.len() > 0,
            j <= d@.len(),
            forall|k: int| 0 <= k < d@.len() ==> is_digit(#[trigger] d@[k]),
            v as int == digits_value(d@.take(j as int)),
        decreases d@.len() - j,
    {
        let c = d[j];
        assert(is_digit(d@[j as int]));
        let digit: usize = ((c as u32) - ('0' as u32)) as usize;
        assert(d@.take(j + 1).drop_last() =~= d@.take(j as int));
        assert(d@.take(j + 1).last() == c);
        assert(digit as int == (c as int) - ('0' as int));
        assert(digits_value(d@.take(j + 1)) == v as int * 10 + digit as int);
        let next = match v.checked_mul(10) {
            Some(t) => t.checked_add(digit),
            None => None,
        };
        match next {
            Some(n) => {
                v = n;
            },
            None => {
                proof {
                    assert(digits_value(d@.take(j + 1)) > usize::MAX);
                    lemma_digits_grow(d@, j + 1, d@.len() as int);
                    assert(d@.take(d@.len() as int) =~= d@);
                    assert(digits_value(d@) > usize::MAX);
                    assert(parse_usize(s@) is None);
                }
                return None;
            },
        }
        j = j + 1;
    }
    assert(d@.take(d@.len() as int) =~= d@);
    Some(v)
}

/// A page of a category: the number of pages it says the category has,
/// the links it lists, and the value that names the next page, where there
/// is one.
pub struct CategoryPage {
    pub count: usize,
    pub links: Vec<String>,
    pub next: Option<String>,
}

/// The view of an optional string.
pub open spec fn opt_view(o: Option<String>) -> Option<Seq<char>> {
    match o {
        Some(s) => Some(s@),
        None => None,
    }
}

/// The number the page states: between `<p>Folgende ` and
/// ` Seiten sind in dieser Kategorie, von `.
pub open spec fn category_count(body: Seq<char>) -> Option<usize> {
    match split_once(body, "<p>Folgende "@) {
        None => None,
        Some((_, a)) => match split_once(a, " Seiten sind in dieser Kategorie, von "@) {
            None => None,
            Some((n, _)) => parse_usize(n),
        },
    }
}

/// The link of a list item: the text before `">`.
pub open spec fn links_of(pieces: Seq<Seq<char>>) -> Option<Seq<Seq<char>>>
    decreases pieces.len(),
{
    if pieces.len() == 0 {
        Some(seq![])
    } else {
        match (links_of(pieces.drop_last()), split_once(pieces.last(), "\">"@)) {
            (Some(a), Some((l, _))) => Some(a.push(l)),
            _ => None,
        }
    }
}

/// The links listed between `<h2>Seiten in der Kategorie ` and the page
/// footer: the text of each list item up to `">`.
pub open spec fn category_links(body: Seq<char>) -> Option<Seq<Seq<char>>> {
    match split_once(body, "<h2>Seiten in der Kategorie "@) {
        None => None,
        Some((_, a)) => match split_once(a, "<div class=\"printfooter\" data-nosnippet=\"\">"@) {
            None => None,
            Some((b, _)) => links_of(split_all(b, "<li><a href=\""@).skip(1)),
        },
    }
}

/// The first line that holds `p`.
pub open spec fn first_line_with(lines: Seq<Seq<char>>, p: Seq<char>) -> Option<Seq<char>>
    decreases lines.len(),
{
    if lines.len() == 0 {
        None
    } else if contains_seq(lines[0], p) {
        Some(lines[0])
    } else {
        first_line_with(lines.drop_first(), p)
    }
}

/// The value naming the next page, from the first line that holds
/// `nächste`: the text of its last link, which must hold `nächste` too,
/// then its address up to `"`, after the category's address prefix, up to
/// `#`. `Some(None)` where there is no next page; `None` where the line is
/// malformed.
pub open spec fn next_page(body: Seq<char>) -> Option<Option<Seq<char>>> {
    match first_line_with(split_all(body, "\n"@), "nächste"@) {
        None => Some(None),
        Some(line) => match split_once(split_all(line, "<a href=\""@).last(), "</a>"@) {
            None => None,
            Some((n, _)) => if !contains_seq(n, "nächste"@) {
                Some(None)
            } else {
                match split_once(n, "\""@) {
                    None => None,
                    Some((q, _)) => match strip_prefix(
                        q,
                        "/w/index.php?title=Kategorie:Grundformeintrag_(Deutsch)&amp;pagefrom="@,
                    ) {
                        None => None,
                        Some(r) => match split_once(r, "#"@) {
                            None => None,
                            Some((v, _)) => Some(Some(v)),
                        },
                    },
                }
            },
        },
    }
}

pub proof fn lemma_split_all_nonempty(s: Seq<char>, p: Seq<char>)
    ensures
        split_all(s, p).len() >= 1,
{
    reveal_with_fuel(split_all, 1);
}

/// The links of the list items after the first piece.
fn links_exec(pieces: &Vec<Vec<char>>) -> (r: Option<Vec<String>>)
    requires
        pieces@.len() >= 1,
    ensures
        match r {
            Some(v) => links_of(pieces@.map_values(|x: Vec<char>| x@).skip(1)) == Some(
                v@.map_values(|s: String| s@),
            ),
            None => links_of(pieces@.map_values(|x: Vec<char>| x@).skip(1)) is None,
        },
{
    let ghost ps = pieces@.map_values(|x: Vec<char>| x@).skip(1);
    let close = chars_of("\">");
    let mut out: Vec<String> = Vec::new();
    let mut k: usize = 1;
    assert(ps.take(0) =~= Seq::<Seq<char>>::empty());
    while k < pieces.len()
        invariant
            1 <= k <= pieces@.len(),
            ps == pieces@.map_values(|x: Vec<char>| x@).skip(1),
            close@ == "\">"@,
            links_of(ps.take(k - 1)) == Some(out@.map_values(|s: String| s@)),
        decreases pieces@.len() - k,
    {
        assert(ps.take(k as int).drop_last() =~= ps.take(k - 1));
        assert(ps.take(k as int).last() == pieces@[k as int]@);
        match split_once_exec(&pieces[k], &close) {
            Some((l, _)) => {
                let s = string_of(&l, 0, l.len());
                assert(l@.subrange(0, l@.len() as int) =~= l@);
                let ghost old_out = out@;
                out.push(s);
                assert(out@.map_values(|s: String| s@) =~= old_out.map_values(|s: String| s@).push(l@));
            },
            None => {
                proof {
                    lemma_links_none(ps.take(k as int), ps.skip(k as int));
                    assert(ps.take(k as int) + ps.skip(k as int) =~= ps);
                }
                return None;
            },
        }
        k = k + 1;
    }
    assert(ps.take(k - 1) =~= ps);
    Some(out)
}

proof fn lemma_links_none(a: Seq<Seq<char>>, b: Seq<Seq<char>>)
    requires
        links_of(a) is None,
    ensures
        links_of(a + b) is None,
    decreases b.len(),
{
    if b.len() == 0 {
        assert(a + b =~= a);
    } else {
        lemma_links_none(a, b.drop_last());
        assert((a + b).drop_last() =~= a + b.drop_last());
    }
}

/// The first of the lines that holds `p`.
fn first_line_with_exec(lines: &Vec<Vec<char>>, p: &Vec<char>) -> (r: Option<usize>)
    ensures
        match r {
            Some(k) => k < lines@.len() && first_line_with(lines@.map_values(|x: Vec<char>| x@), p@)
                == Some(lines@[k as int]@),
            None => first_line_with(lines@.map_values(|x: Vec<char>| x@), p@) is None,
        },
{
    let ghost ls = lines@.map_values(|x: Vec<char>| x@);
    let mut k: usize = 0;
    assert(ls.skip(0) =~= ls);
    while k < lines.len()
        invariant
            k <= lines@.len(),
            ls == lines@.map_values(|x: Vec<char>| x@),
            first_line_with(ls, p@) == first_line_with(ls.skip(k as int), p@),
        decreases lines@.len() - k,
    {
        assert(ls.skip(k as int)[0] == lines@[k as int]@);
        if contains_exec(&lines[k], p) {
            return Some(k);
        }
        assert(ls.skip(k as int).drop_first() =~= ls.skip(k + 1));
        k = k + 1;
    }
    None
}

/// Reads a page of a category: the number of pages it says the category
/// has, the links it lists, and the value naming the next page. `None`
/// where a part is missing or malformed, or the number differs from the
/// number of links.
pub fn category_page(body: &str) -> (r: Option<CategoryPage>)
    ensures
        match r {
            Some(page) => {
                &&& category_count(body@) == Some(page.count)
                &&& category_links(body@) == Some(page.links@.map_values(|s: String| s@))
                &&& page.count == page.links@.len()
                &&& next_page(body@) == Some(opt_view(page.next))
            },
            None => {
                ||| category_count(body@) is None
                ||| category_links(body@) is None
                ||| category_count(body@).unwrap() != category_links(body@).unwrap().len()
                ||| next_page(body@) is None
            },
        },
{
    let cs = chars_of(body);
    let count = match split_once_exec(&cs, &chars_of("<p>Folgende ")) {
        None => {
            return None;
        },
        Some((_, a)) => match split_once_exec(&a, &chars_of(" Seiten sind in dieser Kategorie, von ")) {
            None => {
                return None;
            },
            Some((n, _)) => match parse_usize_exec(&n) {
                None => {
                    return None;
                },
                Some(c) => c,
            },
        },
    };
    assert(category_count(body@) == Some(count));
    let links = match split_once_exec(&cs, &chars_of("<h2>Seiten in der Kategorie ")) {
        None => {
            return None;
        },
        Some((_, a)) => match split_once_exec(
            &a,
            &chars_of("<div class=\"printfooter\" data-nosnippet=\"\">"),
        ) {
            None => {
                return None;
            },
            Some((b, _)) => {
                let item = chars_of("<li><a href=\"");
                assert(item@.len() > 0) by {
                    reveal_strlit("<li><a href=\"");
                }
                let pieces = split_all_exec(&b, &item);
                proof {
                    lemma_split_all_nonempty(b@, item@);
                }
                match links_exec(&pieces) {
                    None => {
                        return None;
                    },
                    Some(v) => v,
                }
            },
        },
    };
    assert(category_links(body@) == Some(links@.map_values(|s: String| s@)));
    if count != links.len() {
        return None;
    }
    let newline = chars_of("\n");
    assert(newline@.len() > 0) by {
        reveal_strlit("\n");
    }
    let lines = split_all_exec(&cs, &newline);
    let next: Option<String> = match first_line_with_exec(&lines, &chars_of("nächste")) {
        None => None,
        Some(k) => {
            let anchor = chars_of("<a href=\"");
            assert(anchor@.len() > 0) by {
                reveal_strlit("<a href=\"");
            }
            let parts = split_all_exec(&lines[k], &anchor);
            proof {
                lemma_split_all_nonempty(lines@[k as int]@, anchor@);
            }
            let last_index = parts.len() - 1;
            assert(parts@[last_index as int]@ == split_all(lines@[k as int]@, anchor@).last());
            match split_once_exec(&parts[last_index], &chars_of("</a>")) {
                None => {
                    return None;
                },
                Some((n, _)) => {
                    if !contains_exec(&n, &chars_of("nächste")) {
                        None
                    } else {
                        match split_once_exec(&n, &chars_of("\"")) {
                            None => {
                                return None;
                            },
                            Some((q, _)) => match strip_prefix_exec(
                                &q,
                                &chars_of(
                                    "/w/index.php?title=Kategorie:Grundformeintrag_(Deutsch)&amp;pagefrom=",
                                ),
                            ) {
                                None => {
                                    return None;
                                },
                                Some(rest) => match split_once_exec(&rest, &chars_of("#")) {
                                    None => {
                                        return None;
                                    },
                                    Some((v, _)) => {
                                        assert(v@.subrange(0, v@.len() as int) =~= v@);
                                        Some(string_of(&v, 0, v.len()))
                                    },
                                },
                            },
                        }
                    }
                },
            }
        },
    };
    assert(next_page(body@) == Some(opt_view(next)));
    Some(CategoryPage { count, links, next })
}

} // verus!

use wordle::search::{split_all_exec, split_once_exec, strip_prefix_exec, contains_exec};
use wordle::wiktionary::{
    category_page, checked_entry, kept_line, parse_category_listing, parse_usize_exec, PageVerdict,
};

fn cs(s: &str) -> Vec<char> {
    s.chars().collect()
}

fn st(v: &[char]) -> String {
    v.iter().collect()
}

#[test]
fn listing_keeps_five_ascii_letter_words() {
    let text = "/wiki/Abend\" title=\"Abend\n/wiki/Bär\" title=\"Bären\n/wiki/Au\" title=\"Au\n/wiki/Mut\" title=\"Mutig1";
    let words = parse_category_listing(text).unwrap();
    assert_eq!(words.len(), 1);
    assert_eq!(words[0].word, "Abend");
    assert_eq!(words[0].link, "Abend");
}

#[test]
fn listing_line_without_separator_or_prefix_is_malformed() {
    assert!(parse_category_listing("/wiki/Abend title=Abend").is_none());
    assert!(parse_category_listing("/w/Abend\" title=\"Abend").is_none());
    assert_eq!(parse_category_listing("").unwrap().len(), 0);
}

fn page(sections: &str) -> String {
    format!("<html>{sections}</html>")
}

#[test]
fn entry_with_one_german_noun_section_is_kept() {
    let p = page(
        "<li id=\"toc-Abend_(Deutsch)\"><ul id=\"toc-Abend_(Deutsch)-sublist\"><li id=\"toc-Substantiv,_m,_Abend\">",
    );
    match checked_entry(&p, "Abend") {
        PageVerdict::Keep(s) => assert_eq!(s, "Substantiv,_m,_Abend"),
        _ => panic!("expected Keep"),
    }
}

#[test]
fn entry_without_german_section() {
    let p = page("<li id=\"toc-Abend_(Englisch)\">");
    assert!(matches!(checked_entry(&p, "Abend"), PageVerdict::NoGerman));
}

#[test]
fn entry_with_two_german_sections_is_ambiguous() {
    let p = page("<li id=\"toc-Abend_(Deutsch)\"> <li id=\"toc-Abend_(Deutsch)\">");
    assert!(matches!(checked_entry(&p, "Abend"), PageVerdict::Ambiguous));
}

#[test]
fn entry_without_sublist() {
    let p = page("<li id=\"toc-Abend_(Deutsch)\"><p>nothing</p>");
    assert!(matches!(checked_entry(&p, "Abend"), PageVerdict::NoSublist));
}

#[test]
fn entry_of_a_skipped_kind() {
    let p = page(
        "<li id=\"toc-Hanna_(Deutsch)\"><ul id=\"toc-Hanna_(Deutsch)-sublist\"><li id=\"toc-Vorname,_f\">",
    );
    assert!(matches!(checked_entry(&p, "Hanna"), PageVerdict::Skipped));
}

#[test]
fn kept_line_upper_cases_the_word() {
    assert_eq!(kept_line("Abend", "Abend"), "Abend,ABEND");
    assert_eq!(kept_line("B%C3%A4r", "bär"), "B%C3%A4r,BäR");
}

#[test]
fn usize_parsing() {
    assert_eq!(parse_usize_exec(&cs("200")), Some(200));
    assert_eq!(parse_usize_exec(&cs("+7")), Some(7));
    assert_eq!(parse_usize_exec(&cs("")), None);
    assert_eq!(parse_usize_exec(&cs("+")), None);
    assert_eq!(parse_usize_exec(&cs("1.5")), None);
    assert_eq!(parse_usize_exec(&cs("-1")), None);
    assert_eq!(parse_usize_exec(&cs("18446744073709551615")), Some(usize::MAX));
    assert_eq!(parse_usize_exec(&cs("18446744073709551616")), None);
    assert_eq!(parse_usize_exec(&cs("99999999999999999999x")), None);
}

const FOOTER: &str = "<div class=\"printfooter\" data-nosnippet=\"\">";

fn category(count: &str, items: &[&str], next_line: &str) -> String {
    let mut body = format!("<p>Folgende {count} Seiten sind in dieser Kategorie, von 300</p>\n");
    body.push_str("<h2>Seiten in der Kategorie Partikel</h2><ul>");
    for it in items {
        body.push_str(&format!("<li><a href=\"{it}\">x</a></li>"));
    }
    body.push_str(FOOTER);
    body.push('\n');
    body.push_str(next_line);
    body
}

#[test]
fn category_page_with_next_page() {
    let next = "(<a href=\"/w/index.php?title=Kategorie:Grundformeintrag_(Deutsch)&amp;pagefrom=Bach#mw-pages\">nächste Seite</a>)";
    let body = category("2", &["/wiki/Abend", "/wiki/Bach"], next);
    let p = category_page(&body).unwrap();
    assert_eq!(p.count, 2);
    assert_eq!(p.links, vec!["/wiki/Abend".to_string(), "/wiki/Bach".to_string()]);
    assert_eq!(p.next, Some("Bach".to_string()));
}

#[test]
fn category_page_on_the_last_page() {
    let body = category("1", &["/wiki/Abend"], "(<a href=\"/w/x\">vorherige Seite</a>) (nächste Seite)");
    let p = category_page(&body).unwrap();
    assert_eq!(p.next, None);
    // A line naming the next page without any link is malformed.
    let body = category("1", &["/wiki/Abend"], "(vorherige Seite) (nächste Seite)");
    assert!(category_page(&body).is_none());
    let body = category("1", &["/wiki/Abend"], "");
    assert_eq!(category_page(&body).unwrap().next, None);
}

#[test]
fn category_page_count_must_match_links() {
    let body = category("3", &["/wiki/Abend"], "");
    assert!(category_page(&body).is_none());
    let body = category("x", &["/wiki/Abend"], "");
    assert!(category_page(&body).is_none());
}

#[test]
fn category_page_with_malformed_next_link() {
    let body = category("1", &["/wiki/Abend"], "<a href=\"/elsewhere\">nächste Seite</a>");
    assert!(category_page(&body).is_none());
}

#[test]
fn search_helpers() {
    let s = cs("a--b--c");
    let parts: Vec<String> = split_all_exec(&s, &cs("--")).iter().map(|v| st(v)).collect();
    assert_eq!(parts, vec!["a", "b", "c"]);
    let (x, y) = split_once_exec(&s, &cs("--")).unwrap();
    assert_eq!((st(&x), st(&y)), ("a".to_string(), "b--c".to_string()));
    assert!(split_once_exec(&s, &cs("+")).is_none());
    assert_eq!(st(&strip_prefix_exec(&s, &cs("a-")).unwrap()), "-b--c");
    assert!(strip_prefix_exec(&s, &cs("b")).is_none());
    assert!(contains_exec(&s, &cs("b--c")));
    assert!(!contains_exec(&s, &cs("cc")));
}

use wordle::text::TargetWord;
use wordle::wordlist::{parse_wordlist, parse_wordlist_text, wordlist_german, WordWithLink};

fn word(s: &str) -> TargetWord {
    let v: Vec<char> = s.chars().collect();
    [v[0], v[1], v[2], v[3], v[4]]
}

fn entry(w: &WordWithLink) -> (String, String) {
    (w.link.clone(), w.word.iter().collect())
}

#[test]
fn parses_two_lines() {
    let list = parse_wordlist(b"Hallo,HALLO\nKatze,KATZE").unwrap();
    assert_eq!(list.len(), 2);
    assert_eq!(entry(&list[0]), ("Hallo".to_string(), "HALLO".to_string()));
    assert_eq!(entry(&list[1]), ("Katze".to_string(), "KATZE".to_string()));
}

#[test]
fn trailing_newline_adds_no_line() {
    let list = parse_wordlist(b"a,HALLO\n").unwrap();
    assert_eq!(list.len(), 1);
    assert_eq!(list[0].word, word("HALLO"));
}

#[test]
fn carriage_return_before_newline_is_dropped() {
    let list = parse_wordlist(b"a,HALLO\r\nb,KATZE\r\n").unwrap();
    assert_eq!(list.len(), 2);
    assert_eq!(list[0].word, word("HALLO"));
    assert_eq!(list[1].word, word("KATZE"));
}

#[test]
fn final_carriage_return_without_newline_stays() {
    // "KATZE\r" has six characters, so the last line is malformed.
    assert!(parse_wordlist(b"a,HALLO\nb,KATZE\r").is_none());
}

#[test]
fn empty_input_is_an_empty_list() {
    assert_eq!(parse_wordlist(b"").unwrap().len(), 0);
}

#[test]
fn empty_line_is_malformed() {
    assert!(parse_wordlist(b"\n").is_none());
    assert!(parse_wordlist(b"a,HALLO\n\nb,KATZE").is_none());
}

#[test]
fn line_without_comma_is_malformed() {
    assert!(parse_wordlist(b"HALLO").is_none());
}

#[test]
fn word_of_wrong_length_is_malformed() {
    assert!(parse_wordlist(b"a,HALL").is_none());
    assert!(parse_wordlist(b"a,HALLOO").is_none());
}

#[test]
fn split_is_at_the_first_comma() {
    assert!(parse_wordlist(b"a,b,HALLO").is_none());
    let list = parse_wordlist(b"a,b,CDE").unwrap();
    assert_eq!(entry(&list[0]), ("a".to_string(), "b,CDE".to_string()));
}

#[test]
fn empty_link_is_accepted() {
    let list = parse_wordlist(b",HALLO").unwrap();
    assert_eq!(entry(&list[0]), ("".to_string(), "HALLO".to_string()));
}

#[test]
fn words_count_characters_not_bytes() {
    let list = parse_wordlist("%C3%84pfel,ÄPFEL".as_bytes()).unwrap();
    assert_eq!(entry(&list[0]), ("%C3%84pfel".to_string(), "ÄPFEL".to_string()));
}

#[test]
fn invalid_utf8_is_rejected() {
    assert!(parse_wordlist(&[b'a', b',', 0xff, b'B', b'C', b'D', b'E']).is_none());
}

#[test]
fn text_parser_agrees_with_byte_parser() {
    let a = parse_wordlist_text("x,ABCDE\ny,FGHIJ").unwrap();
    let b = parse_wordlist(b"x,ABCDE\ny,FGHIJ").unwrap();
    assert_eq!(a.iter().map(entry).collect::<Vec<_>>(), b.iter().map(entry).collect::<Vec<_>>());
}

#[test]
fn german_list_from_bytes() {
    let list = wordlist_german(b"Abend,ABEND\nBlume,BLUME\n");
    assert_eq!(list.len(), 2);
    assert_eq!(entry(&list[1]), ("Blume".to_string(), "BLUME".to_string()));
}

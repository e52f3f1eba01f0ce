use wordle::app::{
    lowercase_word, score_guess, target_words, uppercase_word, KeyColor, LetterColor, WordleApp,
    TRY_COUNT,
};
use wordle::text::{ascii_uppercase, contains_char, same_word, TargetWord, CHAR_COUNT};
use wordle::wordlist::WordWithLink;

fn word(s: &str) -> TargetWord {
    let v: Vec<char> = s.chars().collect();
    [v[0], v[1], v[2], v[3], v[4]]
}

fn app_with(words: &[&str], target: Option<&str>) -> WordleApp {
    let mut app = WordleApp::new();
    app.wordlist = words.iter().map(|w| word(w)).collect();
    if let Some(t) = target {
        app.used_targets.push(word(t));
        app.current_target = Some(word(t));
    }
    app
}

fn type_word(app: &mut WordleApp, w: &str) {
    for c in w.chars() {
        app.letter_input(c);
    }
}

#[test]
fn fresh_state_is_empty() {
    let app = WordleApp::new();
    assert!(app.wordlist.is_empty());
    assert!(app.used_targets.is_empty());
    assert_eq!(app.current_target, None);
    assert_eq!(app.current_guess, [None; CHAR_COUNT]);
    assert_eq!(app.previous_guesses, [None; TRY_COUNT]);
    assert_eq!(app.current_selected, 0);
    assert_eq!(app.game_is_won, None);
    assert_eq!(app.error_message, None);
}

#[test]
fn pick_target_takes_the_word_at_the_remainder() {
    let app = app_with(&["aaaaa", "bbbbb", "ccccc"], None);
    assert_eq!(app.pick_target(0), Some(word("aaaaa")));
    assert_eq!(app.pick_target(4), Some(word("bbbbb")));
    assert_eq!(app.pick_target(8), Some(word("ccccc")));
}

#[test]
fn pick_target_rejects_the_incomplete_last_block() {
    // Numbers from (u32::MAX / n) * n up are rejected.
    let app = app_with(&["aaaaa", "bbbbb", "ccccc"], None);
    assert_eq!(app.pick_target(u32::MAX), None);
    assert_eq!(app.pick_target(u32::MAX - 1), Some(word("ccccc")));
    let app = app_with(&["aaaaa", "bbbbb"], None);
    assert_eq!(app.pick_target(u32::MAX - 1), None);
    assert_eq!(app.pick_target(u32::MAX - 2), Some(word("bbbbb")));
}

#[test]
fn pick_target_rejects_used_words() {
    let mut app = app_with(&["aaaaa", "bbbbb"], None);
    app.used_targets.push(word("bbbbb"));
    assert_eq!(app.pick_target(1), None);
    assert_eq!(app.pick_target(2), Some(word("aaaaa")));
}

#[test]
fn start_game_clears_the_board() {
    let mut app = app_with(&["hallo"], None);
    app.letter_input('X');
    app.previous_guesses[0] = Some(word("XXXXX"));
    app.game_is_won = Some(false);
    app.error_message = Some("old".to_string());
    app.start_game(word("hallo"));
    assert_eq!(app.current_target, Some(word("hallo")));
    assert_eq!(app.used_targets, vec![word("hallo")]);
    assert_eq!(app.previous_guesses, [None; TRY_COUNT]);
    assert_eq!(app.current_guess, [None; CHAR_COUNT]);
    assert_eq!(app.current_selected, 0);
    assert_eq!(app.game_is_won, None);
    assert_eq!(app.error_message, None);
}

#[test]
fn new_game_draws_an_unused_word() {
    let mut app = app_with(&["aaaaa", "bbbbb"], None);
    assert!(app.new_game().is_ok());
    let first = app.current_target.unwrap();
    assert!(first == word("aaaaa") || first == word("bbbbb"));
    assert!(app.new_game().is_ok());
    let second = app.current_target.unwrap();
    assert_ne!(first, second);
    assert_eq!(app.used_targets, vec![first, second]);
    assert_eq!(app.game_is_won, None);
}

#[test]
fn letter_input_moves_the_selection_up_to_the_last_place() {
    let mut app = app_with(&["hallo"], Some("hallo"));
    app.error_message = Some("x".to_string());
    type_word(&mut app, "HALLO");
    assert_eq!(app.current_guess, [Some('H'), Some('A'), Some('L'), Some('L'), Some('O')]);
    assert_eq!(app.current_selected, 4);
    assert_eq!(app.error_message, None);
    app.letter_input('Z');
    assert_eq!(app.current_guess[4], Some('Z'));
    assert_eq!(app.current_selected, 4);
}

#[test]
fn letter_remove_clears_and_moves_back() {
    let mut app = app_with(&["hallo"], Some("hallo"));
    type_word(&mut app, "HA");
    assert_eq!(app.current_selected, 2);
    app.letter_remove_current();
    assert_eq!(app.current_selected, 1);
    assert_eq!(app.current_guess[1], Some('A'));
    app.letter_remove_current();
    assert_eq!(app.current_guess[1], None);
    assert_eq!(app.current_selected, 0);
    app.letter_remove_current();
    assert_eq!(app.current_guess[0], None);
    assert_eq!(app.current_selected, 0);
}

#[test]
fn select_letter_only_moves_the_selection() {
    let mut app = app_with(&["hallo"], Some("hallo"));
    type_word(&mut app, "HA");
    app.error_message = Some("kept".to_string());
    app.select_letter(3);
    assert_eq!(app.current_selected, 3);
    assert_eq!(app.error_message, Some("kept".to_string()));
    assert_eq!(app.current_guess[0], Some('H'));
}

#[test]
fn incomplete_guess_only_clears_the_message() {
    let mut app = app_with(&["hallo"], Some("hallo"));
    type_word(&mut app, "HAL");
    app.error_message = Some("x".to_string());
    app.letter_enter_current_word();
    assert_eq!(app.error_message, None);
    assert_eq!(app.previous_guesses, [None; TRY_COUNT]);
    assert_eq!(app.current_selected, 3);
}

#[test]
fn unlisted_word_sets_the_message() {
    let mut app = app_with(&["hallo"], Some("hallo"));
    type_word(&mut app, "KATZE");
    app.letter_enter_current_word();
    assert_eq!(app.error_message, Some("Word is not contained in wordlist!".to_string()));
    assert_eq!(app.previous_guesses, [None; TRY_COUNT]);
    assert_eq!(app.current_guess[0], Some('K'));
}

#[test]
fn listed_word_is_compared_in_lower_case() {
    // The typed letters are upper case; the list holds upper-case words, so
    // the lower-case form of the guess is not found.
    let mut app = app_with(&["HALLO"], Some("HALLO"));
    type_word(&mut app, "HALLO");
    app.letter_enter_current_word();
    assert_eq!(app.error_message, Some("Word is not contained in wordlist!".to_string()));
}

#[test]
fn guessing_the_hidden_word_wins() {
    let mut app = app_with(&["katze", "hallo"], Some("hallo"));
    type_word(&mut app, "KATZE");
    app.letter_enter_current_word();
    assert_eq!(app.previous_guesses[0], Some(word("KATZE")));
    assert_eq!(app.game_is_won, None);
    assert_eq!(app.current_selected, 0);
    assert_eq!(app.current_guess, [None; CHAR_COUNT]);
    type_word(&mut app, "HALLO");
    app.letter_enter_current_word();
    assert_eq!(app.previous_guesses[1], Some(word("HALLO")));
    assert_eq!(app.previous_guesses[0], Some(word("KATZE")));
    assert_eq!(app.previous_guesses[2], None);
    assert_eq!(app.game_is_won, Some(true));
}

#[test]
fn six_wrong_guesses_lose() {
    let mut app = app_with(&["katze", "hallo"], Some("hallo"));
    for i in 0..TRY_COUNT {
        assert_eq!(app.game_is_won, None);
        type_word(&mut app, "KATZE");
        app.letter_enter_current_word();
        assert_eq!(app.previous_guesses[i], Some(word("KATZE")));
    }
    assert_eq!(app.game_is_won, Some(false));
}

#[test]
fn try_enter_refuses_when_no_slot_is_free() {
    let mut app = app_with(&["katze", "hallo"], Some("hallo"));
    for _ in 0..TRY_COUNT {
        type_word(&mut app, "KATZE");
        assert!(app.try_enter_current_word());
    }
    type_word(&mut app, "HALLO");
    let before = app.current_guess;
    assert!(!app.try_enter_current_word());
    assert_eq!(app.current_guess, before);
    assert_eq!(app.game_is_won, Some(false));
    // An unlisted word finds no slot either, but needs none.
    app.current_guess = [Some('X'); CHAR_COUNT];
    assert!(app.try_enter_current_word());
    assert_eq!(app.error_message, Some("Word is not contained in wordlist!".to_string()));
}

#[test]
fn score_marks_correct_present_and_absent() {
    let colors = score_guess(&word("HOLLA"), &word("hallo"));
    assert_eq!(
        colors,
        [
            LetterColor::Correct,
            LetterColor::Present,
            LetterColor::Correct,
            LetterColor::Correct,
            LetterColor::Present
        ]
    );
    let colors = score_guess(&word("XYZXY"), &word("hallo"));
    assert_eq!(colors, [LetterColor::Absent; CHAR_COUNT]);
}

#[test]
fn score_compares_against_the_upper_case_target() {
    // A lower-case guess letter never matches the upper-cased hidden word.
    let colors = score_guess(&word("hallo"), &word("hallo"));
    assert_eq!(colors, [LetterColor::Absent; CHAR_COUNT]);
}

#[test]
fn exact_guess_is_correct_everywhere() {
    let colors = score_guess(&word("KATZE"), &word("katze"));
    assert_eq!(colors, [LetterColor::Correct; CHAR_COUNT]);
}

#[test]
fn rows_follow_the_entered_guesses() {
    let mut app = app_with(&["katze", "hallo"], Some("hallo"));
    assert_eq!(app.previous_rows().unwrap().len(), 0);
    type_word(&mut app, "KATZE");
    app.letter_enter_current_word();
    let rows = app.previous_rows().unwrap();
    assert_eq!(rows.len(), 1);
    assert_eq!(rows[0].0, word("KATZE"));
    assert_eq!(rows[0].1, score_guess(&word("KATZE"), &word("hallo")));
    assert_eq!(app.error_message, None);
}

#[test]
fn rows_without_a_target_set_the_message() {
    let mut app = app_with(&["katze"], None);
    assert_eq!(app.previous_rows().unwrap().len(), 0);
    assert_eq!(app.error_message, None);
    app.previous_guesses[0] = Some(word("KATZE"));
    assert!(app.previous_rows().is_none());
    assert_eq!(app.error_message, Some("Target not set - this is a bug".to_string()));
}

#[test]
fn empty_rows_below_the_typed_row() {
    let mut app = app_with(&["katze"], Some("katze"));
    assert_eq!(app.empty_rows_below(), TRY_COUNT - 1);
    app.previous_guesses[0] = Some(word("KATZE"));
    app.previous_guesses[1] = Some(word("KATZE"));
    assert_eq!(app.empty_rows_below(), TRY_COUNT - 3);
    for i in 0..TRY_COUNT {
        app.previous_guesses[i] = Some(word("KATZE"));
    }
    assert_eq!(app.empty_rows_below(), 0);
}

#[test]
fn keyboard_keys_show_what_guesses_revealed() {
    let mut app = app_with(&["katze", "hallo"], Some("hallo"));
    assert_eq!(app.keyboard_key('a'), ('A', KeyColor::Unused));
    type_word(&mut app, "KATZE");
    app.letter_enter_current_word();
    assert_eq!(app.keyboard_key('a'), ('A', KeyColor::InTarget));
    assert_eq!(app.keyboard_key('k'), ('K', KeyColor::NotInTarget));
    assert_eq!(app.keyboard_key('h'), ('H', KeyColor::Unused));
}

#[test]
fn keyboard_key_without_target_is_never_green() {
    let mut app = app_with(&["katze"], None);
    app.previous_guesses[0] = Some(word("KATZE"));
    assert_eq!(app.keyboard_key('k'), ('K', KeyColor::NotInTarget));
}

#[test]
fn hidden_word_is_upper_case() {
    let app = app_with(&["hallo"], Some("hallo"));
    assert_eq!(app.hidden_word(), "HALLO");
    let app = app_with(&["hallo"], None);
    assert_eq!(app.hidden_word(), "\0\0\0\0\0");
    let app = app_with(&["äpfel"], Some("äpfel"));
    assert_eq!(app.hidden_word(), "äPFEL");
}

#[test]
fn word_list_is_loaded_only_once() {
    let list = vec![
        WordWithLink { link: "a".to_string(), word: word("katze") },
        WordWithLink { link: "b".to_string(), word: word("hallo") },
    ];
    assert_eq!(target_words(&list), vec![word("katze"), word("hallo")]);
    let mut app = WordleApp::new();
    app.load_wordlist_if_empty(&list);
    assert_eq!(app.wordlist, vec![word("katze"), word("hallo")]);
    let other = vec![WordWithLink { link: "c".to_string(), word: word("blume") }];
    app.load_wordlist_if_empty(&other);
    assert_eq!(app.wordlist, vec![word("katze"), word("hallo")]);
}

#[test]
fn case_mapping_of_words() {
    assert_eq!(lowercase_word(&word("ÄPFEL")), word("äpfel"));
    assert_eq!(uppercase_word(&word("straß")), word("STRAS"));
    assert_eq!(ascii_uppercase('ä'), 'ä');
    assert_eq!(ascii_uppercase('q'), 'Q');
}

#[test]
fn word_helpers() {
    assert!(same_word(&word("hallo"), &word("hallo")));
    assert!(!same_word(&word("hallo"), &word("hallO")));
    assert!(contains_char(&word("hallo"), 'o'));
    assert!(!contains_char(&word("hallo"), 'O'));
}

#[test]
fn wordlist_membership() {
    let app = app_with(&["katze", "hallo"], None);
    assert!(app.wordlist_contains(&word("hallo")));
    assert!(!app.wordlist_contains(&word("HALLO")));
    assert!(!app.is_used_target(&word("hallo")));
}

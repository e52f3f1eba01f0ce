use wordle::statistics::Statistics;

#[test]
fn new_game_counts_and_starts_the_clock() {
    let mut s = Statistics::default();
    s.new_game();
    s.new_game();
    assert_eq!(s.started_games, 2);
    assert!(s.last_time_start.is_some());
    assert!(s.won_games.is_empty());
    assert!(s.lost_games.is_empty());
}

#[test]
fn won_game_records_guesses_and_duration() {
    let mut s = Statistics::default();
    s.new_game();
    s.game_completed(Some(3));
    assert_eq!(s.won_games, vec![(3, Some(0))]);
    assert!(s.lost_games.is_empty());
    assert!(s.last_time_start.is_none());
    assert_eq!(s.started_games, 1);
}

#[test]
fn game_without_start_has_no_duration() {
    let mut s = Statistics::default();
    s.game_completed(Some(4));
    s.game_completed(None);
    assert_eq!(s.won_games, vec![(4, None)]);
    assert_eq!(s.lost_games, vec![None]);
}

#[test]
fn lost_game_is_recorded() {
    let mut s = Statistics::default();
    s.new_game();
    s.game_completed(None);
    assert_eq!(s.lost_games, vec![Some(0)]);
    assert!(s.won_games.is_empty());
}

#[test]
fn guess_count_is_truncated_to_a_byte() {
    let mut s = Statistics::default();
    s.game_completed(Some(300));
    assert_eq!(s.won_games, vec![(44, None)]);
}

#[test]
fn start_at_remembers_the_given_instant() {
    let mut s = Statistics::default();
    let now = web_time::Instant::now();
    s.start_at(now);
    assert_eq!(s.last_time_start, Some(now));
    assert_eq!(s.started_games, 1);
}

#[test]
fn recorded_duration_is_truncated_to_u32() {
    let mut s = Statistics::default();
    s.start_at(web_time::Instant::now());
    s.record_completion(Some(2), Some(5_000_000_000));
    assert_eq!(s.won_games, vec![(2, Some(705_032_704))]);
    assert!(s.last_time_start.is_none());
    s.record_completion(None, Some(17));
    s.record_completion(None, None);
    assert_eq!(s.lost_games, vec![Some(17), None]);
    assert_eq!(s.started_games, 1);
}

#[test]
fn second_completion_without_new_game_has_no_duration() {
    let mut s = Statistics::default();
    s.new_game();
    s.game_completed(Some(2));
    s.game_completed(None);
    assert_eq!(s.won_games, vec![(2, Some(0))]);
    assert_eq!(s.lost_games, vec![None]);
    assert_eq!(s.started_games, 1);
    assert_eq!(s.won_games.len() + s.lost_games.len(), 2);
}

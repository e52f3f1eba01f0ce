//! Statistics over the games a player has played.

use vstd::prelude::*;

verus! {

#[verifier::external_type_specification]
#[verifier::external_body]
pub struct ExInstant(web_time::Instant);

/// The games started, won and lost, with the time each completed game took.
#[derive(Debug)]
pub struct Statistics {
    /// When the game under way started, if one is.
    pub last_time_start: Option<web_time::Instant>,
    /// The number of games started.
    pub started_games: usize,
    /// For each won game: the number of guesses it took and its duration in
    /// seconds, where its start was known.
    pub won_games: Vec<(u8, Option<u32>)>,
    /// For each lost game: its duration in seconds, where its start was known.
    pub lost_games: Vec<Option<u32>>,
}

impl Default for Statistics {
    fn default() -> (s: Statistics)
        ensures
            s.last_time_start is None,
            s.started_games == 0,
            s.won_games@.len() == 0,
            s.lost_games@.len() == 0,
    {
        Statistics { last_time_start: None, started_games: 0, won_games: Vec::new(), lost_games: Vec::new() }
    }
}

/// A call that changes the statistics.
pub enum StatisticsEvent {
    /// `new_game`.
    NewGame,
    /// `game_completed` with the number of guesses, `None` for a lost game.
    GameCompleted(Option<usize>),
}

/// The recorded duration for a number of elapsed seconds: the seconds
/// truncated to `u32`, or none where the start was not known.
pub open spec fn recorded_duration(elapsed_secs: Option<u64>) -> Option<u32> {
    match elapsed_secs {
        Some(s) => Some(s as u32),
        None => None,
    }
}

/// `new` is what `old` becomes by the event `e`. A new game is counted and
/// its start remembered. A completed game forgets the start and appends one
/// record, won with the number of guesses truncated to a byte or lost, with
/// a duration where, and only where, the start was known.
pub open spec fn statistics_step(old: Statistics, new: Statistics, e: StatisticsEvent) -> bool {
    match e {
        StatisticsEvent::NewGame => {
            &&& new.started_games == old.started_games + 1
            &&& new.last_time_start is Some
            &&& new.won_games@ == old.won_games@
            &&& new.lost_games@ == old.lost_games@
        },
        StatisticsEvent::GameCompleted(guesses) => {
            &&& new.last_time_start is None
            &&& new.started_games == old.started_games
            &&& match guesses {
                Some(g) => {
                    &&& new.won_games@.len() == old.won_games@.len() + 1
                    &&& new.won_games@.drop_last() == old.won_games@
                    &&& new.won_games@.last().0 == g as u8
                    &&& (new.won_games@.last().1 is Some <==> old.last_time_start is Some)
                    &&& new.lost_games@ == old.lost_games@
                },
                None => {
                    &&& new.lost_games@.len() == old.lost_games@.len() + 1
                    &&& new.lost_games@.drop_last() == old.lost_games@
                    &&& (new.lost_games@.last() is Some <==> old.last_time_start is Some)
                    &&& new.won_games@ == old.won_games@
                },
            }
        },
    }
}

/// The number of new games among the events.
pub open spec fn count_new_games(events: Seq<StatisticsEvent>) -> nat
    decreases events.len(),
{
    if events.len() == 0 {
        0
    } else {
        count_new_games(events.drop_last()) + if events.last() is NewGame { 1nat } else { 0nat }
    }
}

/// The number of completed games among the events.
pub open spec fn count_completions(events: Seq<StatisticsEvent>) -> nat
    decreases events.len(),
{
    if events.len() == 0 {
        0
    } else {
        count_completions(events.drop_last()) + if events.last() is GameCompleted { 1nat } else { 0nat }
    }
}

/// Whether a new game came after the last completed game: the last event
/// is a new game.
pub open spec fn started_since_completion(events: Seq<StatisticsEvent>) -> bool {
    events.len() > 0 && events.last() is NewGame
}

/// The duration of the record that a completion appended: that of the last
/// won game where it was won, of the last lost game where it was lost.
pub open spec fn last_record_duration(s: Statistics, guesses: Option<usize>) -> Option<u32> {
    match guesses {
        Some(_) => s.won_games@.last().1,
        None => s.lost_games@.last(),
    }
}

/// Over any run of calls from empty statistics: the started games count the
/// new games, the records count the completed games, a start is remembered
/// exactly where a new game came after the last completion, and a completion
/// with no new game since the previous one records no duration.
pub proof fn lemma_statistics_run(states: Seq<Statistics>, events: Seq<StatisticsEvent>)
    requires
        states.len() == events.len() + 1,
        states[0].last_time_start is None,
        states[0].started_games == 0,
        states[0].won_games@.len() == 0,
        states[0].lost_games@.len() == 0,
        forall|i: int|
            0 <= i < events.len() ==> statistics_step(#[trigger] states[i], states[i + 1], events[i]),
    ensures
        states.last().started_games == count_new_games(events),
        states.last().won_games@.len() + states.last().lost_games@.len() == count_completions(events),
        states.last().last_time_start is Some <==> started_since_completion(events),
        events.len() > 0 && !started_since_completion(events.drop_last())
            ==> (events.last() matches StatisticsEvent::GameCompleted(g) ==> last_record_duration(
            states.last(),
            g,
        ) is None),
    decreases events.len(),
{
    if events.len() > 0 {
        let n = events.len() as int;
        let s2 = states.drop_last();
        let e2 = events.drop_last();
        assert forall|i: int| 0 <= i < e2.len() implies statistics_step(#[trigger] s2[i], s2[i + 1], e2[i]) by {
            assert(s2[i] == states[i]);
            assert(s2[i + 1] == states[i + 1]);
            assert(statistics_step(states[i], states[i + 1], events[i]));
        }
        lemma_statistics_run(s2, e2);
        assert(s2.last() == states[n - 1]);
        assert(statistics_step(states[n - 1], states[n], events[n - 1]));
    }
}

impl Statistics {
    /// Counts a new game that starts at `now`.
    pub fn start_at(&mut self, now: web_time::Instant)
        requires
            old(self).started_games < usize::MAX,
        ensures
            final(self).started_games == old(self).started_games + 1,
            final(self).last_time_start == Some(now),
            final(self).won_games@ == old(self).won_games@,
            final(self).lost_games@ == old(self).lost_games@,
    {
        self.started_games = self.started_games + 1;
        self.last_time_start = Some(now);
    }

    /// Counts a new game and remembers the current time as its start.
    pub fn new_game(&mut self)
        requires
            old(self).started_games < usize::MAX,
        ensures
            statistics_step(*old(self), *final(self), StatisticsEvent::NewGame),
    {
        let now = instant_now();
        self.start_at(now);
    }

    /// Records the game under way as completed, `elapsed_secs` after its
    /// start (`None` where the start is unknown): won in `guesses` guesses,
    /// or lost where `guesses` is `None`. The start is forgotten.
    pub fn record_completion(&mut self, guesses: Option<usize>, elapsed_secs: Option<u64>)
        ensures
            final(self).last_time_start is None,
            final(self).started_games == old(self).started_games,
            match guesses {
                Some(g) => {
                    &&& final(self).won_games@ == old(self).won_games@.push(
                        (g as u8, recorded_duration(elapsed_secs)),
                    )
                    &&& final(self).lost_games@ == old(self).lost_games@
                },
                None => {
                    &&& final(self).lost_games@ == old(self).lost_games@.push(
                        recorded_duration(elapsed_secs),
                    )
                    &&& final(self).won_games@ == old(self).won_games@
                },
            },
    {
        let duration: Option<u32> = match elapsed_secs {
            Some(secs) => Some(secs as u32),
            None => None,
        };
        self.last_time_start = None;
        match guesses {
            Some(g) => {
                self.won_games.push((g as u8, duration));
            },
            None => {
                self.lost_games.push(duration);
            },
        }
    }

    /// Records the game under way as completed: won in `guesses` guesses, or
    /// lost where `guesses` is `None`. Its duration is the whole seconds
    /// since its start, where that start is known; the start is forgotten.
    pub fn game_completed(&mut self, guesses: Option<usize>)
        ensures
            statistics_step(*old(self), *final(self), StatisticsEvent::GameCompleted(guesses)),
            old(self).last_time_start matches Some(start) ==> exists|now: web_time::Instant|
                last_record_duration(*final(self), guesses) == recorded_duration(
                    Some(whole_seconds(instant_difference(now, start))),
                ),
    {
        let elapsed_secs: Option<u64> = match self.last_time_start {
            Some(start) => {
                let now = instant_now();
                let elapsed = instant_sub(now, start);
                let secs = duration_as_secs(&elapsed);
                assert(secs == whole_seconds(instant_difference(now, start)));
                Some(secs)
            },
            None => None,
        };
        self.record_completion(guesses, elapsed_secs);
        proof {
            assert(self.won_games@.drop_last() =~= old(self).won_games@ || guesses is None);
            assert(self.lost_games@.drop_last() =~= old(self).lost_games@ || guesses is Some);
        }
    }
}

/// Calls `web_time::Instant::now`: the current time. Nothing is stated of
/// it: it is the clock's.
#[verifier::external_body]
fn instant_now() -> (t: web_time::Instant) {
    web_time::Instant::now()
}

/// The duration from `earlier` to `later`, as `web_time::Instant`'s `-`
/// gives it (zero where `earlier` is later).
pub uninterp spec fn instant_difference(later: web_time::Instant, earlier: web_time::Instant) -> core::time::Duration;

/// The whole seconds of a duration, as `Duration::as_secs` gives them.
pub uninterp spec fn whole_seconds(d: core::time::Duration) -> u64;

/// Subtracts two instants with `web_time::Instant`'s `-`. Trusted: the
/// result is the named difference of the two instants, which depends on
/// them alone; std documents that it saturates at zero rather than panics.
#[verifier::external_body]
fn instant_sub(later: web_time::Instant, earlier: web_time::Instant) -> (d: core::time::Duration)
    ensures
        d == instant_difference(later, earlier),
{
    later - earlier
}

/// Calls `Duration::as_secs`. Trusted: the result is the named whole
/// seconds of the duration, which depend on it alone.
#[verifier::external_body]
fn duration_as_secs(d: &core::time::Duration) -> (secs: u64)
    ensures
        secs == whole_seconds(*d),
{
    d.as_secs()
}

} // verus!

//! The state of the game and the rules that change it.

use vstd::prelude::*;
use crate::text::{
    CHAR_COUNT, TargetWord, same_word, contains_char, word_contains, char_to_uppercase,
    char_to_lowercase, uppercase_first, lowercase_first, ascii_upper, ascii_uppercase,
};
use crate::wordlist::WordWithLink;

verus! {

/// Number of guesses a game allows.
pub const TRY_COUNT: usize = 6;

/// The message shown when the entered word is not in the word list.
pub open spec fn not_in_wordlist_message() -> Seq<char> {
    "Word is not contained in wordlist!"@
}

/// The message shown when guesses exist but no hidden word was chosen.
pub open spec fn target_missing_message() -> Seq<char> {
    "Target not set - this is a bug"@
}

/// How a letter of a previous guess is shown against the hidden word.
#[derive(Clone, Copy, Debug, PartialEq, Eq, Structural)]
pub enum LetterColor {
    /// The letter stands at this place in the hidden word (green).
    Correct,
    /// The letter occurs elsewhere in the hidden word (yellow).
    Present,
    /// The letter does not occur in the hidden word.
    Absent,
}

/// How a key of the letter keyboard is shown.
#[derive(Clone, Copy, Debug, PartialEq, Eq, Structural)]
pub enum KeyColor {
    /// No previous guess holds the letter.
    Unused,
    /// A previous guess holds it and the hidden word has it (green).
    InTarget,
    /// A previous guess holds it and the hidden word lacks it (red).
    NotInTarget,
}

/// Why no new game could be started.
#[derive(Clone, Copy, Debug, PartialEq, Eq, Structural)]
pub enum NewGameError {
    /// The system's random number source failed.
    RandomSource,
    /// Every draw the loop could make hit a rejected number or a used word.
    NoUnusedWordDrawn,
}

/// The state of the game.
pub struct WordleApp {
    /// The words a guess must be one of, and from which hidden words are drawn.
    pub wordlist: Vec<TargetWord>,
    /// The hidden words of all games started so far.
    pub used_targets: Vec<TargetWord>,
    /// The hidden word of the current game.
    pub current_target: Option<TargetWord>,
    /// The letters of the guess being typed.
    pub current_guess: [Option<char>; CHAR_COUNT],
    /// The guesses entered in this game, first to last.
    pub previous_guesses: [Option<TargetWord>; TRY_COUNT],
    /// The place of the guess being typed that the next letter fills.
    pub current_selected: usize,
    /// `Some(true)` once won, `Some(false)` once lost, `None` while running.
    pub game_is_won: Option<bool>,
    /// The message to show, if any.
    pub error_message: Option<String>,
}

/// Index of the first `None` in `p`, or `p.len()` where there is none.
pub open spec fn first_none<A>(p: Seq<Option<A>>) -> int
    decreases p.len(),
{
    if p.len() == 0 {
        0
    } else if p[0] is None {
        0
    } else {
        1 + first_none(p.drop_first())
    }
}

/// The entered guesses fill a prefix of the slots.
pub open spec fn guesses_prefix(p: Seq<Option<TargetWord>>) -> bool {
    forall|i: int, j: int| 0 <= i < j < p.len() && (#[trigger] p[j]) is Some ==> (#[trigger] p[i]) is Some
}

/// Every slot holds a guess.
pub open spec fn all_filled(p: Seq<Option<TargetWord>>) -> bool {
    forall|i: int| 0 <= i < p.len() ==> (#[trigger] p[i]) is Some
}

/// Every place of the typed guess holds a letter.
pub open spec fn guess_complete(g: [Option<char>; CHAR_COUNT]) -> bool {
    forall|i: int| 0 <= i < CHAR_COUNT ==> (#[trigger] g@[i]) is Some
}

/// The letters of a complete typed guess.
pub open spec fn guess_letters(g: [Option<char>; CHAR_COUNT]) -> Seq<char> {
    Seq::new(CHAR_COUNT as nat, |i: int| g@[i].unwrap())
}

/// A word mapped letter by letter to lower case.
pub open spec fn lower_word(w: Seq<char>) -> Seq<char> {
    w.map_values(|c: char| lowercase_first(c))
}

/// A word mapped letter by letter to upper case.
pub open spec fn upper_word(w: Seq<char>) -> Seq<char> {
    w.map_values(|c: char| uppercase_first(c))
}

/// Whether the word list holds `w`.
pub open spec fn word_listed(list: Seq<TargetWord>, w: Seq<char>) -> bool {
    exists|i: int| 0 <= i < list.len() && (#[trigger] list[i])@ == w
}

/// The hidden word drawn from a random number, or `None` where the number
/// is rejected (it lies in the incomplete last block of `u32`, or it points
/// at a word that was already a hidden word).
pub open spec fn spec_pick(wordlist: Seq<TargetWord>, used: Seq<TargetWord>, random: u32) -> Option<TargetWord> {
    let words = wordlist.len() as u32;
    let max = (u32::MAX / words) * words;
    if random >= max {
        None
    } else {
        let t = wordlist[(random % words) as int];
        if used.contains(t) {
            None
        } else {
            Some(t)
        }
    }
}

/// `new` is the state that `old` becomes when a game with hidden word `t`
/// starts.
pub open spec fn started(old: WordleApp, new: WordleApp, t: TargetWord) -> bool {
    &&& new.wordlist@ == old.wordlist@
    &&& new.used_targets@ == old.used_targets@.push(t)
    &&& new.current_target == Some(t)
    &&& forall|i: int| 0 <= i < TRY_COUNT ==> (#[trigger] new.previous_guesses@[i]) is None
    &&& forall|i: int| 0 <= i < CHAR_COUNT ==> (#[trigger] new.current_guess@[i]) is None
    &&& new.current_selected == 0
    &&& new.game_is_won is None
    &&& new.error_message is None
}

/// The color of place `i` of a guess against the upper-case hidden word:
/// the same letter at that place, else the letter anywhere in the word,
/// else neither.
pub open spec fn letter_color(guess: Seq<char>, target_upper: Seq<char>, i: int) -> LetterColor {
    if guess[i] == target_upper[i] {
        LetterColor::Correct
    } else if word_contains(target_upper, guess[i]) {
        LetterColor::Present
    } else {
        LetterColor::Absent
    }
}

/// The colors of all places of a guess against a hidden word.
pub open spec fn row_colors(guess: Seq<char>, target: Seq<char>) -> Seq<LetterColor> {
    Seq::new(CHAR_COUNT as nat, |i: int| letter_color(guess, upper_word(target), i))
}

/// The hidden word, or five NUL characters where there is none.
pub open spec fn target_or_default(t: Option<TargetWord>) -> Seq<char> {
    match t {
        Some(w) => w@,
        None => Seq::new(CHAR_COUNT as nat, |i: int| '\0'),
    }
}

/// Whether the slot holds a guess with the letter `c`.
pub open spec fn slot_has(slot: Option<TargetWord>, c: char) -> bool {
    slot matches Some(w) && word_contains(w@, c)
}

/// Whether some entered guess holds the letter `c`.
pub open spec fn guessed_letter(p: Seq<Option<TargetWord>>, c: char) -> bool {
    exists|j: int| 0 <= j < p.len() && slot_has(#[trigger] p[j], c)
}

/// The color of the key for the lower-case letter `letter`: unused where
/// no guess holds its upper-case form, else whether the hidden word holds
/// `letter` itself.
pub open spec fn key_color(s: WordleApp, letter: char) -> KeyColor {
    let in_target = s.current_target matches Some(t) && word_contains(t@, letter);
    if guessed_letter(s.previous_guesses@, uppercase_first(letter)) {
        if in_target {
            KeyColor::InTarget
        } else {
            KeyColor::NotInTarget
        }
    } else {
        KeyColor::Unused
    }
}

/// `a` and `b` have the same word list, used words and hidden word.
pub open spec fn same_game(a: WordleApp, b: WordleApp) -> bool {
    &&& a.wordlist@ == b.wordlist@
    &&& a.used_targets@ == b.used_targets@
    &&& a.current_target == b.current_target
}

/// Entering the typed guess would find no free slot for it.
pub open spec fn enter_panics(s: WordleApp) -> bool {
    &&& guess_complete(s.current_guess)
    &&& word_listed(s.wordlist@, lower_word(guess_letters(s.current_guess)))
    &&& first_none(s.previous_guesses@) >= TRY_COUNT
}

/// `new` is the state that `old` becomes when the typed guess is entered.
/// An incomplete guess only clears the message. A complete guess whose
/// lower-case form is in the list goes into the first free slot, wins the
/// game where that form is the hidden word, loses it where no slot is left,
/// and the typing starts over. Any other guess sets the message that the
/// word is not in the list.
pub open spec fn entered(old: WordleApp, new: WordleApp) -> bool {
    let k = first_none(old.previous_guesses@);
    let lw = lower_word(guess_letters(old.current_guess));
    &&& same_game(old, new)
    &&& if !guess_complete(old.current_guess) {
        &&& new.current_guess == old.current_guess
        &&& new.previous_guesses == old.previous_guesses
        &&& new.current_selected == old.current_selected
        &&& new.game_is_won == old.game_is_won
        &&& new.error_message is None
    } else if word_listed(old.wordlist@, lw) {
        &&& forall|j: int|
            0 <= j < TRY_COUNT && j != k ==> (#[trigger] new.previous_guesses@[j])
                == old.previous_guesses@[j]
        &&& new.previous_guesses@[k] matches Some(w) && w@ == guess_letters(old.current_guess)
        &&& new.game_is_won == (if old.current_target matches Some(t) && t@ == lw {
            Some(true)
        } else if all_filled(new.previous_guesses@) {
            Some(false)
        } else {
            old.game_is_won
        })
        &&& new.current_selected == 0
        &&& forall|i: int| 0 <= i < CHAR_COUNT ==> (#[trigger] new.current_guess@[i]) is None
        &&& new.error_message is None
    } else {
        &&& new.current_guess == old.current_guess
        &&& new.previous_guesses == old.previous_guesses
        &&& new.current_selected == old.current_selected
        &&& new.game_is_won == old.game_is_won
        &&& new.error_message matches Some(m) && m@ == not_in_wordlist_message()
    }
}

impl WordleApp {
    /// The state invariant: the selected place lies in the guess, the
    /// entered guesses fill a prefix of the slots, no hidden word is used
    /// twice, the hidden word is recorded as used, and a running game has a
    /// free slot.
    pub open spec fn wf(&self) -> bool {
        &&& self.current_selected < CHAR_COUNT
        &&& guesses_prefix(self.previous_guesses@)
        &&& self.used_targets@.no_duplicates()
        &&& (self.current_target matches Some(t) ==> self.used_targets@.contains(t))
        &&& (self.game_is_won is None ==> first_none(self.previous_guesses@) < TRY_COUNT)
    }

    /// A fresh state: no words, no game.
    pub fn new() -> (app: WordleApp)
        ensures
            app.wordlist@.len() == 0,
            app.used_targets@.len() == 0,
            app.current_target is None,
            forall|i: int| 0 <= i < TRY_COUNT ==> (#[trigger] app.previous_guesses@[i]) is None,
            forall|i: int| 0 <= i < CHAR_COUNT ==> (#[trigger] app.current_guess@[i]) is None,
            app.current_selected == 0,
            app.game_is_won is None,
            app.error_message is None,
            app.wf(),
    {
        let app = WordleApp {
            wordlist: Vec::new(),
            used_targets: Vec::new(),
            current_target: None,
            current_guess: [None; CHAR_COUNT],
            previous_guesses: [None; TRY_COUNT],
            current_selected: 0,
            game_is_won: None,
            error_message: None,
        };
        proof {
            lemma_first_none_is(app.previous_guesses@, 0);
        }
        app
    }

    /// Whether `t` was the hidden word of a game already.
    pub fn is_used_target(&self, t: &TargetWord) -> (r: bool)
        ensures
            r == self.used_targets@.contains(*t),
    {
        let n = self.used_targets.len();
        let mut i: usize = 0;
        while i < n
            invariant
                n == self.used_targets@.len(),
                i <= n,
                forall|j: int| 0 <= j < i ==> self.used_targets@[j] != *t,
            decreases n - i,
        {
            if same_word(&self.used_targets[i], t) {
                proof {
                    vstd::array::axiom_array_ext_equal(self.used_targets@[i as int], *t);
                }
                return true;
            }
            i = i + 1;
        }
        false
    }

    /// The hidden word that the random number `random` draws: the word at
    /// `random % len` of the list, unless `random` falls in the incomplete
    /// last block of `u32` or that word was a hidden word already.
    pub fn pick_target(&self, random: u32) -> (r: Option<TargetWord>)
        requires
            self.wordlist@.len() as u32 != 0,
        ensures
            r == spec_pick(self.wordlist@, self.used_targets@, random),
            r matches Some(t) ==> self.wordlist@.contains(t),
    {
        let n: usize = self.wordlist.len();
        let words: u32 = n as u32;
        assert(words <= n) by (bit_vector)
            requires
                words == n as u32,
        ;
        let q: u32 = u32::MAX / words;
        assert(q * words <= u32::MAX) by (nonlinear_arith)
            requires
                q == u32::MAX / words,
                words > 0,
        ;
        let max: u32 = q * words;
        if random >= max {
            return None;
        }
        let index: u32 = random % words;
        let target = self.wordlist[index as usize];
        assert(self.wordlist@[index as int] == target);
        if self.is_used_target(&target) {
            None
        } else {
            Some(target)
        }
    }

    /// Starts a game with hidden word `target`: records it as used and
    /// clears the board.
    pub fn start_game(&mut self, target: TargetWord)
        requires
            !old(self).used_targets@.contains(target),
        ensures
            started(*old(self), *final(self), target),
            old(self).used_targets@.no_duplicates() ==> final(self).wf(),
    {
        self.used_targets.push(target);
        self.current_target = Some(target);
        self.previous_guesses = [None; TRY_COUNT];
        self.current_guess = [None; CHAR_COUNT];
        self.current_selected = 0;
        self.game_is_won = None;
        self.error_message = None;
        proof {
            lemma_first_none_is(self.previous_guesses@, 0);
            assert(self.used_targets@.last() == target);
            if old(self).used_targets@.no_duplicates() {
                assert forall|i: int, j: int|
                    0 <= i < j < self.used_targets@.len() implies self.used_targets@[i]
                    != self.used_targets@[j] by {
                    if j == self.used_targets@.len() - 1 {
                        assert(old(self).used_targets@[i] == self.used_targets@[i]);
                    } else {
                        assert(old(self).used_targets@[i] == self.used_targets@[i]);
                        assert(old(self).used_targets@[j] == self.used_targets@[j]);
                    }
                }
            }
        }
    }

    /// Starts a new game with a hidden word drawn at random from the list
    /// and not used before. It draws until a number is accepted; where the
    /// random source fails, or no draw is accepted, the state is unchanged.
    pub fn new_game(&mut self) -> (r: Result<(), NewGameError>)
        requires
            old(self).wordlist@.len() as u32 != 0,
        ensures
            match r {
                Ok(()) => exists|t: TargetWord|
                    old(self).wordlist@.contains(t) && !old(self).used_targets@.contains(t)
                        && started(*old(self), *final(self), t),
                Err(_) => *final(self) == *old(self),
            },
            r is Ok && old(self).used_targets@.no_duplicates() ==> final(self).wf(),
    {
        let mut attempts: u64 = 0;
        loop
            invariant
                *self == *old(self),
                self.wordlist@.len() as u32 != 0,
            decreases u64::MAX - attempts,
        {
            let random = match random_u32() {
                Ok(v) => v,
                Err(_) => {
                    return Err(NewGameError::RandomSource);
                },
            };
            match self.pick_target(random) {
                Some(t) => {
                    self.start_game(t);
                    return Ok(());
                },
                None => {},
            }
            if attempts == u64::MAX {
                return Err(NewGameError::NoUnusedWordDrawn);
            }
            attempts = attempts + 1;
        }
    }
}

impl WordleApp {
    /// Puts `letter` at the selected place of the typed guess and moves the
    /// selection one place on, unless it is at the last place.
    pub fn letter_input(&mut self, letter: char)
        requires
            old(self).current_selected < CHAR_COUNT,
        ensures
            same_game(*old(self), *final(self)),
            final(self).current_guess@ == old(self).current_guess@.update(
                old(self).current_selected as int,
                Some(letter),
            ),
            final(self).current_selected == (if old(self).current_selected + 1 < CHAR_COUNT {
                old(self).current_selected + 1
            } else {
                old(self).current_selected as int
            }),
            final(self).previous_guesses == old(self).previous_guesses,
            final(self).game_is_won == old(self).game_is_won,
            final(self).error_message is None,
            old(self).wf() ==> final(self).wf(),
    {
        let sel = self.current_selected;
        self.current_guess[sel] = Some(letter);
        let next = sel + 1;
        if next < CHAR_COUNT {
            self.current_selected = next;
        }
        self.error_message = None;
    }

    /// Clears the selected place of the typed guess and moves the selection
    /// one place back, unless it is at the first place.
    pub fn letter_remove_current(&mut self)
        requires
            old(self).current_selected < CHAR_COUNT,
        ensures
            same_game(*old(self), *final(self)),
            final(self).current_guess@ == old(self).current_guess@.update(
                old(self).current_selected as int,
                None,
            ),
            final(self).current_selected == (if old(self).current_selected > 0 {
                old(self).current_selected - 1
            } else {
                0
            }),
            final(self).previous_guesses == old(self).previous_guesses,
            final(self).game_is_won == old(self).game_is_won,
            final(self).error_message is None,
            old(self).wf() ==> final(self).wf(),
    {
        let sel = self.current_selected;
        self.current_guess[sel] = None;
        if sel > 0 {
            self.current_selected = sel - 1;
        }
        self.error_message = None;
    }

    /// Selects place `i` of the typed guess.
    pub fn select_letter(&mut self, i: usize)
        requires
            i < CHAR_COUNT,
        ensures
            same_game(*old(self), *final(self)),
            final(self).current_guess == old(self).current_guess,
            final(self).current_selected == i,
            final(self).previous_guesses == old(self).previous_guesses,
            final(self).game_is_won == old(self).game_is_won,
            final(self).error_message == old(self).error_message,
            old(self).wf() ==> final(self).wf(),
    {
        self.current_selected = i;
    }

    /// Whether every place of the typed guess holds a letter.
    fn guess_is_complete(&self) -> (r: bool)
        ensures
            r == guess_complete(self.current_guess),
    {
        let mut i: usize = 0;
        while i < CHAR_COUNT
            invariant
                i <= CHAR_COUNT,
                forall|j: int| 0 <= j < i ==> (#[trigger] self.current_guess@[j]) is Some,
            decreases CHAR_COUNT - i,
        {
            if self.current_guess[i].is_none() {
                return false;
            }
            i = i + 1;
        }
        true
    }

    /// Whether the word list holds `w`.
    pub fn wordlist_contains(&self, w: &TargetWord) -> (r: bool)
        ensures
            r == word_listed(self.wordlist@, w@),
    {
        let n = self.wordlist.len();
        let mut i: usize = 0;
        while i < n
            invariant
                n == self.wordlist@.len(),
                i <= n,
                forall|j: int| 0 <= j < i ==> (#[trigger] self.wordlist@[j])@ != w@,
            decreases n - i,
        {
            if same_word(&self.wordlist[i], w) {
                return true;
            }
            i = i + 1;
        }
        false
    }

    /// Index of the first free guess slot, or `TRY_COUNT` where all are full.
    fn first_free_slot(&self) -> (k: usize)
        ensures
            k == first_none(self.previous_guesses@),
            k <= TRY_COUNT,
    {
        let mut k: usize = 0;
        while k < TRY_COUNT && self.previous_guesses[k].is_some()
            invariant
                k <= TRY_COUNT,
                forall|j: int| 0 <= j < k ==> (#[trigger] self.previous_guesses@[j]) is Some,
            decreases TRY_COUNT - k,
        {
            k = k + 1;
        }
        proof {
            lemma_first_none_is(self.previous_guesses@, k as int);
        }
        k
    }

    /// The typed guess, whose places must all hold a letter.
    fn guess_word(&self) -> (w: TargetWord)
        requires
            guess_complete(self.current_guess),
        ensures
            w@ == guess_letters(self.current_guess),
    {
        let g = self.current_guess;
        assert(g@[0] is Some && g@[1] is Some && g@[2] is Some && g@[3] is Some && g@[4] is Some);
        let w: TargetWord = [g[0].unwrap(), g[1].unwrap(), g[2].unwrap(), g[3].unwrap(), g[4].unwrap()];
        assert(w@ =~= guess_letters(self.current_guess));
        w
    }

    /// Enters the typed guess (see `entered`). The caller must make sure
    /// that a complete, listed guess finds a free slot.
    pub fn letter_enter_current_word(&mut self)
        requires
            !enter_panics(*old(self)),
        ensures
            entered(*old(self), *final(self)),
            old(self).wf() ==> final(self).wf(),
    {
        self.error_message = None;
        if !self.guess_is_complete() {
            return;
        }
        let guess = self.guess_word();
        let lower = lowercase_word(&guess);
        if self.wordlist_contains(&lower) {
            let k = self.first_free_slot();
            let ghost old_prev = self.previous_guesses@;
            proof {
                lemma_first_none_bounds(old_prev);
            }
            self.previous_guesses[k] = Some(guess);
            let won_now = match self.current_target {
                Some(t) => same_word(&lower, &t),
                None => false,
            };
            if won_now {
                self.game_is_won = Some(true);
            } else if self.all_slots_filled() {
                self.game_is_won = Some(false);
            }
            self.current_selected = 0;
            self.current_guess = [None; CHAR_COUNT];
            proof {
                let p = self.previous_guesses@;
                assert(p == old_prev.update(k as int, Some(guess)));
                if old(self).wf() {
                    assert forall|i: int, j: int|
                        0 <= i < j < p.len() && (#[trigger] p[j]) is Some implies (#[trigger] p[i]) is Some by {
                        if j != k {
                            assert(old_prev[j] is Some);
                            assert(old_prev[i] is Some);
                        }
                    }
                    if self.game_is_won is None {
                        assert(!all_filled(p));
                        lemma_first_none_bounds(p);
                    }
                }
            }
        } else {
            self.error_message = Some("Word is not contained in wordlist!".to_string());
        }
    }

    /// Whether every guess slot is full.
    fn all_slots_filled(&self) -> (r: bool)
        ensures
            r == all_filled(self.previous_guesses@),
    {
        let mut k: usize = 0;
        while k < TRY_COUNT
            invariant
                k <= TRY_COUNT,
                forall|j: int| 0 <= j < k ==> (#[trigger] self.previous_guesses@[j]) is Some,
            decreases TRY_COUNT - k,
        {
            if self.previous_guesses[k].is_none() {
                return false;
            }
            k = k + 1;
        }
        true
    }

    /// Enters the typed guess where that cannot fail, and reports whether it
    /// did; where a complete, listed guess would find no free slot, nothing
    /// changes.
    pub fn try_enter_current_word(&mut self) -> (done: bool)
        ensures
            done == !enter_panics(*old(self)),
            done ==> entered(*old(self), *final(self)),
            !done ==> *final(self) == *old(self),
            done && old(self).wf() ==> final(self).wf(),
    {
        if self.guess_is_complete() {
            let guess = self.guess_word();
            let lower = lowercase_word(&guess);
            if self.wordlist_contains(&lower) && self.first_free_slot() >= TRY_COUNT {
                return false;
            }
        }
        self.letter_enter_current_word();
        true
    }
}

impl WordleApp {
    /// The rows of the board for the entered guesses, up to the first free
    /// slot: each guess with the colors of its letters. Where a guess exists
    /// but no hidden word, the message says so and there are no rows.
    pub fn previous_rows(&mut self) -> (rows: Option<Vec<(TargetWord, [LetterColor; CHAR_COUNT])>>)
        ensures
            same_game(*old(self), *final(self)),
            final(self).current_guess == old(self).current_guess,
            final(self).previous_guesses == old(self).previous_guesses,
            final(self).current_selected == old(self).current_selected,
            final(self).game_is_won == old(self).game_is_won,
            ({
                let p = old(self).previous_guesses@;
                let k = first_none(p);
                if k > 0 && old(self).current_target is None {
                    &&& rows is None
                    &&& final(self).error_message matches Some(m) && m@ == target_missing_message()
                } else {
                    &&& final(self).error_message == old(self).error_message
                    &&& rows matches Some(r) && r@.len() == k && forall|j: int|
                        0 <= j < k ==> (#[trigger] r@[j]).0 == p[j].unwrap() && r@[j].1@ == row_colors(
                            p[j].unwrap()@,
                            old(self).current_target.unwrap()@,
                        )
                }
            }),
            old(self).wf() ==> final(self).wf(),
    {
        let k = self.first_free_slot();
        proof {
            lemma_first_none_bounds(self.previous_guesses@);
        }
        let mut rows: Vec<(TargetWord, [LetterColor; CHAR_COUNT])> = Vec::new();
        if k == 0 {
            return Some(rows);
        }
        let target = match self.current_target {
            Some(t) => t,
            None => {
                self.error_message = Some("Target not set - this is a bug".to_string());
                return None;
            },
        };
        let mut j: usize = 0;
        while j < k
            invariant
                k == first_none(self.previous_guesses@),
                k <= TRY_COUNT,
                j <= k,
                self.current_target == Some(target),
                forall|i: int| 0 <= i < k ==> (#[trigger] self.previous_guesses@[i]) is Some,
                rows@.len() == j,
                forall|i: int|
                    0 <= i < j ==> (#[trigger] rows@[i]).0 == self.previous_guesses@[i].unwrap()
                        && rows@[i].1@ == row_colors(self.previous_guesses@[i].unwrap()@, target@),
            decreases k - j,
        {
            assert(self.previous_guesses@[j as int] is Some);
            let g = self.previous_guesses[j].unwrap();
            let colors = score_guess(&g, &target);
            rows.push((g, colors));
            j = j + 1;
        }
        Some(rows)
    }

    /// The number of empty rows the board shows below the row being typed:
    /// the free slots after the first one.
    pub fn empty_rows_below(&self) -> (n: usize)
        ensures
            n == (if first_none(self.previous_guesses@) < TRY_COUNT {
                TRY_COUNT - first_none(self.previous_guesses@) - 1
            } else {
                0
            }),
    {
        let k = self.first_free_slot();
        if k < TRY_COUNT {
            TRY_COUNT - k - 1
        } else {
            0
        }
    }

    /// The key of the letter keyboard for the lower-case letter `letter`:
    /// its upper-case label and its color.
    pub fn keyboard_key(&self, letter: char) -> (key: (char, KeyColor))
        ensures
            key.0 == uppercase_first(letter),
            key.1 == key_color(*self, letter),
    {
        let in_target = match self.current_target {
            Some(t) => contains_char(&t, letter),
            None => false,
        };
        let label = char_to_uppercase(letter);
        let mut guessed = false;
        let mut j: usize = 0;
        while j < TRY_COUNT
            invariant
                j <= TRY_COUNT,
                guessed == exists|i: int|
                    0 <= i < j && slot_has(#[trigger] self.previous_guesses@[i], label),
            decreases TRY_COUNT - j,
        {
            match self.previous_guesses[j] {
                Some(w) => {
                    if contains_char(&w, label) {
                        guessed = true;
                    }
                },
                None => {},
            }
            j = j + 1;
        }
        let color = if guessed {
            if in_target {
                KeyColor::InTarget
            } else {
                KeyColor::NotInTarget
            }
        } else {
            KeyColor::Unused
        };
        (label, color)
    }

    /// The hidden word in ASCII upper case, as shown when the game is over;
    /// five NUL characters where there is no hidden word.
    pub fn hidden_word(&self) -> (s: String)
        ensures
            s@ == target_or_default(self.current_target).map_values(|c: char| ascii_upper(c)),
    {
        let t: TargetWord = match self.current_target {
            Some(t) => t,
            None => ['\0'; CHAR_COUNT],
        };
        assert(t@ =~= target_or_default(self.current_target));
        let mut s = String::new();
        let mut i: usize = 0;
        while i < CHAR_COUNT
            invariant
                i <= CHAR_COUNT,
                s@ == t@.take(i as int).map_values(|c: char| ascii_upper(c)),
            decreases CHAR_COUNT - i,
        {
            s.push(ascii_uppercase(t[i]));
            assert(t@.take(i + 1) =~= t@.take(i as int).push(t@[i as int]));
            assert(s@ =~= t@.take(i + 1).map_values(|c: char| ascii_upper(c)));
            i = i + 1;
        }
        assert(t@.take(CHAR_COUNT as int) =~= t@);
        s
    }

    /// Fills the empty word list with the words of `list`; a list that holds
    /// words already stays.
    pub fn load_wordlist_if_empty(&mut self, list: &Vec<WordWithLink>)
        ensures
            final(self).wordlist@ == (if old(self).wordlist@.len() == 0 {
                list@.map_values(|w: WordWithLink| w.word)
            } else {
                old(self).wordlist@
            }),
            final(self).used_targets == old(self).used_targets,
            final(self).current_target == old(self).current_target,
            final(self).current_guess == old(self).current_guess,
            final(self).previous_guesses == old(self).previous_guesses,
            final(self).current_selected == old(self).current_selected,
            final(self).game_is_won == old(self).game_is_won,
            final(self).error_message == old(self).error_message,
            old(self).wf() ==> final(self).wf(),
    {
        if self.wordlist.len() == 0 {
            self.wordlist = target_words(list);
        }
    }
}

/// The words of a list, without their links.
pub fn target_words(list: &Vec<WordWithLink>) -> (words: Vec<TargetWord>)
    ensures
        words@ == list@.map_values(|w: WordWithLink| w.word),
{
    let mut words: Vec<TargetWord> = Vec::new();
    let n = list.len();
    let mut i: usize = 0;
    while i < n
        invariant
            n == list@.len(),
            i <= n,
            words@ == list@.take(i as int).map_values(|w: WordWithLink| w.word),
        decreases n - i,
    {
        words.push(list[i].word);
        assert(list@.take(i + 1) =~= list@.take(i as int).push(list@[i as int]));
        assert(words@ =~= list@.take(i + 1).map_values(|w: WordWithLink| w.word));
        i = i + 1;
    }
    assert(list@.take(n as int) =~= list@);
    words
}

/// The colors of the letters of `guess` against the hidden word `target`
/// (compared in upper case): see `letter_color`.
pub fn score_guess(guess: &TargetWord, target: &TargetWord) -> (colors: [LetterColor; CHAR_COUNT])
    ensures
        colors@ == row_colors(guess@, target@),
{
    let upper = uppercase_word(target);
    let mut colors: [LetterColor; CHAR_COUNT] = [LetterColor::Absent; CHAR_COUNT];
    let mut i: usize = 0;
    while i < CHAR_COUNT
        invariant
            i <= CHAR_COUNT,
            upper@ == upper_word(target@),
            forall|j: int| 0 <= j < i ==> colors@[j] == letter_color(guess@, upper@, j),
        decreases CHAR_COUNT - i,
    {
        let p = guess[i];
        colors[i] = if p == upper[i] {
            LetterColor::Correct
        } else if contains_char(&upper, p) {
            LetterColor::Present
        } else {
            LetterColor::Absent
        };
        i = i + 1;
    }
    assert(colors@ =~= row_colors(guess@, target@));
    colors
}

/// The word mapped letter by letter to lower case.
pub fn lowercase_word(w: &TargetWord) -> (r: TargetWord)
    ensures
        r@ == lower_word(w@),
{
    let mut r: TargetWord = *w;
    let mut i: usize = 0;
    while i < CHAR_COUNT
        invariant
            i <= CHAR_COUNT,
            forall|j: int| 0 <= j < i ==> r@[j] == lowercase_first(w@[j]),
            forall|j: int| i <= j < CHAR_COUNT ==> r@[j] == w@[j],
        decreases CHAR_COUNT - i,
    {
        r[i] = char_to_lowercase(r[i]);
        i = i + 1;
    }
    assert(r@ =~= lower_word(w@));
    r
}

/// The word mapped letter by letter to upper case.
pub fn uppercase_word(w: &TargetWord) -> (r: TargetWord)
    ensures
        r@ == upper_word(w@),
{
    let mut r: TargetWord = *w;
    let mut i: usize = 0;
    while i < CHAR_COUNT
        invariant
            i <= CHAR_COUNT,
            forall|j: int| 0 <= j < i ==> r@[j] == uppercase_first(w@[j]),
            forall|j: int| i <= j < CHAR_COUNT ==> r@[j] == w@[j],
        decreases CHAR_COUNT - i,
    {
        r[i] = char_to_uppercase(r[i]);
        i = i + 1;
    }
    assert(r@ =~= upper_word(w@));
    r
}

/// Entering a guess never changes a guess entered before it.
pub proof fn lemma_entering_keeps_earlier_guesses(old: WordleApp, new: WordleApp)
    requires
        old.wf(),
        entered(old, new),
    ensures
        forall|j: int|
            0 <= j < TRY_COUNT && (#[trigger] old.previous_guesses@[j]) is Some
                ==> new.previous_guesses@[j] == old.previous_guesses@[j],
{
    let p = old.previous_guesses@;
    lemma_first_none_bounds(p);
    assert forall|j: int|
        0 <= j < TRY_COUNT && (#[trigger] old.previous_guesses@[j]) is Some
            implies new.previous_guesses@[j] == old.previous_guesses@[j] by {
        let k = first_none(p);
        if k < TRY_COUNT && j >= k {
            assert(p[k] is Some);
        }
    }
}

/// A game is lost only once every slot holds a guess.
pub proof fn lemma_loss_needs_all_guesses(old: WordleApp, new: WordleApp)
    requires
        entered(old, new),
        old.game_is_won is None,
        new.game_is_won == Some(false),
    ensures
        all_filled(new.previous_guesses@),
{
}

/// Entering a complete, listed guess whose lower-case form is the hidden
/// word wins the game, however many slots are already filled, the last one
/// included.
pub proof fn lemma_hidden_word_wins(old: WordleApp, new: WordleApp, t: TargetWord, j: int)
    requires
        entered(old, new),
        forall|i: int| 0 <= i < CHAR_COUNT ==> (#[trigger] old.current_guess@[i]) is Some,
        0 <= j < old.wordlist@.len(),
        forall|i: int|
            0 <= i < CHAR_COUNT ==> #[trigger] old.wordlist@[j]@[i] == lowercase_first(
                old.current_guess@[i].unwrap(),
            ),
        old.current_target == Some(t),
        forall|i: int|
            0 <= i < CHAR_COUNT ==> #[trigger] t@[i] == lowercase_first(old.current_guess@[i].unwrap()),
    ensures
        new.game_is_won == Some(true),
{
    let lw = lower_word(guess_letters(old.current_guess));
    assert(t@ =~= lw);
    let w = old.wordlist@[j];
    assert forall|i: int| 0 <= i < CHAR_COUNT implies w@[i] == lw[i] by {
        assert(old.wordlist@[j]@[i] == lowercase_first(old.current_guess@[i].unwrap()));
    }
    assert(w@ =~= lw);
    assert(word_listed(old.wordlist@, lw));
}

/// Entering a guess loses the game only where it is not the hidden word and
/// every slot is filled afterwards.
pub proof fn lemma_loss_only_when_full_and_wrong(old: WordleApp, new: WordleApp)
    requires
        entered(old, new),
        old.game_is_won != Some(false),
        new.game_is_won == Some(false),
    ensures
        forall|i: int| 0 <= i < TRY_COUNT ==> (#[trigger] new.previous_guesses@[i]) is Some,
        !(old.current_target matches Some(t) && forall|i: int|
            0 <= i < CHAR_COUNT ==> #[trigger] t@[i] == lowercase_first(
                old.current_guess@[i].unwrap(),
            )),
{
    let lw = lower_word(guess_letters(old.current_guess));
    if old.current_target is Some {
        let t = old.current_target.unwrap();
        if forall|i: int|
            0 <= i < CHAR_COUNT ==> #[trigger] t@[i] == lowercase_first(old.current_guess@[i].unwrap()) {
            assert(t@ =~= lw);
        }
    }
}

/// Where the letter at a place differs from the upper-case hidden word's
/// letter there, it is shown present exactly where it occurs at any place
/// of the upper-case hidden word, the first included, and absent exactly
/// where it occurs at none; where it is the same letter it is correct.
pub proof fn lemma_color_by_occurrence(guess: TargetWord, target: TargetWord, i: int)
    requires
        0 <= i < CHAR_COUNT,
    ensures
        guess@[i] == uppercase_first(target@[i]) ==> row_colors(guess@, target@)[i]
            == LetterColor::Correct,
        guess@[i] != uppercase_first(target@[i]) ==> (row_colors(guess@, target@)[i]
            == LetterColor::Present <==> exists|j: int|
            0 <= j < CHAR_COUNT && uppercase_first(#[trigger] target@[j]) == guess@[i]),
        guess@[i] != uppercase_first(target@[i]) ==> (row_colors(guess@, target@)[i]
            == LetterColor::Absent <==> forall|j: int|
            0 <= j < CHAR_COUNT ==> uppercase_first(#[trigger] target@[j]) != guess@[i]),
{
    let tu = upper_word(target@);
    assert forall|j: int| 0 <= j < CHAR_COUNT implies tu[j] == uppercase_first(#[trigger] target@[j]) by {
    }
    if guess@[i] != uppercase_first(target@[i]) {
        if exists|j: int| 0 <= j < CHAR_COUNT && uppercase_first(#[trigger] target@[j]) == guess@[i] {
            let j = choose|j: int| 0 <= j < CHAR_COUNT && uppercase_first(#[trigger] target@[j]) == guess@[i];
            assert(tu[j] == guess@[i]);
        }
    }
}

/// A key whose upper-case letter occurs in any entered guess, whichever
/// slot holds it, is colored: in the target where the hidden word holds the
/// letter, else not; a key is unused only where no entered guess holds its
/// upper-case letter.
pub proof fn lemma_key_color_by_guesses(s: WordleApp, letter: char)
    ensures
        (exists|j: int, k: int|
            0 <= j < TRY_COUNT && 0 <= k < CHAR_COUNT && (#[trigger] s.previous_guesses@[j]) is Some
                && #[trigger] s.previous_guesses@[j].unwrap()@[k] == uppercase_first(letter))
            ==> key_color(s, letter) == (if s.current_target matches Some(t) && exists|m: int|
            0 <= m < CHAR_COUNT && #[trigger] t@[m] == letter {
            KeyColor::InTarget
        } else {
            KeyColor::NotInTarget
        }),
        key_color(s, letter) == KeyColor::Unused <==> !exists|j: int, k: int|
            0 <= j < TRY_COUNT && 0 <= k < CHAR_COUNT && (#[trigger] s.previous_guesses@[j]) is Some
                && #[trigger] s.previous_guesses@[j].unwrap()@[k] == uppercase_first(letter),
{
    let u = uppercase_first(letter);
    if exists|j: int, k: int|
        0 <= j < TRY_COUNT && 0 <= k < CHAR_COUNT && (#[trigger] s.previous_guesses@[j]) is Some
            && #[trigger] s.previous_guesses@[j].unwrap()@[k] == u {
        let (j, k) = choose|j: int, k: int|
            0 <= j < TRY_COUNT && 0 <= k < CHAR_COUNT && (#[trigger] s.previous_guesses@[j]) is Some
                && #[trigger] s.previous_guesses@[j].unwrap()@[k] == u;
        assert(slot_has(s.previous_guesses@[j], u));
        assert(guessed_letter(s.previous_guesses@, u));
    } else {
        if guessed_letter(s.previous_guesses@, u) {
            let j = choose|j: int| 0 <= j < s.previous_guesses@.len() && slot_has(#[trigger] s.previous_guesses@[j], u);
            let w = s.previous_guesses@[j].unwrap();
            let k = choose|k: int| 0 <= k < w@.len() && w@[k] == u;
            assert(s.previous_guesses@[j].unwrap()@[k] == u);
        }
    }
}

/// A guess of the hidden word, in upper case, is correct at every place.
pub proof fn lemma_exact_guess_all_correct(guess: TargetWord, target: TargetWord)
    requires
        guess@ == upper_word(target@),
    ensures
        forall|i: int| 0 <= i < CHAR_COUNT ==> #[trigger] row_colors(guess@, target@)[i] == LetterColor::Correct,
{
}

/// A letter that occurs nowhere in the upper-case hidden word is absent at
/// every place of every guess.
pub proof fn lemma_foreign_letter_absent(guess: TargetWord, target: TargetWord, i: int)
    requires
        0 <= i < CHAR_COUNT,
        !word_contains(upper_word(target@), guess@[i]),
    ensures
        row_colors(guess@, target@)[i] == LetterColor::Absent,
{
}

proof fn lemma_first_none_is<A>(p: Seq<Option<A>>, j: int)
    requires
        0 <= j <= p.len(),
        j < p.len() ==> p[j] is None,
        forall|k: int| 0 <= k < j ==> (#[trigger] p[k]) is Some,
    ensures
        first_none(p) == j,
    decreases p.len(),
{
    if p.len() > 0 && p[0] is Some {
        assert forall|k: int| 0 <= k < j - 1 implies (#[trigger] p.drop_first()[k]) is Some by {
            assert(p.drop_first()[k] == p[k + 1]);
        }
        lemma_first_none_is(p.drop_first(), j - 1);
    }
}

proof fn lemma_first_none_bounds<A>(p: Seq<Option<A>>)
    ensures
        0 <= first_none(p) <= p.len(),
        first_none(p) < p.len() ==> p[first_none(p)] is None,
        forall|j: int| 0 <= j < first_none(p) ==> (#[trigger] p[j]) is Some,
    decreases p.len(),
{
    if p.len() > 0 && p[0] is Some {
        lemma_first_none_bounds(p.drop_first());
        assert forall|j: int| 0 <= j < first_none(p) implies (#[trigger] p[j]) is Some by {
            if j > 0 {
                assert(p[j] == p.drop_first()[j - 1]);
            }
        }
    }
}

#[verifier::external_type_specification]
#[verifier::external_body]
pub struct ExRandomError(getrandom::Error);

/// Calls `getrandom::u32`: a number from the system's random source, or the
/// source's error. Nothing is stated of the number: it is chance.
#[verifier::external_body]
fn random_u32() -> (r: Result<u32, getrandom::Error>) {
    getrandom::u32()
}

} // verus!

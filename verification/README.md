# wordle

A five-letter word-guessing game in the style of Wordle, with a German word
list.

- `src/` is the library, verified with Verus: the word list format
  (`wordlist`), word comparison and case mapping (`text`), the game state and
  its rules (`app`: drawing a hidden word, typing and entering guesses,
  scoring letters, the keyboard colors), the player statistics
  (`statistics`), pattern search in text (`search`) and the reading of
  Wiktionary pages from which the word list is built (`wiktionary`).
- `app/` is the egui/eframe front end: drawing, saving the state, and the
  serializable copies of the library's types.
- `tests/` exercises the library on concrete games and lists.

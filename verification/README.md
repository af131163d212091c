# geo_quiz

The game logic of a geography quiz, verified with Verus.

- `src/info_parse.rs`: the country data (names, infos with hints, images),
  scores, sorting the countries and the user folders by name, the fallback
  scores of a missing score file.
- `src/logic.rs`: `AppLogic`, the state of the quiz: setting up a play
  (which countries, in which order), flash cards (answers, scores, moving
  back and forth), the four-choice game (drawing four different answers,
  scoring found answers), search, the look-up screen and score statistics.
  It also holds the laws proved of the game (score totals cover the
  results of a play, answering twice is answering once, the four choices
  show different answers, the score counts add up).
- `src/choice_play.rs`: the state of the four-choice game.
- `src/name_map.rs`: a map from names to values kept as a list of entries.
- `src/sorting.rs`: a stable insertion sort by key.
- `src/text.rs`, `src/random.rs`: text search and lower case; shuffling and
  random picks (from `rand`).
- `app/`: a terminal front end, and the files: JSON data, score files,
  user folders.
- `tests/`: tests of the library.

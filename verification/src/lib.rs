//! Game logic of a geography quiz: flash cards, four-choice play, score
//! bookkeeping and score statistics over a list of countries.
pub mod info_parse;
pub mod sorting;
pub mod name_map;
pub mod random;
pub mod text;
pub mod choice_play;
pub mod logic;
pub mod play;

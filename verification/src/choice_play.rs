use vstd::prelude::*;

verus! {

/// State of the four-choice game, per card of the current play: the
/// choices already marked as guessed, and the four countries offered.
pub struct ChoicePlay {
    /// For each card, the marks of the four choices, once the player acted on it.
    pub prev_guesses: Vec<Option<Vec<bool>>>,
    /// For each card, the four offered countries (positions in the play), once drawn.
    pub index_guesses: Vec<Option<[usize; 4]>>,
    /// The category shown as the question.
    pub info_type: usize,
    /// The category in which the answers are given.
    pub guess_type: usize,
    pub guess_type_is_txt: bool,
}

impl ChoicePlay {
    /// No play prepared yet.
    pub fn new() -> (res: ChoicePlay)
        ensures
            res.prev_guesses@.len() == 0,
            res.index_guesses@.len() == 0,
            res.info_type == 0,
            res.guess_type == 0,
            !res.guess_type_is_txt,
    {
        ChoicePlay {
            prev_guesses: Vec::new(),
            index_guesses: Vec::new(),
            info_type: 0,
            guess_type: 0,
            guess_type_is_txt: false,
        }
    }
}

} // verus!

//! What holds between reading and writing the names of a section.

use super::decimal::lemma_trimmed_fixed;
use super::notes::{difficulty_outcome, difficulty_text, stepstype_outcome, stepstype_text};
use super::SscErrorView;
use crate::model::{Difficulty, Style};
use vstd::prelude::*;

verus! {

/// A style reads back from its `#STEPSTYPE`.
pub proof fn law_stepstype_round_trip(style: Style)
    ensures
        stepstype_outcome(stepstype_text(style)) == Ok::<Style, SscErrorView>(style),
{
    reveal_strlit("dance-single");
    reveal_strlit("dance-double");
    lemma_trimmed_fixed(stepstype_text(style));
    assert("dance-single"@[6] == 's' && "dance-double"@[6] == 'd');
}

/// A difficulty reads back from its `#DIFFICULTY`.
pub proof fn law_difficulty_round_trip(d: Difficulty)
    ensures
        difficulty_outcome(difficulty_text(d)) == Ok::<Difficulty, SscErrorView>(d),
{
    reveal_strlit("Beginner");
    reveal_strlit("Easy");
    reveal_strlit("Medium");
    reveal_strlit("Hard");
    reveal_strlit("Challenge");
    lemma_trimmed_fixed(difficulty_text(d));
    assert("Beginner"@[0] == 'B' && "Easy"@[0] == 'E' && "Medium"@[0] == 'M' && "Hard"@[0] == 'H'
        && "Challenge"@[0] == 'C');
}

} // verus!

//! StepMania `.sm` simfile parser (read-only).
//!
//! SM is the older StepMania simfile format. It uses the same MSD
//! tokenizer as SSC, but charts are encoded as a single `#NOTES` tag
//! with 6 colon-separated fields rather than SSC's `#NOTEDATA`
//! sections with individual tags.
//!
//! SM format: `#NOTES:stepstype:description:difficulty:meter:radar:notedata;`
//!
//! This module only parses — SM is never written (SSC is the only SM5
//! output format).

use crate::model::{Song, SongView};
use crate::ssc::msd::{tag_of, tokenize, tokens, values_view};
use crate::ssc::{
    apply_song_tag, bare_song, empty_song, inline_chart, parse_inline_chart, push_chart,
    song_tag_outcome, with_chart, SscError, SscErrorView,
};
use crate::util::chars::{chars_of, reads};
use crate::util::text::{dec, with_number};
use vstd::prelude::*;
use vstd::string::StringExecFns;

verus! {

#[derive(Debug, Clone)]
pub enum SmError {
    BadNotesFieldCount { count: usize },
    Chart(SscError),
}

/// An `SmError` with its texts as character sequences.
#[verifier::ext_equal]
pub enum SmErrorView {
    BadNotesFieldCount { count: int },
    Chart(SscErrorView),
}

impl View for SmError {
    type V = SmErrorView;

    open spec fn view(&self) -> SmErrorView {
        match self {
            SmError::BadNotesFieldCount { count } => SmErrorView::BadNotesFieldCount {
                count: *count as int,
            },
            SmError::Chart(e) => SmErrorView::Chart(e@),
        }
    }
}

impl SmErrorView {
    /// The text of the error.
    pub open spec fn text(self) -> Seq<char> {
        match self {
            SmErrorView::BadNotesFieldCount { count } => "SM #NOTES block has "@ + dec(count as nat)
                + " fields (expected 6: stepstype:description:difficulty:meter:radar:notedata)"@,
            SmErrorView::Chart(e) => "chart parse error: "@ + e.text(),
        }
    }
}

impl SmError {
    /// The error in words.
    pub fn message(&self) -> (text: String)
        ensures
            text@ == self@.text(),
    {
        match self {
            SmError::BadNotesFieldCount { count } => with_number(
                "SM #NOTES block has ",
                *count as u128,
                " fields (expected 6: stepstype:description:difficulty:meter:radar:notedata)",
            ),
            SmError::Chart(e) => "chart parse error: ".to_owned().concat(e.message().as_str()),
        }
    }
}

/// The song behind one more value.
pub open spec fn value_outcome(value: Seq<Seq<char>>, song: SongView) -> Result<
    SongView,
    SmErrorView,
> {
    if tag_of(value) == "NOTES"@ {
        if value.len() != 7 {
            Err(SmErrorView::BadNotesFieldCount { count: value.len() as int })
        } else {
            match inline_chart(value) {
                Err(e) => Err(SmErrorView::Chart(e)),
                Ok(chart) => Ok(with_chart(song, chart)),
            }
        }
    } else {
        match song_tag_outcome(song, value) {
            Err(e) => Err(SmErrorView::Chart(e)),
            Ok(next) => Ok(next),
        }
    }
}

/// The song that the values from `i` on complete.
pub open spec fn values_from(values: Seq<Seq<Seq<char>>>, i: int, song: SongView) -> Result<
    SongView,
    SmErrorView,
>
    decreases values.len() - i,
{
    if i >= values.len() {
        Ok(song)
    } else {
        match value_outcome(values[i], song) {
            Err(e) => Err(e),
            Ok(next) => values_from(values, i + 1, next),
        }
    }
}

/// What an SM file parses to.
pub open spec fn sm_outcome(text: Seq<char>) -> Result<SongView, SmErrorView> {
    values_from(tokens(text), 0, bare_song())
}

/// Parse a complete `.sm` file into a `Song`.
pub fn parse(text: &str) -> (r: Result<Song, SmError>)
    ensures
        match sm_outcome(text@) {
            Ok(song) => r is Ok && r->Ok_0@ == song,
            Err(e) => r is Err && r->Err_0@ == e,
        },
{
    let values = tokenize(text);
    let ghost all = values_view(values@);
    let mut song = empty_song();
    let mut i: usize = 0;
    while i < values.len()
        invariant
            i <= values@.len(),
            all == values_view(values@),
            sm_outcome(text@) == values_from(all, i as int, song@),
        decreases values@.len() - i,
    {
        let value = &values[i];
        assert(all[i as int] == value@);
        let tag = chars_of(value.tag().as_str());
        if reads(&tag, "NOTES") {
            // SM #NOTES has 6 colon-separated params besides the tag:
            // stepstype, description (ignored), difficulty, meter (ignored),
            // radar values (ignored), note data.
            if value.params.len() != 7 {
                return Err(SmError::BadNotesFieldCount { count: value.params.len() });
            }
            match parse_inline_chart(value) {
                Ok(chart) => {
                    push_chart(&mut song, chart);
                },
                Err(e) => {
                    return Err(SmError::Chart(e));
                },
            }
        } else {
            // Song-level tags are identical to SSC.
            match apply_song_tag(&mut song, value) {
                Ok(()) => {},
                Err(e) => {
                    return Err(SmError::Chart(e));
                },
            }
        }
        i = i + 1;
    }
    Ok(song)
}

} // verus!

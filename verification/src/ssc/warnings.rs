//! The charts of a simfile that are left out.

use super::msd::{param_of, strings_view, tag_of, tokenize, tokens, values_view, MsdValue};
use super::notes::{difficulty_outcome, parse_difficulty, parse_stepstype, stepstype_outcome};
use super::{SscError, SscErrorView};
use crate::util::chars::{chars_of, reads};
use vstd::prelude::*;
use vstd::string::StringExecFns;

verus! {

/// Whether a difficulty is one that is left out.
pub open spec fn is_edit(s: Seq<char>) -> bool {
    difficulty_outcome(s) == Err::<crate::model::Difficulty, SscErrorView>(
        SscErrorView::EditChartSkipped,
    )
}

/// Why the chart of a `#NOTES` value with all its fields is left out.
pub open spec fn inline_warning(value: Seq<Seq<char>>) -> Option<Seq<char>> {
    match stepstype_outcome(param_of(value, 1)) {
        Err(SscErrorView::UnsupportedStepsType(t)) => Some(
            "skipping unsupported stepstype: "@ + t,
        ),
        _ => if is_edit(param_of(value, 3)) {
            Some("skipping Edit chart"@)
        } else {
            None
        },
    }
}

/// What is to be said of a value, inside a chart's section or before the first.
pub open spec fn value_warning(value: Seq<Seq<char>>, in_section: bool) -> Option<Seq<char>> {
    if in_section {
        if tag_of(value) == "DIFFICULTY"@ && is_edit(param_of(value, 1)) {
            Some("skipping Edit chart"@)
        } else {
            None
        }
    } else if tag_of(value) == "NOTES"@ && value.len() == 7 {
        inline_warning(value)
    } else {
        None
    }
}

/// What is to be said of the values from `i` on, behind `said`. Where a file has no
/// sections, `#NOTEDATA` starts none.
pub open spec fn warnings_from(
    values: Seq<Seq<Seq<char>>>,
    i: int,
    sections: bool,
    in_section: bool,
    said: Seq<Seq<char>>,
) -> Seq<Seq<char>>
    decreases values.len() - i,
{
    if i >= values.len() {
        said
    } else if sections && tag_of(values[i]) == "NOTEDATA"@ {
        warnings_from(values, i + 1, sections, true, said)
    } else {
        warnings_from(
            values,
            i + 1,
            sections,
            in_section,
            match value_warning(values[i], in_section) {
                Some(text) => said.push(text),
                None => said,
            },
        )
    }
}

/// What is to be said of a simfile, SM or SSC.
pub open spec fn simfile_warnings(text: Seq<char>, is_sm: bool) -> Seq<Seq<char>> {
    warnings_from(tokens(text), 0, !is_sm, false, Seq::empty())
}

fn names_edit(s: &str) -> (b: bool)
    ensures
        b == is_edit(s@),
{
    match parse_difficulty(s) {
        Ok(_) => false,
        Err(e) => match e {
            SscError::EditChartSkipped => true,
            _ => false,
        },
    }
}

fn warn_inline(value: &MsdValue) -> (r: Option<String>)
    ensures
        match inline_warning(value@) {
            Some(text) => r is Some && r->0@ == text,
            None => r is None,
        },
{
    match parse_stepstype(value.param(1)) {
        Ok(_) => {},
        Err(e) => match e {
            SscError::UnsupportedStepsType(t) => {
                return Some("skipping unsupported stepstype: ".to_owned().concat(t.as_str()));
            },
            _ => {},
        },
    }
    if names_edit(value.param(3)) {
        Some("skipping Edit chart".to_owned())
    } else {
        None
    }
}

fn warn_value(value: &MsdValue, in_section: bool) -> (r: Option<String>)
    ensures
        match value_warning(value@, in_section) {
            Some(text) => r is Some && r->0@ == text,
            None => r is None,
        },
{
    let tag = chars_of(value.tag().as_str());
    if in_section {
        if reads(&tag, "DIFFICULTY") && names_edit(value.param(1)) {
            Some("skipping Edit chart".to_owned())
        } else {
            None
        }
    } else if reads(&tag, "NOTES") && value.params.len() == 7 {
        warn_inline(value)
    } else {
        None
    }
}

/// Say which charts of a simfile are left out: Edit charts, and those with a step
/// type that is not handled.
pub fn warnings(text: &str, is_sm: bool) -> (out: Vec<String>)
    ensures
        strings_view(out@) == simfile_warnings(text@, is_sm),
{
    let values = tokenize(text);
    let ghost all = values_view(values@);
    let mut out: Vec<String> = Vec::new();
    let mut in_section = false;
    let mut i: usize = 0;
    assert(strings_view(out@) =~= Seq::empty());
    while i < values.len()
        invariant
            i <= values@.len(),
            all == values_view(values@),
            simfile_warnings(text@, is_sm) == warnings_from(
                all,
                i as int,
                !is_sm,
                in_section,
                strings_view(out@),
            ),
        decreases values@.len() - i,
    {
        let value = &values[i];
        assert(all[i as int] == value@);
        let tag = chars_of(value.tag().as_str());
        if !is_sm && reads(&tag, "NOTEDATA") {
            in_section = true;
        } else {
            let ghost before = out@;
            match warn_value(value, in_section) {
                Some(t) => {
                    let ghost said = t@;
                    out.push(t);
                    assert(strings_view(out@) =~= strings_view(before).push(said));
                },
                None => {},
            }
        }
        i = i + 1;
    }
    out
}

} // verus!

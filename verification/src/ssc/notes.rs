//! SSC `#NOTEDATA` block interpretation.

pub use super::writer::{write_notedata, write_notes_body};

use super::{SscError, SscErrorView};
use crate::model::rational::{lowest, sub_value};
use crate::model::{
    group_model_values, panels_of, style_mask, Beat, Difficulty, Note, NoteKind, PanelSet, Rational,
    ShockSide, Style,
};
use crate::util::chars::{chars_of, reads, split, split_at, string_of, texts, trim, trimmed};
use crate::util::text::{debug_char, debug_text, dec, dec_string, quoted, quoted_char, with_number};
use vstd::prelude::*;
use vstd::string::StringExecFns;
use vstd::utf8::encode_utf8;

verus! {

/// The `#STEPSTYPE` of a style.
pub open spec fn stepstype_text(style: Style) -> Seq<char> {
    match style {
        Style::Single => "dance-single"@,
        Style::Double => "dance-double"@,
    }
}

/// The style that a `#STEPSTYPE` names.
pub open spec fn stepstype_outcome(s: Seq<char>) -> Result<Style, SscErrorView> {
    let t = trimmed(s);
    if t == "dance-single"@ {
        Ok(Style::Single)
    } else if t == "dance-double"@ {
        Ok(Style::Double)
    } else {
        Err(SscErrorView::UnsupportedStepsType(t))
    }
}

/// The `#DIFFICULTY` of a difficulty.
pub open spec fn difficulty_text(d: Difficulty) -> Seq<char> {
    match d {
        Difficulty::Beginner => "Beginner"@,
        Difficulty::Basic => "Easy"@,
        Difficulty::Difficult => "Medium"@,
        Difficulty::Expert => "Hard"@,
        Difficulty::Challenge => "Challenge"@,
    }
}

/// The difficulty that a `#DIFFICULTY` names.
pub open spec fn difficulty_outcome(s: Seq<char>) -> Result<Difficulty, SscErrorView> {
    let t = trimmed(s);
    if t == "Beginner"@ {
        Ok(Difficulty::Beginner)
    } else if t == "Easy"@ {
        Ok(Difficulty::Basic)
    } else if t == "Medium"@ {
        Ok(Difficulty::Difficult)
    } else if t == "Hard"@ {
        Ok(Difficulty::Expert)
    } else if t == "Challenge"@ {
        Ok(Difficulty::Challenge)
    } else if t == "Edit"@ {
        Err(SscErrorView::EditChartSkipped)
    } else {
        Err(SscErrorView::UnknownDifficulty(t))
    }
}

/// Map the `#STEPSTYPE:` value to an internal `Style`. Rejects anything
/// outside dance-single / dance-double — pump/bm/ez2/etc. are out of
/// scope for this tool.
pub fn parse_stepstype(s: &str) -> (r: Result<Style, SscError>)
    ensures
        match stepstype_outcome(s@) {
            Ok(style) => r is Ok && r->Ok_0 == style,
            Err(e) => r is Err && r->Err_0@ == e,
        },
{
    let t = trim(&chars_of(s));
    if reads(&t, "dance-single") {
        Ok(Style::Single)
    } else if reads(&t, "dance-double") {
        Ok(Style::Double)
    } else {
        Err(SscError::UnsupportedStepsType(string_of(&t)))
    }
}

/// Map the `#DIFFICULTY:` value to an internal `Difficulty`. SM5's slot
/// names are canonical; alternate names (`Standard`, `Heavy`, `Light`,
/// …) that appear in historical simfiles are rejected.
pub fn parse_difficulty(s: &str) -> (r: Result<Difficulty, SscError>)
    ensures
        match difficulty_outcome(s@) {
            Ok(d) => r is Ok && r->Ok_0 == d,
            Err(e) => r is Err && r->Err_0@ == e,
        },
{
    let t = trim(&chars_of(s));
    if reads(&t, "Beginner") {
        Ok(Difficulty::Beginner)
    } else if reads(&t, "Easy") {
        Ok(Difficulty::Basic)
    } else if reads(&t, "Medium") {
        Ok(Difficulty::Difficult)
    } else if reads(&t, "Hard") {
        Ok(Difficulty::Expert)
    } else if reads(&t, "Challenge") {
        Ok(Difficulty::Challenge)
    } else if reads(&t, "Edit") {
        Err(SscError::EditChartSkipped)
    } else {
        Err(SscError::UnknownDifficulty(string_of(&t)))
    }
}

/// The rows of a measure: its lines without the white space around them, the
/// empty ones left out.
pub open spec fn rows_of(lines: Seq<Seq<char>>) -> Seq<Seq<char>>
    decreases lines.len(),
{
    if lines.len() == 0 {
        Seq::empty()
    } else {
        let before = rows_of(lines.drop_last());
        let row = trimmed(lines.last());
        if row.len() == 0 {
            before
        } else {
            before.push(row)
        }
    }
}

/// The rows of each measure of a note grid.
pub open spec fn grid_of(body: Seq<char>) -> Seq<Seq<Seq<char>>> {
    let measures = split(body, ',');
    Seq::new(measures.len(), |i: int| rows_of(split(measures[i], '\n')))
}

/// The beat of row `row` of `rows` in measure `measure`.
pub open spec fn row_beat(measure: int, row: int, rows: int) -> Option<(int, int)> {
    let num = (measure * rows + row) * 4;
    if num <= i64::MAX && rows <= i64::MAX {
        Some(lowest(num, rows))
    } else {
        None
    }
}

/// A tap or the start of a hold.
pub open spec fn is_hit(c: char) -> bool {
    c == '1' || c == '2' || c == '4'
}

/// The start of a hold or a roll.
pub open spec fn is_head(c: char) -> bool {
    c == '2' || c == '4'
}

/// The panels with a mine among the first `n` of a row.
pub open spec fn mine_bits(row: Seq<char>, n: nat) -> u8
    decreases n,
{
    if n == 0 {
        0
    } else if row[n - 1] == 'M' {
        mine_bits(row, (n - 1) as nat) | (1u8 << ((n - 1) as u8))
    } else {
        mine_bits(row, (n - 1) as nat)
    }
}

/// The panels with a tap or the start of a hold among the first `n` of a row.
pub open spec fn hit_bits(row: Seq<char>, n: nat) -> u8
    decreases n,
{
    if n == 0 {
        0
    } else if is_hit(row[n - 1]) {
        hit_bits(row, (n - 1) as nat) | (1u8 << ((n - 1) as u8))
    } else {
        hit_bits(row, (n - 1) as nat)
    }
}

/// The shock that mines on the panels `bits` make up, if any.
pub open spec fn shock_of(bits: u8, style: Style) -> Option<ShockSide> {
    match style {
        Style::Single => if bits == 0x0F {
            Some(ShockSide::BothSides)
        } else {
            None
        },
        Style::Double => if bits == 0xFF {
            Some(ShockSide::BothSides)
        } else if bits == 0x0F {
            Some(ShockSide::P1Only)
        } else if bits == 0xF0 {
            Some(ShockSide::P2Only)
        } else {
            None
        },
    }
}

/// The notes so far, and for each panel the note whose hold is open on it.
#[verifier::ext_equal]
pub struct Board {
    pub notes: Seq<Note>,
    pub open: Seq<Option<int>>,
}

/// A `BadNoteRow`.
pub open spec fn bad_row(measure: int, row: int, reason: Seq<char>) -> SscErrorView {
    SscErrorView::BadNoteRow { measure, row, reason }
}

/// `note` as a hold of length `length`.
pub open spec fn held(note: Note, length: (int, int)) -> Note {
    Note { kind: NoteKind::HoldHead { length: Beat::of(length) }, ..note }
}

/// The board behind panel `panel` of a row at `beat`: a tail closes the hold
/// that is open on its panel, other characters leave the board as it is.
pub open spec fn cell_outcome(
    c: char,
    panel: int,
    beat: (int, int),
    measure: int,
    row: int,
    board: Board,
) -> Result<Board, SscErrorView> {
    if c == '3' {
        match board.open[panel] {
            None => Err(
                bad_row(
                    measure,
                    row,
                    "hold tail at panel "@ + dec(panel as nat) + " without matching head"@,
                ),
            ),
            Some(head) => match sub_value(beat, board.notes[head].beat@) {
                None => Err(bad_row(measure, row, "hold length: "@ + "arithmetic overflow"@)),
                Some(length) => Ok(
                    Board {
                        notes: board.notes.update(head, held(board.notes[head], length)),
                        open: board.open.update(panel, None),
                    },
                ),
            },
        }
    } else if c == '0' || is_hit(c) || c == 'M' || c == 'F' || c == 'L' {
        Ok(board)
    } else {
        Err(
            bad_row(
                measure,
                row,
                "unknown note character "@ + debug_char(c) + " at panel "@ + dec(panel as nat),
            ),
        )
    }
}

/// The board behind the panels of a row from `panel` on.
pub open spec fn cells_from(
    text: Seq<char>,
    panel: int,
    beat: (int, int),
    measure: int,
    row: int,
    board: Board,
) -> Result<Board, SscErrorView>
    decreases text.len() - panel,
{
    if panel >= text.len() {
        Ok(board)
    } else {
        match cell_outcome(text[panel], panel, beat, measure, row, board) {
            Err(e) => Err(e),
            Ok(next) => cells_from(text, panel + 1, beat, measure, row, next),
        }
    }
}

/// The board with the taps and hold starts of a row added.
pub open spec fn with_hits(text: Seq<char>, beat: (int, int), style: Style, board: Board) -> Board {
    let bits = hit_bits(text, text.len());
    if bits == 0 {
        board
    } else {
        Board {
            notes: board.notes.push(
                Note {
                    beat: Beat::of(beat),
                    kind: NoteKind::Tap,
                    panels: PanelSet::of(bits & style_mask(style)),
                },
            ),
            open: Seq::new(
                board.open.len(),
                |p: int|
                    if p < text.len() && is_head(text[p]) {
                        Some(board.notes.len() as int)
                    } else {
                        board.open[p]
                    },
            ),
        }
    }
}

/// The board with the mines of a row added.
pub open spec fn with_mines(text: Seq<char>, beat: (int, int), style: Style, board: Board) -> Board {
    let bits = mine_bits(text, text.len());
    if bits == 0 {
        board
    } else {
        Board {
            notes: board.notes.push(
                Note {
                    beat: Beat::of(beat),
                    kind: NoteKind::Mine,
                    panels: PanelSet::of(bits & style_mask(style)),
                },
            ),
            ..board
        }
    }
}

/// The board behind row `row` of `rows` in a measure.
pub open spec fn row_outcome(
    text: Seq<char>,
    measure: int,
    row: int,
    rows: int,
    style: Style,
    board: Board,
) -> Result<Board, SscErrorView> {
    match row_beat(measure, row, rows) {
        None => Err(bad_row(measure, row, "beat math: "@ + "arithmetic overflow"@)),
        Some(beat) => match shock_of(mine_bits(text, text.len()), style) {
            Some(side) => Ok(
                Board {
                    notes: board.notes.push(
                        Note {
                            beat: Beat::of(beat),
                            kind: NoteKind::Shock { side },
                            panels: PanelSet::of(0),
                        },
                    ),
                    ..board
                },
            ),
            None => match cells_from(
                text,
                0,
                beat,
                measure,
                row,
                with_mines(text, beat, style, board),
            ) {
                Err(e) => Err(e),
                Ok(closed) => Ok(with_hits(text, beat, style, closed)),
            },
        },
    }
}

/// The name of a style.
pub open spec fn style_text(style: Style) -> Seq<char> {
    match style {
        Style::Single => "Single"@,
        Style::Double => "Double"@,
    }
}

/// The board behind the rows of a measure from `row` on.
pub open spec fn rows_from(
    rows: Seq<Seq<char>>,
    row: int,
    measure: int,
    style: Style,
    board: Board,
) -> Result<Board, SscErrorView>
    decreases rows.len() - row,
{
    if row >= rows.len() {
        Ok(board)
    } else {
        let width = encode_utf8(rows[row]).len();
        if width != panels_of(style) {
            Err(
                bad_row(
                    measure,
                    row,
                    "expected "@ + dec(panels_of(style) as nat) + " chars for "@ + style_text(style)
                        + ", got "@ + dec(width) + ": "@ + debug_text(rows[row]),
                ),
            )
        } else {
            match row_outcome(rows[row], measure, row, rows.len() as int, style, board) {
                Err(e) => Err(e),
                Ok(next) => rows_from(rows, row + 1, measure, style, next),
            }
        }
    }
}

/// The board behind the measures of a grid from `measure` on.
pub open spec fn measures_from(
    grid: Seq<Seq<Seq<char>>>,
    measure: int,
    style: Style,
    board: Board,
) -> Result<Board, SscErrorView>
    decreases grid.len() - measure,
{
    if measure >= grid.len() {
        Ok(board)
    } else {
        match rows_from(grid[measure], 0, measure, style, board) {
            Err(e) => Err(e),
            Ok(next) => measures_from(grid, measure + 1, style, next),
        }
    }
}

/// The first panel from `panel` on whose hold is still open.
pub open spec fn first_open(open: Seq<Option<int>>, panel: int) -> Option<int>
    decreases open.len() - panel,
{
    if panel >= open.len() {
        None
    } else if open[panel] is Some {
        Some(panel)
    } else {
        first_open(open, panel + 1)
    }
}

/// The board before the first row.
pub open spec fn empty_board(style: Style) -> Board {
    Board { notes: Seq::empty(), open: Seq::new(panels_of(style) as nat, |p: int| None) }
}

/// The notes of a board whose holds are all closed.
pub open spec fn closed_outcome(board: Board) -> Result<Seq<Note>, SscErrorView> {
    match first_open(board.open, 0) {
        None => Ok(board.notes),
        Some(panel) => Err(
            SscErrorView::UnclosedHold { panel, note_index: board.open[panel]->0 },
        ),
    }
}

/// The notes of a grid.
pub open spec fn grid_outcome(grid: Seq<Seq<Seq<char>>>, style: Style) -> Result<
    Seq<Note>,
    SscErrorView,
> {
    match measures_from(grid, 0, style, empty_board(style)) {
        Err(e) => Err(e),
        Ok(board) => closed_outcome(board),
    }
}

/// The notes of a `#NOTES` body.
pub open spec fn body_outcome(body: Seq<char>, style: Style) -> Result<Seq<Note>, SscErrorView> {
    grid_outcome(grid_of(body), style)
}

/// The open holds of a list of note indices.
pub open spec fn open_view(open: Seq<Option<usize>>) -> Seq<Option<int>> {
    Seq::new(
        open.len(),
        |p: int|
            match open[p] {
                Some(i) => Some(i as int),
                None => None,
            },
    )
}

/// Whether a board has the panels of `style` and its open holds start at notes.
pub open spec fn board_ok(notes: Seq<Note>, open: Seq<Option<usize>>, style: Style) -> bool {
    &&& open.len() == panels_of(style)
    &&& forall|p: int| 0 <= p < open.len() && #[trigger] open[p] is Some ==> open[p]->0 < notes.len()
}

pub proof fn lemma_chars_within_bytes(s: Seq<char>)
    ensures
        s.len() <= encode_utf8(s).len(),
    decreases s.len(),
{
    if s.len() > 0 {
        lemma_chars_within_bytes(s.drop_first());
    }
}

fn style_name(style: Style) -> (s: &'static str)
    ensures
        s@ == style_text(style),
{
    match style {
        Style::Single => "Single",
        Style::Double => "Double",
    }
}

fn parse_rows(measure: &Vec<char>) -> (rows: Vec<Vec<char>>)
    ensures
        texts(rows@) == rows_of(split(measure@, '\n')),
{
    let lines = split_at(measure, '\n');
    let ghost all = texts(lines@);
    let mut rows: Vec<Vec<char>> = Vec::new();
    let mut i: usize = 0;
    assert(texts(rows@) =~= rows_of(all.subrange(0, 0)));
    while i < lines.len()
        invariant
            i <= lines@.len(),
            all == texts(lines@),
            texts(rows@) == rows_of(all.subrange(0, i as int)),
        decreases lines@.len() - i,
    {
        let row = trim(&lines[i]);
        let ghost now = all.subrange(0, i + 1);
        assert(now.drop_last() =~= all.subrange(0, i as int));
        assert(now.last() == lines@[i as int]@);
        let ghost before = texts(rows@);
        if row.len() > 0 {
            let ghost text = row@;
            rows.push(row);
            assert(texts(rows@) =~= before.push(text));
        }
        i = i + 1;
    }
    assert(all.subrange(0, i as int) =~= all);
    rows
}

fn bad_note_row(measure: usize, row: usize, reason: String) -> (e: SscError)
    ensures
        e@ == bad_row(measure as int, row as int, reason@),
{
    SscError::BadNoteRow { measure, row, reason }
}

/// Decide which `ShockSide` (if any) a mine bitmask represents under a
/// given style. Returns `None` for patterns that don't form a legal
/// full-row shock — those are per-panel mines instead.
fn full_row_shock_side(mine_bits: u8, style: Style) -> (r: Option<ShockSide>)
    ensures
        r == shock_of(mine_bits, style),
{
    match style {
        Style::Single => if mine_bits == 0x0F {
            Some(ShockSide::BothSides)
        } else {
            None
        },
        Style::Double => if mine_bits == 0xFF {
            Some(ShockSide::BothSides)
        } else if mine_bits == 0x0F {
            Some(ShockSide::P1Only)
        } else if mine_bits == 0xF0 {
            Some(ShockSide::P2Only)
        } else {
            None
        },
    }
}

/// The beat of a row: `measure * 4 + row * 4 / rows`, as an exact rational.
fn beat_of_row(measure: usize, row: usize, rows: usize) -> (r: Option<Rational>)
    requires
        row < rows,
    ensures
        match row_beat(measure as int, row as int, rows as int) {
            Some(q) => r is Some && r->0@ == q,
            None => r is None,
        },
{
    proof {
        assert(measure * rows <= usize::MAX * usize::MAX) by (nonlinear_arith)
            requires
                0 <= measure <= usize::MAX,
                0 <= rows <= usize::MAX,
        ;
    }
    let whole: u128 = match ((measure as u128) * (rows as u128)).checked_add(row as u128) {
        Some(n) => n,
        None => {
            return None;
        },
    };
    if whole > 0x1fff_ffff_ffff_ffff || rows as u128 > 0x7fff_ffff_ffff_ffff {
        return None;
    }
    match Rational::new((whole as i64) * 4, rows as i64) {
        Ok(q) => Some(q),
        Err(_) => None,
    }
}

/// The panels of a row with a mine, and those with a tap or the start of a hold.
fn row_bits(row: &Vec<char>) -> (bits: (u8, u8))
    requires
        row@.len() <= 8,
    ensures
        bits.0 == mine_bits(row@, row@.len()),
        bits.1 == hit_bits(row@, row@.len()),
{
    let mut mines: u8 = 0;
    let mut hits: u8 = 0;
    let mut p: usize = 0;
    while p < row.len()
        invariant
            p <= row@.len() <= 8,
            mines == mine_bits(row@, p as nat),
            hits == hit_bits(row@, p as nat),
        decreases row@.len() - p,
    {
        let c: char = row[p];
        if c == 'M' {
            mines = mines | (1u8 << (p as u8));
        }
        if c == '1' || c == '2' || c == '4' {
            hits = hits | (1u8 << (p as u8));
        }
        p = p + 1;
    }
    (mines, hits)
}

/// Close the hold that is open on `panel`.
fn close_hold(
    panel: usize,
    beat: Beat,
    measure: usize,
    row: usize,
    notes: &mut Vec<Note>,
    open_holds: &mut Vec<Option<usize>>,
    Ghost(style): Ghost<Style>,
) -> (r: Result<(), SscError>)
    requires
        board_ok(old(notes)@, old(open_holds)@, style),
        panel < panels_of(style),
    ensures
        board_ok(final(notes)@, final(open_holds)@, style),
        match cell_outcome(
            '3',
            panel as int,
            beat@,
            measure as int,
            row as int,
            (Board { notes: old(notes)@, open: open_view(old(open_holds)@) }),
        ) {
            Ok(b) => r is Ok && b == (Board {
                notes: final(notes)@,
                open: open_view(final(open_holds)@),
            }),
            Err(e) => r is Err && r->Err_0@ == e,
        },
{
    broadcast use group_model_values;

    let head: usize = match open_holds[panel] {
        Some(head) => head,
        None => {
            return Err(
                bad_note_row(
                    measure,
                    row,
                    with_number("hold tail at panel ", panel as u128, " without matching head"),
                ),
            );
        },
    };
    let start = notes[head];
    match beat.as_rational().sub(&start.beat.as_rational()) {
        Ok(length) => {
            let hold = Note {
                beat: start.beat,
                kind: NoteKind::HoldHead { length: Beat::from_rational(length) },
                panels: start.panels,
            };
            notes.set(head, hold);
            open_holds.set(panel, None);
            assert(open_view(open_holds@) =~= open_view(old(open_holds)@).update(
                panel as int,
                None,
            ));
            Ok(())
        },
        Err(e) => Err(
            bad_note_row(
                measure,
                row,
                "hold length: ".to_owned().concat(e.message().as_str()),
            ),
        ),
    }
}

#[allow(clippy::too_many_arguments)]
fn decode_row(
    text: &Vec<char>,
    measure: usize,
    row: usize,
    rows: usize,
    style: Style,
    notes: &mut Vec<Note>,
    open_holds: &mut Vec<Option<usize>>,
) -> (r: Result<(), SscError>)
    requires
        board_ok(old(notes)@, old(open_holds)@, style),
        text@.len() <= panels_of(style),
        row < rows,
    ensures
        match row_outcome(
            text@,
            measure as int,
            row as int,
            rows as int,
            style,
            (Board { notes: old(notes)@, open: open_view(old(open_holds)@) }),
        ) {
            Ok(b) => r is Ok && b == (Board {
                notes: final(notes)@,
                open: open_view(final(open_holds)@),
            }) && board_ok(final(notes)@, final(open_holds)@, style),
            Err(e) => r is Err && r->Err_0@ == e,
        },
{
    broadcast use group_model_values;

    let ghost start = Board { notes: notes@, open: open_view(open_holds@) };
    let beat = match beat_of_row(measure, row, rows) {
        Some(q) => Beat::from_rational(q),
        None => {
            return Err(
                bad_note_row(
                    measure,
                    row,
                    "beat math: ".to_owned().concat("arithmetic overflow"),
                ),
            );
        },
    };
    let (mines, hits) = row_bits(text);
    // Full-row shock patterns (`MMMM` on Single, `MMMMMMMM` /
    // `MMMM0000` / `0000MMMM` on Double) become a single `Shock`
    // note. Partial mine patterns become a `Mine` note whose panels carry
    // the mine bitmask; scanning of the row continues so that mixed
    // `M`+`1`/`2`/`3`/`4` rows produce multiple notes at the same
    // beat on different panels.
    match full_row_shock_side(mines, style) {
        Some(side) => {
            notes.push(Note { beat, kind: NoteKind::Shock { side }, panels: PanelSet::empty() });
            return Ok(());
        },
        None => {},
    }
    if mines != 0 {
        notes.push(Note { beat, kind: NoteKind::Mine, panels: PanelSet::from_bits(style, mines) });
    }
    let ghost begun = with_mines(text@, beat@, style, start);
    assert(notes@ =~= begun.notes);
    let mut p: usize = 0;
    while p < text.len()
        invariant
            p <= text@.len() <= panels_of(style),
            board_ok(notes@, open_holds@, style),
            row_beat(measure as int, row as int, rows as int) == Some(beat@),
            shock_of(mine_bits(text@, text@.len()), style) is None,
            begun == with_mines(text@, beat@, style, start),
            start == (Board { notes: old(notes)@, open: open_view(old(open_holds)@) }),
            cells_from(text@, 0, beat@, measure as int, row as int, begun) == cells_from(
                text@,
                p as int,
                beat@,
                measure as int,
                row as int,
                (Board { notes: notes@, open: open_view(open_holds@) }),
            ),
        decreases text@.len() - p,
    {
        let c: char = text[p];
        match c {
            '3' => {
                match close_hold(p, beat, measure, row, notes, open_holds, Ghost(style)) {
                    Ok(()) => {},
                    Err(e) => {
                        return Err(e);
                    },
                }
            },
            '0' | '1' | '2' | '4' | 'M' | 'F' | 'L' => {},
            other => {
                return Err(
                    bad_note_row(
                        measure,
                        row,
                        "unknown note character ".to_owned().concat(
                            quoted_char(other).as_str(),
                        ).concat(" at panel ").concat(dec_string(p as u128).as_str()),
                    ),
                );
            },
        }
        p = p + 1;
    }
    let ghost closed = Board { notes: notes@, open: open_view(open_holds@) };
    if hits != 0 {
        let ghost before = open_holds@;
        let index: usize = notes.len();
        notes.push(Note { beat, kind: NoteKind::Tap, panels: PanelSet::from_bits(style, hits) });
        let mut p: usize = 0;
        while p < text.len()
            invariant
                p <= text@.len() <= panels_of(style),
                notes@.len() == index + 1,
                board_ok(notes@, open_holds@, style),
                before.len() == open_holds@.len(),
                forall|k: int|
                    0 <= k < open_holds@.len() ==> #[trigger] open_holds@[k] == (if k < p
                        && is_head(text@[k]) {
                        Some(index)
                    } else {
                        before[k]
                    }),
            decreases text@.len() - p,
        {
            if text[p] == '2' || text[p] == '4' {
                open_holds.set(p, Some(index));
            }
            p = p + 1;
        }
        let ghost opened = with_hits(text@, beat@, style, closed);
        assert(open_view(open_holds@) =~= opened.open);
        assert(notes@ =~= opened.notes);
    }
    Ok(())
}

/// Parse the `#NOTES:` value body — a sequence of measures separated
/// by `,`, each measure a sequence of rows (one line each), each row
/// one character per panel.
///
/// Character semantics (subset we care about):
/// - `0` empty
/// - `1` tap
/// - `2` hold head (paired with a later `3` at the same panel)
/// - `3` hold/roll tail
/// - `4` roll head, read as a hold head
/// - `M` mine: every panel of the style (or every P1 panel / every P2 panel
///   on Double) makes a shock, any other pattern a mine note
/// - `F` fake — dropped silently
/// - `L` lift — dropped silently
pub fn parse_notes_body(body: &str, style: Style) -> (r: Result<Vec<Note>, SscError>)
    ensures
        match body_outcome(body@, style) {
            Ok(notes) => r is Ok && r->Ok_0@ == notes,
            Err(e) => r is Err && r->Err_0@ == e,
        },
{
    let panel_count: usize = style.panel_count() as usize;
    let mut notes: Vec<Note> = Vec::new();
    // Open hold heads by panel index, to match with their `3` tail.
    let mut open_holds: Vec<Option<usize>> = vec![None; panel_count];
    assert(open_view(open_holds@) =~= empty_board(style).open);
    assert(notes@ =~= empty_board(style).notes);
    let measures = split_at(&chars_of(body), ',');
    let ghost grid = grid_of(body@);
    assert(texts(measures@) == split(body@, ','));
    let ghost empty = empty_board(style);
    let mut m: usize = 0;
    while m < measures.len()
        invariant
            m <= measures@.len(),
            panel_count == panels_of(style),
            texts(measures@) == split(body@, ','),
            grid == grid_of(body@),
            grid.len() == measures@.len(),
            board_ok(notes@, open_holds@, style),
            empty == empty_board(style),
            measures_from(grid, 0, style, empty) == measures_from(
                grid,
                m as int,
                style,
                (Board { notes: notes@, open: open_view(open_holds@) }),
            ),
        decreases measures@.len() - m,
    {
        let rows = parse_rows(&measures[m]);
        assert(texts(measures@)[m as int] == measures@[m as int]@);
        let ghost all = texts(rows@);
        assert(grid[m as int] == all);
        let ghost board = Board { notes: notes@, open: open_view(open_holds@) };
        let mut k: usize = 0;
        while k < rows.len()
            invariant
                k <= rows@.len(),
                m < grid.len(),
                panel_count == panels_of(style),
                all == texts(rows@),
                grid == grid_of(body@),
                grid[m as int] == all,
                board_ok(notes@, open_holds@, style),
                empty == empty_board(style),
                measures_from(grid, 0, style, empty) == measures_from(
                    grid,
                    m as int,
                    style,
                    board,
                ),
                rows_from(all, 0, m as int, style, board) == rows_from(
                    all,
                    k as int,
                    m as int,
                    style,
                    (Board { notes: notes@, open: open_view(open_holds@) }),
                ),
            decreases rows@.len() - k,
        {
            let row = &rows[k];
            assert(all[k as int] == row@);
            let text = string_of(row);
            let width: usize = text.as_str().as_bytes().len();
            if width != panel_count {
                return Err(
                    bad_note_row(
                        m,
                        k,
                        with_number("expected ", panel_count as u128, " chars for ").concat(
                            style_name(style),
                        ).concat(", got ").concat(dec_string(width as u128).as_str()).concat(
                            ": ",
                        ).concat(quoted(text.as_str()).as_str()),
                    ),
                );
            }
            proof {
                lemma_chars_within_bytes(row@);
            }
            match decode_row(row, m, k, rows.len(), style, &mut notes, &mut open_holds) {
                Ok(()) => {},
                Err(e) => {
                    return Err(e);
                },
            }
            k = k + 1;
        }
        m = m + 1;
    }
    // Any open hold heads without a tail are malformed.
    let mut p: usize = 0;
    while p < open_holds.len()
        invariant
            p <= open_holds@.len() <= 8,
            grid == grid_of(body@),
            empty == empty_board(style),
            measures_from(grid, 0, style, empty) == Ok::<Board, SscErrorView>(
                Board { notes: notes@, open: open_view(open_holds@) },
            ),
            first_open(open_view(open_holds@), 0) == first_open(open_view(open_holds@), p as int),
        decreases open_holds@.len() - p,
    {
        match open_holds[p] {
            Some(note_index) => {
                return Err(SscError::UnclosedHold { panel: p as u8, note_index });
            },
            None => {},
        }
        p = p + 1;
    }
    Ok(notes)
}

} // verus!

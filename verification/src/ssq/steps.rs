//! Type-3 step-chunk parser.
//!
//! Decodes a single chart: difficulty code, time offsets, step bytes,
//! and the freeze block. Produces a [`Chart`] whose notes are in file
//! order.

use crate::model::rational::{
    is_lowest, lemma_lowest, lemma_lowest_of_same, lowest, q_add, q_fits, q_neg, sub_value,
};
use crate::model::{
    group_model_values, style_mask, tick_beat, Beat, Chart, ChartView, Difficulty, Note, NoteKind,
    PanelSet, ShockSide, Style,
};
use crate::ssq::chunk::ChunkHeader;
use crate::ssq::{SsqError, SsqErrorView};
use crate::util::io::{get_i32s, sle32s};
use crate::util::text::{dec, dec_string};
use vstd::prelude::*;
use vstd::std_specs::bits::u8_trailing_zeros;
use vstd::string::StringExecFns;

verus! {

broadcast use group_model_values;

/// The style and difficulty that a 16-bit code stands for: the low byte is
/// the style, the high byte the difficulty slot.
pub open spec fn difficulty_of(code: u16) -> Option<(Style, Difficulty)> {
    let style = match code % 0x100 {
        0x14 => Some(Style::Single),
        0x18 => Some(Style::Double),
        _ => None,
    };
    let difficulty = match code / 0x100 {
        0x01 => Some(Difficulty::Basic),
        0x02 => Some(Difficulty::Difficult),
        0x03 => Some(Difficulty::Expert),
        0x04 => Some(Difficulty::Beginner),
        0x06 => Some(Difficulty::Challenge),
        _ => None,
    };
    match (style, difficulty) {
        (Some(s), Some(d)) => Some((s, d)),
        _ => None,
    }
}

/// Decode the 16-bit difficulty code in `param2` into (style, difficulty).
///
/// Low byte is the style (0x14 Single, 0x18 Double); high byte is the
/// difficulty slot (0x01 Basic, 0x02 Difficult, 0x03 Expert, 0x04
/// Beginner, 0x06 Challenge). Any other combination is rejected — the
/// DDR World dispatcher only accepts this exact set.
pub fn decode_difficulty_code(code: u16, chunk_offset: usize) -> (r: Result<
    (Style, Difficulty),
    SsqError,
>)
    ensures
        match difficulty_of(code) {
            Some(p) => r == Ok::<(Style, Difficulty), SsqError>(p),
            None => r is Err && r->Err_0@ == (SsqErrorView::InvalidDifficultyCode {
                code,
                offset: chunk_offset,
            }),
        },
{
    let style = match code % 0x100 {
        0x14 => Style::Single,
        0x18 => Style::Double,
        _ => {
            return Err(SsqError::InvalidDifficultyCode { code, offset: chunk_offset });
        },
    };
    let difficulty = match code / 0x100 {
        0x01 => Difficulty::Basic,
        0x02 => Difficulty::Difficult,
        0x03 => Difficulty::Expert,
        0x04 => Difficulty::Beginner,
        0x06 => Difficulty::Challenge,
        _ => {
            return Err(SsqError::InvalidDifficultyCode { code, offset: chunk_offset });
        },
    };
    Ok((style, difficulty))
}

/// One entry from the freeze block: panel mask + kind byte.
#[derive(Debug, Clone, Copy, PartialEq, Eq, Structural)]
pub struct FreezeEntry {
    pub panels: u8,
    pub kind: u8,
}

/// The three sections of a step chunk's body.
pub struct SplitBody {
    pub time_offsets: Vec<i32>,
    pub step_bytes: Vec<u8>,
    pub freeze_entries: Vec<FreezeEntry>,
}

/// The number of freeze-end markers among the first `n` step bytes.
pub open spec fn freeze_ends(steps: Seq<u8>, n: nat) -> nat
    decreases n,
{
    if n == 0 {
        0
    } else {
        freeze_ends(steps, (n - 1) as nat) + if steps[n - 1] == 0 {
            1nat
        } else {
            0nat
        }
    }
}

/// Where the freeze block of a chunk with `n` entries starts: behind 4 bytes
/// of time and one step byte for each, rounded up to an even position.
pub open spec fn freeze_start(n: nat) -> nat {
    4 * n + n + n % 2
}

pub open spec fn steps_of(body: Seq<u8>, n: nat) -> Seq<u8> {
    body.subrange(4 * n as int, 5 * n as int)
}

/// The freeze entries of a body: one for each freeze-end marker.
pub open spec fn freezes_of(body: Seq<u8>, n: nat) -> Seq<FreezeEntry> {
    Seq::new(
        freeze_ends(steps_of(body, n), n),
        |i: int|
            FreezeEntry {
                panels: body[freeze_start(n) + 2 * i],
                kind: body[freeze_start(n) + 2 * i + 1],
            },
    )
}

pub open spec fn steps_size_reason(size: nat, n: nat) -> Seq<char> {
    "step chunk body size "@ + dec(size) + " is too small for "@ + dec(n) + " time+step entries"@
}

pub open spec fn freeze_size_reason(size: nat, count: nat, start: nat) -> Seq<char> {
    "step chunk body size "@ + dec(size) + " cannot hold "@ + dec(count)
        + " freeze entries after freeze block start "@ + dec(start)
}

/// Why a body cannot be split, if it cannot.
pub open spec fn split_fault(body: Seq<u8>, n: nat) -> Option<Seq<char>> {
    if body.len() < freeze_start(n) {
        Some(steps_size_reason(body.len(), n))
    } else {
        let count = freeze_ends(steps_of(body, n), n);
        if body.len() < freeze_start(n) + 2 * count {
            Some(freeze_size_reason(body.len(), count, freeze_start(n)))
        } else {
            None
        }
    }
}

proof fn lemma_freeze_ends_bound(steps: Seq<u8>, n: nat)
    ensures
        freeze_ends(steps, n) <= n,
    decreases n,
{
    if n > 0 {
        lemma_freeze_ends_bound(steps, (n - 1) as nat);
    }
}

/// Markers are counted from the front.
pub proof fn lemma_freeze_ends_monotone(steps: Seq<u8>, m: nat, n: nat)
    requires
        m <= n,
    ensures
        freeze_ends(steps, m) <= freeze_ends(steps, n),
    decreases n,
{
    if m < n {
        lemma_freeze_ends_monotone(steps, m, (n - 1) as nat);
    }
}

/// Split the chunk body into time-offsets, step-bytes, and freeze entries.
///
/// Body layout:
/// - N × i32 time offsets (4N bytes)
/// - N × u8 step bytes (N bytes)
/// - 0 or 1 byte of pad (if N is odd) so freeze block is 2-byte-aligned
/// - F × 2 bytes of freeze entries (F = count of 0x00 step bytes)
/// - 0 or 2 bytes of trailing pad so total chunk length is dword-aligned
fn split_body(body: &[u8], entry_count: usize, chunk_offset: usize) -> (r: Result<
    SplitBody,
    SsqError,
>)
    requires
        entry_count <= 0xFFFF,
    ensures
        match split_fault(body@, entry_count as nat) {
            Some(reason) => r is Err && r->Err_0@ == (SsqErrorView::MalformedChunk {
                offset: chunk_offset,
                reason,
            }),
            None => r is Ok && r->Ok_0.time_offsets@ == sle32s(body@, 0, entry_count as nat)
                && r->Ok_0.step_bytes@ == steps_of(body@, entry_count as nat)
                && r->Ok_0.freeze_entries@ == freezes_of(body@, entry_count as nat),
        },
{
    let steps_start: usize = 4 * entry_count;
    let start: usize = steps_start + round_up_to_even(entry_count);
    if body.len() < start {
        let reason = "step chunk body size ".to_owned().concat(
            dec_string(body.len() as u128).as_str(),
        ).concat(" is too small for ").concat(dec_string(entry_count as u128).as_str()).concat(
            " time+step entries",
        );
        return Err(SsqError::MalformedChunk { offset: chunk_offset, reason });
    }
    let time_offsets: Vec<i32> = get_i32s(body, 0, entry_count);
    let ghost steps = steps_of(body@, entry_count as nat);
    let mut step_bytes: Vec<u8> = Vec::new();
    let mut freeze_count: usize = 0;
    let mut i: usize = 0;
    while i < entry_count
        invariant
            i <= entry_count,
            entry_count <= 0xFFFF,
            steps_start == 4 * entry_count,
            body@.len() >= freeze_start(entry_count as nat),
            steps == steps_of(body@, entry_count as nat),
            step_bytes@ =~= steps.subrange(0, i as int),
            freeze_count == freeze_ends(steps, i as nat),
            freeze_count <= i,
        decreases entry_count - i,
    {
        let byte: u8 = body[steps_start + i];
        assert(byte == steps[i as int]);
        if byte == 0 {
            freeze_count = freeze_count + 1;
        }
        step_bytes.push(byte);
        i = i + 1;
    }
    if body.len() < start + 2 * freeze_count {
        let reason = "step chunk body size ".to_owned().concat(
            dec_string(body.len() as u128).as_str(),
        ).concat(" cannot hold ").concat(dec_string(freeze_count as u128).as_str()).concat(
            " freeze entries after freeze block start ",
        ).concat(dec_string(start as u128).as_str());
        return Err(SsqError::MalformedChunk { offset: chunk_offset, reason });
    }
    let mut freeze_entries: Vec<FreezeEntry> = Vec::new();
    let mut j: usize = 0;
    while j < freeze_count
        invariant
            j <= freeze_count,
            freeze_count <= 0xFFFF,
            freeze_count == freeze_ends(steps, entry_count as nat),
            steps == steps_of(body@, entry_count as nat),
            start == freeze_start(entry_count as nat),
            start <= 0x10_0000,
            start + 2 * freeze_count <= body@.len(),
            freeze_entries@ =~= freezes_of(body@, entry_count as nat).subrange(0, j as int),
        decreases freeze_count - j,
    {
        freeze_entries.push(
            FreezeEntry { panels: body[start + 2 * j], kind: body[start + 2 * j + 1] },
        );
        j = j + 1;
    }
    Ok(SplitBody { time_offsets, step_bytes, freeze_entries })
}

/// The next even number.
fn round_up_to_even(n: usize) -> (r: usize)
    requires
        n < usize::MAX,
    ensures
        r == n + n % 2,
{
    n + n % 2
}

/// The note that a step byte other than the freeze-end marker stands for.
pub open spec fn note_of_byte(byte: u8, style: Style, beat: Beat) -> Note {
    Note {
        beat,
        kind: if byte == 0xFF {
            NoteKind::Shock { side: ShockSide::BothSides }
        } else if byte == 0x0F {
            NoteKind::Shock { side: ShockSide::P1Only }
        } else if byte == 0xF0 {
            NoteKind::Shock { side: ShockSide::P2Only }
        } else {
            NoteKind::Tap
        },
        panels: PanelSet::of(byte & style_mask(style)),
    }
}

/// Classify a non-zero step byte. Returns the kind and panel-mask for
/// the note at this tick. `None` indicates a freeze-end marker (`0x00`),
/// which is handled separately.
fn classify_step_byte(byte: u8, style: Style) -> (r: Option<(NoteKind, PanelSet)>)
    ensures
        byte == 0 ==> r is None,
        byte != 0 ==> r is Some && forall|beat: Beat| #[trigger]
            note_of_byte(byte, style, beat) == (Note { beat, kind: (r->0).0, panels: (r->0).1 }),
{
    match byte {
        0x00 => None,
        0xFF => Some(
            (NoteKind::Shock { side: ShockSide::BothSides }, PanelSet::from_bits(style, 0xFF)),
        ),
        0x0F => Some(
            (NoteKind::Shock { side: ShockSide::P1Only }, PanelSet::from_bits(style, 0x0F)),
        ),
        0xF0 => Some(
            (NoteKind::Shock { side: ShockSide::P2Only }, PanelSet::from_bits(style, 0xF0)),
        ),
        bits => Some((NoteKind::Tap, PanelSet::from_bits(style, bits))),
    }
}

/// The time from `head` to `end`.
pub open spec fn span(head: Beat, end: Beat) -> Beat {
    Beat::of(q_add(end@, q_neg(head@)))
}

/// The notes after the panels `held` of the tap at `i` have turned into a
/// hold up to `end`. Panels of the tap that are not held stay a tap, which
/// stands before the hold.
pub open spec fn head_closed(notes: Seq<Note>, i: int, held: u8, end: Beat) -> Seq<Note> {
    let note = notes[i];
    let hold = Note {
        beat: note.beat,
        kind: NoteKind::HoldHead { length: span(note.beat, end) },
        panels: PanelSet::of(held),
    };
    if held == note.panels@ {
        notes.update(i, hold)
    } else {
        notes.update(i, Note { panels: PanelSet::of(note.panels@ & !held), ..note }).insert(
            i + 1,
            hold,
        )
    }
}

/// The notes after a freeze-end at `end` for the panels `pending`, looking
/// at the first `n` notes from the last of them backward, and the panels for
/// which no note was found. Each panel matches the most recent note that hits
/// it; a match on a tap turns that panel into a hold.
pub open spec fn freeze_closed(notes: Seq<Note>, n: nat, pending: u8, end: Beat) -> (Seq<Note>, u8)
    decreases n,
{
    if n == 0 || pending == 0 {
        (notes, pending)
    } else {
        let i = n - 1;
        let hit = notes[i].panels@ & pending;
        let after = if hit != 0 && notes[i].kind is Tap {
            head_closed(notes, i, hit, end)
        } else {
            notes
        };
        freeze_closed(after, i as nat, pending & !hit, end)
    }
}

/// Whether `beat` is the position of a measure tick.
pub open spec fn is_ticked(beat: Beat) -> bool {
    exists|t: int| i32::MIN <= t <= i32::MAX && beat == #[trigger] tick_beat(t)
}

pub open spec fn all_ticked(notes: Seq<Note>) -> bool {
    forall|k: int| 0 <= k < notes.len() ==> is_ticked((#[trigger] notes[k]).beat)
}

/// The parts of a tick's position are small.
pub proof fn lemma_tick_parts(t: int)
    requires
        -0x1_0000_0000 <= t <= 0x1_0000_0000,
    ensures
        ({
            let q = lowest(t, 1024);
            &&& q_fits(q)
            &&& is_lowest(q)
            &&& tick_beat(t)@ == q
            &&& q.0 * 1024 == t * q.1
            &&& 0 < q.1 <= 1024
            &&& -0x1_0000_0000 <= q.0 <= 0x1_0000_0000
        }),
{
    lemma_lowest(t, 1024);
}

/// Positions of ticks subtract like the ticks.
pub proof fn lemma_tick_span(a: int, b: int)
    requires
        i32::MIN <= a <= i32::MAX,
        i32::MIN <= b <= i32::MAX,
    ensures
        sub_value(tick_beat(b)@, tick_beat(a)@) == Some(lowest(b - a, 1024)),
        span(tick_beat(a), tick_beat(b)) == tick_beat(b - a),
{
    lemma_tick_parts(a);
    lemma_tick_parts(b);
    lemma_tick_parts(b - a);
    let x = lowest(b, 1024);
    let y = q_neg(lowest(a, 1024));
    let n = x.0 * y.1 + y.0 * x.1;
    let d = x.1 * y.1;
    assert(0 < d <= 0x10_0000) by (nonlinear_arith)
        requires
            0 < x.1 <= 1024,
            0 < y.1 <= 1024,
            d == x.1 * y.1,
    ;
    assert(-0x1_0000_0000 * 0x800 <= n <= 0x1_0000_0000 * 0x800) by (nonlinear_arith)
        requires
            0 < x.1 <= 1024,
            0 < y.1 <= 1024,
            -0x1_0000_0000 <= x.0 <= 0x1_0000_0000,
            -0x1_0000_0000 <= y.0 <= 0x1_0000_0000,
            n == x.0 * y.1 + y.0 * x.1,
    ;
    assert(n * 1024 == (b - a) * d) by (nonlinear_arith)
        requires
            x.0 * 1024 == b * x.1,
            (-y.0) * 1024 == a * y.1,
            n == x.0 * y.1 + y.0 * x.1,
            d == x.1 * y.1,
    ;
    lemma_lowest_of_same((n, d), (b - a, 1024int));
}

/// For each set bit in `panels_mask`, walk `notes` backward to find the
/// most recent note hitting that panel, and turn that panel of it into a
/// hold up to `end_beat`. A note that is no tap is left alone, but matches:
/// each bit closes at most one head.
fn resolve_freeze_end(
    notes: &mut Vec<Note>,
    panels_mask: u8,
    end_beat: Beat,
    end_tick: i32,
    chunk_offset: usize,
) -> (r: Result<(), SsqError>)
    requires
        all_ticked(old(notes)@),
        end_beat == tick_beat(end_tick as int),
    ensures
        final(notes)@ == freeze_closed(old(notes)@, old(notes)@.len(), panels_mask, end_beat).0,
        all_ticked(final(notes)@),
        ({
            let left = freeze_closed(old(notes)@, old(notes)@.len(), panels_mask, end_beat).1;
            if left == 0 {
                r is Ok
            } else {
                r is Err && r->Err_0@ == (SsqErrorView::FreezeWithoutHead {
                    freeze_offset: chunk_offset,
                    tick: end_tick,
                    panel: u8_trailing_zeros(left) as u8,
                })
            }
        }),
{
    let mut pending: u8 = panels_mask;
    let mut idx: usize = notes.len();
    while pending != 0 && idx > 0
        invariant
            idx <= notes@.len(),
            all_ticked(notes@),
            end_beat == tick_beat(end_tick as int),
            freeze_closed(notes@, idx as nat, pending, end_beat) == freeze_closed(
                old(notes)@,
                old(notes)@.len(),
                panels_mask,
                end_beat,
            ),
        decreases idx,
    {
        idx = idx - 1;
        let note: Note = notes[idx];
        let overlap: u8 = note.panels.bits() & pending;
        let rest: u8 = note.panels.bits() & !overlap;
        let ghost before = notes@;
        if overlap != 0 && matches!(note.kind, NoteKind::Tap) {
            proof {
                assert(is_ticked(notes@[idx as int].beat));
                let t = choose|t: int| i32::MIN <= t <= i32::MAX && note.beat == #[trigger] tick_beat(t);
                lemma_tick_span(t, end_tick as int);
                let bits = note.panels@;
                assert((bits & pending) & 0xFFu8 == bits & pending) by (bit_vector);
                assert((bits & !(bits & pending)) & 0xFFu8 == bits & !(bits & pending)) by (bit_vector);
            }
            let length = match end_beat.as_rational().sub(&note.beat.as_rational()) {
                Ok(v) => v,
                Err(e) => {
                    return Err(
                        SsqError::MalformedChunk {
                            offset: chunk_offset,
                            reason: "freeze length math: ".to_owned().concat(e.message().as_str()),
                        },
                    );
                },
            };
            let hold = Note {
                beat: note.beat,
                kind: NoteKind::HoldHead { length: Beat::from_rational(length) },
                panels: PanelSet::from_bits(Style::Double, overlap),
            };
            if overlap == note.panels.bits() {
                notes.set(idx, hold);
            } else {
                notes.set(
                    idx,
                    Note {
                        beat: note.beat,
                        kind: note.kind,
                        panels: PanelSet::from_bits(Style::Double, rest),
                    },
                );
                notes.insert(idx + 1, hold);
            }
            assert(notes@ =~= head_closed(before, idx as int, overlap, end_beat));
        }
        pending = pending & !overlap;
    }
    if pending != 0 {
        // Some bits had no earlier head. Report the first unmatched bit.
        let panel: u8 = pending.trailing_zeros() as u8;
        return Err(
            SsqError::FreezeWithoutHead { freeze_offset: chunk_offset, tick: end_tick, panel },
        );
    }
    Ok(())
}

/// The notes of the first `n` entries of a step chunk.
pub open spec fn notes_outcome(
    style: Style,
    ticks: Seq<i32>,
    steps: Seq<u8>,
    freezes: Seq<FreezeEntry>,
    n: nat,
    chunk_offset: usize,
) -> Result<Seq<Note>, SsqErrorView>
    decreases n,
{
    if n == 0 {
        Ok(Seq::empty())
    } else {
        let i = n - 1;
        let beat = tick_beat(ticks[i] as int);
        match notes_outcome(style, ticks, steps, freezes, i as nat, chunk_offset) {
            Err(e) => Err(e),
            Ok(notes) => if steps[i] != 0 {
                Ok(notes.push(note_of_byte(steps[i], style, beat)))
            } else {
                let entry = freezes[freeze_ends(steps, i as nat) as int];
                let (after, left) = freeze_closed(notes, notes.len(), entry.panels, beat);
                if entry.kind != 1 {
                    Ok(notes)
                } else if left == 0 {
                    Ok(after)
                } else {
                    Err(
                        SsqErrorView::FreezeWithoutHead {
                            freeze_offset: chunk_offset,
                            tick: ticks[i],
                            panel: u8_trailing_zeros(left) as u8,
                        },
                    )
                }
            },
        }
    }
}

/// An entry that fails fails every longer list.
proof fn lemma_notes_error_stays(
    style: Style,
    ticks: Seq<i32>,
    steps: Seq<u8>,
    freezes: Seq<FreezeEntry>,
    m: nat,
    n: nat,
    chunk_offset: usize,
)
    requires
        m <= n,
        notes_outcome(style, ticks, steps, freezes, m, chunk_offset) is Err,
    ensures
        notes_outcome(style, ticks, steps, freezes, n, chunk_offset) == notes_outcome(
            style,
            ticks,
            steps,
            freezes,
            m,
            chunk_offset,
        ),
    decreases n,
{
    if m < n {
        lemma_notes_error_stays(style, ticks, steps, freezes, m, (n - 1) as nat, chunk_offset);
    }
}

/// Build the note list, resolving freeze-ends.
///
/// Each non-zero step byte becomes a [`Note`] at its tick. Each zero
/// step byte consumes one freeze entry from `freeze_entries` in file
/// order; for each set bit in that entry's panel mask (when
/// `kind == 0x01`), walk the built notes backward to find the most
/// recent tap that hit that panel and turn the panel into a hold with
/// length = current_tick − head_tick. Other kind values are silently
/// ignored.
fn resolve_notes(
    style: Style,
    time_offsets: &Vec<i32>,
    step_bytes: &Vec<u8>,
    freeze_entries: &Vec<FreezeEntry>,
    chunk_offset: usize,
) -> (r: Result<Vec<Note>, SsqError>)
    requires
        time_offsets@.len() == step_bytes@.len(),
        freeze_entries@.len() == freeze_ends(step_bytes@, step_bytes@.len()),
    ensures
        match notes_outcome(
            style,
            time_offsets@,
            step_bytes@,
            freeze_entries@,
            step_bytes@.len(),
            chunk_offset,
        ) {
            Ok(notes) => r is Ok && r->Ok_0@ == notes && all_ticked(notes),
            Err(e) => r is Err && r->Err_0@ == e,
        },
{
    let mut notes: Vec<Note> = Vec::new();
    let mut freeze_index: usize = 0;
    let mut i: usize = 0;
    while i < step_bytes.len()
        invariant
            i <= step_bytes@.len(),
            time_offsets@.len() == step_bytes@.len(),
            freeze_entries@.len() == freeze_ends(step_bytes@, step_bytes@.len()),
            freeze_index == freeze_ends(step_bytes@, i as nat),
            freeze_index <= i,
            all_ticked(notes@),
            notes_outcome(
                style,
                time_offsets@,
                step_bytes@,
                freeze_entries@,
                i as nat,
                chunk_offset,
            ) == Ok::<Seq<Note>, SsqErrorView>(notes@),
        decreases step_bytes@.len() - i,
    {
        let tick: i32 = time_offsets[i];
        let beat = match Beat::from_measure_ticks(tick as i64) {
            Ok(b) => b,
            Err(e) => {
                return Err(
                    SsqError::MalformedChunk { offset: chunk_offset, reason: e.message() },
                );
            },
        };
        assert(beat == tick_beat(tick as int));
        assert(is_ticked(beat));
        let ghost before = notes@;
        match classify_step_byte(step_bytes[i], style) {
            Some((kind, panels)) => {
                assert(note_of_byte(step_bytes@[i as int], style, beat) == (Note {
                    beat,
                    kind,
                    panels,
                }));
                notes.push(Note { beat, kind, panels });
            },
            None => {
                // Freeze-end marker: consume one freeze entry regardless of kind.
                proof {
                    lemma_freeze_ends_monotone(step_bytes@, (i + 1) as nat, step_bytes@.len());
                }
                let entry: FreezeEntry = freeze_entries[freeze_index];
                freeze_index = freeze_index + 1;
                if entry.kind == 0x01 {
                    match resolve_freeze_end(&mut notes, entry.panels, beat, tick, chunk_offset) {
                        Ok(_) => {},
                        Err(e) => {
                            proof {
                                lemma_notes_error_stays(
                                    style,
                                    time_offsets@,
                                    step_bytes@,
                                    freeze_entries@,
                                    (i + 1) as nat,
                                    step_bytes@.len(),
                                    chunk_offset,
                                );
                            }
                            return Err(e);
                        },
                    }
                }
            },
        }
        i = i + 1;
    }
    Ok(notes)
}

/// What a step chunk parses to.
pub open spec fn steps_outcome(header: ChunkHeader, body: Seq<u8>, chunk_offset: usize) -> Result<
    ChartView,
    SsqErrorView,
> {
    let n = header.param3 as nat;
    match difficulty_of(header.param2) {
        None => Err(
            SsqErrorView::InvalidDifficultyCode { code: header.param2, offset: chunk_offset },
        ),
        Some((style, difficulty)) => match split_fault(body, n) {
            Some(reason) => Err(SsqErrorView::MalformedChunk { offset: chunk_offset, reason }),
            None => match notes_outcome(
                style,
                sle32s(body, 0, n),
                steps_of(body, n),
                freezes_of(body, n),
                n,
                chunk_offset,
            ) {
                Ok(notes) => Ok(ChartView { style, difficulty, notes }),
                Err(e) => Err(e),
            },
        },
    }
}

/// Parse a type-3 step chunk into a [`Chart`].
pub fn parse_steps_chunk(header: &ChunkHeader, body: &[u8], chunk_offset: usize) -> (r: Result<
    Chart,
    SsqError,
>)
    ensures
        match steps_outcome(*header, body@, chunk_offset) {
            Ok(chart) => r is Ok && r->Ok_0@ == chart,
            Err(e) => r is Err && r->Err_0@ == e,
        },
{
    let (style, difficulty) = match decode_difficulty_code(header.param2, chunk_offset) {
        Ok(p) => p,
        Err(e) => return Err(e),
    };
    let entry_count: usize = header.param3 as usize;
    let parts = match split_body(body, entry_count, chunk_offset) {
        Ok(p) => p,
        Err(e) => return Err(e),
    };
    let notes = match resolve_notes(
        style,
        &parts.time_offsets,
        &parts.step_bytes,
        &parts.freeze_entries,
        chunk_offset,
    ) {
        Ok(n) => n,
        Err(e) => return Err(e),
    };
    Ok(Chart { style, difficulty, notes })
}

} // verus!

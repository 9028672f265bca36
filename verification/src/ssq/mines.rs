//! MINE_DATA chunk parser and writer.
//!
//! This module owns everything specific to SSQ chunk kind 20
//! (`MINE_DATA`): the 12-byte header validation, the 8-byte per-entry
//! layout, the per-entry classification rules (valid mine, recovered
//! shock, skipped), and the per-chart chunk emission.
//!
//! It deliberately does **not** own dispatcher routing or cross-chunk
//! attachment (matching a parsed chunk's `param2` to a step chunk's chart
//! at finalize time): those live in the parent module. This module is
//! purely "decode one chunk's bytes" and "encode one chart's mines".
//!
//! # Parse direction
//!
//! [`parse_chunk`] takes the 12-byte [`ChunkHeader`] plus the chunk
//! body and validates the header up front: the length matches the entry
//! count, and `param2` is one of the 10 valid difficulty codes. A
//! header-level failure returns `None`. On success, each 8-byte entry runs
//! through [`classify_entry`]:
//!
//! | Entry shape | Outcome |
//! |---|---|
//! | `panels` is a valid single- or multi-panel mask | `Mine`       |
//! | `panels` is one of the shock masks `0xFF/0x0F/0xF0` | `RecoveredShock` |
//! | anything else illegal | `Skipped`     |
//!
//! # Write direction
//!
//! [`write_chunk`] collects a chart's mines, groups them by beat-tick with
//! their panel masks OR-ed, and emits them in ascending order as one chunk.
//! A chart with zero mines writes zero bytes. A mine whose panels equal one
//! of the shock masks is refused: it would read back as a shock.

use crate::model::rational::{div_round, round_half_away};
use crate::model::{
    group_model_values, style_mask, tick_beat, Beat, Chart, ChartView, Note, NoteKind, PanelSet,
    ShockSide, Style,
};
use crate::ssq::chunk::ChunkHeader;
use crate::ssq::steps::difficulty_of;
use crate::ssq::writer::{chunk_header_bytes, code_of, difficulty_code, write_chunk_header};
use crate::ssq::{SsqError, SsqErrorView};
use crate::util::io::{get_i32, get_u16, le16, put_i32, put_u16, sbytes32, sle32};
use crate::util::text::{signed_dec, signed_dec_string};
use vstd::prelude::*;
use vstd::string::StringExecFns;

verus! {

broadcast use group_model_values;

/// Size of one MINE_DATA entry in bytes.
pub const ENTRY_SIZE: usize = 8;

/// MINE_DATA chunk kind.
pub const MINE_CHUNK_TYPE: u16 = 20;

/// Per-entry classification outcome.
///
/// - `Mine`: well-formed per-panel mine, possibly multi-bit.
/// - `RecoveredShock`: `panels` was `0xFF`/`0x0F`/`0xF0` (a shock-arrow
///   encoding bled into the mine chunk). Converted to a `NoteKind::Shock`
///   note so the step-chunk writer handles it on DDR → DDR.
/// - `Skipped`: any other illegal shape (zero panels, negative beat,
///   non-zero `flags`/`reserved`, or Single-mode high-nibble bits).
pub enum EntryOutcome {
    Mine(Note),
    RecoveredShock(Note),
    Skipped,
}

/// Whether `panels` is the mask of a shock arrow.
pub open spec fn is_shock_mask(panels: u8) -> bool {
    panels == 0x0F || panels == 0xFF || panels == 0xF0
}

/// The shock that a mask in a mine entry stands for. On a Single pad the four
/// panels are the whole pad; on Double they are one side.
pub open spec fn recovered_side(panels: u8, style: Style) -> Option<ShockSide> {
    if panels == 0xFF || (panels == 0x0F && style is Single) {
        Some(ShockSide::BothSides)
    } else if panels == 0x0F {
        Some(ShockSide::P1Only)
    } else if panels == 0xF0 && style is Double {
        Some(ShockSide::P2Only)
    } else {
        None
    }
}

/// The panels that a shock on `side` covers.
pub open spec fn shock_panels(side: ShockSide, style: Style) -> PanelSet {
    PanelSet::of(
        (match side {
            ShockSide::BothSides => 0xFFu8,
            ShockSide::P1Only => 0x0Fu8,
            ShockSide::P2Only => 0xF0u8,
        }) & style_mask(style),
    )
}

/// What an 8-byte entry stands for.
pub open spec fn entry_outcome(entry: Seq<u8>, style: Style) -> EntryOutcome {
    let beat_count = sle32(entry, 0);
    let panels = entry[4];
    let beat = tick_beat(beat_count as int);
    if beat_count < 0 || entry[5] != 0 || le16(entry, 6) != 0 || panels == 0 {
        EntryOutcome::Skipped
    } else if recovered_side(panels, style) is Some {
        let side = recovered_side(panels, style)->0;
        EntryOutcome::RecoveredShock(
            Note { beat, kind: NoteKind::Shock { side }, panels: shock_panels(side, style) },
        )
    } else if style is Single && panels >= 0x10 {
        EntryOutcome::Skipped
    } else {
        EntryOutcome::Mine(
            Note { beat, kind: NoteKind::Mine, panels: PanelSet::of(panels & style_mask(style)) },
        )
    }
}

/// The notes that the first `n` entries of a chunk body give.
pub open spec fn mine_notes(body: Seq<u8>, style: Style, n: nat) -> Seq<Note>
    decreases n,
{
    if n == 0 {
        Seq::empty()
    } else {
        let before = mine_notes(body, style, (n - 1) as nat);
        match entry_outcome(body.subrange(8 * (n - 1), 8 * n as int), style) {
            EntryOutcome::Mine(note) => before.push(note),
            EntryOutcome::RecoveredShock(note) => before.push(note),
            EntryOutcome::Skipped => before,
        }
    }
}

/// The style that a mine chunk's difficulty code implies.
pub open spec fn mine_style(code: u16) -> Option<Style> {
    match difficulty_of(code) {
        Some((style, _)) => Some(style),
        None => None,
    }
}

/// What a mine chunk parses to: nothing, if its header is not valid.
pub open spec fn mines_outcome(header: ChunkHeader, body: Seq<u8>) -> Option<(u16, Seq<Note>)> {
    match mine_style(header.param2) {
        Some(style) if header.length == 12 + 8 * header.param3 => Some(
            (header.param2, mine_notes(body, style, header.param3 as nat)),
        ),
        _ => None,
    }
}

/// Parse one MINE_DATA chunk into its `param2` difficulty code and a
/// list of notes (mines and recovered shocks), in file order.
///
/// Returns `None` when the chunk header fails validation
/// (length mismatch, or `param2` is not one of the 10 valid difficulty
/// codes); the caller should then drop this chunk and continue parsing
/// the file. The chunk's offset in the file has no bearing on the result.
pub fn parse_chunk(header: &ChunkHeader, body: &[u8], _chunk_offset: usize) -> (r: Option<
    (u16, Vec<Note>),
>)
    requires
        mines_outcome(*header, body@) is Some ==> body@.len() >= 8 * header.param3,
    ensures
        match mines_outcome(*header, body@) {
            Some((code, notes)) => r is Some && (r->0).0 == code && (r->0).1@ == notes,
            None => r is None,
        },
{
    let expected_length: u32 = ChunkHeader::HEADER_SIZE + 8 * header.param3 as u32;
    if header.length != expected_length {
        return None;
    }
    let style = match valid_difficulty_style(header.param2) {
        Some(s) => s,
        None => {
            return None;
        },
    };
    let mut notes: Vec<Note> = Vec::new();
    let count: usize = header.param3 as usize;
    let mut i: usize = 0;
    while i < count
        invariant
            i <= count,
            count <= 0xFFFF,
            8 * count <= body@.len(),
            notes@ == mine_notes(body@, style, i as nat),
        decreases count - i,
    {
        let entry = vstd::slice::slice_subrange(body, ENTRY_SIZE * i, ENTRY_SIZE * i + ENTRY_SIZE);
        match classify_entry(entry, style) {
            EntryOutcome::Mine(note) => notes.push(note),
            EntryOutcome::RecoveredShock(note) => notes.push(note),
            EntryOutcome::Skipped => {},
        }
        i = i + 1;
    }
    Some((header.param2, notes))
}

/// Classify one 8-byte entry.
///
/// The check order matters: shock-mask checks run **before** the
/// Single-mode high-nibble check so that `panels == 0xFF` on a Single
/// chunk is recovered to a `BothSides` shock rather than being rejected
/// for having high-nibble bits set.
pub fn classify_entry(entry: &[u8], style: Style) -> (r: EntryOutcome)
    requires
        entry@.len() == 8,
    ensures
        r == entry_outcome(entry@, style),
{
    let beat_count: i32 = get_i32(entry, 0);
    let panels: u8 = entry[4];
    let flags: u8 = entry[5];
    let reserved: u16 = get_u16(entry, 6);
    // A negative position, a reserved bit or an empty mask is no mine.
    if beat_count < 0 || flags != 0 || reserved != 0 || panels == 0x00 {
        return EntryOutcome::Skipped;
    }
    // Shock-mask values that bled into a mine chunk are recovered.
    let side = match panels {
        0xFF => Some(ShockSide::BothSides),
        0x0F => match style {
            Style::Single => Some(ShockSide::BothSides),
            Style::Double => Some(ShockSide::P1Only),
        },
        0xF0 => match style {
            Style::Single => None,
            Style::Double => Some(ShockSide::P2Only),
        },
        _ => None,
    };
    if let Some(side) = side {
        return match recovered_shock_note(beat_count, style, side) {
            Some(note) => EntryOutcome::RecoveredShock(note),
            None => EntryOutcome::Skipped,
        };
    }
    // Single-mode chunks forbid high-nibble bits.
    if matches!(style, Style::Single) && panels >= 0x10 {
        return EntryOutcome::Skipped;
    }
    match Beat::from_measure_ticks(beat_count as i64) {
        Ok(beat) => EntryOutcome::Mine(
            Note { beat, kind: NoteKind::Mine, panels: PanelSet::from_bits(style, panels) },
        ),
        Err(_) => EntryOutcome::Skipped,
    }
}

/// Build a recovered `Shock` note.
fn recovered_shock_note(beat_count: i32, style: Style, side: ShockSide) -> (r: Option<Note>)
    ensures
        r == Some(
            Note {
                beat: tick_beat(beat_count as int),
                kind: NoteKind::Shock { side },
                panels: shock_panels(side, style),
            },
        ),
{
    let beat = match Beat::from_measure_ticks(beat_count as i64) {
        Ok(b) => b,
        Err(_) => {
            return None;
        },
    };
    let panels = match side {
        ShockSide::BothSides => PanelSet::from_bits(style, 0xFF),
        ShockSide::P1Only => PanelSet::from_bits(style, 0x0F),
        ShockSide::P2Only => PanelSet::from_bits(style, 0xF0),
    };
    Some(Note { beat, kind: NoteKind::Shock { side }, panels })
}

/// Returns the chart style implied by a MINE_DATA chunk's `param2`
/// difficulty code, or `None` if the code is not one of the 10 valid
/// combinations of slot and style.
fn valid_difficulty_style(code: u16) -> (r: Option<Style>)
    ensures
        r == mine_style(code),
{
    let style = match code % 0x100 {
        0x14 => Style::Single,
        0x18 => Style::Double,
        _ => {
            return None;
        },
    };
    match code / 0x100 {
        0x01 | 0x02 | 0x03 | 0x04 | 0x06 => Some(style),
        _ => None,
    }
}

/// Reject panel masks that collide with the step-chunk shock encodings.
fn reject_shock_mask(panels: u8) -> (r: Result<(), SsqError>)
    ensures
        is_shock_mask(panels) ==> r is Err && r->Err_0@ == (SsqErrorView::InvalidMinePanels {
            panels,
        }),
        !is_shock_mask(panels) ==> r is Ok,
{
    match panels {
        0x0F | 0xFF | 0xF0 => Err(SsqError::InvalidMinePanels { panels }),
        _ => Ok(()),
    }
}

/// The measure tick nearest to a position.
pub open spec fn nearest_tick(beat: Beat) -> int {
    round_half_away(beat@.0 * 1024, beat@.1)
}

/// Whether `n` is an `i32` value.
pub open spec fn in_i32(n: int) -> bool {
    i32::MIN <= n <= i32::MAX
}

/// The measure tick nearest to a position, as a wide integer.
pub fn wide_tick(beat: Beat) -> (t: i128)
    ensures
        t == nearest_tick(beat),
{
    proof {
        use_type_invariant(&beat);
    }
    let r = beat.as_rational();
    div_round(r.num() as i128 * 1024, r.den() as i128)
}

/// Convert a [`Beat`] to an integer i32 measure-tick count, rounding as the
/// step-chunk writer does.
fn beat_to_measure_ticks_i32(beat: Beat) -> (r: Result<i32, SsqError>)
    ensures
        in_i32(nearest_tick(beat)) ==> r is Ok && r->Ok_0 == nearest_tick(beat),
        !in_i32(nearest_tick(beat)) ==> r is Err && r->Err_0@ == SsqErrorView::Write(
            "mine measure-tick out of i32 range"@,
        ),
{
    let rounded: i128 = wide_tick(beat);
    if rounded < i32::MIN as i128 || rounded > i32::MAX as i128 {
        Err(SsqError::Write("mine measure-tick out of i32 range".to_owned()))
    } else {
        Ok(rounded as i32)
    }
}

/// `entries`, ascending by tick, with `panels` added at `tick`.
pub open spec fn mine_merged(entries: Seq<(i32, u8)>, tick: i32, panels: u8) -> Seq<(i32, u8)>
    decreases entries.len(),
{
    if entries.len() == 0 || entries.last().0 < tick {
        entries.push((tick, panels))
    } else if entries.last().0 == tick {
        entries.drop_last().push((tick, entries.last().1 | panels))
    } else {
        mine_merged(entries.drop_last(), tick, panels).push(entries.last())
    }
}

pub open spec fn negative_mine_reason(tick: int) -> Seq<char> {
    "mine note at tick "@ + signed_dec(tick) + ": the format requires non-negative beat_count"@
}

/// Why a mine cannot be written.
pub open spec fn mine_fault(note: Note) -> Option<SsqErrorView> {
    let tick = nearest_tick(note.beat);
    if is_shock_mask(note.panels@) {
        Some(SsqErrorView::InvalidMinePanels { panels: note.panels@ })
    } else if !in_i32(tick) {
        Some(SsqErrorView::Write("mine measure-tick out of i32 range"@))
    } else if tick < 0 {
        Some(SsqErrorView::Write(negative_mine_reason(tick)))
    } else {
        None
    }
}

/// The entries that the mines among the first `n` notes make.
pub open spec fn mine_entries(notes: Seq<Note>, n: nat) -> Result<Seq<(i32, u8)>, SsqErrorView>
    decreases n,
{
    if n == 0 {
        Ok(Seq::empty())
    } else {
        let note = notes[n - 1];
        match mine_entries(notes, (n - 1) as nat) {
            Err(e) => Err(e),
            Ok(entries) => if !(note.kind is Mine) {
                Ok(entries)
            } else if mine_fault(note) is Some {
                Err(mine_fault(note)->0)
            } else {
                Ok(mine_merged(entries, nearest_tick(note.beat) as i32, note.panels@))
            },
        }
    }
}

/// The first shock mask from entry `i` on.
pub open spec fn first_shock(entries: Seq<(i32, u8)>, i: int) -> Option<u8>
    decreases entries.len() - i,
{
    if i >= entries.len() {
        None
    } else if is_shock_mask(entries[i].1) {
        Some(entries[i].1)
    } else {
        first_shock(entries, i + 1)
    }
}

/// The body bytes of the first `n` entries: position, panels, and zeros.
pub open spec fn mine_body(entries: Seq<(i32, u8)>, n: nat) -> Seq<u8>
    decreases n,
{
    if n == 0 {
        Seq::empty()
    } else {
        mine_body(entries, (n - 1) as nat) + sbytes32(entries[n - 1].0) + seq![
            entries[n - 1].1,
            0u8,
            0u8,
            0u8,
        ]
    }
}

/// The bytes of a chart's mine chunk.
#[verifier::opaque]
pub open spec fn mine_chunk(chart: ChartView) -> Result<Seq<u8>, SsqErrorView> {
    match mine_entries(chart.notes, chart.notes.len()) {
        Err(e) => Err(e),
        Ok(entries) => if entries.len() == 0 {
            Ok(Seq::empty())
        } else if first_shock(entries, 0) is Some {
            Err(SsqErrorView::InvalidMinePanels { panels: first_shock(entries, 0)->0 })
        } else {
            Ok(
                chunk_header_bytes(
                    8 * entries.len(),
                    20,
                    code_of(chart.style, chart.difficulty),
                    entries.len(),
                ) + mine_body(entries, entries.len()),
            )
        },
    }
}

proof fn lemma_mine_error_stays(notes: Seq<Note>, m: nat, n: nat)
    requires
        m <= n,
        mine_entries(notes, m) is Err,
    ensures
        mine_entries(notes, n) == mine_entries(notes, m),
    decreases n,
{
    if m < n {
        lemma_mine_error_stays(notes, m, (n - 1) as nat);
    }
}

proof fn lemma_merged_splits(entries: Seq<(i32, u8)>, tick: i32, panels: u8, j: int)
    requires
        0 <= j <= entries.len(),
        forall|i: int| j <= i < entries.len() ==> (#[trigger] entries[i]).0 > tick,
        j > 0 ==> entries[j - 1].0 <= tick,
    ensures
        mine_merged(entries, tick, panels) == if j > 0 && entries[j - 1].0 == tick {
            entries.update(j - 1, (tick, entries[j - 1].1 | panels))
        } else {
            entries.insert(j, (tick, panels))
        },
    decreases entries.len(),
{
    if j == entries.len() {
        assert(entries.push((tick, panels)) =~= entries.insert(j, (tick, panels)));
        if j > 0 {
            assert(entries.drop_last().push((tick, entries.last().1 | panels)) =~= entries.update(
                j - 1,
                (tick, entries[j - 1].1 | panels),
            ));
        }
    } else {
        assert(entries.last().0 > tick);
        lemma_merged_splits(entries.drop_last(), tick, panels, j);
        assert(mine_merged(entries, tick, panels) =~= if j > 0 && entries[j - 1].0 == tick {
            entries.update(j - 1, (tick, entries[j - 1].1 | panels))
        } else {
            entries.insert(j, (tick, panels))
        });
    }
}

/// Add `panels` at `tick` to entries in ascending order.
fn merge_mine(entries: &mut Vec<(i32, u8)>, tick: i32, panels: u8)
    ensures
        final(entries)@ == mine_merged(old(entries)@, tick, panels),
{
    let mut j: usize = entries.len();
    while j > 0 && entries[j - 1].0 > tick
        invariant
            j <= entries@.len(),
            entries@ == old(entries)@,
            forall|i: int| j <= i < entries@.len() ==> (#[trigger] entries@[i]).0 > tick,
        decreases j,
    {
        j = j - 1;
    }
    proof {
        lemma_merged_splits(entries@, tick, panels, j as int);
    }
    if j > 0 && entries[j - 1].0 == tick {
        let merged: u8 = entries[j - 1].1 | panels;
        entries.set(j - 1, (tick, merged));
    } else {
        entries.insert(j, (tick, panels));
    }
}

/// Write one MINE_DATA chunk for `chart`. Emits nothing (no chunk
/// header, no body) if the chart has no `NoteKind::Mine` notes, and
/// nothing on an error.
///
/// - `param2` is derived from the chart's style and difficulty as in the
///   step chunk, so each mine chunk pairs with its step chunk.
/// - Notes at the same beat-tick are grouped and their panel masks
///   ORed together, producing one output entry per tick, ascending.
/// - Masks that equal one of the shock masks (`0x0F`, `0xFF`, `0xF0`) are
///   refused, before and after merging: an OR of valid masks can produce
///   one.
pub fn write_chunk(chart: &Chart, out: &mut Vec<u8>) -> (r: Result<(), SsqError>)
    ensures
        match mine_chunk(chart@) {
            Ok(bytes) => r is Ok && final(out)@ == old(out)@ + bytes,
            Err(e) => r is Err && r->Err_0@ == e && final(out)@ == old(out)@,
        },
{
    proof {
        reveal(mine_chunk);
    }
    let mut entries: Vec<(i32, u8)> = Vec::new();
    let mut i: usize = 0;
    while i < chart.notes.len()
        invariant
            i <= chart.notes@.len(),
            mine_entries(chart.notes@, i as nat) == Ok::<Seq<(i32, u8)>, SsqErrorView>(entries@),
            out@ == old(out)@,
        decreases chart.notes@.len() - i,
    {
        let note: Note = chart.notes[i];
        if matches!(note.kind, NoteKind::Mine) {
            let panels: u8 = note.panels.bits();
            match reject_shock_mask(panels) {
                Ok(_) => {},
                Err(e) => {
                    proof {
                        reveal(mine_chunk);
                        lemma_mine_error_stays(chart.notes@, (i + 1) as nat, chart.notes@.len());
                    }
                    return Err(e);
                },
            }
            let tick: i32 = match beat_to_measure_ticks_i32(note.beat) {
                Ok(t) => t,
                Err(e) => {
                    proof {
                        reveal(mine_chunk);
                        lemma_mine_error_stays(chart.notes@, (i + 1) as nat, chart.notes@.len());
                    }
                    return Err(e);
                },
            };
            if tick < 0 {
                let reason = "mine note at tick ".to_owned().concat(
                    signed_dec_string(tick as i64).as_str(),
                ).concat(": the format requires non-negative beat_count");
                proof {
                    reveal(mine_chunk);
                    lemma_mine_error_stays(chart.notes@, (i + 1) as nat, chart.notes@.len());
                }
                return Err(SsqError::Write(reason));
            }
            merge_mine(&mut entries, tick, panels);
        }
        i = i + 1;
    }
    if entries.len() == 0 {
        assert(out@ =~= old(out)@ + Seq::<u8>::empty());
        return Ok(());
    }
    let mut k: usize = 0;
    while k < entries.len()
        invariant
            k <= entries@.len(),
            first_shock(entries@, 0) == first_shock(entries@, k as int),
            entries@.len() > 0,
            mine_entries(chart.notes@, chart.notes@.len()) == Ok::<Seq<(i32, u8)>, SsqErrorView>(
                entries@,
            ),
            out@ == old(out)@,
        decreases entries@.len() - k,
    {
        proof {
            reveal(mine_chunk);
        }
        match reject_shock_mask(entries[k].1) {
            Ok(_) => {},
            Err(e) => return Err(e),
        }
        k = k + 1;
    }
    let n: usize = entries.len();
    write_chunk_header(
        out,
        8 * n as u128,
        MINE_CHUNK_TYPE,
        difficulty_code(chart.style, chart.difficulty),
        n,
    );
    let ghost start = out@;
    let mut j: usize = 0;
    assert(out@ =~= start + mine_body(entries@, 0));
    while j < n
        invariant
            j <= n,
            n == entries@.len(),
            out@ == start + mine_body(entries@, j as nat),
        decreases n - j,
    {
        let (tick, panels) = entries[j];
        put_i32(out, tick);
        out.push(panels);
        out.push(0);
        put_u16(out, 0);
        j = j + 1;
        assert(out@ =~= start + mine_body(entries@, j as nat));
    }
    assert(out@ =~= old(out)@ + mine_chunk(chart@)->Ok_0);
    Ok(())
}

} // verus!

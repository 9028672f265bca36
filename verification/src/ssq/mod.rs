//! DDR SSQ stepfile parser.
//!
//! Accepts SSQs with either tick rate observed in DDR World (TPS=1000
//! or TPS=150) and either chunk shape (modern chunks 1/2/3, or with
//! auxiliary chunks 4/5/9/17). The TPS distinction is independent of
//! whether the file is from DDR World or an earlier DDR release — that
//! distinction is a CLI/job-level concern captured by the `--from-format`
//! flag, not by the parser.
//!
//! `parse` returns an [`SsqParseResult`] bundling the format-independent
//! [`Song`] with SSQ-specific sidecar data: raw events (preserved for
//! DDR→DDR round-trips) and metadata describing any auxiliary chunks
//! dropped during parse.

pub mod auxiliary;
pub mod chunk;
pub mod events;
pub mod framing;
pub mod kept;
pub mod layout;
pub mod merging;
pub mod mines;
pub mod mines_round_trip;
pub mod round_trip;
pub mod step_laws;
pub mod step_meaning;
pub mod steps;
pub mod steps_round_trip;
pub mod tempo;
pub mod tempo_laws;
pub mod tempo_meaning;
pub mod warnings;
pub mod writer;
pub mod written_meaning;

use crate::model::rational::q_lt;
use crate::model::{
    charts_view, group_model_values, style_mask, AudioBuffer, Chart, ChartView, Note, PanelSet,
    PreviewSlice, Rational, Song, Stop, TempoSegment,
};
use crate::ssq::auxiliary::AuxMeta;
use crate::ssq::chunk::{header_at, read_header, ChunkHeader};
use crate::ssq::events::{events_outcome, SsqEvent};
use crate::ssq::mines::mines_outcome;
use crate::ssq::steps::steps_outcome;
use crate::ssq::tempo::{tempo_outcome, TempoParseResult, TempoView};
use crate::ssq::writer::{code_of, difficulty_code};
use crate::util::io::{IoError, LeReader};
use crate::util::sort::{sort_stable, stable_sorted, Ranked};
use vstd::prelude::*;

verus! {

broadcast use group_model_values;

#[derive(Debug)]
pub enum SsqError {
    Io(IoError),
    MalformedChunk { offset: usize, reason: String },
    UnexpectedChunkType { ty: u16, offset: usize },
    MissingTempoChunk,
    DuplicateTempoChunk,
    MissingEventsChunk,
    DuplicateEventsChunk,
    InvalidTps { offset: usize },
    InvalidDifficultyCode { code: u16, offset: usize },
    FreezeWithoutHead { freeze_offset: usize, tick: i32, panel: u8 },
    CannotWriteTps { tps: u32 },
    Write(String),
    NonIntegerBeat { beat: i64, beat_den: u64 },
    MineChunkLengthMismatch { offset: usize, declared: u32, param3: u16, expected: u32 },
    InvalidMinePanels { panels: u8 },
}

/// The contents of an `SsqError`.
#[verifier::ext_equal]
pub enum SsqErrorView {
    Io(IoError),
    MalformedChunk { offset: usize, reason: Seq<char> },
    UnexpectedChunkType { ty: u16, offset: usize },
    MissingTempoChunk,
    DuplicateTempoChunk,
    MissingEventsChunk,
    DuplicateEventsChunk,
    InvalidTps { offset: usize },
    InvalidDifficultyCode { code: u16, offset: usize },
    FreezeWithoutHead { freeze_offset: usize, tick: i32, panel: u8 },
    CannotWriteTps { tps: u32 },
    Write(Seq<char>),
    NonIntegerBeat { beat: i64, beat_den: u64 },
    MineChunkLengthMismatch { offset: usize, declared: u32, param3: u16, expected: u32 },
    InvalidMinePanels { panels: u8 },
}

impl View for SsqError {
    type V = SsqErrorView;

    open spec fn view(&self) -> SsqErrorView {
        match *self {
            SsqError::Io(e) => SsqErrorView::Io(e),
            SsqError::MalformedChunk { offset, reason } => SsqErrorView::MalformedChunk {
                offset,
                reason: reason@,
            },
            SsqError::UnexpectedChunkType { ty, offset } => SsqErrorView::UnexpectedChunkType {
                ty,
                offset,
            },
            SsqError::MissingTempoChunk => SsqErrorView::MissingTempoChunk,
            SsqError::DuplicateTempoChunk => SsqErrorView::DuplicateTempoChunk,
            SsqError::MissingEventsChunk => SsqErrorView::MissingEventsChunk,
            SsqError::DuplicateEventsChunk => SsqErrorView::DuplicateEventsChunk,
            SsqError::InvalidTps { offset } => SsqErrorView::InvalidTps { offset },
            SsqError::InvalidDifficultyCode { code, offset } => SsqErrorView::InvalidDifficultyCode {
                code,
                offset,
            },
            SsqError::FreezeWithoutHead { freeze_offset, tick, panel } =>
                SsqErrorView::FreezeWithoutHead { freeze_offset, tick, panel },
            SsqError::CannotWriteTps { tps } => SsqErrorView::CannotWriteTps { tps },
            SsqError::Write(reason) => SsqErrorView::Write(reason@),
            SsqError::NonIntegerBeat { beat, beat_den } => SsqErrorView::NonIntegerBeat {
                beat,
                beat_den,
            },
            SsqError::MineChunkLengthMismatch { offset, declared, param3, expected } =>
                SsqErrorView::MineChunkLengthMismatch { offset, declared, param3, expected },
            SsqError::InvalidMinePanels { panels } => SsqErrorView::InvalidMinePanels { panels },
        }
    }
}

/// Output of parsing an SSQ file: the format-independent `Song` plus
/// SSQ-specific sidecar data needed to round-trip back to SSQ.
#[derive(Debug, Clone)]
pub struct SsqParseResult {
    pub song: Song,
    pub events: Vec<SsqEvent>,
    /// Raw `(time_offset, tempo_data)` pairs from the source tempo chunk.
    /// Threaded through unchanged so DDR→DDR writes can reproduce the
    /// tempo chunk byte-for-byte. SM5→DDR writes ignore this and
    /// synthesize pairs from the semantic `tempo_segments` + `stops`.
    pub raw_tempo_pairs: Vec<(i32, i32)>,
    /// Metadata for each auxiliary chunk (types 4/5/9/17) that was
    /// encountered and dropped. Callers typically log these at `warn`
    /// level with the source filename attached.
    pub aux_chunks_dropped: Vec<AuxMeta>,
}

/// Fields accumulated as chunks are parsed. Finalization checks that
/// required chunks were seen and substitutes empty placeholders for
/// pieces that come from other file types (audio).
#[derive(Debug)]
pub struct PartialSong {
    pub tempo_seen: bool,
    pub events_seen: bool,
    pub tps: u32,
    pub tempo_segments: Vec<TempoSegment>,
    pub stops: Vec<Stop>,
    pub audio_sync_offset_seconds: Rational,
    pub raw_tempo_pairs: Vec<(i32, i32)>,
    pub events: Vec<SsqEvent>,
    pub aux_chunks_dropped: Vec<AuxMeta>,
    pub charts: Vec<Chart>,
    /// Parsed mine chunks in file order, keyed by their difficulty code.
    pub pending_mine_chunks: Vec<(u16, Vec<Note>)>,
}

/// The contents of a `PartialSong`.
#[verifier::ext_equal]
pub struct PartialView {
    pub tempo_seen: bool,
    pub events_seen: bool,
    pub tps: u32,
    pub tempo_segments: Seq<TempoSegment>,
    pub stops: Seq<Stop>,
    pub audio_sync_offset_seconds: Rational,
    pub raw_tempo_pairs: Seq<(i32, i32)>,
    pub events: Seq<SsqEvent>,
    pub aux_chunks_dropped: Seq<AuxMeta>,
    pub charts: Seq<ChartView>,
    pub pending_mine_chunks: Seq<(u16, Seq<Note>)>,
}

/// The contents of a list of mine chunks.
pub open spec fn pending_view(pending: Seq<(u16, Vec<Note>)>) -> Seq<(u16, Seq<Note>)> {
    Seq::new(pending.len(), |i: int| (pending[i].0, pending[i].1@))
}

impl View for PartialSong {
    type V = PartialView;

    open spec fn view(&self) -> PartialView {
        PartialView {
            tempo_seen: self.tempo_seen,
            events_seen: self.events_seen,
            tps: self.tps,
            tempo_segments: self.tempo_segments@,
            stops: self.stops@,
            audio_sync_offset_seconds: self.audio_sync_offset_seconds,
            raw_tempo_pairs: self.raw_tempo_pairs@,
            events: self.events@,
            aux_chunks_dropped: self.aux_chunks_dropped@,
            charts: charts_view(self.charts@),
            pending_mine_chunks: pending_view(self.pending_mine_chunks@),
        }
    }
}

/// A song of which no chunk has been seen.
pub open spec fn nothing_seen() -> PartialView {
    PartialView {
        tempo_seen: false,
        events_seen: false,
        tps: 0,
        tempo_segments: Seq::empty(),
        stops: Seq::empty(),
        audio_sync_offset_seconds: Rational::of((0, 1)),
        raw_tempo_pairs: Seq::empty(),
        events: Seq::empty(),
        aux_chunks_dropped: Seq::empty(),
        charts: Seq::empty(),
        pending_mine_chunks: Seq::empty(),
    }
}

/// `p` with a tempo chunk taken in.
pub open spec fn with_tempo(p: PartialView, t: TempoView) -> PartialView {
    PartialView {
        tempo_seen: true,
        tps: t.tps,
        tempo_segments: t.tempo_segments,
        stops: t.stops,
        audio_sync_offset_seconds: t.audio_sync_offset_seconds,
        raw_tempo_pairs: t.raw_pairs,
        ..p
    }
}

/// `p` with one chunk taken in.
#[verifier::opaque]
pub open spec fn dispatched(
    header: ChunkHeader,
    body: Seq<u8>,
    offset: usize,
    p: PartialView,
) -> Result<PartialView, SsqErrorView> {
    if header.ty == 1 {
        if p.tempo_seen {
            Err(SsqErrorView::DuplicateTempoChunk)
        } else {
            match tempo_outcome(header, body, offset) {
                Ok(t) => Ok(with_tempo(p, t)),
                Err(e) => Err(e),
            }
        }
    } else if header.ty == 2 {
        if p.events_seen {
            Err(SsqErrorView::DuplicateEventsChunk)
        } else {
            match events_outcome(header, body, offset) {
                Ok(events) => Ok(PartialView { events, events_seen: true, ..p }),
                Err(e) => Err(e),
            }
        }
    } else if header.ty == 3 {
        match steps_outcome(header, body, offset) {
            Ok(chart) => Ok(PartialView { charts: p.charts.push(chart), ..p }),
            Err(e) => Err(e),
        }
    } else if header.ty == 4 || header.ty == 5 || header.ty == 9 || header.ty == 17 {
        let meta = AuxMeta { ty: header.ty, offset, size: header.length };
        Ok(PartialView { aux_chunks_dropped: p.aux_chunks_dropped.push(meta), ..p })
    } else if header.ty == 20 {
        match mines_outcome(header, body) {
            Some(chunk) => Ok(
                PartialView { pending_mine_chunks: p.pending_mine_chunks.push(chunk), ..p },
            ),
            None => Ok(p),
        }
    } else {
        Err(SsqErrorView::UnexpectedChunkType { ty: header.ty, offset })
    }
}

/// `p` with every chunk from `at` on taken in.
#[verifier::opaque]
pub open spec fn walked(b: Seq<u8>, at: int, p: PartialView) -> Result<PartialView, SsqErrorView>
    decreases b.len() - at,
{
    match header_at(b, at) {
        Err(e) => Err(e),
        Ok(None) => Ok(p),
        Ok(Some(header)) => {
            let end = at + header.length;
            if end > b.len() {
                Err(
                    SsqErrorView::Io(
                        IoError::UnexpectedEof {
                            offset: (at + 12) as usize,
                            wanted: (header.length - 12) as usize,
                            remaining: (b.len() - at - 12) as usize,
                        },
                    ),
                )
            } else {
                match dispatched(header, b.subrange(at + 12, end), at as usize, p) {
                    Err(e) => Err(e),
                    Ok(q) => walked(b, end, q),
                }
            }
        },
    }
}

/// Notes go in order of their beats.
impl Ranked for Note {
    open spec fn precedes(self, other: Self) -> bool {
        q_lt(self.beat@, other.beat@)
    }

    fn is_before(&self, other: &Self) -> (b: bool) {
        self.beat.is_before(&other.beat)
    }
}

/// The first chart from `i` on with the difficulty code `code`.
pub open spec fn chart_with_code(charts: Seq<ChartView>, code: u16, i: int) -> Option<int>
    decreases charts.len() - i,
{
    if i >= charts.len() {
        None
    } else if code_of(charts[i].style, charts[i].difficulty) == code {
        Some(i)
    } else {
        chart_with_code(charts, code, i + 1)
    }
}

/// `chart` with the notes of a mine chunk put in at their beats.
pub open spec fn with_mines(chart: ChartView, mines: Seq<Note>) -> ChartView {
    ChartView {
        notes: stable_sorted(
            chart.notes + Seq::new(
                mines.len(),
                |i: int|
                    Note {
                        panels: PanelSet::of(mines[i].panels@ & style_mask(chart.style)),
                        ..mines[i]
                    },
            ),
        ),
        ..chart
    }
}

/// The charts after the first `n` mine chunks, and which of them have got
/// one. A chunk goes to the first chart with its code; one for no chart, or
/// for a chart that has one already, is dropped.
pub open spec fn mines_attached(
    charts: Seq<ChartView>,
    pending: Seq<(u16, Seq<Note>)>,
    n: nat,
) -> (Seq<ChartView>, Seq<bool>)
    decreases n,
{
    if n == 0 {
        (charts, Seq::new(charts.len(), |i: int| false))
    } else {
        let (now, done) = mines_attached(charts, pending, (n - 1) as nat);
        let (code, notes) = pending[n - 1];
        match chart_with_code(now, code, 0) {
            Some(i) if !done[i] => (
                now.update(i, with_mines(now[i], notes)),
                done.update(i, true),
            ),
            _ => (now, done),
        }
    }
}

/// What an SSQ file holds.
#[verifier::ext_equal]
pub struct SsqView {
    pub tps: u32,
    pub tempo_segments: Seq<TempoSegment>,
    pub stops: Seq<Stop>,
    pub charts: Seq<ChartView>,
    pub audio_sync_offset_seconds: Rational,
    pub events: Seq<SsqEvent>,
    pub raw_tempo_pairs: Seq<(i32, i32)>,
    pub aux_chunks_dropped: Seq<AuxMeta>,
}

/// A song once all its chunks have been seen.
pub open spec fn finalized(p: PartialView) -> Result<SsqView, SsqErrorView> {
    if !p.tempo_seen {
        Err(SsqErrorView::MissingTempoChunk)
    } else if !p.events_seen {
        Err(SsqErrorView::MissingEventsChunk)
    } else {
        Ok(
            SsqView {
                tps: p.tps,
                tempo_segments: p.tempo_segments,
                stops: p.stops,
                charts: mines_attached(
                    p.charts,
                    p.pending_mine_chunks,
                    p.pending_mine_chunks.len(),
                ).0,
                audio_sync_offset_seconds: p.audio_sync_offset_seconds,
                events: p.events,
                raw_tempo_pairs: p.raw_tempo_pairs,
                aux_chunks_dropped: p.aux_chunks_dropped,
            },
        )
    }
}

/// What an SSQ file parses to.
pub open spec fn ssq_outcome(bytes: Seq<u8>) -> Result<SsqView, SsqErrorView> {
    match walked(bytes, 0, nothing_seen()) {
        Err(e) => Err(e),
        Ok(p) => finalized(p),
    }
}

impl View for SsqParseResult {
    type V = SsqView;

    open spec fn view(&self) -> SsqView {
        SsqView {
            tps: self.song.tps,
            tempo_segments: self.song.tempo_segments@,
            stops: self.song.stops@,
            charts: charts_view(self.song.charts@),
            audio_sync_offset_seconds: self.song.audio_sync_offset_seconds,
            events: self.events@,
            raw_tempo_pairs: self.raw_tempo_pairs@,
            aux_chunks_dropped: self.aux_chunks_dropped@,
        }
    }
}

/// Whether a song has no title, artist or audio, and the default preview:
/// what a stepfile does not hold.
pub open spec fn bare(song: Song) -> bool {
    &&& song.title is None
    &&& song.artist is None
    &&& song.audio.samples@.len() == 0
    &&& song.audio.sample_rate == 0
    &&& song.audio.channels == 0
    &&& song.preview.start_seconds@ == (30int, 1int)
    &&& song.preview.length_seconds@ == (10int, 1int)
}

/// Parse an SSQ file.
///
/// The returned `Song`'s audio is empty; the caller is expected to
/// populate it from a sibling XWB/WAVM file.
pub fn parse(bytes: &[u8]) -> (r: Result<SsqParseResult, SsqError>)
    ensures
        match ssq_outcome(bytes@) {
            Ok(v) => r is Ok && r->Ok_0@ == v && bare(r->Ok_0.song),
            Err(e) => r is Err && r->Err_0@ == e,
        },
{
    let mut reader = LeReader::new(bytes);
    let mut partial = PartialSong::new();
    loop
        invariant_except_break
            reader.bytes() == bytes@,
            reader.at() <= bytes@.len(),
            walked(bytes@, reader.at() as int, partial@) == walked(bytes@, 0, nothing_seen()),
        ensures
            walked(bytes@, 0, nothing_seen()) == Ok::<PartialView, SsqErrorView>(partial@),
        decreases bytes@.len() - reader.at(),
    {
        proof {
            use_type_invariant(&reader);
            reveal(walked);
        }
        let ghost at = reader.at() as int;
        let (offset, header) = match read_header(&mut reader) {
            Ok(Some(h)) => h,
            Ok(None) => {
                break;
            },
            Err(e) => return Err(e),
        };
        let body_size: usize = header.body_size() as usize;
        let body = match reader.read_bytes(body_size) {
            Ok(b) => b,
            Err(e) => return Err(SsqError::Io(e)),
        };
        assert(body@ == bytes@.subrange(at + 12, at + header.length));
        match dispatch_chunk(&header, body, offset, &mut partial) {
            Ok(_) => {},
            Err(e) => return Err(e),
        }
    }
    partial.finalize()
}

/// Take in one chunk. Nothing changes on an error.
fn dispatch_chunk(
    header: &ChunkHeader,
    body: &[u8],
    offset: usize,
    partial: &mut PartialSong,
) -> (r: Result<(), SsqError>)
    requires
        header.length >= 12,
        body@.len() == header.length - 12,
    ensures
        match dispatched(*header, body@, offset, old(partial)@) {
            Ok(p) => r is Ok && final(partial)@ == p,
            Err(e) => r is Err && r->Err_0@ == e && final(partial)@ == old(partial)@,
        },
{
    proof {
        reveal(dispatched);
    }
    match header.ty {
        1 => {
            if partial.tempo_seen {
                return Err(SsqError::DuplicateTempoChunk);
            }
            match tempo::parse_tempo_chunk(header, body, offset) {
                Ok(result) => partial.apply_tempo(result),
                Err(e) => return Err(e),
            }
            Ok(())
        },
        2 => {
            if partial.events_seen {
                return Err(SsqError::DuplicateEventsChunk);
            }
            match events::parse_events_chunk(header, body, offset) {
                Ok(events) => {
                    partial.events = events;
                },
                Err(e) => return Err(e),
            }
            partial.events_seen = true;
            Ok(())
        },
        4 | 5 | 9 | 17 => {
            partial.aux_chunks_dropped.push(
                AuxMeta { ty: header.ty, offset, size: header.length },
            );
            Ok(())
        },
        3 => {
            let chart = match steps::parse_steps_chunk(header, body, offset) {
                Ok(c) => c,
                Err(e) => return Err(e),
            };
            partial.charts.push(chart);
            assert(partial@.charts =~= old(partial)@.charts.push(chart@));
            Ok(())
        },
        20 => {
            // A chunk whose header is not valid is skipped. The others wait
            // until every chart is there.
            if let Some((param2, notes)) = mines::parse_chunk(header, body, offset) {
                let ghost chunk = (param2, notes@);
                partial.pending_mine_chunks.push((param2, notes));
                assert(partial@.pending_mine_chunks =~= old(partial)@.pending_mine_chunks.push(
                    chunk,
                ));
            }
            Ok(())
        },
        other => Err(SsqError::UnexpectedChunkType { ty: other, offset }),
    }
}

impl PartialSong {
    fn new() -> (p: Self)
        ensures
            p@ == nothing_seen(),
    {
        let p = Self {
            tempo_seen: false,
            events_seen: false,
            tps: 0,
            tempo_segments: Vec::new(),
            stops: Vec::new(),
            audio_sync_offset_seconds: Rational::zero(),
            raw_tempo_pairs: Vec::new(),
            events: Vec::new(),
            aux_chunks_dropped: Vec::new(),
            charts: Vec::new(),
            pending_mine_chunks: Vec::new(),
        };
        assert(p@ =~= nothing_seen());
        p
    }

    fn apply_tempo(&mut self, result: TempoParseResult)
        ensures
            final(self)@ == with_tempo(old(self)@, result@),
    {
        self.tempo_seen = true;
        self.tps = result.tps;
        self.tempo_segments = result.tempo_segments;
        self.stops = result.stops;
        self.audio_sync_offset_seconds = result.audio_sync_offset_seconds;
        self.raw_tempo_pairs = result.raw_pairs;
    }

    fn finalize(self) -> (r: Result<SsqParseResult, SsqError>)
        ensures
            match finalized(self@) {
                Ok(v) => r is Ok && r->Ok_0@ == v && bare(r->Ok_0.song),
                Err(e) => r is Err && r->Err_0@ == e,
            },
    {
        if !self.tempo_seen {
            return Err(SsqError::MissingTempoChunk);
        }
        if !self.events_seen {
            return Err(SsqError::MissingEventsChunk);
        }
        let mut charts = self.charts;
        attach_mine_chunks(&mut charts, &self.pending_mine_chunks);
        let song = Song {
            title: None,
            artist: None,
            tps: self.tps,
            tempo_segments: self.tempo_segments,
            stops: self.stops,
            charts,
            audio: AudioBuffer { samples: Vec::new(), sample_rate: 0, channels: 0 },
            audio_sync_offset_seconds: self.audio_sync_offset_seconds,
            preview: PreviewSlice::default_window(),
        };
        Ok(
            SsqParseResult {
                song,
                events: self.events,
                raw_tempo_pairs: self.raw_tempo_pairs,
                aux_chunks_dropped: self.aux_chunks_dropped,
            },
        )
    }
}

/// The notes of `chart` with those of a mine chunk, masked to the chart's
/// panels, in order of their beats.
fn merge_notes(chart: &Chart, mines: &Vec<Note>) -> (notes: Vec<Note>)
    ensures
        notes@ == with_mines(chart@, mines@).notes,
{
    let mut all: Vec<Note> = Vec::new();
    let mut i: usize = 0;
    while i < chart.notes.len()
        invariant
            i <= chart.notes@.len(),
            all@ =~= chart.notes@.subrange(0, i as int),
        decreases chart.notes@.len() - i,
    {
        all.push(chart.notes[i]);
        i = i + 1;
    }
    let ghost added = Seq::new(
        mines@.len(),
        |i: int|
            Note {
                panels: PanelSet::of(mines@[i].panels@ & style_mask(chart.style)),
                ..mines@[i]
            },
    );
    let mut j: usize = 0;
    while j < mines.len()
        invariant
            j <= mines@.len(),
            added == Seq::new(
                mines@.len(),
                |i: int|
                    Note {
                        panels: PanelSet::of(mines@[i].panels@ & style_mask(chart.style)),
                        ..mines@[i]
                    },
            ),
            all@ =~= chart.notes@ + added.subrange(0, j as int),
        decreases mines@.len() - j,
    {
        let note: Note = mines[j];
        all.push(
            Note {
                beat: note.beat,
                kind: note.kind,
                panels: PanelSet::from_bits(chart.style, note.panels.bits()),
            },
        );
        j = j + 1;
    }
    assert(all@ =~= chart.notes@ + added);
    sort_stable(&all)
}

/// Attach parsed mine chunks to their matching charts by difficulty code.
/// A chart takes the first chunk with its code; its notes are then put in
/// order of their beats. Chunks for no chart, and further chunks for the
/// same chart, are dropped.
fn attach_mine_chunks(charts: &mut Vec<Chart>, pending: &Vec<(u16, Vec<Note>)>)
    ensures
        charts_view(final(charts)@) == mines_attached(
            charts_view(old(charts)@),
            pending_view(pending@),
            pending@.len(),
        ).0,
{
    let ghost before = charts_view(charts@);
    let ghost chunks = pending_view(pending@);
    let mut done: Vec<bool> = Vec::new();
    let mut d: usize = 0;
    while d < charts.len()
        invariant
            d <= charts@.len(),
            charts@ == old(charts)@,
            done@ =~= Seq::new(d as nat, |i: int| false),
        decreases charts@.len() - d,
    {
        done.push(false);
        d = d + 1;
    }
    let mut k: usize = 0;
    while k < pending.len()
        invariant
            k <= pending@.len(),
            chunks == pending_view(pending@),
            done@.len() == charts@.len(),
            mines_attached(before, chunks, k as nat) == (charts_view(charts@), done@),
        decreases pending@.len() - k,
    {
        let code: u16 = pending[k].0;
        let ghost now = charts_view(charts@);
        let mut i: usize = 0;
        while i < charts.len() && difficulty_code(charts[i].style, charts[i].difficulty) != code
            invariant
                i <= charts@.len(),
                now == charts_view(charts@),
                chart_with_code(now, code, 0) == chart_with_code(now, code, i as int),
            decreases charts@.len() - i,
        {
            i = i + 1;
        }
        assert(chunks[k as int] == (code, pending@[k as int].1@));
        if i < charts.len() && !done[i] {
            let notes = merge_notes(&charts[i], &pending[k].1);
            let chart = Chart {
                style: charts[i].style,
                difficulty: charts[i].difficulty,
                notes,
            };
            charts.set(i, chart);
            done.set(i, true);
            assert(charts_view(charts@) =~= now.update(
                i as int,
                with_mines(now[i as int], pending@[k as int].1@),
            ));
        }
        k = k + 1;
    }
}

} // verus!

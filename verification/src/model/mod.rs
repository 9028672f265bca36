//! Format-independent song representation.
//!
//! Every conversion goes `source format → model → target format`.
//! This module owns the types the conversions translate through.
//!
//! Design principles:
//!
//! - All musical positions (`Beat`) and tempo values (`Bpm`) are exact
//!   rationals. Floats drift; rationals round-trip losslessly.
//! - All musical positions in the model are measured in *beats* (one
//!   whole-note == 4 beats). SSQ stores them as measure ticks (4096 per
//!   whole note == 1024 per beat); conversion is lossless via `Rational`.
//! - Audio lives on the `Song` alongside charts — one pipeline, not two.

pub mod audio;
pub mod preview;
pub mod rational;
pub mod tick;

pub use audio::{AudioBuffer, AudioFormatKind};
pub use preview::PreviewSlice;
pub use rational::{Rational, RationalError};
pub use tick::{TickScale, TickScaleError};

use crate::model::audio::audio_view;
use crate::model::rational::{is_lowest, lowest, q_fits, q_lt, q_same};
use std::cmp::Ordering;
use vstd::prelude::*;

verus! {

/// Model values are determined by their views.
pub broadcast group group_model_values {
    Rational::lemma_of_view,
    Rational::lemma_view_of,
    Beat::lemma_of_view,
    Beat::lemma_view_of,
    Bpm::lemma_of_view,
    Bpm::lemma_view_of,
    PanelSet::lemma_of_view,
    PanelSet::lemma_view_of,
}

/// A musical position in beats. 1 beat == 1024 SSQ measure ticks.
#[derive(Debug, Clone, Copy, PartialEq, Eq, Hash, Structural)]
pub struct Beat(Rational);

impl View for Beat {
    type V = (int, int);

    closed spec fn view(&self) -> (int, int) {
        self.0@
    }
}

impl Beat {
    /// The value with parts `q`, where they fit.
    pub closed spec fn of(q: (int, int)) -> Beat {
        Beat(Rational::of(q))
    }

    pub broadcast proof fn lemma_of_view(q: (int, int))
        ensures
            q_fits(q) ==> (#[trigger] Beat::of(q))@ == q,
    {
        broadcast use Rational::lemma_of_view;

    }

    pub broadcast proof fn lemma_view_of(b: Beat)
        ensures
            Beat::of(#[trigger] b@) == b,
    {
        broadcast use Rational::lemma_view_of;

    }

    /// SSQ measure-tick convention: 4096 ticks per whole note == 1024 per beat.
    pub const TICKS_PER_BEAT: i64 = 1024;

    /// Every position is a fraction in lowest terms.
    #[verifier::type_invariant]
    pub open spec fn wf(self) -> bool {
        is_lowest(self@) && q_fits(self@)
    }

    #[must_use]
    pub fn zero() -> (b: Self)
        ensures
            b@ == (0int, 1int),
    {
        Self::from_rational(Rational::zero())
    }

    pub fn from_rational(r: Rational) -> (b: Self)
        ensures
            b@ == r@,
    {
        proof {
            use_type_invariant(&r);
        }
        Self(r)
    }

    /// Construct from an SSQ measure-tick offset.
    pub fn from_measure_ticks(ticks: i64) -> (r: Result<Self, RationalError>)
        ensures
            r is Ok,
            r->Ok_0@ == lowest(ticks as int, 1024),
    {
        match Rational::new(ticks, Self::TICKS_PER_BEAT) {
            Ok(q) => Ok(Self::from_rational(q)),
            Err(e) => Err(e),
        }
    }

    #[must_use]
    pub fn as_rational(&self) -> (r: Rational)
        ensures
            r@ == self@,
    {
        self.0
    }

    /// Whether `self` is the earlier position.
    #[must_use]
    pub fn is_before(&self, other: &Self) -> (b: bool)
        ensures
            b == q_lt(self@, other@),
    {
        matches!(self.0.cmp(&other.0), Ordering::Less)
    }
}

impl PartialOrd for Beat {
    fn partial_cmp(&self, other: &Self) -> (o: Option<Ordering>) {
        Some(self.0.cmp(&other.0))
    }
}

impl vstd::std_specs::cmp::PartialOrdSpecImpl for Beat {
    open spec fn obeys_partial_cmp_spec() -> bool {
        true
    }

    open spec fn partial_cmp_spec(&self, other: &Beat) -> Option<Ordering> {
        if q_lt(self@, other@) {
            Some(Ordering::Less)
        } else if q_same(self@, other@) {
            Some(Ordering::Equal)
        } else {
            Some(Ordering::Greater)
        }
    }
}

/// Tempo in beats per minute.
#[derive(Debug, Clone, Copy, PartialEq, Eq, Hash, Structural)]
pub struct Bpm(Rational);

impl View for Bpm {
    type V = (int, int);

    closed spec fn view(&self) -> (int, int) {
        self.0@
    }
}

impl Bpm {
    /// The value with parts `q`, where they fit.
    pub closed spec fn of(q: (int, int)) -> Bpm {
        Bpm(Rational::of(q))
    }

    pub broadcast proof fn lemma_of_view(q: (int, int))
        ensures
            q_fits(q) ==> (#[trigger] Bpm::of(q))@ == q,
    {
        broadcast use Rational::lemma_of_view;

    }

    pub broadcast proof fn lemma_view_of(b: Bpm)
        ensures
            Bpm::of(#[trigger] b@) == b,
    {
        broadcast use Rational::lemma_view_of;

    }

    /// Every tempo is a fraction in lowest terms.
    #[verifier::type_invariant]
    pub open spec fn wf(self) -> bool {
        is_lowest(self@) && q_fits(self@)
    }

    pub fn from_rational(r: Rational) -> (b: Self)
        ensures
            b@ == r@,
    {
        proof {
            use_type_invariant(&r);
        }
        Self(r)
    }

    #[must_use]
    pub fn as_rational(&self) -> (r: Rational)
        ensures
            r@ == self@,
    {
        self.0
    }
}

impl PartialOrd for Bpm {
    fn partial_cmp(&self, other: &Self) -> (o: Option<Ordering>) {
        Some(self.0.cmp(&other.0))
    }
}

impl vstd::std_specs::cmp::PartialOrdSpecImpl for Bpm {
    open spec fn obeys_partial_cmp_spec() -> bool {
        true
    }

    open spec fn partial_cmp_spec(&self, other: &Bpm) -> Option<Ordering> {
        if q_lt(self@, other@) {
            Some(Ordering::Less)
        } else if q_same(self@, other@) {
            Some(Ordering::Equal)
        } else {
            Some(Ordering::Greater)
        }
    }
}

/// Play style — determines how many panels are active.
#[derive(Debug, Clone, Copy, PartialEq, Eq, Hash, Structural)]
pub enum Style {
    /// Four panels (L, D, U, R).
    Single,
    /// Eight panels (P1 L/D/U/R, P2 L/D/U/R).
    Double,
}

/// The number of panels that `style` plays on.
pub open spec fn panels_of(style: Style) -> int {
    match style {
        Style::Single => 4,
        Style::Double => 8,
    }
}

/// The bits of a panel mask that `style` uses.
pub open spec fn style_mask(style: Style) -> u8 {
    match style {
        Style::Single => 0x0F,
        Style::Double => 0xFF,
    }
}

impl Style {
    #[must_use]
    pub fn panel_count(self) -> (n: u8)
        ensures
            n == panels_of(self),
    {
        match self {
            Self::Single => 4,
            Self::Double => 8,
        }
    }
}

/// Chart difficulty slot. Maps to SSQ difficulty codes in `ssq/`
/// and to SSC `#DIFFICULTY` names in `ssc/`.
#[derive(Debug, Clone, Copy, PartialEq, Eq, Hash, Structural)]
pub enum Difficulty {
    Beginner,
    Basic,
    Difficult,
    Expert,
    Challenge,
}

/// Set of active panels for a single note, stored as a bitmask.
#[derive(Debug, Clone, Copy, PartialEq, Eq, Hash, Structural)]
pub struct PanelSet(u8);

impl View for PanelSet {
    type V = u8;

    closed spec fn view(&self) -> u8 {
        self.0
    }
}

/// Whether bit `panel` of `bits` is set.
pub open spec fn has_panel(bits: u8, panel: u8) -> bool {
    panel < 8 && bits & (1u8 << panel) != 0
}

/// The number of set bits of `bits` among its lowest `n`.
pub open spec fn panels_below(bits: u8, n: nat) -> nat
    decreases n,
{
    if n == 0 {
        0
    } else {
        panels_below(bits, (n - 1) as nat) + if has_panel(bits, (n - 1) as u8) {
            1nat
        } else {
            0nat
        }
    }
}

impl PanelSet {
    /// The set with mask `bits`.
    pub closed spec fn of(bits: u8) -> PanelSet {
        PanelSet(bits)
    }

    pub broadcast proof fn lemma_of_view(bits: u8)
        ensures
            (#[trigger] PanelSet::of(bits))@ == bits,
    {
    }

    pub broadcast proof fn lemma_view_of(s: PanelSet)
        ensures
            PanelSet::of(#[trigger] s@) == s,
    {
    }

    #[must_use]
    pub fn empty() -> (s: Self)
        ensures
            s@ == 0,
    {
        Self(0)
    }

    /// Construct from a raw bitmask. Bits above `style.panel_count()` are masked off.
    #[must_use]
    pub fn from_bits(style: Style, bits: u8) -> (s: Self)
        ensures
            s@ == bits & style_mask(style),
    {
        match style {
            Style::Single => Self(bits & 0x0F),
            Style::Double => Self(bits & 0xFF),
        }
    }

    #[must_use]
    pub fn bits(self) -> (b: u8)
        ensures
            b == self@,
    {
        self.0
    }

    #[must_use]
    pub fn is_empty(self) -> (b: bool)
        ensures
            b == (self@ == 0),
    {
        self.0 == 0
    }

    #[must_use]
    pub fn contains(self, panel: u8) -> (b: bool)
        ensures
            b == has_panel(self@, panel),
    {
        panel < 8 && (self.0 & (1u8 << panel)) != 0
    }

    #[must_use]
    pub fn with(self, panel: u8) -> (s: Self)
        ensures
            panel >= 8 ==> s == self,
            panel < 8 ==> s@ == self@ | (1u8 << panel),
            forall|p: u8| #[trigger]
                has_panel(s@, p) <==> has_panel(self@, p) || (p == panel && panel < 8),
    {
        if panel < 8 {
            proof {
                let bits = self.0;
                assert(forall|p: u8| p < 8 && panel < 8 ==> (#[trigger] ((bits | (1u8 << panel)) & (
                1u8 << p)) != 0 <==> bits & (1u8 << p) != 0 || p == panel)) by (bit_vector);
                assert forall|p: u8| #[trigger]
                    has_panel(bits | (1u8 << panel), p) <==> has_panel(bits, p) || p == panel by {
                    if p < 8 {
                        let m = (bits | (1u8 << panel)) & (1u8 << p);
                    }
                }
            }
            Self(self.0 | (1u8 << panel))
        } else {
            self
        }
    }

    #[must_use]
    pub fn count(self) -> (n: u32)
        ensures
            n == panels_below(self@, 8),
    {
        let mut n: u32 = 0;
        let mut p: u8 = 0;
        while p < 8
            invariant
                p <= 8,
                n == panels_below(self@, p as nat),
                n <= p,
            decreases 8 - p,
        {
            if self.contains(p) {
                n = n + 1;
            }
            p = p + 1;
        }
        n
    }
}

/// Which side(s) a shock arrow affects.
#[derive(Debug, Clone, Copy, PartialEq, Eq, Hash, Structural)]
pub enum ShockSide {
    /// All panels of both sides active.
    BothSides,
    /// Only the P1 side (4 panels).
    P1Only,
    /// Only the P2 side (4 panels).
    P2Only,
}

/// One note (or sustain start, or shock) at a specific beat.
#[derive(Debug, Clone, Copy, PartialEq, Eq, Structural)]
pub struct Note {
    pub beat: Beat,
    pub kind: NoteKind,
    pub panels: PanelSet,
}

#[derive(Debug, Clone, Copy, PartialEq, Eq, Hash, Structural)]
pub enum NoteKind {
    Tap,
    /// Freeze/hold start. `length` is the hold duration in beats.
    HoldHead {
        length: Beat,
    },
    Shock {
        side: ShockSide,
    },
    /// Mine on part of the panels.
    Mine,
}

/// One difficulty of one song.
#[derive(Debug, Clone)]
pub struct Chart {
    pub style: Style,
    pub difficulty: Difficulty,
    /// Notes sorted by beat. Parsers are responsible for producing sorted output.
    pub notes: Vec<Note>,
}

/// The contents of a `Chart`.
#[verifier::ext_equal]
pub struct ChartView {
    pub style: Style,
    pub difficulty: Difficulty,
    pub notes: Seq<Note>,
}

impl View for Chart {
    type V = ChartView;

    open spec fn view(&self) -> ChartView {
        ChartView { style: self.style, difficulty: self.difficulty, notes: self.notes@ }
    }
}

/// The contents of each of a list of charts.
pub open spec fn charts_view(charts: Seq<Chart>) -> Seq<ChartView> {
    Seq::new(charts.len(), |i: int| charts[i]@)
}

/// The position of a measure tick, in beats.
pub open spec fn tick_beat(tick: int) -> Beat {
    Beat::of(lowest(tick, 1024))
}

/// A tempo change at a specific beat.
#[derive(Debug, Clone, Copy, PartialEq, Eq, Structural)]
pub struct TempoSegment {
    pub start_beat: Beat,
    pub bpm: Bpm,
}

/// A pause in the song timeline.
#[derive(Debug, Clone, Copy, PartialEq, Eq, Structural)]
pub struct Stop {
    pub at_beat: Beat,
    pub duration_seconds: Rational,
}

/// Format-independent representation of one song plus its audio.
#[derive(Debug, Clone)]
pub struct Song {
    pub title: Option<String>,
    pub artist: Option<String>,
    /// SSQ tick rate: 150 (legacy-authored) or 1000 (modern-authored)
    /// if the source was an SSQ. Set to 1000 when the source is SM5 or
    /// after modernization. The writer emits this value verbatim.
    pub tps: u32,
    pub tempo_segments: Vec<TempoSegment>,
    pub stops: Vec<Stop>,
    pub charts: Vec<Chart>,
    pub audio: AudioBuffer,
    /// Offset between chart time-zero and audio time-zero. Positive
    /// means audio has elapsed `audio_sync_offset_seconds` of pre-roll
    /// by the time the chart reaches beat zero.
    pub audio_sync_offset_seconds: Rational,
    pub preview: PreviewSlice,
}

/// The contents of a `Song`.
#[verifier::ext_equal]
pub struct SongView {
    pub title: Option<Seq<char>>,
    pub artist: Option<Seq<char>>,
    pub tps: u32,
    pub tempo_segments: Seq<TempoSegment>,
    pub stops: Seq<Stop>,
    pub charts: Seq<ChartView>,
    pub audio: (Seq<i16>, u32, u16),
    pub audio_sync_offset_seconds: Rational,
    pub preview: PreviewSlice,
}

/// The text of an optional string.
pub open spec fn text_view(s: Option<String>) -> Option<Seq<char>> {
    match s {
        Some(t) => Some(t@),
        None => None,
    }
}

impl View for Song {
    type V = SongView;

    open spec fn view(&self) -> SongView {
        SongView {
            title: text_view(self.title),
            artist: text_view(self.artist),
            tps: self.tps,
            tempo_segments: self.tempo_segments@,
            stops: self.stops@,
            charts: charts_view(self.charts@),
            audio: audio_view(self.audio),
            audio_sync_offset_seconds: self.audio_sync_offset_seconds,
            preview: self.preview,
        }
    }
}

} // verus!

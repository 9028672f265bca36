//! The conversions, from file contents to file contents.

use super::audio::{decode_legacy_audio, legacy_audio_outcome};
use super::timeline::{
    canonical_events, chart_end_tick, closing_pairs, closing_tick, end_tick_fits, end_tick_of,
    synthesize_events,
};
use super::JobError;
use crate::cli::convertible;
use crate::cli::job::Format;
use crate::error::{Error, ErrorView};
use crate::model::audio::audio_view;
use crate::model::rational::{add_value, lowest, sub_value};
use crate::model::{
    group_model_values, tick_beat, AudioBuffer, Beat, PreviewSlice, Rational, Song, SongView,
};
use crate::sm::{self, sm_outcome};
use crate::ssc::{self, ssc_outcome, ssc_written, SscError, SscErrorView};
use crate::ssq::auxiliary::AuxMeta;
use crate::ssq::writer::{self, ssq_file, synthesize_tempo_entries_until, synthesized};
use crate::ssq::{self, bare, ssq_outcome, SsqError, SsqErrorView, SsqParseResult, SsqView};
use crate::ssq_legacy::modernize::{
    modernize, modernize_problem, modernize_warning, modernized, saturated, saturating_sum,
};
use crate::ssc::msd::strings_view;
use crate::ssq::warnings::{file_warnings, warnings};
use crate::util::chars::{lower, reads, to_lower};
use crate::util::path::{extension, extension_of, file_name, file_name_of};
use crate::util::text::utf8_text;
use crate::xwb::{self, audio_outcome};
use vstd::prelude::*;
use vstd::string::StringExecFns;
use vstd::utf8::{decode_utf8, valid_utf8};

verus! {

/// The supported conversions.
#[derive(Debug, Clone, Copy, PartialEq, Eq, Structural)]
pub enum Direction {
    DdrToSm5,
    Sm5ToDdr,
    LegacyToDdr,
    LegacyToSm5,
}

/// The conversion between two formats, if it is supported.
pub fn direction(from: Format, to: Format) -> (d: Option<Direction>)
    ensures
        d is Some <==> convertible(from, to),
        d == Some(Direction::DdrToSm5) <==> from == Format::Ddr && to == Format::Sm5,
        d == Some(Direction::Sm5ToDdr) <==> from == Format::Sm5 && to == Format::Ddr,
        d == Some(Direction::LegacyToDdr) <==> from == Format::DdrLegacy && to == Format::Ddr,
        d == Some(Direction::LegacyToSm5) <==> from == Format::DdrLegacy && to == Format::Sm5,
{
    match (from, to) {
        (Format::Ddr, Format::Sm5) => Some(Direction::DdrToSm5),
        (Format::Sm5, Format::Ddr) => Some(Direction::Sm5ToDdr),
        (Format::DdrLegacy, Format::Ddr) => Some(Direction::LegacyToDdr),
        (Format::DdrLegacy, Format::Sm5) => Some(Direction::LegacyToSm5),
        _ => None,
    }
}

/// Fail if a file exists and overwrite is not enabled.
pub fn check_overwrite(path: &str, exists: bool, overwrite: bool) -> (r: Result<(), Error>)
    ensures
        r is Ok <==> overwrite || !exists,
        r is Err ==> r->Err_0@ == ErrorView::Io("output file already exists: "@ + path@),
{
    if !overwrite && exists {
        return Err(Error::Io("output file already exists: ".to_owned().concat(path)));
    }
    Ok(())
}

/// The offset `ms` milliseconds later, or as it was where the sum does not fit.
pub open spec fn offset_moved(offset: Rational, ms: i32) -> Rational {
    match add_value(offset@, lowest(ms as int, 1000)) {
        Some(q) => Rational::of(q),
        None => offset,
    }
}

/// The stepfile with its audio `ms` milliseconds later.
pub open spec fn sync_moved(v: SsqView, ms: i32) -> SsqView {
    if ms == 0 {
        v
    } else {
        SsqView {
            audio_sync_offset_seconds: offset_moved(v.audio_sync_offset_seconds, ms),
            raw_tempo_pairs: if v.raw_tempo_pairs.len() == 0 {
                v.raw_tempo_pairs
            } else {
                let first = v.raw_tempo_pairs[0];
                v.raw_tempo_pairs.update(0, (first.0, saturated(first.1 + ms)))
            },
            ..v
        }
    }
}

/// Add a sync offset in milliseconds.
fn add_milliseconds(offset: Rational, ms: i32) -> (r: Rational)
    ensures
        r == offset_moved(offset, ms),
{
    broadcast use group_model_values;

    match Rational::new(ms as i64, 1000) {
        Ok(shift) => match offset.add(&shift) {
            Ok(sum) => sum,
            Err(_) => offset,
        },
        Err(_) => offset,
    }
}

/// Add a user-specified sync offset (in milliseconds) to the post-modernize
/// audio-sync state. Applied to both `audio_sync_offset_seconds` and
/// `raw_tempo_pairs[0].1` (emitted verbatim by the SSQ writer as
/// `tempo_data[0]`). Both carry the DDR sign convention — positive = beat 0
/// later in the audio — so the same signed value is added to each. Modernize
/// runs first, so `song.tps` is already 1000 and seconds-ticks are directly in
/// milliseconds.
pub fn apply_sync_offset(result: &mut SsqParseResult, offset_ms: i32)
    ensures
        final(result)@ == sync_moved(old(result)@, offset_ms),
        final(result).song.title == old(result).song.title,
        final(result).song.artist == old(result).song.artist,
        final(result).song.audio == old(result).song.audio,
        final(result).song.preview == old(result).song.preview,
{
    if offset_ms == 0 {
        return;
    }
    result.song.audio_sync_offset_seconds = add_milliseconds(
        result.song.audio_sync_offset_seconds,
        offset_ms,
    );
    if result.raw_tempo_pairs.len() > 0 {
        let (tick, seconds) = result.raw_tempo_pairs[0];
        result.raw_tempo_pairs.set(0, (tick, saturating_sum(seconds, offset_ms)));
    }
    assert(result@ =~= sync_moved(old(result)@, offset_ms));
}

/// The song of a stepfile, which names no title, artist or audio.
pub open spec fn song_of(v: SsqView) -> SongView {
    SongView {
        title: None,
        artist: None,
        tps: v.tps,
        tempo_segments: v.tempo_segments,
        stops: v.stops,
        charts: v.charts,
        audio: (Seq::empty(), 0, 0),
        audio_sync_offset_seconds: v.audio_sync_offset_seconds,
        preview: PreviewSlice {
            start_seconds: Rational::of((30, 1)),
            length_seconds: Rational::of((10, 1)),
        },
    }
}

proof fn lemma_bare_song(result: SsqParseResult)
    requires
        bare(result.song),
    ensures
        result.song@ == song_of(result@),
{
    broadcast use group_model_values;

    assert(result.song@.audio.0 =~= Seq::empty());
    assert(result.song@ =~= song_of(result@));
}

/// The SSC file of a song. SSC's `#OFFSET` has the opposite sign of the model's
/// offset.
pub open spec fn sm5_chart_outcome(song: SongView) -> Result<Seq<char>, ErrorView> {
    match sub_value((0, 1), song.audio_sync_offset_seconds@) {
        None => Err(
            ErrorView::Ssc(SscErrorView::Write("sync offset: "@ + "arithmetic overflow"@)),
        ),
        Some(q) => match ssc_written(
            SongView { audio_sync_offset_seconds: Rational::of(q), ..song },
        ) {
            Ok(text) => Ok(text),
            Err(e) => Err(ErrorView::Ssc(e)),
        },
    }
}

/// Write a song as SSC.
pub fn sm5_chart(song: Song) -> (r: Result<String, Error>)
    ensures
        match sm5_chart_outcome(song@) {
            Ok(text) => r is Ok && r->Ok_0@ == text,
            Err(e) => r is Err && r->Err_0@ == e,
        },
{
    broadcast use group_model_values;

    let ghost before = song@;
    let mut song = song;
    match Rational::zero().sub(&song.audio_sync_offset_seconds) {
        Ok(q) => {
            song.audio_sync_offset_seconds = q;
        },
        Err(e) => {
            return Err(
                Error::Ssc(
                    SscError::Write("sync offset: ".to_owned().concat(e.message().as_str())),
                ),
            );
        },
    }
    assert(song@ =~= SongView {
        audio_sync_offset_seconds: song.audio_sync_offset_seconds,
        ..before
    });
    let mut text = String::new();
    match ssc::write(&song, &mut text) {
        Ok(()) => {
            assert(text@ =~= ssc_written(song@)->Ok_0);
            Ok(text)
        },
        Err(e) => Err(Error::Ssc(e)),
    }
}

/// What an SM5 conversion writes: the SSC file, and the audio to encode. Besides,
/// the chunks of the stepfile that were left out.
#[derive(Debug, Clone)]
pub struct Sm5Files {
    pub ssc: String,
    pub audio: AudioBuffer,
    pub aux_chunks_dropped: Vec<AuxMeta>,
}

/// The chunks that are left out of a stepfile that can be read.
pub open spec fn left_out(chart: Seq<u8>) -> Seq<AuxMeta> {
    match ssq_outcome(chart) {
        Ok(v) => v.aux_chunks_dropped,
        Err(_) => Seq::empty(),
    }
}

/// What becomes of a modern DDR song.
pub open spec fn ddr_to_sm5_outcome(chart: Seq<u8>, audio: Seq<u8>, ms: i32) -> Result<
    (Seq<char>, (Seq<i16>, u32, u16)),
    ErrorView,
> {
    match ssq_outcome(chart) {
        Err(e) => Err(ErrorView::Ssq(e)),
        Ok(v) => match audio_outcome(audio) {
            Err(e) => Err(ErrorView::Xwb(e)),
            Ok(pcm) => match sm5_chart_outcome(
                SongView { audio: pcm, ..song_of(sync_moved(v, ms)) },
            ) {
                Err(e) => Err(e),
                Ok(text) => Ok((text, pcm)),
            },
        },
    }
}

/// Copy an audio buffer.
fn copy_audio(audio: &AudioBuffer) -> (c: AudioBuffer)
    ensures
        audio_view(c) == audio_view(*audio),
{
    let mut samples: Vec<i16> = Vec::new();
    let mut i: usize = 0;
    while i < audio.samples.len()
        invariant
            i <= audio.samples@.len(),
            samples@ =~= audio.samples@.subrange(0, i as int),
        decreases audio.samples@.len() - i,
    {
        samples.push(audio.samples[i]);
        i = i + 1;
    }
    assert(audio.samples@.subrange(0, i as int) =~= audio.samples@);
    AudioBuffer { samples, sample_rate: audio.sample_rate, channels: audio.channels }
}

/// Convert a modern DDR song: SSQ to SSC, XWB to PCM.
pub fn ddr_to_sm5(chart_bytes: &[u8], audio_bytes: &[u8], sync_offset_ms: i32) -> (r: Result<
    Sm5Files,
    Error,
>)
    ensures
        match ddr_to_sm5_outcome(chart_bytes@, audio_bytes@, sync_offset_ms) {
            Ok((text, pcm)) => r is Ok && r->Ok_0.ssc@ == text && audio_view(r->Ok_0.audio) == pcm
                && r->Ok_0.aux_chunks_dropped@ == left_out(chart_bytes@),
            Err(e) => r is Err && r->Err_0@ == e,
        },
{
    let mut result = match ssq::parse(chart_bytes) {
        Ok(result) => result,
        Err(e) => {
            return Err(Error::Ssq(e));
        },
    };
    apply_sync_offset(&mut result, sync_offset_ms);
    let audio = match xwb::parse_audio(audio_bytes) {
        Ok(audio) => audio,
        Err(e) => {
            return Err(Error::Xwb(e));
        },
    };
    proof {
        lemma_bare_song(result);
    }
    let ghost before = result.song@;
    let aux_chunks_dropped = result.aux_chunks_dropped;
    let mut song = result.song;
    song.audio = copy_audio(&audio);
    assert(song@ =~= SongView { audio: audio_view(audio), ..before });
    match sm5_chart(song) {
        Ok(ssc) => Ok(Sm5Files { ssc, audio, aux_chunks_dropped }),
        Err(e) => Err(e),
    }
}

/// What a legacy stepfile becomes: modern, and moved to the sync asked for.
pub open spec fn legacy_chart_outcome(chart: Seq<u8>, ms: i32) -> Result<SsqView, ErrorView> {
    match ssq_outcome(chart) {
        Err(e) => Err(ErrorView::Ssq(e)),
        Ok(v) => Ok(sync_moved(modernized(v), ms)),
    }
}

/// Read a legacy stepfile and modernize it.
pub fn legacy_chart(chart_bytes: &[u8], sync_offset_ms: i32) -> (r: Result<SsqParseResult, Error>)
    ensures
        match legacy_chart_outcome(chart_bytes@, sync_offset_ms) {
            Ok(v) => r is Ok && r->Ok_0@ == v && bare(r->Ok_0.song),
            Err(e) => r is Err && r->Err_0@ == e,
        },
{
    let mut result = match ssq::parse(chart_bytes) {
        Ok(result) => result,
        Err(e) => {
            return Err(Error::Ssq(e));
        },
    };
    modernize(&mut result);
    apply_sync_offset(&mut result, sync_offset_ms);
    Ok(result)
}

/// The stepfile of a modernized song, with the canonical events.
pub open spec fn legacy_to_ddr_chart_outcome(song: SongView, raw_pairs: Seq<(i32, i32)>) -> Result<
    Seq<u8>,
    ErrorView,
> {
    if end_tick_of(song.charts) > i32::MAX {
        Err(ErrorView::Job(JobError::ChartTooLong))
    } else {
        match ssq_file(
            song,
            canonical_events(closing_tick(song.charts, raw_pairs)),
            closing_pairs(song.charts, raw_pairs),
        ) {
            Ok(bytes) => Ok(bytes),
            Err(e) => Err(ErrorView::Ssq(e)),
        }
    }
}

/// Write a modernized legacy song as a modern SSQ. The source's events are
/// discarded in favour of the canonical 6-event sequence: Ultramix-era SSQs
/// place event[3] (alt-start cue 0xF8) at a different tick than event[2] (chart
/// start 0xFA), which DDR World rejects.
pub fn legacy_to_ddr_chart(result: &SsqParseResult) -> (r: Result<Vec<u8>, Error>)
    ensures
        match legacy_to_ddr_chart_outcome(result.song@, result.raw_tempo_pairs@) {
            Ok(bytes) => r is Ok && r->Ok_0@ == bytes,
            Err(e) => r is Err && r->Err_0@ == e,
        },
{
    if !end_tick_fits(&result.song) {
        return Err(Error::Job(JobError::ChartTooLong));
    }
    let (events, pairs) = synthesize_events(&result.song, result.raw_tempo_pairs.as_slice());
    let mut out: Vec<u8> = Vec::new();
    match writer::write(&result.song, events.as_slice(), pairs.as_slice(), &mut out) {
        Ok(()) => {
            assert(out@ =~= ssq_file(result.song@, events@, pairs@)->Ok_0);
            Ok(out)
        },
        Err(e) => Err(Error::Ssq(e)),
    }
}

/// The fields of a file of zero-terminated texts.
pub open spec fn nul_fields(bytes: Seq<u8>) -> Seq<Seq<u8>>
    decreases bytes.len(),
{
    if bytes.len() == 0 {
        seq![Seq::empty()]
    } else {
        let before = nul_fields(bytes.drop_last());
        if bytes.last() == 0 {
            before.push(Seq::empty())
        } else {
            before.drop_last().push(before.last().push(bytes.last()))
        }
    }
}

/// The text of field `n`: empty where there is none.
pub open spec fn field_at(bytes: Seq<u8>, n: int) -> Seq<char> {
    let fields = nul_fields(bytes);
    if n < fields.len() && valid_utf8(fields[n]) {
        decode_utf8(fields[n])
    } else {
        Seq::empty()
    }
}

/// The song with the title and artist of a SIF file.
pub open spec fn sif_applied(song: SongView, sif: Seq<u8>) -> SongView {
    let title = field_at(sif, 2);
    let subtitle = field_at(sif, 3);
    let artist = field_at(sif, 4);
    SongView {
        title: if title.len() == 0 {
            song.title
        } else if subtitle.len() == 0 {
            Some(title)
        } else {
            Some(title + " "@ + subtitle)
        },
        artist: if artist.len() == 0 {
            song.artist
        } else {
            Some(artist)
        },
        ..song
    }
}

pub open spec fn bytes_view(v: Seq<Vec<u8>>) -> Seq<Seq<u8>> {
    Seq::new(v.len(), |i: int| v[i]@)
}

fn split_nul(bytes: &[u8]) -> (fields: Vec<Vec<u8>>)
    ensures
        bytes_view(fields@) == nul_fields(bytes@),
{
    let mut fields: Vec<Vec<u8>> = Vec::new();
    let mut cur: Vec<u8> = Vec::new();
    let mut i: usize = 0;
    proof {
        let none = bytes@.subrange(0, 0);
        assert(none =~= Seq::empty());
        assert(bytes_view(fields@).push(cur@) =~= nul_fields(none));
    }
    while i < bytes.len()
        invariant
            i <= bytes@.len(),
            bytes_view(fields@).push(cur@) == nul_fields(bytes@.subrange(0, i as int)),
        decreases bytes@.len() - i,
    {
        let b: u8 = bytes[i];
        let ghost now = bytes@.subrange(0, i + 1);
        let ghost before = bytes_view(fields@);
        let ghost field = cur@;
        assert(now.drop_last() =~= bytes@.subrange(0, i as int));
        assert(now.last() == b);
        if b == 0 {
            fields.push(cur);
            cur = Vec::new();
            assert(bytes_view(fields@) =~= before.push(field));
            assert(bytes_view(fields@).push(cur@) =~= nul_fields(now));
        } else {
            cur.push(b);
            assert(before.push(field).drop_last() =~= before);
            assert(bytes_view(fields@).push(cur@) =~= nul_fields(now));
        }
        i = i + 1;
    }
    assert(bytes@.subrange(0, i as int) =~= bytes@);
    let ghost before = bytes_view(fields@);
    let ghost field = cur@;
    fields.push(cur);
    assert(bytes_view(fields@) =~= before.push(field));
    fields
}

fn sif_field(fields: &Vec<Vec<u8>>, n: usize, Ghost(sif): Ghost<Seq<u8>>) -> (s: String)
    requires
        bytes_view(fields@) == nul_fields(sif),
    ensures
        s@ == field_at(sif, n as int),
{
    if n < fields.len() {
        assert(bytes_view(fields@)[n as int] == fields@[n as int]@);
        match utf8_text(fields[n].as_slice()) {
            Some(text) => {
                return text.to_owned();
            },
            None => {},
        }
    }
    let s = String::new();
    assert(s@ =~= Seq::empty());
    s
}

/// Populate `song.title` / `song.artist` from an Ultramix `.sif` file.
///
/// The SIF is a sequence of null-terminated ASCII strings at fixed
/// indices:
///   [0] empty leader, [1] short_id, [2] title, [3] subtitle, [4] artist.
/// When a subtitle is present it's appended to the title with a space.
pub fn apply_sif(song: &mut Song, sif: &[u8])
    ensures
        final(song)@ == sif_applied(old(song)@, sif@),
{
    let ghost before = song@;
    let fields = split_nul(sif);
    let title = sif_field(&fields, 2, Ghost(sif@));
    let subtitle = sif_field(&fields, 3, Ghost(sif@));
    let artist = sif_field(&fields, 4, Ghost(sif@));
    if !title.as_str().is_empty() {
        song.title = if subtitle.as_str().is_empty() {
            Some(title)
        } else {
            Some(title.concat(" ").concat(subtitle.as_str()))
        };
    }
    if !artist.as_str().is_empty() {
        song.artist = Some(artist);
    }
    assert(song@ =~= sif_applied(before, sif@));
}

/// The song with the metadata of its SIF file, where there is one.
pub open spec fn sif_maybe_applied(song: SongView, sif: Option<&[u8]>) -> SongView {
    match sif {
        Some(bytes) => sif_applied(song, bytes@),
        None => song,
    }
}

/// What becomes of a legacy song.
pub open spec fn legacy_to_sm5_outcome(
    chart: Seq<u8>,
    audio: Seq<u8>,
    sif: Option<&[u8]>,
    ms: i32,
) -> Result<(Seq<char>, (Seq<i16>, u32, u16)), ErrorView> {
    match legacy_chart_outcome(chart, ms) {
        Err(e) => Err(e),
        Ok(v) => match legacy_audio_outcome(audio) {
            Err(e) => Err(e),
            Ok(pcm) => match sm5_chart_outcome(
                SongView { audio: pcm, ..sif_maybe_applied(song_of(v), sif) },
            ) {
                Err(e) => Err(e),
                Ok(text) => Ok((text, pcm)),
            },
        },
    }
}

/// Convert a legacy song: SSQ to SSC, XWB or WAVM to PCM. `sif` is the
/// song's info file, where it has one.
pub fn legacy_to_sm5(
    chart_bytes: &[u8],
    audio_bytes: &[u8],
    sif: Option<&[u8]>,
    sync_offset_ms: i32,
) -> (r: Result<Sm5Files, Error>)
    ensures
        match legacy_to_sm5_outcome(chart_bytes@, audio_bytes@, sif, sync_offset_ms) {
            Ok((text, pcm)) => r is Ok && r->Ok_0.ssc@ == text && audio_view(r->Ok_0.audio) == pcm
                && r->Ok_0.aux_chunks_dropped@ == left_out(chart_bytes@),
            Err(e) => r is Err && r->Err_0@ == e,
        },
{
    let result = match legacy_chart(chart_bytes, sync_offset_ms) {
        Ok(result) => result,
        Err(e) => {
            return Err(e);
        },
    };
    proof {
        lemma_bare_song(result);
    }
    let aux_chunks_dropped = result.aux_chunks_dropped;
    let mut song = result.song;
    match sif {
        Some(bytes) => {
            apply_sif(&mut song, bytes);
        },
        None => {},
    }
    let ghost before = song@;
    let audio = match decode_legacy_audio(audio_bytes) {
        Ok(audio) => audio,
        Err(e) => {
            return Err(e);
        },
    };
    song.audio = copy_audio(&audio);
    assert(song@ =~= SongView { audio: audio_view(audio), ..before });
    match sm5_chart(song) {
        Ok(ssc) => Ok(Sm5Files { ssc, audio, aux_chunks_dropped }),
        Err(e) => Err(e),
    }
}

/// Whether a chart is an SM file, by its extension.
pub open spec fn names_sm(path: Seq<char>) -> bool {
    match file_name_of(path) {
        None => false,
        Some(name) => match extension_of(name) {
            None => false,
            Some(e) => lower(e) == "sm"@,
        },
    }
}

/// Whether a chart is an SM file, by its extension.
pub fn is_sm_path(path: &str) -> (b: bool)
    ensures
        b == names_sm(path@),
{
    match file_name(path) {
        Some(name) => match extension(&name) {
            Some(e) => reads(&to_lower(&e), "sm"),
            None => false,
        },
        None => false,
    }
}

/// The song of a simfile, SM or SSC.
pub open spec fn simfile_outcome(text: Seq<char>, is_sm: bool) -> Result<SongView, ErrorView> {
    if is_sm {
        match sm_outcome(text) {
            Ok(song) => Ok(song),
            Err(e) => Err(ErrorView::Sm(e)),
        }
    } else {
        match ssc_outcome(text) {
            Ok(song) => Ok(song),
            Err(e) => Err(ErrorView::Ssc(e)),
        }
    }
}

/// The song of a simfile, for a stepfile: with the sign that the model gives the
/// offset, and moved to the sync asked for.
pub open spec fn sm5_song_outcome(text: Seq<char>, is_sm: bool, ms: i32) -> Result<
    SongView,
    ErrorView,
> {
    match simfile_outcome(text, is_sm) {
        Err(e) => Err(e),
        Ok(song) => match sub_value((0, 1), song.audio_sync_offset_seconds@) {
            None => Err(
                ErrorView::Ssq(SsqErrorView::Write("sync offset: "@ + "arithmetic overflow"@)),
            ),
            Some(q) => Ok(
                SongView {
                    audio_sync_offset_seconds: offset_moved(Rational::of(q), ms),
                    tps: 1000,
                    ..song
                },
            ),
        },
    }
}

/// Read a simfile for conversion to DDR.
pub fn sm5_song(chart_text: &str, is_sm: bool, sync_offset_ms: i32) -> (r: Result<Song, Error>)
    ensures
        match sm5_song_outcome(chart_text@, is_sm, sync_offset_ms) {
            Ok(song) => r is Ok && r->Ok_0@ == song,
            Err(e) => r is Err && r->Err_0@ == e,
        },
{
    broadcast use group_model_values;

    let mut song = if is_sm {
        match sm::parse(chart_text) {
            Ok(song) => song,
            Err(e) => {
                return Err(Error::Sm(e));
            },
        }
    } else {
        match ssc::parse(chart_text) {
            Ok(song) => song,
            Err(e) => {
                return Err(Error::Ssc(e));
            },
        }
    };
    let ghost before = song@;
    match Rational::zero().sub(&song.audio_sync_offset_seconds) {
        Ok(q) => {
            song.audio_sync_offset_seconds = add_milliseconds(q, sync_offset_ms);
        },
        Err(e) => {
            return Err(
                Error::Ssq(
                    SsqError::Write("sync offset: ".to_owned().concat(e.message().as_str())),
                ),
            );
        },
    }
    song.tps = 1000;
    assert(song@ =~= SongView {
        audio_sync_offset_seconds: song.audio_sync_offset_seconds,
        tps: 1000,
        ..before
    });
    Ok(song)
}

/// The stepfile of a song that comes from a simfile.
pub open spec fn sm5_to_ddr_chart_outcome(song: SongView) -> Result<Seq<u8>, ErrorView> {
    if end_tick_of(song.charts) > i32::MAX {
        Err(ErrorView::Job(JobError::ChartTooLong))
    } else {
        match synthesized(
            song.tempo_segments,
            song.stops,
            song.audio_sync_offset_seconds@,
            Some(tick_beat(end_tick_of(song.charts))),
        ) {
            Err(e) => Err(ErrorView::Ssq(e)),
            Ok(pairs) => match ssq_file(
                song,
                canonical_events(closing_tick(song.charts, pairs)),
                closing_pairs(song.charts, pairs),
            ) {
                Ok(bytes) => Ok(bytes),
                Err(e) => Err(ErrorView::Ssq(e)),
            },
        }
    }
}

/// Write a song as SSQ, with tempo entries from its semantic view and the
/// trailing entry exactly where END goes. Two things depend on that
/// trailing entry: it is what makes the final `#BPMS` entry's tempo derivable
/// at all (SSQ encodes BPM as the slope between consecutive entries), and it
/// brackets FINISH between two TIMING entries.
pub fn sm5_to_ddr_chart(song: &Song) -> (r: Result<Vec<u8>, Error>)
    ensures
        match sm5_to_ddr_chart_outcome(song@) {
            Ok(bytes) => r is Ok && r->Ok_0@ == bytes,
            Err(e) => r is Err && r->Err_0@ == e,
        },
{
    broadcast use group_model_values;

    if !end_tick_fits(song) {
        return Err(Error::Job(JobError::ChartTooLong));
    }
    let end_tick: i32 = chart_end_tick(song);
    let end_beat = match Beat::from_measure_ticks(end_tick as i64) {
        Ok(beat) => beat,
        Err(e) => {
            return Err(
                Error::Ssq(SsqError::Write("end beat: ".to_owned().concat(e.message().as_str()))),
            );
        },
    };
    let initial = match synthesize_tempo_entries_until(song, Some(end_beat)) {
        Ok(pairs) => pairs,
        Err(e) => {
            return Err(Error::Ssq(e));
        },
    };
    let (events, pairs) = synthesize_events(song, initial.as_slice());
    let mut out: Vec<u8> = Vec::new();
    match writer::write(song, events.as_slice(), pairs.as_slice(), &mut out) {
        Ok(()) => {
            assert(out@ =~= ssq_file(song@, events@, pairs@)->Ok_0);
            Ok(out)
        },
        Err(e) => Err(Error::Ssq(e)),
    }
}

/// What is to be said of a stepfile; of a legacy one also why it is not modernized.
pub open spec fn chart_notices(chart: Seq<u8>, legacy: bool) -> Seq<Seq<char>> {
    match ssq_outcome(chart) {
        Ok(v) => match modernize_problem(v) {
            Some(text) => if legacy {
                file_warnings(chart).push(text)
            } else {
                file_warnings(chart)
            },
            None => file_warnings(chart),
        },
        Err(_) => file_warnings(chart),
    }
}

/// Say what a stepfile holds that is dropped or mended, and of a legacy one why it is
/// not modernized, if it is not.
pub fn chart_warnings(chart_bytes: &[u8], legacy: bool) -> (out: Vec<String>)
    ensures
        strings_view(out@) == chart_notices(chart_bytes@, legacy),
{
    let mut out = warnings(chart_bytes);
    if legacy {
        match ssq::parse(chart_bytes) {
            Ok(result) => match modernize_warning(&result) {
                Some(text) => {
                    let ghost before = out@;
                    out.push(text.to_owned());
                    assert(strings_view(out@) =~= strings_view(before).push(text@));
                },
                None => {},
            },
            Err(_) => {},
        }
    }
    out
}

} // verus!

//! Audio of converted songs: decoding legacy sources, and building the wave
//! bank and sound bank of a DDR song.

use super::JobError;
use crate::error::{Error, ErrorView, XsbErrorView};
use crate::model::audio::audio_view;
use crate::model::AudioBuffer;
use crate::wavm::{self, wavm_outcome};
use crate::xsb::{self, ascii_bytes, song_view, valid_code, xsb_file};
use crate::xwb::adpcm::encode::{block_count, encode, encoded};
use crate::xwb::adpcm::round_trip::law_encode_then_decode;
use crate::xwb::audio_outcome;
use crate::xwb::container::{
    align_of, bank_file, bank_size, block_frames, block_size, channels_of, data_start, entries_view,
    law_rounded_up, low32, names_end, rate_of, rounded_up, BankView, EntryView, WaveFormat, XwbBank,
    XwbEntry,
};
use crate::xwb::{self, container::xwb_outcome};
use vstd::prelude::*;
use vstd::string::StringExecFns;
use vstd::utf8::encode_utf8;

verus! {

/// Sample rates accepted for DDR World song wave banks. The XWB entry
/// header carries the rate (18-bit field), and the game's audio engine
/// (`xactengine2_10`) reads it per wave and sample-rate-converts into its
/// fixed 44.1 kHz mix buffer. Stock content is 44.1 kHz; 48 kHz is the other
/// rate StepMania packs commonly ship at. Anything else is almost certainly a
/// mistake (a downsampled preview, a voice clip) and is refused.
pub open spec fn accepted_rate(rate: u32) -> bool {
    rate == 44_100 || rate == 48_000
}

/// The packed descriptor of DDR song audio: ADPCM, two channels, raw alignment
/// 48, at the given sample rate.
pub open spec fn ddr_bits(rate: u32) -> u32 {
    2u32 | (2u32 << 2u32) | (rate << 5u32) | (48u32 << 23u32)
}

/// The fields of the descriptor, for a rate that fits its field.
pub proof fn lemma_ddr_bits(rate: u32)
    requires
        rate < 0x4_0000,
    ensures
        ddr_bits(rate) == 2 + 4 * 2 + 32 * rate + 0x80_0000 * 48,
        ddr_bits(rate) as int % 4 == 2,
        channels_of(ddr_bits(rate)) == 2,
        rate_of(ddr_bits(rate)) == rate,
        align_of(ddr_bits(rate)) == 48,
        block_size(ddr_bits(rate)) == 140,
        block_frames(ddr_bits(rate)) == 128,
{
    assert((2u32 | (2u32 << 2u32) | (rate << 5u32) | (48u32 << 23u32)) == 10 + rate * 32
        + 402653184) by (bit_vector)
        requires
            rate < 0x4_0000,
    ;
}

/// What is wrong with PCM for a DDR song bank, if anything.
pub open spec fn ddr_audio_problem(rate: u32, channels: u16) -> Option<JobError> {
    if !accepted_rate(rate) {
        Some(JobError::UnsupportedSampleRate { sample_rate: rate })
    } else if channels != 2 {
        Some(JobError::WrongChannelCount { channels })
    } else {
        None
    }
}

pub open spec fn least(a: int, b: int) -> int {
    if a < b {
        a
    } else {
        b
    }
}

/// The samples of `length` frames from frame `start` on, as far as there are any.
pub open spec fn frames_slice(samples: Seq<i16>, channels: int, start: int, length: int) -> Seq<
    i16,
> {
    let total = samples.len() as int / channels;
    let from = least(start, total);
    let to = least(from + length, total);
    samples.subrange(from * channels, to * channels)
}

/// The preview of an audio buffer: empty for a buffer without channels or rate.
pub open spec fn preview_of(
    audio: (Seq<i16>, u32, u16),
    start_frame: int,
    length_frames: int,
) -> Seq<i16> {
    if audio.2 == 0 || audio.1 == 0 {
        Seq::empty()
    } else {
        frames_slice(audio.0, audio.2 as int, start_frame, length_frames)
    }
}

/// A name in a field of `size` bytes, zeros behind it.
pub open spec fn name_field(name: Seq<u8>, size: nat) -> Seq<u8> {
    Seq::new(
        size,
        |i: int|
            if i < name.len() {
                name[i]
            } else {
                0
            },
    )
}

/// The number of frames in encoded data.
pub open spec fn data_frames(length: int, format: u32) -> int {
    if block_size(format) == 0 {
        0
    } else {
        length / block_size(format) * block_frames(format)
    }
}

/// A wave entry of a song bank.
pub open spec fn song_entry(name: Seq<char>, format: WaveFormat, data: Seq<u8>) -> EntryView {
    let frames = data_frames(data.len() as int, format@);
    EntryView {
        flags_and_duration: low32(frames) << 4u32,
        format,
        data,
        loop_start: 0,
        loop_length: low32(
            if frames == 0 {
                0
            } else {
                frames - 1
            },
        ),
        name_bytes: name_field(encode_utf8(name), 64),
    }
}

/// The wave bank of a song: the preview, then the song itself.
pub open spec fn song_bank(
    code: Seq<char>,
    format: WaveFormat,
    main_data: Seq<u8>,
    preview_data: Seq<u8>,
) -> BankView {
    BankView {
        header_version: 42,
        flags: 0x0009_0001,
        name: name_field(encode_utf8(code), 64),
        entry_name_element_size: 64,
        alignment: 2048,
        compact_format: 0,
        build_time: 0,
        entries: seq![
            song_entry(code + "_s"@, format, preview_data),
            song_entry(code, format, main_data),
        ],
    }
}

/// The wave bank and the sound bank of a song.
pub open spec fn ddr_audio_outcome(
    audio: (Seq<i16>, u32, u16),
    start_frame: int,
    length_frames: int,
    code: Seq<char>,
) -> Result<(Seq<u8>, Seq<u8>), ErrorView> {
    match ddr_audio_problem(audio.1, audio.2) {
        Some(e) => Err(ErrorView::Job(e)),
        None => if audio.0.len() > usize::MAX / 4 {
            Err(ErrorView::Job(JobError::AudioTooLong { samples: audio.0.len() as usize }))
        } else if !valid_code(code) {
            Err(ErrorView::Xsb(XsbErrorView::BadCode { code }))
        } else {
            let bits = ddr_bits(audio.1);
            Ok(
                (
                    bank_file(
                        song_bank(
                            code,
                            WaveFormat::of(bits),
                            encoded(audio.0, bits),
                            encoded(preview_of(audio, start_frame, length_frames), bits),
                        ),
                    ),
                    xsb_file(song_view(), ascii_bytes(code)),
                ),
            )
        },
    }
}

/// Whether bytes start like a wave bank.
pub open spec fn has_xwb_magic(bytes: Seq<u8>) -> bool {
    bytes.len() >= 4 && bytes.subrange(0, 4) == seq![0x57u8, 0x42u8, 0x4Eu8, 0x44u8]
}

/// The audio of a legacy song: a wave bank if it starts like one, else WAVM.
pub open spec fn legacy_audio_outcome(bytes: Seq<u8>) -> Result<
    (Seq<i16>, u32, u16),
    ErrorView,
> {
    if has_xwb_magic(bytes) {
        match audio_outcome(bytes) {
            Ok(audio) => Ok(audio),
            Err(e) => Err(ErrorView::Xwb(e)),
        }
    } else {
        match wavm_outcome(bytes) {
            Ok(audio) => Ok(audio),
            Err(e) => Err(ErrorView::Wavm(e)),
        }
    }
}

/// Whether a descriptor is one that would be written for a song.
pub open spec fn is_ddr_format(format: WaveFormat) -> bool {
    accepted_rate(rate_of(format@) as u32) && format@ == ddr_bits(rate_of(format@) as u32)
}

/// Whether audio can be used for a song as it is: a wave bank with two entries,
/// both in the format that would be written, next to its sound bank.
pub open spec fn passes_through(bytes: Seq<u8>, has_sound_bank: bool) -> bool {
    has_xwb_magic(bytes) && has_sound_bank && match xwb_outcome(bytes) {
        Err(_) => false,
        Ok(bank) => bank.entries.len() == 2 && is_ddr_format(bank.entries[0].format)
            && is_ddr_format(bank.entries[1].format),
    }
}

/// DDR-format WaveFormat: ADPCM, 2ch, raw_align=48, at the given sample
/// rate. Only the rate varies; codec, layout, and block alignment are the
/// fixed profile DDR's authoring tool emits.
pub fn ddr_wave_format(sample_rate: u32) -> (f: WaveFormat)
    ensures
        f@ == ddr_bits(sample_rate),
        sample_rate < 0x4_0000 ==> f@ as int % 4 == 2 && channels_of(f@) == 2 && rate_of(f@)
            == sample_rate && align_of(f@) == 48,
{
    proof {
        if sample_rate < 0x4_0000 {
            lemma_ddr_bits(sample_rate);
        }
    }
    WaveFormat::from_packed(2u32 | (2u32 << 2u32) | (sample_rate << 5u32) | (48u32 << 23u32))
}

/// Whether a wave-format sample rate is one this tool will put in a DDR
/// song bank.
pub fn is_accepted_ddr_rate(sample_rate: u32) -> (b: bool)
    ensures
        b == accepted_rate(sample_rate),
{
    sample_rate == 44_100 || sample_rate == 48_000
}

/// Reject PCM whose rate or layout can't be encoded into a DDR song bank.
/// The check exists to refuse inputs that are almost certainly wrong and to
/// keep the channel layout the ADPCM encoder assumes.
pub fn validate_ddr_audio(audio: &AudioBuffer) -> (r: Result<(), JobError>)
    ensures
        match ddr_audio_problem(audio.sample_rate, audio.channels) {
            None => r is Ok,
            Some(e) => r is Err && r->Err_0 == e,
        },
{
    if !is_accepted_ddr_rate(audio.sample_rate) {
        return Err(JobError::UnsupportedSampleRate { sample_rate: audio.sample_rate });
    }
    if audio.channels != 2 {
        return Err(JobError::WrongChannelCount { channels: audio.channels });
    }
    Ok(())
}

fn smaller(a: usize, b: usize) -> (m: usize)
    ensures
        m == least(a as int, b as int),
{
    if a < b {
        a
    } else {
        b
    }
}

/// Extract the preview slice from the audio buffer as interleaved PCM.
pub fn slice_preview(audio: &AudioBuffer, start_frame: usize, length_frames: usize) -> (pcm: Vec<
    i16,
>)
    ensures
        pcm@ == preview_of(audio_view(*audio), start_frame as int, length_frames as int),
{
    let mut pcm: Vec<i16> = Vec::new();
    let ch: usize = audio.channels as usize;
    if ch == 0 || audio.sample_rate == 0 {
        assert(pcm@ =~= Seq::empty());
        return pcm;
    }
    let len: usize = audio.samples.len();
    let total: usize = len / ch;
    let from: usize = smaller(start_frame, total);
    let to: usize = smaller(from.saturating_add(length_frames), total);
    proof {
        assert(total * ch <= len) by (nonlinear_arith)
            requires
                total == len as int / ch as int,
                ch > 0,
        ;
        assert(0 <= from * ch <= to * ch <= total * ch) by (nonlinear_arith)
            requires
                0 <= from <= to <= total,
                ch > 0,
        ;
    }
    let end: usize = to * ch;
    let mut i: usize = from * ch;
    let ghost begin = i;
    while i < end
        invariant
            begin <= i <= end <= audio.samples@.len(),
            pcm@ =~= audio.samples@.subrange(begin as int, i as int),
        decreases end - i,
    {
        pcm.push(audio.samples[i]);
        i = i + 1;
    }
    pcm
}

fn name_bytes(name: &str) -> (field: Vec<u8>)
    ensures
        field@ == name_field(encode_utf8(name@), 64),
{
    let bytes = name.as_bytes();
    let mut field: Vec<u8> = Vec::new();
    while field.len() < 64
        invariant
            bytes@ == encode_utf8(name@),
            field@.len() <= 64,
            field@ =~= name_field(bytes@, field@.len()),
        decreases 64 - field@.len(),
    {
        let i: usize = field.len();
        if i < bytes.len() {
            field.push(bytes[i]);
        } else {
            field.push(0);
        }
    }
    field
}

/// Copy `name` into a wave bank's fixed 64-byte name field.
pub fn fixed_name(name: &str) -> (field: [u8; 64])
    ensures
        field@ == name_field(encode_utf8(name@), 64),
{
    let bytes = name.as_bytes();
    let mut field = [0u8; 64];
    let mut i: usize = 0;
    while i < 64 && i < bytes.len()
        invariant
            i <= 64,
            i <= bytes@.len(),
            bytes@ == encode_utf8(name@),
            forall|k: int|
                0 <= k < 64 ==> #[trigger] field@[k] == (if k < i {
                    bytes@[k]
                } else {
                    0
                }),
        decreases 64 - i,
    {
        field[i] = bytes[i];
        i = i + 1;
    }
    assert(field@ =~= name_field(encode_utf8(name@), 64));
    field
}

fn low_word(n: u128) -> (w: u32)
    ensures
        w == low32(n as int),
{
    (n % 0x1_0000_0000) as u32
}

fn make_entry(name: &str, format: WaveFormat, data: Vec<u8>) -> (e: XwbEntry)
    ensures
        e@ == song_entry(name@, format, data@),
{
    let size: u128 = format.block_align() as u128;
    let per_block: u128 = format.samples_per_block() as u128;
    let len: u128 = data.len() as u128;
    let frames: u128 = if size == 0 {
        0
    } else {
        proof {
            lemma_frames_fit(len as int, format@);
        }
        (len / size) * per_block
    };
    let last: u128 = if frames == 0 {
        0
    } else {
        frames - 1
    };
    XwbEntry {
        flags_and_duration: low_word(frames) << 4u32,
        format,
        data,
        loop_start: 0,
        loop_length: low_word(last),
        name_bytes: name_bytes(name),
    }
}

/// Encoded data takes at least a byte for two frames.
proof fn lemma_frames_fit(length: int, format: u32)
    requires
        length >= 0,
        block_size(format) > 0,
    ensures
        0 <= (length / block_size(format)) * block_frames(format) <= 2 * length,
{
    let ch = channels_of(format);
    let raw = align_of(format);
    assert(ch > 0) by (nonlinear_arith)
        requires
            (raw + 22) * ch > 0,
            raw >= 0,
    ;
    let size = block_size(format);
    let frames = block_frames(format);
    assert(frames <= 2 * size) by (nonlinear_arith)
        requires
            size == (raw + 22) * ch,
            frames == (raw + 15) * 2 + 2,
            ch >= 1,
            raw >= 0,
    ;
    let n = length / size;
    assert(0 <= n && n * size <= length) by (nonlinear_arith)
        requires
            n == length / size,
            size > 0,
            length >= 0,
    ;
    assert(0 <= n * frames <= 2 * length) by (nonlinear_arith)
        requires
            n >= 0,
            0 <= frames <= 2 * size,
            n * size <= length,
    ;
}

/// Build a DDR-compatible XwbBank with main + preview entries.
pub fn build_xwb_bank(
    code: &str,
    fmt: &WaveFormat,
    main_data: Vec<u8>,
    preview_data: Vec<u8>,
) -> (bank: XwbBank)
    ensures
        bank@ == song_bank(code@, *fmt, main_data@, preview_data@),
{
    let preview_name = code.to_owned().concat("_s");
    let preview = make_entry(preview_name.as_str(), *fmt, preview_data);
    let main = make_entry(code, *fmt, main_data);
    let ghost views = seq![preview@, main@];
    let entries = vec![preview, main];
    assert(entries_view(entries@) =~= views);
    XwbBank {
        header_version: 42,
        flags: 0x0009_0001,
        name: fixed_name(code),
        entry_name_element_size: 64,
        alignment: 2048,
        compact_format: 0,
        build_time: 0,
        entries,
    }
}

/// The size of a bank of two entries.
proof fn lemma_song_bank_size(bank: BankView)
    requires
        bank.entries.len() == 2,
        bank.entry_name_element_size == 64,
        bank.alignment == 2048,
    ensures
        bank_size(bank) <= 8192 + bank.entries[0].data.len() + bank.entries[1].data.len(),
{
    let e = bank.entries;
    law_rounded_up(names_end(bank), 2048);
    law_rounded_up(data_start(e, 2048, 0) + e[0].data.len(), 2048);
    assert(data_start(e, 2048, 1) == rounded_up(
        data_start(e, 2048, 0) + e[0].data.len(),
        2048,
    ));
}

/// The size of encoded stereo PCM.
proof fn lemma_encoded_size(samples: Seq<i16>, bits: u32)
    requires
        channels_of(bits) == 2,
        block_size(bits) == 140,
        block_frames(bits) == 128,
    ensures
        encoded(samples, bits).len() <= samples.len() + 140,
{
    law_encode_then_decode(samples, bits);
    assert(block_count(samples, bits) == (samples.len() as int / 2 + 127) / 128);
}

/// Encode audio + preview and build XWB + XSB: the wave bank and the sound
/// bank, in this order.
pub fn ddr_audio_files(
    audio: &AudioBuffer,
    start_frame: usize,
    length_frames: usize,
    code: &str,
) -> (r: Result<(Vec<u8>, Vec<u8>), Error>)
    ensures
        match ddr_audio_outcome(
            audio_view(*audio),
            start_frame as int,
            length_frames as int,
            code@,
        ) {
            Ok((xwb, xsb)) => r is Ok && (r->Ok_0).0@ == xwb && (r->Ok_0).1@ == xsb,
            Err(e) => r is Err && r->Err_0@ == e,
        },
{
    broadcast use {WaveFormat::lemma_of_view, WaveFormat::lemma_view_of};

    match validate_ddr_audio(audio) {
        Ok(()) => {},
        Err(e) => {
            return Err(Error::Job(e));
        },
    }
    if audio.samples.len() > usize::MAX / 4 {
        return Err(Error::Job(JobError::AudioTooLong { samples: audio.samples.len() }));
    }
    let mut xsb_out: Vec<u8> = Vec::new();
    match xsb::write(code, &mut xsb_out) {
        Ok(()) => {},
        Err(e) => {
            return Err(Error::Xsb(e));
        },
    }
    assert(xsb_out@ =~= xsb_file(song_view(), ascii_bytes(code@)));
    let fmt = ddr_wave_format(audio.sample_rate);
    // Encode main audio.
    let main_adpcm = match encode(audio.samples.as_slice(), &fmt) {
        Ok(data) => data,
        Err(e) => {
            return Err(Error::Adpcm(e));
        },
    };
    // Slice and encode preview.
    let preview_pcm = slice_preview(audio, start_frame, length_frames);
    let preview_adpcm = match encode(preview_pcm.as_slice(), &fmt) {
        Ok(data) => data,
        Err(e) => {
            return Err(Error::Adpcm(e));
        },
    };
    let ghost bits = ddr_bits(audio.sample_rate);
    proof {
        lemma_ddr_bits(audio.sample_rate);
        lemma_encoded_size(audio.samples@, bits);
        lemma_encoded_size(preview_pcm@, bits);
        lemma_slice_len(audio_view(*audio), start_frame as int, length_frames as int);
    }
    // Build XWB bank.
    let bank = build_xwb_bank(code, &fmt, main_adpcm, preview_adpcm);
    proof {
        lemma_song_bank_size(bank@);
    }
    let mut xwb_out: Vec<u8> = Vec::new();
    match xwb::write(&bank, &mut xwb_out) {
        Ok(()) => {},
        Err(e) => {
            return Err(Error::Xwb(e));
        },
    }
    assert(xwb_out@ =~= bank_file(bank@));
    Ok((xwb_out, xsb_out))
}

/// The preview is no longer than the audio.
proof fn lemma_slice_len(audio: (Seq<i16>, u32, u16), start_frame: int, length_frames: int)
    requires
        start_frame >= 0,
        length_frames >= 0,
    ensures
        preview_of(audio, start_frame, length_frames).len() <= audio.0.len(),
{
    if audio.2 != 0 && audio.1 != 0 {
        let ch = audio.2 as int;
        let len = audio.0.len() as int;
        let total = len / ch;
        let from = least(start_frame, total);
        let to = least(from + length_frames, total);
        assert(0 <= from <= to <= total);
        assert(0 <= from * ch <= to * ch <= len) by (nonlinear_arith)
            requires
                0 <= from <= to <= total,
                total == len / ch,
                ch > 0,
                len >= 0,
        ;
    }
}

/// Whether bytes start with the `WBND` magic.
fn starts_like_xwb(bytes: &[u8]) -> (b: bool)
    ensures
        b == has_xwb_magic(bytes@),
{
    if bytes.len() < 4 {
        return false;
    }
    assert(bytes@.subrange(0, 4) =~= seq![bytes@[0], bytes@[1], bytes@[2], bytes@[3]]);
    let b = bytes[0] == 0x57 && bytes[1] == 0x42 && bytes[2] == 0x4E && bytes[3] == 0x44;
    proof {
        let magic = seq![0x57u8, 0x42u8, 0x4Eu8, 0x44u8];
        if b {
            assert(bytes@.subrange(0, 4) =~= magic);
        } else {
            assert(magic[0] == 0x57 && magic[1] == 0x42 && magic[2] == 0x4E && magic[3] == 0x44);
            assert(bytes@.subrange(0, 4)[0] == bytes@[0]);
            assert(bytes@.subrange(0, 4)[1] == bytes@[1]);
            assert(bytes@.subrange(0, 4)[2] == bytes@[2]);
            assert(bytes@.subrange(0, 4)[3] == bytes@[3]);
        }
    }
    b
}

/// Detect and decode legacy audio (XWB or WAVM) by header inspection.
pub fn decode_legacy_audio(bytes: &[u8]) -> (r: Result<AudioBuffer, Error>)
    ensures
        match legacy_audio_outcome(bytes@) {
            Ok(audio) => r is Ok && audio_view(r->Ok_0) == audio,
            Err(e) => r is Err && r->Err_0@ == e,
        },
{
    // Try XWB first (has "WBND" magic).
    if starts_like_xwb(bytes) {
        return match xwb::parse_audio(bytes) {
            Ok(audio) => Ok(audio),
            Err(e) => Err(Error::Xwb(e)),
        };
    }
    // Fall back to WAVM (headerless XBOX-IMA).

    match wavm::parse(bytes) {
        Ok(audio) => Ok(audio),
        Err(e) => Err(Error::Wavm(e)),
    }
}

fn is_ddr_entry(entry: &XwbEntry) -> (b: bool)
    ensures
        b == is_ddr_format(entry.format),
{
    let rate: u32 = entry.format.sample_rate();
    is_accepted_ddr_rate(rate) && entry.format.packed() == ddr_wave_format(rate).packed()
}

/// Whether XWB+XSB can be byte-copied because the source audio is already
/// DDR-compliant. `has_sound_bank` says whether the sibling XSB exists.
///
/// Both entries must be DDR-profile ADPCM at an accepted rate: the
/// codec/layout/alignment must equal what would be written for
/// that rate, so anything the encoder wouldn't produce is re-encoded.
pub fn can_pass_through(audio_bytes: &[u8], has_sound_bank: bool) -> (b: bool)
    ensures
        b == passes_through(audio_bytes@, has_sound_bank),
{
    // Must be XWB (not WAVM).
    if !starts_like_xwb(audio_bytes) || !has_sound_bank {
        return false;
    }
    // Parse container to check compliance.

    let bank = match xwb::parse(audio_bytes) {
        Ok(b) => b,
        Err(_) => {
            return false;
        },
    };
    // Must have exactly 2 entries.
    if bank.entries.len() != 2 {
        return false;
    }
    assert(bank@.entries[0].format == bank.entries@[0].format);
    assert(bank@.entries[1].format == bank.entries@[1].format);
    is_ddr_entry(&bank.entries[0]) && is_ddr_entry(&bank.entries[1])
}

} // verus!

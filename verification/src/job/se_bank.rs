//! Sound-effect bank-pair generator.
//!
//! Turns one short audio file into the XACT wave-bank + sound-bank pair a mod
//! can hand straight to DDR World's XACT 2 engine via
//! `IXACT2Engine::CreateInMemoryWaveBank` + `CreateSoundBank`, and play by cue
//! name.
//!
//! # Why these constants and not others
//!
//! The engine validates an in-memory wave bank strictly and, for the sound
//! bank, *silently* rejects a bad CRC — audio simply goes dark with no error.
//! Every field below is therefore either a hard requirement of the engine's
//! validator or a value copied from the game's own shipped banks:
//!
//! - **MS-ADPCM, mono, 44100 Hz, `block_align_raw` 48.** Every wave entry in
//!   every DDR wave bank on disk is MS-ADPCM.
//! - **`TYPE_BUFFER`** (flags bit 0 clear). The bank-type bit is a hard gate in
//!   both directions: `CreateInMemoryWaveBank` rejects a streaming bank and the
//!   file-backed path rejects a buffer bank.
//! - **`header_version` 42** and **`entry_name_element_size` 64** are checked
//!   unconditionally, the latter even when no entry names are used.
//! - **`build_time` 0**, so that generation is reproducible. The engine never
//!   validates it.
//!
//! Input must already be mono 44100 Hz; this module will not resample or
//! downmix.

use super::audio::{fixed_name, name_field};
use crate::error::{Error, ErrorView, OggErrorView, XsbErrorView};
use crate::model::audio::audio_view;
use crate::model::AudioBuffer;
use crate::ogg::decode::{decode, decode_problem, decoded_count, vorbis_header};
use crate::util::text::{dec, with_number};
use crate::xsb::{self, ascii_bytes, is_valid_code, se_view, valid_code, xsb_file, XsbError};
use crate::xwb::adpcm::encode::{block_count, encode, encoded};
use crate::xwb::adpcm::round_trip::law_encode_then_decode;
use crate::xwb::container::{
    bank_file, bank_size, block_frames, block_size, channels_of, data_start, entries_view,
    law_rounded_up, names_end, BankView, EntryView, WaveFormat, XwbBank, XwbEntry,
};
use crate::xwb::{self};
use vstd::prelude::*;
use vstd::string::StringExecFns;
use vstd::utf8::encode_utf8;

verus! {

/// Packed `WAVEBANKMINIWAVEFORMAT`: MS-ADPCM (codec 2), 1 channel, 44100 Hz,
/// `block_align_raw` 48 — the only codec configuration DDR's authoring tool
/// ever emits. Derived, not stored: `block_align` 70 bytes, 128 samples/block.
pub const SE_FORMAT_BITS: u32 = 2 + 1 * 0x4 + 44_100 * 0x20 + 48 * 0x80_0000;

/// Required channel count of the input.
pub const SE_CHANNELS: u16 = 1;

/// Required sample rate of the input.
pub const SE_SAMPLE_RATE: u32 = 44_100;

/// The most samples whose padded count fits an entry's duration.
pub const SE_MAX_SAMPLES: u64 = 0xFFFF_FF80;

#[derive(Debug, Clone, Copy, PartialEq, Eq, Structural)]
pub enum SeBankError {
    NotMono { channels: u16 },
    WrongSampleRate { sample_rate: u32 },
    NoAudio,
    /// The input has more samples than an entry's duration can count.
    TooLong { samples: usize },
}

impl SeBankError {
    pub open spec fn text(self) -> Seq<char> {
        match self {
            SeBankError::NotMono { channels } => "input must be mono, got "@ + dec(channels as nat)
                + " channels (downmix it yourself — this tool will not do it silently)"@,
            SeBankError::WrongSampleRate { sample_rate } => "input must be 44100 Hz, got "@ + dec(
                sample_rate as nat,
            ) + " Hz (resample it yourself — this tool will not do it silently)"@,
            SeBankError::NoAudio =>
            "input decoded to no samples; a wave bank must contain at least one entry"@,
            SeBankError::TooLong { samples } => "input of "@ + dec(samples as nat)
                + " samples is too long for one entry"@,
        }
    }

    /// The error in words.
    pub fn message(&self) -> (text: String)
        ensures
            text@ == self.text(),
    {
        match self {
            SeBankError::NotMono { channels } => with_number(
                "input must be mono, got ",
                *channels as u128,
                " channels (downmix it yourself — this tool will not do it silently)",
            ),
            SeBankError::WrongSampleRate { sample_rate } => with_number(
                "input must be 44100 Hz, got ",
                *sample_rate as u128,
                " Hz (resample it yourself — this tool will not do it silently)",
            ),
            SeBankError::NoAudio =>
            "input decoded to no samples; a wave bank must contain at least one entry".to_owned(),
            SeBankError::TooLong { samples } => with_number(
                "input of ",
                *samples as u128,
                " samples is too long for one entry",
            ),
        }
    }
}


/// What a successful generation produced.
#[derive(Debug, Clone)]
pub struct SeBankOutput {
    /// File name of the wave bank.
    pub xwb_name: String,
    /// File name of the sound bank.
    pub xsb_name: String,
    /// The wave bank.
    pub xwb: Vec<u8>,
    /// The sound bank.
    pub xsb: Vec<u8>,
    pub xwb_len: usize,
    pub xsb_len: usize,
    /// Samples decoded from the input, before block padding.
    pub source_samples: usize,
    /// Whole ADPCM blocks written.
    pub blocks: usize,
    /// `blocks * 128` — the entry's declared duration and loop length.
    pub total_samples: u32,
}

/// The contents of a `SeBankOutput`.
#[verifier::ext_equal]
pub struct SeBankView {
    pub xwb_name: Seq<char>,
    pub xsb_name: Seq<char>,
    pub xwb: Seq<u8>,
    pub xsb: Seq<u8>,
    pub source_samples: int,
    pub blocks: int,
    pub total_samples: int,
}

impl View for SeBankOutput {
    type V = SeBankView;

    open spec fn view(&self) -> SeBankView {
        SeBankView {
            xwb_name: self.xwb_name@,
            xsb_name: self.xsb_name@,
            xwb: self.xwb@,
            xsb: self.xsb@,
            source_samples: self.source_samples as int,
            blocks: self.blocks as int,
            total_samples: self.total_samples as int,
        }
    }
}

/// The wave bank of a sound effect: one entry, named like the bank.
pub open spec fn se_bank(name: Seq<char>, samples: Seq<i16>) -> BankView {
    let total = (block_count(samples, SE_FORMAT_BITS) * 128) as u32;
    BankView {
        header_version: 42,
        flags: 0x0009_0000,
        name: name_field(encode_utf8(name), 64),
        entry_name_element_size: 64,
        alignment: 4,
        compact_format: 0,
        build_time: 0,
        entries: seq![
            EntryView {
                flags_and_duration: total << 4u32,
                format: WaveFormat::of(SE_FORMAT_BITS),
                data: encoded(samples, SE_FORMAT_BITS),
                loop_start: 0,
                loop_length: total,
                name_bytes: encode_utf8(name),
            },
        ],
    }
}

/// What is wrong with PCM for a sound effect, if anything.
pub open spec fn se_audio_problem(audio: (Seq<i16>, u32, u16)) -> Option<SeBankError> {
    if audio.2 != 1 {
        Some(SeBankError::NotMono { channels: audio.2 })
    } else if audio.1 != 44_100 {
        Some(SeBankError::WrongSampleRate { sample_rate: audio.1 })
    } else if audio.0.len() == 0 {
        Some(SeBankError::NoAudio)
    } else if audio.0.len() > SE_MAX_SAMPLES || audio.0.len() > usize::MAX / 4 {
        Some(SeBankError::TooLong { samples: audio.0.len() as usize })
    } else {
        None
    }
}

/// The bank pair of a sound effect.
pub open spec fn se_outcome(name: Seq<char>, audio: (Seq<i16>, u32, u16)) -> Result<
    SeBankView,
    ErrorView,
> {
    if !valid_code(name) {
        Err(ErrorView::Xsb(XsbErrorView::BadCode { code: name }))
    } else {
        match se_audio_problem(audio) {
            Some(e) => Err(ErrorView::SeBank(e)),
            None => {
                let blocks = block_count(audio.0, SE_FORMAT_BITS);
                Ok(
                    SeBankView {
                        xwb_name: name + ".xwb"@,
                        xsb_name: name + ".xsb"@,
                        xwb: bank_file(se_bank(name, audio.0)),
                        xsb: xsb_file(se_view(), ascii_bytes(name)),
                        source_samples: audio.0.len() as int,
                        blocks,
                        total_samples: blocks * 128,
                    },
                )
            },
        }
    }
}

/// Whether a result is an outcome.
pub open spec fn is_outcome(
    r: Result<SeBankOutput, Error>,
    outcome: Result<SeBankView, ErrorView>,
) -> bool {
    match outcome {
        Ok(v) => r is Ok && r->Ok_0@ == v && r->Ok_0.xwb_len == v.xwb.len() && r->Ok_0.xsb_len
            == v.xsb.len(),
        Err(e) => r is Err && r->Err_0@ == e,
    }
}

/// The layout of the format, and the blocks that samples take up.
pub proof fn lemma_se_format(samples: Seq<i16>)
    ensures
        SE_FORMAT_BITS as int % 4 == 2,
        channels_of(SE_FORMAT_BITS) == 1,
        crate::xwb::container::rate_of(SE_FORMAT_BITS) == 44_100,
        block_size(SE_FORMAT_BITS) == 70,
        block_frames(SE_FORMAT_BITS) == 128,
        block_count(samples, SE_FORMAT_BITS) == (samples.len() as int + 127) / 128,
        encoded(samples, SE_FORMAT_BITS).len() == block_count(samples, SE_FORMAT_BITS) * 70,
{
    law_encode_then_decode(samples, SE_FORMAT_BITS);
    assert(samples.len() as int / 1 == samples.len());
    assert(block_size(SE_FORMAT_BITS) == 70);
    let n = block_count(samples, SE_FORMAT_BITS);
    assert(n * block_size(SE_FORMAT_BITS) == n * 70);
}

pub proof fn lemma_se_bank_size(bank: BankView)
    requires
        bank.entries.len() == 1,
        bank.entry_name_element_size == 64,
        bank.alignment == 4,
    ensures
        bank_size(bank) <= 1024 + bank.entries[0].data.len(),
{
    law_rounded_up(names_end(bank), 4);
    assert(data_start(bank.entries, 4, 0) == 0);
}

/// Build the bank pair of a sound effect from PCM.
///
/// `audio` must be **mono 44100 Hz**; anything else is an error rather
/// than something quietly converted. `name` becomes the wave bank's internal
/// name, both of the sound bank's name fields, the single entry's name, and the
/// single cue's name — the engine matches banks by name and resolves cues with a
/// byte-exact `strcmp`, so its case is significant.
pub fn build(name: &str, audio: &AudioBuffer) -> (r: Result<SeBankOutput, Error>)
    ensures
        is_outcome(r, se_outcome(name@, audio_view(*audio))),
{
    broadcast use {WaveFormat::lemma_of_view, WaveFormat::lemma_view_of};

    // Build the sound bank first: it validates `name`, so an unusable name
    // fails before any audio work.
    let mut xsb_bytes: Vec<u8> = Vec::new();
    match xsb::write_se(name, &mut xsb_bytes) {
        Ok(()) => {},
        Err(e) => {
            return Err(Error::Xsb(e));
        },
    }
    assert(xsb_bytes@ =~= xsb_file(se_view(), ascii_bytes(name@)));
    let len: usize = audio.samples.len();
    if audio.channels != SE_CHANNELS {
        return Err(Error::SeBank(SeBankError::NotMono { channels: audio.channels }));
    }
    if audio.sample_rate != SE_SAMPLE_RATE {
        return Err(
            Error::SeBank(SeBankError::WrongSampleRate { sample_rate: audio.sample_rate }),
        );
    }
    if len == 0 {
        return Err(Error::SeBank(SeBankError::NoAudio));
    }
    if len as u64 > SE_MAX_SAMPLES || len > usize::MAX / 4 {
        return Err(Error::SeBank(SeBankError::TooLong { samples: len }));
    }
    let format = WaveFormat::from_packed(SE_FORMAT_BITS);
    let data = match encode(audio.samples.as_slice(), &format) {
        Ok(data) => data,
        Err(e) => {
            return Err(Error::Adpcm(e));
        },
    };
    proof {
        lemma_se_format(audio.samples@);
    }
    // The encoder pads to whole blocks, so this division is exact.
    let blocks: usize = data.len() / 70;
    let total_samples: u32 = blocks as u32 * 128;
    let ghost coded = data@;
    let entry = XwbEntry {
        // The low nibble is the entry-flags field and must be zero.
        flags_and_duration: total_samples << 4u32,
        format,
        data,
        loop_start: 0,
        // `Duration >= loop_start + loop_length` is the engine's only
        // constraint; equality is what stock entries do.
        loop_length: total_samples,
        name_bytes: copy_bytes(name.as_bytes()),
    };
    let ghost view = entry@;
    let entries = vec![entry];
    assert(entries_view(entries@) =~= seq![view]);
    let bank = XwbBank {
        header_version: 42,
        flags: 0x0009_0000,
        name: fixed_name(name),
        entry_name_element_size: 64,
        alignment: 4,
        compact_format: 0,
        build_time: 0,
        entries,
    };
    proof {
        assert(bank@ =~= se_bank(name@, audio.samples@));
        lemma_se_bank_size(bank@);
    }
    let mut xwb_bytes: Vec<u8> = Vec::new();
    match xwb::write(&bank, &mut xwb_bytes) {
        Ok(()) => {},
        Err(e) => {
            return Err(Error::Xwb(e));
        },
    }
    assert(xwb_bytes@ =~= bank_file(bank@));
    let xwb_len: usize = xwb_bytes.len();
    let xsb_len: usize = xsb_bytes.len();
    Ok(
        SeBankOutput {
            xwb_name: name.to_owned().concat(".xwb"),
            xsb_name: name.to_owned().concat(".xsb"),
            xwb: xwb_bytes,
            xsb: xsb_bytes,
            xwb_len,
            xsb_len,
            source_samples: len,
            blocks,
            total_samples,
        },
    )
}

fn copy_bytes(bytes: &[u8]) -> (v: Vec<u8>)
    ensures
        v@ == bytes@,
{
    let mut v: Vec<u8> = Vec::new();
    let mut i: usize = 0;
    while i < bytes.len()
        invariant
            i <= bytes@.len(),
            v@ =~= bytes@.subrange(0, i as int),
        decreases bytes@.len() - i,
    {
        v.push(bytes[i]);
        i = i + 1;
    }
    assert(bytes@.subrange(0, i as int) =~= bytes@);
    v
}

/// Whether a result is what becomes of a file: the decoder's error exactly where it
/// does not decode, else what is built from as many samples as it decodes to, with
/// the header's channel count and sample rate.
pub open spec fn generated(bytes: Seq<u8>, name: Seq<char>, r: Result<SeBankOutput, Error>) -> bool {
    if !valid_code(name) {
        r is Err && r->Err_0@ == ErrorView::Xsb(XsbErrorView::BadCode { code: name })
    } else {
        match decoded_count(bytes) {
            None => r is Err && (r->Err_0@ matches ErrorView::Ogg(OggErrorView::Decode(text))
                && decode_problem(text)),
            Some(n) => exists|samples: Seq<i16>|
                samples.len() == n && #[trigger] is_outcome(
                    r,
                    se_outcome(
                        name,
                        (samples, (vorbis_header(bytes)->0).1, (vorbis_header(bytes)->0).0 as u16),
                    ),
                ),
        }
    }
}

/// Generate `{name}.xwb` + `{name}.xsb` from an Ogg Vorbis file.
///
/// The file must decode to **mono 44100 Hz**. Which samples it decodes to is
/// the decoder's affair: see [`build`] for what becomes of them.
pub fn generate(input: &[u8], name: &str) -> (r: Result<SeBankOutput, Error>)
    ensures
        generated(input@, name@, r),
{
    if !is_valid_code(name) {
        return Err(Error::Xsb(XsbError::BadCode { code: name.to_owned() }));
    }
    let audio = match decode(input) {
        Ok(audio) => audio,
        Err(e) => {
            return Err(Error::Ogg(e));
        },
    };
    let r = build(name, &audio);
    assert(is_outcome(
        r,
        se_outcome(
            name@,
            (
                audio.samples@,
                (vorbis_header(input@)->0).1,
                (vorbis_header(input@)->0).0 as u16,
            ),
        ),
    ));
    r
}

} // verus!

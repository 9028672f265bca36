use ddr_chart_tools::job::se_bank::{build, generate, SeBankError};
use ddr_chart_tools::model::AudioBuffer;
use ddr_chart_tools::ogg::encode::planar_blocks;
use ddr_chart_tools::xwb::{adpcm, container, dump};
use ddr_chart_tools::Error;
use std::collections::HashMap;
use std::num::NonZero;
use vorbis_rs::VorbisEncoderBuilder;

const NAME: &str = "asti";
/// Roughly the length of a clap: ~0.21 s at 44.1 kHz.
const CLAP_FRAMES: usize = 9423;

/// Encode PCM as Ogg Vorbis.
fn encode_ogg(audio: &AudioBuffer) -> Vec<u8> {
    let input = planar_blocks(audio).unwrap();
    let mut bytes = Vec::new();
    let mut encoder = VorbisEncoderBuilder::new(
        NonZero::new(input.sample_rate).unwrap(),
        NonZero::new(input.channels).unwrap(),
        &mut bytes,
    )
    .unwrap()
    .build()
    .unwrap();
    for block in &input.blocks {
        let planar: Vec<Vec<f32>> = block
            .iter()
            .map(|channel| channel.iter().map(|s| f32::from(*s) / 32768.0).collect())
            .collect();
        encoder.encode_audio_block(&planar).unwrap();
    }
    encoder.finish().unwrap();
    bytes
}

/// A decaying 1 kHz burst.
fn burst(frames: usize, channels: u16, sample_rate: u32) -> AudioBuffer {
    let mut samples = Vec::new();
    for f in 0..frames {
        let t = f as f64 / sample_rate as f64;
        let envelope = (-t * 25.0).exp();
        let v = (t * 1000.0 * std::f64::consts::TAU).sin() * envelope * 20000.0;
        for _ in 0..channels {
            samples.push(v as i16);
        }
    }
    AudioBuffer {
        samples,
        sample_rate,
        channels,
    }
}

fn synth_ogg(frames: usize, channels: u16, sample_rate: u32) -> Vec<u8> {
    encode_ogg(&burst(frames, channels, sample_rate))
}

fn mono_clap() -> Vec<u8> {
    synth_ogg(CLAP_FRAMES, 1, 44100)
}

fn dump_map(bytes: &[u8]) -> HashMap<String, String> {
    dump::describe(bytes)
        .expect("generated bank must dump")
        .lines()
        .filter_map(|l| l.split_once('='))
        .map(|(k, v)| (k.to_string(), v.to_string()))
        .collect()
}

#[test]
fn generates_a_bank_pair_from_a_mono_44100_ogg() {
    let result = generate(&mono_clap(), NAME).unwrap();

    assert_eq!(result.xwb_name, "asti.xwb");
    assert_eq!(result.xsb_name, "asti.xsb");

    let bank = container::parse(&result.xwb).unwrap();
    assert_eq!(bank.entries.len(), 1, "exactly one entry");
    assert_eq!(bank.name_str(), NAME);

    // The SE sound bank's size is fully determined by the name length.
    assert_eq!(result.xsb.len(), 0x101 + NAME.len() + 1);
    assert_eq!(result.xsb.len(), result.xsb_len);
    assert_eq!(result.xwb.len(), result.xwb_len);
}

#[test]
fn wave_bank_header_matches_the_in_memory_profile() {
    let result = generate(&mono_clap(), NAME).unwrap();
    let d = dump_map(&result.xwb);

    assert_eq!(d["bank.version"], "43");
    assert_eq!(d["bank.header_version"], "42", "engine requires exactly 42");
    assert_eq!(d["bank.flags"], "0x00090000");
    assert_eq!(
        d["bank.type"], "buffer",
        "CreateInMemoryWaveBank rejects a streaming bank outright"
    );
    assert_eq!(d["bank.has_entry_names"], "1");
    assert_eq!(d["bank.entry_count"], "1");
    assert_eq!(d["bank.entry_metadata_element_size"], "24");
    assert_eq!(d["bank.entry_name_element_size"], "64", "required even so");
    assert_eq!(d["bank.alignment"], "4");
    assert_eq!(d["bank.compact_format"], "0");
    assert_eq!(d["bank.build_time"], "0", "fixed, for reproducibility");
    assert_eq!(d["bank.name_terminated"], "1");
}

#[test]
fn wave_bank_segment_layout_is_exactly_what_the_validator_demands() {
    let result = generate(&mono_clap(), NAME).unwrap();
    let d = dump_map(&result.xwb);
    let n = |k: &str| -> usize { d[k].parse().expect("numeric dump field") };

    assert_eq!(n("segment0.offset"), 0x34, "BANKDATA at exactly 0x34");
    assert_eq!(n("segment0.length"), 0x60, "BANKDATA is a fixed 96 bytes");
    assert_eq!(n("segment1.offset"), 0x94, "ENTRYMETADATA at exactly 0x94");
    assert_eq!(n("segment1.length"), 24, "entry_count * 24");
    assert_eq!(n("segment2.length"), 0, "SEEKTABLES must be empty");
    assert_eq!(
        n("segment3.offset"),
        0x94 + 24,
        "ENTRYNAMES immediately after ENTRYMETADATA"
    );
    assert_eq!(n("segment3.length"), 64, "entry_count * 64");
    assert_eq!(
        result.xwb.len() - n("segment4.offset"),
        n("segment4.length"),
        "wave data must run precisely to the end of the buffer"
    );
}

#[test]
fn wave_bank_entry_fields_satisfy_the_per_entry_rules() {
    let result = generate(&mono_clap(), NAME).unwrap();
    let d = dump_map(&result.xwb);
    let n = |k: &str| -> u64 { d[k].parse().expect("numeric dump field") };

    assert_eq!(n("entry0.entry_flags") & 7, 0, "entry flag bits 0-2 clear");
    assert!(
        n("entry0.duration") >= n("entry0.loop_start") + n("entry0.loop_length"),
        "the only constraint the engine places on Duration"
    );
    assert_eq!(d["entry0.codec"], "2", "MS-ADPCM");
    assert_eq!(d["entry0.channels"], "1");
    assert_eq!(d["entry0.sample_rate"], "44100");
    assert_eq!(d["entry0.block_align_raw"], "48");
    assert_eq!(d["entry0.block_align"], "70");
    assert_eq!(d["entry0.samples_per_block"], "128");
    assert_eq!(d["entry0.bits_per_sample_flag"], "0");
    assert_eq!(d["entry0.name"], NAME, "entry named after the bank");
    assert_eq!(d["entry0.name_terminated"], "1");
    assert_eq!(d["entry0.data_offset"], "0");
    assert_eq!(n("entry0.data_length") % 70, 0, "exact whole ADPCM blocks");
    assert_eq!(n("entry0.data_length"), (result.blocks * 70) as u64);
    assert_eq!(n("entry0.duration"), u64::from(result.total_samples));
}

#[test]
fn encoded_audio_decodes_back_faithfully() {
    let input = mono_clap();
    let result = generate(&input, NAME).unwrap();

    let bank = container::parse(&result.xwb).unwrap();
    let entry = bank.entries.first().expect("one entry");
    let decoded = adpcm::decode::decode(&entry.data, &entry.format).unwrap();

    assert_eq!(decoded.len(), result.total_samples as usize);
    assert!(
        decoded.len() >= result.source_samples && decoded.len() - result.source_samples < 128,
        "sample count matches the source within one block: {} vs {}",
        decoded.len(),
        result.source_samples
    );
    assert!(
        decoded.iter().any(|&s| s != 0),
        "decode must not be silence"
    );
    assert!(
        !decoded.iter().any(|&s| s == i16::MIN || s == i16::MAX),
        "decode must not clip"
    );

    let source = ddr_chart_tools::ogg::decode::decode(&input).unwrap();
    let mut signal = 0.0f64;
    let mut noise = 0.0f64;
    for (orig, dec) in source.samples.iter().zip(decoded.iter()) {
        let s = f64::from(*orig);
        let n = s - f64::from(*dec);
        signal += s * s;
        noise += n * n;
    }
    let snr_db = 10.0 * (signal / noise).log10();
    assert!(
        snr_db > 30.0,
        "SNR {snr_db:.1} dB indicates a broken encode"
    );
}

#[test]
fn wave_bank_and_sound_bank_names_are_byte_identical() {
    // Mixed case, because the engine's name match is byte-exact.
    let result = generate(&mono_clap(), "AsTi").unwrap();

    let bank = container::parse(&result.xwb).unwrap();
    // The XSB's wave-bank-name field is the 64 bytes at 0x8A.
    assert_eq!(&bank.name[..], &result.xsb[0x8A..0x8A + 64]);
    assert_eq!(bank.name_str(), "AsTi");
}

#[test]
fn generation_is_byte_reproducible() {
    let input = mono_clap();

    let a = generate(&input, NAME).unwrap();
    let b = generate(&input, NAME).unwrap();

    assert_eq!(a.xwb, b.xwb);
    assert_eq!(a.xsb, b.xsb);
}

#[test]
fn rejects_stereo_input() {
    let err = generate(&synth_ogg(4096, 2, 44100), NAME).expect_err("stereo must be rejected");
    assert!(
        matches!(err, Error::SeBank(SeBankError::NotMono { channels: 2 })),
        "expected NotMono, got {err:?}"
    );
    assert!(err.message().contains('2'), "message names the count");
}

#[test]
fn rejects_wrong_sample_rate() {
    let err = generate(&synth_ogg(4096, 1, 48000), NAME).expect_err("48 kHz must be rejected");
    assert!(
        matches!(
            err,
            Error::SeBank(SeBankError::WrongSampleRate { sample_rate: 48000 })
        ),
        "expected WrongSampleRate, got {err:?}"
    );
    assert!(err.message().contains("48000"), "message names the rate");
}

#[test]
fn rejects_a_file_that_is_not_audio() {
    let err = generate(b"this is definitely not an Ogg Vorbis stream", NAME)
        .expect_err("non-audio must be rejected");
    assert!(
        matches!(err, Error::Ogg(_)),
        "expected Ogg error, got {err:?}"
    );
}

#[test]
fn rejects_a_bad_name_without_writing_anything() {
    let err = generate(&mono_clap(), "not a name!").expect_err("a bad name must be rejected");
    assert!(
        matches!(err, Error::Xsb(_)),
        "expected XSB error, got {err:?}"
    );
    assert_eq!(
        err.message(),
        "XSB error: song code must be 1-16 ASCII alphanumeric characters, got \"not a name!\""
    );
}

#[test]
fn rejects_empty_audio() {
    let err = generate(&synth_ogg(0, 1, 44100), NAME).expect_err("silence-length 0 is not a sound");
    assert!(
        matches!(err, Error::SeBank(SeBankError::NoAudio)),
        "expected NoAudio, got {err:?}"
    );
}

#[test]
fn build_pads_to_whole_blocks() {
    let result = build(NAME, &burst(129, 1, 44100)).unwrap();
    assert_eq!(result.source_samples, 129);
    assert_eq!(result.blocks, 2);
    assert_eq!(result.total_samples, 256);
    let bank = container::parse(&result.xwb).unwrap();
    assert_eq!(bank.entries[0].flags_and_duration, 256 << 4);
    assert_eq!(bank.entries[0].loop_length, 256);
    assert_eq!(bank.entries[0].data.len(), 140);
}

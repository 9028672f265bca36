use ddr_chart_tools::model::AudioBuffer;
use ddr_chart_tools::ogg::decode::{decode, join_replies, Reply};
use ddr_chart_tools::ogg::encode::planar_blocks;
use ddr_chart_tools::ogg::pages::is_sound_file;
use ddr_chart_tools::ogg::OggError;
use std::num::NonZero;
use vorbis_rs::VorbisEncoderBuilder;

/// Encode PCM as Ogg Vorbis.
fn encode_ogg(audio: &AudioBuffer) -> Vec<u8> {
    let input = planar_blocks(audio).unwrap();
    let mut bytes = Vec::new();
    let mut encoder = VorbisEncoderBuilder::new(
        NonZero::new(input.sample_rate).unwrap(),
        NonZero::new(input.channels).unwrap(),
        &mut bytes,
    )
    .unwrap()
    .build()
    .unwrap();
    for block in &input.blocks {
        let planar: Vec<Vec<f32>> = block
            .iter()
            .map(|channel| channel.iter().map(|s| f32::from(*s) / 32768.0).collect())
            .collect();
        encoder.encode_audio_block(&planar).unwrap();
    }
    encoder.finish().unwrap();
    bytes
}

#[test]
fn encode_decode_round_trip() {
    // Generate a short 440 Hz stereo sine wave.
    let sample_rate = 44100u32;
    let channels = 2u16;
    let duration_frames = 4410; // 0.1 seconds
    let mut samples = Vec::with_capacity(duration_frames * channels as usize);
    for frame in 0..duration_frames {
        let t = frame as f64 / sample_rate as f64;
        let val = (t * 440.0 * 2.0 * std::f64::consts::PI).sin();
        let s = (val * 16000.0) as i16;
        samples.push(s); // L
        samples.push(s); // R
    }

    let audio = AudioBuffer {
        samples: samples.clone(),
        sample_rate,
        channels,
    };

    // Encode to OGG.
    let ogg_bytes = encode_ogg(&audio);
    assert!(!ogg_bytes.is_empty());

    // Decode back.
    let decoded = decode(&ogg_bytes).unwrap();
    assert_eq!(decoded.sample_rate, sample_rate);
    assert_eq!(decoded.channels, channels);

    // Vorbis is lossy and adds encoder padding — check frame count
    // is within a reasonable range (up to ~512 frames of padding).
    let orig_frames = duration_frames;
    let dec_frames = decoded.frame_count();
    assert!(
        dec_frames >= orig_frames && dec_frames <= orig_frames + 1024,
        "frame count {dec_frames} too far from {orig_frames}"
    );

    // SNR on the overlapping region.
    let check_samples = (orig_frames * channels as usize).min(decoded.samples.len());
    let mut signal_power: f64 = 0.0;
    let mut noise_power: f64 = 0.0;
    for (orig, dec) in samples[..check_samples]
        .iter()
        .zip(decoded.samples[..check_samples].iter())
    {
        let s = *orig as f64;
        let n = *orig as f64 - *dec as f64;
        signal_power += s * s;
        noise_power += n * n;
    }
    let snr_db = if noise_power > 0.0 {
        10.0 * (signal_power / noise_power).log10()
    } else {
        f64::INFINITY
    };
    assert!(snr_db >= 10.0, "SNR {snr_db:.1} dB too low");
}

#[test]
fn decode_rejects_garbage() {
    assert!(decode(b"not an ogg file").is_err());
}

#[test]
fn encoder_input_is_planar_and_checked() {
    let audio = AudioBuffer {
        samples: (0..10_001).map(|i| i as i16).collect(),
        sample_rate: 48_000,
        channels: 2,
    };
    let input = planar_blocks(&audio).unwrap();
    assert_eq!(input.channels, 2);
    assert_eq!(input.sample_rate, 48_000);
    assert_eq!(input.blocks.len(), 2);
    assert_eq!(input.blocks[0][0].len(), 4096);
    assert_eq!(input.blocks[0][1][3], 7);
    assert_eq!(input.blocks[1][0][0], 8192);
    assert_eq!(input.blocks[1][1].len(), 904);

    let silent = AudioBuffer {
        samples: Vec::new(),
        sample_rate: 44_100,
        channels: 0,
    };
    assert!(
        matches!(planar_blocks(&silent), Err(OggError::Encode(t)) if t == "channel count must be non-zero")
    );
    let rateless = AudioBuffer {
        samples: Vec::new(),
        sample_rate: 0,
        channels: 1,
    };
    assert!(
        matches!(planar_blocks(&rateless), Err(OggError::Encode(t)) if t == "sample rate must be non-zero")
    );
}

#[test]
fn decode_reports_the_header_problem() {
    let err = decode(b"not an ogg file").unwrap_err();
    assert!(matches!(&err, OggError::Decode(_)));
    assert!(err.message().starts_with("OGG decode error: "));
}

#[test]
fn replies_are_joined_up_to_the_end() {
    let replies: Vec<Reply> = vec![
        Ok(Some(vec![1, 2])),
        Ok(Some(Vec::new())),
        Ok(Some(vec![3])),
        Ok(None),
        Ok(Some(vec![9])),
    ];
    let audio = join_replies(&replies, 1, 44_100).unwrap();
    assert_eq!(audio.samples, vec![1, 2, 3]);
    assert_eq!((audio.channels, audio.sample_rate), (1, 44_100));
    let failed: Vec<Reply> = vec![Ok(Some(vec![1])), Err("broken".to_string()), Ok(None)];
    assert!(matches!(join_replies(&failed, 1, 44_100), Err(OggError::Decode(t)) if t == "broken"));
}

/// A bit stream, low bits first.
struct Bits {
    bytes: Vec<u8>,
    used: usize,
}

impl Bits {
    fn new(bytes: &[u8]) -> Bits {
        Bits {
            bytes: bytes.to_vec(),
            used: 8 * bytes.len(),
        }
    }

    fn put(mut self, value: u64, count: usize) -> Bits {
        for i in 0..count {
            if self.used % 8 == 0 {
                self.bytes.push(0);
            }
            let bit = (value >> i & 1) as u8;
            *self.bytes.last_mut().unwrap() |= bit << (self.used % 8);
            self.used += 1;
        }
        self
    }
}

/// A setup header with one codebook of two entries that stand for numbers.
fn setup_start(lookup: u64) -> Bits {
    let book = Bits::new(b"\x05vorbis")
        .put(0, 8) // one codebook
        .put(0x564342, 24)
        .put(1, 16) // dimensions
        .put(2, 24) // entries
        .put(0, 1) // listed
        .put(0, 1) // not sparse
        .put(0, 5)
        .put(0, 5)
        .put(lookup, 4);
    let book = if lookup == 0 {
        book
    } else {
        // Two values of one bit.
        book.put(0, 32).put(0, 32).put(0, 4).put(0, 1).put(0, 2)
    };
    book.put(0, 6).put(0, 16) // one time transform
        .put(0, 6) // one floor
}

fn floor0(setup: Bits, order: u64, bark: u64, amplitude: u64, book: u64) -> Bits {
    setup
        .put(0, 16)
        .put(order, 8)
        .put(44_100, 16)
        .put(bark, 16)
        .put(amplitude, 6)
        .put(0, 8)
        .put(0, 4)
        .put(book, 8)
}

fn floor1(setup: Bits) -> Bits {
    setup.put(1, 16).put(0, 5).put(0, 2).put(8, 4)
}

fn residue(setup: Bits, ty: u64, low: u64, high: Option<u64>, class_book: u64) -> Bits {
    let start = setup
        .put(0, 6) // one residue
        .put(ty, 16)
        .put(0, 24)
        .put(64, 24)
        .put(7, 24)
        .put(0, 6) // one classification
        .put(class_book, 8)
        .put(low, 3);
    match high {
        Some(h) => start.put(1, 1).put(h, 5),
        None => start.put(0, 1),
    }
}

/// The end of a setup header: one mapping of all channels to the first floor and the
/// first residue, and one mode of short or long blocks.
fn closed(setup: Bits, long: u64) -> Vec<u8> {
    setup
        .put(0, 6)
        .put(0, 16)
        .put(0, 1) // one submap
        .put(0, 1) // no coupling
        .put(0, 2)
        .put(0, 24)
        .put(0, 6) // one mode
        .put(long, 1)
        .put(0, 32)
        .put(0, 8)
        .put(1, 1)
        .bytes
}

/// A setup header with a floor of type 1 and a residue of type 1.
fn plain_setup() -> Vec<u8> {
    closed(residue(floor1(setup_start(1)), 1, 0, None, 0), 0)
}

fn ident(channels: u8, sizes: u8) -> Vec<u8> {
    let mut d = b"\x01vorbis\0\0\0\0".to_vec();
    d.push(channels);
    d.extend_from_slice(&[0x44, 0xAC, 0, 0, 0, 0, 0, 0, 0, 0, 0, 0, 0, 0, 0, 0]);
    d.push(sizes);
    d.push(1);
    d
}

const COMMENT: &[u8] = b"\x03vorbis\x02\0\0\0ab\x01\0\0\0\x03\0\0\0A=1\x01";

/// An audio packet of the first mode with nothing to hear.
const SILENCE: &[u8] = b"\0";

fn checksum(bytes: &[u8]) -> u32 {
    let mut sum: u32 = 0;
    for byte in bytes {
        sum ^= u32::from(*byte) << 24;
        for _ in 0..8 {
            sum = if sum >> 31 == 1 {
                sum << 1 ^ 0x04C1_1DB7
            } else {
                sum << 1
            };
        }
    }
    sum
}

/// A page with given segments.
fn raw_page(
    serial: u8,
    version: u8,
    flags: u8,
    position: u64,
    sizes: &[u8],
    body: &[u8],
) -> Vec<u8> {
    let mut bytes = b"OggS".to_vec();
    bytes.push(version);
    bytes.push(flags);
    bytes.extend_from_slice(&position.to_le_bytes());
    bytes.extend_from_slice(&[serial, 0, 0, 0, 0, 0, 0, 0, 0, 0, 0, 0]);
    bytes.push(sizes.len() as u8);
    bytes.extend_from_slice(sizes);
    bytes.extend_from_slice(body);
    let sum = checksum(&bytes);
    bytes[22..26].copy_from_slice(&sum.to_le_bytes());
    bytes
}

/// A page of whole packets.
fn page(serial: u8, flags: u8, position: u64, packets: &[&[u8]]) -> Vec<u8> {
    let mut sizes: Vec<u8> = Vec::new();
    for packet in packets {
        sizes.extend(vec![255; packet.len() / 255]);
        sizes.push((packet.len() % 255) as u8);
    }
    raw_page(serial, 0, flags, position, &sizes, &packets.concat())
}

/// The pages of a stream: its headers, and one of audio packets.
fn stream(serial: u8, ident: &[u8], setup: &[u8], audio: &[&[u8]]) -> Vec<u8> {
    [
        page(serial, 2, 0, &[ident]),
        page(serial, 0, 0, &[COMMENT, setup]),
        page(serial, 0, 64, audio),
    ]
    .concat()
}

/// Whether a mono stream with a setup header is sound, the first mode being used.
fn setup_is_sound(setup: &[u8]) -> bool {
    is_sound_file(&stream(7, &ident(1, 0x66), setup, &[SILENCE]))
}

fn floor_is_sound(floor: Bits) -> bool {
    setup_is_sound(&closed(residue(floor, 1, 0, None, 0), 0))
}

fn decoded_len(bytes: &[u8]) -> usize {
    assert!(is_sound_file(bytes));
    decode(bytes).unwrap().samples.len()
}

#[test]
fn encoded_files_are_sound() {
    let audio = AudioBuffer {
        samples: (0..88_200).map(|i| ((i * 31) % 4000) as i16 - 2000).collect(),
        sample_rate: 44_100,
        channels: 2,
    };
    let bytes = encode_ogg(&audio);
    assert!(is_sound_file(&bytes));
    assert!(decode(&bytes).is_ok());
    // Cut off or empty, there is nothing to trip over either.
    assert!(is_sound_file(&bytes[..bytes.len() / 2]));
    assert!(is_sound_file(&[]));
}

#[test]
fn short_streams_decode() {
    // The first packet is not heard; each of the others gives half a block.
    let bytes = stream(7, &ident(1, 0x66), &plain_setup(), &[SILENCE, SILENCE, SILENCE]);
    let audio = decode(&bytes).unwrap();
    assert_eq!(audio.samples, vec![0; 64]);
    assert_eq!((audio.channels, audio.sample_rate), (1, 44_100));
}

#[test]
fn floors_must_name_books_that_are_there() {
    assert!(floor_is_sound(floor0(setup_start(1), 2, 8, 8, 0)));
    // A book behind the last.
    assert!(!floor_is_sound(floor0(setup_start(1), 2, 8, 8, 1)));
    // Further off, the decoder itself refuses it.
    assert!(floor_is_sound(floor0(setup_start(1), 2, 8, 8, 2)));
}

#[test]
fn floors_must_have_an_order_a_map_and_an_amplitude() {
    assert!(!floor_is_sound(floor0(setup_start(1), 1, 8, 8, 0)));
    assert!(!floor_is_sound(floor0(setup_start(1), 2, 0, 8, 0)));
    assert!(!floor_is_sound(floor0(setup_start(1), 2, 8, 31, 0)));
    assert!(floor_is_sound(floor0(setup_start(1), 2, 8, 30, 0)));
}

#[test]
fn ordered_codebooks_must_end() {
    let open = Bits::new(b"\x05vorbis")
        .put(0, 8)
        .put(0x564342, 24)
        .put(1, 16)
        .put(1, 24)
        .put(1, 1) // ordered
        .put(0, 5);
    let mut long = open;
    for _ in 0..10 {
        long = long.put(0, 32);
    }
    assert!(!setup_is_sound(&long.bytes));
}

/// A setup header with one ordered codebook of two to the power of `bits` entries.
fn ordered(bits: u64, dimensions: u64, lookup: u64) -> Bits {
    let book = Bits::new(b"\x05vorbis")
        .put(0, 8)
        .put(0x564342, 24)
        .put(dimensions, 16)
        .put(1 << bits, 24)
        .put(1, 1)
        .put(bits - 1, 5)
        .put(1 << bits, bits as usize + 1)
        .put(lookup, 4);
    let book = if lookup == 0 {
        book
    } else {
        book.put(0, 32).put(0, 32).put(0, 4).put(0, 1).put(0, 1)
    };
    book.put(0, 6).put(0, 16).put(0, 6)
}

#[test]
fn large_codebooks_are_taken() {
    let setup = closed(residue(floor1(ordered(21, 1, 0)), 1, 0, None, 0), 0);
    let bytes = stream(7, &ident(1, 0x66), &setup, &[SILENCE, SILENCE]);
    assert_eq!(decoded_len(&bytes), 32);
    // A table of a gigabyte and more in a few bytes.
    let setup = closed(residue(floor1(ordered(20, 300, 1)), 1, 0, None, 0), 0);
    assert!(!setup_is_sound(&setup));
}

#[test]
fn eighth_pass_needs_a_first_book_with_vectors() {
    let with = |lookup: u64| closed(residue(floor1(setup_start(lookup)), 1, 0, Some(0x10), 0), 0);
    assert!(!setup_is_sound(&with(0)));
    assert!(setup_is_sound(&with(1)));
}

#[test]
fn books_without_codewords_are_no_use() {
    let empty = Bits::new(b"\x05vorbis")
        .put(0, 8)
        .put(0x564342, 24)
        .put(1, 16)
        .put(0, 24)
        .put(0, 1)
        .put(0, 1)
        .put(0, 4)
        .put(0, 6)
        .put(0, 16)
        .put(0, 6);
    assert!(!floor_is_sound(floor1(empty)));
}

/// Two floors, the second of them unsound, and a mode for each.
fn two_modes() -> Vec<u8> {
    let start = Bits::new(b"\x05vorbis")
        .put(0, 8)
        .put(0x564342, 24)
        .put(1, 16)
        .put(2, 24)
        .put(0, 2)
        .put(0, 10)
        .put(0, 4)
        .put(0, 6)
        .put(0, 16)
        .put(1, 6);
    let mut setup = residue(floor0(floor1(start), 1, 8, 8, 0), 1, 0, None, 0).put(1, 6);
    for floor in 0..2 {
        setup = setup.put(0, 20).put(0, 8).put(floor, 8).put(0, 8);
    }
    setup = setup.put(1, 6);
    for mapping in 0..2 {
        setup = setup.put(0, 33).put(mapping, 8);
    }
    setup.put(1, 1).bytes
}

#[test]
fn modes_that_no_packet_names_do_no_harm() {
    let blocks = ident(1, 0x66);
    let quiet = stream(7, &blocks, &two_modes(), &[SILENCE, SILENCE]);
    assert_eq!(decoded_len(&quiet), 32);
    // The second mode.
    let loud = stream(7, &blocks, &two_modes(), &[SILENCE, b"\x02"]);
    assert!(!is_sound_file(&loud));
}

#[test]
fn packets_behind_the_setup_header_are_dropped() {
    let blocks = ident(1, 0x66);
    let bytes = [
        page(7, 2, 0, &[&blocks]),
        page(7, 0, 0, &[COMMENT, &plain_setup(), SILENCE, SILENCE]),
        page(7, 0, 64, &[SILENCE, SILENCE]),
    ]
    .concat();
    assert_eq!(decoded_len(&bytes), 32);
    // The end of a packet that began there is passed over too.
    let setup = plain_setup();
    let part = [COMMENT, &setup, &[0; 255]].concat();
    let bytes = [
        page(7, 2, 0, &[&blocks]),
        raw_page(7, 0, 0, 0, &[COMMENT.len() as u8, setup.len() as u8, 255], &part),
        page(7, 1, 64, &[b"\x01", SILENCE, SILENCE]),
    ]
    .concat();
    assert_eq!(decoded_len(&bytes), 32);
}

#[test]
fn packets_of_other_streams_are_left_alone() {
    let bad = closed(residue(floor0(setup_start(1), 1, 8, 8, 0), 1, 0, None, 0), 0);
    let bytes = [
        stream(7, &ident(1, 0x66), &plain_setup(), &[SILENCE]),
        page(8, 0, u64::MAX, &[&bad, b"\x03vorbis"]),
        page(7, 0, 64, &[SILENCE]),
    ]
    .concat();
    assert_eq!(decoded_len(&bytes), 32);
}

#[test]
fn streams_that_follow_are_read_like_the_first() {
    let first = stream(7, &ident(1, 0x66), &plain_setup(), &[SILENCE, SILENCE]);
    let second = |setup: &[u8]| {
        [
            page(8, 2, 0, &[&ident(1, 0x66)]),
            page(8, 0, 0, &[COMMENT, setup]),
            page(8, 0, 96, &[SILENCE, SILENCE, SILENCE]),
        ]
        .concat()
    };
    let good = [first.clone(), second(&plain_setup())].concat();
    assert_eq!(decoded_len(&good), 96);
    let bad = closed(residue(floor0(setup_start(1), 1, 8, 8, 0), 1, 0, None, 0), 0);
    assert!(!is_sound_file(&[first, second(&bad)].concat()));
}

#[test]
fn nothing_is_read_behind_a_fault() {
    let bad = closed(residue(floor0(setup_start(1), 1, 8, 8, 0), 1, 0, None, 0), 0);
    let bytes = [
        stream(7, &ident(1, 0x66), &plain_setup(), &[SILENCE, SILENCE]),
        raw_page(7, 1, 0, 0, &[1], SILENCE),
        stream(8, &ident(1, 0x66), &bad, &[SILENCE]),
    ]
    .concat();
    assert!(is_sound_file(&bytes));
    assert!(matches!(decode(&bytes), Err(OggError::Decode(t)) if t == "Ogg decode problem"));
}

#[test]
fn channels_coded_as_one_are_counted_in_a_word() {
    let with = |ty: u64| closed(residue(floor1(setup_start(1)), ty, 0, None, 0), 1);
    // A long block between two others.
    let long: &[u8] = b"\x06";
    let file = |channels: u8, ty: u64| stream(7, &ident(channels, 0xDD), &with(ty), &[long, long]);
    assert_eq!(decoded_len(&file(7, 2)), 7 * 4096);
    assert!(!is_sound_file(&file(8, 2)));
    assert_eq!(decoded_len(&file(8, 1)), 8 * 4096);
}

#[test]
fn comments_must_be_there() {
    let many = b"\x03vorbis\x02\0\0\0ab\xFF\xFF\xFF\xFF\x03\0\0\0A=1\x01";
    let start = page(7, 2, 0, &[&ident(1, 0x66)]);
    assert!(is_sound_file(&[start.clone(), page(7, 0, 0, &[COMMENT])].concat()));
    assert!(!is_sound_file(&[start, page(7, 0, 0, &[many])].concat()));
}

#[test]
fn sample_positions_must_leave_room() {
    let with = |flags: u8, position: u64, audio: &[&[u8]]| {
        is_sound_file(
            &[
                page(7, 2, 0, &[&ident(1, 0x66)]),
                page(7, 0, 0, &[COMMENT, &plain_setup()]),
                page(7, flags, position, audio),
            ]
            .concat(),
        )
    };
    assert!(with(0, 1 << 40, &[SILENCE]));
    assert!(!with(0, u64::MAX, &[SILENCE]));
    assert!(with(4, 1 << 60, &[SILENCE]));
    // No packet ends here.
    assert!(with(0, u64::MAX, &[]));
}

#[test]
fn packets_go_on_from_page_to_page() {
    let mut bad = closed(residue(floor0(setup_start(1), 1, 8, 8, 0), 1, 0, None, 0), 0);
    let start = [
        page(7, 2, 0, &[&ident(1, 0x66)]),
        page(7, 0, 0, &[COMMENT]),
    ]
    .concat();
    // Filled up so that the page ends in the middle of the packet.
    bad.resize(300, 0);
    let first = raw_page(7, 0, 0, 0, &[255], &bad[..255]);
    let second = page(7, 1, 0, &[&bad[255..]]);
    let audio = page(7, 0, 64, &[SILENCE]);
    assert!(is_sound_file(&[start.clone(), first.clone(), second.clone()].concat()));
    let all = [start, first, second, audio].concat();
    assert!(!is_sound_file(&all));
    assert!(matches!(
        decode(&all),
        Err(OggError::Decode(t)) if t == "Vorbis bitstream header decode problem"
    ));
}

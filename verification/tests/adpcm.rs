use ddr_chart_tools::xwb::adpcm::AdpcmError;
use ddr_chart_tools::xwb::adpcm::decode::decode;
use ddr_chart_tools::xwb::adpcm::encode::encode;
use ddr_chart_tools::xwb::container::WaveFormat;

/// Build a minimal 1-channel ADPCM block.
/// predictor=2 (coeffs 0,0) so output = nibble_signed * delta.
fn build_mono_block(delta: i16, s1: i16, s2: i16, nibbles: &[u8]) -> Vec<u8> {
    let mut block = Vec::new();
    block.push(2); // predictor index 2 → (0, 0)
    block.extend_from_slice(&delta.to_le_bytes());
    block.extend_from_slice(&s1.to_le_bytes());
    block.extend_from_slice(&s2.to_le_bytes());
    block.extend_from_slice(nibbles);
    block
}

/// Build a WaveFormat for mono, 128 samples/block.
fn mono_format() -> WaveFormat {
    // codec=2, channels=1, rate=44100, raw_align=((block_align/1)-22)=block_align-22
    // For 1ch 128spb: block_align = 7 + (128-2)/2 = 7+63 = 70
    // raw = 70/1 - 22 = 48
    let bits: u32 = 2 | (1 << 2) | (44100 << 5) | (48 << 23);
    WaveFormat::from_packed(bits)
}

#[test]
fn mono_format_params() {
    let f = mono_format();
    assert_eq!(f.channels(), 1);
    assert_eq!(f.block_align(), 70); // (48+22)*1
    assert_eq!(f.samples_per_block(), 128); // ((70-7)*8)/4 + 2
}

#[test]
fn decode_mono_silence_block() {
    // predictor=2 (0,0), delta=1, s1=0, s2=0, all-zero nibbles
    let nibble_bytes = vec![0u8; 63]; // 126 nibbles = 126 frames
    let block = build_mono_block(1, 0, 0, &nibble_bytes);
    assert_eq!(block.len(), 70);

    let fmt = mono_format();
    let pcm = decode(&block, &fmt).unwrap();
    assert_eq!(pcm.len(), 128);
    // First two samples are s2=0, s1=0; rest are 0 (nibble=0, coeff=0)
    assert!(pcm.iter().all(|&s| s == 0));
}

#[test]
fn decode_mono_known_nibbles() {
    // predictor=2 (0,0), delta=100, s1=500, s2=200
    // With coeff=(0,0): predicted = signed_nibble * delta
    // First nibble byte 0x31 → high=3, low=1
    // Frame 0: nibble=3 → predicted = 3*100 = 300
    // Frame 1: nibble=1 → predicted = 1*100 = 100 (delta updated after frame 0)
    let nibble_bytes = {
        let mut v = vec![0u8; 63];
        v[0] = 0x31; // high nibble=3, low nibble=1
        v
    };
    let block = build_mono_block(100, 500, 200, &nibble_bytes);
    let fmt = mono_format();
    let pcm = decode(&block, &fmt).unwrap();

    assert_eq!(pcm[0], 200);  // s2
    assert_eq!(pcm[1], 500);  // s1
    assert_eq!(pcm[2], 300);  // nibble=3, signed=3, 3*100=300
    // After frame 0: delta = max(16, (100*ADAPT[3])>>8) = max(16, (100*230)>>8) = 89
    assert_eq!(pcm[3], 89);   // nibble=1, signed=1, 1*89=89
}

#[test]
fn decode_stereo_interleaved() {
    // 2-channel block: predictor=2 for both, delta=1, s1/s2 differ per channel
    let mut block = Vec::new();
    // Predictors
    block.push(2); // ch0
    block.push(2); // ch1
    // Deltas
    block.extend_from_slice(&1i16.to_le_bytes()); // ch0
    block.extend_from_slice(&1i16.to_le_bytes()); // ch1
    // Sample1
    block.extend_from_slice(&100i16.to_le_bytes()); // ch0
    block.extend_from_slice(&200i16.to_le_bytes()); // ch1
    // Sample2
    block.extend_from_slice(&10i16.to_le_bytes()); // ch0
    block.extend_from_slice(&20i16.to_le_bytes()); // ch1
    // Nibble data: all zeros
    // For 2ch, 128spb: block_align = (48+22)*2 = 140, header = 14
    // nibble bytes = 140 - 14 = 126
    block.resize(140, 0);

    // Use the DDR format (2ch)
    let bits: u32 = 2 | (2 << 2) | (44100 << 5) | (48 << 23);
    let fmt = WaveFormat::from_packed(bits);
    let pcm = decode(&block, &fmt).unwrap();

    // 128 frames × 2 channels = 256 samples
    assert_eq!(pcm.len(), 256);
    // Frame 0: [ch0.s2, ch1.s2] = [10, 20]
    assert_eq!(pcm[0], 10);
    assert_eq!(pcm[1], 20);
    // Frame 1: [ch0.s1, ch1.s1] = [100, 200]
    assert_eq!(pcm[2], 100);
    assert_eq!(pcm[3], 200);
}

#[test]
fn decode_rejects_bad_predictor() {
    let mut block = vec![0u8; 70];
    block[0] = 7; // invalid predictor index
    let fmt = mono_format();
    assert!(matches!(
        decode(&block, &fmt),
        Err(AdpcmError::BadPredictor { index: 7 })
    ));
}

#[test]
fn decode_empty_data() {
    let fmt = mono_format();
    let pcm = decode(&[], &fmt).unwrap();
    assert!(pcm.is_empty());
}

#[test]
fn decode_clamps_to_i16_range() {
    // predictor=2 (0,0), delta=32767, s1=0, s2=0
    // nibble=7 → signed=7, predicted = 7*32767 = 229369 → clamped to 32767
    let mut nibble_bytes = vec![0u8; 63];
    nibble_bytes[0] = 0x70; // high=7, low=0
    let block = build_mono_block(32767, 0, 0, &nibble_bytes);
    let fmt = mono_format();
    let pcm = decode(&block, &fmt).unwrap();
    assert_eq!(pcm[2], 32767); // clamped
}

#[test]
fn decode_negative_nibble() {
    // predictor=2 (0,0), delta=100, s1=0, s2=0
    // nibble=0xF → signed = 15-16 = -1, predicted = -1*100 = -100
    let mut nibble_bytes = vec![0u8; 63];
    nibble_bytes[0] = 0xF0; // high=15, low=0
    let block = build_mono_block(100, 0, 0, &nibble_bytes);
    let fmt = mono_format();
    let pcm = decode(&block, &fmt).unwrap();
    assert_eq!(pcm[2], -100);
}

fn stereo_format() -> WaveFormat {
    // ADPCM, 2ch, 44100Hz, raw_align=48
    let bits: u32 = 2 | (2 << 2) | (44100 << 5) | (48 << 23);
    WaveFormat::from_packed(bits)
}

#[test]
fn encode_silence_round_trips() {
    let fmt = mono_format();
    let spb = fmt.samples_per_block() as usize;
    let pcm = vec![0i16; spb];

    let adpcm = encode(&pcm, &fmt).unwrap();
    assert_eq!(adpcm.len(), fmt.block_align() as usize);

    let decoded = decode(&adpcm, &fmt).unwrap();
    assert_eq!(decoded.len(), spb);
    // Silence in → silence out.
    assert!(decoded.iter().all(|&s| s == 0));
}

#[test]
fn encode_decode_round_trip_snr() {
    let fmt = stereo_format();
    let spb = fmt.samples_per_block() as usize;
    let ch = fmt.channels() as usize;

    // Generate a 440 Hz sine wave, 1 block of stereo.
    let total_samples = spb * ch;
    let mut pcm = Vec::with_capacity(total_samples);
    for frame in 0..spb {
        let t = frame as f64 / 44100.0;
        let val = (t * 440.0 * 2.0 * std::f64::consts::PI).sin();
        let sample = (val * 16000.0) as i16;
        pcm.push(sample); // L
        pcm.push(sample); // R
    }

    let adpcm = encode(&pcm, &fmt).unwrap();
    let decoded = decode(&adpcm, &fmt).unwrap();
    assert_eq!(decoded.len(), total_samples);

    // Compute SNR.
    let mut signal_power: f64 = 0.0;
    let mut noise_power: f64 = 0.0;
    for (orig, dec) in pcm.iter().zip(decoded.iter()) {
        let s = *orig as f64;
        let n = (*orig as f64) - (*dec as f64);
        signal_power += s * s;
        noise_power += n * n;
    }
    let snr_db = if noise_power > 0.0 {
        10.0 * (signal_power / noise_power).log10()
    } else {
        f64::INFINITY
    };

    assert!(
        snr_db >= 30.0,
        "SNR {snr_db:.1} dB is below 30 dB threshold"
    );
}

#[test]
fn encode_empty_input() {
    let fmt = stereo_format();
    let adpcm = encode(&[], &fmt).unwrap();
    assert!(adpcm.is_empty());
}

#[test]
fn encode_pads_partial_block() {
    let fmt = mono_format();
    let spb = fmt.samples_per_block() as usize;
    // Feed half a block — encoder should pad to full block.
    let pcm = vec![1000i16; spb / 2];
    let adpcm = encode(&pcm, &fmt).unwrap();
    assert_eq!(adpcm.len(), fmt.block_align() as usize);
}

#[test]
fn encode_multiple_blocks() {
    let fmt = mono_format();
    let spb = fmt.samples_per_block() as usize;
    let pcm = vec![0i16; spb * 3];
    let adpcm = encode(&pcm, &fmt).unwrap();
    assert_eq!(adpcm.len(), fmt.block_align() as usize * 3);
}

#[test]
fn first_two_frames_of_a_block_are_exact() {
    let fmt = stereo_format();
    let frames = fmt.samples_per_block() as usize;
    let align = fmt.block_align() as usize;
    let pcm: Vec<i16> = (0..2 * (2 * frames + 1))
        .map(|i| ((i * 7919) % 60_000 - 30_000) as i16)
        .collect();
    let bytes = encode(&pcm, &fmt).unwrap();
    assert_eq!(bytes.len(), 3 * align);
    let decoded = decode(&bytes, &fmt).unwrap();
    assert_eq!(decoded.len(), 3 * frames * 2);
    let field = |b: usize, at: usize| {
        i16::from_le_bytes([bytes[b * align + at], bytes[b * align + at + 1]])
    };
    for b in 0..3 {
        for c in 0..2 {
            let first = 2 * b * frames + c;
            let second = first + 2;
            // The input ends behind the first frame of the last block.
            let expected = (pcm[first], if b == 2 { 0 } else { pcm[second] });
            assert!(bytes[b * align + c] < 7);
            assert_eq!((field(b, 10 + 2 * c), field(b, 6 + 2 * c)), expected);
            assert_eq!((decoded[first], decoded[second]), expected);
        }
    }
}

use ddr_chart_tools::wavm::parse;
use ddr_chart_tools::wavm::xbox_ima::{
    self, bytes_to_samples, decode_stereo_block, expand_nibble, SAMPLES_PER_BLOCK,
    STEREO_BLOCK_SIZE,
};

/// Build a synthetic WAVM file: N stereo blocks of silence (zero nibbles).
fn make_silent_wavm(num_blocks: usize) -> Vec<u8> {
    vec![0u8; num_blocks * xbox_ima::STEREO_BLOCK_SIZE]
}

#[test]
fn parse_one_block() {
    let data = make_silent_wavm(1);
    let buf = parse(&data).unwrap();
    assert_eq!(buf.channels, 2);
    assert_eq!(buf.sample_rate, 44100);
    assert_eq!(
        buf.samples.len(),
        xbox_ima::SAMPLES_PER_BLOCK * 2 // interleaved stereo
    );
}

#[test]
fn parse_multiple_blocks() {
    let data = make_silent_wavm(10);
    let buf = parse(&data).unwrap();
    assert_eq!(buf.samples.len(), xbox_ima::SAMPLES_PER_BLOCK * 2 * 10);
}

#[test]
fn parse_duration_matches_expected() {
    // 100 blocks at 64 samples/block/channel at 44100 Hz
    let data = make_silent_wavm(100);
    let buf = parse(&data).unwrap();
    let frames = buf.samples.len() / buf.channels as usize;
    let duration_secs = frames as f64 / buf.sample_rate as f64;
    let expected = (100 * xbox_ima::SAMPLES_PER_BLOCK) as f64 / 44100.0;
    assert!((duration_secs - expected).abs() < 0.001);
}

#[test]
fn empty_input_rejected() {
    assert!(parse(&[]).is_err());
}

#[test]
fn unaligned_input_rejected() {
    let data = vec![0u8; xbox_ima::STEREO_BLOCK_SIZE + 1];
    assert!(parse(&data).is_err());
}

/// Build a minimal stereo block with known header values and all-zero
/// nibble data. Zero nibbles produce delta = step>>3 with sign=0,
/// so samples drift upward slightly from the header value.
fn make_silent_block(hist_l: i16, hist_r: i16) -> [u8; STEREO_BLOCK_SIZE] {
    let mut block = [0u8; STEREO_BLOCK_SIZE];
    let l = hist_l.to_le_bytes();
    let r = hist_r.to_le_bytes();
    block[0] = l[0]; block[1] = l[1]; block[2] = 0; // step_index=0
    block[4] = r[0]; block[5] = r[1]; block[6] = 0;
    block
}

#[test]
fn decode_produces_correct_sample_count() {
    let block = make_silent_block(0, 0);
    let mut out = Vec::new();
    decode_stereo_block(&block, &mut out);
    // 64 samples per channel * 2 channels = 128 interleaved samples
    assert_eq!(out.len(), SAMPLES_PER_BLOCK * 2);
}

#[test]
fn header_sample_is_first_output() {
    let block = make_silent_block(1000, -500);
    let mut out = Vec::new();
    decode_stereo_block(&block, &mut out);
    assert_eq!(out[0], 1000);  // L channel first sample
    assert_eq!(out[1], -500);  // R channel first sample
}

#[test]
fn bytes_to_samples_full_blocks() {
    // 2 full stereo blocks
    assert_eq!(bytes_to_samples(STEREO_BLOCK_SIZE * 2), SAMPLES_PER_BLOCK * 2);
}

#[test]
fn bytes_to_samples_partial_block_ignored() {
    // 1 full block + partial
    assert_eq!(bytes_to_samples(STEREO_BLOCK_SIZE + 10), SAMPLES_PER_BLOCK);
}

#[test]
fn expand_nibble_positive_delta() {
    let mut hist: i32 = 0;
    let mut idx: i32 = 0;
    // nibble=7 (bits 0,1,2 set): delta = step>>3 + step>>2 + step>>1 + step
    // step_table[0]=7: delta = 0 + 1 + 3 + 7 = 11
    let s = expand_nibble(0x07, &mut hist, &mut idx);
    assert_eq!(s, 11);
    assert_eq!(hist, 11);
}

#[test]
fn expand_nibble_negative_delta() {
    let mut hist: i32 = 100;
    let mut idx: i32 = 0;
    // nibble=0xF (all bits): delta = 0+1+3+7 = 11, negated = -11
    let s = expand_nibble(0x0F, &mut hist, &mut idx);
    assert_eq!(s, 89); // 100 - 11
}

#[test]
fn step_index_clamps_to_valid_range() {
    let mut hist: i32 = 0;
    let mut idx: i32 = 0;
    // nibble=0 -> index_table[0] = -1, so idx becomes -1 -> clamped to 0
    expand_nibble(0x00, &mut hist, &mut idx);
    assert_eq!(idx, 0);

    // nibble=7 -> index_table[7] = 8, idx becomes 8
    idx = 85;
    expand_nibble(0x07, &mut hist, &mut idx);
    assert_eq!(idx, 88); // clamped to max
}

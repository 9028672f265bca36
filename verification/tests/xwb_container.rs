use ddr_chart_tools::xwb::container::{self, parse, round_up, WaveFormat, XwbError};

const MAGIC: &[u8; 4] = b"WBND";
const VERSION: u32 = 43;
const HEADER_SIZE: usize = 52;
const BANK_DATA_SIZE: usize = 96;
const ENTRY_META_SIZE: u32 = 24;
const BANK_NAME_LEN: usize = 64;

/// Build a minimal valid XWB v43 file with the given entries.
fn build_xwb(
    bank_name: &str,
    entry_name_size: u32,
    alignment: u32,
    entries: &[(&str, &[u8], WaveFormat)],
) -> Vec<u8> {
    let mut name_field = [0u8; BANK_NAME_LEN];
    for (i, &b) in bank_name.as_bytes().iter().enumerate().take(BANK_NAME_LEN) {
        name_field[i] = b;
    }

    let entry_count = entries.len();
    let seg0_len = BANK_DATA_SIZE;
    let seg1_len = entry_count * ENTRY_META_SIZE as usize;
    let seg3_len = entry_count * entry_name_size as usize;
    let seg0_off = HEADER_SIZE;
    let seg1_off = seg0_off + seg0_len;
    let seg2_off = seg1_off + seg1_len;
    let seg3_off = seg2_off; // seg2 is empty
    let align = if alignment == 0 { 1 } else { alignment } as usize;
    let seg4_off = round_up(seg3_off + seg3_len, align);

    // Compute aligned data offsets within wave-data segment.
    let mut data_offsets = Vec::with_capacity(entry_count);
    let mut cursor: usize = 0;
    for (_, data, _) in entries {
        data_offsets.push(cursor);
        cursor = round_up(cursor + data.len(), align);
    }
    let total_data: usize = if let Some((_, last, _)) = entries.last() {
        data_offsets.last().unwrap_or(&0) + last.len()
    } else {
        0
    };

    let mut buf = Vec::with_capacity(seg4_off + total_data);

    // Header
    buf.extend_from_slice(MAGIC);
    buf.extend_from_slice(&VERSION.to_le_bytes());
    buf.extend_from_slice(&42u32.to_le_bytes()); // header_version
    for (off, len) in [
        (seg0_off, seg0_len),
        (seg1_off, seg1_len),
        (seg2_off, 0usize),
        (seg3_off, seg3_len),
        (seg4_off, total_data),
    ] {
        buf.extend_from_slice(&(off as u32).to_le_bytes());
        buf.extend_from_slice(&(len as u32).to_le_bytes());
    }

    // Seg 0: bank data
    buf.extend_from_slice(&0u32.to_le_bytes()); // flags
    buf.extend_from_slice(&(entry_count as u32).to_le_bytes());
    buf.extend_from_slice(&name_field);
    buf.extend_from_slice(&ENTRY_META_SIZE.to_le_bytes());
    buf.extend_from_slice(&entry_name_size.to_le_bytes());
    buf.extend_from_slice(&alignment.to_le_bytes());
    buf.extend_from_slice(&0u32.to_le_bytes()); // compact_format
    buf.extend_from_slice(&0u64.to_le_bytes()); // build_time

    // Seg 1: entry metadata
    for (i, (_, data, fmt)) in entries.iter().enumerate() {
        buf.extend_from_slice(&0u32.to_le_bytes()); // flags_and_duration
        buf.extend_from_slice(&fmt.packed().to_le_bytes());
        buf.extend_from_slice(&(data_offsets[i] as u32).to_le_bytes());
        buf.extend_from_slice(&(data.len() as u32).to_le_bytes());
        buf.extend_from_slice(&0u32.to_le_bytes()); // loop_start
        buf.extend_from_slice(&0u32.to_le_bytes()); // loop_length
    }

    // Seg 3: entry names
    for (ename, _, _) in entries {
        let mut nb = vec![0u8; entry_name_size as usize];
        for (i, &b) in ename.as_bytes().iter().enumerate().take(nb.len()) {
            nb[i] = b;
        }
        buf.extend_from_slice(&nb);
    }

    // Padding to seg4
    buf.resize(seg4_off, 0);

    // Seg 4: wave data (with inter-entry alignment padding)
    for (i, (_, data, _)) in entries.iter().enumerate() {
        buf.resize(seg4_off + data_offsets[i], 0);
        buf.extend_from_slice(data);
    }

    buf
}

/// DDR-style WAVEBANKMINIWAVEFORMAT: ADPCM, 2ch, 44100Hz, raw=48.
fn ddr_format() -> WaveFormat {
    // codec=2, channels=2, sample_rate=44100, block_align_raw=48, bps_flag=0
    let bits: u32 = 2 | (2 << 2) | (44100 << 5) | (48 << 23);
    WaveFormat::from_packed(bits)
}

#[test]
fn wave_format_round_trips() {
    let fmt = ddr_format();
    assert_eq!(fmt.codec(), 2);
    assert_eq!(fmt.channels(), 2);
    assert_eq!(fmt.sample_rate(), 44100);
    assert_eq!(fmt.block_align_raw(), 48);
    assert_eq!(fmt.block_align(), (48 + 22) * 2); // 140
    assert_eq!(fmt.samples_per_block(), 128);
    assert_eq!(WaveFormat::from_packed(fmt.packed()), fmt);
}

#[test]
fn parse_write_round_trip_single_entry() {
    let audio = vec![0xABu8; 280]; // 2 ADPCM blocks
    let raw = build_xwb("test", 64, 2048, &[("main", &audio, ddr_format())]);

    let bank = parse(&raw).unwrap();
    assert_eq!(bank.entries.len(), 1);
    assert_eq!(bank.entries[0].name_str(), "main");
    assert_eq!(bank.entries[0].data, audio);
    assert_eq!(bank.entries[0].format, ddr_format());

    let mut out = Vec::new();
    container::write(&bank, &mut out).unwrap();
    assert_eq!(out, raw, "round-trip must be byte-identical");
}

#[test]
fn parse_write_round_trip_two_entries() {
    let main_audio = vec![0x11u8; 1400]; // 10 blocks
    let preview_audio = vec![0x22u8; 420]; // 3 blocks
    let raw = build_xwb(
        "fizz",
        64,
        2048,
        &[
            ("fizz", &main_audio, ddr_format()),
            ("fizz_s", &preview_audio, ddr_format()),
        ],
    );

    let bank = parse(&raw).unwrap();
    assert_eq!(bank.name_str(), "fizz");
    assert_eq!(bank.entries.len(), 2);
    assert_eq!(bank.entries[0].name_str(), "fizz");
    assert_eq!(bank.entries[0].data, main_audio);
    assert_eq!(bank.entries[1].name_str(), "fizz_s");
    assert_eq!(bank.entries[1].data, preview_audio);

    let mut out = Vec::new();
    container::write(&bank, &mut out).unwrap();
    assert_eq!(out, raw, "round-trip must be byte-identical");
}

#[test]
fn parse_rejects_bad_magic() {
    let mut raw = build_xwb("x", 64, 2048, &[("a", &[0u8; 140], ddr_format())]);
    raw[0] = b'X'; // corrupt magic
    assert!(matches!(parse(&raw), Err(XwbError::BadMagic)));
}

#[test]
fn parse_rejects_wrong_version() {
    let mut raw = build_xwb("x", 64, 2048, &[("a", &[0u8; 140], ddr_format())]);
    raw[4..8].copy_from_slice(&42u32.to_le_bytes());
    assert!(matches!(
        parse(&raw),
        Err(XwbError::UnsupportedVersion { version: 42 })
    ));
}

#[test]
fn parse_rejects_truncated_header() {
    let raw = b"WBND";
    assert!(parse(raw).is_err());
}

#[test]
fn wave_format_zero_channels_samples_per_block_is_zero() {
    let fmt = WaveFormat::from_packed(0);
    assert_eq!(fmt.samples_per_block(), 0);
}

#[test]
fn round_up_works() {
    assert_eq!(round_up(0, 2048), 0);
    assert_eq!(round_up(1, 2048), 2048);
    assert_eq!(round_up(2048, 2048), 2048);
    assert_eq!(round_up(2049, 2048), 4096);
    assert_eq!(round_up(100, 1), 100);
}

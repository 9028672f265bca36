use ddr_chart_tools::xwb::container::{self, WaveFormat, XwbBank, XwbEntry};
use ddr_chart_tools::xwb::dump::describe;
use std::collections::HashMap;

fn se_format() -> WaveFormat {
    WaveFormat::from_packed(2 | (1 << 2) | (44100 << 5) | (48 << 23))
}

fn name_field(s: &str) -> [u8; 64] {
    let mut f = [0u8; 64];
    f[..s.len()].copy_from_slice(s.as_bytes());
    f
}

fn entry(name: &str, data: Vec<u8>, total_samples: u32) -> XwbEntry {
    XwbEntry {
        flags_and_duration: total_samples << 4,
        format: se_format(),
        data,
        loop_start: 0,
        loop_length: total_samples,
        name_bytes: name.as_bytes().to_vec(),
    }
}

/// A buffer (in-memory) bank shaped like the generator's output.
fn buffer_bank() -> Vec<u8> {
    let bank = XwbBank {
        header_version: 42,
        flags: 0x0009_0000,
        name: name_field("asti"),
        entry_name_element_size: 64,
        alignment: 4,
        compact_format: 0,
        build_time: 0,
        entries: vec![entry("asti", vec![0xAB; 70 * 3], 384)],
    };
    let mut out = Vec::new();
    container::write(&bank, &mut out).expect("write buffer bank");
    out
}

/// A streaming bank with two entries — deliberately *not* shaped like our
/// own output, to prove the dump is general.
fn streaming_bank() -> Vec<u8> {
    let bank = XwbBank {
        header_version: 42,
        flags: 0x0009_0001,
        name: name_field("aaaa"),
        entry_name_element_size: 64,
        alignment: 2048,
        compact_format: 0,
        build_time: 0x01CD_EFAD_3E0E_4F23,
        entries: vec![
            entry("aaaa", vec![0x11; 140 * 4], 512),
            entry("aaaa_s", vec![0x22; 140 * 2], 256),
        ],
    };
    let mut out = Vec::new();
    container::write(&bank, &mut out).expect("write streaming bank");
    out
}

fn parse_dump(text: &str) -> HashMap<String, String> {
    text.lines()
        .filter_map(|l| l.split_once('='))
        .map(|(k, v)| (k.to_string(), v.to_string()))
        .collect()
}

#[test]
fn dump_is_byte_stable_across_runs() {
    let bytes = buffer_bank();
    assert_eq!(describe(&bytes).unwrap(), describe(&bytes).unwrap());
}

#[test]
fn every_dump_line_is_a_key_value_pair() {
    let text = describe(&buffer_bank()).unwrap();
    assert!(text.ends_with('\n'), "output must be newline-terminated");
    for line in text.lines() {
        assert!(!line.is_empty(), "no blank lines");
        let (k, _) = line.split_once('=').expect("every line is key=value");
        assert!(
            k.chars()
                .all(|c| c.is_ascii_lowercase() || c.is_ascii_digit() || c == '.' || c == '_'),
            "key {k:?} must be greppable"
        );
    }
}

#[test]
fn dump_reports_the_documented_bank_and_segment_keys() {
    let bytes = buffer_bank();
    let d = parse_dump(&describe(&bytes).unwrap());

    assert_eq!(d["file.length"], bytes.len().to_string());
    assert_eq!(d["bank.name"], "asti");
    assert_eq!(d["bank.version"], "43");
    assert_eq!(d["bank.header_version"], "42");
    assert_eq!(d["bank.flags"], "0x00090000");
    assert_eq!(d["bank.type"], "buffer");
    assert_eq!(d["bank.has_entry_names"], "1");
    assert_eq!(d["bank.entry_count"], "1");
    assert_eq!(d["bank.entry_metadata_element_size"], "24");
    assert_eq!(d["bank.entry_name_element_size"], "64");
    assert_eq!(d["bank.alignment"], "4");
    assert_eq!(d["bank.compact_format"], "0");
    assert_eq!(d["bank.build_time"], "0");
    assert_eq!(d["bank.name_terminated"], "1");

    // Segment layout the engine's validator demands of a buffer bank.
    assert_eq!(d["segment0.offset"], "52");
    assert_eq!(d["segment0.length"], "96");
    assert_eq!(d["segment1.offset"], "148"); // 0x94
    assert_eq!(d["segment1.length"], "24");
    assert_eq!(d["segment2.length"], "0");
    assert_eq!(d["segment3.offset"], "172"); // 0x94 + 1*24
    assert_eq!(d["segment3.length"], "64");
    let seg4_off: usize = d["segment4.offset"].parse().unwrap();
    let seg4_len: usize = d["segment4.length"].parse().unwrap();
    assert_eq!(
        bytes.len() - seg4_off,
        seg4_len,
        "wave-data segment must run exactly to EOF"
    );
}

#[test]
fn dump_reports_the_documented_entry_keys() {
    let d = parse_dump(&describe(&buffer_bank()).unwrap());

    assert_eq!(d["entry0.name"], "asti");
    assert_eq!(d["entry0.codec"], "2");
    assert_eq!(d["entry0.channels"], "1");
    assert_eq!(d["entry0.sample_rate"], "44100");
    assert_eq!(d["entry0.block_align_raw"], "48");
    assert_eq!(d["entry0.block_align"], "70");
    assert_eq!(d["entry0.samples_per_block"], "128");
    assert_eq!(d["entry0.bits_per_sample_flag"], "0");
    assert_eq!(d["entry0.entry_flags"], "0");
    assert_eq!(d["entry0.duration"], "384");
    assert_eq!(d["entry0.data_offset"], "0");
    assert_eq!(d["entry0.data_length"], "210");
    assert_eq!(d["entry0.loop_start"], "0");
    assert_eq!(d["entry0.loop_length"], "384");
    assert_eq!(d["entry0.name_terminated"], "1");
}

#[test]
fn dump_handles_a_foreign_streaming_bank() {
    let d = parse_dump(&describe(&streaming_bank()).unwrap());

    assert_eq!(d["bank.type"], "streaming", "flags bit 0 set");
    assert_eq!(d["bank.flags"], "0x00090001");
    assert_eq!(d["bank.alignment"], "2048");
    assert_eq!(d["bank.entry_count"], "2");
    assert_eq!(d["bank.build_time"], 0x01CD_EFAD_3E0E_4F23_u64.to_string());
    assert_eq!(d["entry0.name"], "aaaa");
    assert_eq!(d["entry1.name"], "aaaa_s");
    // Streaming banks align each entry's data start to the bank alignment.
    assert_eq!(d["entry1.data_offset"], "2048");
}

#[test]
fn dump_rejects_a_non_bank() {
    assert!(describe(b"not a wave bank at all").is_err());
}

use ddr_chart_tools::xsb::{
    self, cue_name_hash_bucket, write_se, xact_crc16, XsbError, COMPLEX_CUE_COUNT,
    COMPLEX_SOUND_SIZE, CRC_DATA_START, CRC_OFFSET, CUE_ENTRY_SIZE, EMPTY_BUCKET, END_OF_CHAIN,
    HASH_BUCKET_COUNT, MAGIC, MAX_CODE_LEN, NAME_INDEX_ENTRY_SIZE, NO_OFFSET, PLATFORM,
    SE_SOUND_SIZE, SIMPLE_SOUND_SIZE, VERSION, WAVEBANK_COUNT,
};

/// Read a little-endian value from the generated XSB.
fn read_u16(buf: &[u8], offset: usize) -> u16 {
    u16::from_le_bytes(buf[offset..offset + 2].try_into().unwrap())
}
fn read_i16(buf: &[u8], offset: usize) -> i16 {
    i16::from_le_bytes(buf[offset..offset + 2].try_into().unwrap())
}
fn read_u32(buf: &[u8], offset: usize) -> u32 {
    u32::from_le_bytes(buf[offset..offset + 4].try_into().unwrap())
}
fn read_i32(buf: &[u8], offset: usize) -> i32 {
    i32::from_le_bytes(buf[offset..offset + 4].try_into().unwrap())
}

fn write_to_vec(code: &str) -> Vec<u8> {
    let mut v = Vec::new();
    xsb::write(code, &mut v).unwrap();
    v
}

// ---- Hash function verification --------------------------------------

#[test]
fn hash_is_deterministic_and_length_sensitive() {
    assert_ne!(
        cue_name_hash_bucket(b"test", 16),
        cue_name_hash_bucket(b"test_s", 16),
        "a name and its _s variant must generally map to different buckets"
    );
    assert_eq!(
        cue_name_hash_bucket(b"abcd", 16),
        cue_name_hash_bucket(b"abcd", 16)
    );
}

// ---- Output layout ---------------------------------------------------

#[test]
fn output_size_matches_spec() {
    assert_eq!(write_to_vec("test").len(), 326, "4-char code");
    assert_eq!(write_to_vec("t").len(), 320, "1-char code (326 - 6)");
    assert_eq!(write_to_vec("abcde").len(), 328, "5-char code");
}

#[test]
fn header_constants_match_spec() {
    let buf = write_to_vec("test");
    assert_eq!(read_u32(&buf, 0x00), MAGIC);
    assert_eq!(read_u16(&buf, 0x04), VERSION);
    assert_eq!(read_u16(&buf, 0x06), VERSION);
    assert_eq!(buf[0x12], PLATFORM);
    assert_eq!(read_u16(&buf, 0x13), 2, "simple_cue_count: main + preview");
    assert_eq!(read_u16(&buf, 0x15), COMPLEX_CUE_COUNT);
    assert_eq!(read_u16(&buf, 0x17), 0, "unknown@0x17 must be 0");
    assert_eq!(read_u16(&buf, 0x19), HASH_BUCKET_COUNT);
    assert_eq!(buf[0x1B], WAVEBANK_COUNT);
    assert_eq!(read_u16(&buf, 0x1C), 2, "sound_count: simple + complex");
    assert_eq!(read_u16(&buf, 0x20), 0, "unknown@0x20 must be 0");
    assert_eq!(read_i32(&buf, 0x26), NO_OFFSET, "complex_cue_off = -1");
    assert_eq!(read_i32(&buf, 0x2E), NO_OFFSET, "unknown@0x2e = -1");
    assert_eq!(read_i32(&buf, 0x32), NO_OFFSET, "variation_off = -1");
    assert_eq!(read_i32(&buf, 0x36), NO_OFFSET, "transition_off = -1");
}

#[test]
fn section_offsets_are_consistent_and_ordered() {
    let buf = write_to_vec("test");
    let sound = read_i32(&buf, 0x46);
    let simple_cue = read_i32(&buf, 0x22);
    let cue_hash = read_i32(&buf, 0x3E);
    let name_idx = read_i32(&buf, 0x42);
    let cue_names = read_i32(&buf, 0x2A);
    let wavebank_name = read_i32(&buf, 0x3A);

    assert_eq!(wavebank_name, 0x8A);
    assert_eq!(sound, 0xCA);
    assert!(sound < simple_cue);
    assert!(simple_cue < cue_hash);
    assert!(cue_hash < name_idx);
    assert!(name_idx < cue_names);
    assert!((cue_names as usize) < buf.len());
}

#[test]
fn soundbank_and_wavebank_names_carry_code() {
    let buf = write_to_vec("test");
    assert_eq!(&buf[0x4A..0x4E], b"test");
    assert_eq!(&buf[0x4E..0x8A], &[0u8; 0x3C]); // null-padded
    assert_eq!(&buf[0x8A..0x8E], b"test");
    assert_eq!(&buf[0x8E..0xCA], &[0u8; 0x3C]);
}

#[test]
fn sound_entries_have_expected_flags_and_categories() {
    let buf = write_to_vec("test");
    let sound = read_i32(&buf, 0x46) as usize;

    // COMPLEX preview is first (sound block starts with the preview sound).
    assert_eq!(buf[sound], 0x05, "complex sound flags");
    assert_eq!(read_u16(&buf, sound + 1), 3, "preview category");
    assert_eq!(read_u16(&buf, sound + 7), COMPLEX_SOUND_SIZE as u16);

    // SIMPLE main follows immediately after.
    let simple = sound + COMPLEX_SOUND_SIZE;
    assert_eq!(buf[simple], 0x04, "simple sound flags");
    assert_eq!(read_u16(&buf, simple + 1), 4, "main category");
    assert_eq!(read_u16(&buf, simple + 7), SIMPLE_SOUND_SIZE as u16);
}

#[test]
fn cues_point_at_sound_entries() {
    let buf = write_to_vec("test");
    let sound = read_i32(&buf, 0x46) as u32;
    let simple_cue = read_i32(&buf, 0x22) as usize;

    assert_eq!(buf[simple_cue], 0x04);
    assert_eq!(
        read_u32(&buf, simple_cue + 1),
        sound,
        "cue 0 -> preview sound (first in sound block)"
    );

    let cue1 = simple_cue + CUE_ENTRY_SIZE;
    assert_eq!(buf[cue1], 0x04);
    assert_eq!(
        read_u32(&buf, cue1 + 1),
        sound + COMPLEX_SOUND_SIZE as u32,
        "cue 1 -> main sound"
    );
}

#[test]
fn cue_name_strings_are_null_terminated_pair() {
    let buf = write_to_vec("test");
    let cue_names = read_i32(&buf, 0x2A) as usize;
    let len = read_u16(&buf, 0x1E) as usize;
    // Cue 0 (preview, "{code}_s") is listed first in the name table.
    assert_eq!(&buf[cue_names..cue_names + len], b"test_s\0test\0");
}

#[test]
fn hash_table_populates_buckets_for_both_cue_names() {
    let buf = write_to_vec("test");
    let hash_off = read_i32(&buf, 0x3E) as usize;

    let bucket_main = cue_name_hash_bucket(b"test", 16) as usize;
    let bucket_prev = cue_name_hash_bucket(b"test_s", 16) as usize;

    let val_main = read_u16(&buf, hash_off + bucket_main * 2);
    let val_prev = read_u16(&buf, hash_off + bucket_prev * 2);

    // Each cue name's bucket must hold a valid cue index (0 or 1), or
    // (for collision) one of them may point into a chain.
    assert_ne!(val_main, EMPTY_BUCKET, "main bucket must not be empty");
    assert_ne!(val_prev, EMPTY_BUCKET, "preview bucket must not be empty");

    // All 16 buckets together must hold exactly 2 non-empty entries
    // when the two names don't collide, or 1 entry (head of chain) when
    // they do. Either way, the sum of cue indices reachable from the
    // table must be {0, 1}.
    let mut reached = Vec::new();
    let name_idx_off = read_i32(&buf, 0x42) as usize;
    for b in 0..16 {
        let head = read_u16(&buf, hash_off + b * 2);
        let mut cur = head;
        while cur != EMPTY_BUCKET {
            reached.push(cur);
            let entry = name_idx_off + cur as usize * NAME_INDEX_ENTRY_SIZE;
            cur = read_u16(&buf, entry + 4); // next_in_chain
        }
    }
    reached.sort();
    assert_eq!(reached, vec![0, 1], "both cue indices must be reachable");
}

#[test]
fn name_index_points_at_the_correct_strings() {
    let buf = write_to_vec("test");
    let idx_off = read_i32(&buf, 0x42) as usize;
    let cue_names = read_i32(&buf, 0x2A) as u32;

    // Cue 0 name ("test_s") is at the start of the cue-name blob; cue 1
    // ("test") follows after "test_s\0" (7 bytes).
    let name0_off = read_u32(&buf, idx_off);
    let name1_off = read_u32(&buf, idx_off + NAME_INDEX_ENTRY_SIZE);

    assert_eq!(name0_off, cue_names);
    assert_eq!(name1_off, cue_names + 7); // "test_s\0"

    // Read the null-terminated strings at those offsets
    let read_cstr = |o: u32| -> &[u8] {
        let start = o as usize;
        let end = start + buf[start..].iter().position(|&b| b == 0).unwrap();
        &buf[start..end]
    };
    assert_eq!(read_cstr(name0_off), b"test_s");
    assert_eq!(read_cstr(name1_off), b"test");
}

// ---- CRC -------------------------------------------------------------

#[test]
fn crc_is_computed_and_nonzero() {
    let buf = write_to_vec("test");
    let crc = read_u16(&buf, CRC_OFFSET);
    assert_ne!(crc, 0, "CRC must not be left as zero");
}

#[test]
fn crc_validates_when_recomputed_from_output() {
    let buf = write_to_vec("test");
    let stored = read_u16(&buf, CRC_OFFSET);
    let recomputed = xact_crc16(&buf[CRC_DATA_START..]);
    assert_eq!(stored, recomputed, "output CRC must self-validate");
}

#[test]
fn crc_changes_with_code() {
    let a = write_to_vec("aaaa");
    let b = write_to_vec("bbbb");
    assert_ne!(
        &a[CRC_OFFSET..CRC_OFFSET + 2],
        &b[CRC_OFFSET..CRC_OFFSET + 2],
        "different codes must produce different CRCs"
    );
}

// ---- SE profile ------------------------------------------------------

/// Where the SE profile's cue-name strings begin. Every section ahead of
/// them is fixed-size (header 0x4A + two 64-byte name fields + one 12-byte
/// sound + one 5-byte cue + 16 buckets + one 6-byte name-index entry), so
/// this offset never moves.
const SE_CUE_NAMES_OFFSET: usize = 0x101;

fn write_se_to_vec(name: &str) -> Vec<u8> {
    let mut v = Vec::new();
    write_se(name, &mut v).unwrap();
    v
}

/// Total size of an SE bank for a name of `n` bytes: the fixed prefix plus
/// the one NUL-terminated cue name.
fn se_size(name_len: usize) -> usize {
    SE_CUE_NAMES_OFFSET + name_len + 1
}

#[test]
fn se_profile_header_declares_one_cue_one_sound_one_wavebank() {
    let buf = write_se_to_vec("asti");

    assert_eq!(read_u32(&buf, 0x00), MAGIC);
    assert_eq!(read_u16(&buf, 0x04), VERSION, "content_version");
    assert_eq!(read_u16(&buf, 0x06), VERSION, "tool_version");
    assert_eq!(buf[0x12], PLATFORM, "flags byte: cue-name table present");
    assert_eq!(read_u16(&buf, 0x13), 1, "simple_cue_count");
    assert_eq!(read_u16(&buf, 0x15), 0, "complex_cue_count");
    assert_eq!(read_u16(&buf, 0x17), 0, "unknown@0x17 must be 0");
    assert_eq!(buf[0x1B], WAVEBANK_COUNT, "wavebank_count");
    assert_eq!(read_u16(&buf, 0x1C), 1, "sound_count");
    assert_eq!(read_u16(&buf, 0x20), 0, "unknown@0x20 must be 0");
    assert_eq!(read_i32(&buf, 0x26), NO_OFFSET, "complex_cue_off = -1");
    assert_eq!(read_i32(&buf, 0x2E), NO_OFFSET, "unknown@0x2e = -1");
    assert_eq!(read_i32(&buf, 0x32), NO_OFFSET, "variation_off = -1");
    assert_eq!(read_i32(&buf, 0x36), NO_OFFSET, "transition_off = -1");
    assert_eq!(buf.len(), se_size(4), "4-char name");
}

/// The engine's XSB validator requires each section offset to equal the
/// running cursor *exactly*, and the cue-name string table to run exactly
/// to EOF with a NUL as the final byte. Assert the computed layout rather
/// than trusting it.
#[test]
fn se_profile_section_offsets_equal_the_running_cursor() {
    let buf = write_se_to_vec("asti");

    assert_eq!(read_i32(&buf, 0x3A), 0x8A, "wavebank_name_off");
    assert_eq!(read_i32(&buf, 0x46), 0xCA, "sound_off = 0x8A + 1*64");
    assert_eq!(read_i32(&buf, 0x22), 0xD6, "simple_cue_off = 0xCA + 12");
    assert_eq!(read_i32(&buf, 0x3E), 0xDB, "cue_hash_off = 0xD6 + 1*5");
    assert_eq!(read_i32(&buf, 0x42), 0xFB, "name_index_off = 0xDB + 16*2");
    assert_eq!(read_i32(&buf, 0x2A), 0x101, "cue_name_off = 0xFB + 1*6");

    let cue_names = read_i32(&buf, 0x2A) as usize;
    assert_eq!(
        read_u16(&buf, 0x1E) as usize,
        buf.len() - cue_names,
        "cue-name table must run exactly to EOF"
    );
    assert_eq!(buf[buf.len() - 1], 0, "last byte must be NUL");
}

#[test]
fn se_profile_sound_entry_is_bare_category_six_at_wave_index_zero() {
    let buf = write_se_to_vec("asti");
    let sound = read_i32(&buf, 0x46) as usize;

    assert_eq!(buf[sound] & 0x01, 0, "bit 0 clear => simple, not complex");
    assert_eq!(buf[sound] & 0x04, 0, "bit 2 clear => no RPC curve");
    assert_eq!(buf[sound], 0x00, "the bare SE form's whole flags byte");
    // Category 6 is the gameplay-SE mix bus: all 138 sounds in the game's
    // own se_normal.xsb use it. Volume 254 matches the system bank's
    // SYS_COIN / X_sys_OK1.
    assert_eq!(read_u16(&buf, sound + 1), 6, "category");
    assert_eq!(buf[sound + 3], 0xFE, "volume");
    assert_eq!(read_i16(&buf, sound + 4), 0, "pitch");
    assert_eq!(buf[sound + 6], 0, "priority");
    assert_eq!(
        read_u16(&buf, sound + 7),
        SE_SOUND_SIZE as u16,
        "entry_length"
    );
    assert_eq!(read_u16(&buf, sound + 9), 0, "wave_index");
    assert_eq!(buf[sound + 11], 0, "wavebank_index");

    // No room for a trailing RPC block or a second sound: the whole sound
    // section is the 12-byte entry and the cue array starts immediately.
    let simple_cue = read_i32(&buf, 0x22) as usize;
    assert_eq!(simple_cue - sound, SE_SOUND_SIZE);
}

#[test]
fn se_profile_still_clamps_the_bucket_count_to_sixteen() {
    let buf = write_se_to_vec("asti");
    assert_eq!(
        read_u16(&buf, 0x19),
        HASH_BUCKET_COUNT,
        "total_cues = max(16, simple + complex) = 16 even with one cue"
    );
    let hash = read_i32(&buf, 0x3E) as usize;
    let name_index = read_i32(&buf, 0x42) as usize;
    assert_eq!(name_index - hash, HASH_BUCKET_COUNT as usize * 2);
}

#[test]
fn se_profile_writes_the_name_identically_in_both_name_fields() {
    let buf = write_se_to_vec("AsTi");

    assert_eq!(&buf[0x4A..0x4E], b"AsTi", "soundbank name, case preserved");
    assert_eq!(&buf[0x4E..0x8A], &[0u8; 0x3C], "null-padded to 64");
    assert_eq!(&buf[0x8A..0x8E], b"AsTi", "wavebank name, case preserved");
    assert_eq!(&buf[0x8E..0xCA], &[0u8; 0x3C], "null-padded to 64");

    // The engine matches a sound bank to its wave bank by name; the match
    // is byte-exact, so the two fields must be indistinguishable.
    assert_eq!(&buf[0x4A..0x8A], &buf[0x8A..0xCA]);
}

#[test]
fn se_profile_cue_resolves_by_name_through_the_hash_table() {
    let buf = write_se_to_vec("asti");
    let hash = read_i32(&buf, 0x3E) as usize;
    let name_index = read_i32(&buf, 0x42) as usize;
    let cue_names = read_i32(&buf, 0x2A) as usize;

    let bucket = cue_name_hash_bucket(b"asti", HASH_BUCKET_COUNT) as usize;
    assert_eq!(
        read_u16(&buf, hash + bucket * 2),
        0,
        "the name's bucket must hold cue index 0"
    );
    for b in 0..HASH_BUCKET_COUNT as usize {
        if b != bucket {
            assert_eq!(
                read_u16(&buf, hash + b * 2),
                EMPTY_BUCKET,
                "bucket {b} must be empty (validator: 0xFFFF or < cue count)"
            );
        }
    }

    assert_eq!(
        read_u32(&buf, name_index) as usize,
        cue_names,
        "name_offset"
    );
    assert_eq!(
        read_u16(&buf, name_index + 4),
        END_OF_CHAIN,
        "single cue => chain of length 1"
    );
    assert_eq!(&buf[cue_names..], b"asti\0", "the whole cue-name table");
}

#[test]
fn se_profile_cue_points_at_the_sound_entry() {
    let buf = write_se_to_vec("asti");
    let sound = read_i32(&buf, 0x46) as u32;
    let cue = read_i32(&buf, 0x22) as usize;

    // Validator: bits 0 and 1 clear, bit 2 set.
    assert_eq!(buf[cue], 0x04, "playable sound cue");
    assert_eq!(read_u32(&buf, cue + 1), sound);
}

#[test]
fn se_profile_crc_validates_when_recomputed_from_output() {
    let buf = write_se_to_vec("asti");
    let stored = read_u16(&buf, CRC_OFFSET);
    assert_ne!(stored, 0, "CRC must not be left as zero");
    assert_eq!(stored, xact_crc16(&buf[CRC_DATA_START..]));
}

#[test]
fn se_profile_crc_changes_with_name() {
    let a = write_se_to_vec("aaaa");
    let b = write_se_to_vec("bbbb");
    assert_ne!(
        &a[CRC_OFFSET..CRC_OFFSET + 2],
        &b[CRC_OFFSET..CRC_OFFSET + 2]
    );
}

#[test]
fn se_profile_accepts_boundary_name_lengths() {
    assert_eq!(write_se_to_vec("a").len(), se_size(1));
    let max = "a".repeat(MAX_CODE_LEN);
    assert_eq!(write_se_to_vec(&max).len(), se_size(MAX_CODE_LEN));
}

#[test]
fn se_profile_rejects_invalid_names() {
    for bad in ["", "a-b!", "as ti"] {
        assert!(
            matches!(
                write_se(bad, &mut Vec::new()),
                Err(XsbError::BadCode { .. })
            ),
            "expected BadCode for {bad:?}"
        );
    }
    let long = "a".repeat(MAX_CODE_LEN + 1);
    assert!(matches!(
        write_se(&long, &mut Vec::new()),
        Err(XsbError::BadCode { .. })
    ));
}

const SONG_PROFILE_TEST_BYTES: [u8; 326] = [
    0x53, 0x44, 0x42, 0x4B, 0x2B, 0x00, 0x2B, 0x00, 0x9A, 0xD2, 0x00, 0x00,
    0x00, 0x00, 0x00, 0x00, 0x00, 0x00, 0x01, 0x02, 0x00, 0x00, 0x00, 0x00,
    0x00, 0x10, 0x00, 0x01, 0x02, 0x00, 0x0C, 0x00, 0x00, 0x00, 0x04, 0x01,
    0x00, 0x00, 0xFF, 0xFF, 0xFF, 0xFF, 0x3A, 0x01, 0x00, 0x00, 0xFF, 0xFF,
    0xFF, 0xFF, 0xFF, 0xFF, 0xFF, 0xFF, 0xFF, 0xFF, 0xFF, 0xFF, 0x8A, 0x00,
    0x00, 0x00, 0x0E, 0x01, 0x00, 0x00, 0x2E, 0x01, 0x00, 0x00, 0xCA, 0x00,
    0x00, 0x00, 0x74, 0x65, 0x73, 0x74, 0x00, 0x00, 0x00, 0x00, 0x00, 0x00,
    0x00, 0x00, 0x00, 0x00, 0x00, 0x00, 0x00, 0x00, 0x00, 0x00, 0x00, 0x00,
    0x00, 0x00, 0x00, 0x00, 0x00, 0x00, 0x00, 0x00, 0x00, 0x00, 0x00, 0x00,
    0x00, 0x00, 0x00, 0x00, 0x00, 0x00, 0x00, 0x00, 0x00, 0x00, 0x00, 0x00,
    0x00, 0x00, 0x00, 0x00, 0x00, 0x00, 0x00, 0x00, 0x00, 0x00, 0x00, 0x00,
    0x00, 0x00, 0x00, 0x00, 0x00, 0x00, 0x74, 0x65, 0x73, 0x74, 0x00, 0x00,
    0x00, 0x00, 0x00, 0x00, 0x00, 0x00, 0x00, 0x00, 0x00, 0x00, 0x00, 0x00,
    0x00, 0x00, 0x00, 0x00, 0x00, 0x00, 0x00, 0x00, 0x00, 0x00, 0x00, 0x00,
    0x00, 0x00, 0x00, 0x00, 0x00, 0x00, 0x00, 0x00, 0x00, 0x00, 0x00, 0x00,
    0x00, 0x00, 0x00, 0x00, 0x00, 0x00, 0x00, 0x00, 0x00, 0x00, 0x00, 0x00,
    0x00, 0x00, 0x00, 0x00, 0x00, 0x00, 0x00, 0x00, 0x00, 0x00, 0x05, 0x03,
    0x00, 0xB4, 0x00, 0x00, 0x00, 0x27, 0x00, 0x01, 0x07, 0x00, 0x01, 0xF8,
    0x00, 0x00, 0x00, 0xB4, 0xE0, 0x00, 0x00, 0x00, 0x01, 0x01, 0x00, 0x00,
    0x20, 0x00, 0x00, 0xFF, 0x0C, 0x00, 0x00, 0x00, 0xFF, 0x00, 0x00, 0x00,
    0x00, 0x04, 0x04, 0x00, 0xB4, 0x00, 0x00, 0x00, 0x13, 0x00, 0x01, 0x00,
    0x00, 0x07, 0x00, 0x01, 0xF8, 0x00, 0x00, 0x00, 0x04, 0xCA, 0x00, 0x00,
    0x00, 0x04, 0xF1, 0x00, 0x00, 0x00, 0xFF, 0xFF, 0xFF, 0xFF, 0xFF, 0xFF,
    0x00, 0x00, 0xFF, 0xFF, 0xFF, 0xFF, 0xFF, 0xFF, 0x01, 0x00, 0xFF, 0xFF,
    0xFF, 0xFF, 0xFF, 0xFF, 0xFF, 0xFF, 0xFF, 0xFF, 0xFF, 0xFF, 0xFF, 0xFF,
    0xFF, 0xFF, 0x3A, 0x01, 0x00, 0x00, 0xFF, 0xFF, 0x41, 0x01, 0x00, 0x00,
    0xFF, 0xFF, 0x74, 0x65, 0x73, 0x74, 0x5F, 0x73, 0x00, 0x74, 0x65, 0x73,
    0x74, 0x00,
];

#[test]
fn song_profile_output_is_byte_identical_to_the_captured_golden() {
    let buf = write_to_vec("test");
    assert_eq!(
        buf.len(),
        SONG_PROFILE_TEST_BYTES.len(),
        "song-profile output length changed"
    );
    if let Some(i) = buf
        .iter()
        .zip(SONG_PROFILE_TEST_BYTES.iter())
        .position(|(a, b)| a != b)
    {
        panic!(
            "song-profile output changed at byte {i:#06x}: got {:#04x}, expected {:#04x}",
            buf[i], SONG_PROFILE_TEST_BYTES[i]
        );
    }
}

// ---- Input validation ------------------------------------------------

#[test]
fn rejects_empty_code() {
    let mut out = Vec::new();
    assert!(matches!(xsb::write("", &mut out), Err(XsbError::BadCode { .. })));
}

#[test]
fn rejects_too_long_code() {
    let mut out = Vec::new();
    let long = "a".repeat(MAX_CODE_LEN + 1);
    assert!(matches!(
        xsb::write(&long, &mut out),
        Err(XsbError::BadCode { .. })
    ));
}

#[test]
fn rejects_non_alphanumeric() {
    let mut out = Vec::new();
    assert!(matches!(
        xsb::write("a-b!", &mut out),
        Err(XsbError::BadCode { .. })
    ));
}

#[test]
fn accepts_boundary_lengths() {
    assert!(xsb::write(&"a".repeat(MAX_CODE_LEN), &mut Vec::new()).is_ok());
    assert!(xsb::write("a", &mut Vec::new()).is_ok());
}

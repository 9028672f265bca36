use ddr_chart_tools::job::convert::chart_warnings;
use ddr_chart_tools::ssc::warnings::warnings as simfile_warnings;
use ddr_chart_tools::ssq::warnings::warnings;
use ddr_chart_tools::ssq_legacy::modernize::{modernize, modernize_warning};

fn chunk(ty: u16, param2: u16, count: u16, body: &[u8]) -> Vec<u8> {
    let mut bytes = (12 + body.len() as u32).to_le_bytes().to_vec();
    for field in [ty, param2, count, 0] {
        bytes.extend_from_slice(&field.to_le_bytes());
    }
    bytes.extend_from_slice(body);
    bytes
}

fn tempo(tps: u16, pairs: &[(i32, i32)]) -> Vec<u8> {
    let mut body = Vec::new();
    for pair in pairs {
        body.extend_from_slice(&pair.0.to_le_bytes());
    }
    for pair in pairs {
        body.extend_from_slice(&pair.1.to_le_bytes());
    }
    chunk(1, tps, pairs.len() as u16, &body)
}

fn entry(tick: i32, panels: u8, flags: u8, reserved: u16) -> Vec<u8> {
    let mut bytes = tick.to_le_bytes().to_vec();
    bytes.push(panels);
    bytes.push(flags);
    bytes.extend_from_slice(&reserved.to_le_bytes());
    bytes
}

fn file(chunks: &[Vec<u8>]) -> Vec<u8> {
    let mut bytes: Vec<u8> = chunks.concat();
    bytes.extend_from_slice(&[0, 0, 0, 0]);
    bytes
}

#[test]
fn ordinary_stepfiles_raise_no_warning() {
    let bytes = file(&[
        tempo(1000, &[(0, 0), (4096, 2000)]),
        chunk(2, 1, 0, &[]),
        chunk(3, 0x0114, 0, &[]),
    ]);
    assert!(warnings(&bytes).is_empty());
    assert!(chart_warnings(&bytes, true).is_empty());
}

#[test]
fn odd_rates_and_parameters_are_told() {
    let bytes = file(&[
        tempo(75, &[(0, 0), (4096, 150)]),
        chunk(2, 3, 0, &[]),
        chunk(9, 0, 0, &[1, 2, 3, 4]),
    ]);
    assert_eq!(
        warnings(&bytes),
        vec![
            "unexpected TPS 75 in tempo chunk at byte 0 (expected 150 or 1000)",
            "events chunk at byte 28 has param2=3 (expected 1)",
            "dropping auxiliary chunk type 9 at byte 40 (size 16)",
        ]
    );
}

#[test]
fn skipped_and_mended_mines_are_told() {
    let body = [
        entry(-1, 1, 0, 0),
        entry(0, 1, 2, 0),
        entry(0, 1, 0, 3),
        entry(0, 0, 0, 0),
        entry(0, 0x0F, 0, 0),
        entry(0, 0x11, 0, 0),
        entry(0, 0x01, 0, 0),
    ]
    .concat();
    let bytes = file(&[chunk(3, 0x0114, 0, &[]), chunk(20, 0x0114, 7, &body)]);
    assert_eq!(
        warnings(&bytes),
        vec![
            "mine entry at byte 24: beat_count -1 is negative; skipping",
            "mine entry at byte 32: flags=0x02 is non-zero; skipping",
            "mine entry at byte 40: reserved=0x0003 is non-zero; skipping",
            "mine entry at byte 48: panels=0x00 is a no-op; skipping",
            "mine entry at byte 56: panels=0x0F is a shock-mask; recovering as BothSides shock",
            "mine entry at byte 64: Single-mode chunk with panels=0x11 has high-nibble bits set; skipping",
        ]
    );
}

#[test]
fn mine_chunks_without_a_chart_are_told() {
    let one = entry(0, 1, 0, 0);
    let bytes = file(&[
        chunk(3, 0x0114, 0, &[]),
        chunk(20, 0x0114, 1, &one),
        chunk(20, 0x0114, 1, &one),
        chunk(20, 0x0218, 1, &one),
        chunk(20, 0, 1, &one),
        chunk(20, 0x0514, 1, &one),
        chunk(20, 0x0114, 2, &one),
    ]);
    assert_eq!(
        warnings(&bytes),
        vec![
            "orphan mine chunk at byte 72: param2=0 (not paired to any chart); skipping",
            "mine chunk at byte 92: param2=0x0514 is not a valid difficulty code; skipping entire chunk",
            "mine chunk at byte 112: declared length 20 does not match entry count 2 (expected 28)",
            "duplicate mine chunk param2=0x0114: already attached a chunk to this chart; discarding 1 entries from the subsequent chunk",
            "orphan mine chunk param2=0x0218: no step chunk with this difficulty code; discarding 1 entries",
        ]
    );
}

#[test]
fn charts_that_are_left_out_are_told() {
    let ssc = "#NOTES:pump-single::Easy:3::1000;\n#NOTES:dance-single::Edit:3::1000;\n\
               #NOTEDATA:;\n#DIFFICULTY: Edit ;\n#NOTEDATA:;\n#DIFFICULTY:Easy;\n";
    assert_eq!(
        simfile_warnings(ssc, false),
        vec![
            "skipping unsupported stepstype: pump-single",
            "skipping Edit chart",
            "skipping Edit chart",
        ]
    );
    let sm = "#NOTES:dance-single::Edit:3::1000;\n#NOTEDATA:;\n#NOTES:pump-single::Easy:3::1000;\n";
    assert_eq!(
        simfile_warnings(sm, true),
        vec!["skipping Edit chart", "skipping unsupported stepstype: pump-single"]
    );
}

#[test]
fn failed_modernization_is_told() {
    let far = file(&[
        tempo(150, &[(-2, 0), (i32::MAX, 300)]),
        chunk(2, 1, 0, &[]),
        chunk(3, 0x0114, 0, &[]),
    ]);
    assert_eq!(
        chart_warnings(&far, true),
        vec!["modernize: tempo tick overflow during shift"]
    );
    assert!(chart_warnings(&far, false).is_empty());
    let long = file(&[
        tempo(150, &[(0, 0), (4096, i32::MAX)]),
        chunk(2, 1, 0, &[]),
        chunk(3, 0x0114, 0, &[]),
    ]);
    let parsed = ddr_chart_tools::ssq::parse(&long).unwrap();
    assert_eq!(
        modernize_warning(&parsed),
        Some("modernize: tempo seconds-tick rescale overflow")
    );
}

#[test]
fn events_move_with_the_farthest_origin() {
    let bytes = file(&[
        tempo(150, &[(i32::MIN, 0), (-1, 300)]),
        chunk(2, 1, 1, &[0, 0, 0, 0x80, 2, 1, 0, 0]),
        chunk(3, 0x0114, 0, &[]),
    ]);
    let mut parsed = ddr_chart_tools::ssq::parse(&bytes).unwrap();
    modernize(&mut parsed);
    assert_eq!(parsed.raw_tempo_pairs, vec![(0, 0), (i32::MAX, 2000)]);
    assert_eq!(parsed.events[0].tick, 0);
}

use ddr_chart_tools::cli::job::Format;
use ddr_chart_tools::util::pair::{find_pairs, FileEntry};

fn listing(files: &[&str]) -> Vec<FileEntry> {
    files
        .iter()
        .map(|name| FileEntry {
            name: name.to_string(),
            is_file: true,
        })
        .collect()
}

#[test]
fn pairs_ddr_ssq_xwb() {
    let dir = listing(&["foo.ssq", "foo.xwb", "bar.ssq", "bar.xwb"]);
    let result = find_pairs(&dir, Format::Ddr);
    assert_eq!(result.pairs.len(), 2);
    assert!(result.unpaired_charts.is_empty());
    assert!(result.unpaired_audio.is_empty());
}

#[test]
fn unpaired_chart_reported() {
    let dir = listing(&["foo.ssq"]);
    let result = find_pairs(&dir, Format::Ddr);
    assert!(result.pairs.is_empty());
    assert_eq!(result.unpaired_charts.len(), 1);
}

#[test]
fn unpaired_audio_reported() {
    let dir = listing(&["foo.xwb"]);
    let result = find_pairs(&dir, Format::Ddr);
    assert!(result.pairs.is_empty());
    assert_eq!(result.unpaired_audio.len(), 1);
}

#[test]
fn ambiguous_audio_in_legacy_mode() {
    let dir = listing(&["foo.ssq", "foo.xwb", "foo.wavm"]);
    let result = find_pairs(&dir, Format::DdrLegacy);
    assert!(result.pairs.is_empty());
    assert_eq!(result.ambiguous.len(), 1);
    assert_eq!(result.ambiguous[0].1.len(), 2);
}

#[test]
fn ignores_wrong_extensions() {
    let dir = listing(&["foo.ssq", "foo.xwb", "readme.txt", "notes.md"]);
    let result = find_pairs(&dir, Format::Ddr);
    assert_eq!(result.pairs.len(), 1);
}

#[test]
fn sm5_pairs_ssc_and_sm_with_ogg() {
    let dir = listing(&["a.ssc", "a.ogg", "b.sm", "b.ogg"]);
    let result = find_pairs(&dir, Format::Sm5);
    assert_eq!(result.pairs.len(), 2);
}

#[test]
fn ignores_subdirectories() {
    let mut dir = listing(&["foo.ssq", "foo.xwb"]);
    dir.push(FileEntry {
        name: "subdir".to_string(),
        is_file: false,
    });
    let result = find_pairs(&dir, Format::Ddr);
    assert_eq!(result.pairs.len(), 1);
}

#[test]
fn legacy_pairs_ultramix_all_suffix_with_wavm() {
    // Ultramix: abs2_all.ssq pairs with abs2.wavm.
    let dir = listing(&["abs2_all.ssq", "abs2.wavm"]);
    let result = find_pairs(&dir, Format::DdrLegacy);
    assert_eq!(result.pairs.len(), 1);
    assert!(result.unpaired_charts.is_empty());
    assert!(result.unpaired_audio.is_empty());
}

#[test]
fn legacy_pairs_plain_stems_unchanged() {
    // Non-Ultramix legacy pair still works with matching stems.
    let dir = listing(&["foo.ssq", "foo.wavm"]);
    let result = find_pairs(&dir, Format::DdrLegacy);
    assert_eq!(result.pairs.len(), 1);
}

//! Human- and script-readable dump of an XWB wave bank's metadata.
//!
//! Owns the *presentation* of a parsed bank's header, segment table and
//! per-entry metadata. It owns no parsing of its own beyond re-reading the two
//! things [`crate::xwb::container::parse`] discards — the five segment
//! descriptors and `dwEntryMetaDataElementSize` — because those are exactly
//! what a caller needs in order to check a bank against the engine's
//! container-validator rules.
//!
//! # Output format — treat this as an interface
//!
//! [`describe`] emits one `key=value` per line, newline-terminated, no blank
//! lines, in a fixed order. Keys are lowercase ASCII plus `.` and `_`, so a
//! shell script can rely on `grep '^bank.alignment=' | cut -d= -f2`.
//!
//! ```text
//! file.length=<bytes>                        total size of the file
//! bank.name=<string>                         szBankName up to the first NUL
//! bank.name_terminated=0|1                   byte 63 of the 64-byte name field is NUL
//! bank.version=<u32>                         dwVersion (always 43 here)
//! bank.header_version=<u32>                  dwHeaderVersion (must be 42)
//! bank.flags=0x%08X                          dwFlags
//! bank.type=buffer|streaming                 dwFlags bit 0
//! bank.has_entry_names=0|1                   dwFlags bit 16
//! bank.entry_count=<u32>
//! bank.entry_metadata_element_size=<u32>     must be 24 (non-compact)
//! bank.entry_name_element_size=<u32>         must be 64
//! bank.alignment=<u32>                       >= 4, or >= 2048 when streaming
//! bank.compact_format=<u32>
//! bank.build_time=<u64>                      never validated by the engine
//! segment<N>.offset=<u32>                    N = 0..4
//! segment<N>.length=<u32>
//! entry<N>.name=<string>
//! entry<N>.name_terminated=0|1               byte 63 of the entry's name field
//! entry<N>.codec=<u8>                        0=PCM 1=XMA 2=MS-ADPCM
//! entry<N>.channels=<u8>
//! entry<N>.sample_rate=<u32>
//! entry<N>.block_align_raw=<u8>              as stored in the format bitfield
//! entry<N>.block_align=<u32>                 derived: (raw + 22) * channels
//! entry<N>.samples_per_block=<u32>           derived
//! entry<N>.bits_per_sample_flag=0|1          PCM only: 0=8-bit 1=16-bit
//! entry<N>.entry_flags=<u32>                 low nibble of dwFlagsAndDuration
//! entry<N>.duration=<u32>                    dwFlagsAndDuration >> 4, in samples
//! entry<N>.data_offset=<u32>                 relative to segment 4
//! entry<N>.data_length=<u32>
//! entry<N>.loop_start=<u32>
//! entry<N>.loop_length=<u32>
//! ```
//!
//! `entry_flags` and `duration` are reported separately rather than as the
//! packed `dwFlagsAndDuration` word because the engine constrains them
//! independently: the flag nibble must be zero, and the duration must be at
//! least `loop_start + loop_length`.
//!
//! `bank.type` is the field to check first. The bank-type bit is a hard gate in
//! *both* directions — `CreateInMemoryWaveBank` requires it clear and the
//! file-backed path requires it set — so a bank of the wrong type is rejected
//! outright rather than merely misbehaving.

use crate::util::io::{get_u32, le32};
use crate::util::text::{dec, dec_string, digits_fixed, push_fixed};
use crate::xwb::container::{
    self, align_of, block_frames, block_size, channels_of, entries_view, field_text, rate_of,
    segment, segment_length, segment_offset, xwb_outcome, BankView, EntryView, XwbBank, XwbEntry,
    XwbError,
};
use vstd::prelude::*;
use vstd::string::StringExecFns;

verus! {

/// One line of the dump.
pub open spec fn line(key: Seq<char>, value: Seq<char>) -> Seq<char> {
    key + "="@ + value + "\n"@
}

/// One line of the dump, with a number.
pub open spec fn number_line(key: Seq<char>, value: int) -> Seq<char> {
    line(key, dec(value as nat))
}

/// 1 for true, 0 for false.
pub open spec fn bit(b: bool) -> int {
    if b {
        1
    } else {
        0
    }
}

/// The lines on the bank.
pub open spec fn bank_lines(bytes: Seq<u8>, bank: BankView) -> Seq<char> {
    number_line("file.length"@, bytes.len() as int) + line("bank.name"@, field_text(bank.name))
        + number_line("bank.name_terminated"@, bit(bank.name[63] == 0)) + number_line(
        "bank.version"@,
        le32(bytes, 4) as int,
    ) + number_line("bank.header_version"@, bank.header_version as int) + line(
        "bank.flags"@,
        "0x"@ + digits_fixed(bank.flags as nat, 16, 8),
    ) + line(
        "bank.type"@,
        if bank.flags % 2 == 0 {
            "buffer"@
        } else {
            "streaming"@
        },
    ) + number_line("bank.has_entry_names"@, bit(bank.flags as int / 0x1_0000 % 2 == 1))
        + number_line("bank.entry_count"@, bank.entries.len() as int) + number_line(
        "bank.entry_metadata_element_size"@,
        le32(segment(bytes, 0), 72) as int,
    ) + number_line("bank.entry_name_element_size"@, bank.entry_name_element_size as int)
        + number_line("bank.alignment"@, bank.alignment as int) + number_line(
        "bank.compact_format"@,
        bank.compact_format as int,
    ) + number_line("bank.build_time"@, bank.build_time as int)
}

/// The key of field `field` of the `i`th of a kind of thing.
pub open spec fn indexed_key(kind: Seq<char>, i: int, field: Seq<char>) -> Seq<char> {
    kind + dec(i as nat) + field
}

/// The lines on the first `n` segments.
pub open spec fn segment_lines(bytes: Seq<u8>, n: nat) -> Seq<char>
    decreases n,
{
    if n == 0 {
        Seq::empty()
    } else {
        segment_lines(bytes, (n - 1) as nat) + number_line(
            indexed_key("segment"@, n - 1, ".offset"@),
            segment_offset(bytes, n - 1),
        ) + number_line(
            indexed_key("segment"@, n - 1, ".length"@),
            segment_length(bytes, n - 1),
        )
    }
}

/// The line on one field of entry `i`.
pub open spec fn entry_line(i: int, field: Seq<char>, value: int) -> Seq<char> {
    number_line(indexed_key("entry"@, i, field), value)
}

/// The lines on entry `i`.
#[verifier::opaque]
pub open spec fn entry_lines(i: int, e: EntryView, data_offset: int) -> Seq<char> {
    let f = e.format@;
    line(indexed_key("entry"@, i, ".name"@), field_text(e.name_bytes)) + entry_line(
        i,
        ".name_terminated"@,
        bit(e.name_bytes.len() > 63 && e.name_bytes[63] == 0),
    ) + entry_line(i, ".codec"@, f as int % 4) + entry_line(i, ".channels"@, channels_of(f))
        + entry_line(i, ".sample_rate"@, rate_of(f)) + entry_line(
        i,
        ".block_align_raw"@,
        align_of(f),
    ) + entry_line(i, ".block_align"@, block_size(f)) + entry_line(
        i,
        ".samples_per_block"@,
        block_frames(f),
    ) + entry_line(i, ".bits_per_sample_flag"@, f as int / 0x8000_0000) + entry_line(
        i,
        ".entry_flags"@,
        e.flags_and_duration as int % 16,
    ) + entry_line(i, ".duration"@, e.flags_and_duration as int / 16) + entry_line(
        i,
        ".data_offset"@,
        data_offset,
    ) + entry_line(i, ".data_length"@, e.data.len() as int) + entry_line(
        i,
        ".loop_start"@,
        e.loop_start as int,
    ) + entry_line(i, ".loop_length"@, e.loop_length as int)
}

/// The lines on the first `n` entries.
pub open spec fn entries_lines(bytes: Seq<u8>, entries: Seq<EntryView>, n: nat) -> Seq<char>
    decreases n,
{
    if n == 0 {
        Seq::empty()
    } else {
        entries_lines(bytes, entries, (n - 1) as nat) + entry_lines(
            n - 1,
            entries[n - 1],
            le32(segment(bytes, 1), 24 * (n - 1) + 8) as int,
        )
    }
}

/// The dump of a bank.
pub open spec fn dump_text(bytes: Seq<u8>, bank: BankView) -> Seq<char> {
    bank_lines(bytes, bank) + segment_lines(bytes, 5) + entries_lines(
        bytes,
        bank.entries,
        bank.entries.len(),
    )
}

fn put_line(out: &mut String, key: &str, value: &str)
    ensures
        final(out)@ == old(out)@ + line(key@, value@),
{
    out.append(key);
    out.append("=");
    out.append(value);
    out.append("\n");
    assert(out@ =~= old(out)@ + line(key@, value@));
}

fn put_number(out: &mut String, key: &str, value: u64)
    ensures
        final(out)@ == old(out)@ + number_line(key@, value as int),
{
    put_line(out, key, dec_string(value as u128).as_str())
}

fn make_key(kind: &str, i: usize, field: &str) -> (key: String)
    ensures
        key@ == indexed_key(kind@, i as int, field@),
{
    kind.to_owned().concat(dec_string(i as u128).as_str()).concat(field)
}

fn bool_bit(value: bool) -> (b: u64)
    ensures
        b == bit(value),
{
    if value {
        1
    } else {
        0
    }
}

fn write_bank(out: &mut String, bytes: &[u8], bank: &XwbBank, version: u32, meta_size: u32)
    requires
        version == le32(bytes@, 4),
        meta_size == le32(segment(bytes@, 0), 72),
    ensures
        final(out)@ == old(out)@ + bank_lines(bytes@, bank@),
{
    let mut flags = "0x".to_owned();
    push_fixed(&mut flags, bank.flags as u128, 16, 8);
    let mut text = String::new();
    put_number(&mut text, "file.length", bytes.len() as u64);
    assert(text@ =~= number_line("file.length"@, bytes@.len() as int));
    put_line(&mut text, "bank.name", bank.name_str());
    put_number(&mut text, "bank.name_terminated", bool_bit(bank.name[63] == 0));
    put_number(&mut text, "bank.version", version as u64);
    put_number(&mut text, "bank.header_version", bank.header_version as u64);
    put_line(&mut text, "bank.flags", flags.as_str());
    put_line(
        &mut text,
        "bank.type",
        if bank.flags % 2 == 0 {
            "buffer"
        } else {
            "streaming"
        },
    );
    put_number(
        &mut text,
        "bank.has_entry_names",
        bool_bit(bank.flags / 0x1_0000 % 2 == 1),
    );
    put_number(&mut text, "bank.entry_count", bank.entries.len() as u64);
    put_number(&mut text, "bank.entry_metadata_element_size", meta_size as u64);
    put_number(
        &mut text,
        "bank.entry_name_element_size",
        bank.entry_name_element_size as u64,
    );
    put_number(&mut text, "bank.alignment", bank.alignment as u64);
    put_number(&mut text, "bank.compact_format", bank.compact_format as u64);
    put_number(&mut text, "bank.build_time", bank.build_time);
    assert(text@ == bank_lines(bytes@, bank@));
    out.append(text.as_str());
}

fn write_segments(out: &mut String, bytes: &[u8])
    requires
        bytes@.len() >= 52,
    ensures
        final(out)@ == old(out)@ + segment_lines(bytes@, 5),
{
    let mut i: usize = 0;
    assert(old(out)@ =~= old(out)@ + segment_lines(bytes@, 0));
    while i < 5
        invariant
            i <= 5,
            bytes@.len() >= 52,
            out@ == old(out)@ + segment_lines(bytes@, i as nat),
        decreases 5 - i,
    {
        let ghost before = out@;
        put_number(
            out,
            make_key("segment", i, ".offset").as_str(),
            get_u32(bytes, 12 + 8 * i) as u64,
        );
        put_number(
            out,
            make_key("segment", i, ".length").as_str(),
            get_u32(bytes, 16 + 8 * i) as u64,
        );
        i = i + 1;
        assert(out@ =~= old(out)@ + segment_lines(bytes@, i as nat));
    }
}

/// Append the line on one field of entry `i`.
fn put_entry(out: &mut String, i: usize, field: &str, value: u64)
    ensures
        final(out)@ == old(out)@ + entry_line(i as int, field@, value as int),
{
    put_number(out, make_key("entry", i, field).as_str(), value)
}

fn write_entry(out: &mut String, i: usize, entry: &XwbEntry, data_offset: u32)
    ensures
        final(out)@ == old(out)@ + entry_lines(i as int, entry@, data_offset as int),
{
    proof {
        reveal(entry_lines);
    }
    let fmt = entry.format;
    let name_terminated: bool = entry.name_bytes.len() > 63 && entry.name_bytes[63] == 0;
    let mut text = String::new();
    put_line(&mut text, make_key("entry", i, ".name").as_str(), entry.name_str());
    assert(text@ =~= line(
        indexed_key("entry"@, i as int, ".name"@),
        field_text(entry.name_bytes@),
    ));
    put_entry(&mut text, i, ".name_terminated", bool_bit(name_terminated));
    put_entry(&mut text, i, ".codec", fmt.codec() as u64);
    put_entry(&mut text, i, ".channels", fmt.channels() as u64);
    put_entry(&mut text, i, ".sample_rate", fmt.sample_rate() as u64);
    put_entry(&mut text, i, ".block_align_raw", fmt.block_align_raw() as u64);
    put_entry(&mut text, i, ".block_align", fmt.block_align() as u64);
    put_entry(&mut text, i, ".samples_per_block", fmt.samples_per_block() as u64);
    put_entry(&mut text, i, ".bits_per_sample_flag", fmt.bits_per_sample_flag() as u64);
    put_entry(&mut text, i, ".entry_flags", (entry.flags_and_duration % 16) as u64);
    put_entry(&mut text, i, ".duration", (entry.flags_and_duration / 16) as u64);
    put_entry(&mut text, i, ".data_offset", data_offset as u64);
    put_entry(&mut text, i, ".data_length", entry.data.len() as u64);
    put_entry(&mut text, i, ".loop_start", entry.loop_start as u64);
    put_entry(&mut text, i, ".loop_length", entry.loop_length as u64);
    assert(text@ == entry_lines(i as int, entry@, data_offset as int));
    out.append(text.as_str());
}

/// Render an XWB wave bank's metadata as stable `key=value` text.
///
/// The bytes are parsed first, so a malformed bank yields the parser's own
/// error rather than a partial dump. See the module documentation for the
/// output format, which callers may depend on.
pub fn describe(bytes: &[u8]) -> (r: Result<String, XwbError>)
    ensures
        match xwb_outcome(bytes@) {
            Ok(bank) => r is Ok && r->Ok_0@ == dump_text(bytes@, bank),
            Err(e) => r is Err && r->Err_0 == e,
        },
{
    let bank = match container::parse(bytes) {
        Ok(b) => b,
        Err(e) => return Err(e),
    };
    let len: usize = bytes.len();
    proof {
        container::lemma_parsed_layout(bytes@);
    }
    let data_at: usize = get_u32(bytes, 12) as usize;
    let meta_at: usize = get_u32(bytes, 20) as usize;
    let version: u32 = get_u32(bytes, 4);
    let meta_size: u32 = get_u32(bytes, data_at + 72);
    proof {
        crate::util::io::lemma_le32_sub(
            bytes@,
            segment_offset(bytes@, 0),
            segment_offset(bytes@, 0) + segment_length(bytes@, 0),
            72,
        );
    }
    let mut out = String::new();
    write_bank(&mut out, bytes, &bank, version, meta_size);
    write_segments(&mut out, bytes);
    let ghost head = out@;
    let ghost views = entries_view(bank.entries@);
    let mut i: usize = 0;
    assert(head =~= head + entries_lines(bytes@, views, 0));
    while i < bank.entries.len()
        invariant
            i <= bank.entries@.len(),
            len == bytes@.len(),
            views == entries_view(bank.entries@),
            meta_at == segment_offset(bytes@, 1),
            meta_at + segment_length(bytes@, 1) <= len,
            24 * bank.entries@.len() <= segment_length(bytes@, 1),
            out@ == head + entries_lines(bytes@, views, i as nat),
        decreases bank.entries@.len() - i,
    {
        // `data_offset` is the one per-entry field the parser resolves away
        // (it copies the data out), so read it back from segment 1.
        proof {
            crate::util::io::lemma_le32_sub(
                bytes@,
                meta_at as int,
                meta_at + segment_length(bytes@, 1),
                24 * i + 8,
            );
        }
        let data_offset: u32 = get_u32(bytes, meta_at + 24 * i + 8);
        assert(views[i as int] == bank.entries@[i as int]@);
        write_entry(&mut out, i, &bank.entries[i], data_offset);
        i = i + 1;
        assert(out@ =~= head + entries_lines(bytes@, views, i as nat));
    }
    assert(out@ =~= dump_text(bytes@, bank@));
    Ok(out)
}

} // verus!

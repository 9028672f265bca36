//! What the fields of a wave bank are, and which of its entries is the song.

use super::adpcm::decode::decode_outcome;
use super::container::{
    bank_entries, bank_entry, data_start, first_bad_segment, header_fault, names_end, rounded_up,
    segment, segment_length, segment_offset, wave_start, xwb_outcome, XwbError,
};
use super::{longest_entry, main_track, BankView, EntryView};
use crate::util::io::le32;
use vstd::prelude::*;

verus! {

/// The longest entry is the one with the most data, the last of those that have it.
pub proof fn law_longest_entry_has_the_most_data(entries: Seq<EntryView>, n: nat, i: int)
    requires
        0 <= i < n <= entries.len(),
    ensures
        0 <= longest_entry(entries, n) < n,
        entries[longest_entry(entries, n)].data.len() >= entries[i].data.len(),
        i > longest_entry(entries, n) ==> entries[longest_entry(entries, n)].data.len()
            > entries[i].data.len(),
    decreases n,
{
    if n > 1 {
        law_longest_entry_has_the_most_data(
            entries,
            (n - 1) as nat,
            if i < n - 1 {
                i
            } else {
                0
            },
        );
    }
}

/// The audio of a bank is what its longest entry decodes to, with the rate and the
/// channels of that entry's format; a bank without entries has none.
pub proof fn law_audio_is_the_longest_entry(bank: BankView, k: int)
    requires
        0 <= k < bank.entries.len(),
        forall|i: int|
            0 <= i < bank.entries.len() && i != k ==> (#[trigger] bank.entries[i]).data.len()
                < bank.entries[k].data.len(),
    ensures
        match decode_outcome(bank.entries[k].data, bank.entries[k].format@) {
            Ok(samples) => main_track(bank) matches Ok(audio) && {
                &&& audio.0 == samples
                &&& audio.1 == (bank.entries[k].format@ as int / 32) % 0x4_0000
                &&& audio.2 == (bank.entries[k].format@ as int / 4) % 8
            },
            Err(e) => main_track(bank) == Err::<(Seq<i16>, u32, u16), XwbError>(XwbError::Adpcm(e)),
        },
{
    law_longest_entry_has_the_most_data(bank.entries, bank.entries.len(), k);
}

/// A bank without entries has no audio.
pub proof fn law_empty_banks_have_no_audio(bank: BankView)
    requires
        bank.entries.len() == 0,
    ensures
        main_track(bank) == Err::<(Seq<i16>, u32, u16), XwbError>(XwbError::NoEntries),
{
}

/// The four bytes at `at`, low byte first, are `v`.
pub open spec fn is_word(b: Seq<u8>, at: int, v: int) -> bool {
    v == b[at] + 0x100 * b[at + 1] + 0x1_0000 * b[at + 2] + 0x100_0000 * b[at + 3]
}

/// Behind the magic and two versions stand five segments, each an offset and a length.
pub proof fn law_segments_are_listed_in_the_header(b: Seq<u8>, i: int)
    requires
        0 <= i < 5,
        b.len() >= 52,
    ensures
        is_word(b, 12 + 8 * i, segment_offset(b, i)),
        is_word(b, 16 + 8 * i, segment_length(b, i)),
{
}

/// An entry is described by six words: its flags, its format, where its data starts in
/// the wave data and how long it is, and where its loop starts and how long that is.
/// Data that the wave data does not hold is refused.
pub proof fn law_entry_fields(meta: Seq<u8>, names: Seq<u8>, wave: Seq<u8>, size: nat, i: int)
    requires
        0 <= i,
        24 * i + 24 <= meta.len(),
    ensures
        match bank_entry(meta, names, wave, size, i) {
            Some(e) => {
                &&& is_word(meta, 24 * i, e.flags_and_duration as int)
                &&& is_word(meta, 24 * i + 4, e.format@ as int)
                &&& exists|offset: int|
                    {
                        &&& #[trigger] is_word(meta, 24 * i + 8, offset)
                        &&& offset + e.data.len() <= wave.len()
                        &&& forall|k: int|
                            0 <= k < e.data.len() ==> #[trigger] e.data[k] == wave[offset + k]
                    }
                &&& is_word(meta, 24 * i + 12, e.data.len() as int)
                &&& is_word(meta, 24 * i + 16, e.loop_start as int)
                &&& is_word(meta, 24 * i + 20, e.loop_length as int)
            },
            None => exists|offset: int, length: int|
                {
                    &&& #[trigger] is_word(meta, 24 * i + 8, offset)
                    &&& #[trigger] is_word(meta, 24 * i + 12, length)
                    &&& offset + length > wave.len()
                },
        },
{
    broadcast use super::container::WaveFormat::lemma_of_view;

    let offset = le32(meta, 24 * i + 8) as int;
    let length = le32(meta, 24 * i + 12) as int;
    assert(is_word(meta, 24 * i + 8, offset) && is_word(meta, 24 * i + 12, length));
    if bank_entry(meta, names, wave, size, i) is Some {
        let e = bank_entry(meta, names, wave, size, i)->0;
        assert(e.data == wave.subrange(offset, offset + length));
    }
}

/// The bank's own description holds its flags, how many entries it has, its name, how
/// wide the names of entries are, its alignment, its compact format and when it was built.
#[verifier::rlimit(60)]
pub proof fn law_bank_fields(b: Seq<u8>)
    ensures
        xwb_outcome(b) matches Ok(bank) ==> {
            let at = segment_offset(b, 0);
            &&& b[0] == 0x57 && b[1] == 0x42 && b[2] == 0x4E && b[3] == 0x44
            &&& is_word(b, 4, 43)
            &&& is_word(b, 8, bank.header_version as int)
            &&& is_word(b, at, bank.flags as int)
            &&& is_word(b, at + 4, bank.entries.len() as int)
            &&& bank.name == b.subrange(at + 8, at + 72)
            &&& is_word(b, at + 76, bank.entry_name_element_size as int)
            &&& is_word(b, at + 80, bank.alignment as int)
            &&& is_word(b, at + 84, bank.compact_format as int)
            &&& is_word(b, at + 88, bank.build_time as int % 0x1_0000_0000)
            &&& is_word(b, at + 92, bank.build_time as int / 0x1_0000_0000)
        },
{
    if xwb_outcome(b) is Ok {
        let data = segment(b, 0);
        let at = segment_offset(b, 0);
        let end = at + segment_length(b, 0);
        lemma_sound_header(b);
        lemma_word_in(b, 0, b.len() as int, 8);
        lemma_word_in(b, at, end, 0);
        lemma_word_in(b, at, end, 4);
        lemma_word_in(b, at, end, 76);
        lemma_word_in(b, at, end, 80);
        lemma_word_in(b, at, end, 84);
        lemma_word_in(b, at, end, 88);
        lemma_word_in(b, at, end, 92);
        assert(b.subrange(0, b.len() as int) =~= b);
        assert(data.subrange(8, 72) =~= b.subrange(at + 8, at + 72));
        lemma_entry_count(b);
    }
}

/// What the header of a bank that can be read is known to hold.
proof fn lemma_sound_header(b: Seq<u8>)
    requires
        header_fault(b) is None,
    ensures
        b.len() >= 52,
        b[0] == 0x57 && b[1] == 0x42 && b[2] == 0x4E && b[3] == 0x44,
        is_word(b, 4, 43),
        segment_offset(b, 0) + segment_length(b, 0) <= b.len(),
        segment_length(b, 0) >= 96,
{
    let mark = b.subrange(0, 4);
    assert(mark == seq![0x57u8, 0x42u8, 0x4Eu8, 0x44u8]);
    assert(mark[0] == b[0] && mark[1] == b[1] && mark[2] == b[2] && mark[3] == b[3]);
    assert(first_bad_segment(b, 0) is None);
}

/// A word of a part of the file, in the file.
proof fn lemma_word_in(b: Seq<u8>, at: int, end: int, k: int)
    requires
        0 <= at,
        0 <= k,
        at + k + 4 <= end <= b.len(),
    ensures
        is_word(b, at + k, le32(b.subrange(at, end), k) as int),
{
    let part = b.subrange(at, end);
    assert(part[k] == b[at + k] && part[k + 1] == b[at + k + 1] && part[k + 2] == b[at + k + 2]
        && part[k + 3] == b[at + k + 3]);
}

/// A bank has as many entries as its description says.
proof fn lemma_entry_count(b: Seq<u8>)
    ensures
        xwb_outcome(b) matches Ok(bank) ==> bank.entries.len() == le32(
            segment(b, 0),
            4,
        ),
{
    let data = segment(b, 0);
    lemma_entries_len(
        segment(b, 1),
        segment(b, 3),
        segment(b, 4),
        le32(data, 76) as nat,
        le32(data, 4) as nat,
    );
}

proof fn lemma_entries_len(meta: Seq<u8>, names: Seq<u8>, wave: Seq<u8>, size: nat, n: nat)
    ensures
        bank_entries(meta, names, wave, size, n) matches Ok(entries)
            ==> entries.len() == n,
    decreases n,
{
    if n > 0 {
        lemma_entries_len(meta, names, wave, size, (n - 1) as nat);
    }
}

/// Rounding up gives the next multiple, less than one whole step away.
pub proof fn law_rounding_up_is_least(value: int, alignment: int)
    requires
        value >= 0,
        alignment > 0,
    ensures
        rounded_up(value, alignment) % alignment == 0,
        value <= rounded_up(value, alignment) < value + alignment,
{
    if alignment > 1 {
        let q = (value + alignment - 1) / alignment;
        vstd::arithmetic::div_mod::lemma_fundamental_div_mod(value + alignment - 1, alignment);
        assert(alignment * q == q * alignment) by (nonlinear_arith);
        vstd::arithmetic::div_mod::lemma_mod_multiples_basic(q, alignment);
    }
}

/// The data of each entry starts at a multiple of the bank's alignment, behind that of
/// the entry before it and less than one step away from it; the first starts at once.
pub proof fn law_entries_are_aligned(entries: Seq<EntryView>, alignment: int, i: int)
    requires
        0 <= i < entries.len(),
        alignment > 0,
    ensures
        data_start(entries, alignment, 0) == 0,
        data_start(entries, alignment, i) >= 0,
        data_start(entries, alignment, i) % alignment == 0,
        i > 0 ==> {
            let end = data_start(entries, alignment, i - 1) + entries[i - 1].data.len();
            end <= data_start(entries, alignment, i) < end + alignment
        },
    decreases i,
{
    if i > 0 {
        law_entries_are_aligned(entries, alignment, i - 1);
        law_rounding_up_is_least(
            data_start(entries, alignment, i - 1) + entries[i - 1].data.len(),
            alignment,
        );
    } else {
        assert(0int % alignment == 0) by {
            vstd::arithmetic::div_mod::lemma_mod_multiples_basic(0, alignment);
        }
    }
}

/// A bank's wave data starts at a multiple of its alignment, behind the header, the 96
/// bytes of its description, 24 bytes and a name for each entry.
pub proof fn law_wave_data_is_aligned(bank: BankView)
    requires
        bank.alignment > 0,
    ensures
        ({
            let n = bank.entries.len();
            let end = 52 + 96 + 24 * n + n * bank.entry_name_element_size;
            &&& wave_start(bank) % bank.alignment as int == 0
            &&& end <= wave_start(bank) < end + bank.alignment
        }),
{
    assert(bank.entries.len() * bank.entry_name_element_size >= 0) by (nonlinear_arith);
    law_rounding_up_is_least(names_end(bank), bank.alignment as int);
}

} // verus!

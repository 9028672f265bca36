//! What reading gives back of a written wave bank.

use crate::util::io::{le32, lemma_word_at, lemma_words_len, words_bytes};
use crate::xwb::container::{
    bank_entries, bank_entry, bank_file, bank_size, data_start, data_words_head, data_words_tail,
    first_bad_segment, fitted_name, header_fault, header_words, law_rounded_up,
    lemma_data_start_monotone, lemma_name_table_len, lemma_wave_data_len, low32, meta_words,
    name_table, names_end, names_start, segment, segment_offset, wave_data, wave_length, wave_start,
    xwb_outcome, BankView, EntryView, WaveFormat, XwbError,
};
use vstd::prelude::*;

verus! {

/// An entry whose name has the width of the name table.
pub open spec fn fitted_entry(e: EntryView, size: nat) -> EntryView {
    EntryView { name_bytes: fitted_name(e.name_bytes, size), ..e }
}

/// A bank whose entry names have the width of its name table.
pub open spec fn fitted_bank(bank: BankView) -> BankView {
    BankView {
        entries: Seq::new(
            bank.entries.len(),
            |i: int| fitted_entry(bank.entries[i], bank.entry_name_element_size as nat),
        ),
        ..bank
    }
}

proof fn lemma_meta_word(entries: Seq<EntryView>, alignment: int, n: nat, k: int)
    requires
        0 <= k < n <= entries.len(),
    ensures
        meta_words(entries, alignment, n).len() == 6 * n,
        ({
            let w = meta_words(entries, alignment, n);
            let e = entries[k];
            &&& w[6 * k] == e.flags_and_duration
            &&& w[6 * k + 1] == e.format@
            &&& w[6 * k + 2] == low32(data_start(entries, alignment, k))
            &&& w[6 * k + 3] == low32(e.data.len() as int)
            &&& w[6 * k + 4] == e.loop_start
            &&& w[6 * k + 5] == e.loop_length
        }),
    decreases n,
{
    lemma_meta_len(entries, alignment, (n - 1) as nat);
    if k < n - 1 {
        lemma_meta_word(entries, alignment, (n - 1) as nat, k);
    }
}

proof fn lemma_meta_len(entries: Seq<EntryView>, alignment: int, n: nat)
    ensures
        meta_words(entries, alignment, n).len() == 6 * n,
    decreases n,
{
    if n > 0 {
        lemma_meta_len(entries, alignment, (n - 1) as nat);
    }
}

proof fn lemma_wave_part(entries: Seq<EntryView>, alignment: int, n: nat, k: int)
    requires
        0 <= k < n <= entries.len(),
    ensures
        ({
            let start = data_start(entries, alignment, k);
            let end = start + entries[k].data.len();
            &&& 0 <= start
            &&& end <= wave_data(entries, alignment, n).len()
            &&& wave_data(entries, alignment, n).subrange(start, end) == entries[k].data
        }),
    decreases n,
{
    let m = (n - 1) as nat;
    let before = wave_data(entries, alignment, m);
    let w = wave_data(entries, alignment, n);
    lemma_wave_data_len(entries, alignment, m);
    lemma_wave_data_len(entries, alignment, n);
    lemma_data_start_monotone(entries, alignment, k, k);
    let start = data_start(entries, alignment, k);
    let end = start + entries[k].data.len();
    if k == m {
        if m > 0 {
            lemma_data_start_monotone(entries, alignment, m - 1, m as int);
        }
        assert(w.subrange(start, end) =~= entries[k].data);
    } else {
        lemma_wave_part(entries, alignment, m, k);
        assert(w.subrange(start, end) =~= before.subrange(start, end));
    }
}

proof fn lemma_name_part(entries: Seq<EntryView>, size: nat, n: nat, k: int)
    requires
        0 <= k < n <= entries.len(),
    ensures
        0 <= k * size,
        (k + 1) * size <= name_table(entries, size, n).len(),
        name_table(entries, size, n).subrange(k * size, (k + 1) * size) == fitted_name(
            entries[k].name_bytes,
            size,
        ),
    decreases n,
{
    let m = (n - 1) as nat;
    lemma_name_table_len(entries, size, m);
    lemma_name_table_len(entries, size, n);
    assert((k + 1) * size == k * size + size) by (nonlinear_arith);
    assert(0 <= k * size) by (nonlinear_arith)
        requires
            0 <= k,
            0 <= size,
    ;
    let t = name_table(entries, size, n);
    if k == m {
        assert(t.subrange(k * size, (k + 1) * size) =~= fitted_name(entries[k].name_bytes, size));
    } else {
        lemma_name_part(entries, size, m, k);
        assert(t.subrange(k * size, (k + 1) * size) =~= name_table(entries, size, m).subrange(
            k * size,
            (k + 1) * size,
        ));
    }
}

/// The words of entry `k`'s metadata, as they are read.
proof fn lemma_meta_read(entries: Seq<EntryView>, alignment: int, n: nat, k: int)
    requires
        0 <= k < n <= entries.len(),
    ensures
        ({
            let m = words_bytes(meta_words(entries, alignment, n));
            let e = entries[k];
            &&& m.len() == 24 * n
            &&& le32(m, 24 * k) == e.flags_and_duration
            &&& le32(m, 24 * k + 4) == e.format@
            &&& le32(m, 24 * k + 8) == low32(data_start(entries, alignment, k))
            &&& le32(m, 24 * k + 12) == low32(e.data.len() as int)
            &&& le32(m, 24 * k + 16) == e.loop_start
            &&& le32(m, 24 * k + 20) == e.loop_length
        }),
{
    lemma_meta_word(entries, alignment, n, k);
    let words = meta_words(entries, alignment, n);
    lemma_words_len(words);
    lemma_word_read(words, 6 * k);
    lemma_word_read(words, 6 * k + 1);
    lemma_word_read(words, 6 * k + 2);
    lemma_word_read(words, 6 * k + 3);
    lemma_word_read(words, 6 * k + 4);
    lemma_word_read(words, 6 * k + 5);
}

proof fn lemma_word_read(words: Seq<u32>, i: int)
    requires
        0 <= i < words.len(),
    ensures
        le32(words_bytes(words), 4 * i) == words[i],
{
    let none = Seq::<u8>::empty();
    lemma_word_at(none, words, none, i);
    assert(none + words_bytes(words) + none =~= words_bytes(words));
}

proof fn lemma_entry_back(bank: BankView, k: int)
    requires
        0 <= k < bank.entries.len(),
        wave_length(bank.entries, bank.alignment as int) <= u32::MAX,
    ensures
        ({
            let total = bank.entries.len();
            let align = bank.alignment as int;
            let size = bank.entry_name_element_size as nat;
            bank_entry(
                words_bytes(meta_words(bank.entries, align, total)),
                name_table(bank.entries, size, total),
                wave_data(bank.entries, align, total),
                size,
                k,
            ) == Some(fitted_entry(bank.entries[k], size))
        }),
{
    broadcast use {WaveFormat::lemma_of_view, WaveFormat::lemma_view_of};

    let total = bank.entries.len();
    let align = bank.alignment as int;
    let size = bank.entry_name_element_size as nat;
    let e = bank.entries[k];
    lemma_meta_read(bank.entries, align, total, k);
    lemma_wave_part(bank.entries, align, total, k);
    lemma_wave_data_len(bank.entries, align, total);
    lemma_data_start_monotone(bank.entries, align, k, total - 1);
    let start = data_start(bank.entries, align, k);
    assert(low32(start) == start);
    assert(low32(e.data.len() as int) == e.data.len());
    lemma_name_part(bank.entries, size, total, k);
}

proof fn lemma_entries_back(bank: BankView, n: nat)
    requires
        n <= bank.entries.len(),
        wave_length(bank.entries, bank.alignment as int) <= u32::MAX,
    ensures
        ({
            let total = bank.entries.len();
            let align = bank.alignment as int;
            let size = bank.entry_name_element_size as nat;
            bank_entries(
                words_bytes(meta_words(bank.entries, align, total)),
                name_table(bank.entries, size, total),
                wave_data(bank.entries, align, total),
                size,
                n,
            ) == Ok::<Seq<EntryView>, XwbError>(fitted_bank(bank).entries.subrange(0, n as int))
        }),
    decreases n,
{
    let all = fitted_bank(bank).entries;
    if n == 0 {
        assert(all.subrange(0, 0) =~= Seq::empty());
    } else {
        let k = n - 1;
        lemma_entries_back(bank, k as nat);
        lemma_entry_back(bank, k);
        assert(all.subrange(0, k).push(all[k]) =~= all.subrange(0, n as int));
    }
}

/// The bank data segment.
#[verifier::opaque]
pub open spec fn bank_data(bank: BankView) -> Seq<u8> {
    words_bytes(data_words_head(bank)) + bank.name + words_bytes(data_words_tail(bank))
}

/// Where the parts of a written bank lie.
proof fn lemma_file_parts(bank: BankView)
    requires
        bank.name.len() == 64,
    ensures
        ({
            let n = bank.entries.len();
            let align = bank.alignment as int;
            let size = bank.entry_name_element_size as nat;
            let b = bank_file(bank);
            &&& b.len() == bank_size(bank)
            &&& 52 + 96 + 24 * n == names_start(bank)
            &&& names_start(bank) + n * size == names_end(bank) <= wave_start(bank) <= b.len()
            &&& wave_start(bank) + wave_length(bank.entries, align) == b.len()
            &&& 0 <= n * size
            &&& b.subrange(0, 52) == words_bytes(header_words(bank))
            &&& b.subrange(52, 148) == bank_data(bank)
            &&& b.subrange(148, names_start(bank)) == words_bytes(
                meta_words(bank.entries, align, n),
            )
            &&& b.subrange(names_start(bank), names_end(bank)) == name_table(bank.entries, size, n)
            &&& b.subrange(wave_start(bank), b.len() as int) == wave_data(bank.entries, align, n)
        }),
{
    reveal(bank_file);
    reveal(bank_data);
    let n = bank.entries.len();
    let align = bank.alignment as int;
    let size = bank.entry_name_element_size as nat;
    lemma_words_len(header_words(bank));
    lemma_words_len(data_words_head(bank));
    lemma_words_len(data_words_tail(bank));
    lemma_words_len(meta_words(bank.entries, align, n));
    lemma_meta_len(bank.entries, align, n);
    lemma_name_table_len(bank.entries, size, n);
    lemma_wave_data_len(bank.entries, align, n);
    assert(n * size >= 0) by (nonlinear_arith)
        requires
            n >= 0,
            size >= 0,
    ;
    law_rounded_up(names_end(bank), align);
    let h = words_bytes(header_words(bank));
    let meta = words_bytes(meta_words(bank.entries, align, n));
    let names = name_table(bank.entries, size, n);
    let pad = Seq::new((wave_start(bank) - names_end(bank)) as nat, |i: int| 0u8);
    let wave = wave_data(bank.entries, align, n);
    lemma_five_parts(h, bank_data(bank), meta, names, pad + wave);
    lemma_five_parts(h + bank_data(bank) + meta + names, pad, wave, Seq::empty(), Seq::empty());
    let b = bank_file(bank);
    assert(b =~= h + bank_data(bank) + meta + names + (pad + wave));
    assert(b =~= (h + bank_data(bank) + meta + names) + pad + wave + Seq::empty() + Seq::empty());
}

proof fn lemma_five_parts(a: Seq<u8>, b: Seq<u8>, c: Seq<u8>, d: Seq<u8>, e: Seq<u8>)
    ensures
        ({
            let all = a + b + c + d + e;
            let (x, y, z) = (
                a.len() as int,
                (a.len() + b.len()) as int,
                (a.len() + b.len() + c.len()) as int,
            );
            &&& all.subrange(0, x) == a
            &&& all.subrange(x, y) == b
            &&& all.subrange(y, z) == c
            &&& all.subrange(z, z + d.len()) == d
        }),
{
    let all = a + b + c + d + e;
    let x = a.len() as int;
    let y = x + b.len();
    let z = y + c.len();
    assert(all.subrange(0, x) =~= a);
    assert(all.subrange(x, y) =~= b);
    assert(all.subrange(y, z) =~= c);
    assert(all.subrange(z, z + d.len()) =~= d);
}

/// The words of the header, as they are read.
proof fn lemma_header_read(bank: BankView, i: int)
    requires
        bank.name.len() == 64,
        0 <= i < 13,
    ensures
        le32(bank_file(bank), 4 * i) == header_words(bank)[i],
{
    lemma_file_parts(bank);
    lemma_word_read(header_words(bank), i);
    crate::util::io::lemma_le32_sub(bank_file(bank), 0, 52, 4 * i);
}

/// A file whose segment table has the given words passes the header checks.
proof fn lemma_table(
    b: Seq<u8>,
    meta_len: int,
    names_at: int,
    names_len: int,
    wave_at: int,
    wave_len: int,
)
    requires
        b.len() >= 148,
        le32(b, 0) == 0x444E_4257u32,
        le32(b, 4) == 43,
        le32(b, 12) == 52,
        le32(b, 16) == 96,
        le32(b, 20) == 148,
        le32(b, 24) == meta_len,
        le32(b, 28) == names_at,
        le32(b, 32) == 0,
        le32(b, 36) == names_at,
        le32(b, 40) == names_len,
        le32(b, 44) == wave_at,
        le32(b, 48) == wave_len,
        148 + meta_len <= b.len(),
        names_at + names_len <= b.len(),
        wave_at + wave_len <= b.len(),
    ensures
        header_fault(b) is None,
        segment(b, 0) == b.subrange(52, 148),
        segment(b, 1) == b.subrange(148, 148 + meta_len),
        segment(b, 3) == b.subrange(names_at, names_at + names_len),
        segment(b, 4) == b.subrange(wave_at, wave_at + wave_len),
{
    assert(segment_offset(b, 2) == names_at);
    assert(first_bad_segment(b, 5) is None);
    assert(first_bad_segment(b, 4) is None);
    assert(first_bad_segment(b, 3) is None);
    assert(first_bad_segment(b, 2) is None);
    assert(first_bad_segment(b, 1) is None);
    assert(first_bad_segment(b, 0) is None);
    assert(b.subrange(0, 4) == seq![0x57u8, 0x42u8, 0x4Eu8, 0x44u8]) by {
        crate::util::io::law_bytes_of_read(b, 0);
        assert(crate::util::io::bytes32(0x444E_4257u32) =~= seq![0x57u8, 0x42u8, 0x4Eu8, 0x44u8]);
    }
}

/// The words of the header of a bank that is not too large.
proof fn lemma_header_words(bank: BankView)
    requires
        bank.name.len() == 64,
        bank_size(bank) <= u32::MAX,
    ensures
        ({
            let n = bank.entries.len();
            let w = header_words(bank);
            &&& w[0] == 0x444E_4257u32 && w[1] == 43 && w[2] == bank.header_version
            &&& w[3] == 52 && w[4] == 96 && w[5] == 148
            &&& w[6] == 24 * n
            &&& w[7] == names_start(bank)
            &&& w[8] == 0
            &&& w[9] == names_start(bank)
            &&& w[10] == n * bank.entry_name_element_size
            &&& w[11] == wave_start(bank)
            &&& w[12] == wave_length(bank.entries, bank.alignment as int)
        }),
{
    lemma_file_parts(bank);
    let n = bank.entries.len() as int;
    lemma_low32(24 * n);
    lemma_low32(names_start(bank));
    lemma_low32(n * bank.entry_name_element_size);
    lemma_low32(wave_start(bank));
    lemma_low32(wave_length(bank.entries, bank.alignment as int));
}

proof fn lemma_low32(v: int)
    requires
        0 <= v <= u32::MAX,
    ensures
        low32(v) == v,
{
}

/// The fields of the header of a written bank, as they are read.
#[verifier::rlimit(40)]
#[verifier::spinoff_prover]
proof fn lemma_header_fields(bank: BankView)
    requires
        bank.name.len() == 64,
        bank_size(bank) <= u32::MAX,
    ensures
        ({
            let n = bank.entries.len();
            let b = bank_file(bank);
            &&& le32(b, 0) == 0x444E_4257u32
            &&& le32(b, 4) == 43
            &&& le32(b, 8) == bank.header_version
            &&& le32(b, 12) == 52
            &&& le32(b, 16) == 96
            &&& le32(b, 20) == 148
            &&& le32(b, 24) == 24 * n
            &&& le32(b, 28) == names_start(bank)
            &&& le32(b, 32) == 0
            &&& le32(b, 36) == names_start(bank)
            &&& le32(b, 40) == n * bank.entry_name_element_size
            &&& le32(b, 44) == wave_start(bank)
            &&& le32(b, 48) == wave_length(bank.entries, bank.alignment as int)
        }),
{
    lemma_header_words(bank);
    lemma_header_read(bank, 0);
    lemma_header_read(bank, 1);
    lemma_header_read(bank, 2);
    lemma_header_read(bank, 3);
    lemma_header_read(bank, 4);
    lemma_header_read(bank, 5);
    lemma_header_read(bank, 6);
    lemma_header_read(bank, 7);
    lemma_header_read(bank, 8);
    lemma_header_read(bank, 9);
    lemma_header_read(bank, 10);
    lemma_header_read(bank, 11);
    lemma_header_read(bank, 12);
}

/// The segment table of a written bank, as it is read.
#[verifier::spinoff_prover]
proof fn lemma_table_back(bank: BankView)
    requires
        bank.name.len() == 64,
        bank_size(bank) <= u32::MAX,
    ensures
        ({
            let n = bank.entries.len();
            let b = bank_file(bank);
            &&& le32(b, 8) == bank.header_version
            &&& segment(b, 0) == bank_data(bank)
            &&& segment(b, 1) == words_bytes(meta_words(bank.entries, bank.alignment as int, n))
            &&& segment(b, 3) == name_table(
                bank.entries,
                bank.entry_name_element_size as nat,
                n,
            )
            &&& segment(b, 4) == wave_data(bank.entries, bank.alignment as int, n)
            &&& header_fault(b) is None
        }),
{
    let n = bank.entries.len();
    lemma_file_parts(bank);
    lemma_header_fields(bank);
    lemma_table(
        bank_file(bank),
        24 * n as int,
        names_start(bank),
        n * bank.entry_name_element_size as int,
        wave_start(bank),
        wave_length(bank.entries, bank.alignment as int),
    );
}

/// What a file with a good header parses to.
proof fn lemma_outcome_of(b: Seq<u8>, data: Seq<u8>, bank: BankView)
    requires
        header_fault(b) is None,
        segment(b, 0) == data,
        bank_entries(
            segment(b, 1),
            segment(b, 3),
            segment(b, 4),
            bank.entry_name_element_size as nat,
            le32(data, 4) as nat,
        ) == Ok::<Seq<EntryView>, XwbError>(bank.entries),
        le32(b, 8) == bank.header_version,
        le32(data, 0) == bank.flags,
        data.subrange(8, 72) == bank.name,
        le32(data, 76) == bank.entry_name_element_size,
        le32(data, 80) == bank.alignment,
        le32(data, 84) == bank.compact_format,
        le32(data, 92) * 0x1_0000_0000 + le32(data, 88) == bank.build_time,
    ensures
        xwb_outcome(b) == Ok::<BankView, XwbError>(bank),
{
}

/// The fields of the bank data, as they are read.
proof fn lemma_bank_data_read(bank: BankView)
    requires
        bank.name.len() == 64,
    ensures
        ({
            let d = bank_data(bank);
            &&& d.len() == 96
            &&& le32(d, 0) == bank.flags
            &&& le32(d, 4) == low32(bank.entries.len() as int)
            &&& d.subrange(8, 72) == bank.name
            &&& le32(d, 76) == bank.entry_name_element_size
            &&& le32(d, 80) == bank.alignment
            &&& le32(d, 84) == bank.compact_format
            &&& le32(d, 92) * 0x1_0000_0000 + le32(d, 88) == bank.build_time
        }),
{
    reveal(bank_data);
    let d = bank_data(bank);
    let head = data_words_head(bank);
    let tail = data_words_tail(bank);
    lemma_words_len(head);
    lemma_words_len(tail);
    assert(d.subrange(0, 8) =~= words_bytes(head));
    assert(d.subrange(8, 72) =~= bank.name);
    assert(d.subrange(72, 96) =~= words_bytes(tail));
    lemma_word_read(head, 0);
    lemma_word_read(head, 1);
    lemma_word_read(tail, 1);
    lemma_word_read(tail, 2);
    lemma_word_read(tail, 3);
    lemma_word_read(tail, 4);
    lemma_word_read(tail, 5);
    crate::util::io::lemma_le32_sub(d, 0, 8, 0);
    crate::util::io::lemma_le32_sub(d, 0, 8, 4);
    crate::util::io::lemma_le32_sub(d, 72, 96, 4);
    crate::util::io::lemma_le32_sub(d, 72, 96, 8);
    crate::util::io::lemma_le32_sub(d, 72, 96, 12);
    crate::util::io::lemma_le32_sub(d, 72, 96, 16);
    crate::util::io::lemma_le32_sub(d, 72, 96, 20);
}

proof fn lemma_sizes(bank: BankView)
    requires
        bank.name.len() == 64,
    ensures
        bank.entries.len() <= bank_size(bank),
        wave_length(bank.entries, bank.alignment as int) <= bank_size(bank),
{
    lemma_file_parts(bank);
}

/// The entry count of a written bank, as it is read.
proof fn lemma_count_back(bank: BankView)
    requires
        bank.name.len() == 64,
        bank_size(bank) <= u32::MAX,
    ensures
        le32(bank_data(bank), 4) == bank.entries.len(),
{
    lemma_sizes(bank);
    lemma_bank_data_read(bank);
}

/// All the entries of a written bank, as they are read.
proof fn lemma_all_entries_back(bank: BankView)
    requires
        bank.name.len() == 64,
        bank_size(bank) <= u32::MAX,
    ensures
        ({
            let n = bank.entries.len();
            let align = bank.alignment as int;
            let size = bank.entry_name_element_size as nat;
            bank_entries(
                words_bytes(meta_words(bank.entries, align, n)),
                name_table(bank.entries, size, n),
                wave_data(bank.entries, align, n),
                size,
                n,
            ) == Ok::<Seq<EntryView>, XwbError>(fitted_bank(bank).entries)
        }),
{
    let n = bank.entries.len();
    lemma_sizes(bank);
    lemma_entries_back(bank, n);
    assert(fitted_bank(bank).entries.subrange(0, n as int) =~= fitted_bank(bank).entries);
}

/// The data segment and the entries of a written bank, as they are read.
#[verifier::spinoff_prover]
proof fn lemma_parts_back(bank: BankView)
    requires
        bank.name.len() == 64,
        bank_size(bank) <= u32::MAX,
    ensures
        ({
            let b = bank_file(bank);
            bank_entries(
                segment(b, 1),
                segment(b, 3),
                segment(b, 4),
                bank.entry_name_element_size as nat,
                le32(bank_data(bank), 4) as nat,
            ) == Ok::<Seq<EntryView>, XwbError>(fitted_bank(bank).entries)
        }),
{
    lemma_count_back(bank);
    lemma_table_back(bank);
    lemma_all_entries_back(bank);
}

/// Reading a written bank gives the bank back, with each entry's name cut or
/// padded to the width of the name table.
pub proof fn law_write_then_parse(bank: BankView)
    requires
        bank.name.len() == 64,
        bank_size(bank) <= u32::MAX,
    ensures
        xwb_outcome(bank_file(bank)) == Ok::<BankView, XwbError>(fitted_bank(bank)),
{
    lemma_parts_back(bank);
    lemma_table_back(bank);
    lemma_bank_data_read(bank);
    lemma_outcome_of(bank_file(bank), bank_data(bank), fitted_bank(bank));
}

proof fn lemma_fitted_writes_same(bank: BankView, n: nat)
    requires
        n <= bank.entries.len(),
    ensures
        ({
            let align = bank.alignment as int;
            let size = bank.entry_name_element_size as nat;
            let f = fitted_bank(bank).entries;
            &&& forall|i: int|
                0 <= i <= n ==> #[trigger] data_start(f, align, i) == data_start(
                    bank.entries,
                    align,
                    i,
                )
            &&& meta_words(f, align, n) == meta_words(bank.entries, align, n)
            &&& name_table(f, size, n) == name_table(bank.entries, size, n)
            &&& wave_data(f, align, n) == wave_data(bank.entries, align, n)
        }),
    decreases n,
{
    if n > 0 {
        lemma_fitted_writes_same(bank, (n - 1) as nat);
        let align = bank.alignment as int;
        let size = bank.entry_name_element_size as nat;
        let f = fitted_bank(bank).entries;
        let k = n - 1;
        assert(f[k] == fitted_entry(bank.entries[k], size));
        assert(data_start(f, align, k) == data_start(bank.entries, align, k));
        assert forall|i: int| 0 <= i <= n implies #[trigger] data_start(f, align, i) == data_start(
            bank.entries,
            align,
            i,
        ) by {
            if i == n {
                assert(f[i - 1].data == bank.entries[i - 1].data);
            }
        }
        assert(fitted_name(fitted_name(bank.entries[k].name_bytes, size), size) =~= fitted_name(
            bank.entries[k].name_bytes,
            size,
        ));
    }
}

/// Reading a written bank and writing it again gives the same bytes.
pub proof fn law_rewrite_is_identical(bank: BankView)
    requires
        bank.name.len() == 64,
        bank_size(bank) <= u32::MAX,
    ensures
        xwb_outcome(bank_file(bank)) is Ok,
        bank_file(xwb_outcome(bank_file(bank))->Ok_0) == bank_file(bank),
{
    law_write_then_parse(bank);
    let n = bank.entries.len();
    lemma_fitted_writes_same(bank, n);
    let f = fitted_bank(bank);
    let align = bank.alignment as int;
    if n > 0 {
        assert(data_start(f.entries, align, n - 1) == data_start(bank.entries, align, n - 1));
        assert(f.entries.last().data == bank.entries.last().data);
    }
    assert(wave_length(f.entries, align) == wave_length(bank.entries, align));
    assert(header_words(f) =~= header_words(bank));
    assert(data_words_head(f) =~= data_words_head(bank));
    assert(data_words_tail(f) =~= data_words_tail(bank));
    reveal(bank_file);
}

} // verus!

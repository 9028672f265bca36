//! XWB v43 container structures, parser, and writer.
//!
//! The file layout is:
//!
//! ```text
//! [Header 52 bytes]  magic "WBND" + version + 5 segment descriptors
//! [Segment 0]        Bank data: flags, entry count, name, format info
//! [Segment 1]        Entry metadata: 24 bytes per entry
//! [Segment 2]        Seek tables (empty for ADPCM)
//! [Segment 3]        Entry names: fixed-width null-padded ASCII
//! [padding]          Zero-fill to alignment boundary
//! [Segment 4]        Wave data: raw codec bytes
//! ```

use crate::util::io::{get_u32, le32, put_bytes, put_u32, put_zeros, words_bytes, IoError};
use crate::util::text::utf8_text;
use crate::xwb::adpcm::AdpcmError;
use vstd::prelude::*;
use vstd::slice::slice_subrange;
use vstd::slice::slice_to_vec;
use vstd::utf8::{decode_utf8, valid_utf8};

verus! {

const VERSION: u32 = 43;

/// Bank data is 96 bytes in XACT2 header_version 42 (DDR's format):
/// flags(4) + count(4) + name(64) + meta_size(4) + name_size(4) +
/// align(4) + compact(4) + build_time(8).
const BANK_DATA_SIZE: usize = 96;

#[derive(Debug, Clone, Copy, PartialEq, Eq, Structural)]
pub enum XwbError {
    BadMagic,
    UnsupportedVersion { version: u32 },
    SegmentOutOfBounds { index: usize, offset: usize, length: usize, file_len: usize },
    EntryDataOutOfBounds { index: usize },
    NoEntries,
    Adpcm(AdpcmError),
    Io(IoError),
}

/// Packed 32-bit audio format descriptor.
///
/// Bit layout (LSB first):
/// - `[0:1]`   codec (2 bits): 0=PCM, 1=XMA, 2=ADPCM, 3=WMA
/// - `[2:4]`   channels (3 bits)
/// - `[5:22]`  sample rate (18 bits)
/// - `[23:30]` block align raw (8 bits)
/// - `[31]`    bits-per-sample flag (1 bit): 0=8-bit, 1=16-bit
#[derive(Debug, Clone, Copy, PartialEq, Eq, Structural)]
pub struct WaveFormat(u32);

impl View for WaveFormat {
    type V = u32;

    closed spec fn view(&self) -> u32 {
        self.0
    }
}

/// The channel count in a packed descriptor.
pub open spec fn channels_of(bits: u32) -> int {
    (bits as int / 0x4) % 0x8
}

/// The sample rate in a packed descriptor.
pub open spec fn rate_of(bits: u32) -> int {
    (bits as int / 0x20) % 0x4_0000
}

/// The raw block alignment in a packed descriptor.
pub open spec fn align_of(bits: u32) -> int {
    (bits as int / 0x80_0000) % 0x100
}

/// The block size in bytes.
pub open spec fn block_size(bits: u32) -> int {
    (align_of(bits) + 22) * channels_of(bits)
}

/// The number of frames in a block: two from the header, and two nibbles to
/// a byte behind it.
pub open spec fn block_frames(bits: u32) -> int {
    let ch = channels_of(bits);
    if ch == 0 {
        0
    } else {
        (align_of(bits) + 15) * 2 + 2
    }
}

impl WaveFormat {
    pub const CODEC_ADPCM: u8 = 2;

    /// The descriptor with packed form `bits`.
    pub closed spec fn of(bits: u32) -> WaveFormat {
        WaveFormat(bits)
    }

    pub broadcast proof fn lemma_of_view(bits: u32)
        ensures
            (#[trigger] WaveFormat::of(bits))@ == bits,
    {
    }

    pub broadcast proof fn lemma_view_of(f: WaveFormat)
        ensures
            WaveFormat::of(#[trigger] f@) == f,
    {
    }

    #[must_use]
    pub fn from_packed(bits: u32) -> (f: Self)
        ensures
            f@ == bits,
            f == WaveFormat::of(bits),
    {
        Self(bits)
    }

    #[must_use]
    pub fn packed(self) -> (bits: u32)
        ensures
            bits == self@,
    {
        self.0
    }

    #[must_use]
    pub fn codec(self) -> (c: u8)
        ensures
            c == self@ as int % 4,
    {
        (self.0 % 4) as u8
    }

    #[must_use]
    pub fn channels(self) -> (c: u8)
        ensures
            c == channels_of(self@),
    {
        ((self.0 / 0x4) % 0x8) as u8
    }

    #[must_use]
    pub fn sample_rate(self) -> (r: u32)
        ensures
            r == rate_of(self@),
    {
        (self.0 / 0x20) % 0x4_0000
    }

    #[must_use]
    pub fn block_align_raw(self) -> (a: u8)
        ensures
            a == align_of(self@),
    {
        ((self.0 / 0x80_0000) % 0x100) as u8
    }

    #[must_use]
    pub fn bits_per_sample_flag(self) -> (b: u8)
        ensures
            b == self@ as int / 0x8000_0000,
    {
        (self.0 / 0x8000_0000) as u8
    }

    /// Actual block alignment in bytes for ADPCM:
    /// `(raw + 22) * channels`.
    #[must_use]
    pub fn block_align(self) -> (n: u32)
        ensures
            n == block_size(self@),
    {
        let raw: u32 = self.block_align_raw() as u32;
        let ch: u32 = self.channels() as u32;
        assert((raw + 22) * ch <= 277 * 7) by (nonlinear_arith)
            requires
                raw <= 255,
                ch <= 7,
        ;
        (raw + 22) * ch
    }

    /// Decoded samples per ADPCM block:
    /// `((block_align - 7 * channels) * 8) / (4 * channels) + 2`.
    #[must_use]
    pub fn samples_per_block(self) -> (n: u32)
        ensures
            n == block_frames(self@),
    {
        let ba: u32 = self.block_align();
        let ch: u32 = self.channels() as u32;
        let ghost raw = align_of(self@);
        assert(ba >= 7 * ch) by (nonlinear_arith)
            requires
                ba == (raw + 22) * ch,
                raw >= 0,
        ;
        if ch == 0 {
            return 0;
        }
        assert(ba <= 277 * 7) by (nonlinear_arith)
            requires
                ba == (raw + 22) * ch,
                0 <= raw <= 255,
                0 <= ch <= 7,
        ;
        proof {
            assert((ba - 7 * ch) * 8 == ((raw + 15) * 2) * (4 * ch)) by (nonlinear_arith)
                requires
                    ba == (raw + 22) * ch,
            ;
            vstd::arithmetic::div_mod::lemma_div_multiples_vanish((raw + 15) * 2, 4 * ch as int);
            assert(((raw + 15) * 2) * (4 * ch) == (4 * ch) * ((raw + 15) * 2)) by (nonlinear_arith);
        }
        ((ba - 7 * ch) * 8) / (4 * ch) + 2
    }
}

/// A parsed XWB wave bank.
#[derive(Debug, Clone)]
pub struct XwbBank {
    pub header_version: u32,
    pub flags: u32,
    /// Raw 64-byte bank name field (null-padded ASCII).
    pub name: [u8; 64],
    pub entry_name_element_size: u32,
    pub alignment: u32,
    pub compact_format: u32,
    /// 64-bit build timestamp (XACT2 header_version 42 uses 8 bytes).
    pub build_time: u64,
    pub entries: Vec<XwbEntry>,
}

/// One wave entry in the bank.
#[derive(Debug, Clone)]
pub struct XwbEntry {
    pub flags_and_duration: u32,
    pub format: WaveFormat,
    /// Raw codec bytes (e.g. MS-ADPCM blocks).
    pub data: Vec<u8>,
    pub loop_start: u32,
    pub loop_length: u32,
    /// Raw entry name bytes (fixed-width, null-padded).
    pub name_bytes: Vec<u8>,
}

/// The contents of an `XwbEntry`.
#[verifier::ext_equal]
pub struct EntryView {
    pub flags_and_duration: u32,
    pub format: WaveFormat,
    pub data: Seq<u8>,
    pub loop_start: u32,
    pub loop_length: u32,
    pub name_bytes: Seq<u8>,
}

/// The contents of an `XwbBank`.
#[verifier::ext_equal]
pub struct BankView {
    pub header_version: u32,
    pub flags: u32,
    pub name: Seq<u8>,
    pub entry_name_element_size: u32,
    pub alignment: u32,
    pub compact_format: u32,
    pub build_time: u64,
    pub entries: Seq<EntryView>,
}

impl View for XwbEntry {
    type V = EntryView;

    open spec fn view(&self) -> EntryView {
        EntryView {
            flags_and_duration: self.flags_and_duration,
            format: self.format,
            data: self.data@,
            loop_start: self.loop_start,
            loop_length: self.loop_length,
            name_bytes: self.name_bytes@,
        }
    }
}

pub open spec fn entries_view(entries: Seq<XwbEntry>) -> Seq<EntryView> {
    Seq::new(entries.len(), |i: int| entries[i]@)
}

impl View for XwbBank {
    type V = BankView;

    open spec fn view(&self) -> BankView {
        BankView {
            header_version: self.header_version,
            flags: self.flags,
            name: self.name@,
            entry_name_element_size: self.entry_name_element_size,
            alignment: self.alignment,
            compact_format: self.compact_format,
            build_time: self.build_time,
            entries: entries_view(self.entries@),
        }
    }
}

/// The bytes before the first zero.
pub open spec fn until_nul(field: Seq<u8>) -> Seq<u8>
    decreases field.len(),
{
    if field.len() == 0 || field[0] == 0 {
        Seq::empty()
    } else {
        seq![field[0]] + until_nul(field.skip(1))
    }
}

/// The text of a null-padded field: empty if it is not UTF-8.
pub open spec fn field_text(field: Seq<u8>) -> Seq<char> {
    if valid_utf8(until_nul(field)) {
        decode_utf8(until_nul(field))
    } else {
        Seq::empty()
    }
}

proof fn lemma_until_nul(field: Seq<u8>, end: int)
    requires
        0 <= end <= field.len(),
        forall|i: int| 0 <= i < end ==> field[i] != 0,
        end < field.len() ==> field[end] == 0,
    ensures
        until_nul(field) == field.subrange(0, end),
    decreases field.len(),
{
    if end == 0 {
        assert(field.subrange(0, 0) =~= Seq::empty());
    } else {
        lemma_until_nul(field.skip(1), end - 1);
        assert(field.subrange(0, end) =~= seq![field[0]] + field.skip(1).subrange(0, end - 1));
    }
}

/// The text of a null-padded field.
fn text_of_field(field: &[u8]) -> (s: &str)
    ensures
        s@ == field_text(field@),
{
    let mut end: usize = 0;
    while end < field.len() && field[end] != 0
        invariant
            end <= field@.len(),
            forall|i: int| 0 <= i < end ==> field@[i] != 0,
        decreases field@.len() - end,
    {
        end = end + 1;
    }
    proof {
        lemma_until_nul(field@, end as int);
    }
    match utf8_text(slice_subrange(field, 0, end)) {
        Some(s) => s,
        None => {
            proof {
                reveal_strlit("");
                assert(""@ =~= Seq::<char>::empty());
            }
            ""
        },
    }
}

impl XwbBank {
    /// Bank name as a UTF-8 string (trimmed at first null).
    #[must_use]
    pub fn name_str(&self) -> (s: &str)
        ensures
            s@ == field_text(self.name@),
    {
        text_of_field(self.name.as_slice())
    }
}

impl XwbEntry {
    /// Entry name as a UTF-8 string (trimmed at first null).
    #[must_use]
    pub fn name_str(&self) -> (s: &str)
        ensures
            s@ == field_text(self.name_bytes@),
    {
        text_of_field(self.name_bytes.as_slice())
    }
}

// ---------------------------------------------------------------------------
// Parse
// ---------------------------------------------------------------------------

/// The offset of segment `i`, from the table in the header.
pub open spec fn segment_offset(b: Seq<u8>, i: int) -> int {
    le32(b, 12 + 8 * i) as int
}

/// The length of segment `i`, from the table in the header.
pub open spec fn segment_length(b: Seq<u8>, i: int) -> int {
    le32(b, 16 + 8 * i) as int
}

/// Segment `i` of a bank.
pub open spec fn segment(b: Seq<u8>, i: int) -> Seq<u8> {
    b.subrange(segment_offset(b, i), segment_offset(b, i) + segment_length(b, i))
}

/// The error for `wanted` bytes at `offset` of a buffer with `len` bytes.
pub open spec fn short_read(offset: int, wanted: int, len: int) -> XwbError {
    XwbError::Io(
        IoError::UnexpectedEof {
            offset: offset as usize,
            wanted: wanted as usize,
            remaining: (len - offset) as usize,
        },
    )
}

/// The first segment from `i` on that does not lie in the file.
pub open spec fn first_bad_segment(b: Seq<u8>, i: int) -> Option<int>
    decreases 5 - i,
{
    if i >= 5 {
        None
    } else if segment_offset(b, i) + segment_length(b, i) > b.len() {
        Some(i)
    } else {
        first_bad_segment(b, i + 1)
    }
}

/// Why the bank data in segment 0 cannot be read, if it is too short: its
/// fields are read one after the other.
pub open spec fn bank_data_fault(len: int) -> Option<XwbError> {
    if len < 4 {
        Some(short_read(0, 4, len))
    } else if len < 8 {
        Some(short_read(4, 4, len))
    } else if len < 72 {
        Some(short_read(8, 64, len))
    } else if len < 96 {
        Some(short_read(72 + (len - 72) / 4 * 4, 4, len))
    } else {
        None
    }
}

/// Why a file is refused before its entries are looked at.
pub open spec fn header_fault(b: Seq<u8>) -> Option<XwbError> {
    let len = b.len() as int;
    if len < 4 {
        Some(short_read(0, 4, len))
    } else if b.subrange(0, 4) != seq![0x57u8, 0x42u8, 0x4Eu8, 0x44u8] {
        Some(XwbError::BadMagic)
    } else if len < 8 {
        Some(short_read(4, 4, len))
    } else if le32(b, 4) != 43 {
        Some(XwbError::UnsupportedVersion { version: le32(b, 4) })
    } else if len < 52 {
        Some(short_read(8 + (len - 8) / 4 * 4, 4, len))
    } else {
        match first_bad_segment(b, 0) {
            Some(i) => Some(
                XwbError::SegmentOutOfBounds {
                    index: i as usize,
                    offset: segment_offset(b, i) as usize,
                    length: segment_length(b, i) as usize,
                    file_len: b.len() as usize,
                },
            ),
            None => bank_data_fault(segment_length(b, 0)),
        }
    }
}

/// The name field of entry `i`: zeros if the table is too short for it.
pub open spec fn entry_name(names: Seq<u8>, size: nat, i: int) -> Seq<u8> {
    if (i + 1) * size <= names.len() {
        names.subrange(i * size, (i + 1) * size)
    } else {
        Seq::new(size, |k: int| 0u8)
    }
}

/// Entry `i` of a bank: `None` if its metadata or its data lies outside its
/// segment.
pub open spec fn bank_entry(
    meta: Seq<u8>,
    names: Seq<u8>,
    wave: Seq<u8>,
    name_size: nat,
    i: int,
) -> Option<EntryView> {
    let at = 24 * i;
    let offset = le32(meta, at + 8);
    let length = le32(meta, at + 12);
    if at + 24 > meta.len() || offset + length > wave.len() {
        None
    } else {
        Some(
            EntryView {
                flags_and_duration: le32(meta, at),
                format: WaveFormat::of(le32(meta, at + 4)),
                data: wave.subrange(offset as int, offset + length),
                loop_start: le32(meta, at + 16),
                loop_length: le32(meta, at + 20),
                name_bytes: entry_name(names, name_size, i),
            },
        )
    }
}

/// The first `n` entries of a bank.
pub open spec fn bank_entries(
    meta: Seq<u8>,
    names: Seq<u8>,
    wave: Seq<u8>,
    name_size: nat,
    n: nat,
) -> Result<Seq<EntryView>, XwbError>
    decreases n,
{
    if n == 0 {
        Ok(Seq::empty())
    } else {
        match bank_entries(meta, names, wave, name_size, (n - 1) as nat) {
            Err(e) => Err(e),
            Ok(before) => match bank_entry(meta, names, wave, name_size, n - 1) {
                Some(entry) => Ok(before.push(entry)),
                None => Err(XwbError::EntryDataOutOfBounds { index: (n - 1) as usize }),
            },
        }
    }
}

/// What an XWB file parses to.
pub open spec fn xwb_outcome(b: Seq<u8>) -> Result<BankView, XwbError> {
    match header_fault(b) {
        Some(e) => Err(e),
        None => {
            let data = segment(b, 0);
            let name_size = le32(data, 76);
            match bank_entries(
                segment(b, 1),
                segment(b, 3),
                segment(b, 4),
                name_size as nat,
                le32(data, 4) as nat,
            ) {
                Err(e) => Err(e),
                Ok(entries) => Ok(
                    BankView {
                        header_version: le32(b, 8),
                        flags: le32(data, 0),
                        name: data.subrange(8, 72),
                        entry_name_element_size: name_size,
                        alignment: le32(data, 80),
                        compact_format: le32(data, 84),
                        build_time: (le32(data, 92) * 0x1_0000_0000 + le32(data, 88)) as u64,
                        entries,
                    },
                ),
            }
        },
    }
}

proof fn lemma_entries_error_stays(
    meta: Seq<u8>,
    names: Seq<u8>,
    wave: Seq<u8>,
    name_size: nat,
    m: nat,
    n: nat,
)
    requires
        m <= n,
        bank_entries(meta, names, wave, name_size, m) is Err,
    ensures
        bank_entries(meta, names, wave, name_size, n) == bank_entries(
            meta,
            names,
            wave,
            name_size,
            m,
        ),
    decreases n,
{
    if m < n {
        lemma_entries_error_stays(meta, names, wave, name_size, m, (n - 1) as nat);
    }
}

/// The error for `wanted` bytes at `offset` of a buffer with `len` bytes.
fn eof(offset: usize, wanted: usize, len: usize) -> (e: XwbError)
    requires
        offset <= len,
    ensures
        e == short_read(offset as int, wanted as int, len as int),
{
    XwbError::Io(IoError::UnexpectedEof { offset, wanted, remaining: len - offset })
}

/// Check everything up to the entries.
fn check_header(bytes: &[u8]) -> (r: Result<(), XwbError>)
    ensures
        match header_fault(bytes@) {
            Some(e) => r == Err::<(), XwbError>(e),
            None => r is Ok && bytes@.len() >= 52,
        },
{
    let len: usize = bytes.len();
    if len < 4 {
        return Err(eof(0, 4, len));
    }
    let magic_ok: bool = bytes[0] == 0x57 && bytes[1] == 0x42 && bytes[2] == 0x4E && bytes[3]
        == 0x44;
    proof {
        let magic = seq![0x57u8, 0x42u8, 0x4Eu8, 0x44u8];
        let head = bytes@.subrange(0, 4);
        assert(magic_ok ==> head =~= magic);
        assert(!magic_ok ==> head[0] != magic[0] || head[1] != magic[1] || head[2] != magic[2]
            || head[3] != magic[3]);
    }
    if !magic_ok {
        return Err(XwbError::BadMagic);
    }
    if len < 8 {
        return Err(eof(4, 4, len));
    }
    let version: u32 = get_u32(bytes, 4);
    if version != VERSION {
        return Err(XwbError::UnsupportedVersion { version });
    }
    if len < 52 {
        return Err(eof(8 + (len - 8) / 4 * 4, 4, len));
    }
    let mut i: usize = 0;
    while i < 5
        invariant
            i <= 5,
            len == bytes@.len(),
            len >= 52,
            first_bad_segment(bytes@, 0) == first_bad_segment(bytes@, i as int),
            bytes@.subrange(0, 4) == seq![0x57u8, 0x42u8, 0x4Eu8, 0x44u8],
            le32(bytes@, 4) == 43,
        decreases 5 - i,
    {
        let offset: u32 = get_u32(bytes, 12 + 8 * i);
        let length: u32 = get_u32(bytes, 16 + 8 * i);
        if offset as u64 + length as u64 > len as u64 {
            return Err(
                XwbError::SegmentOutOfBounds {
                    index: i,
                    offset: offset as usize,
                    length: length as usize,
                    file_len: len,
                },
            );
        }
        i = i + 1;
    }
    let data_len: usize = get_u32(bytes, 16) as usize;
    if data_len < 4 {
        Err(eof(0, 4, data_len))
    } else if data_len < 8 {
        Err(eof(4, 4, data_len))
    } else if data_len < 72 {
        Err(eof(8, 64, data_len))
    } else if data_len < BANK_DATA_SIZE {
        Err(eof(72 + (data_len - 72) / 4 * 4, 4, data_len))
    } else {
        Ok(())
    }
}

proof fn lemma_segments_in_file(b: Seq<u8>, i: int, from: int)
    requires
        0 <= from <= i < 5,
        first_bad_segment(b, from) is None,
    ensures
        segment_offset(b, i) + segment_length(b, i) <= b.len(),
    decreases i - from,
{
    if from < i {
        lemma_segments_in_file(b, i, from + 1);
    }
}

proof fn lemma_entries_need_meta(
    meta: Seq<u8>,
    names: Seq<u8>,
    wave: Seq<u8>,
    name_size: nat,
    n: nat,
)
    requires
        bank_entries(meta, names, wave, name_size, n) is Ok,
    ensures
        24 * n <= meta.len(),
        bank_entries(meta, names, wave, name_size, n)->Ok_0.len() == n,
    decreases n,
{
    if n > 0 {
        lemma_entries_need_meta(meta, names, wave, name_size, (n - 1) as nat);
    }
}

/// What holds of the layout of a file that parses.
pub proof fn lemma_parsed_layout(b: Seq<u8>)
    requires
        xwb_outcome(b) is Ok,
    ensures
        b.len() >= 52,
        segment_offset(b, 0) + segment_length(b, 0) <= b.len(),
        segment_length(b, 0) >= 96,
        segment_offset(b, 1) + segment_length(b, 1) <= b.len(),
        24 * xwb_outcome(b)->Ok_0.entries.len() <= segment_length(b, 1),
{
    lemma_segments_in_file(b, 0, 0);
    lemma_segments_in_file(b, 1, 0);
    let data = segment(b, 0);
    lemma_entries_need_meta(
        segment(b, 1),
        segment(b, 3),
        segment(b, 4),
        le32(data, 76) as nat,
        le32(data, 4) as nat,
    );
}

/// Segment `i` of a checked bank.
fn segment_slice(bytes: &[u8], i: usize) -> (s: &[u8])
    requires
        i < 5,
        bytes@.len() >= 52,
        header_fault(bytes@) is None,
    ensures
        s@ == segment(bytes@, i as int),
        s@.len() == segment_length(bytes@, i as int),
{
    proof {
        lemma_segments_in_file(bytes@, i as int, 0);
    }
    let offset: usize = get_u32(bytes, 12 + 8 * i) as usize;
    let length: usize = get_u32(bytes, 16 + 8 * i) as usize;
    let len: usize = bytes.len();
    assert(offset + length <= len);
    slice_subrange(bytes, offset, offset + length)
}

/// The name field of entry `i`.
fn name_field(names: &[u8], size: u32, i: u32) -> (name: Vec<u8>)
    ensures
        name@ == entry_name(names@, size as nat, i as int),
{
    proof {
        assert(i * size <= 0xFFFF_FFFF * 0xFFFF_FFFF) by (nonlinear_arith)
            requires
                i <= 0xFFFF_FFFF,
                size <= 0xFFFF_FFFF,
        ;
        assert((i + 1) * size == i * size + size) by (nonlinear_arith);
        assert(i * size >= 0) by (nonlinear_arith)
            requires
                i >= 0,
                size >= 0,
        ;
    }
    let start: u64 = i as u64 * size as u64;
    let end: u64 = start + size as u64;
    if end <= names.len() as u64 {
        slice_to_vec(slice_subrange(names, start as usize, end as usize))
    } else {
        let mut name: Vec<u8> = Vec::new();
        put_zeros(&mut name, size as usize);
        assert(name@ =~= Seq::new(size as nat, |k: int| 0u8));
        name
    }
}

/// Parse an XWB v43 file from raw bytes.
pub fn parse(bytes: &[u8]) -> (r: Result<XwbBank, XwbError>)
    ensures
        match xwb_outcome(bytes@) {
            Ok(bank) => r is Ok && r->Ok_0@ == bank,
            Err(e) => r is Err && r->Err_0 == e,
        },
{
    match check_header(bytes) {
        Ok(_) => {},
        Err(e) => return Err(e),
    }
    let data = segment_slice(bytes, 0);
    let meta = segment_slice(bytes, 1);
    let names = segment_slice(bytes, 3);
    let wave = segment_slice(bytes, 4);
    assert(segment_length(bytes@, 0) >= 96);
    let entry_count: u32 = get_u32(data, 4);
    let name_size: u32 = get_u32(data, 76);
    let mut name = [0u8;64];
    let mut k: usize = 0;
    while k < 64
        invariant
            k <= 64,
            data@.len() >= 96,
            forall|j: int| 0 <= j < k ==> name@[j] == data@[8 + j],
        decreases 64 - k,
    {
        name[k] = data[8 + k];
        k = k + 1;
    }
    assert(name@ =~= data@.subrange(8, 72));
    let mut entries: Vec<XwbEntry> = Vec::new();
    let mut i: u32 = 0;
    assert(entries_view(entries@) =~= Seq::<EntryView>::empty());
    while i < entry_count
        invariant
            i <= entry_count,
            header_fault(bytes@) is None,
            data@ == segment(bytes@, 0),
            meta@ == segment(bytes@, 1),
            names@ == segment(bytes@, 3),
            wave@ == segment(bytes@, 4),
            entry_count == le32(data@, 4),
            name_size == le32(data@, 76),
            bank_entries(meta@, names@, wave@, name_size as nat, i as nat) == Ok::<
                Seq<EntryView>,
                XwbError,
            >(entries_view(entries@)),
        decreases entry_count - i,
    {
        if (24 * i as u64 + 24) > meta.len() as u64 {
            proof {
                lemma_entries_error_stays(
                    meta@,
                    names@,
                    wave@,
                    name_size as nat,
                    (i + 1) as nat,
                    entry_count as nat,
                );
            }
            return Err(XwbError::EntryDataOutOfBounds { index: i as usize });
        }
        let at: usize = 24 * i as usize;
        let offset: u32 = get_u32(meta, at + 8);
        let length: u32 = get_u32(meta, at + 12);
        if offset as u64 + length as u64 > wave.len() as u64 {
            proof {
                lemma_entries_error_stays(
                    meta@,
                    names@,
                    wave@,
                    name_size as nat,
                    (i + 1) as nat,
                    entry_count as nat,
                );
            }
            return Err(XwbError::EntryDataOutOfBounds { index: i as usize });
        }
        let entry = XwbEntry {
            flags_and_duration: get_u32(meta, at),
            format: WaveFormat::from_packed(get_u32(meta, at + 4)),
            data: slice_to_vec(
                slice_subrange(wave, offset as usize, offset as usize + length as usize),
            ),
            loop_start: get_u32(meta, at + 16),
            loop_length: get_u32(meta, at + 20),
            name_bytes: name_field(names, name_size, i),
        };
        proof {
            let all = entries@.push(entry);
            assert(entries_view(all) =~= entries_view(entries@).push(entry@));
            assert(Some(entry@) == bank_entry(meta@, names@, wave@, name_size as nat, i as int));
        }
        entries.push(entry);
        i = i + 1;
    }
    let build_time: u64 = get_u32(data, 92) as u64 * 0x1_0000_0000 + get_u32(data, 88) as u64;
    Ok(
        XwbBank {
            header_version: get_u32(bytes, 8),
            flags: get_u32(data, 0),
            name,
            entry_name_element_size: name_size,
            alignment: get_u32(data, 80),
            compact_format: get_u32(data, 84),
            build_time,
            entries,
        },
    )
}

// ---------------------------------------------------------------------------
// Write
// ---------------------------------------------------------------------------

/// `value` rounded up to a multiple of `alignment`.
pub open spec fn rounded_up(value: int, alignment: int) -> int {
    if alignment <= 1 {
        value
    } else {
        (value + alignment - 1) / alignment * alignment
    }
}

/// Where entry `i`'s data starts in the wave-data segment. Each entry's data
/// starts at a multiple of the alignment.
pub open spec fn data_start(entries: Seq<EntryView>, alignment: int, i: int) -> int
    decreases i,
{
    if i <= 0 {
        0
    } else {
        rounded_up(
            data_start(entries, alignment, i - 1) + entries[i - 1].data.len(),
            alignment,
        )
    }
}

/// The length of the wave-data segment: it ends with the last entry's data.
pub open spec fn wave_length(entries: Seq<EntryView>, alignment: int) -> int {
    if entries.len() == 0 {
        0
    } else {
        data_start(entries, alignment, entries.len() - 1) + entries.last().data.len()
    }
}

/// Where the entry names start.
pub open spec fn names_start(bank: BankView) -> int {
    148 + 24 * bank.entries.len() as int
}

/// Where the padding behind the entry names starts.
pub open spec fn names_end(bank: BankView) -> int {
    names_start(bank) + bank.entries.len() * bank.entry_name_element_size
}

/// Where the wave data starts.
pub open spec fn wave_start(bank: BankView) -> int {
    rounded_up(names_end(bank), bank.alignment as int)
}

/// The size of the file that a bank is written to.
pub open spec fn bank_size(bank: BankView) -> int {
    wave_start(bank) + wave_length(bank.entries, bank.alignment as int)
}

/// The lowest 32 bits of `n`.
pub open spec fn low32(n: int) -> u32 {
    (n % 0x1_0000_0000) as u32
}

/// The header of a bank as words: magic, versions, and the segment table.
pub open spec fn header_words(bank: BankView) -> Seq<u32> {
    let n = bank.entries.len() as int;
    seq![
        0x444E_4257u32,
        43u32,
        bank.header_version,
        52u32,
        96u32,
        148u32,
        low32(24 * n),
        low32(names_start(bank)),
        0u32,
        low32(names_start(bank)),
        low32(n * bank.entry_name_element_size),
        low32(wave_start(bank)),
        low32(wave_length(bank.entries, bank.alignment as int)),
    ]
}

/// The bank data in front of the name.
pub open spec fn data_words_head(bank: BankView) -> Seq<u32> {
    seq![bank.flags, low32(bank.entries.len() as int)]
}

/// The bank data behind the name.
pub open spec fn data_words_tail(bank: BankView) -> Seq<u32> {
    seq![
        24u32,
        bank.entry_name_element_size,
        bank.alignment,
        bank.compact_format,
        low32(bank.build_time as int),
        (bank.build_time / 0x1_0000_0000) as u32,
    ]
}

/// The metadata of the first `n` entries.
pub open spec fn meta_words(entries: Seq<EntryView>, alignment: int, n: nat) -> Seq<u32>
    decreases n,
{
    if n == 0 {
        Seq::empty()
    } else {
        let e = entries[n - 1];
        meta_words(entries, alignment, (n - 1) as nat) + seq![
            e.flags_and_duration,
            e.format@,
            low32(data_start(entries, alignment, n - 1)),
            low32(e.data.len() as int),
            e.loop_start,
            e.loop_length,
        ]
    }
}

/// A name cut or padded with zeros to `size` bytes.
pub open spec fn fitted_name(name: Seq<u8>, size: nat) -> Seq<u8> {
    Seq::new(
        size,
        |i: int|
            if i < name.len() {
                name[i]
            } else {
                0u8
            },
    )
}

/// The names of the first `n` entries.
pub open spec fn name_table(entries: Seq<EntryView>, size: nat, n: nat) -> Seq<u8>
    decreases n,
{
    if n == 0 {
        Seq::empty()
    } else {
        name_table(entries, size, (n - 1) as nat) + fitted_name(entries[n - 1].name_bytes, size)
    }
}

/// The data of the first `n` entries, each padded up to where it starts.
pub open spec fn wave_data(entries: Seq<EntryView>, alignment: int, n: nat) -> Seq<u8>
    decreases n,
{
    if n == 0 {
        Seq::empty()
    } else {
        let before = wave_data(entries, alignment, (n - 1) as nat);
        let gap = (data_start(entries, alignment, n - 1) - before.len()) as nat;
        before + Seq::new(gap, |i: int| 0u8) + entries[n - 1].data
    }
}

/// The bytes of a bank in front of its entries' metadata.
pub open spec fn bank_head(bank: BankView) -> Seq<u8> {
    words_bytes(header_words(bank)) + words_bytes(data_words_head(bank)) + bank.name + words_bytes(
        data_words_tail(bank),
    )
}

/// The bytes of a bank.
#[verifier::opaque]
pub open spec fn bank_file(bank: BankView) -> Seq<u8> {
    let n = bank.entries.len();
    let alignment = bank.alignment as int;
    bank_head(bank) + words_bytes(meta_words(bank.entries, alignment, n)) + name_table(
        bank.entries,
        bank.entry_name_element_size as nat,
        n,
    ) + Seq::new((wave_start(bank) - names_end(bank)) as nat, |i: int| 0u8) + wave_data(
        bank.entries,
        alignment,
        n,
    )
}

/// The least multiple of the alignment that is not below the value.
pub proof fn law_rounded_up(value: int, alignment: int)
    requires
        value >= 0,
    ensures
        rounded_up(value, alignment) >= value,
        alignment > 1 ==> rounded_up(value, alignment) % alignment == 0,
        alignment > 1 ==> rounded_up(value, alignment) < value + alignment,
        alignment <= 1 ==> rounded_up(value, alignment) == value,
{
    if alignment > 1 {
        let t = value + alignment - 1;
        vstd::arithmetic::div_mod::lemma_fundamental_div_mod(t, alignment);
        let q = t / alignment;
        assert(q * alignment == alignment * q) by (nonlinear_arith);
        vstd::arithmetic::div_mod::lemma_mod_multiples_basic(q, alignment);
    }
}

/// Entries' data starts in order.
pub proof fn lemma_data_start_monotone(entries: Seq<EntryView>, alignment: int, i: int, j: int)
    requires
        0 <= i <= j <= entries.len(),
    ensures
        0 <= data_start(entries, alignment, i) <= data_start(entries, alignment, j),
        i < j ==> data_start(entries, alignment, i) + entries[i].data.len() <= data_start(
            entries,
            alignment,
            j,
        ),
    decreases j,
{
    if j > 0 {
        if i < j {
            lemma_data_start_monotone(entries, alignment, i, j - 1);
        } else {
            lemma_data_start_monotone(entries, alignment, j - 1, j - 1);
        }
        law_rounded_up(
            data_start(entries, alignment, j - 1) + entries[j - 1].data.len(),
            alignment,
        );
    }
}

pub proof fn lemma_wave_data_len(entries: Seq<EntryView>, alignment: int, n: nat)
    requires
        n <= entries.len(),
    ensures
        wave_data(entries, alignment, n).len() == if n == 0 {
            0
        } else {
            data_start(entries, alignment, n - 1) + entries[n - 1].data.len()
        },
    decreases n,
{
    if n > 0 {
        lemma_wave_data_len(entries, alignment, (n - 1) as nat);
        lemma_data_start_monotone(entries, alignment, n - 1, n - 1);
        if n > 1 {
            lemma_data_start_monotone(entries, alignment, n - 2, n - 1);
        }
    }
}

pub proof fn lemma_name_table_len(entries: Seq<EntryView>, size: nat, n: nat)
    ensures
        name_table(entries, size, n).len() == n * size,
    decreases n,
{
    if n > 0 {
        lemma_name_table_len(entries, size, (n - 1) as nat);
        assert(n * size == (n - 1) * size + size) by (nonlinear_arith);
    } else {
        assert(n * size == 0) by (nonlinear_arith)
            requires
                n == 0,
        ;
    }
}

/// Round `value` up to a multiple of `alignment`.
pub fn round_up(value: usize, alignment: usize) -> (r: usize)
    requires
        rounded_up(value as int, alignment as int) <= usize::MAX,
    ensures
        r == rounded_up(value as int, alignment as int),
{
    if alignment <= 1 {
        return value;
    }
    let rest: usize = value % alignment;
    proof {
        law_rounded_up(value as int, alignment as int);
        let q = value as int / alignment as int;
        vstd::arithmetic::div_mod::lemma_fundamental_div_mod(value as int, alignment as int);
        if rest == 0 {
            assert(value + alignment - 1 == q * alignment + (alignment - 1)) by (nonlinear_arith)
                requires
                    value == alignment * q,
            ;
            vstd::arithmetic::div_mod::lemma_fundamental_div_mod_converse(
                value + alignment - 1,
                alignment as int,
                q,
                alignment - 1,
            );
            assert(q * alignment == alignment * q) by (nonlinear_arith);
        } else {
            assert(value + alignment - 1 == (q + 1) * alignment + (rest - 1)) by (nonlinear_arith)
                requires
                    value == alignment * q + rest,
            ;
            vstd::arithmetic::div_mod::lemma_fundamental_div_mod_converse(
                value + alignment - 1,
                alignment as int,
                q + 1,
                rest - 1,
            );
            assert((q + 1) * alignment == alignment * q + alignment) by (nonlinear_arith);
        }
    }
    if rest == 0 {
        value
    } else {
        value - rest + alignment
    }
}

/// Append a list of words.
fn put_words(out: &mut Vec<u8>, words: &Vec<u32>)
    ensures
        final(out)@ == old(out)@ + words_bytes(words@),
{
    let mut i: usize = 0;
    assert(old(out)@ =~= old(out)@ + words_bytes(words@.subrange(0, 0)));
    while i < words.len()
        invariant
            i <= words@.len(),
            out@ == old(out)@ + words_bytes(words@.subrange(0, i as int)),
        decreases words@.len() - i,
    {
        put_u32(out, words[i]);
        i = i + 1;
        let ghost now = words@.subrange(0, i as int);
        assert(now.drop_last() =~= words@.subrange(0, i - 1));
        assert(out@ =~= old(out)@ + words_bytes(now));
    }
    assert(words@.subrange(0, i as int) =~= words@);
}

fn low_word(n: usize) -> (w: u32)
    ensures
        w == low32(n as int),
{
    (n as u64 % 0x1_0000_0000) as u32
}

/// Where each entry's data starts.
fn data_offsets(entries: &Vec<XwbEntry>, alignment: usize) -> (offsets: Vec<usize>)
    requires
        wave_length(entries_view(entries@), alignment as int) <= usize::MAX,
    ensures
        offsets@.len() == entries@.len(),
        forall|i: int|
            0 <= i < offsets@.len() ==> #[trigger] offsets@[i] == data_start(
                entries_view(entries@),
                alignment as int,
                i,
            ),
{
    let ghost views = entries_view(entries@);
    let mut offsets: Vec<usize> = Vec::new();
    let mut i: usize = 0;
    while i < entries.len()
        invariant
            i <= entries@.len(),
            views == entries_view(entries@),
            wave_length(views, alignment as int) <= usize::MAX,
            offsets@.len() == i,
            forall|k: int|
                0 <= k < i ==> #[trigger] offsets@[k] == data_start(views, alignment as int, k),
        decreases entries@.len() - i,
    {
        if i == 0 {
            offsets.push(0);
        } else {
            proof {
                lemma_data_start_monotone(views, alignment as int, i - 1, i as int);
                lemma_data_start_monotone(views, alignment as int, i as int, views.len() - 1);
                assert(views[i - 1] == entries@[i - 1]@);
            }
            let cursor: usize = offsets[i - 1] + entries[i - 1].data.len();
            offsets.push(round_up(cursor, alignment));
        }
        i = i + 1;
    }
    offsets
}

/// Append the metadata of the entries.
fn put_meta(out: &mut Vec<u8>, entries: &Vec<XwbEntry>, offsets: &Vec<usize>, alignment: Ghost<int>)
    requires
        offsets@.len() == entries@.len(),
        forall|i: int|
            0 <= i < offsets@.len() ==> #[trigger] offsets@[i] == data_start(
                entries_view(entries@),
                alignment@,
                i,
            ),
    ensures
        final(out)@ == old(out)@ + words_bytes(
            meta_words(entries_view(entries@), alignment@, entries@.len()),
        ),
{
    let ghost views = entries_view(entries@);
    let mut i: usize = 0;
    assert(old(out)@ =~= old(out)@ + words_bytes(meta_words(views, alignment@, 0)));
    while i < entries.len()
        invariant
            i <= entries@.len(),
            views == entries_view(entries@),
            offsets@.len() == entries@.len(),
            forall|k: int|
                0 <= k < offsets@.len() ==> #[trigger] offsets@[k] == data_start(
                    views,
                    alignment@,
                    k,
                ),
            out@ == old(out)@ + words_bytes(meta_words(views, alignment@, i as nat)),
        decreases entries@.len() - i,
    {
        let entry = &entries[i];
        let words: Vec<u32> = vec![
            entry.flags_and_duration,
            entry.format.packed(),
            low_word(offsets[i]),
            low_word(entry.data.len()),
            entry.loop_start,
            entry.loop_length,
        ];
        put_words(out, &words);
        proof {
            let before = meta_words(views, alignment@, i as nat);
            assert(views[i as int] == entry@);
            assert(words@ =~= seq![
                entry.flags_and_duration,
                entry.format@,
                low32(data_start(views, alignment@, i as int)),
                low32(entry.data@.len() as int),
                entry.loop_start,
                entry.loop_length,
            ]);
            crate::util::io::lemma_words_concat(before, words@);
            assert(out@ =~= old(out)@ + words_bytes(before + words@));
        }
        i = i + 1;
    }
}

/// Append the names of the entries.
fn put_names(out: &mut Vec<u8>, entries: &Vec<XwbEntry>, size: usize)
    ensures
        final(out)@ == old(out)@ + name_table(
            entries_view(entries@),
            size as nat,
            entries@.len(),
        ),
{
    let ghost views = entries_view(entries@);
    let mut i: usize = 0;
    assert(old(out)@ =~= old(out)@ + name_table(views, size as nat, 0));
    while i < entries.len()
        invariant
            i <= entries@.len(),
            views == entries_view(entries@),
            out@ == old(out)@ + name_table(views, size as nat, i as nat),
        decreases entries@.len() - i,
    {
        let name = &entries[i].name_bytes;
        let ghost before = out@;
        if name.len() >= size {
            put_bytes(out, slice_subrange(name.as_slice(), 0, size));
        } else {
            put_bytes(out, name.as_slice());
            put_zeros(out, size - name.len());
        }
        assert(views[i as int].name_bytes == name@);
        assert(out@ =~= before + fitted_name(name@, size as nat));
        i = i + 1;
        assert(out@ =~= old(out)@ + name_table(views, size as nat, i as nat));
    }
}

/// Append the data of the entries.
fn put_wave(out: &mut Vec<u8>, entries: &Vec<XwbEntry>, offsets: &Vec<usize>, alignment: Ghost<int>)
    requires
        offsets@.len() == entries@.len(),
        forall|i: int|
            0 <= i < offsets@.len() ==> #[trigger] offsets@[i] == data_start(
                entries_view(entries@),
                alignment@,
                i,
            ),
        wave_length(entries_view(entries@), alignment@) <= usize::MAX,
    ensures
        final(out)@ == old(out)@ + wave_data(
            entries_view(entries@),
            alignment@,
            entries@.len(),
        ),
{
    let ghost views = entries_view(entries@);
    let mut cursor: usize = 0;
    let mut i: usize = 0;
    assert(old(out)@ =~= old(out)@ + wave_data(views, alignment@, 0));
    while i < entries.len()
        invariant
            i <= entries@.len(),
            views == entries_view(entries@),
            offsets@.len() == entries@.len(),
            forall|k: int|
                0 <= k < offsets@.len() ==> #[trigger] offsets@[k] == data_start(
                    views,
                    alignment@,
                    k,
                ),
            wave_length(views, alignment@) <= usize::MAX,
            cursor == wave_data(views, alignment@, i as nat).len(),
            out@ == old(out)@ + wave_data(views, alignment@, i as nat),
        decreases entries@.len() - i,
    {
        let start: usize = offsets[i];
        proof {
            lemma_wave_data_len(views, alignment@, i as nat);
            lemma_wave_data_len(views, alignment@, (i + 1) as nat);
            if i > 0 {
                lemma_data_start_monotone(views, alignment@, i - 1, i as int);
            }
            lemma_data_start_monotone(views, alignment@, i as int, views.len() - 1);
            assert(views[i as int].data == entries@[i as int].data@);
        }
        put_zeros(out, start - cursor);
        put_bytes(out, entries[i].data.as_slice());
        cursor = start + entries[i].data.len();
        i = i + 1;
        assert(out@ =~= old(out)@ + wave_data(views, alignment@, i as nat));
    }
}

/// Write an XWB v43 file, appended to `out`.
///
/// Segment layout: header → seg0 → seg1 → seg2(empty) → seg3 → pad → seg4.
/// The format's size fields have 32 bits: larger values are truncated.
pub fn write(bank: &XwbBank, out: &mut Vec<u8>) -> (r: Result<(), XwbError>)
    requires
        bank_size(bank@) <= usize::MAX,
    ensures
        r is Ok,
        final(out)@ == old(out)@ + bank_file(bank@),
{
    proof {
        reveal(bank_file);
    }
    let ghost view = bank@;
    let ghost views = entries_view(bank.entries@);
    let ghost align = bank.alignment as int;
    let count: usize = bank.entries.len();
    let size: usize = bank.entry_name_element_size as usize;
    let alignment: usize = bank.alignment as usize;
    proof {
        let n = count as int;
        assert(n * size >= 0) by (nonlinear_arith)
            requires
                n >= 0,
                size >= 0,
        ;
        law_rounded_up(names_end(view), align);
        if n > 0 {
            lemma_data_start_monotone(views, align, n - 1, n - 1);
        }
    }
    let names_at: usize = 148 + 24 * count;
    let names_len: usize = count * size;
    let names_to: usize = names_at + names_len;
    let wave_at: usize = round_up(names_to, alignment);
    let offsets = data_offsets(&bank.entries, alignment);
    let wave_len: usize = if count > 0 {
        proof {
            assert(views.last() == bank.entries@[count - 1]@);
        }
        offsets[count - 1] + bank.entries[count - 1].data.len()
    } else {
        0
    };
    let header: Vec<u32> = vec![
        0x444E_4257,
        VERSION,
        bank.header_version,
        52,
        96,
        148,
        low_word(24 * count),
        low_word(names_at),
        0,
        low_word(names_at),
        low_word(names_len),
        low_word(wave_at),
        low_word(wave_len),
    ];
    assert(header@ =~= header_words(view));
    put_words(out, &header);
    let data_head: Vec<u32> = vec![bank.flags, low_word(count)];
    assert(data_head@ =~= data_words_head(view));
    put_words(out, &data_head);
    put_bytes(out, bank.name.as_slice());
    let data_tail: Vec<u32> = vec![
        24,
        bank.entry_name_element_size,
        bank.alignment,
        bank.compact_format,
        (bank.build_time % 0x1_0000_0000) as u32,
        (bank.build_time / 0x1_0000_0000) as u32,
    ];
    assert(data_tail@ =~= data_words_tail(view));
    put_words(out, &data_tail);
    assert(out@ =~= old(out)@ + bank_head(view));
    put_meta(out, &bank.entries, &offsets, Ghost(align));
    put_names(out, &bank.entries, size);
    put_zeros(out, wave_at - names_to);
    put_wave(out, &bank.entries, &offsets, Ghost(align));
    assert(out@ =~= old(out)@ + bank_file(view));
    Ok(())
}

} // verus!

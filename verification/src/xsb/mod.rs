//! XSB (XACT2 Sound Bank) writer for DDR World.
//!
//! Generates a fully-formed sound bank from scratch. Two profiles are
//! supported, differing only in which sound entries they carry and which cues
//! address them:
//!
//! - [`write`] — the **song** profile: one wave bank, two simple cues (main +
//!   preview), a simple sound on mix category 4 and a complex sound on
//!   category 3, both carrying a runtime-parameter-curve reference. This is
//!   the shape every stock DDR song sound bank uses, and it is what the
//!   chart-conversion pipeline emits.
//! - [`write_se`] — the **sound-effect** profile: one wave bank, one simple
//!   cue, and one *bare* sound entry on mix category 6 with no
//!   runtime-parameter curve. This is the shape 129 of the 138 sounds in the
//!   game's own `se_normal.xsb` gameplay-SE bank use. Emitting the song
//!   profile for a sound effect would put it on the **music** mix bus and
//!   attach a curve referencing global audio state a caller never sets.
//!
//! The binary layout, for the song profile:
//!
//! ```text
//! [Header]             0x00..0x4a  magic, versions, counts, section offsets
//! [Soundbank name]     0x4a..0x8a  64-byte null-padded ASCII
//! [Wavebank name]      0x8a..0xca  64-byte null-padded ASCII
//! [Sound entries]      0xca..+58   COMPLEX(39) + SIMPLE(19)
//! [Simple cues]        +10         2 × 5 bytes, point at sound entries
//! [Hash table]         +32         16 × u16, cue indices by hashed name
//! [Name index]         +12         2 × (u32 name_off, u16 next_in_chain)
//! [Cue name strings]   +N          "{code}_s\0{code}\0"
//! ```
//!
//! Total size: 326 bytes for a 4-char code (328 for 5 chars). The SE profile
//! is the same shape with a single 12-byte sound, one cue and one name: 262
//! bytes for a 4-char name.
//!
//! Every section offset in the header must equal the running byte cursor
//! *exactly*, and the cue-name string table must run exactly to the end of the
//! file — the engine's validator checks both.
//!
//! The engine validates a CRC-16 over bytes `[0x12..]` stored at `0x08`; if
//! it doesn't match, the sound bank is silently rejected and audio goes
//! dark.

pub mod checksum_laws;
pub mod header_laws;
pub mod laws;

use crate::util::io::{bytes16, bytes32, put_bytes, put_i32, put_u16, put_u32, put_zeros, sbytes32};
use vstd::prelude::*;
use vstd::string::{is_ascii_spec_bytes, StringSliceAdditionalSpecFns};

verus! {

/// File magic: "SDBK" (little-endian).
pub const MAGIC: u32 = 0x4B42_4453;

/// XSB content/tool version for XACT2 v2.10 (DDR World).
pub const VERSION: u16 = 0x002B;

/// Windows platform byte.
pub const PLATFORM: u8 = 0x01;

/// Fixed header size — the section offsets embed byte offsets starting after
/// this region.
pub const HEADER_SIZE: usize = 0x4A;

/// Fixed-width soundbank and wave bank name fields.
pub const NAME_FIELD_LEN: usize = 0x40;

/// DDR never uses complex cues — the complex *sound* in the song profile is
/// still addressed by a simple cue.
pub const COMPLEX_CUE_COUNT: u16 = 0;

/// Hash bucket count. The format requires `max(16, simple_cues +
/// complex_cues)`; both profiles have well under 16 cues, so it is always the
/// floor of 16.
pub const HASH_BUCKET_COUNT: u16 = 16;

pub const WAVEBANK_COUNT: u8 = 1;

/// Per-sound entry sizes.
pub const SIMPLE_SOUND_SIZE: usize = 19;

pub const COMPLEX_SOUND_SIZE: usize = 39;

/// The bare SE sound entry: the 9-byte common prefix plus a `u16 wave_index`
/// and a `u8 wavebank_index`, with no trailing runtime-parameter-curve block.
pub const SE_SOUND_SIZE: usize = 12;

pub const CUE_ENTRY_SIZE: usize = 5;

pub const NAME_INDEX_ENTRY_SIZE: usize = 6;

/// Cue flags: bits 0 and 1 clear (no variation/transition table), bit 2 set
/// (playable sound cue). The engine's validator requires exactly this.
pub const CUE_FLAG_SOUND: u8 = 0x04;

/// Sentinels.
pub const EMPTY_BUCKET: u16 = 0xFFFF;

pub const END_OF_CHAIN: u16 = 0xFFFF;

pub const NO_OFFSET: i32 = -1;

/// Maximum supported song-code length. The name fields are 64 bytes so the
/// hard limit is 63, but the DDR audio-file naming convention caps codes at
/// ~5 characters in practice. We accept up to 16 defensively.
pub const MAX_CODE_LEN: usize = 16;

/// Byte offset of the CRC field in the header.
pub const CRC_OFFSET: usize = 0x08;

/// First byte covered by the CRC (everything after CRC + timestamp).
pub const CRC_DATA_START: usize = 0x12;

/// SIMPLE sound entry for a song's main track.
///
/// Layout: flags=0x04 (simple+rpc), category=4, volume=180, pitch=0,
/// priority=0, entry_length=19, wave_index=1, wavebank_index=0, then a
/// 7-byte RPC reference (len=7, count=1, code=0xF8).
pub const SIMPLE_SOUND_BYTES: [u8; 19] = [
    0x04, 0x04, 0x00, 0xB4, 0x00, 0x00, 0x00, 0x13, 0x00, 0x01, 0x00, 0x00, 0x07, 0x00, 0x01, 0xF8,
    0x00, 0x00, 0x00,
];

/// Bare SIMPLE sound entry for a sound effect.
///
/// Layout: flags=0x00 (simple, **no** RPC block), category=6 (gameplay SE mix
/// bus), volume=254, pitch=0, priority=0, entry_length=12, wave_index=0,
/// wavebank_index=0.
///
/// The values follow the game's own gameplay-SE bank, `se_normal.xsb`, where
/// all 138 sounds are category 6 and 129 of them use exactly this bare 12-byte
/// form. Volume 254 is what the system bank's `SYS_COIN` and `X_sys_OK1` use —
/// a sound effect that has to be heard over the music wants the top of the
/// range, and the mix category still gates it behind the cabinet's SE volume.
pub const SE_SIMPLE_SOUND_BYTES: [u8; 12] = [
    0x00, 0x06, 0x00, 0xFE, 0x00, 0x00, 0x00, 0x0C, 0x00, 0x00, 0x00, 0x00,
];

/// COMPLEX sound entry for a song's preview track with loop event.
///
/// Layout: flags=0x05 (complex+rpc), category=3, volume=180, pitch=0,
/// priority=0, entry_length=39, track_count=1, followed by the 29-byte
/// preview track template: a 7-byte RPC preamble, then the track volume, one
/// byte that varies between stock banks as 0xE0 / 0xE5 / 0xF3 (the majority
/// value is used), and the fixed loop-event / clip encoding.
pub const COMPLEX_SOUND_BYTES: [u8; 39] = [
    0x05, 0x03, 0x00, 0xB4, 0x00, 0x00, 0x00, 0x27, 0x00, 0x01, 0x07, 0x00, 0x01, 0xF8, 0x00, 0x00,
    0x00, 0xB4, 0xE0, 0x00, 0x00, 0x00, 0x01, 0x01, 0x00, 0x00, 0x20, 0x00, 0x00, 0xFF, 0x0C, 0x00,
    0x00, 0x00, 0xFF, 0x00, 0x00, 0x00, 0x00,
];

/// The CRC of each byte value.
pub const CRC_TABLE: [u16; 256] = [
    0x0000, 0x1189, 0x2312, 0x329b, 0x4624, 0x57ad, 0x6536, 0x74bf, 0x8c48, 0x9dc1, 0xaf5a, 0xbed3,
    0xca6c, 0xdbe5, 0xe97e, 0xf8f7, 0x1081, 0x0108, 0x3393, 0x221a, 0x56a5, 0x472c, 0x75b7, 0x643e,
    0x9cc9, 0x8d40, 0xbfdb, 0xae52, 0xdaed, 0xcb64, 0xf9ff, 0xe876, 0x2102, 0x308b, 0x0210, 0x1399,
    0x6726, 0x76af, 0x4434, 0x55bd, 0xad4a, 0xbcc3, 0x8e58, 0x9fd1, 0xeb6e, 0xfae7, 0xc87c, 0xd9f5,
    0x3183, 0x200a, 0x1291, 0x0318, 0x77a7, 0x662e, 0x54b5, 0x453c, 0xbdcb, 0xac42, 0x9ed9, 0x8f50,
    0xfbef, 0xea66, 0xd8fd, 0xc974, 0x4204, 0x538d, 0x6116, 0x709f, 0x0420, 0x15a9, 0x2732, 0x36bb,
    0xce4c, 0xdfc5, 0xed5e, 0xfcd7, 0x8868, 0x99e1, 0xab7a, 0xbaf3, 0x5285, 0x430c, 0x7197, 0x601e,
    0x14a1, 0x0528, 0x37b3, 0x263a, 0xdecd, 0xcf44, 0xfddf, 0xec56, 0x98e9, 0x8960, 0xbbfb, 0xaa72,
    0x6306, 0x728f, 0x4014, 0x519d, 0x2522, 0x34ab, 0x0630, 0x17b9, 0xef4e, 0xfec7, 0xcc5c, 0xddd5,
    0xa96a, 0xb8e3, 0x8a78, 0x9bf1, 0x7387, 0x620e, 0x5095, 0x411c, 0x35a3, 0x242a, 0x16b1, 0x0738,
    0xffcf, 0xee46, 0xdcdd, 0xcd54, 0xb9eb, 0xa862, 0x9af9, 0x8b70, 0x8408, 0x9581, 0xa71a, 0xb693,
    0xc22c, 0xd3a5, 0xe13e, 0xf0b7, 0x0840, 0x19c9, 0x2b52, 0x3adb, 0x4e64, 0x5fed, 0x6d76, 0x7cff,
    0x9489, 0x8500, 0xb79b, 0xa612, 0xd2ad, 0xc324, 0xf1bf, 0xe036, 0x18c1, 0x0948, 0x3bd3, 0x2a5a,
    0x5ee5, 0x4f6c, 0x7df7, 0x6c7e, 0xa50a, 0xb483, 0x8618, 0x9791, 0xe32e, 0xf2a7, 0xc03c, 0xd1b5,
    0x2942, 0x38cb, 0x0a50, 0x1bd9, 0x6f66, 0x7eef, 0x4c74, 0x5dfd, 0xb58b, 0xa402, 0x9699, 0x8710,
    0xf3af, 0xe226, 0xd0bd, 0xc134, 0x39c3, 0x284a, 0x1ad1, 0x0b58, 0x7fe7, 0x6e6e, 0x5cf5, 0x4d7c,
    0xc60c, 0xd785, 0xe51e, 0xf497, 0x8028, 0x91a1, 0xa33a, 0xb2b3, 0x4a44, 0x5bcd, 0x6956, 0x78df,
    0x0c60, 0x1de9, 0x2f72, 0x3efb, 0xd68d, 0xc704, 0xf59f, 0xe416, 0x90a9, 0x8120, 0xb3bb, 0xa232,
    0x5ac5, 0x4b4c, 0x79d7, 0x685e, 0x1ce1, 0x0d68, 0x3ff3, 0x2e7a, 0xe70e, 0xf687, 0xc41c, 0xd595,
    0xa12a, 0xb0a3, 0x8238, 0x93b1, 0x6b46, 0x7acf, 0x4854, 0x59dd, 0x2d62, 0x3ceb, 0x0e70, 0x1ff9,
    0xf78f, 0xe606, 0xd49d, 0xc514, 0xb1ab, 0xa022, 0x92b9, 0x8330, 0x7bc7, 0x6a4e, 0x58d5, 0x495c,
    0x3de3, 0x2c6a, 0x1ef1, 0x0f78,
];

#[derive(Debug)]
pub enum XsbError {
    BadCode { code: String },
}

// ---------------------------------------------------------------------------
// Hash and CRC
// ---------------------------------------------------------------------------

/// The hash of the first `n` bytes of a cue name: per character
/// `h = 3*h + (h >> 1) + c`, kept to 16 bits.
pub open spec fn name_hash(name: Seq<u8>, n: nat) -> int
    decreases n,
{
    if n == 0 {
        0
    } else {
        let h = name_hash(name, (n - 1) as nat);
        (3 * h + h / 2 + name[n - 1]) % 0x1_0000
    }
}

/// XACT2 cue-name hash bucket.
pub fn cue_name_hash_bucket(name: &[u8], bucket_count: u16) -> (b: u16)
    requires
        bucket_count > 0,
    ensures
        b == name_hash(name@, name@.len()) % bucket_count as int,
        b < bucket_count,
{
    let mut h: u32 = 0;
    let mut i: usize = 0;
    while i < name.len()
        invariant
            i <= name@.len(),
            h == name_hash(name@, i as nat),
            h < 0x1_0000,
        decreases name@.len() - i,
    {
        h = (3 * h + h / 2 + name[i] as u32) % 0x1_0000;
        i = i + 1;
    }
    (h % bucket_count as u32) as u16
}

/// The CRC register after the first `n` bytes.
pub open spec fn crc_after(data: Seq<u8>, n: nat) -> u16
    decreases n,
{
    if n == 0 {
        0xFFFF
    } else {
        let c = crc_after(data, (n - 1) as nat);
        CRC_TABLE[((data[n - 1] as u16) ^ c) as int % 0x100] ^ (c / 0x100)
    }
}

/// The CRC of a byte sequence: the complement of the register.
pub open spec fn crc_of(data: Seq<u8>) -> u16 {
    (0xFFFF - crc_after(data, data.len())) as u16
}

/// CRC-16 used by the XACT2 engine to validate XSB contents. The engine
/// rejects the bank silently if it fails.
pub fn xact_crc16(data: &[u8]) -> (crc: u16)
    ensures
        crc == crc_of(data@),
{
    let mut crc: u16 = 0xFFFF;
    let mut i: usize = 0;
    while i < data.len()
        invariant
            i <= data@.len(),
            crc == crc_after(data@, i as nat),
        decreases data@.len() - i,
    {
        let index: usize = (((data[i] as u16) ^ crc) % 0x100) as usize;
        crc = CRC_TABLE[index] ^ (crc / 0x100);
        i = i + 1;
    }
    0xFFFF - crc
}

// ---------------------------------------------------------------------------
// Profiles
// ---------------------------------------------------------------------------

/// One cue: which sound entry it plays, and the suffix appended to the bank
/// name to form the cue's own name.
pub struct CueSpec {
    pub sound: usize,
    pub name_suffix: Vec<u8>,
}

/// Which sound entries a bank carries and which cues address them.
///
/// This is the *only* thing that differs between the two profiles. The header
/// constants, both 64-byte name fields, the hash table, the name index and the
/// CRC are common, so they are written once and driven from here.
pub struct Profile {
    /// Sound-entry byte templates, in the order they are laid out.
    pub sounds: Vec<Vec<u8>>,
    /// Cues, in the order they are laid out.
    pub cues: Vec<CueSpec>,
}

/// The contents of a profile: the sound entries, and for each cue the sound
/// it plays and the suffix of its name.
#[verifier::ext_equal]
pub struct ProfileView {
    pub sounds: Seq<Seq<u8>>,
    pub cues: Seq<(int, Seq<u8>)>,
}

impl View for Profile {
    type V = ProfileView;

    open spec fn view(&self) -> ProfileView {
        ProfileView {
            sounds: Seq::new(self.sounds@.len(), |i: int| self.sounds@[i]@),
            cues: Seq::new(
                self.cues@.len(),
                |i: int| (self.cues@[i].sound as int, self.cues@[i].name_suffix@),
            ),
        }
    }
}

/// Song profile: complex preview sound first, then the simple main sound, with
/// cue 0 addressing the preview.
///
/// Order matters: the XACT2 engine in DDR World only plays audio when the
/// preview (complex) sound is laid out first and cue index 0 points at it.
pub open spec fn song_view() -> ProfileView {
    ProfileView {
        sounds: seq![COMPLEX_SOUND_BYTES@, SIMPLE_SOUND_BYTES@],
        cues: seq![(0int, seq![0x5Fu8, 0x73u8]), (1int, Seq::empty())],
    }
}

/// Sound-effect profile: one bare sound, one cue named after the bank itself.
pub open spec fn se_view() -> ProfileView {
    ProfileView { sounds: seq![SE_SIMPLE_SOUND_BYTES@], cues: seq![(0int, Seq::empty())] }
}

fn bytes_vec(bytes: &[u8]) -> (v: Vec<u8>)
    ensures
        v@ == bytes@,
{
    vstd::slice::slice_to_vec(bytes)
}

fn song_profile() -> (p: Profile)
    ensures
        p@ == song_view(),
{
    let complex = COMPLEX_SOUND_BYTES;
    let simple = SIMPLE_SOUND_BYTES;
    let sounds: Vec<Vec<u8>> = vec![bytes_vec(complex.as_slice()), bytes_vec(simple.as_slice())];
    let preview: Vec<u8> = vec![0x5F, 0x73];
    let cues: Vec<CueSpec> = vec![
        CueSpec { sound: 0, name_suffix: preview },
        CueSpec { sound: 1, name_suffix: Vec::new() },
    ];
    let p = Profile { sounds, cues };
    assert(preview@ =~= seq![0x5Fu8, 0x73u8]);
    assert(p@.sounds =~= song_view().sounds);
    assert(p@.cues =~= song_view().cues);
    p
}

fn se_profile() -> (p: Profile)
    ensures
        p@ == se_view(),
{
    let bare = SE_SIMPLE_SOUND_BYTES;
    let sounds: Vec<Vec<u8>> = vec![bytes_vec(bare.as_slice())];
    let cues: Vec<CueSpec> = vec![CueSpec { sound: 0, name_suffix: Vec::new() }];
    let p = Profile { sounds, cues };
    assert(p@.sounds =~= se_view().sounds);
    assert(p@.cues =~= se_view().cues);
    p
}

// ---------------------------------------------------------------------------
// Layout
// ---------------------------------------------------------------------------

/// The sound entries, packed back to back: the first `n` of them.
pub open spec fn sound_block(p: ProfileView, n: nat) -> Seq<u8>
    decreases n,
{
    if n == 0 {
        Seq::empty()
    } else {
        sound_block(p, (n - 1) as nat) + p.sounds[n - 1]
    }
}

/// The name of cue `i` of a bank.
pub open spec fn cue_name(p: ProfileView, name: Seq<u8>, i: int) -> Seq<u8> {
    name + p.cues[i].1
}

/// The names of the first `n` cues, each with a NUL behind it.
pub open spec fn name_strings(p: ProfileView, name: Seq<u8>, n: nat) -> Seq<u8>
    decreases n,
{
    if n == 0 {
        Seq::empty()
    } else {
        name_strings(p, name, (n - 1) as nat) + cue_name(p, name, n - 1) + seq![0u8]
    }
}

/// Where the sound entries start.
pub open spec fn sound_start() -> int {
    0xCA
}

/// Where the cues start.
pub open spec fn cue_start(p: ProfileView) -> int {
    sound_start() + sound_block(p, p.sounds.len()).len()
}

/// Where the hash table starts.
pub open spec fn hash_start(p: ProfileView) -> int {
    cue_start(p) + 5 * p.cues.len()
}

/// Where the name index starts.
pub open spec fn index_start(p: ProfileView) -> int {
    hash_start(p) + 32
}

/// Where the cue names start.
pub open spec fn names_start(p: ProfileView) -> int {
    index_start(p) + 6 * p.cues.len()
}

/// The hash bucket of cue `i`.
pub open spec fn cue_bucket(p: ProfileView, name: Seq<u8>, i: int) -> int {
    let n = cue_name(p, name, i);
    name_hash(n, n.len()) % 16
}

/// The first cue from `i` on in a bucket, or the sentinel.
pub open spec fn first_in_bucket(p: ProfileView, name: Seq<u8>, bucket: int, i: int) -> u16
    decreases p.cues.len() - i,
{
    if i >= p.cues.len() {
        0xFFFF
    } else if cue_bucket(p, name, i) == bucket {
        i as u16
    } else {
        first_in_bucket(p, name, bucket, i + 1)
    }
}

/// The first `n` cue entries: each points at its sound entry.
pub open spec fn cue_table(p: ProfileView, n: nat) -> Seq<u8>
    decreases n,
{
    if n == 0 {
        Seq::empty()
    } else {
        cue_table(p, (n - 1) as nat) + seq![0x04u8] + bytes32(
            (sound_start() + sound_block(p, p.cues[n - 1].0 as nat).len()) as u32,
        )
    }
}

/// The first `n` buckets of the hash table: each holds the first cue of its
/// chain.
pub open spec fn hash_table(p: ProfileView, name: Seq<u8>, n: nat) -> Seq<u8>
    decreases n,
{
    if n == 0 {
        Seq::empty()
    } else {
        hash_table(p, name, (n - 1) as nat) + bytes16(first_in_bucket(p, name, n - 1, 0))
    }
}

/// The first `n` entries of the name index: where the cue's name is, and the
/// next cue in its chain.
pub open spec fn name_index(p: ProfileView, name: Seq<u8>, n: nat) -> Seq<u8>
    decreases n,
{
    if n == 0 {
        Seq::empty()
    } else {
        name_index(p, name, (n - 1) as nat) + bytes32(
            (names_start(p) + name_strings(p, name, (n - 1) as nat).len()) as u32,
        ) + bytes16(first_in_bucket(p, name, cue_bucket(p, name, n - 1), n as int))
    }
}

/// `name` padded with zeros to 64 bytes.
pub open spec fn name_field(name: Seq<u8>) -> Seq<u8> {
    name + Seq::new((64 - name.len()) as nat, |i: int| 0u8)
}

/// The header from the platform byte on.
pub open spec fn header_tail(p: ProfileView, name: Seq<u8>) -> Seq<u8> {
    seq![0x01u8] + bytes16(p.cues.len() as u16) + bytes16(0) + bytes16(0) + bytes16(16) + seq![
        0x01u8,
    ] + bytes16(p.sounds.len() as u16) + bytes16(name_strings(p, name, p.cues.len()).len() as u16)
        + bytes16(0) + sbytes32(cue_start(p) as i32) + sbytes32(-1i32) + sbytes32(
        names_start(p) as i32,
    ) + sbytes32(-1i32) + sbytes32(-1i32) + sbytes32(-1i32) + sbytes32(0x8A) + sbytes32(hash_start(p) as i32)
        + sbytes32(index_start(p) as i32) + sbytes32(sound_start() as i32)
}

/// Everything that the CRC covers.
pub open spec fn checked_part(p: ProfileView, name: Seq<u8>) -> Seq<u8> {
    header_tail(p, name) + name_field(name) + name_field(name) + sound_block(p, p.sounds.len())
        + cue_table(p, p.cues.len()) + hash_table(p, name, 16) + name_index(p, name, p.cues.len())
        + name_strings(p, name, p.cues.len())
}

/// A sound bank: magic, versions, CRC, a zero timestamp, and the part that
/// the CRC covers.
pub open spec fn xsb_file(p: ProfileView, name: Seq<u8>) -> Seq<u8> {
    bytes32(MAGIC) + bytes16(VERSION) + bytes16(VERSION) + bytes16(crc_of(checked_part(p, name)))
        + Seq::new(8, |i: int| 0u8) + checked_part(p, name)
}

/// Profiles that fit the format: a few small sounds and cues.
pub open spec fn profile_ok(p: ProfileView) -> bool {
    &&& p.sounds.len() <= 2
    &&& p.cues.len() <= 2
    &&& forall|i: int| 0 <= i < p.sounds.len() ==> (#[trigger] p.sounds[i]).len() <= 64
    &&& forall|i: int|
        0 <= i < p.cues.len() ==> 0 <= (#[trigger] p.cues[i]).0 < p.sounds.len() && p.cues[i].1.len()
            <= 8
}

proof fn lemma_profiles_ok()
    ensures
        profile_ok(song_view()),
        profile_ok(se_view()),
{
}

proof fn lemma_sound_block_len(p: ProfileView, n: nat)
    requires
        profile_ok(p),
        n <= p.sounds.len(),
    ensures
        sound_block(p, n).len() <= 64 * n,
    decreases n,
{
    if n > 0 {
        lemma_sound_block_len(p, (n - 1) as nat);
    }
}

proof fn lemma_name_strings_len(p: ProfileView, name: Seq<u8>, n: nat)
    requires
        profile_ok(p),
        name.len() <= 16,
        n <= p.cues.len(),
    ensures
        name_strings(p, name, n).len() <= 25 * n,
    decreases n,
{
    if n > 0 {
        lemma_name_strings_len(p, name, (n - 1) as nat);
    }
}

/// Section byte offsets for a given profile and bank name.
struct Layout {
    simple_cue: usize,
    hash_table: usize,
    name_index: usize,
    cue_names: usize,
    cue_name_table_len: usize,
}

/// The packed cue names.
fn build_names(p: &Profile, name: &[u8], count: usize) -> (out: Vec<u8>)
    requires
        count <= p.cues@.len(),
    ensures
        out@ == name_strings(p@, name@, count as nat),
{
    let mut out: Vec<u8> = Vec::new();
    let mut i: usize = 0;
    while i < count
        invariant
            i <= count,
            count <= p.cues@.len(),
            out@ == name_strings(p@, name@, i as nat),
        decreases count - i,
    {
        let ghost before = out@;
        put_bytes(&mut out, name);
        put_bytes(&mut out, p.cues[i].name_suffix.as_slice());
        out.push(0);
        i = i + 1;
        assert(out@ =~= before + cue_name(p@, name@, i - 1) + seq![0u8]);
    }
    out
}

/// The packed sound entries before entry `count`.
fn build_sounds(p: &Profile, count: usize) -> (out: Vec<u8>)
    requires
        count <= p.sounds@.len(),
    ensures
        out@ == sound_block(p@, count as nat),
{
    let mut out: Vec<u8> = Vec::new();
    let mut i: usize = 0;
    while i < count
        invariant
            i <= count,
            count <= p.sounds@.len(),
            out@ == sound_block(p@, i as nat),
        decreases count - i,
    {
        put_bytes(&mut out, p.sounds[i].as_slice());
        i = i + 1;
    }
    out
}

impl Layout {
    fn compute(p: &Profile, name: &[u8]) -> (l: Self)
        requires
            profile_ok(p@),
            name@.len() <= 16,
        ensures
            l.simple_cue == cue_start(p@),
            l.hash_table == hash_start(p@),
            l.name_index == index_start(p@),
            l.cue_names == names_start(p@),
            l.cue_name_table_len == name_strings(p@, name@, p@.cues.len()).len(),
            l.cue_names <= 0x1000,
            l.cue_name_table_len <= 64,
    {
        proof {
            lemma_sound_block_len(p@, p@.sounds.len());
            lemma_name_strings_len(p@, name@, p@.cues.len());
        }
        let sounds: usize = build_sounds(p, p.sounds.len()).len();
        let simple_cue: usize = 0xCA + sounds;
        let hash_table: usize = simple_cue + p.cues.len() * CUE_ENTRY_SIZE;
        let name_index: usize = hash_table + 32;
        let cue_names: usize = name_index + p.cues.len() * NAME_INDEX_ENTRY_SIZE;
        let cue_name_table_len: usize = build_names(p, name, p.cues.len()).len();
        Self { simple_cue, hash_table, name_index, cue_names, cue_name_table_len }
    }
}

fn put_header_tail(out: &mut Vec<u8>, p: &Profile, layout: &Layout, name: Ghost<Seq<u8>>)
    requires
        profile_ok(p@),
        layout.simple_cue == cue_start(p@),
        layout.hash_table == hash_start(p@),
        layout.name_index == index_start(p@),
        layout.cue_names == names_start(p@),
        layout.cue_name_table_len == name_strings(p@, name@, p@.cues.len()).len(),
        layout.simple_cue <= layout.cue_names,
        layout.hash_table <= layout.cue_names,
        layout.name_index <= layout.cue_names,
        layout.cue_names <= 0x1000,
        layout.cue_name_table_len <= 64,
    ensures
        final(out)@ == old(out)@ + header_tail(p@, name@),
{
    let mut h: Vec<u8> = Vec::new();
    h.push(PLATFORM);
    assert(h@ =~= seq![0x01u8]);
    put_u16(&mut h, p.cues.len() as u16);
    put_u16(&mut h, COMPLEX_CUE_COUNT);
    put_u16(&mut h, 0);
    put_u16(&mut h, HASH_BUCKET_COUNT);
    let ghost before = h@;
    h.push(WAVEBANK_COUNT);
    assert(h@ =~= before + seq![0x01u8]);
    put_u16(&mut h, p.sounds.len() as u16);
    put_u16(&mut h, layout.cue_name_table_len as u16);
    put_u16(&mut h, 0);
    put_i32(&mut h, layout.simple_cue as i32);
    put_i32(&mut h, NO_OFFSET);
    put_i32(&mut h, layout.cue_names as i32);
    put_i32(&mut h, NO_OFFSET);
    put_i32(&mut h, NO_OFFSET);
    put_i32(&mut h, NO_OFFSET);
    put_i32(&mut h, 0x8A);
    put_i32(&mut h, layout.hash_table as i32);
    put_i32(&mut h, layout.name_index as i32);
    put_i32(&mut h, 0xCA);
    assert(h@ == header_tail(p@, name@));
    put_bytes(out, h.as_slice());
}

fn put_name_field(out: &mut Vec<u8>, name: &[u8])
    requires
        name@.len() <= 16,
    ensures
        final(out)@ == old(out)@ + name_field(name@),
{
    put_bytes(out, name);
    put_zeros(out, NAME_FIELD_LEN - name.len());
    assert(out@ =~= old(out)@ + name_field(name@));
}

/// Write the simple cue entries, each pointing at its profile's sound entry.
fn put_cues(out: &mut Vec<u8>, p: &Profile)
    requires
        profile_ok(p@),
    ensures
        final(out)@ == old(out)@ + cue_table(p@, p@.cues.len()),
{
    let mut i: usize = 0;
    assert(old(out)@ =~= old(out)@ + cue_table(p@, 0));
    while i < p.cues.len()
        invariant
            i <= p.cues@.len(),
            profile_ok(p@),
            out@ == old(out)@ + cue_table(p@, i as nat),
        decreases p.cues@.len() - i,
    {
        let sound: usize = p.cues[i].sound;
        assert(p@.cues[i as int].0 == sound);
        proof {
            lemma_sound_block_len(p@, sound as nat);
        }
        let preceding: usize = build_sounds(p, sound).len();
        out.push(CUE_FLAG_SOUND);
        put_u32(out, (0xCA + preceding) as u32);
        i = i + 1;
        assert(out@ =~= old(out)@ + cue_table(p@, i as nat));
    }
}

/// The hash bucket of each cue.
fn cue_buckets(p: &Profile, name: &[u8]) -> (buckets: Vec<u16>)
    ensures
        buckets@.len() == p.cues@.len(),
        forall|i: int|
            0 <= i < buckets@.len() ==> #[trigger] buckets@[i] == cue_bucket(p@, name@, i),
{
    let mut buckets: Vec<u16> = Vec::new();
    let mut i: usize = 0;
    while i < p.cues.len()
        invariant
            i <= p.cues@.len(),
            buckets@.len() == i,
            forall|k: int|
                0 <= k < i ==> #[trigger] buckets@[k] == cue_bucket(p@, name@, k),
        decreases p.cues@.len() - i,
    {
        let mut full: Vec<u8> = bytes_vec(name);
        put_bytes(&mut full, p.cues[i].name_suffix.as_slice());
        assert(full@ =~= cue_name(p@, name@, i as int));
        buckets.push(cue_name_hash_bucket(full.as_slice(), HASH_BUCKET_COUNT));
        i = i + 1;
    }
    buckets
}

/// The first cue from `from` on in `bucket`, or the sentinel.
fn next_in_bucket(
    buckets: &Vec<u16>,
    bucket: u16,
    from: usize,
    p: Ghost<ProfileView>,
    name: Ghost<Seq<u8>>,
) -> (cue: u16)
    requires
        profile_ok(p@),
        buckets@.len() == p@.cues.len(),
        from <= buckets@.len(),
        forall|i: int|
            0 <= i < buckets@.len() ==> #[trigger] buckets@[i] == cue_bucket(p@, name@, i),
    ensures
        cue == first_in_bucket(p@, name@, bucket as int, from as int),
{
    let mut i: usize = from;
    while i < buckets.len()
        invariant
            from <= i <= buckets@.len(),
            profile_ok(p@),
            buckets@.len() == p@.cues.len(),
            forall|k: int|
                0 <= k < buckets@.len() ==> #[trigger] buckets@[k] == cue_bucket(p@, name@, k),
            first_in_bucket(p@, name@, bucket as int, from as int) == first_in_bucket(
                p@,
                name@,
                bucket as int,
                i as int,
            ),
        decreases buckets@.len() - i,
    {
        if buckets[i] == bucket {
            return i as u16;
        }
        i = i + 1;
    }
    EMPTY_BUCKET
}

/// Write the hash table and the name index. A cue that shares its bucket with
/// an earlier one is appended to that one's chain.
fn put_hash_and_index(out: &mut Vec<u8>, p: &Profile, layout: &Layout, name: &[u8])
    requires
        profile_ok(p@),
        name@.len() <= 16,
        layout.cue_names == names_start(p@),
        layout.cue_names <= 0x1000,
    ensures
        final(out)@ == old(out)@ + hash_table(p@, name@, 16) + name_index(
            p@,
            name@,
            p@.cues.len(),
        ),
{
    let buckets = cue_buckets(p, name);
    let mut b: u16 = 0;
    assert(old(out)@ =~= old(out)@ + hash_table(p@, name@, 0));
    while b < 16
        invariant
            b <= 16,
            profile_ok(p@),
            buckets@.len() == p@.cues.len(),
            forall|i: int|
                0 <= i < buckets@.len() ==> #[trigger] buckets@[i] == cue_bucket(p@, name@, i),
            out@ == old(out)@ + hash_table(p@, name@, b as nat),
        decreases 16 - b,
    {
        let head: u16 = next_in_bucket(&buckets, b, 0, Ghost(p@), Ghost(name@));
        put_u16(out, head);
        b = b + 1;
        assert(out@ =~= old(out)@ + hash_table(p@, name@, b as nat));
    }
    let ghost tables = out@;
    let mut i: usize = 0;
    assert(tables =~= tables + name_index(p@, name@, 0));
    while i < p.cues.len()
        invariant
            i <= p.cues@.len(),
            profile_ok(p@),
            name@.len() <= 16,
            layout.cue_names == names_start(p@),
            layout.cue_names <= 0x1000,
            buckets@.len() == p@.cues.len(),
            forall|k: int|
                0 <= k < buckets@.len() ==> #[trigger] buckets@[k] == cue_bucket(p@, name@, k),
            out@ == tables + name_index(p@, name@, i as nat),
        decreases p.cues@.len() - i,
    {
        proof {
            lemma_name_strings_len(p@, name@, i as nat);
        }
        let before: usize = build_names(p, name, i).len();
        put_u32(out, (layout.cue_names + before) as u32);
        let next: u16 = next_in_bucket(&buckets, buckets[i], i + 1, Ghost(p@), Ghost(name@));
        put_u16(out, next);
        i = i + 1;
        assert(out@ =~= tables + name_index(p@, name@, i as nat));
    }
}

fn build_xsb(p: &Profile, name: &[u8]) -> (file: Vec<u8>)
    requires
        profile_ok(p@),
        name@.len() <= 16,
    ensures
        file@ == xsb_file(p@, name@),
{
    let layout = Layout::compute(p, name);
    let mut part: Vec<u8> = Vec::new();
    put_header_tail(&mut part, p, &layout, Ghost(name@));
    assert(part@ =~= header_tail(p@, name@));
    put_name_field(&mut part, name);
    put_name_field(&mut part, name);
    put_bytes(&mut part, build_sounds(p, p.sounds.len()).as_slice());
    put_cues(&mut part, p);
    put_hash_and_index(&mut part, p, &layout, name);
    put_bytes(&mut part, build_names(p, name, p.cues.len()).as_slice());
    assert(part@ == checked_part(p@, name@));
    let crc: u16 = xact_crc16(part.as_slice());
    let mut file: Vec<u8> = Vec::new();
    put_u32(&mut file, MAGIC);
    assert(file@ =~= bytes32(MAGIC));
    put_u16(&mut file, VERSION);
    put_u16(&mut file, VERSION);
    put_u16(&mut file, crc);
    // The 64-bit timestamp is left zero — the engine doesn't validate it.
    put_zeros(&mut file, 8);
    put_bytes(&mut file, part.as_slice());
    file
}

// ---------------------------------------------------------------------------
// Codes
// ---------------------------------------------------------------------------

/// Whether `c` is an ASCII letter or digit.
pub open spec fn is_alphanumeric(c: char) -> bool {
    ('0' <= c && c <= '9') || ('a' <= c && c <= 'z') || ('A' <= c && c <= 'Z')
}

/// Whether a text can be a bank's name: 1 to 16 ASCII letters or digits.
pub open spec fn valid_code(code: Seq<char>) -> bool {
    1 <= code.len() <= 16 && forall|i: int|
        0 <= i < code.len() ==> is_alphanumeric(#[trigger] code[i])
}

/// The bytes of an ASCII text.
pub open spec fn ascii_bytes(text: Seq<char>) -> Seq<u8> {
    Seq::new(text.len(), |i: int| text[i] as u8)
}

/// Whether `code` can name a wave bank and its cues.
pub fn is_valid_code(code: &str) -> (b: bool)
    ensures
        b == valid_code(code@),
        b ==> code.spec_bytes() == ascii_bytes(code@),
{
    broadcast use is_ascii_spec_bytes;

    if !code.is_ascii() {
        assert(exists|i: int| 0 <= i < code@.len() && !is_alphanumeric(#[trigger] code@[i]));
        return false;
    }
    let bytes = code.as_bytes();
    assert(bytes@ =~= ascii_bytes(code@));
    if bytes.len() == 0 || bytes.len() > MAX_CODE_LEN {
        return false;
    }
    let mut i: usize = 0;
    while i < bytes.len()
        invariant
            i <= bytes@.len(),
            1 <= bytes@.len() <= 16,
            bytes@ == ascii_bytes(code@),
            vstd::string::is_ascii(code),
            forall|k: int| 0 <= k < i ==> is_alphanumeric(#[trigger] code@[k]),
        decreases bytes@.len() - i,
    {
        let b: u8 = bytes[i];
        assert(b == code@[i as int] as u8);
        if !((48 <= b && b <= 57) || (97 <= b && b <= 122) || (65 <= b && b <= 90)) {
            assert(!is_alphanumeric(code@[i as int]));
            return false;
        }
        i = i + 1;
    }
    true
}

/// The bytes of a valid code.
fn validate_code(code: &str) -> (r: Result<&[u8], XsbError>)
    ensures
        valid_code(code@) ==> r is Ok && r->Ok_0@ == ascii_bytes(code@),
        !valid_code(code@) ==> r is Err && r->Err_0->code@ == code@,
{
    if is_valid_code(code) {
        Ok(code.as_bytes())
    } else {
        Err(XsbError::BadCode { code: code.to_owned() })
    }
}

/// Write a complete XSB sound bank for the given song `code` (song profile),
/// appended to `out`.
///
/// `code` must be 1 to 16 ASCII alphanumeric characters. It is written into
/// the soundbank name, wavebank name, and as the main cue name; the preview
/// cue is named `{code}_s`.
///
/// The resulting file contains a CRC-16 validating its own contents, a hash
/// table for O(1) cue lookup by name, and references to the companion XWB's
/// wave entries (main at index 1, preview at index 0, in one wave bank).
pub fn write(code: &str, out: &mut Vec<u8>) -> (r: Result<(), XsbError>)
    ensures
        valid_code(code@) ==> r is Ok && final(out)@ == old(out)@ + xsb_file(
            song_view(),
            ascii_bytes(code@),
        ),
        !valid_code(code@) ==> r is Err && r->Err_0->code@ == code@ && final(out)@ == old(out)@,
{
    let name = match validate_code(code) {
        Ok(b) => b,
        Err(e) => return Err(e),
    };
    proof {
        lemma_profiles_ok();
    }
    let file = build_xsb(&song_profile(), name);
    put_bytes(out, file.as_slice());
    Ok(())
}

/// Write a complete XSB sound bank holding a single sound effect (SE profile),
/// appended to `out`.
///
/// `name` must be 1 to 16 ASCII alphanumeric characters and is written into
/// the soundbank name, the wavebank name, and as the one cue's name. The
/// engine matches a sound bank to its wave bank by name and resolves cues with
/// a byte-exact `strcmp`, so the companion XWB's internal bank name must be
/// `name` **including case**, and callers must play the cue under exactly that
/// name.
///
/// The single cue plays wave index **0** of wave bank 0 through a bare sound
/// entry on mix category 6 — the gameplay sound-effect bus — with no
/// runtime-parameter curve attached. Use this rather than [`write`] for
/// anything that is not song audio; see the module documentation for why.
pub fn write_se(name: &str, out: &mut Vec<u8>) -> (r: Result<(), XsbError>)
    ensures
        valid_code(name@) ==> r is Ok && final(out)@ == old(out)@ + xsb_file(
            se_view(),
            ascii_bytes(name@),
        ),
        !valid_code(name@) ==> r is Err && r->Err_0->code@ == name@ && final(out)@ == old(out)@,
{
    let bytes = match validate_code(name) {
        Ok(b) => b,
        Err(e) => return Err(e),
    };
    proof {
        lemma_profiles_ok();
    }
    let file = build_xsb(&se_profile(), bytes);
    put_bytes(out, file.as_slice());
    Ok(())
}

} // verus!

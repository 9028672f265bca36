//! What the decoder makes of the packets of an Ogg file.
//!
//! It takes the first packet for an identification header, then a comment and a setup
//! header, and then decodes the packets of that stream, until another stream begins.
//! It reads no further once it has found a fault.

use super::bits::{bit_length, enough, has_bits, length_of, number, number_at};
use super::codebooks::Halt;
use super::setup::{read_setup, setup_modes, Blocks, Mode};
use crate::util::io::{get_u32, le32};
use vstd::prelude::*;

verus! {

/// What the decoder expects next.
#[derive(Debug, Clone, Copy, PartialEq, Eq, Structural)]
pub enum Stage {
    Identification,
    Comments,
    Setup,
    Audio,
    /// Nothing: it has found a fault.
    Over,
}

/// How far the decoder has come.
pub struct State {
    pub stage: Stage,
    /// Whether the stream follows another one.
    pub chained: bool,
    /// The stream that is decoded.
    pub serial: u32,
    pub blocks: Blocks,
    pub modes: Vec<Mode>,
    /// How many packets are decoded whatever stream they belong to.
    pub due: u8,
}

pub struct StateView {
    pub stage: Stage,
    pub chained: bool,
    pub serial: u32,
    pub blocks: Blocks,
    pub modes: Seq<Mode>,
    pub due: u8,
}

impl View for State {
    type V = StateView;

    open spec fn view(&self) -> StateView {
        StateView {
            stage: self.stage,
            chained: self.chained,
            serial: self.serial,
            blocks: self.blocks,
            modes: self.modes@,
            due: self.due,
        }
    }
}

/// A packet, as far as its pages tell of it.
pub struct Packet {
    pub data: Vec<u8>,
    pub serial: u32,
    /// Whether it is the first of its stream.
    pub opening: bool,
    /// Whether it is the last of its stream.
    pub closing: bool,
    /// The sample position of its last page.
    pub position: u64,
}

pub struct PacketView {
    pub data: Seq<u8>,
    pub serial: u32,
    pub opening: bool,
    pub closing: bool,
    pub position: u64,
}

impl View for Packet {
    type V = PacketView;

    open spec fn view(&self) -> PacketView {
        PacketView {
            data: self.data@,
            serial: self.serial,
            opening: self.opening,
            closing: self.closing,
            position: self.position,
        }
    }
}

/// Before the first packet.
pub open spec fn nothing_read() -> StateView {
    StateView {
        stage: Stage::Identification,
        chained: false,
        serial: 0,
        blocks: Blocks { channels: 1, short: 6, long: 6 },
        modes: Seq::empty(),
        due: 0,
    }
}

/// Whether a state is one that the decoder can be in.
pub open spec fn is_state(s: StateView) -> bool {
    &&& s.blocks.channels > 0
    &&& s.blocks.short <= 13
    &&& s.blocks.long <= 13
    &&& s.modes.len() <= 64
    &&& s.stage == Stage::Audio ==> s.modes.len() > 0
}

/// Whether a packet starts like a Vorbis header of type `ty`.
pub open spec fn starts_header(d: Seq<u8>, ty: u8) -> bool {
    d.len() >= 7 && d[0] == ty && d[1] == 0x76 && d[2] == 0x6F && d[3] == 0x72 && d[4] == 0x62
        && d[5] == 0x69 && d[6] == 0x73
}

/// The blocks that an identification header announces: none if it is malformed.
pub open spec fn announced(d: Seq<u8>) -> Option<Blocks> {
    if starts_header(d, 1) && d.len() >= 30 && le32(d, 7) == 0 && d[11] > 0 && le32(d, 12) > 0
        && 6 <= d[28] % 16 <= d[28] / 16 <= 13 && d[29] == 1 {
        Some(Blocks { channels: d[11], short: (d[28] % 16) as u8, long: (d[28] / 16) as u8 })
    } else {
        None
    }
}

/// Whether `left` comments from `at` on are all there.
pub open spec fn comments_whole(d: Seq<u8>, at: int, left: nat) -> bool
    decreases left,
{
    if left == 0 {
        true
    } else {
        at + 4 <= d.len() && at + 4 + le32(d, at) <= d.len() && comments_whole(
            d,
            at + 4 + le32(d, at),
            (left - 1) as nat,
        )
    }
}

/// Whether the texts of a comment header are all there. The decoder makes room for as
/// many as it is told of.
pub open spec fn comment_sound(d: Seq<u8>) -> bool {
    &&& 11 <= d.len()
    &&& 11 + le32(d, 7) + 4 <= d.len()
    &&& comments_whole(d, 15 + le32(d, 7), le32(d, 11 + le32(d, 7)) as nat)
}

/// Whether the mode that an audio packet names is sound: none if the packet names
/// none.
pub open spec fn mode_sound(d: Seq<u8>, modes: Seq<Mode>) -> Option<bool> {
    let n = bit_length(modes.len() - 1);
    if !has_bits(d, 0, 1) || number_at(d, 0, 1) == 1 || !has_bits(d, 1, n) {
        None
    } else {
        let m = number_at(d, 1, n as nat);
        if m >= modes.len() || (modes[m].long && !has_bits(d, 1 + n, 2)) {
            None
        } else {
            Some(modes[m].sound)
        }
    }
}

/// Whether samples can be counted from the position of a packet, and at the end of a
/// stream those of all channels.
pub open spec fn position_sound(k: PacketView, channels: u8) -> bool {
    &&& k.position <= 0xFFFF_FFFF_0000_0000
    &&& k.closing ==> k.position * channels <= usize::MAX
}

/// The decoder has found a fault.
pub open spec fn over(s: StateView) -> StateView {
    StateView { stage: Stage::Over, ..s }
}

/// An identification header is read.
pub open spec fn identified(s: StateView, k: PacketView, chained: bool) -> StateView {
    match announced(k.data) {
        None => over(s),
        Some(blocks) => StateView {
            stage: Stage::Comments,
            chained,
            serial: k.serial,
            blocks,
            ..s
        },
    }
}

/// Where the decoder is once it has taken a packet: none if it cannot be trusted with
/// it.
#[verifier::opaque]
pub open spec fn step(s: StateView, k: PacketView) -> Option<StateView> {
    match s.stage {
        Stage::Over => Some(s),
        Stage::Identification => Some(identified(s, k, false)),
        Stage::Comments => if !s.chained && k.serial != s.serial {
            Some(s)
        } else if !starts_header(k.data, 3) {
            Some(over(s))
        } else if comment_sound(k.data) {
            Some(StateView { stage: Stage::Setup, ..s })
        } else {
            None
        },
        Stage::Setup => if !s.chained && k.serial != s.serial {
            Some(s)
        } else if !starts_header(k.data, 5) {
            Some(over(s))
        } else {
            match setup_modes(k.data, s.blocks) {
                Err(Halt::Refused) => Some(over(s)),
                Err(Halt::Hazard) => None,
                Ok(modes) => Some(
                    StateView {
                        stage: Stage::Audio,
                        serial: k.serial,
                        modes,
                        due: if s.chained {
                            2
                        } else {
                            0
                        },
                        ..s
                    },
                ),
            }
        },
        Stage::Audio => if s.due == 0 && k.serial != s.serial {
            if k.opening {
                Some(identified(s, k, true))
            } else {
                Some(s)
            }
        } else {
            match mode_sound(k.data, s.modes) {
                None => Some(over(s)),
                Some(sound) => if sound && position_sound(k, s.blocks.channels) {
                    Some(
                        StateView {
                            due: if s.due > 0 {
                                (s.due - 1) as u8
                            } else {
                                0
                            },
                            ..s
                        },
                    )
                } else {
                    None
                },
            }
        },
    }
}

/// Whether the headers of the first stream have just been read. The decoder then drops
/// what is left of the page.
pub open spec fn just_opened(before: StateView, after: StateView) -> bool {
    before.stage == Stage::Setup && !before.chained && after.stage == Stage::Audio
}

fn is_header(d: &Vec<u8>, ty: u8) -> (b: bool)
    ensures
        b == starts_header(d@, ty),
{
    d.len() >= 7 && d[0] == ty && d[1] == 0x76 && d[2] == 0x6F && d[3] == 0x72 && d[4] == 0x62
        && d[5] == 0x69 && d[6] == 0x73
}

fn read_identification(d: &Vec<u8>) -> (r: Option<Blocks>)
    ensures
        r == announced(d@),
{
    if !is_header(d, 1) || d.len() < 30 {
        return None;
    }
    let short: u8 = d[28] % 16;
    let long: u8 = d[28] / 16;
    if get_u32(d.as_slice(), 7) == 0 && d[11] > 0 && get_u32(d.as_slice(), 12) > 0 && 6 <= short
        && short <= long && long <= 13 && d[29] == 1 {
        Some(Blocks { channels: d[11], short, long })
    } else {
        None
    }
}

fn is_comment_sound(d: &Vec<u8>) -> (b: bool)
    ensures
        b == comment_sound(d@),
{
    let len: usize = d.len();
    if len < 11 {
        return false;
    }
    let vendor: usize = get_u32(d.as_slice(), 7) as usize;
    if len - 11 < vendor || len - 11 - vendor < 4 {
        return false;
    }
    let mut left: u32 = get_u32(d.as_slice(), 11 + vendor);
    let mut at: usize = 15 + vendor;
    while left > 0
        invariant
            at <= len == d@.len(),
            comment_sound(d@) == comments_whole(d@, at as int, left as nat),
        decreases left,
    {
        if len - at < 4 {
            return false;
        }
        let size: usize = get_u32(d.as_slice(), at) as usize;
        if len - at - 4 < size {
            return false;
        }
        at = at + 4 + size;
        left = left - 1;
    }
    true
}

fn is_mode_sound(d: &Vec<u8>, modes: &Vec<Mode>) -> (r: Option<bool>)
    requires
        1 <= modes@.len() <= 64,
    ensures
        r == mode_sound(d@, modes@),
{
    let p = d.as_slice();
    let n: u8 = length_of((modes.len() - 1) as u64);
    if p.len() == 0 || number(p, 0, 1) == 1 || !enough(p, 1, n as u128) {
        return None;
    }
    proof {
        super::bits::lemma_two_to(n as int);
    }
    let m: u64 = number(p, 1, n);
    if m >= modes.len() as u64 || (modes[m as usize].long && !enough(p, 1 + n as u128, 2)) {
        None
    } else {
        Some(modes[m as usize].sound)
    }
}

fn is_position_sound(k: &Packet, channels: u8) -> (b: bool)
    ensures
        b == position_sound(k@, channels),
{
    proof {
        assert(k.position * channels <= u64::MAX * 255) by (nonlinear_arith)
            requires
                0 <= k.position <= u64::MAX,
                0 <= channels <= 255,
        ;
    }
    k.position <= 0xFFFF_FFFF_0000_0000 && (!k.closing || k.position as u128 * channels as u128
        <= usize::MAX as u128)
}

impl State {
    pub fn new() -> (s: Self)
        ensures
            s@ == nothing_read(),
            is_state(s@),
    {
        let modes: Vec<Mode> = Vec::new();
        assert(modes@ =~= Seq::empty());
        State {
            stage: Stage::Identification,
            chained: false,
            serial: 0,
            blocks: Blocks { channels: 1, short: 6, long: 6 },
            modes,
            due: 0,
        }
    }

    /// Whether the setup header of the first stream comes next.
    pub fn is_opening(&self) -> (b: bool)
        ensures
            b == (self@.stage == Stage::Setup && !self@.chained),
    {
        matches!(self.stage, Stage::Setup) && !self.chained
    }

    /// Whether audio comes next.
    pub fn is_decoding(&self) -> (b: bool)
        ensures
            b == (self@.stage == Stage::Audio),
    {
        matches!(self.stage, Stage::Audio)
    }

    /// Whether a fault has been found.
    pub fn is_over(&self) -> (b: bool)
        ensures
            b == (self@.stage == Stage::Over),
    {
        matches!(self.stage, Stage::Over)
    }

    fn identify(&mut self, k: &Packet, chained: bool)
        requires
            is_state(old(self)@),
        ensures
            final(self)@ == identified(old(self)@, k@, chained),
            is_state(final(self)@),
    {
        match read_identification(&k.data) {
            None => {
                self.stage = Stage::Over;
            },
            Some(blocks) => {
                self.stage = Stage::Comments;
                self.chained = chained;
                self.serial = k.serial;
                self.blocks = blocks;
            },
        }
    }

    /// Take a packet, unless the decoder cannot be trusted with it.
    pub fn take(&mut self, k: &Packet) -> (sound: bool)
        requires
            is_state(old(self)@),
        ensures
            sound == step(old(self)@, k@) is Some,
            sound ==> Some(final(self)@) == step(old(self)@, k@) && is_state(final(self)@),
    {
        reveal(step);
        match self.stage {
            Stage::Over => true,
            Stage::Identification => {
                self.identify(k, false);
                true
            },
            Stage::Comments => {
                if !self.chained && k.serial != self.serial {
                    return true;
                }
                if !is_header(&k.data, 3) {
                    self.stage = Stage::Over;
                    return true;
                }
                if !is_comment_sound(&k.data) {
                    return false;
                }
                self.stage = Stage::Setup;
                true
            },
            Stage::Setup => {
                if !self.chained && k.serial != self.serial {
                    return true;
                }
                if !is_header(&k.data, 5) {
                    self.stage = Stage::Over;
                    return true;
                }
                match read_setup(k.data.as_slice(), &self.blocks) {
                    Err(Halt::Refused) => {
                        self.stage = Stage::Over;
                        true
                    },
                    Err(Halt::Hazard) => false,
                    Ok(modes) => {
                        self.stage = Stage::Audio;
                        self.serial = k.serial;
                        self.modes = modes;
                        self.due = if self.chained {
                            2
                        } else {
                            0
                        };
                        true
                    },
                }
            },
            Stage::Audio => {
                if self.due == 0 && k.serial != self.serial {
                    if k.opening {
                        self.identify(k, true);
                    }
                    return true;
                }
                match is_mode_sound(&k.data, &self.modes) {
                    None => {
                        self.stage = Stage::Over;
                        true
                    },
                    Some(sound) => {
                        if !sound || !is_position_sound(k, self.blocks.channels) {
                            return false;
                        }
                        if self.due > 0 {
                            self.due = self.due - 1;
                        }
                        true
                    },
                }
            },
        }
    }
}

} // verus!

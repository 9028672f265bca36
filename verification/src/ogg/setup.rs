//! Vorbis setup headers.
//!
//! The decoder reads the header and later indexes its tables by what it found
//! there. Some tables pass its own tests and still lead it out of bounds, into an
//! overflow or into a loop without end once audio asks for them. Audio names a mode,
//! a mode a mapping, and a mapping the floors and residues: so each mode of a header
//! is told to be sound or not.

use super::bits::{
    bit_length, enough, has_bits, lemma_small_powers, length_of, number, number_at, two_to,
};
use super::codebooks::{codebooks, read_codebooks, Halt, MOST_VALUES};
use super::floors::{floors, read_floors};
use super::residues::{read_residues, residues, Residue};
use vstd::prelude::*;

verus! {

/// What matters of a mapping.
#[derive(Debug, Clone, Copy, PartialEq, Eq, Structural)]
pub struct Mapping {
    /// Whether the floors and residues that it puts channels on are sound.
    pub sound: bool,
    /// The most channels that it codes as one.
    pub joint: u32,
}

/// What matters of a mode.
#[derive(Debug, Clone, Copy, PartialEq, Eq, Structural)]
pub struct Mode {
    /// Whether it is for long blocks.
    pub long: bool,
    /// Whether the decoder can work with it.
    pub sound: bool,
}

/// What an identification header says of the blocks.
#[derive(Debug, Clone, Copy, PartialEq, Eq, Structural)]
pub struct Blocks {
    pub channels: u8,
    /// The length of short blocks, as a power of two.
    pub short: u8,
    /// The length of long blocks, as a power of two.
    pub long: u8,
}

/// The number of submaps, and where it ends.
pub open spec fn submaps_at(p: Seq<u8>, pos: int) -> Option<(int, int)> {
    if !has_bits(p, pos, 1) {
        None
    } else if number_at(p, pos, 1) == 0 {
        Some((1, pos + 1))
    } else if !has_bits(p, pos, 5) {
        None
    } else {
        Some((number_at(p, pos + 1, 4) + 1, pos + 5))
    }
}

/// The end of the coupling steps of a mapping, each of two channel numbers.
pub open spec fn coupling_end(p: Seq<u8>, pos: int, channels: int) -> Option<int> {
    if !has_bits(p, pos, 1) {
        None
    } else if number_at(p, pos, 1) == 0 {
        Some(pos + 1)
    } else if !has_bits(p, pos, 9) {
        None
    } else {
        let size = 9 + 2 * ((number_at(p, pos + 1, 8) + 1) * bit_length(channels - 1));
        if has_bits(p, pos, size) {
            Some(pos + size)
        } else {
            None
        }
    }
}

/// How many of the first `n` channels are put on submap `i`.
pub open spec fn channels_on(p: Seq<u8>, mux: int, submaps: int, n: nat, i: int) -> int
    decreases n,
{
    if n == 0 {
        0
    } else {
        channels_on(p, mux, submaps, (n - 1) as nat, i) + if submaps == 1 || number_at(
            p,
            mux + 4 * (n - 1),
            4,
        ) == i {
            1int
        } else {
            0int
        }
    }
}

/// The submaps from `i` on, behind those read already, and where they end.
pub open spec fn submap_list(
    p: Seq<u8>,
    pos: int,
    i: int,
    submaps: int,
    mux: int,
    channels: nat,
    floors: Seq<bool>,
    residues: Seq<Residue>,
    done: Mapping,
) -> Result<(Mapping, int), Halt>
    decreases submaps - i,
{
    if i >= submaps {
        Ok((done, pos))
    } else if !has_bits(p, pos, 24) {
        Err(Halt::Refused)
    } else {
        let floor = number_at(p, pos + 8, 8);
        let residue = number_at(p, pos + 16, 8);
        if floor >= floors.len() || residue >= residues.len() {
            Err(Halt::Refused)
        } else {
            let n = channels_on(p, mux, submaps, channels, i);
            submap_list(
                p,
                pos + 24,
                i + 1,
                submaps,
                mux,
                channels,
                floors,
                residues,
                Mapping {
                    sound: done.sound && (n == 0 || (floors[floor] && residues[residue].sound)),
                    joint: if residues[residue].joint && n > done.joint {
                        n as u32
                    } else {
                        done.joint
                    },
                },
            )
        }
    }
}

/// One mapping, and where it ends.
pub open spec fn mapping(
    p: Seq<u8>,
    pos: int,
    channels: nat,
    floors: Seq<bool>,
    residues: Seq<Residue>,
) -> Result<(Mapping, int), Halt> {
    if !has_bits(p, pos, 16) || number_at(p, pos, 16) != 0 {
        Err(Halt::Refused)
    } else {
        match submaps_at(p, pos + 16) {
            None => Err(Halt::Refused),
            Some((submaps, after)) => match coupling_end(p, after, channels as int) {
                None => Err(Halt::Refused),
                Some(end) => if !has_bits(p, end, 2) || number_at(p, end, 2) != 0 {
                    Err(Halt::Refused)
                } else {
                    let mux = end + 2;
                    let size = if submaps > 1 {
                        4 * channels as int
                    } else {
                        0
                    };
                    if has_bits(p, mux, size) {
                        submap_list(
                            p,
                            mux + size,
                            0,
                            submaps,
                            mux,
                            channels,
                            floors,
                            residues,
                            Mapping { sound: true, joint: 0 },
                        )
                    } else {
                        Err(Halt::Refused)
                    }
                },
            },
        }
    }
}

/// The mappings that are left, behind those read already.
pub open spec fn mappings(
    p: Seq<u8>,
    pos: int,
    left: nat,
    channels: nat,
    floors: Seq<bool>,
    residues: Seq<Residue>,
    done: Seq<Mapping>,
) -> Result<(Seq<Mapping>, int), Halt>
    decreases left,
{
    if left == 0 {
        Ok((done, pos))
    } else {
        match mapping(p, pos, channels, floors, residues) {
            Err(e) => Err(e),
            Ok((m, end)) => mappings(
                p,
                end,
                (left - 1) as nat,
                channels,
                floors,
                residues,
                done.push(m),
            ),
        }
    }
}

/// A mode with a mapping. The samples of channels that are coded as one are counted
/// in 16 bits.
pub open spec fn mode_with(m: Mapping, long: bool, blocks: Blocks) -> Mode {
    let size = two_to(
        if long {
            blocks.long as int
        } else {
            blocks.short as int
        },
    );
    Mode { long, sound: m.sound && m.joint * size <= 0xFFFF }
}

/// The modes that are left, behind those read already, and where they end.
pub open spec fn modes(
    p: Seq<u8>,
    pos: int,
    left: nat,
    maps: Seq<Mapping>,
    blocks: Blocks,
    done: Seq<Mode>,
) -> Result<(Seq<Mode>, int), Halt>
    decreases left,
{
    if left == 0 {
        Ok((done, pos))
    } else if !has_bits(p, pos, 41) {
        Err(Halt::Refused)
    } else {
        let map = number_at(p, pos + 33, 8);
        if number_at(p, pos + 1, 16) != 0 || number_at(p, pos + 17, 16) != 0 || map >= maps.len() {
            Err(Halt::Refused)
        } else {
            modes(
                p,
                pos + 41,
                (left - 1) as nat,
                maps,
                blocks,
                done.push(mode_with(maps[map], number_at(p, pos, 1) == 1, blocks)),
            )
        }
    }
}

/// The modes of a header whose mappings begin at `pos`.
pub open spec fn modes_behind(
    p: Seq<u8>,
    pos: int,
    floors: Seq<bool>,
    residues: Seq<Residue>,
    blocks: Blocks,
) -> Result<Seq<Mode>, Halt> {
    if !has_bits(p, pos, 6) {
        Err(Halt::Refused)
    } else {
        match mappings(
            p,
            pos + 6,
            (number_at(p, pos, 6) + 1) as nat,
            blocks.channels as nat,
            floors,
            residues,
            Seq::empty(),
        ) {
            Err(e) => Err(e),
            Ok((maps, at)) => if !has_bits(p, at, 6) {
                Err(Halt::Refused)
            } else {
                match modes(
                    p,
                    at + 6,
                    (number_at(p, at, 6) + 1) as nat,
                    maps,
                    blocks,
                    Seq::empty(),
                ) {
                    Err(e) => Err(e),
                    Ok((list, end)) => if has_bits(p, end, 1) && number_at(p, end, 1) == 1 {
                        Ok(list)
                    } else {
                        Err(Halt::Refused)
                    },
                }
            },
        }
    }
}

/// The modes of a setup header.
pub open spec fn setup_modes(p: Seq<u8>, blocks: Blocks) -> Result<Seq<Mode>, Halt> {
    if !has_bits(p, 56, 8) {
        Err(Halt::Refused)
    } else {
        match codebooks(
            p,
            64,
            (number_at(p, 56, 8) + 1) as nat,
            Seq::empty(),
            MOST_VALUES as int,
        ) {
            Err(e) => Err(e),
            Ok((books, at)) => if !has_bits(p, at, 6) {
                Err(Halt::Refused)
            } else {
                let times = at + 6 + 16 * (number_at(p, at, 6) + 1);
                if !has_bits(p, times, 6) {
                    Err(Halt::Refused)
                } else {
                    match floors(
                        p,
                        times + 6,
                        (number_at(p, times, 6) + 1) as nat,
                        books,
                        Seq::empty(),
                    ) {
                        Err(e) => Err(e),
                        Ok((floors, after)) => if !has_bits(p, after, 6) {
                            Err(Halt::Refused)
                        } else {
                            match residues(
                                p,
                                after + 6,
                                (number_at(p, after, 6) + 1) as nat,
                                books,
                                Seq::empty(),
                            ) {
                                Err(e) => Err(e),
                                Ok((residues, end)) => modes_behind(
                                    p,
                                    end,
                                    floors,
                                    residues,
                                    blocks,
                                ),
                            }
                        },
                    }
                }
            },
        }
    }
}

fn read_submaps(p: &[u8], pos: u128) -> (r: Option<(u64, u128)>)
    requires
        pos <= 8 * p@.len(),
    ensures
        match submaps_at(p@, pos as int) {
            Some((n, end)) => r is Some && (r->0).0 == n && (r->0).1 == end && end <= 8 * p@.len()
                && 1 <= n <= 16,
            None => r is None,
        },
{
    if !enough(p, pos, 1) {
        return None;
    }
    if number(p, pos, 1) == 0 {
        return Some((1, pos + 1));
    }
    if !enough(p, pos, 5) {
        return None;
    }
    proof {
        lemma_small_powers();
    }
    Some((number(p, pos + 1, 4) + 1, pos + 5))
}

fn read_coupling(p: &[u8], pos: u128, channels: u8) -> (r: Option<u128>)
    requires
        pos <= 8 * p@.len(),
        channels > 0,
    ensures
        match coupling_end(p@, pos as int, channels as int) {
            Some(end) => r is Some && r->0 == end && end <= 8 * p@.len(),
            None => r is None,
        },
{
    if !enough(p, pos, 1) {
        return None;
    }
    if number(p, pos, 1) == 0 {
        return Some(pos + 1);
    }
    if !enough(p, pos, 9) {
        return None;
    }
    proof {
        lemma_small_powers();
    }
    let steps: u64 = number(p, pos + 1, 8) + 1;
    let width: u64 = length_of((channels - 1) as u64) as u64;
    proof {
        assert(0 <= steps * width <= 256 * 32) by (nonlinear_arith)
            requires
                0 <= steps <= 256,
                0 <= width <= 32,
        ;
    }
    let size: u128 = 9 + 2 * (steps * width) as u128;
    if enough(p, pos, size) {
        Some(pos + size)
    } else {
        None
    }
}

fn count_channels(p: &[u8], mux: u128, submaps: u64, channels: u8, i: u64) -> (n: u32)
    requires
        submaps > 1 ==> has_bits(p@, mux as int, 4 * channels),
        mux <= 8 * p@.len(),
        submaps >= 1,
    ensures
        n == channels_on(p@, mux as int, submaps as int, channels as nat, i as int),
        n <= channels,
{
    let len: usize = p.len();
    let mut n: u32 = 0;
    let mut k: u8 = 0;
    while k < channels
        invariant
            k <= channels,
            n <= k,
            len == p@.len(),
            mux <= 8 * p@.len(),
            submaps >= 1,
            submaps > 1 ==> has_bits(p@, mux as int, 4 * channels),
            n == channels_on(p@, mux as int, submaps as int, k as nat, i as int),
        decreases channels - k,
    {
        if submaps == 1 || number(p, mux + 4 * k as u128, 4) == i {
            n = n + 1;
        }
        k = k + 1;
    }
    n
}

fn read_mapping(p: &[u8], pos: u128, channels: u8, floors: &Vec<bool>, residues: &Vec<Residue>) -> (r:
    Result<(Mapping, u128), Halt>)
    requires
        pos <= 8 * p@.len(),
        channels > 0,
    ensures
        match mapping(p@, pos as int, channels as nat, floors@, residues@) {
            Ok((m, end)) => r is Ok && (r->Ok_0).0 == m && (r->Ok_0).1 == end && end <= 8 * p@.len()
                && m.joint <= channels,
            Err(e) => r == Err::<(Mapping, u128), Halt>(e),
        },
{
    if !enough(p, pos, 16) || number(p, pos, 16) != 0 {
        return Err(Halt::Refused);
    }
    let (submaps, after) = match read_submaps(p, pos + 16) {
        Some(q) => q,
        None => return Err(Halt::Refused),
    };
    let end = match read_coupling(p, after, channels) {
        Some(q) => q,
        None => return Err(Halt::Refused),
    };
    if !enough(p, end, 2) || number(p, end, 2) != 0 {
        return Err(Halt::Refused);
    }
    let mux: u128 = end + 2;
    let size: u128 = if submaps > 1 {
        4 * channels as u128
    } else {
        0
    };
    if !enough(p, mux, size) {
        return Err(Halt::Refused);
    }
    let mut m = Mapping { sound: true, joint: 0 };
    let mut at: u128 = mux + size;
    let mut i: u64 = 0;
    while i < submaps
        invariant
            i <= submaps,
            1 <= submaps <= 16,
            at <= 8 * p@.len(),
            mux <= 8 * p@.len(),
            m.joint <= channels,
            submaps > 1 ==> has_bits(p@, mux as int, 4 * channels),
            mapping(p@, pos as int, channels as nat, floors@, residues@) == submap_list(
                p@,
                at as int,
                i as int,
                submaps as int,
                mux as int,
                channels as nat,
                floors@,
                residues@,
                m,
            ),
        decreases submaps - i,
    {
        if !enough(p, at, 24) {
            return Err(Halt::Refused);
        }
        proof {
            lemma_small_powers();
        }
        let floor: usize = number(p, at + 8, 8) as usize;
        let residue: usize = number(p, at + 16, 8) as usize;
        if floor >= floors.len() || residue >= residues.len() {
            return Err(Halt::Refused);
        }
        let n: u32 = count_channels(p, mux, submaps, channels, i);
        let part: Residue = residues[residue];
        m = Mapping {
            sound: m.sound && (n == 0 || (floors[floor] && part.sound)),
            joint: if part.joint && n > m.joint {
                n
            } else {
                m.joint
            },
        };
        at = at + 24;
        i = i + 1;
    }
    Ok((m, at))
}

/// The length of a block.
fn block_length(k: u8) -> (size: u32)
    requires
        k <= 13,
    ensures
        size == two_to(k as int),
        size <= 0x2000,
{
    let mut size: u32 = 1;
    let mut done: u8 = 0;
    while done < k
        invariant
            done <= k <= 13,
            size == two_to(done as int),
            size <= 0x2000,
        decreases k - done,
    {
        proof {
            reveal_with_fuel(two_to, 15);
        }
        size = 2 * size;
        done = done + 1;
    }
    size
}

fn read_mode(m: &Mapping, long: bool, blocks: &Blocks) -> (mode: Mode)
    requires
        m.joint <= 255,
        blocks.short <= 13,
        blocks.long <= 13,
    ensures
        mode == mode_with(*m, long, *blocks),
{
    let size: u32 = block_length(
        if long {
            blocks.long
        } else {
            blocks.short
        },
    );
    proof {
        assert(m.joint * size <= 255 * 0x2000) by (nonlinear_arith)
            requires
                0 <= m.joint <= 255,
                0 <= size <= 0x2000,
        ;
    }
    Mode { long, sound: m.sound && m.joint * size <= 0xFFFF }
}

fn read_mappings(
    p: &[u8],
    start: u128,
    count: u64,
    channels: u8,
    floors: &Vec<bool>,
    residues: &Vec<Residue>,
) -> (r: Result<(Vec<Mapping>, u128), Halt>)
    requires
        start <= 8 * p@.len(),
        channels > 0,
    ensures
        match mappings(
            p@,
            start as int,
            count as nat,
            channels as nat,
            floors@,
            residues@,
            Seq::empty(),
        ) {
            Ok((list, end)) => r is Ok && (r->Ok_0).0@ == list && (r->Ok_0).1 == end && end <= 8
                * p@.len() && forall|i: int|
                0 <= i < list.len() ==> (#[trigger] list[i]).joint <= channels,
            Err(e) => r == Err::<(Vec<Mapping>, u128), Halt>(e),
        },
{
    let mut list: Vec<Mapping> = Vec::new();
    let mut at: u128 = start;
    let mut left: u64 = count;
    assert(list@ =~= Seq::empty());
    while left > 0
        invariant
            at <= 8 * p@.len(),
            channels > 0,
            forall|i: int| 0 <= i < list@.len() ==> (#[trigger] list@[i]).joint <= channels,
            mappings(
                p@,
                start as int,
                count as nat,
                channels as nat,
                floors@,
                residues@,
                Seq::empty(),
            ) == mappings(
                p@,
                at as int,
                left as nat,
                channels as nat,
                floors@,
                residues@,
                list@,
            ),
        decreases left,
    {
        match read_mapping(p, at, channels, floors, residues) {
            Ok((m, end)) => {
                list.push(m);
                at = end;
            },
            Err(e) => return Err(e),
        }
        left = left - 1;
    }
    Ok((list, at))
}

fn read_modes(p: &[u8], start: u128, count: u64, maps: &Vec<Mapping>, blocks: &Blocks) -> (r: Result<
    (Vec<Mode>, u128),
    Halt,
>)
    requires
        start <= 8 * p@.len(),
        blocks.short <= 13,
        blocks.long <= 13,
        forall|i: int| 0 <= i < maps@.len() ==> (#[trigger] maps@[i]).joint <= blocks.channels,
    ensures
        match modes(p@, start as int, count as nat, maps@, *blocks, Seq::empty()) {
            Ok((list, end)) => r is Ok && (r->Ok_0).0@ == list && (r->Ok_0).1 == end && end <= 8
                * p@.len() && list.len() == count,
            Err(e) => r == Err::<(Vec<Mode>, u128), Halt>(e),
        },
{
    let mut list: Vec<Mode> = Vec::new();
    let mut at: u128 = start;
    let mut left: u64 = count;
    assert(list@ =~= Seq::empty());
    while left > 0
        invariant
            at <= 8 * p@.len(),
            blocks.short <= 13,
            blocks.long <= 13,
            list@.len() + left == count,
            forall|i: int| 0 <= i < maps@.len() ==> (#[trigger] maps@[i]).joint <= blocks.channels,
            modes(p@, start as int, count as nat, maps@, *blocks, Seq::empty()) == modes(
                p@,
                at as int,
                left as nat,
                maps@,
                *blocks,
                list@,
            ),
        decreases left,
    {
        if !enough(p, at, 41) {
            return Err(Halt::Refused);
        }
        proof {
            lemma_small_powers();
        }
        let map: usize = number(p, at + 33, 8) as usize;
        if number(p, at + 1, 16) != 0 || number(p, at + 17, 16) != 0 || map >= maps.len() {
            return Err(Halt::Refused);
        }
        list.push(read_mode(&maps[map], number(p, at, 1) == 1, blocks));
        at = at + 41;
        left = left - 1;
    }
    Ok((list, at))
}

fn read_modes_behind(
    p: &[u8],
    pos: u128,
    floors: &Vec<bool>,
    residues: &Vec<Residue>,
    blocks: &Blocks,
) -> (r: Result<Vec<Mode>, Halt>)
    requires
        pos <= 8 * p@.len(),
        blocks.channels > 0,
        blocks.short <= 13,
        blocks.long <= 13,
    ensures
        match modes_behind(p@, pos as int, floors@, residues@, *blocks) {
            Ok(list) => r is Ok && r->Ok_0@ == list && 1 <= list.len() <= 64,
            Err(e) => r == Err::<Vec<Mode>, Halt>(e),
        },
{
    proof {
        lemma_small_powers();
    }
    if !enough(p, pos, 6) {
        return Err(Halt::Refused);
    }
    let (maps, at) = match read_mappings(
        p,
        pos + 6,
        number(p, pos, 6) + 1,
        blocks.channels,
        floors,
        residues,
    ) {
        Ok(m) => m,
        Err(e) => return Err(e),
    };
    if !enough(p, at, 6) {
        return Err(Halt::Refused);
    }
    let (list, end) = match read_modes(p, at + 6, number(p, at, 6) + 1, &maps, blocks) {
        Ok(m) => m,
        Err(e) => return Err(e),
    };
    if enough(p, end, 1) && number(p, end, 1) == 1 {
        Ok(list)
    } else {
        Err(Halt::Refused)
    }
}

/// Read the modes of a setup header.
pub fn read_setup(p: &[u8], blocks: &Blocks) -> (r: Result<Vec<Mode>, Halt>)
    requires
        blocks.channels > 0,
        blocks.short <= 13,
        blocks.long <= 13,
    ensures
        match setup_modes(p@, *blocks) {
            Ok(list) => r is Ok && r->Ok_0@ == list && 1 <= list.len() <= 64,
            Err(e) => r == Err::<Vec<Mode>, Halt>(e),
        },
{
    proof {
        lemma_small_powers();
    }
    if p.len() < 8 {
        return Err(Halt::Refused);
    }
    let (books, at) = match read_codebooks(p, 64, number(p, 56, 8) + 1) {
        Ok(b) => b,
        Err(e) => return Err(e),
    };
    if !enough(p, at, 6) {
        return Err(Halt::Refused);
    }
    let skip: u128 = 6 + 16 * (number(p, at, 6) + 1) as u128;
    if !enough(p, at, skip + 6) {
        return Err(Halt::Refused);
    }
    let times: u128 = at + skip;
    let (floors, after) = match read_floors(p, times + 6, number(p, times, 6) + 1, &books) {
        Ok(q) => q,
        Err(e) => return Err(e),
    };
    if !enough(p, after, 6) {
        return Err(Halt::Refused);
    }
    let (residues, end) = match read_residues(p, after + 6, number(p, after, 6) + 1, &books) {
        Ok(q) => q,
        Err(e) => return Err(e),
    };
    read_modes_behind(p, end, &floors, &residues, blocks)
}

} // verus!

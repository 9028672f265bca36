//! Ogg files that the decoder can be trusted with.
//!
//! A file is a row of pages, and pages of several streams may alternate. The packets
//! of a stream are put together here as the decoder's reader does it, and handed to a
//! [`State`] that follows the decoder.

use super::stream::{
    is_state, just_opened, nothing_read, step, Packet, PacketView, Stage, State, StateView,
};
use crate::util::io::{get_u32, le32, put_bytes};
use vstd::prelude::*;

verus! {

/// Whether no packet ends in the segments from `k` on.
pub open spec fn none_ends(b: Seq<u8>, segments: int, k: int, n: int) -> bool
    decreases n - k,
{
    if k >= n {
        true
    } else {
        b[segments + k] == 255 && none_ends(b, segments, k + 1, n)
    }
}

/// The size of a page's body.
pub open spec fn body_size(b: Seq<u8>, segments: int, n: nat) -> int
    decreases n,
{
    if n == 0 {
        0
    } else {
        body_size(b, segments, (n - 1) as nat) + b[segments + n - 1]
    }
}

/// Whether a page header starts at `i`.
pub open spec fn is_capture(b: Seq<u8>, i: int) -> bool {
    b[i] == 0x4F && b[i + 1] == 0x67 && b[i + 2] == 0x67 && b[i + 3] == 0x53
}

/// The first page header from `i` on.
pub open spec fn capture_from(b: Seq<u8>, i: int) -> Option<int>
    decreases b.len() - i,
{
    if i + 27 > b.len() {
        None
    } else if is_capture(b, i) {
        Some(i)
    } else {
        capture_from(b, i + 1)
    }
}

/// What the last page of a stream left: whether it ended amid a packet, and the part
/// of it so far. None if there was no such page.
pub open spec fn left_over(log: Seq<(u32, bool, Seq<u8>)>, serial: u32) -> Option<(bool, Seq<u8>)>
    decreases log.len(),
{
    if log.len() == 0 {
        None
    } else if log.last().0 == serial {
        Some((log.last().1, log.last().2))
    } else {
        left_over(log.drop_last(), serial)
    }
}

/// The sample position of the page at `i`.
pub open spec fn position_of(b: Seq<u8>, i: int) -> u64 {
    (le32(b, i + 6) + 0x1_0000_0000 * le32(b, i + 10)) as u64
}

/// Whether the page at `i` goes on with a packet.
pub open spec fn goes_on(b: Seq<u8>, i: int) -> bool {
    b[i + 5] % 2 == 1
}

/// Whether the page at `i` is the first of its stream.
pub open spec fn is_first(b: Seq<u8>, i: int) -> bool {
    (b[i + 5] / 2) % 2 == 1
}

/// Whether the page at `i` is the last of its stream.
pub open spec fn is_last(b: Seq<u8>, i: int) -> bool {
    (b[i + 5] / 4) % 2 == 1
}

/// Where a page leaves the decoder.
pub struct After {
    /// The part of a packet that is left.
    pub rest: Seq<u8>,
    /// Whether that part belongs to a packet whose start is missing.
    pub headless: bool,
    /// Whether what was left of the page has been dropped.
    pub dropped: bool,
    pub state: StateView,
}

/// The packet with `data` that ends in segment `k` of the page at `i`, `first` of those
/// that the page hands out.
pub open spec fn packet_of(b: Seq<u8>, i: int, k: int, data: Seq<u8>, first: bool) -> PacketView {
    PacketView {
        data,
        serial: le32(b, i + 14),
        opening: first && is_first(b, i),
        closing: is_last(b, i) && none_ends(b, i + 27, k + 1, b[i + 26] as int),
        position: position_of(b, i),
    }
}

/// The packets from segment `k` of the page at `i` on, `cur` being the part so far of
/// the first. One whose start is missing is passed over. None if the decoder cannot be
/// trusted with one of them.
pub open spec fn packets_from(
    b: Seq<u8>,
    i: int,
    k: int,
    at: int,
    cur: Seq<u8>,
    headless: bool,
    first: bool,
    state: StateView,
) -> Option<After>
    decreases b[i + 26] - k,
{
    if k >= b[i + 26] {
        Some(After { rest: cur, headless, dropped: false, state })
    } else {
        let size = b[i + 27 + k] as int;
        let now = cur + b.subrange(at, at + size);
        if size == 255 {
            packets_from(b, i, k + 1, at + size, now, headless, first, state)
        } else if headless {
            packets_from(b, i, k + 1, at + size, Seq::empty(), false, first, state)
        } else {
            match step(state, packet_of(b, i, k, now, first)) {
                None => None,
                Some(next) => if just_opened(state, next) {
                    Some(
                        After { rest: Seq::empty(), headless: false, dropped: true, state: next },
                    )
                } else {
                    packets_from(b, i, k + 1, at + size, Seq::empty(), false, false, next)
                },
            }
        }
    }
}

/// How far a file has been read.
pub struct Reader {
    /// What each page left, the latest last.
    pub log: Seq<(u32, bool, Seq<u8>)>,
    /// Whether pages may come that do not fit the one before.
    pub lenient: bool,
    pub state: StateView,
}

/// Whether a page does not fit the one before, and the decoder says so.
pub open spec fn page_refused(b: Seq<u8>, i: int, r: Reader) -> bool {
    match left_over(r.log, le32(b, i + 14)) {
        None => !r.lenient && (!is_first(b, i) || goes_on(b, i)),
        Some((amid, _)) => is_first(b, i) || (!r.lenient && goes_on(b, i) != amid),
    }
}

/// Whether the start of the packet that a page goes on with is missing.
pub open spec fn starts_headless(b: Seq<u8>, i: int, r: Reader) -> bool {
    goes_on(b, i) && !(left_over(r.log, le32(b, i + 14)) matches Some((amid, _)) && amid)
}

/// The part so far of the packet that a page goes on with.
pub open spec fn taken_up(b: Seq<u8>, i: int, r: Reader) -> Seq<u8> {
    if goes_on(b, i) && !starts_headless(b, i, r) {
        (left_over(r.log, le32(b, i + 14))->0).1
    } else {
        Seq::empty()
    }
}

/// Whether a page ends amid a packet.
pub open spec fn ends_amid(b: Seq<u8>, i: int, after: After) -> bool {
    let n = b[i + 26] as int;
    !after.headless && if n == 0 {
        goes_on(b, i)
    } else {
        b[i + 27 + n - 1] == 255
    }
}

/// The reader once it has read the page at `i`.
pub open spec fn page_read(b: Seq<u8>, i: int, r: Reader, after: After) -> Reader {
    if after.dropped {
        Reader { log: Seq::empty(), lenient: true, state: after.state }
    } else {
        Reader {
            log: r.log.push((le32(b, i + 14), ends_amid(b, i, after), after.rest)),
            lenient: r.lenient,
            state: after.state,
        }
    }
}

/// Whether the decoder can be trusted with the pages from `pos` on. A page that is cut
/// off, of another version or out of place is a fault.
pub open spec fn pages_sound(b: Seq<u8>, pos: int, r: Reader) -> bool
    decreases b.len() - pos,
{
    match capture_from(b, pos) {
        None => true,
        Some(i) => {
            let n = b[i + 26] as int;
            let body = i + 27 + n;
            let end = body + body_size(b, i + 27, n as nat);
            if r.state.stage == Stage::Over || i < pos || b[i + 4] != 0 || body > b.len() || end
                > b.len() || end <= pos || page_refused(b, i, r) {
                true
            } else {
                match packets_from(
                    b,
                    i,
                    0,
                    body,
                    taken_up(b, i, r),
                    starts_headless(b, i, r),
                    true,
                    r.state,
                ) {
                    None => false,
                    Some(after) => pages_sound(b, end, page_read(b, i, r, after)),
                }
            }
        },
    }
}

/// Before the first page.
pub open spec fn at_start() -> Reader {
    Reader { log: Seq::empty(), lenient: false, state: nothing_read() }
}

/// Whether the decoder can be trusted with a file, as long as it finds no fault in it.
pub open spec fn sound_file(b: Seq<u8>) -> bool {
    pages_sound(b, 0, at_start())
}

fn ends_none(b: &[u8], segments: usize, start: usize, n: usize) -> (r: bool)
    requires
        segments + n <= b@.len(),
        start <= n,
    ensures
        r == none_ends(b@, segments as int, start as int, n as int),
{
    let len: usize = b.len();
    let mut k: usize = start;
    while k < n
        invariant
            start <= k <= n,
            len == b@.len(),
            segments + n <= b@.len(),
            none_ends(b@, segments as int, start as int, n as int) == none_ends(
                b@,
                segments as int,
                k as int,
                n as int,
            ),
        decreases n - k,
    {
        if b[segments + k] != 255 {
            return false;
        }
        k = k + 1;
    }
    true
}

fn size_of_body(b: &[u8], segments: usize, n: usize) -> (size: usize)
    requires
        segments + n <= b@.len(),
        n <= 255,
    ensures
        size == body_size(b@, segments as int, n as nat),
        size <= 255 * 255,
{
    let len: usize = b.len();
    let mut size: usize = 0;
    let mut k: usize = 0;
    while k < n
        invariant
            k <= n <= 255,
            len == b@.len(),
            segments + n <= b@.len(),
            size == body_size(b@, segments as int, k as nat),
            size <= 255 * k,
        decreases n - k,
    {
        size = size + b[segments + k] as usize;
        k = k + 1;
    }
    size
}

proof fn lemma_body_grows(b: Seq<u8>, segments: int, k: nat, n: nat)
    requires
        k <= n,
    ensures
        body_size(b, segments, k) <= body_size(b, segments, n),
    decreases n,
{
    if k < n {
        lemma_body_grows(b, segments, k, (n - 1) as nat);
    }
}

/// What is left once the packets of a page have been handed out.
struct Rest {
    bytes: Vec<u8>,
    headless: bool,
    dropped: bool,
}

/// Hand out the packets of a page.
fn hand_out(b: &[u8], i: usize, first_part: Vec<u8>, missing: bool, state: &mut State) -> (r: Option<
    Rest,
>)
    requires
        i + 27 <= b@.len(),
        i + 27 + b@[i + 26] <= b@.len(),
        i + 27 + b@[i + 26] + body_size(b@, i + 27, b@[i + 26] as nat) <= b@.len(),
        is_state(old(state)@),
    ensures
        match packets_from(
            b@,
            i as int,
            0,
            i + 27 + b@[i + 26],
            first_part@,
            missing,
            true,
            old(state)@,
        ) {
            Some(after) => r is Some && (r->0).bytes@ == after.rest && (r->0).headless
                == after.headless && (r->0).dropped == after.dropped && final(state)@ == after.state
                && is_state(final(state)@),
            None => r is None,
        },
{
    let len: usize = b.len();
    let n: usize = b[i + 26] as usize;
    let segments: usize = i + 27;
    let body: usize = segments + n;
    let serial: u32 = get_u32(b, i + 14);
    let opens = (b[i + 5] / 2) % 2 == 1;
    let closes = (b[i + 5] / 4) % 2 == 1;
    let position: u64 = get_u32(b, i + 6) as u64 + 0x1_0000_0000 * get_u32(b, i + 10) as u64;
    let mut cur: Vec<u8> = first_part;
    let mut headless = missing;
    let mut first = true;
    let mut k: usize = 0;
    let mut at: usize = body;
    let ghost whole = packets_from(
        b@,
        i as int,
        0,
        body as int,
        first_part@,
        missing,
        true,
        state@,
    );
    while k < n
        invariant
            k <= n == b@[i + 26],
            len == b@.len(),
            segments == i + 27,
            body == segments + n,
            body <= b@.len(),
            serial == le32(b@, i + 14),
            opens == is_first(b@, i as int),
            closes == is_last(b@, i as int),
            position == position_of(b@, i as int),
            is_state(state@),
            whole == packets_from(
                b@,
                i as int,
                0,
                body as int,
                first_part@,
                missing,
                true,
                old(state)@,
            ),
            at == body + body_size(b@, segments as int, k as nat),
            body + body_size(b@, segments as int, n as nat) <= b@.len(),
            whole == packets_from(
                b@,
                i as int,
                k as int,
                at as int,
                cur@,
                headless,
                first,
                state@,
            ),
        decreases n - k,
    {
        let size: usize = b[segments + k] as usize;
        proof {
            lemma_body_grows(b@, segments as int, (k + 1) as nat, n as nat);
        }
        let ghost before = cur@;
        put_bytes(&mut cur, vstd::slice::slice_subrange(b, at, at + size));
        assert(cur@ == before + b@.subrange(at as int, at + size));
        if size != 255 {
            if headless {
                headless = false;
            } else {
                let ghost data = cur@;
                let packet = Packet {
                    data: cur,
                    serial,
                    opening: first && opens,
                    closing: closes && ends_none(b, segments, k + 1, n),
                    position,
                };
                assert(packet@ == packet_of(b@, i as int, k as int, data, first));
                let opening = state.is_opening();
                let ghost from = state@;
                if !state.take(&packet) {
                    return None;
                }
                if opening && state.is_decoding() {
                    assert(just_opened(from, state@));
                    let bytes: Vec<u8> = Vec::new();
                    assert(bytes@ =~= Seq::empty());
                    return Some(Rest { bytes, headless: false, dropped: true });
                }
                first = false;
            }
            cur = Vec::new();
            assert(cur@ =~= Seq::empty());
        }
        at = at + size;
        k = k + 1;
    }
    Some(Rest { bytes: cur, headless, dropped: false })
}

fn next_capture(b: &[u8], start: usize) -> (r: Option<usize>)
    requires
        start <= b@.len(),
    ensures
        match capture_from(b@, start as int) {
            Some(i) => r is Some && r->0 == i && start <= i && i + 27 <= b@.len(),
            None => r is None,
        },
{
    let mut i: usize = start;
    while b.len() - i >= 27
        invariant
            start <= i <= b@.len(),
            capture_from(b@, start as int) == capture_from(b@, i as int),
        decreases b@.len() - i,
    {
        if b[i] == 0x4F && b[i + 1] == 0x67 && b[i + 2] == 0x67 && b[i + 3] == 0x53 {
            return Some(i);
        }
        i = i + 1;
    }
    None
}

/// The contents of a log of parts of packets.
pub open spec fn log_view(log: Seq<(u32, bool, Vec<u8>)>) -> Seq<(u32, bool, Seq<u8>)> {
    Seq::new(log.len(), |i: int| (log[i].0, log[i].1, log[i].2@))
}

fn left_of(log: &Vec<(u32, bool, Vec<u8>)>, serial: u32) -> (r: Option<(bool, Vec<u8>)>)
    ensures
        match left_over(log_view(log@), serial) {
            Some((amid, part)) => r is Some && (r->0).0 == amid && (r->0).1@ == part,
            None => r is None,
        },
{
    let ghost all = log_view(log@);
    let mut n: usize = log.len();
    assert(all.subrange(0, n as int) =~= all);
    while n > 0
        invariant
            n <= log@.len(),
            all == log_view(log@),
            left_over(all, serial) == left_over(all.subrange(0, n as int), serial),
        decreases n,
    {
        let ghost now = all.subrange(0, n as int);
        assert(now.last() == (log@[n - 1].0, log@[n - 1].1, log@[n - 1].2@));
        assert(now.drop_last() =~= all.subrange(0, n - 1));
        if log[n - 1].0 == serial {
            return Some((log[n - 1].1, vstd::slice::slice_to_vec(log[n - 1].2.as_slice())));
        }
        n = n - 1;
    }
    None
}

/// Whether the decoder can be trusted with a file, as long as it finds no fault in it.
pub fn is_sound_file(b: &[u8]) -> (r: bool)
    ensures
        r == sound_file(b@),
{
    let len: usize = b.len();
    let mut log: Vec<(u32, bool, Vec<u8>)> = Vec::new();
    let mut lenient = false;
    let mut state = State::new();
    let mut pos: usize = 0;
    assert(log_view(log@) =~= Seq::empty());
    loop
        invariant
            len == b@.len(),
            pos <= b@.len(),
            is_state(state@),
            sound_file(b@) == pages_sound(
                b@,
                pos as int,
                (Reader { log: log_view(log@), lenient, state: state@ }),
            ),
        decreases b@.len() - pos,
    {
        let ghost reader = Reader { log: log_view(log@), lenient, state: state@ };
        let i: usize = match next_capture(b, pos) {
            Some(i) => i,
            None => {
                return true;
            },
        };
        let n: usize = b[i + 26] as usize;
        let segments: usize = i + 27;
        if state.is_over() || b[i + 4] != 0 || len - segments < n {
            return true;
        }
        let body: usize = segments + n;
        let size: usize = size_of_body(b, segments, n);
        if len - body < size {
            return true;
        }
        let serial: u32 = get_u32(b, i + 14);
        let on = b[i + 5] % 2 == 1;
        let first = (b[i + 5] / 2) % 2 == 1;
        let part: Option<(bool, Vec<u8>)> = left_of(&log, serial);
        let refused = match &part {
            None => !lenient && (!first || on),
            Some((amid, _)) => first || (!lenient && on != *amid),
        };
        assert(refused == page_refused(b@, i as int, reader));
        if refused {
            return true;
        }
        let (missing, taken) = match part {
            Some((true, bytes)) if on => (false, bytes),
            _ => (on, Vec::new()),
        };
        assert(missing == starts_headless(b@, i as int, reader));
        assert(taken@ =~= taken_up(b@, i as int, reader));
        match hand_out(b, i, taken, missing, &mut state) {
            None => {
                return false;
            },
            Some(rest) => {
                let ghost after = After {
                    rest: rest.bytes@,
                    headless: rest.headless,
                    dropped: rest.dropped,
                    state: state@,
                };
                if rest.dropped {
                    log = Vec::new();
                    lenient = true;
                    assert(log_view(log@) =~= Seq::empty());
                } else {
                    let amid = !rest.headless && if n == 0 {
                        on
                    } else {
                        b[segments + n - 1] == 255
                    };
                    let ghost before = log@;
                    let ghost kept = rest.bytes@;
                    log.push((serial, amid, rest.bytes));
                    assert(log_view(log@) =~= log_view(before).push((serial, amid, kept)));
                }
                assert(page_read(b@, i as int, reader, after) == (Reader {
                    log: log_view(log@),
                    lenient,
                    state: state@,
                }));
            },
        }
        pos = body + size;
    }
}

} // verus!

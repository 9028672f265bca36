//! What a stepfile holds that is read otherwise than it stands there.
//!
//! Nothing here is an error: the parts are dropped or mended, and the texts say
//! which.

use super::chunk::{header_at, read_header, ChunkHeader};
use super::mines::{mine_style, mines_outcome, parse_chunk, recovered_side};
use super::{SsqError, SsqErrorView};
use crate::model::{Note, ShockSide, Style};
use crate::ssc::msd::strings_view;
use crate::ssc::writer::{shock_side_name, side_text};
use crate::util::io::{get_i32, get_u16, le16, sle32, LeReader};
use crate::util::text::{
    dec, dec_string, digits_fixed, fixed_string, signed_dec, signed_dec_string, with_number,
};
use vstd::prelude::*;
use vstd::slice::slice_subrange;
use vstd::string::StringExecFns;

verus! {

/// The chunks of a file from `at` on, each with its offset.
pub open spec fn chunk_list(b: Seq<u8>, at: int) -> Seq<(usize, ChunkHeader)>
    decreases b.len() - at,
{
    match header_at(b, at) {
        Ok(Some(h)) => if at + h.length <= b.len() {
            seq![(at as usize, h)] + chunk_list(b, at + h.length)
        } else {
            Seq::empty()
        },
        _ => Seq::empty(),
    }
}

/// The body of a chunk.
pub open spec fn body_of(b: Seq<u8>, c: (usize, ChunkHeader)) -> Seq<u8> {
    b.subrange(c.0 + 12, c.0 + c.1.length)
}

/// Why the mine entry at byte `at` is not read as a mine.
pub open spec fn entry_warning(e: Seq<u8>, style: Style, at: int) -> Option<Seq<char>> {
    let head = "mine entry at byte "@ + dec(at as nat) + ": "@;
    let panels = digits_fixed(e[4] as nat, 16, 2);
    if sle32(e, 0) < 0 {
        Some(head + "beat_count "@ + signed_dec(sle32(e, 0) as int) + " is negative; skipping"@)
    } else if e[5] != 0 {
        Some(head + "flags=0x"@ + digits_fixed(e[5] as nat, 16, 2) + " is non-zero; skipping"@)
    } else if le16(e, 6) != 0 {
        Some(
            head + "reserved=0x"@ + digits_fixed(le16(e, 6) as nat, 16, 4)
                + " is non-zero; skipping"@,
        )
    } else if e[4] == 0 {
        Some(head + "panels=0x00 is a no-op; skipping"@)
    } else if recovered_side(e[4], style) is Some {
        Some(
            head + "panels=0x"@ + panels + " is a shock-mask; recovering as "@ + side_text(
                recovered_side(e[4], style)->0,
            ) + " shock"@,
        )
    } else if style is Single && e[4] >= 0x10 {
        Some(
            head + "Single-mode chunk with panels=0x"@ + panels
                + " has high-nibble bits set; skipping"@,
        )
    } else {
        None
    }
}

/// What is to be said of the first `n` entries of a mine chunk.
pub open spec fn entry_warnings(body: Seq<u8>, style: Style, at: int, n: nat) -> Seq<Seq<char>>
    decreases n,
{
    if n == 0 {
        Seq::empty()
    } else {
        let before = entry_warnings(body, style, at, (n - 1) as nat);
        match entry_warning(
            body.subrange(8 * (n - 1), 8 * n as int),
            style,
            at + 12 + 8 * (n - 1),
        ) {
            Some(text) => before.push(text),
            None => before,
        }
    }
}

/// What is to be said of a mine chunk.
pub open spec fn mine_warnings(body: Seq<u8>, at: int, h: ChunkHeader) -> Seq<Seq<char>> {
    if h.length != 12 + 8 * h.param3 {
        seq![
            SsqErrorView::MineChunkLengthMismatch {
                offset: at as usize,
                declared: h.length,
                param3: h.param3,
                expected: (12 + 8 * h.param3) as u32,
            }.text(),
        ]
    } else if h.param2 == 0 {
        seq![
            "orphan mine chunk at byte "@ + dec(at as nat)
                + ": param2=0 (not paired to any chart); skipping"@,
        ]
    } else {
        match mine_style(h.param2) {
            None => seq![
                "mine chunk at byte "@ + dec(at as nat) + ": param2=0x"@ + digits_fixed(
                    h.param2 as nat,
                    16,
                    4,
                ) + " is not a valid difficulty code; skipping entire chunk"@,
            ],
            Some(style) => entry_warnings(body, style, at, h.param3 as nat),
        }
    }
}

/// What is to be said of a chunk by itself.
pub open spec fn chunk_warnings(b: Seq<u8>, c: (usize, ChunkHeader)) -> Seq<Seq<char>> {
    let (at, h) = c;
    if h.ty == 1 && h.param2 != 0 && h.param2 != 150 && h.param2 != 1000 {
        seq![
            "unexpected TPS "@ + dec(h.param2 as nat) + " in tempo chunk at byte "@ + dec(at as nat)
                + " (expected 150 or 1000)"@,
        ]
    } else if h.ty == 2 && h.param2 != 1 {
        seq![
            "events chunk at byte "@ + dec(at as nat) + " has param2="@ + dec(h.param2 as nat)
                + " (expected 1)"@,
        ]
    } else if h.ty == 4 || h.ty == 5 || h.ty == 9 || h.ty == 17 {
        seq![
            "dropping auxiliary chunk type "@ + dec(h.ty as nat) + " at byte "@ + dec(at as nat)
                + " (size "@ + dec(h.length as nat) + ")"@,
        ]
    } else if h.ty == 20 {
        mine_warnings(body_of(b, c), at as int, h)
    } else {
        Seq::empty()
    }
}

/// What is to be said of the first `n` chunks, each by itself.
pub open spec fn chunks_warnings(b: Seq<u8>, list: Seq<(usize, ChunkHeader)>, n: nat) -> Seq<
    Seq<char>,
>
    decreases n,
{
    if n == 0 {
        Seq::empty()
    } else {
        chunks_warnings(b, list, (n - 1) as nat) + chunk_warnings(b, list[n - 1])
    }
}

/// Whether one of the first `n` chunks is a step chunk with a code.
pub open spec fn has_steps(list: Seq<(usize, ChunkHeader)>, code: u16, n: nat) -> bool
    decreases n,
{
    n > 0 && ((list[n - 1].1.ty == 3 && list[n - 1].1.param2 == code) || has_steps(
        list,
        code,
        (n - 1) as nat,
    ))
}

/// The mines of a chunk, with the code of the chart that they are for.
pub open spec fn mines_in(b: Seq<u8>, c: (usize, ChunkHeader)) -> Option<(u16, Seq<Note>)> {
    if c.1.ty == 20 {
        mines_outcome(c.1, body_of(b, c))
    } else {
        None
    }
}

/// Whether one of the first `n` chunks holds mines for a code.
pub open spec fn has_mines(b: Seq<u8>, list: Seq<(usize, ChunkHeader)>, code: u16, n: nat) -> bool
    decreases n,
{
    n > 0 && ((mines_in(b, list[n - 1]) is Some && (mines_in(b, list[n - 1])->0).0 == code)
        || has_mines(b, list, code, (n - 1) as nat))
}

/// Why mines are not put into a chart.
pub open spec fn discard_text(code: u16, count: nat, orphan: bool) -> Seq<char> {
    if orphan {
        "orphan mine chunk param2=0x"@ + digits_fixed(code as nat, 16, 4)
            + ": no step chunk with this difficulty code; discarding "@ + dec(count) + " entries"@
    } else {
        "duplicate mine chunk param2=0x"@ + digits_fixed(code as nat, 16, 4)
            + ": already attached a chunk to this chart; discarding "@ + dec(count)
            + " entries from the subsequent chunk"@
    }
}

/// What is to be said of the first `n` chunks next to the others: mines for no
/// chart, or for a chart that has its mines already.
pub open spec fn pairing_warnings(b: Seq<u8>, list: Seq<(usize, ChunkHeader)>, n: nat) -> Seq<
    Seq<char>,
>
    decreases n,
{
    if n == 0 {
        Seq::empty()
    } else {
        let before = pairing_warnings(b, list, (n - 1) as nat);
        match mines_in(b, list[n - 1]) {
            None => before,
            Some((code, notes)) => if !has_steps(list, code, list.len()) {
                before.push(discard_text(code, notes.len(), true))
            } else if has_mines(b, list, code, (n - 1) as nat) {
                before.push(discard_text(code, notes.len(), false))
            } else {
                before
            },
        }
    }
}

/// What is to be said of a file.
pub open spec fn file_warnings(b: Seq<u8>) -> Seq<Seq<char>> {
    let list = chunk_list(b, 0);
    chunks_warnings(b, list, list.len()) + pairing_warnings(b, list, list.len())
}

fn shock_side_of(panels: u8, style: Style) -> (side: Option<ShockSide>)
    ensures
        side == recovered_side(panels, style),
{
    let single = match style {
        Style::Single => true,
        Style::Double => false,
    };
    if panels == 0xFF || (panels == 0x0F && single) {
        Some(ShockSide::BothSides)
    } else if panels == 0x0F {
        Some(ShockSide::P1Only)
    } else if panels == 0xF0 && !single {
        Some(ShockSide::P2Only)
    } else {
        None
    }
}

fn warn_entry(e: &[u8], style: Style, at: u128) -> (r: Option<String>)
    requires
        e@.len() == 8,
    ensures
        match entry_warning(e@, style, at as int) {
            Some(text) => r is Some && r->0@ == text,
            None => r is None,
        },
{
    let head = with_number("mine entry at byte ", at, ": ");
    let panels = fixed_string(e[4] as u128, 16, 2);
    let beat: i32 = get_i32(e, 0);
    if beat < 0 {
        return Some(
            head.concat("beat_count ").concat(signed_dec_string(beat as i64).as_str()).concat(
                " is negative; skipping",
            ),
        );
    }
    if e[5] != 0 {
        return Some(
            head.concat("flags=0x").concat(fixed_string(e[5] as u128, 16, 2).as_str()).concat(
                " is non-zero; skipping",
            ),
        );
    }
    let reserved: u16 = get_u16(e, 6);
    if reserved != 0 {
        return Some(
            head.concat("reserved=0x").concat(
                fixed_string(reserved as u128, 16, 4).as_str(),
            ).concat(" is non-zero; skipping"),
        );
    }
    if e[4] == 0 {
        return Some(head.concat("panels=0x00 is a no-op; skipping"));
    }
    match shock_side_of(e[4], style) {
        Some(side) => {
            return Some(
                head.concat("panels=0x").concat(panels.as_str()).concat(
                    " is a shock-mask; recovering as ",
                ).concat(shock_side_name(side)).concat(" shock"),
            );
        },
        None => {},
    }
    match style {
        Style::Single => if e[4] >= 0x10 {
            Some(
                head.concat("Single-mode chunk with panels=0x").concat(panels.as_str()).concat(
                    " has high-nibble bits set; skipping",
                ),
            )
        } else {
            None
        },
        Style::Double => None,
    }
}

fn push_text(out: &mut Vec<String>, text: String)
    ensures
        strings_view(final(out)@) == strings_view(old(out)@).push(text@),
{
    let ghost before = out@;
    let ghost t = text@;
    out.push(text);
    assert(strings_view(out@) =~= strings_view(before).push(t));
}

fn style_of_code(code: u16) -> (s: Option<Style>)
    ensures
        s == mine_style(code),
{
    match super::steps::decode_difficulty_code(code, 0) {
        Ok((style, _)) => Some(style),
        Err(_) => None,
    }
}

fn warn_mines(out: &mut Vec<String>, body: &[u8], at: usize, h: &ChunkHeader)
    requires
        h.length >= 12,
        body@.len() == h.length - 12,
    ensures
        strings_view(final(out)@) == strings_view(old(out)@) + mine_warnings(body@, at as int, *h),
{
    let ghost before = strings_view(out@);
    let expected: u32 = 12 + 8 * h.param3 as u32;
    if h.length != expected {
        let error = SsqError::MineChunkLengthMismatch {
            offset: at,
            declared: h.length,
            param3: h.param3,
            expected,
        };
        push_text(out, error.message());
        assert(strings_view(out@) =~= before + mine_warnings(body@, at as int, *h));
        return;
    }
    if h.param2 == 0 {
        push_text(
            out,
            with_number(
                "orphan mine chunk at byte ",
                at as u128,
                ": param2=0 (not paired to any chart); skipping",
            ),
        );
        assert(strings_view(out@) =~= before + mine_warnings(body@, at as int, *h));
        return;
    }
    let style = match style_of_code(h.param2) {
        Some(s) => s,
        None => {
            push_text(
                out,
                with_number("mine chunk at byte ", at as u128, ": param2=0x").concat(
                    fixed_string(h.param2 as u128, 16, 4).as_str(),
                ).concat(" is not a valid difficulty code; skipping entire chunk"),
            );
            assert(strings_view(out@) =~= before + mine_warnings(body@, at as int, *h));
            return;
        },
    };
    let count: usize = h.param3 as usize;
    let mut i: usize = 0;
    assert(before =~= before + entry_warnings(body@, style, at as int, 0));
    while i < count
        invariant
            i <= count <= 0xFFFF,
            8 * count == body@.len(),
            strings_view(out@) == before + entry_warnings(body@, style, at as int, i as nat),
        decreases count - i,
    {
        let entry = slice_subrange(body, 8 * i, 8 * i + 8);
        let ghost now = strings_view(out@);
        match warn_entry(entry, style, at as u128 + 12 + 8 * i as u128) {
            Some(text) => push_text(out, text),
            None => {},
        }
        i = i + 1;
        assert(strings_view(out@) =~= before + entry_warnings(body@, style, at as int, i as nat));
    }
}

/// Whether a chunk of a list lies in the file.
pub open spec fn lies_in(b: Seq<u8>, c: (usize, ChunkHeader)) -> bool {
    12 <= c.1.length && c.0 + c.1.length <= b.len()
}

fn warn_chunk(out: &mut Vec<String>, bytes: &[u8], at: usize, h: &ChunkHeader)
    requires
        lies_in(bytes@, (at, *h)),
    ensures
        strings_view(final(out)@) == strings_view(old(out)@) + chunk_warnings(bytes@, (at, *h)),
{
    let ghost before = strings_view(out@);
    if h.ty == 1 && h.param2 != 0 && h.param2 != 150 && h.param2 != 1000 {
        push_text(
            out,
            with_number("unexpected TPS ", h.param2 as u128, " in tempo chunk at byte ").concat(
                dec_string(at as u128).as_str(),
            ).concat(" (expected 150 or 1000)"),
        );
    } else if h.ty == 2 && h.param2 != 1 {
        push_text(
            out,
            with_number("events chunk at byte ", at as u128, " has param2=").concat(
                dec_string(h.param2 as u128).as_str(),
            ).concat(" (expected 1)"),
        );
    } else if h.ty == 4 || h.ty == 5 || h.ty == 9 || h.ty == 17 {
        push_text(
            out,
            with_number("dropping auxiliary chunk type ", h.ty as u128, " at byte ").concat(
                dec_string(at as u128).as_str(),
            ).concat(" (size ").concat(dec_string(h.length as u128).as_str()).concat(")"),
        );
    } else if h.ty == 20 {
        let len: usize = bytes.len();
        let body = slice_subrange(bytes, at + 12, at + h.length as usize);
        warn_mines(out, body, at, h);
    }
    assert(strings_view(out@) =~= before + chunk_warnings(bytes@, (at, *h)));
}

fn find_steps(list: &Vec<(usize, ChunkHeader)>, code: u16) -> (b: bool)
    ensures
        b == has_steps(list@, code, list@.len()),
{
    let mut n: usize = list.len();
    while n > 0
        invariant
            n <= list@.len(),
            has_steps(list@, code, list@.len()) == has_steps(list@, code, n as nat),
        decreases n,
    {
        if list[n - 1].1.ty == 3 && list[n - 1].1.param2 == code {
            return true;
        }
        n = n - 1;
    }
    false
}

fn mines_at(bytes: &[u8], at: usize, h: &ChunkHeader) -> (r: Option<(u16, usize)>)
    requires
        lies_in(bytes@, (at, *h)),
    ensures
        match mines_in(bytes@, (at, *h)) {
            Some((code, notes)) => r == Some((code, notes.len() as usize)) && notes.len()
                <= usize::MAX,
            None => r is None,
        },
{
    if h.ty != 20 {
        return None;
    }
    let len: usize = bytes.len();
    let body = slice_subrange(bytes, at + 12, at + h.length as usize);
    match parse_chunk(h, body, at) {
        Some((code, notes)) => Some((code, notes.len())),
        None => None,
    }
}

fn find_mines(bytes: &[u8], list: &Vec<(usize, ChunkHeader)>, code: u16, count: usize) -> (b: bool)
    requires
        count <= list@.len(),
        forall|i: int| 0 <= i < list@.len() ==> lies_in(bytes@, #[trigger] list@[i]),
    ensures
        b == has_mines(bytes@, list@, code, count as nat),
{
    let mut n: usize = count;
    while n > 0
        invariant
            n <= count <= list@.len(),
            forall|i: int| 0 <= i < list@.len() ==> lies_in(bytes@, #[trigger] list@[i]),
            has_mines(bytes@, list@, code, count as nat) == has_mines(
                bytes@,
                list@,
                code,
                n as nat,
            ),
        decreases n,
    {
        assert(lies_in(bytes@, list@[n - 1]));
        match mines_at(bytes, list[n - 1].0, &list[n - 1].1) {
            Some((c, _)) => if c == code {
                return true;
            },
            None => {},
        }
        n = n - 1;
    }
    false
}

fn list_chunks(bytes: &[u8]) -> (list: Vec<(usize, ChunkHeader)>)
    ensures
        list@ == chunk_list(bytes@, 0),
        forall|i: int| 0 <= i < list@.len() ==> lies_in(bytes@, #[trigger] list@[i]),
{
    let mut reader = LeReader::new(bytes);
    let mut list: Vec<(usize, ChunkHeader)> = Vec::new();
    assert(list@ + chunk_list(bytes@, 0) =~= chunk_list(bytes@, 0));
    loop
        invariant
            reader.bytes() == bytes@,
            reader.at() <= bytes@.len(),
            list@ + chunk_list(bytes@, reader.at() as int) == chunk_list(bytes@, 0),
            forall|i: int| 0 <= i < list@.len() ==> lies_in(bytes@, #[trigger] list@[i]),
        decreases bytes@.len() - reader.at(),
    {
        proof {
            use_type_invariant(&reader);
        }
        let ghost at = reader.at() as int;
        let ghost before = list@;
        let (offset, header) = match read_header(&mut reader) {
            Ok(Some(h)) => h,
            _ => {
                assert(list@ + chunk_list(bytes@, at) =~= list@);
                return list;
            },
        };
        let body_size: usize = header.body_size() as usize;
        match reader.read_bytes(body_size) {
            Ok(_) => {},
            Err(_) => {
                assert(list@ + chunk_list(bytes@, at) =~= list@);
                return list;
            },
        }
        list.push((offset, header));
        proof {
            let rest = chunk_list(bytes@, at + header.length);
            assert(chunk_list(bytes@, at) == seq![(offset, header)] + rest);
            assert(list@ + rest =~= before + chunk_list(bytes@, at));
        }
    }
}

/// Say what a stepfile holds that is dropped or mended: chunks and mine entries that
/// are left out, mines that stand for shocks, mines without a chart, and tick rates
/// and parameters out of the ordinary.
pub fn warnings(bytes: &[u8]) -> (out: Vec<String>)
    ensures
        strings_view(out@) == file_warnings(bytes@),
{
    let list = list_chunks(bytes);
    let mut out: Vec<String> = Vec::new();
    let mut i: usize = 0;
    assert(strings_view(out@) =~= chunks_warnings(bytes@, list@, 0));
    while i < list.len()
        invariant
            i <= list@.len(),
            forall|i: int| 0 <= i < list@.len() ==> lies_in(bytes@, #[trigger] list@[i]),
            strings_view(out@) == chunks_warnings(bytes@, list@, i as nat),
        decreases list@.len() - i,
    {
        assert(lies_in(bytes@, list@[i as int]));
        warn_chunk(&mut out, bytes, list[i].0, &list[i].1);
        i = i + 1;
    }
    let ghost first = strings_view(out@);
    let mut k: usize = 0;
    assert(first =~= first + pairing_warnings(bytes@, list@, 0));
    while k < list.len()
        invariant
            k <= list@.len(),
            forall|i: int| 0 <= i < list@.len() ==> lies_in(bytes@, #[trigger] list@[i]),
            strings_view(out@) == first + pairing_warnings(bytes@, list@, k as nat),
        decreases list@.len() - k,
    {
        assert(lies_in(bytes@, list@[k as int]));
        let ghost now = strings_view(out@);
        match mines_at(bytes, list[k].0, &list[k].1) {
            Some((code, count)) => {
                if !find_steps(&list, code) {
                    push_text(
                        &mut out,
                        "orphan mine chunk param2=0x".to_owned().concat(
                            fixed_string(code as u128, 16, 4).as_str(),
                        ).concat(": no step chunk with this difficulty code; discarding ").concat(
                            dec_string(count as u128).as_str(),
                        ).concat(" entries"),
                    );
                } else if find_mines(bytes, &list, code, k) {
                    push_text(
                        &mut out,
                        "duplicate mine chunk param2=0x".to_owned().concat(
                            fixed_string(code as u128, 16, 4).as_str(),
                        ).concat(": already attached a chunk to this chart; discarding ").concat(
                            dec_string(count as u128).as_str(),
                        ).concat(" entries from the subsequent chunk"),
                    );
                }
            },
            None => {},
        }
        k = k + 1;
        assert(strings_view(out@) =~= first + pairing_warnings(bytes@, list@, k as nat));
    }
    out
}

} // verus!

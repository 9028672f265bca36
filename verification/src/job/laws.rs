//! What holds of converted songs as a whole.

use super::audio::{
    ddr_audio_outcome, ddr_bits, has_xwb_magic, least, lemma_ddr_bits, passes_through, preview_of,
    song_bank,
};
use super::convert::sync_moved;
use super::se_bank::{lemma_se_bank_size, lemma_se_format, se_bank, se_outcome, SE_FORMAT_BITS};
use crate::model::rational::{
    add_value, lemma_lowest, lemma_lowest_of_same, lowest, q_add, q_fits, q_neg, sub_value,
};
use crate::model::{group_model_values, Rational};
use crate::ssq::mines::in_i32;
use crate::ssq::SsqView;
use crate::xwb::adpcm::encode::{block_count, encoded};
use crate::xwb::adpcm::round_trip::{heard_blocks, law_encode_then_decode};
use crate::xwb::audio_outcome;
use crate::xwb::container::{
    bank_file, bank_size, block_frames, block_size, channels_of, header_fault, WaveFormat, XwbError,
};
use crate::xwb::round_trip::{fitted_bank, law_write_then_parse};
use vstd::prelude::*;

verus! {

/// The sum of two counts of milliseconds, as seconds.
proof fn lemma_add_milliseconds(a: int, b: int)
    requires
        in_i32(a),
        in_i32(b),
    ensures
        add_value(lowest(a, 1000), lowest(b, 1000)) == Some(lowest(a + b, 1000)),
        q_fits(lowest(a + b, 1000)),
{
    lemma_lowest(a, 1000);
    lemma_lowest(b, 1000);
    lemma_lowest(a + b, 1000);
    let (an, ad) = lowest(a, 1000);
    let (bn, bd) = lowest(b, 1000);
    assert(0 < ad * bd <= 1_000_000) by (nonlinear_arith)
        requires
            0 < ad <= 1000,
            0 < bd <= 1000,
    ;
    assert(-0x8000_0000 * 1000 <= an * bd <= 0x8000_0000 * 1000) by (nonlinear_arith)
        requires
            -0x8000_0000 <= an <= 0x8000_0000,
            0 < bd <= 1000,
    ;
    assert(-0x8000_0000 * 1000 <= bn * ad <= 0x8000_0000 * 1000) by (nonlinear_arith)
        requires
            -0x8000_0000 <= bn <= 0x8000_0000,
            0 < ad <= 1000,
    ;
    assert((an * bd + bn * ad) * 1000 == (a + b) * (ad * bd)) by (nonlinear_arith)
        requires
            an * 1000 == a * ad,
            bn * 1000 == b * bd,
    ;
    lemma_lowest_of_same((an * bd + bn * ad, ad * bd), (a + b, 1000));
}

/// Whether the sync offset of a stepfile is the time of its first tempo entry.
pub open spec fn sync_agrees(v: SsqView) -> bool {
    v.raw_tempo_pairs.len() > 0 && v.audio_sync_offset_seconds == Rational::of(
        lowest(v.raw_tempo_pairs[0].1 as int, 1000),
    )
}

/// A sync offset adds its milliseconds to the time of the first tempo entry and
/// to the sync offset alike, and changes nothing else.
pub proof fn law_sync_offset_adds(v: SsqView, ms: i32)
    requires
        sync_agrees(v),
        in_i32(v.raw_tempo_pairs[0].1 + ms),
    ensures
        sync_moved(v, ms).raw_tempo_pairs == v.raw_tempo_pairs.update(
            0,
            (v.raw_tempo_pairs[0].0, (v.raw_tempo_pairs[0].1 + ms) as i32),
        ),
        sync_agrees(sync_moved(v, ms)),
        sync_moved(v, ms).charts == v.charts,
        sync_moved(v, ms).tempo_segments == v.tempo_segments,
        sync_moved(v, ms).stops == v.stops,
        sync_moved(v, ms).events == v.events,
{
    broadcast use group_model_values;

    let first = v.raw_tempo_pairs[0];
    lemma_add_milliseconds(first.1 as int, ms as int);
    lemma_lowest(first.1 as int, 1000);
    assert(sync_moved(v, 0).raw_tempo_pairs =~= v.raw_tempo_pairs.update(0, first));
}

/// Two sync offsets, one after the other, are their sum.
pub proof fn law_sync_offsets_add_up(v: SsqView, a: i32, b: i32)
    requires
        sync_agrees(v),
        in_i32(v.raw_tempo_pairs[0].1 + a),
        in_i32(a + b),
        in_i32(v.raw_tempo_pairs[0].1 + a + b),
    ensures
        sync_moved(sync_moved(v, a), b) == sync_moved(v, (a + b) as i32),
{
    law_sync_offset_adds(v, a);
    let mid = sync_moved(v, a);
    law_sync_offset_adds(mid, b);
    law_sync_offset_adds(v, (a + b) as i32);
    assert(sync_moved(mid, b) =~= sync_moved(v, (a + b) as i32));
}

/// The `#OFFSET` of the simfile is the negated time of the first tempo entry:
/// what a sync offset adds to the one it takes from the other.
pub proof fn law_offset_is_opposite(v: SsqView, ms: i32)
    requires
        sync_agrees(v),
        in_i32(v.raw_tempo_pairs[0].1 + ms),
    ensures
        sub_value((0, 1), sync_moved(v, ms).audio_sync_offset_seconds@) == Some(
            lowest(-(v.raw_tempo_pairs[0].1 + ms), 1000),
        ),
{
    broadcast use group_model_values;

    law_sync_offset_adds(v, ms);
    let t = v.raw_tempo_pairs[0].1 + ms;
    lemma_lowest(t, 1000);
    lemma_lowest(-t, 1000);
    let q = lowest(t, 1000);
    assert(sync_moved(v, ms).audio_sync_offset_seconds@ == q);
    let (n, d) = q;
    assert(0 * d + (-n) * 1 == -n && 1 * d == d);
    assert((-n) * 1000 == (-t) * d) by (nonlinear_arith)
        requires
            n * 1000 == t * d,
    ;
    lemma_lowest_of_same((-n, d), (-t, 1000));
    assert(q_add((0, 1), q_neg(q)) == lowest(-t, 1000));
}

/// A preview fills no more blocks than the song.
proof fn lemma_preview_blocks(audio: (Seq<i16>, u32, u16), start: int, length: int, bits: u32)
    requires
        start >= 0,
        length >= 0,
        audio.2 == 2,
        channels_of(bits) == 2,
        block_frames(bits) == 128,
        block_size(bits) == 140,
    ensures
        encoded(preview_of(audio, start, length), bits).len() <= encoded(audio.0, bits).len(),
{
    let p = preview_of(audio, start, length);
    let total = audio.0.len() as int / 2;
    let from = least(start, total);
    let to = least(from + length, total);
    assert(p.len() <= audio.0.len());
    law_encode_then_decode(p, bits);
    law_encode_then_decode(audio.0, bits);
    assert(block_count(p, bits) <= block_count(audio.0, bits));
}

/// The wave bank made for a song reads back as its audio, at its own sample rate
/// and in stereo, and would be used as it is if it were converted again.
pub proof fn law_song_audio_reads_back(
    audio: (Seq<i16>, u32, u16),
    start_frame: int,
    length_frames: int,
    code: Seq<char>,
)
    requires
        start_frame >= 0,
        length_frames >= 0,
        ddr_audio_outcome(audio, start_frame, length_frames, code) is Ok,
        bank_size(
            song_bank(
                code,
                WaveFormat::of(ddr_bits(audio.1)),
                encoded(audio.0, ddr_bits(audio.1)),
                encoded(preview_of(audio, start_frame, length_frames), ddr_bits(audio.1)),
            ),
        ) <= u32::MAX,
    ensures
        ({
            let xwb = (ddr_audio_outcome(audio, start_frame, length_frames, code)->Ok_0).0;
            &&& passes_through(xwb, true)
            &&& audio_outcome(xwb) == Ok::<(Seq<i16>, u32, u16), XwbError>(
                (
                    heard_blocks(
                        audio.0,
                        2,
                        128,
                        block_count(audio.0, ddr_bits(audio.1)) as nat,
                    ),
                    audio.1,
                    2,
                ),
            )
        }),
{
    broadcast use WaveFormat::lemma_of_view;

    let bits = ddr_bits(audio.1);
    let bank = song_bank(
        code,
        WaveFormat::of(bits),
        encoded(audio.0, bits),
        encoded(preview_of(audio, start_frame, length_frames), bits),
    );
    lemma_ddr_bits(audio.1);
    law_write_then_parse(bank);
    lemma_preview_blocks(audio, start_frame, length_frames, bits);
    law_encode_then_decode(audio.0, bits);
    let f = fitted_bank(bank);
    let xwb = bank_file(bank);
    assert(f.entries.len() == 2);
    assert(f.entries[1].data == encoded(audio.0, bits));
    assert(f.entries[0].format@ == bits && f.entries[1].format@ == bits);
    assert(crate::xwb::longest_entry(f.entries, 2) == 1) by {
        reveal_with_fuel(crate::xwb::longest_entry, 3);
    }
    assert(header_fault(xwb) is None);
    assert(has_xwb_magic(xwb));
}

/// The wave bank made for a sound effect reads back as its audio, mono at its
/// sample rate, padded to whole blocks.
pub proof fn law_sound_effect_reads_back(name: Seq<char>, audio: (Seq<i16>, u32, u16))
    requires
        se_outcome(name, audio) is Ok,
    ensures
        audio_outcome((se_outcome(name, audio)->Ok_0).xwb) == Ok::<(Seq<i16>, u32, u16), XwbError>(
            (
                heard_blocks(
                    audio.0,
                    1,
                    128,
                    (se_outcome(name, audio)->Ok_0).blocks as nat,
                ),
                44_100,
                1,
            ),
        ),
        audio.0.len() <= (se_outcome(name, audio)->Ok_0).total_samples < audio.0.len() + 128,
{
    broadcast use WaveFormat::lemma_of_view;

    let bank = se_bank(name, audio.0);
    lemma_se_format(audio.0);
    lemma_se_bank_size(bank);
    law_write_then_parse(bank);
    law_encode_then_decode(audio.0, SE_FORMAT_BITS);
    let f = fitted_bank(bank);
    assert(f.entries.len() == 1);
    assert(f.entries[0].data == encoded(audio.0, SE_FORMAT_BITS));
    assert(f.entries[0].format@ == SE_FORMAT_BITS);
    assert(crate::xwb::longest_entry(f.entries, 1) == 0);
}

} // verus!

//! What a song's wave bank holds: which part of the audio its preview is, and how its
//! two entries are described.

use super::audio::{
    accepted_rate, ddr_audio_outcome, ddr_audio_problem, ddr_bits, legacy_audio_outcome,
    lemma_ddr_bits, passes_through, preview_of, song_bank, song_entry,
};
use super::se_bank::{
    lemma_se_bank_size, lemma_se_format, se_bank, se_outcome, SeBankError, SE_FORMAT_BITS,
};
use super::JobError;
use crate::error::ErrorView;
use crate::wavm::wavm_outcome;
use crate::xsb::valid_code;
use crate::xwb::audio_outcome;
use crate::xwb::adpcm::encode::{block_count, encoded};
use crate::xwb::adpcm::round_trip::law_encode_then_decode;
use crate::xwb::container::{bank_size, xwb_outcome, EntryView, WaveFormat};
use crate::xwb::round_trip::{fitted_bank, fitted_entry, law_write_then_parse};
use vstd::prelude::*;

verus! {

/// A song is taken in stereo at 44100 or 48000 Hz; anything else is refused, and the
/// error says what was there. The rate is looked at first.
pub proof fn law_only_stereo_at_two_rates(rate: u32, channels: u16)
    ensures
        ddr_audio_problem(rate, channels) is None <==> channels == 2 && (rate == 44100 || rate
            == 48000),
        rate != 44100 && rate != 48000 ==> ddr_audio_problem(rate, channels) == Some(
            JobError::UnsupportedSampleRate { sample_rate: rate },
        ),
        (rate == 44100 || rate == 48000) && channels != 2 ==> ddr_audio_problem(rate, channels)
            == Some(JobError::WrongChannelCount { channels }),
{
}

/// A song's format is ADPCM in stereo at its own rate, 48 above the least block size.
pub proof fn law_song_format_fields(rate: u32)
    requires
        rate < 0x4_0000,
    ensures
        ddr_bits(rate) == 2 + 4 * 2 + 32 * rate + 0x80_0000 * 48,
{
    lemma_ddr_bits(rate);
}

/// The preview is the part of the song that starts at its first frame and is as long as
/// asked for, or ends where the song ends.
pub proof fn law_preview_is_cut_from_the_song(
    audio: (Seq<i16>, u32, u16),
    start: int,
    length: int,
    total: int,
    frame: int,
    c: int,
)
    requires
        audio.1 > 0,
        start >= 0,
        length >= 0,
        0 <= c < audio.2,
        audio.0.len() == total * audio.2,
    ensures
        ({
            let heard = preview_of(audio, start, length);
            &&& start >= total ==> heard.len() == 0
            &&& start < total && start + length <= total ==> heard.len() == length * audio.2
            &&& start < total && start + length > total ==> heard.len() == (total - start)
                * audio.2
            &&& 0 <= frame < length && start + frame < total ==> 0 <= frame * audio.2 + c
                < heard.len() && heard[frame * audio.2 + c] == audio.0[(start + frame) * audio.2
                + c]
        }),
{
    let ch = audio.2 as int;
    vstd::arithmetic::div_mod::lemma_div_multiples_vanish(total, ch);
    assert(total * ch == ch * total) by (nonlinear_arith);
    assert(total >= 0) by (nonlinear_arith)
        requires
            total * ch >= 0,
            ch > 0,
    ;
    let from = if start < total {
        start
    } else {
        total
    };
    let to = if from + length < total {
        from + length
    } else {
        total
    };
    assert(preview_of(audio, start, length) == audio.0.subrange(from * ch, to * ch));
    assert(0 <= from * ch <= to * ch <= total * ch && to * ch - from * ch == (to - from) * ch)
        by (nonlinear_arith)
        requires
            0 <= from <= to <= total,
            ch > 0,
    ;
    if 0 <= frame < length && start + frame < total {
        assert(0 <= frame * ch + c < (to - from) * ch && from * ch + (frame * ch + c) == (from
            + frame) * ch + c) by (nonlinear_arith)
            requires
                0 <= frame < to - from,
                0 <= c < ch,
        ;
    }
    if start >= total {
        assert((to - from) * ch == 0) by (nonlinear_arith)
            requires
                to == from,
        ;
    }
}

/// Whether an entry is described as whole blocks of 140 bytes that hold 128 frames each:
/// it lasts as many frames as its blocks hold, and loops from its first frame to its last.
pub open spec fn is_song_entry(e: EntryView, rate: u32, blocks: int) -> bool {
    &&& e.data.len() == 140 * blocks
    &&& e.format@ == ddr_bits(rate)
    &&& e.flags_and_duration == 16 * (128 * blocks)
    &&& e.loop_start == 0
    &&& blocks == 0 ==> e.loop_length == 0
    &&& blocks > 0 ==> e.loop_length == 128 * blocks - 1
}

proof fn lemma_duration(frames: int)
    requires
        0 <= frames < 0x1000_0000,
    ensures
        (frames as u32) << 4u32 == 16 * frames,
{
    let n = frames as u32;
    assert(n < 0x1000_0000 ==> n << 4u32 == 16 * n) by (bit_vector);
}

/// The description of one of a song's entries.
proof fn lemma_song_entry(name: Seq<char>, rate: u32, samples: Seq<i16>)
    requires
        accepted_rate(rate),
        samples.len() < 0x2000_0000 - 512,
    ensures
        is_song_entry(
            song_entry(name, WaveFormat::of(ddr_bits(rate)), encoded(samples, ddr_bits(rate))),
            rate,
            (samples.len() as int / 2 + 127) / 128,
        ),
{
    broadcast use WaveFormat::lemma_of_view;

    let bits = ddr_bits(rate);
    lemma_ddr_bits(rate);
    law_encode_then_decode(samples, bits);
    let n = block_count(samples, bits);
    assert(n == (samples.len() as int / 2 + 127) / 128);
    assert(encoded(samples, bits).len() == n * 140);
    assert(n * 140 / 140 == n);
    lemma_duration(128 * n);
}

/// A song's wave bank is read as two entries, the preview and then the song, each of as
/// many blocks of 128 frames as its samples need, aligned to 2048 bytes.
pub proof fn law_song_bank_is_preview_then_song(
    audio: (Seq<i16>, u32, u16),
    start: int,
    length: int,
    code: Seq<char>,
)
    requires
        ddr_audio_outcome(audio, start, length, code) is Ok,
        bank_size(
            song_bank(
                code,
                WaveFormat::of(ddr_bits(audio.1)),
                encoded(audio.0, ddr_bits(audio.1)),
                encoded(preview_of(audio, start, length), ddr_bits(audio.1)),
            ),
        ) <= u32::MAX,
        audio.0.len() < 0x2000_0000 - 512,
        preview_of(audio, start, length).len() <= audio.0.len(),
    ensures
        xwb_outcome((ddr_audio_outcome(audio, start, length, code)->Ok_0).0) matches Ok(bank) && {
            let heard = preview_of(audio, start, length);
            &&& bank.header_version == 42
            &&& bank.flags == 0x90001
            &&& bank.alignment == 2048
            &&& bank.entries.len() == 2
            &&& bank.entries[0].data == encoded(heard, ddr_bits(audio.1))
            &&& bank.entries[1].data == encoded(audio.0, ddr_bits(audio.1))
            &&& is_song_entry(bank.entries[0], audio.1, (heard.len() as int / 2 + 127) / 128)
            &&& is_song_entry(bank.entries[1], audio.1, (audio.0.len() as int / 2 + 127) / 128)
        },
{
    let bits = ddr_bits(audio.1);
    let heard = preview_of(audio, start, length);
    let bank = song_bank(code, WaveFormat::of(bits), encoded(audio.0, bits), encoded(heard, bits));
    law_write_then_parse(bank);
    lemma_song_entry(code + "_s"@, audio.1, heard);
    lemma_song_entry(code, audio.1, audio.0);
    let f = fitted_bank(bank);
    assert(f.entries[0] == fitted_entry(bank.entries[0], 64));
    assert(f.entries[1] == fitted_entry(bank.entries[1], 64));
}

/// A sound effect is taken in mono at 44100 Hz, and not empty; anything else is refused.
/// Its wave bank is read as one entry, of as many blocks of 128 frames as it needs, that
/// loops from its first frame over all of them.
pub proof fn law_sound_effect_bank_is_one_entry(name: Seq<char>, audio: (Seq<i16>, u32, u16))
    requires
        valid_code(name),
        audio.0.len() < 0x1000_0000 - 256,
    ensures
        audio.2 != 1 ==> se_outcome(name, audio) == Err::<super::se_bank::SeBankView, ErrorView>(
            ErrorView::SeBank(SeBankError::NotMono { channels: audio.2 }),
        ),
        audio.2 == 1 && audio.1 != 44100 ==> se_outcome(name, audio) == Err::<
            super::se_bank::SeBankView,
            ErrorView,
        >(ErrorView::SeBank(SeBankError::WrongSampleRate { sample_rate: audio.1 })),
        audio.2 == 1 && audio.1 == 44100 && audio.0.len() == 0 ==> se_outcome(name, audio) == Err::<
            super::se_bank::SeBankView,
            ErrorView,
        >(ErrorView::SeBank(SeBankError::NoAudio)),
        se_outcome(name, audio) matches Ok(se) ==> {
            let blocks = (audio.0.len() + 127) / 128;
            &&& audio.2 == 1
            &&& audio.1 == 44100
            &&& se.blocks == blocks
            &&& se.total_samples == 128 * blocks
            &&& se.source_samples == audio.0.len()
            &&& xwb_outcome(se.xwb) matches Ok(bank) && {
                let e = bank.entries[0];
                &&& bank.entries.len() == 1
                &&& bank.header_version == 42
                &&& bank.flags == 0x90000
                &&& bank.alignment == 4
                &&& e.data.len() == 70 * blocks
                &&& e.format@ == 2 + 4 * 1 + 32 * 44100 + 0x80_0000 * 48
                &&& e.flags_and_duration == 16 * (128 * blocks)
                &&& e.loop_start == 0
                &&& e.loop_length == 128 * blocks
            }
        },
{
    broadcast use WaveFormat::lemma_of_view;

    if se_outcome(name, audio) is Ok {
        let bank = se_bank(name, audio.0);
        lemma_se_format(audio.0);
        lemma_se_bank_size(bank);
        law_write_then_parse(bank);
        law_encode_then_decode(audio.0, SE_FORMAT_BITS);
        let f = fitted_bank(bank);
        assert(f.entries.len() == 1);
        assert(f.entries[0].data == encoded(audio.0, SE_FORMAT_BITS));
        let blocks = block_count(audio.0, SE_FORMAT_BITS);
        assert(blocks == (audio.0.len() as int + 127) / 128);
        lemma_duration(128 * blocks);
    }
}

/// A wave bank is used as it is where a sound bank stands beside it and it has two
/// entries in a song's format, at 44100 or 48000 Hz each.
pub proof fn law_ready_banks_pass_through(bytes: Seq<u8>, beside: bool)
    ensures
        passes_through(bytes, beside) ==> {
            &&& beside
            &&& bytes[0] == 0x57 && bytes[1] == 0x42 && bytes[2] == 0x4E && bytes[3] == 0x44
            &&& xwb_outcome(bytes) matches Ok(bank) && {
                &&& bank.entries.len() == 2
                &&& forall|i: int|
                    0 <= i < 2 ==> {
                        let bits = (#[trigger] bank.entries[i]).format@;
                        bits == 10 + 32 * 44100 + 0x80_0000 * 48 || bits == 10 + 32 * 48000
                            + 0x80_0000 * 48
                    }
            }
        },
        beside && (xwb_outcome(bytes) matches Ok(bank) && bank.entries.len() == 2 && (
        bank.entries[0].format@ == 10 + 32 * 44100 + 0x80_0000 * 48 || bank.entries[0].format@ == 10
            + 32 * 48000 + 0x80_0000 * 48) && (bank.entries[1].format@ == 10 + 32 * 44100
            + 0x80_0000 * 48 || bank.entries[1].format@ == 10 + 32 * 48000 + 0x80_0000 * 48))
            ==> passes_through(bytes, beside),
{
    law_song_format_fields(44100);
    law_song_format_fields(48000);
    if passes_through(bytes, beside) {
        assert(bytes.subrange(0, 4)[0] == bytes[0] && bytes.subrange(0, 4)[1] == bytes[1]
            && bytes.subrange(0, 4)[2] == bytes[2] && bytes.subrange(0, 4)[3] == bytes[3]);
    }
}

/// Legacy audio that starts with the mark of a wave bank is one, and its longest entry is
/// the song; any other is a WAVM file.
pub proof fn law_legacy_audio_goes_by_its_first_bytes(bytes: Seq<u8>)
    ensures
        ({
            let bank = bytes.len() >= 4 && bytes[0] == 0x57 && bytes[1] == 0x42 && bytes[2] == 0x4E
                && bytes[3] == 0x44;
            &&& bank ==> match audio_outcome(bytes) {
                Ok(audio) => legacy_audio_outcome(bytes) == Ok::<
                    (Seq<i16>, u32, u16),
                    ErrorView,
                >(audio),
                Err(e) => legacy_audio_outcome(bytes) == Err::<
                    (Seq<i16>, u32, u16),
                    ErrorView,
                >(ErrorView::Xwb(e)),
            }
            &&& !bank ==> match wavm_outcome(bytes) {
                Ok(audio) => legacy_audio_outcome(bytes) == Ok::<
                    (Seq<i16>, u32, u16),
                    ErrorView,
                >(audio),
                Err(e) => legacy_audio_outcome(bytes) == Err::<
                    (Seq<i16>, u32, u16),
                    ErrorView,
                >(ErrorView::Wavm(e)),
            }
        }),
{
    let mark = seq![0x57u8, 0x42u8, 0x4Eu8, 0x44u8];
    if bytes.len() >= 4 {
        let start = bytes.subrange(0, 4);
        assert(start[0] == bytes[0] && start[1] == bytes[1] && start[2] == bytes[2] && start[3]
            == bytes[3]);
        if bytes[0] == 0x57 && bytes[1] == 0x42 && bytes[2] == 0x4E && bytes[3] == 0x44 {
            assert(start =~= mark);
        } else {
            assert(mark[0] == 0x57 && mark[1] == 0x42 && mark[2] == 0x4E && mark[3] == 0x44);
        }
    }
}

} // verus!

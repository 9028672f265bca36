//! XWB (XACT Wave Bank) v43 container parse and write.
//!
//! Handles the binary container framing: WBND header, five-segment
//! layout, per-entry metadata with `WAVEBANKMINIWAVEFORMAT` bitfield
//! packing, and entry name tables. The `adpcm` submodule decodes
//! MS-ADPCM blocks to PCM and encodes PCM to them.

pub mod adpcm;
pub mod container;
pub mod dump;
pub mod laws;
pub mod round_trip;

pub use container::{WaveFormat, XwbBank, XwbEntry, XwbError};

use crate::model::audio::audio_view;
use crate::model::AudioBuffer;
use crate::xwb::adpcm::decode::decode_outcome;
use crate::xwb::container::{
    bank_file, bank_size, channels_of, entries_view, rate_of, xwb_outcome, BankView, EntryView,
};
use vstd::prelude::*;

verus! {

/// Parse an XWB file into a bank with raw audio data per entry.
pub fn parse(bytes: &[u8]) -> (r: Result<XwbBank, XwbError>)
    ensures
        match xwb_outcome(bytes@) {
            Ok(bank) => r is Ok && r->Ok_0@ == bank,
            Err(e) => r is Err && r->Err_0 == e,
        },
{
    container::parse(bytes)
}

/// Write an XWB file from a bank with raw audio data per entry, appended to
/// `out`.
pub fn write(bank: &XwbBank, out: &mut Vec<u8>) -> (r: Result<(), XwbError>)
    requires
        bank_size(bank@) <= usize::MAX,
    ensures
        r is Ok,
        final(out)@ == old(out)@ + bank_file(bank@),
{
    container::write(bank, out)
}

/// The entry with the most data among the first `n`, the last of them where
/// there are several.
pub open spec fn longest_entry(entries: Seq<EntryView>, n: nat) -> int
    decreases n,
{
    if n <= 1 {
        0
    } else {
        let best = longest_entry(entries, (n - 1) as nat);
        if entries[n - 1].data.len() >= entries[best].data.len() {
            n - 1
        } else {
            best
        }
    }
}

/// The PCM of a bank's main track.
pub open spec fn main_track(bank: BankView) -> Result<(Seq<i16>, u32, u16), XwbError> {
    if bank.entries.len() == 0 {
        Err(XwbError::NoEntries)
    } else {
        let entry = bank.entries[longest_entry(bank.entries, bank.entries.len())];
        match decode_outcome(entry.data, entry.format@) {
            Ok(samples) => Ok(
                (samples, rate_of(entry.format@) as u32, channels_of(entry.format@) as u16),
            ),
            Err(e) => Err(XwbError::Adpcm(e)),
        }
    }
}

/// What the audio of an XWB file is: samples, sample rate, channel count.
pub open spec fn audio_outcome(bytes: Seq<u8>) -> Result<(Seq<i16>, u32, u16), XwbError> {
    match xwb_outcome(bytes) {
        Err(e) => Err(e),
        Ok(bank) => main_track(bank),
    }
}

/// Parse an XWB file and decode the main (longest) entry to PCM.
///
/// The main track is selected by data length — the longest entry is
/// the full song, shorter entries are previews. This matches the
/// heuristic used by StepManiPaX rather than assuming entry order.
pub fn parse_audio(bytes: &[u8]) -> (r: Result<AudioBuffer, XwbError>)
    ensures
        match audio_outcome(bytes@) {
            Ok(audio) => r is Ok && audio_view(r->Ok_0) == audio,
            Err(e) => r is Err && r->Err_0 == e,
        },
{
    let bank = match container::parse(bytes) {
        Ok(b) => b,
        Err(e) => return Err(e),
    };
    if bank.entries.len() == 0 {
        return Err(XwbError::NoEntries);
    }
    let ghost views = entries_view(bank.entries@);
    let mut best: usize = 0;
    let mut i: usize = 1;
    while i < bank.entries.len()
        invariant
            1 <= i <= bank.entries@.len(),
            best < bank.entries@.len(),
            views == entries_view(bank.entries@),
            best == longest_entry(views, i as nat),
        decreases bank.entries@.len() - i,
    {
        assert(views[i as int].data == bank.entries@[i as int].data@);
        assert(views[best as int].data == bank.entries@[best as int].data@);
        if bank.entries[i].data.len() >= bank.entries[best].data.len() {
            best = i;
        }
        i = i + 1;
    }
    let entry = &bank.entries[best];
    assert(views[best as int] == entry@);
    match adpcm::decode::decode(entry.data.as_slice(), &entry.format) {
        Ok(samples) => Ok(
            AudioBuffer {
                samples,
                sample_rate: entry.format.sample_rate(),
                channels: entry.format.channels() as u16,
            },
        ),
        Err(e) => Err(XwbError::Adpcm(e)),
    }
}

} // verus!

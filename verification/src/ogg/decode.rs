//! OGG Vorbis decoder using `lewton` (pure Rust).

use crate::model::AudioBuffer;
use crate::ogg::pages::{is_sound_file, sound_file};
use crate::ogg::OggError;
use lewton::inside_ogg::OggStreamReader;
use std::io::Cursor;
use vstd::prelude::*;

verus! {

/// The audio packets of an Ogg Vorbis file that have not been read yet, with
/// the file's identification header. It holds a `lewton` `OggStreamReader`,
/// whose bounds on its source rule out a declaration of that type itself.
#[verifier::external_body]
pub struct PacketStream<'a> {
    reader: OggStreamReader<Cursor<&'a [u8]>>,
}

/// The channel count and sample rate in the identification header of an Ogg
/// Vorbis file: none if the file's headers cannot be read.
pub uninterp spec fn vorbis_header(bytes: Seq<u8>) -> Option<(u8, u32)>;

/// The file that a stream reads, and the number of packets that were asked for.
pub uninterp spec fn stream_at(stream: PacketStream<'_>) -> (Seq<u8>, nat);

/// What asking for packet `k` of a file gives: nothing where it cannot be decoded,
/// else the number of its samples, or none behind the last packet.
pub uninterp spec fn packet_shape(bytes: Seq<u8>, k: nat) -> Option<Option<nat>>;

/// Calls `lewton`'s `OggStreamReader::new` on the bytes. It reads the three
/// Vorbis headers and fails if it cannot. Whether it can, and the channel
/// count and sample rate it then finds, depend on the bytes alone; it rejects
/// a count or a rate of 0. The error's text is one of two. On a file that is not
/// sound it may fail to return: an ordered codebook may overflow its length
/// counter, and tables may be larger than memory.
#[verifier::external_body]
fn open_stream<'a>(bytes: &'a [u8]) -> (r: Result<(PacketStream<'a>, u8, u32), String>)
    requires
        sound_file(bytes@),
    ensures
        match vorbis_header(bytes@) {
            Some((channels, rate)) => r is Ok && (r->Ok_0).1 == channels && (r->Ok_0).2 == rate
                && channels > 0 && rate > 0 && stream_at((r->Ok_0).0) == (bytes@, 0nat),
            None => r is Err && (r->Err_0@ == "Vorbis bitstream header decode problem"@
                || r->Err_0@ == "Ogg decode problem"@),
        },
{
    let reader = OggStreamReader::new(Cursor::new(bytes)).map_err(|e| e.to_string())?;
    let channels = reader.ident_hdr.audio_channels;
    let rate = reader.ident_hdr.audio_sample_rate;
    Ok((PacketStream { reader }, channels, rate))
}

/// Calls `lewton`'s `OggStreamReader::read_dec_packet_itl`, which decodes the
/// next audio packet to interleaved samples, or gives none at the end of the
/// stream. Whether it can, and how many samples come out, depend on the file and
/// on how often it was asked alone. Decoding computes with floating-point
/// functions whose precision varies between machines, so nothing is said of the
/// values of the samples; the error's text is one of three. On a file that is not
/// sound it may index its tables out of bounds, overflow or run without end. So it
/// may once it has reported a problem: it would search on for another page, and read
/// behind it what was never tested. It is asked only while every packet came.
#[verifier::external_body]
fn read_packet<'a>(stream: &mut PacketStream<'a>) -> (r: Result<Option<Vec<i16>>, String>)
    requires
        sound_file(stream_at(*old(stream)).0),
        forall|j: nat|
            j < stream_at(*old(stream)).1 ==> (#[trigger] packet_shape(
                stream_at(*old(stream)).0,
                j,
            ) matches Some(Some(_))),
    ensures
        stream_at(*final(stream)) == (stream_at(*old(stream)).0, stream_at(*old(stream)).1 + 1),
        match packet_shape(stream_at(*old(stream)).0, stream_at(*old(stream)).1) {
            None => r is Err && decode_problem(r->Err_0@),
            Some(None) => r is Ok && r->Ok_0 is None,
            Some(Some(n)) => r is Ok && r->Ok_0 is Some && r->Ok_0->0@.len() == n,
        },
{
    stream.reader.read_dec_packet_itl().map_err(|e| e.to_string())
}

/// Whether a text is one of the descriptions of a decoding problem.
pub open spec fn decode_problem(text: Seq<char>) -> bool {
    text == "Vorbis bitstream audio decode problem"@ || text
        == "Vorbis bitstream header decode problem"@ || text == "Ogg decode problem"@
}

/// What a decoder replies when it is asked for a packet.
pub type Reply = Result<Option<Vec<i16>>, String>;

/// The samples that the replies from `k` on give behind `before`: those of every
/// packet, up to the end of the stream, or the first error.
pub open spec fn samples_of(replies: Seq<Reply>, k: int, before: Seq<i16>) -> Result<
    Seq<i16>,
    Seq<char>,
>
    decreases replies.len() - k,
{
    if k >= replies.len() {
        Ok(before)
    } else {
        match replies[k] {
            Err(text) => Err(text@),
            Ok(None) => Ok(before),
            Ok(Some(packet)) => samples_of(replies, k + 1, before + packet@),
        }
    }
}

/// Append the samples of a packet.
fn append_samples(samples: &mut Vec<i16>, packet: &Vec<i16>)
    ensures
        final(samples)@ == old(samples)@ + packet@,
{
    let ghost before = samples@;
    let mut k: usize = 0;
    assert(before =~= before + packet@.subrange(0, 0));
    while k < packet.len()
        invariant
            k <= packet@.len(),
            samples@ == before + packet@.subrange(0, k as int),
        decreases packet@.len() - k,
    {
        samples.push(packet[k]);
        k = k + 1;
        assert(packet@.subrange(0, k as int) =~= packet@.subrange(0, k - 1).push(packet@[k - 1]));
    }
    assert(packet@.subrange(0, k as int) =~= packet@);
}

/// Join what a decoder replied into one buffer: the samples of every packet as
/// they are, one packet after the other, up to the end of the stream. An error
/// before that is the outcome.
pub fn join_replies(replies: &Vec<Reply>, channels: u8, sample_rate: u32) -> (r: Result<
    AudioBuffer,
    OggError,
>)
    ensures
        match samples_of(replies@, 0, Seq::empty()) {
            Ok(samples) => r is Ok && r->Ok_0.samples@ == samples && r->Ok_0.sample_rate
                == sample_rate && r->Ok_0.channels == channels,
            Err(text) => r is Err && (r->Err_0 matches OggError::Decode(t) && t@ == text),
        },
{
    let mut samples: Vec<i16> = Vec::new();
    let mut k: usize = 0;
    assert(samples@ =~= Seq::empty());
    while k < replies.len()
        invariant
            k <= replies@.len(),
            samples_of(replies@, 0, Seq::empty()) == samples_of(replies@, k as int, samples@),
        decreases replies@.len() - k,
    {
        match &replies[k] {
            Ok(Some(packet)) => append_samples(&mut samples, packet),
            Ok(None) => {
                return Ok(AudioBuffer { samples, sample_rate, channels: channels as u16 });
            },
            Err(text) => {
                return Err(OggError::Decode(text.as_str().to_owned()));
            },
        }
        k = k + 1;
    }
    Ok(AudioBuffer { samples, sample_rate, channels: channels as u16 })
}

/// The number of samples in the packets of a file from packet `k` on, `left` of
/// them at most: nothing where one of them cannot be decoded.
pub open spec fn sample_count(bytes: Seq<u8>, k: nat, left: nat) -> Option<nat>
    decreases left,
{
    if left == 0 {
        Some(0)
    } else {
        match packet_shape(bytes, k) {
            None => None,
            Some(None) => Some(0),
            Some(Some(n)) => match sample_count(bytes, k + 1, (left - 1) as nat) {
                None => None,
                Some(m) => Some(n + m),
            },
        }
    }
}

/// Whether a file decodes, and to how many samples. A file has no more packets than
/// bytes: each takes up a byte at least, in a page's segment table.
pub open spec fn decoded_count(bytes: Seq<u8>) -> Option<nat> {
    if sound_file(bytes) && vorbis_header(bytes) is Some {
        sample_count(bytes, 0, bytes.len())
    } else {
        None
    }
}

/// Whether replies are those of the packets of a file before packet `k`, all of them
/// decoded, with `total` samples.
spec fn replies_match(replies: Seq<Reply>, bytes: Seq<u8>, k: nat, total: nat) -> bool
    decreases k,
{
    replies.len() == k && if k == 0 {
        total == 0
    } else {
        match replies.last() {
            Ok(Some(packet)) => packet_shape(bytes, (k - 1) as nat) == Some(
                Some(packet@.len() as nat),
            ) && packet@.len() <= total && replies_match(
                replies.drop_last(),
                bytes,
                (k - 1) as nat,
                (total - packet@.len()) as nat,
            ),
            _ => false,
        }
    }
}

/// Replies that are all packets are joined, and what follows them follows.
proof fn lemma_samples_of(replies: Seq<Reply>, bytes: Seq<u8>, k: nat, total: nat, more: Seq<Reply>)
    requires
        replies_match(replies, bytes, k, total),
    ensures
        exists|s: Seq<i16>| s.len() == total && #[trigger] samples_of(replies + more, 0, Seq::empty())
            == samples_of(replies + more, k as int, s),
    decreases k,
{
    if k == 0 {
        let s = Seq::<i16>::empty();
        assert(s.len() == total);
        assert(samples_of(replies + more, 0, Seq::empty()) == samples_of(replies + more, 0, s));
    } else {
        let packet = replies.last()->Ok_0->0@;
        let init = replies.drop_last();
        let next = seq![replies.last()] + more;
        lemma_samples_of(init, bytes, (k - 1) as nat, (total - packet.len()) as nat, next);
        assert(init + next =~= replies + more);
        let all = replies + more;
        let s = choose|s: Seq<i16>|
            s.len() == total - packet.len() && #[trigger] samples_of(all, 0, Seq::empty())
                == samples_of(all, k - 1, s);
        let t = s + packet;
        assert(all[k - 1] == replies.last());
        assert(samples_of(all, k - 1, s) == samples_of(all, k as int, t));
        assert(t.len() == total);
    }
}

/// Decode an OGG Vorbis file from raw bytes into PCM.
///
/// The samples come from the decoder as they are: see [`join_replies`] for what
/// becomes of each reply. A file that the decoder cannot be trusted with is refused
/// like one whose headers it cannot read.
pub fn decode(bytes: &[u8]) -> (r: Result<AudioBuffer, OggError>)
    ensures
        match decoded_count(bytes@) {
            Some(n) => r is Ok && r->Ok_0.samples@.len() == n && r->Ok_0.channels == (vorbis_header(
                bytes@,
            )->0).0 && r->Ok_0.sample_rate == (vorbis_header(bytes@)->0).1 && r->Ok_0.channels > 0
                && r->Ok_0.sample_rate > 0,
            None => r is Err && (r->Err_0 matches OggError::Decode(text) && decode_problem(text@)),
        },
        !sound_file(bytes@) ==> (r->Err_0 matches OggError::Decode(text) && text@
            == "Vorbis bitstream header decode problem"@),
{
    if !is_sound_file(bytes) {
        return Err(OggError::Decode("Vorbis bitstream header decode problem".to_owned()));
    }
    let (mut stream, channels, sample_rate) = match open_stream(bytes) {
        Ok(s) => s,
        Err(text) => return Err(OggError::Decode(text)),
    };
    let mut replies: Vec<Reply> = Vec::new();
    let mut left: usize = bytes.len();
    let ghost mut total: nat = 0;
    let ghost mut stopped = false;
    let ghost all = sample_count(bytes@, 0, bytes@.len());
    while left > 0
        invariant
            sound_file(bytes@),
            left <= bytes@.len(),
            all == sample_count(bytes@, 0, bytes@.len()),
            stream_at(stream).0 == bytes@,
            !stopped ==> forall|j: nat|
                j < stream_at(stream).1 ==> (#[trigger] packet_shape(bytes@, j) matches Some(
                    Some(_),
                )),
            !stopped ==> stream_at(stream).1 + left == bytes@.len() && replies_match(
                replies@,
                bytes@,
                stream_at(stream).1,
                total,
            ) && all == (match sample_count(bytes@, stream_at(stream).1, left as nat) {
                None => None::<nat>,
                Some(m) => Some(total + m),
            }),
            stopped ==> left == 0 && match all {
                Some(n) => samples_of(replies@, 0, Seq::empty()) is Ok && samples_of(
                    replies@,
                    0,
                    Seq::empty(),
                )->Ok_0.len() == n,
                None => samples_of(replies@, 0, Seq::empty()) is Err && decode_problem(
                    samples_of(replies@, 0, Seq::empty())->Err_0,
                ),
            },
        decreases left,
    {
        let ghost k = stream_at(stream).1;
        let ghost before = replies@;
        let reply = read_packet(&mut stream);
        let more = matches!(reply, Ok(Some(_)));
        replies.push(reply);
        if more {
            proof {
                let n = reply->Ok_0->0@.len();
                total = total + n;
                assert(replies@.drop_last() =~= before);
                assert(replies_match(replies@, bytes@, k + 1, total));
            }
            left = left - 1;
        } else {
            proof {
                stopped = true;
                lemma_samples_of(before, bytes@, k, total, seq![reply]);
                assert(before + seq![reply] =~= replies@);
                assert(replies@[k as int] == reply);
                let s = choose|s: Seq<i16>|
                    s.len() == total && #[trigger] samples_of(replies@, 0, Seq::empty())
                        == samples_of(replies@, k as int, s);
            }
            left = 0;
        }
    }
    proof {
        if !stopped {
            lemma_samples_of(replies@, bytes@, stream_at(stream).1, total, Seq::empty());
            assert(replies@ + Seq::<Reply>::empty() =~= replies@);
        }
    }
    join_replies(&replies, channels, sample_rate)
}

/// The samples of a file are those of its packets, one after the other, up to the end of
/// the stream; a packet that cannot be decoded fails the file.
pub proof fn law_packets_follow_each_other(
    replies: Seq<Reply>,
    packets: Seq<Seq<i16>>,
    k: int,
    before: Seq<i16>,
)
    requires
        0 <= k <= packets.len() < replies.len(),
        forall|j: int|
            k <= j < packets.len() ==> ((#[trigger] replies[j]) matches Ok(Some(p)) && p@
                == packets[j]),
    ensures
        replies[packets.len() as int] matches Ok(None) ==> samples_of(replies, k, before) == Ok::<
            Seq<i16>,
            Seq<char>,
        >(before + packets.skip(k).flatten()),
        replies[packets.len() as int] matches Err(text) ==> samples_of(replies, k, before) == Err::<
            Seq<i16>,
            Seq<char>,
        >(text@),
    decreases packets.len() - k,
{
    let rest = packets.skip(k);
    if k < packets.len() {
        law_packets_follow_each_other(replies, packets, k + 1, before + packets[k]);
        assert(rest.drop_first() =~= packets.skip(k + 1));
        assert(rest.first() == packets[k]);
        assert(rest.flatten() == rest.first() + rest.drop_first().flatten());
        assert(before + packets[k] + packets.skip(k + 1).flatten() =~= before + rest.flatten());
    } else {
        assert(rest.flatten() =~= Seq::empty());
        assert(before + rest.flatten() =~= before);
    }
}

} // verus!

//! What the header of a sound bank says, and which sounds a song and a sound effect have.

use crate::util::io::{bytes16, bytes32, le16};
use crate::xsb::laws::{law_crc_validates, lemma_header_tail_len};
use crate::xsb::{
    checked_part, crc_of, cue_bucket, cue_table, header_tail, name_hash, name_strings, se_view,
    song_view, sound_block, xsb_file, ProfileView, MAGIC, VERSION,
};
use vstd::prelude::*;

verus! {

/// A sound bank starts with its mark, its version twice, its checksum and no timestamp,
/// and then counts what it holds: the simple cues, 16 buckets for their names, one wave
/// bank, the sounds, and the bytes of the names.
pub proof fn law_header_counts(p: ProfileView, name: Seq<u8>)
    requires
        p.cues.len() <= 0xFFFF,
        p.sounds.len() <= 0xFFFF,
        name_strings(p, name, p.cues.len()).len() <= 0xFFFF,
    ensures
        ({
            let file = xsb_file(p, name);
            &&& file[0] == 'S' as u8 && file[1] == 'D' as u8 && file[2] == 'B' as u8 && file[3]
                == 'K' as u8
            &&& file[4] == 43 && file[5] == 0 && file[6] == 43 && file[7] == 0
            &&& forall|i: int| 0xA <= i < 0x12 ==> #[trigger] file[i] == 0
            &&& file[0x12] == 1
            &&& le16(file, 0x13) == p.cues.len()
            &&& le16(file, 0x15) == 0
            &&& le16(file, 0x17) == 0
            &&& le16(file, 0x19) == 16
            &&& file[0x1B] == 1
            &&& le16(file, 0x1C) == p.sounds.len()
            &&& le16(file, 0x1E) == name_strings(p, name, p.cues.len()).len()
            &&& le16(file, 0x20) == 0
        }),
{
    lemma_counts(p, name);
    lemma_front(p, name);
    lemma_in_file(p, name, 0);
    lemma_in_file(p, name, 1);
    lemma_in_file(p, name, 2);
    lemma_in_file(p, name, 3);
    lemma_in_file(p, name, 4);
    lemma_in_file(p, name, 5);
    lemma_in_file(p, name, 6);
    lemma_in_file(p, name, 7);
    lemma_in_file(p, name, 8);
    lemma_in_file(p, name, 9);
    lemma_in_file(p, name, 10);
    lemma_in_file(p, name, 11);
    lemma_in_file(p, name, 12);
    lemma_in_file(p, name, 13);
    lemma_in_file(p, name, 14);
    lemma_in_file(p, name, 15);
}

/// A byte of the header behind the timestamp, in the file.
proof fn lemma_in_file(p: ProfileView, name: Seq<u8>, i: int)
    requires
        0 <= i < 0x38,
    ensures
        xsb_file(p, name)[0x12 + i] == header_tail(p, name)[i],
{
    let file = xsb_file(p, name);
    let part = checked_part(p, name);
    law_crc_validates(p, name);
    lemma_header_tail_len(p, name);
    assert(part[i] == header_tail(p, name)[i]);
    assert(file.subrange(0x12, file.len() as int)[i] == file[0x12 + i]);
}

/// The bytes before the checked part.
proof fn lemma_front(p: ProfileView, name: Seq<u8>)
    ensures
        ({
            let file = xsb_file(p, name);
            &&& file[0] == 'S' as u8 && file[1] == 'D' as u8 && file[2] == 'B' as u8 && file[3]
                == 'K' as u8
            &&& file[4] == 43 && file[5] == 0 && file[6] == 43 && file[7] == 0
            &&& forall|i: int| 0xA <= i < 0x12 ==> #[trigger] file[i] == 0
        }),
{
    let file = xsb_file(p, name);
    let crc = bytes16(crc_of(checked_part(p, name)));
    let head = bytes32(MAGIC) + bytes16(VERSION) + bytes16(VERSION) + crc;
    let gap = Seq::new(8, |i: int| 0u8);
    let part = checked_part(p, name);
    assert(file == head + gap + part);
    assert(head.len() == 10);
    assert(forall|i: int| 0 <= i < 8 ==> #[trigger] file[i] == head[i]);
    assert(forall|i: int| 10 <= i < 18 ==> #[trigger] file[i] == gap[i - 10]);
}

/// The first fields of the header behind the timestamp.
proof fn lemma_counts(p: ProfileView, name: Seq<u8>)
    requires
        p.cues.len() <= 0xFFFF,
        p.sounds.len() <= 0xFFFF,
        name_strings(p, name, p.cues.len()).len() <= 0xFFFF,
    ensures
        ({
            let h = header_tail(p, name);
            &&& h[0] == 1
            &&& h[1] + 0x100 * h[2] == p.cues.len()
            &&& h[3] == 0 && h[4] == 0 && h[5] == 0 && h[6] == 0
            &&& h[7] == 16 && h[8] == 0
            &&& h[9] == 1
            &&& h[10] + 0x100 * h[11] == p.sounds.len()
            &&& h[12] + 0x100 * h[13] == name_strings(p, name, p.cues.len()).len()
            &&& h[14] == 0 && h[15] == 0
        }),
{
}

/// A song's bank has two sounds. The first plays its preview: it is complex, in category
/// 3. The second plays the song itself, the other wave: it is simple, in category 4. Each
/// says how many bytes it has and is played at volume 180. The cue of the preview has the
/// code of the song and `_s` for its name, and that of the song the code alone.
pub proof fn law_songs_have_two_sounds()
    ensures
        ({
            let p = song_view();
            let a = p.sounds[0];
            let b = p.sounds[1];
            &&& p.sounds.len() == 2
            &&& a.len() == 39 && a[7] == 39 && a[8] == 0
            &&& a[0] == 5 && a[1] == 3 && a[2] == 0 && a[3] == 180
            &&& b.len() == 19 && b[7] == 19 && b[8] == 0
            &&& b[0] == 4 && b[1] == 4 && b[2] == 0 && b[3] == 180
            &&& b[9] == 1 && b[10] == 0 && b[11] == 0
            &&& p.cues.len() == 2
            &&& p.cues[0] == (0int, seq!['_' as u8, 's' as u8])
            &&& p.cues[1].0 == 1
            &&& p.cues[1].1.len() == 0
        }),
{
    assert(seq!['_' as u8, 's' as u8] =~= seq![0x5Fu8, 0x73u8]);
}

/// A sound effect's bank has one sound, simple, in category 6, at volume 254, which plays
/// the only wave; its cue is named like the bank.
pub proof fn law_sound_effects_have_one_sound()
    ensures
        ({
            let p = se_view();
            let a = p.sounds[0];
            &&& p.sounds.len() == 1
            &&& a.len() == 12 && a[7] == 12 && a[8] == 0
            &&& a[0] == 0 && a[1] == 6 && a[2] == 0 && a[3] == 254
            &&& a[9] == 0 && a[10] == 0 && a[11] == 0
            &&& p.cues.len() == 1
            &&& p.cues[0].0 == 0
            &&& p.cues[0].1.len() == 0
        }),
{
}

/// A cue is found in the bucket of its name's hash, of which there are 16.
pub proof fn law_cues_are_found_by_their_hash(p: ProfileView, name: Seq<u8>, i: int)
    requires
        0 <= i < p.cues.len(),
    ensures
        ({
            let cue = name + p.cues[i].1;
            cue_bucket(p, name, i) == name_hash(cue, cue.len()) % 16
        }),
{
}

/// A cue is five bytes: its kind, and where its sound starts in the file.
pub proof fn law_cues_point_at_sounds(p: ProfileView, n: nat, i: int)
    requires
        0 <= i < n <= p.cues.len(),
        202 + sound_block(p, p.cues[i].0 as nat).len() <= u32::MAX,
    ensures
        cue_table(p, n).len() == 5 * n,
        cue_table(p, n)[5 * i] == 4,
        ({
            let t = cue_table(p, n);
            202 + sound_block(p, p.cues[i].0 as nat).len() == t[5 * i + 1] + 0x100 * t[5 * i + 2]
                + 0x1_0000 * t[5 * i + 3] + 0x100_0000 * t[5 * i + 4]
        }),
    decreases n,
{
    lemma_cue_table_len(p, (n - 1) as nat);
    lemma_cue_table_len(p, n);
    let before = cue_table(p, (n - 1) as nat);
    if i < n - 1 {
        law_cues_point_at_sounds(p, (n - 1) as nat, i);
        let t = cue_table(p, n);
        assert(t[5 * i] == before[5 * i] && t[5 * i + 1] == before[5 * i + 1] && t[5 * i + 2]
            == before[5 * i + 2] && t[5 * i + 3] == before[5 * i + 3] && t[5 * i + 4] == before[5 * i
            + 4]);
    }
}

proof fn lemma_cue_table_len(p: ProfileView, n: nat)
    ensures
        cue_table(p, n).len() == 5 * n,
    decreases n,
{
    if n > 0 {
        lemma_cue_table_len(p, (n - 1) as nat);
    }
}

} // verus!

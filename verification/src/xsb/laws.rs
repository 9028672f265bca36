//! What the engine finds in a written sound bank.

use crate::util::io::{bytes16, le16, sbytes32, sle32};
use crate::xsb::{
    checked_part, crc_of, cue_bucket, cue_start, cue_table, first_in_bucket, hash_start, hash_table,
    header_tail, index_start, name_field, name_index, name_strings, names_start, profile_ok,
    se_view, song_view, sound_block, sound_start, xsb_file, ProfileView,
};
use vstd::prelude::*;

verus! {

/// The CRC stored in a sound bank is the CRC of everything behind the
/// timestamp.
pub proof fn law_crc_validates(p: ProfileView, name: Seq<u8>)
    ensures
        ({
            let file = xsb_file(p, name);
            &&& file.len() >= 0x12
            &&& file.subrange(0x12, file.len() as int) == checked_part(p, name)
            &&& le16(file, 0x08) == crc_of(file.subrange(0x12, file.len() as int))
        }),
{
    let file = xsb_file(p, name);
    let part = checked_part(p, name);
    let crc = crc_of(part);
    assert(file.subrange(0x12, file.len() as int) =~= part);
    assert(file[8] == bytes16(crc)[0]);
    assert(file[9] == bytes16(crc)[1]);
}

proof fn lemma_table_lens(p: ProfileView, name: Seq<u8>, n: nat)
    ensures
        cue_table(p, n).len() == 5 * n,
        hash_table(p, name, n).len() == 2 * n,
        name_index(p, name, n).len() == 6 * n,
    decreases n,
{
    if n > 0 {
        lemma_table_lens(p, name, (n - 1) as nat);
    }
}

/// The header behind the timestamp is 56 bytes long.
pub proof fn lemma_header_tail_len(p: ProfileView, name: Seq<u8>)
    ensures
        header_tail(p, name).len() == 0x38,
{
}

/// Every section lies where the running cursor puts it, and the cue names run
/// exactly to the end of the file.
pub proof fn law_sections_follow_the_cursor(p: ProfileView, name: Seq<u8>)
    requires
        name.len() <= 16,
    ensures
        ({
            let file = xsb_file(p, name);
            let n = p.cues.len();
            &&& file.subrange(0x4A, 0x8A) == name_field(name)
            &&& file.subrange(0x8A, 0xCA) == name_field(name)
            &&& file.subrange(sound_start(), cue_start(p)) == sound_block(p, p.sounds.len())
            &&& file.subrange(cue_start(p), hash_start(p)) == cue_table(p, n)
            &&& file.subrange(hash_start(p), index_start(p)) == hash_table(p, name, 16)
            &&& file.subrange(index_start(p), names_start(p)) == name_index(p, name, n)
            &&& file.subrange(names_start(p), file.len() as int) == name_strings(p, name, n)
        }),
{
    let n = p.cues.len();
    lemma_table_lens(p, name, n);
    lemma_table_lens(p, name, 16);
    lemma_header_tail_len(p, name);
    let file = xsb_file(p, name);
    let part = checked_part(p, name);
    law_crc_validates(p, name);
    let h = header_tail(p, name);
    let f = name_field(name);
    let s = sound_block(p, p.sounds.len());
    let c = cue_table(p, n);
    let t = hash_table(p, name, 16);
    let x = name_index(p, name, n);
    let w = name_strings(p, name, n);
    assert(part == h + f + f + s + c + t + x + w);
    assert(part.subrange(0x38, 0x78) =~= f);
    assert(part.subrange(0x78, 0xB8) =~= f);
    assert(part.subrange(0xB8, cue_start(p) - 0x12) =~= s);
    assert(part.subrange(cue_start(p) - 0x12, hash_start(p) - 0x12) =~= c);
    assert(part.subrange(hash_start(p) - 0x12, index_start(p) - 0x12) =~= t);
    assert(part.subrange(index_start(p) - 0x12, names_start(p) - 0x12) =~= x);
    assert(part.subrange(names_start(p) - 0x12, part.len() as int) =~= w);
    lemma_shifted(file, part, 0x38, 0x78);
    lemma_shifted(file, part, 0x78, 0xB8);
    lemma_shifted(file, part, 0xB8, cue_start(p) - 0x12);
    lemma_shifted(file, part, cue_start(p) - 0x12, hash_start(p) - 0x12);
    lemma_shifted(file, part, hash_start(p) - 0x12, index_start(p) - 0x12);
    lemma_shifted(file, part, index_start(p) - 0x12, names_start(p) - 0x12);
    lemma_shifted(file, part, names_start(p) - 0x12, part.len() as int);
}

proof fn lemma_shifted(file: Seq<u8>, part: Seq<u8>, a: int, b: int)
    requires
        file.len() == part.len() + 0x12,
        file.subrange(0x12, file.len() as int) == part,
        0 <= a <= b <= part.len(),
    ensures
        file.subrange(a + 0x12, b + 0x12) == part.subrange(a, b),
{
    assert forall|i: int| 0 <= i < b - a implies file.subrange(a + 0x12, b + 0x12)[i]
        == part.subrange(a, b)[i] by {
        assert(part[a + i] == file.subrange(0x12, file.len() as int)[a + i]);
    }
    assert(file.subrange(a + 0x12, b + 0x12) =~= part.subrange(a, b));
}

proof fn lemma_sle32_of(b: Seq<u8>, at: int, v: i32)
    requires
        b[at] == sbytes32(v)[0],
        b[at + 1] == sbytes32(v)[1],
        b[at + 2] == sbytes32(v)[2],
        b[at + 3] == sbytes32(v)[3],
    ensures
        sle32(b, at) == v,
{
}

/// The header behind the timestamp, in the file.
proof fn lemma_header_in_file(p: ProfileView, name: Seq<u8>, at: int)
    requires
        0 <= at <= 0x34,
    ensures
        sle32(xsb_file(p, name), 0x12 + at) == sle32(header_tail(p, name), at),
{
    let file = xsb_file(p, name);
    let part = checked_part(p, name);
    let h = header_tail(p, name);
    law_crc_validates(p, name);
    lemma_header_tail_len(p, name);
    assert forall|i: int| 0 <= i < 0x38 implies file[0x12 + i] == #[trigger] h[i] by {
        assert(part[i] == h[i]);
        assert(file.subrange(0x12, file.len() as int)[i] == file[0x12 + i]);
    }
    assert(file[0x12 + at] == h[at]);
    assert(file[0x12 + at + 1] == h[at + 1]);
    assert(file[0x12 + at + 2] == h[at + 2]);
    assert(file[0x12 + at + 3] == h[at + 3]);
}

/// The section offsets in the file are where the sections lie.
pub proof fn law_header_points_at_sections(p: ProfileView, name: Seq<u8>)
    requires
        profile_ok(p),
        name.len() <= 16,
    ensures
        ({
            let file = xsb_file(p, name);
            &&& sle32(file, 0x22) == cue_start(p)
            &&& sle32(file, 0x2A) == names_start(p)
            &&& sle32(file, 0x3A) == 0x8A
            &&& sle32(file, 0x3E) == hash_start(p)
            &&& sle32(file, 0x42) == index_start(p)
            &&& sle32(file, 0x46) == sound_start()
        }),
{
    let h = header_tail(p, name);
    assert(names_start(p) <= i32::MAX) by {
        reveal_with_fuel(sound_block, 3);
    }
    lemma_sle32_of(h, 0x10, cue_start(p) as i32);
    lemma_sle32_of(h, 0x18, names_start(p) as i32);
    lemma_sle32_of(h, 0x28, 0x8A);
    lemma_sle32_of(h, 0x2C, hash_start(p) as i32);
    lemma_sle32_of(h, 0x30, index_start(p) as i32);
    lemma_sle32_of(h, 0x34, sound_start() as i32);
    lemma_header_in_file(p, name, 0x10);
    lemma_header_in_file(p, name, 0x18);
    lemma_header_in_file(p, name, 0x28);
    lemma_header_in_file(p, name, 0x2C);
    lemma_header_in_file(p, name, 0x30);
    lemma_header_in_file(p, name, 0x34);
}

proof fn lemma_name_strings_song(name: Seq<u8>)
    ensures
        name_strings(song_view(), name, 2) == name + seq![0x5Fu8, 0x73u8, 0u8] + name + seq![0u8],
        name_strings(se_view(), name, 1) == name + seq![0u8],
        sound_block(song_view(), 2).len() == 58,
        sound_block(se_view(), 1).len() == 12,
{
    reveal_with_fuel(name_strings, 3);
    reveal_with_fuel(sound_block, 3);
    assert(name_strings(song_view(), name, 2) =~= name + seq![0x5Fu8, 0x73u8, 0u8] + name + seq![
        0u8,
    ]);
    assert(name_strings(se_view(), name, 1) =~= name + seq![0u8]);
}

/// The size of a sound bank follows from the length of its name, and its cue
/// names are `{code}_s` and `{code}`, or the name alone.
pub proof fn law_sizes_and_names(name: Seq<u8>)
    requires
        name.len() <= 16,
    ensures
        xsb_file(song_view(), name).len() == 318 + 2 * name.len(),
        xsb_file(se_view(), name).len() == 0x101 + name.len() + 1,
        name_strings(song_view(), name, 2) == name + seq![0x5Fu8, 0x73u8, 0u8] + name + seq![0u8],
        name_strings(se_view(), name, 1) == name + seq![0u8],
{
    lemma_name_strings_song(name);
    lemma_table_lens(song_view(), name, 2);
    lemma_table_lens(song_view(), name, 16);
    lemma_table_lens(se_view(), name, 1);
    lemma_table_lens(se_view(), name, 16);
    lemma_header_tail_len(song_view(), name);
    lemma_header_tail_len(se_view(), name);
}

/// What `first_in_bucket` finds.
proof fn lemma_first_in_bucket(p: ProfileView, name: Seq<u8>, bucket: int, from: int)
    requires
        0 <= from,
        p.cues.len() < 0xFFFF,
    ensures
        ({
            let c = first_in_bucket(p, name, bucket, from);
            &&& c == 0xFFFF || (from <= c < p.cues.len() && cue_bucket(p, name, c as int) == bucket)
            &&& forall|k: int|
                from <= k < p.cues.len() && #[trigger] cue_bucket(p, name, k) == bucket ==> c <= k
        }),
    decreases p.cues.len() - from,
{
    if from < p.cues.len() && cue_bucket(p, name, from) != bucket {
        lemma_first_in_bucket(p, name, bucket, from + 1);
        let c = first_in_bucket(p, name, bucket, from);
        assert forall|k: int|
            from <= k < p.cues.len() && #[trigger] cue_bucket(p, name, k) == bucket implies c
            <= k by {
            assert(k >= from + 1);
        }
    }
}

/// The last cue before `i` in a bucket.
spec fn last_before(p: ProfileView, name: Seq<u8>, bucket: int, i: int) -> Option<int>
    decreases i,
{
    if i <= 0 {
        None
    } else if cue_bucket(p, name, i - 1) == bucket {
        Some(i - 1)
    } else {
        last_before(p, name, bucket, i - 1)
    }
}

proof fn lemma_last_before(p: ProfileView, name: Seq<u8>, bucket: int, i: int)
    requires
        0 <= i,
    ensures
        match last_before(p, name, bucket, i) {
            Some(j) => 0 <= j < i && cue_bucket(p, name, j) == bucket && forall|k: int|
                j < k < i ==> #[trigger] cue_bucket(p, name, k) != bucket,
            None => forall|k: int| 0 <= k < i ==> #[trigger] cue_bucket(p, name, k) != bucket,
        },
    decreases i,
{
    if i > 0 && cue_bucket(p, name, i - 1) != bucket {
        lemma_last_before(p, name, bucket, i - 1);
    }
}

/// Every cue can be found by its name: it is the first of its bucket's chain,
/// or the next in it after an earlier cue of the same bucket.
pub proof fn law_every_cue_is_reachable(p: ProfileView, name: Seq<u8>, i: int)
    requires
        0 <= i < p.cues.len() < 0xFFFF,
    ensures
        first_in_bucket(p, name, cue_bucket(p, name, i), 0) == i || exists|j: int|
            0 <= j < i && #[trigger] cue_bucket(p, name, j) == cue_bucket(p, name, i)
                && first_in_bucket(p, name, cue_bucket(p, name, i), j + 1) == i,
{
    let b = cue_bucket(p, name, i);
    lemma_last_before(p, name, b, i);
    match last_before(p, name, b, i) {
        Some(j) => {
            lemma_first_in_bucket(p, name, b, j + 1);
            assert(cue_bucket(p, name, j) == b);
            let c = first_in_bucket(p, name, b, j + 1);
            assert(c <= i);
            assert(c == i);
        },
        None => {
            lemma_first_in_bucket(p, name, b, 0);
        },
    }
}

} // verus!

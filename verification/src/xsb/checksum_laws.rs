//! What the checksum and the name hash of a sound bank are.

use crate::xsb::{crc_after, crc_of, name_hash, CRC_TABLE};
use vstd::prelude::*;

verus! {

/// A checksum register moved on by one bit: what falls out on the right is fed back
/// by the reflected CCITT polynomial.
pub open spec fn crc_shifted(c: u16) -> u16 {
    if c & 1 == 1 {
        (c >> 1) ^ 0x8408
    } else {
        c >> 1
    }
}

/// A checksum register moved on by some bits.
pub open spec fn crc_moved(c: u16, bits: nat) -> u16
    decreases bits,
{
    if bits == 0 {
        c
    } else {
        crc_shifted(crc_moved(c, (bits - 1) as nat))
    }
}

proof fn lemma_moved(c: u16)
    ensures
        crc_moved(c, 8) == ((c ^ (c << 4)) & 0xFF) << 8 ^ ((c ^ (c << 4)) & 0xFF) << 3 ^ ((c ^ (c
            << 4)) & 0xFF) >> 4 ^ c >> 8,
{
    reveal_with_fuel(crc_moved, 9);
    let c1 = crc_shifted(c);
    let c2 = crc_shifted(c1);
    let c3 = crc_shifted(c2);
    let c4 = crc_shifted(c3);
    let c5 = crc_shifted(c4);
    let c6 = crc_shifted(c5);
    let c7 = crc_shifted(c6);
    let c8 = crc_shifted(c7);
    assert(c8 == ((c ^ (c << 4)) & 0xFF) << 8 ^ ((c ^ (c << 4)) & 0xFF) << 3 ^ ((c ^ (c << 4))
        & 0xFF) >> 4 ^ c >> 8) by (bit_vector)
        requires
            c1 == if c & 1 == 1 { (c >> 1) ^ 0x8408 } else { c >> 1 },
            c2 == if c1 & 1 == 1 { (c1 >> 1) ^ 0x8408 } else { c1 >> 1 },
            c3 == if c2 & 1 == 1 { (c2 >> 1) ^ 0x8408 } else { c2 >> 1 },
            c4 == if c3 & 1 == 1 { (c3 >> 1) ^ 0x8408 } else { c3 >> 1 },
            c5 == if c4 & 1 == 1 { (c4 >> 1) ^ 0x8408 } else { c4 >> 1 },
            c6 == if c5 & 1 == 1 { (c5 >> 1) ^ 0x8408 } else { c5 >> 1 },
            c7 == if c6 & 1 == 1 { (c6 >> 1) ^ 0x8408 } else { c6 >> 1 },
            c8 == if c7 & 1 == 1 { (c7 >> 1) ^ 0x8408 } else { c7 >> 1 },
    ;
}

proof fn lemma_table_low(i: u16)
    requires
        0 <= i < 128,
    ensures
        CRC_TABLE[i as int] == ((i ^ (i << 4)) & 0xFF) << 8 ^ ((i ^ (i << 4)) & 0xFF) << 3 ^ ((i ^ (i << 4))
            & 0xFF) >> 4 ^ i >> 8,
{
    let t = CRC_TABLE[i as int];
    assert(t == ((i ^ (i << 4)) & 0xFF) << 8 ^ ((i ^ (i << 4)) & 0xFF) << 3 ^ ((i ^ (i << 4))
            & 0xFF) >> 4 ^ i >> 8)
        by (bit_vector)
        requires
            (i == 0 && t == 0x0000) || (i == 1 && t == 0x1189) || (i == 2 && t == 0x2312) ||
                (i == 3 && t == 0x329b) || (i == 4 && t == 0x4624) || (i == 5 && t == 0x57ad) ||
                (i == 6 && t == 0x6536) || (i == 7 && t == 0x74bf) || (i == 8 && t == 0x8c48) ||
                (i == 9 && t == 0x9dc1) || (i == 10 && t == 0xaf5a) || (i == 11 && t == 0xbed3) ||
                (i == 12 && t == 0xca6c) || (i == 13 && t == 0xdbe5) ||
                (i == 14 && t == 0xe97e) || (i == 15 && t == 0xf8f7) ||
                (i == 16 && t == 0x1081) || (i == 17 && t == 0x0108) ||
                (i == 18 && t == 0x3393) || (i == 19 && t == 0x221a) ||
                (i == 20 && t == 0x56a5) || (i == 21 && t == 0x472c) ||
                (i == 22 && t == 0x75b7) || (i == 23 && t == 0x643e) ||
                (i == 24 && t == 0x9cc9) || (i == 25 && t == 0x8d40) ||
                (i == 26 && t == 0xbfdb) || (i == 27 && t == 0xae52) ||
                (i == 28 && t == 0xdaed) || (i == 29 && t == 0xcb64) ||
                (i == 30 && t == 0xf9ff) || (i == 31 && t == 0xe876) ||
                (i == 32 && t == 0x2102) || (i == 33 && t == 0x308b) ||
                (i == 34 && t == 0x0210) || (i == 35 && t == 0x1399) ||
                (i == 36 && t == 0x6726) || (i == 37 && t == 0x76af) ||
                (i == 38 && t == 0x4434) || (i == 39 && t == 0x55bd) ||
                (i == 40 && t == 0xad4a) || (i == 41 && t == 0xbcc3) ||
                (i == 42 && t == 0x8e58) || (i == 43 && t == 0x9fd1) ||
                (i == 44 && t == 0xeb6e) || (i == 45 && t == 0xfae7) ||
                (i == 46 && t == 0xc87c) || (i == 47 && t == 0xd9f5) ||
                (i == 48 && t == 0x3183) || (i == 49 && t == 0x200a) ||
                (i == 50 && t == 0x1291) || (i == 51 && t == 0x0318) ||
                (i == 52 && t == 0x77a7) || (i == 53 && t == 0x662e) ||
                (i == 54 && t == 0x54b5) || (i == 55 && t == 0x453c) ||
                (i == 56 && t == 0xbdcb) || (i == 57 && t == 0xac42) ||
                (i == 58 && t == 0x9ed9) || (i == 59 && t == 0x8f50) ||
                (i == 60 && t == 0xfbef) || (i == 61 && t == 0xea66) ||
                (i == 62 && t == 0xd8fd) || (i == 63 && t == 0xc974) ||
                (i == 64 && t == 0x4204) || (i == 65 && t == 0x538d) ||
                (i == 66 && t == 0x6116) || (i == 67 && t == 0x709f) ||
                (i == 68 && t == 0x0420) || (i == 69 && t == 0x15a9) ||
                (i == 70 && t == 0x2732) || (i == 71 && t == 0x36bb) ||
                (i == 72 && t == 0xce4c) || (i == 73 && t == 0xdfc5) ||
                (i == 74 && t == 0xed5e) || (i == 75 && t == 0xfcd7) ||
                (i == 76 && t == 0x8868) || (i == 77 && t == 0x99e1) ||
                (i == 78 && t == 0xab7a) || (i == 79 && t == 0xbaf3) ||
                (i == 80 && t == 0x5285) || (i == 81 && t == 0x430c) ||
                (i == 82 && t == 0x7197) || (i == 83 && t == 0x601e) ||
                (i == 84 && t == 0x14a1) || (i == 85 && t == 0x0528) ||
                (i == 86 && t == 0x37b3) || (i == 87 && t == 0x263a) ||
                (i == 88 && t == 0xdecd) || (i == 89 && t == 0xcf44) ||
                (i == 90 && t == 0xfddf) || (i == 91 && t == 0xec56) ||
                (i == 92 && t == 0x98e9) || (i == 93 && t == 0x8960) ||
                (i == 94 && t == 0xbbfb) || (i == 95 && t == 0xaa72) ||
                (i == 96 && t == 0x6306) || (i == 97 && t == 0x728f) ||
                (i == 98 && t == 0x4014) || (i == 99 && t == 0x519d) ||
                (i == 100 && t == 0x2522) || (i == 101 && t == 0x34ab) ||
                (i == 102 && t == 0x0630) || (i == 103 && t == 0x17b9) ||
                (i == 104 && t == 0xef4e) || (i == 105 && t == 0xfec7) ||
                (i == 106 && t == 0xcc5c) || (i == 107 && t == 0xddd5) ||
                (i == 108 && t == 0xa96a) || (i == 109 && t == 0xb8e3) ||
                (i == 110 && t == 0x8a78) || (i == 111 && t == 0x9bf1) ||
                (i == 112 && t == 0x7387) || (i == 113 && t == 0x620e) ||
                (i == 114 && t == 0x5095) || (i == 115 && t == 0x411c) ||
                (i == 116 && t == 0x35a3) || (i == 117 && t == 0x242a) ||
                (i == 118 && t == 0x16b1) || (i == 119 && t == 0x0738) ||
                (i == 120 && t == 0xffcf) || (i == 121 && t == 0xee46) ||
                (i == 122 && t == 0xdcdd) || (i == 123 && t == 0xcd54) ||
                (i == 124 && t == 0xb9eb) || (i == 125 && t == 0xa862) ||
                (i == 126 && t == 0x9af9) || (i == 127 && t == 0x8b70),
    ;
}

proof fn lemma_table_high(i: u16)
    requires
        128 <= i < 256,
    ensures
        CRC_TABLE[i as int] == ((i ^ (i << 4)) & 0xFF) << 8 ^ ((i ^ (i << 4)) & 0xFF) << 3 ^ ((i ^ (i << 4))
            & 0xFF) >> 4 ^ i >> 8,
{
    let t = CRC_TABLE[i as int];
    assert(t == ((i ^ (i << 4)) & 0xFF) << 8 ^ ((i ^ (i << 4)) & 0xFF) << 3 ^ ((i ^ (i << 4))
            & 0xFF) >> 4 ^ i >> 8)
        by (bit_vector)
        requires
            (i == 128 && t == 0x8408) || (i == 129 && t == 0x9581) || (i == 130 && t == 0xa71a) ||
                (i == 131 && t == 0xb693) || (i == 132 && t == 0xc22c) ||
                (i == 133 && t == 0xd3a5) || (i == 134 && t == 0xe13e) ||
                (i == 135 && t == 0xf0b7) || (i == 136 && t == 0x0840) ||
                (i == 137 && t == 0x19c9) || (i == 138 && t == 0x2b52) ||
                (i == 139 && t == 0x3adb) || (i == 140 && t == 0x4e64) ||
                (i == 141 && t == 0x5fed) || (i == 142 && t == 0x6d76) ||
                (i == 143 && t == 0x7cff) || (i == 144 && t == 0x9489) ||
                (i == 145 && t == 0x8500) || (i == 146 && t == 0xb79b) ||
                (i == 147 && t == 0xa612) || (i == 148 && t == 0xd2ad) ||
                (i == 149 && t == 0xc324) || (i == 150 && t == 0xf1bf) ||
                (i == 151 && t == 0xe036) || (i == 152 && t == 0x18c1) ||
                (i == 153 && t == 0x0948) || (i == 154 && t == 0x3bd3) ||
                (i == 155 && t == 0x2a5a) || (i == 156 && t == 0x5ee5) ||
                (i == 157 && t == 0x4f6c) || (i == 158 && t == 0x7df7) ||
                (i == 159 && t == 0x6c7e) || (i == 160 && t == 0xa50a) ||
                (i == 161 && t == 0xb483) || (i == 162 && t == 0x8618) ||
                (i == 163 && t == 0x9791) || (i == 164 && t == 0xe32e) ||
                (i == 165 && t == 0xf2a7) || (i == 166 && t == 0xc03c) ||
                (i == 167 && t == 0xd1b5) || (i == 168 && t == 0x2942) ||
                (i == 169 && t == 0x38cb) || (i == 170 && t == 0x0a50) ||
                (i == 171 && t == 0x1bd9) || (i == 172 && t == 0x6f66) ||
                (i == 173 && t == 0x7eef) || (i == 174 && t == 0x4c74) ||
                (i == 175 && t == 0x5dfd) || (i == 176 && t == 0xb58b) ||
                (i == 177 && t == 0xa402) || (i == 178 && t == 0x9699) ||
                (i == 179 && t == 0x8710) || (i == 180 && t == 0xf3af) ||
                (i == 181 && t == 0xe226) || (i == 182 && t == 0xd0bd) ||
                (i == 183 && t == 0xc134) || (i == 184 && t == 0x39c3) ||
                (i == 185 && t == 0x284a) || (i == 186 && t == 0x1ad1) ||
                (i == 187 && t == 0x0b58) || (i == 188 && t == 0x7fe7) ||
                (i == 189 && t == 0x6e6e) || (i == 190 && t == 0x5cf5) ||
                (i == 191 && t == 0x4d7c) || (i == 192 && t == 0xc60c) ||
                (i == 193 && t == 0xd785) || (i == 194 && t == 0xe51e) ||
                (i == 195 && t == 0xf497) || (i == 196 && t == 0x8028) ||
                (i == 197 && t == 0x91a1) || (i == 198 && t == 0xa33a) ||
                (i == 199 && t == 0xb2b3) || (i == 200 && t == 0x4a44) ||
                (i == 201 && t == 0x5bcd) || (i == 202 && t == 0x6956) ||
                (i == 203 && t == 0x78df) || (i == 204 && t == 0x0c60) ||
                (i == 205 && t == 0x1de9) || (i == 206 && t == 0x2f72) ||
                (i == 207 && t == 0x3efb) || (i == 208 && t == 0xd68d) ||
                (i == 209 && t == 0xc704) || (i == 210 && t == 0xf59f) ||
                (i == 211 && t == 0xe416) || (i == 212 && t == 0x90a9) ||
                (i == 213 && t == 0x8120) || (i == 214 && t == 0xb3bb) ||
                (i == 215 && t == 0xa232) || (i == 216 && t == 0x5ac5) ||
                (i == 217 && t == 0x4b4c) || (i == 218 && t == 0x79d7) ||
                (i == 219 && t == 0x685e) || (i == 220 && t == 0x1ce1) ||
                (i == 221 && t == 0x0d68) || (i == 222 && t == 0x3ff3) ||
                (i == 223 && t == 0x2e7a) || (i == 224 && t == 0xe70e) ||
                (i == 225 && t == 0xf687) || (i == 226 && t == 0xc41c) ||
                (i == 227 && t == 0xd595) || (i == 228 && t == 0xa12a) ||
                (i == 229 && t == 0xb0a3) || (i == 230 && t == 0x8238) ||
                (i == 231 && t == 0x93b1) || (i == 232 && t == 0x6b46) ||
                (i == 233 && t == 0x7acf) || (i == 234 && t == 0x4854) ||
                (i == 235 && t == 0x59dd) || (i == 236 && t == 0x2d62) ||
                (i == 237 && t == 0x3ceb) || (i == 238 && t == 0x0e70) ||
                (i == 239 && t == 0x1ff9) || (i == 240 && t == 0xf78f) ||
                (i == 241 && t == 0xe606) || (i == 242 && t == 0xd49d) ||
                (i == 243 && t == 0xc514) || (i == 244 && t == 0xb1ab) ||
                (i == 245 && t == 0xa022) || (i == 246 && t == 0x92b9) ||
                (i == 247 && t == 0x8330) || (i == 248 && t == 0x7bc7) ||
                (i == 249 && t == 0x6a4e) || (i == 250 && t == 0x58d5) ||
                (i == 251 && t == 0x495c) || (i == 252 && t == 0x3de3) ||
                (i == 253 && t == 0x2c6a) || (i == 254 && t == 0x1ef1) ||
                (i == 255 && t == 0x0f78),
    ;
}

/// The table holds what eight bits make of each byte.
pub proof fn law_crc_table_is_of_the_polynomial(byte: u8)
    ensures
        CRC_TABLE[byte as int] == crc_moved(byte as u16, 8),
{
    let i = byte as u16;
    lemma_moved(i);
    if i < 128 {
        lemma_table_low(i);
    } else {
        lemma_table_high(i);
    }
}

/// The checksum takes in one byte after the other: the register starts with all bits
/// set, takes each byte into its low half and moves on by eight bits, and is
/// complemented at the end.
pub proof fn law_crc_takes_bytes_in_turn(data: Seq<u8>, n: nat)
    requires
        n < data.len(),
    ensures
        crc_after(data, 0) == 0xFFFF,
        crc_after(data, n + 1) == crc_moved(crc_after(data, n) ^ (data[n as int] as u16), 8),
        crc_of(data) + crc_after(data, data.len()) == 0xFFFF,
{
    let c = crc_after(data, n);
    let d = data[n as int] as u16;
    let low = (d ^ c) % 0x100;
    law_crc_table_is_of_the_polynomial(low as u8);
    lemma_moved(low);
    lemma_moved(c ^ d);
    let x = c ^ d;
    assert(d < 0x100 && low == (d ^ c) % 0x100 && x == c ^ d ==> (((low ^ (low << 4)) & 0xFF) << 8
        ^ ((low ^ (low << 4)) & 0xFF) << 3 ^ ((low ^ (low << 4)) & 0xFF) >> 4 ^ low >> 8) ^ (c
        / 0x100) == ((x ^ (x << 4)) & 0xFF) << 8 ^ ((x ^ (x << 4)) & 0xFF) << 3 ^ ((x ^ (x << 4))
        & 0xFF) >> 4 ^ x >> 8) by (bit_vector);
}

/// The hash of a name with one more character is three and a half times that of the
/// name, rounded down, and the character, in 16 bits.
pub proof fn law_name_hash_grows(name: Seq<u8>, n: nat)
    requires
        n < name.len(),
    ensures
        name_hash(name, 0) == 0,
        0 <= name_hash(name, n) < 0x1_0000,
        name_hash(name, n + 1) == (7 * name_hash(name, n) / 2 + name[n as int]) % 0x1_0000,
{
}

} // verus!

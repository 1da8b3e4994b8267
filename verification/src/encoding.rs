//! Lead-byte layout and the two compact integer encodings of the trie format.
//!
//! A serialized trie is a stream of nodes. The first byte of a node, its lead
//! byte, tells the kind of the node:
//!
//! * `0x00..=0x0f`: a branch node,
//! * `0x10..=0x1f`: a linear-match node that matches 1 to 16 bytes,
//! * `0x20..=0xff`: a value, whose lowest bit tells whether the key ends here.
//!
//! Values and jump deltas are stored in one to five bytes. The lead byte of
//! such an integer tells its width, so no length field is needed.

use vstd::prelude::*;

verus! {

/// A branch with at most this many edges is stored as a list and searched
/// linearly; a longer one is split on its middle byte.
pub const MAX_BRANCH_LINEAR_SUB_NODE_LENGTH: usize = 5;

/// The smallest lead byte of a linear-match node.
pub const MIN_LINEAR_MATCH: u8 = 0x10;

/// The greatest number of bytes that one linear-match node matches.
pub const MAX_LINEAR_MATCH_LENGTH: usize = 0x10;

/// The smallest lead byte of a value.
pub const MIN_VALUE_LEAD: u8 = 0x20;

/// A value lead byte with this bit set ends its key.
pub const VALUE_IS_FINAL: u8 = 0x1;

/// The integer that four big-endian bytes hold in two's complement.
pub open spec fn be32(b1: u8, b2: u8, b3: u8, b4: u8) -> int {
    let u = b1 as int * 0x100_0000 + b2 as int * 0x1_0000 + b3 as int * 0x100 + b4 as int;
    if u >= 0x8000_0000 {
        u - 0x1_0000_0000
    } else {
        u
    }
}

/// The unsigned 32-bit pattern of `v` in two's complement.
pub open spec fn bits32(v: int) -> int {
    if v < 0 {
        v + 0x1_0000_0000
    } else {
        v
    }
}

/// Tells whether a value lead byte marks a final value.
pub open spec fn spec_is_final(lead: u8) -> bool {
    lead % 2 == 1
}

/// The number of bytes that a value with the lead byte `lead` occupies.
pub open spec fn value_width(lead: u8) -> int {
    if lead < 0xa2 {
        1
    } else if lead < 0xd8 {
        2
    } else if lead < 0xfc {
        3
    } else if lead < 0xfe {
        4
    } else {
        5
    }
}

/// The value that the bytes at the start of `s` encode. `s` holds at least
/// `value_width(s[0])` bytes and `s[0]` is a value lead byte.
pub open spec fn value_of(s: Seq<u8>) -> int
    recommends
        s.len() >= 1,
        s.len() >= value_width(s[0]),
{
    let lead = s[0] as int / 2;
    if lead < 0x51 {
        lead - 0x10
    } else if lead < 0x6c {
        (lead - 0x51) * 0x100 + s[1] as int
    } else if lead < 0x7e {
        (lead - 0x6c) * 0x1_0000 + s[1] as int * 0x100 + s[2] as int
    } else if lead == 0x7e {
        s[1] as int * 0x1_0000 + s[2] as int * 0x100 + s[3] as int
    } else {
        be32(s[1], s[2], s[3], s[4])
    }
}

/// The shortest encoding of the value `v` together with its final flag.
pub open spec fn encode_value(v: i32, is_final: bool) -> Seq<u8> {
    let f: int = if is_final { 1 } else { 0 };
    let v = v as int;
    if 0 <= v <= 0x40 {
        seq![((0x10 + v) * 2 + f) as u8]
    } else if v < 0 || v > 0xff_ffff {
        let u = bits32(v);
        seq![
            (0xfe + f) as u8,
            (u / 0x100_0000) as u8,
            (u / 0x1_0000 % 0x100) as u8,
            (u / 0x100 % 0x100) as u8,
            (u % 0x100) as u8,
        ]
    } else if v <= 0x1aff {
        seq![((0x51 + v / 0x100) * 2 + f) as u8, (v % 0x100) as u8]
    } else if v <= 0x11_ffff {
        seq![
            ((0x6c + v / 0x1_0000) * 2 + f) as u8,
            (v / 0x100 % 0x100) as u8,
            (v % 0x100) as u8,
        ]
    } else {
        seq![
            (0xfc + f) as u8,
            (v / 0x1_0000) as u8,
            (v / 0x100 % 0x100) as u8,
            (v % 0x100) as u8,
        ]
    }
}

/// The number of bytes that a jump delta with the lead byte `lead` occupies.
pub open spec fn delta_width(lead: u8) -> int {
    if lead < 0xc0 {
        1
    } else if lead < 0xf0 {
        2
    } else if lead < 0xfe {
        3
    } else if lead == 0xfe {
        4
    } else {
        5
    }
}

/// The jump delta that the bytes at the start of `s` encode. `s` holds at
/// least `delta_width(s[0])` bytes.
pub open spec fn delta_of(s: Seq<u8>) -> int
    recommends
        s.len() >= 1,
        s.len() >= delta_width(s[0]),
{
    let lead = s[0] as int;
    if lead < 0xc0 {
        lead
    } else if lead < 0xf0 {
        (lead - 0xc0) * 0x100 + s[1] as int
    } else if lead < 0xfe {
        (lead - 0xf0) * 0x1_0000 + s[1] as int * 0x100 + s[2] as int
    } else if lead == 0xfe {
        s[1] as int * 0x1_0000 + s[2] as int * 0x100 + s[3] as int
    } else {
        be32(s[1], s[2], s[3], s[4])
    }
}

/// The shortest encoding of the jump delta `d`, which is not negative.
pub open spec fn encode_delta(d: i32) -> Seq<u8>
    recommends
        d >= 0,
{
    let d = d as int;
    if d <= 0xbf {
        seq![d as u8]
    } else if d <= 0x2fff {
        seq![(0xc0 + d / 0x100) as u8, (d % 0x100) as u8]
    } else if d <= 0xd_ffff {
        seq![(0xf0 + d / 0x1_0000) as u8, (d / 0x100 % 0x100) as u8, (d % 0x100) as u8]
    } else if d <= 0xff_ffff {
        seq![0xfeu8, (d / 0x1_0000) as u8, (d / 0x100 % 0x100) as u8, (d % 0x100) as u8]
    } else {
        seq![
            0xffu8,
            (d / 0x100_0000) as u8,
            (d / 0x1_0000 % 0x100) as u8,
            (d / 0x100 % 0x100) as u8,
            (d % 0x100) as u8,
        ]
    }
}

/// The four big-endian bytes of a 32-bit integer hold that integer.
pub proof fn lemma_be32_round_trip(v: i32)
    ensures
        be32(
            (bits32(v as int) / 0x100_0000) as u8,
            (bits32(v as int) / 0x1_0000 % 0x100) as u8,
            (bits32(v as int) / 0x100 % 0x100) as u8,
            (bits32(v as int) % 0x100) as u8,
        ) == v,
{
    let u = bits32(v as int);
    assert(0 <= u < 0x1_0000_0000);
    let b1 = u / 0x100_0000;
    let b2 = u / 0x1_0000 % 0x100;
    let b3 = u / 0x100 % 0x100;
    let b4 = u % 0x100;
    assert(0 <= b1 < 0x100);
    assert(b1 * 0x100_0000 + b2 * 0x1_0000 + b3 * 0x100 + b4 == u);
}

/// Decoding undoes encoding for every value and either flag: whatever bytes
/// follow, the encoded value is read back with its flag and its width, and
/// the encoding is a value node of at most five bytes.
pub proof fn lemma_value_round_trip(v: i32, is_final: bool, rest: Seq<u8>)
    ensures
        1 <= encode_value(v, is_final).len() <= 5,
        encode_value(v, is_final)[0] >= MIN_VALUE_LEAD,
        value_width(encode_value(v, is_final)[0]) == encode_value(v, is_final).len(),
        spec_is_final(encode_value(v, is_final)[0]) == is_final,
        value_of(encode_value(v, is_final) + rest) == v,
{
    let e = encode_value(v, is_final);
    let s = e + rest;
    let f: int = if is_final { 1 } else { 0 };
    let v = v as int;
    assert(s[0] == e[0]);
    if 0 <= v <= 0x40 {
        assert(e[0] == (0x10 + v) * 2 + f);
    } else if v < 0 || v > 0xff_ffff {
        lemma_be32_round_trip(v as i32);
        assert(e[0] == 0xfe + f);
        assert(s[1] == e[1] && s[2] == e[2] && s[3] == e[3] && s[4] == e[4]);
    } else if v <= 0x1aff {
        let h = v / 0x100;
        assert(0 <= h <= 0x1a);
        assert(e[0] == (0x51 + h) * 2 + f);
        assert(e[0] as int / 2 == 0x51 + h);
        assert(s[1] == e[1]);
        assert(e[1] == v % 0x100);
    } else if v <= 0x11_ffff {
        let h = v / 0x1_0000;
        assert(0 <= h <= 0x11);
        assert(e[0] == (0x6c + h) * 2 + f);
        assert(e[0] as int / 2 == 0x6c + h);
        assert(s[1] == e[1] && s[2] == e[2]);
        assert(e[1] == v / 0x100 % 0x100);
        assert(e[2] == v % 0x100);
        assert(h * 0x1_0000 + (v / 0x100 % 0x100) * 0x100 + v % 0x100 == v);
    } else {
        let h = v / 0x1_0000;
        assert(0 <= h <= 0xff);
        assert(e[0] == 0xfc + f);
        assert(e[0] as int / 2 == 0x7e);
        assert(s[1] == e[1] && s[2] == e[2] && s[3] == e[3]);
        assert(e[1] == h);
        assert(e[2] == v / 0x100 % 0x100);
        assert(e[3] == v % 0x100);
        assert(h * 0x1_0000 + (v / 0x100 % 0x100) * 0x100 + v % 0x100 == v);
    }
}

/// Decoding undoes encoding for every jump delta from 0 to `i32::MAX`:
/// whatever bytes follow, the encoded delta is read back with its width, and
/// the encoding has at most five bytes.
pub proof fn lemma_delta_round_trip(d: i32, rest: Seq<u8>)
    requires
        d >= 0,
    ensures
        1 <= encode_delta(d).len() <= 5,
        delta_width(encode_delta(d)[0]) == encode_delta(d).len(),
        delta_of(encode_delta(d) + rest) == d,
{
    let e = encode_delta(d);
    let s = e + rest;
    let v = d as int;
    assert(s[0] == e[0]);
    if v <= 0xbf {
        assert(e[0] == v);
    } else if v <= 0x2fff {
        let h = v / 0x100;
        assert(0 <= h <= 0x2f);
        assert(e[0] == 0xc0 + h);
        assert(s[1] == e[1]);
        assert(e[1] == v % 0x100);
    } else if v <= 0xd_ffff {
        let h = v / 0x1_0000;
        assert(0 <= h <= 0xd);
        assert(e[0] == 0xf0 + h);
        assert(s[1] == e[1] && s[2] == e[2]);
        assert(e[1] == v / 0x100 % 0x100);
        assert(e[2] == v % 0x100);
        assert(h * 0x1_0000 + (v / 0x100 % 0x100) * 0x100 + v % 0x100 == v);
    } else if v <= 0xff_ffff {
        let h = v / 0x1_0000;
        assert(0 <= h <= 0xff);
        assert(s[1] == e[1] && s[2] == e[2] && s[3] == e[3]);
        assert(e[1] == h);
        assert(e[2] == v / 0x100 % 0x100);
        assert(e[3] == v % 0x100);
        assert(h * 0x1_0000 + (v / 0x100 % 0x100) * 0x100 + v % 0x100 == v);
    } else {
        lemma_be32_round_trip(d);
        assert(s[1] == e[1] && s[2] == e[2] && s[3] == e[3] && s[4] == e[4]);
    }
}

/// Reads four big-endian bytes as a signed integer.
fn read_be32(bytes: &[u8], offset: usize) -> (r: i32)
    requires
        offset + 4 <= bytes.len(),
    ensures
        r == be32(
            bytes[offset as int],
            bytes[offset + 1],
            bytes[offset + 2],
            bytes[offset + 3],
        ),
{
    let u: i64 = bytes[offset] as i64 * 0x100_0000 + bytes[offset + 1] as i64 * 0x1_0000
        + bytes[offset + 2] as i64 * 0x100 + bytes[offset + 3] as i64;
    if u >= 0x8000_0000 {
        (u - 0x1_0000_0000) as i32
    } else {
        u as i32
    }
}

/// Appends the four big-endian bytes of `v` to `out`.
fn push_be32(out: &mut Vec<u8>, v: i32)
    ensures
        final(out)@ == old(out)@ + seq![
            (bits32(v as int) / 0x100_0000) as u8,
            (bits32(v as int) / 0x1_0000 % 0x100) as u8,
            (bits32(v as int) / 0x100 % 0x100) as u8,
            (bits32(v as int) % 0x100) as u8,
        ],
{
    let u: i64 = if v < 0 {
        v as i64 + 0x1_0000_0000
    } else {
        v as i64
    };
    out.push((u / 0x100_0000) as u8);
    out.push((u / 0x1_0000 % 0x100) as u8);
    out.push((u / 0x100 % 0x100) as u8);
    out.push((u % 0x100) as u8);
    assert(out@ =~= old(out)@ + seq![
        (bits32(v as int) / 0x100_0000) as u8,
        (bits32(v as int) / 0x1_0000 % 0x100) as u8,
        (bits32(v as int) / 0x100 % 0x100) as u8,
        (bits32(v as int) % 0x100) as u8,
    ]);
}

/// The encoding of values: after the final flag in bit 0, the lead byte
/// holds the width and the top bits of the value.
pub struct CompactValue {}

impl CompactValue {
    /// Tells whether a value lead byte marks a final value.
    pub fn is_final(lead: u8) -> (r: bool)
        ensures
            r == spec_is_final(lead),
    {
        lead % 2 == 1
    }

    /// The width in bytes of the value whose lead byte stands at `offset`.
    pub fn get_width(bytes: &[u8], offset: usize) -> (r: usize)
        requires
            offset < bytes.len(),
        ensures
            r == value_width(bytes[offset as int]),
            1 <= r <= 5,
    {
        let lead: u8 = bytes[offset];
        if lead < 0xa2 {
            1
        } else if lead < 0xd8 {
            2
        } else if lead < 0xfc {
            3
        } else if lead < 0xfe {
            4
        } else {
            5
        }
    }

    /// Reads the value whose lead byte stands at `offset`.
    pub fn read_int(bytes: &[u8], offset: usize) -> (r: i32)
        requires
            offset < bytes.len(),
            offset + value_width(bytes[offset as int]) <= bytes.len(),
        ensures
            r == value_of(bytes@.skip(offset as int)),
    {
        let lead: i32 = (bytes[offset] / 2) as i32;
        if lead < 0x51 {
            lead - 0x10
        } else if lead < 0x6c {
            (lead - 0x51) * 0x100 + bytes[offset + 1] as i32
        } else if lead < 0x7e {
            (lead - 0x6c) * 0x1_0000 + bytes[offset + 1] as i32 * 0x100 + bytes[offset + 2] as i32
        } else if lead == 0x7e {
            bytes[offset + 1] as i32 * 0x1_0000 + bytes[offset + 2] as i32 * 0x100 + bytes[offset
                + 3] as i32
        } else {
            read_be32(bytes, offset + 1)
        }
    }

    /// Encodes `value` with its final flag in the fewest bytes.
    pub fn encode(value: i32, is_final: bool) -> (r: Vec<u8>)
        ensures
            r@ == encode_value(value, is_final),
            1 <= r.len() <= 5,
    {
        let f: i32 = if is_final { 1 } else { 0 };
        let mut out: Vec<u8> = Vec::new();
        if 0 <= value && value <= 0x40 {
            out.push(((0x10 + value) * 2 + f) as u8);
        } else if value < 0 || value > 0xff_ffff {
            out.push((0xfe + f) as u8);
            push_be32(&mut out, value);
        } else if value <= 0x1aff {
            out.push(((0x51 + value / 0x100) * 2 + f) as u8);
            out.push((value % 0x100) as u8);
        } else if value <= 0x11_ffff {
            out.push(((0x6c + value / 0x1_0000) * 2 + f) as u8);
            out.push((value / 0x100 % 0x100) as u8);
            out.push((value % 0x100) as u8);
        } else {
            out.push((0xfc + f) as u8);
            out.push((value / 0x1_0000) as u8);
            out.push((value / 0x100 % 0x100) as u8);
            out.push((value % 0x100) as u8);
        }
        assert(out@ =~= encode_value(value, is_final));
        out
    }
}

/// The encoding of jump deltas: the lead byte holds the width and the top
/// bits of the delta; there is no flag.
pub struct CompactDelta {}

impl CompactDelta {
    /// The width in bytes of the delta whose lead byte stands at `offset`.
    pub fn get_width(bytes: &[u8], offset: usize) -> (r: usize)
        requires
            offset < bytes.len(),
        ensures
            r == delta_width(bytes[offset as int]),
            1 <= r <= 5,
    {
        let lead: u8 = bytes[offset];
        if lead < 0xc0 {
            1
        } else if lead < 0xf0 {
            2
        } else if lead < 0xfe {
            3
        } else if lead == 0xfe {
            4
        } else {
            5
        }
    }

    /// Reads the delta whose lead byte stands at `offset`.
    pub fn read_int(bytes: &[u8], offset: usize) -> (r: i32)
        requires
            offset < bytes.len(),
            offset + delta_width(bytes[offset as int]) <= bytes.len(),
        ensures
            r == delta_of(bytes@.skip(offset as int)),
    {
        let lead: i32 = bytes[offset] as i32;
        if lead < 0xc0 {
            lead
        } else if lead < 0xf0 {
            (lead - 0xc0) * 0x100 + bytes[offset + 1] as i32
        } else if lead < 0xfe {
            (lead - 0xf0) * 0x1_0000 + bytes[offset + 1] as i32 * 0x100 + bytes[offset + 2] as i32
        } else if lead == 0xfe {
            bytes[offset + 1] as i32 * 0x1_0000 + bytes[offset + 2] as i32 * 0x100 + bytes[offset
                + 3] as i32
        } else {
            read_be32(bytes, offset + 1)
        }
    }

    /// Encodes the delta `delta` in the fewest bytes.
    pub fn encode(delta: i32) -> (r: Vec<u8>)
        requires
            delta >= 0,
        ensures
            r@ == encode_delta(delta),
            1 <= r.len() <= 5,
    {
        let mut out: Vec<u8> = Vec::new();
        if delta <= 0xbf {
            out.push(delta as u8);
        } else if delta <= 0x2fff {
            out.push((0xc0 + delta / 0x100) as u8);
            out.push((delta % 0x100) as u8);
        } else if delta <= 0xd_ffff {
            out.push((0xf0 + delta / 0x1_0000) as u8);
            out.push((delta / 0x100 % 0x100) as u8);
            out.push((delta % 0x100) as u8);
        } else if delta <= 0xff_ffff {
            out.push(0xfe);
            out.push((delta / 0x1_0000) as u8);
            out.push((delta / 0x100 % 0x100) as u8);
            out.push((delta % 0x100) as u8);
        } else {
            out.push(0xff);
            push_be32(&mut out, delta);
        }
        assert(out@ =~= encode_delta(delta));
        out
    }
}

} // verus!

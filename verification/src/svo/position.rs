//! Positions of octree nodes, packed into 64 bits.
//!
//! From the top: the level (4 bits), then the x, y and z section coordinates
//! (20 bits each, two's complement).

use crate::text;
use vstd::arithmetic::div_mod::*;
use vstd::prelude::*;
use vstd::string::*;

verus! {

/// The low 20 bits of a coordinate, as a number.
pub open spec fn low20(v: int) -> int {
    v % 0x10_0000
}

/// The coordinate that 20 bits stand for in two's complement.
pub open spec fn signed20(v: int) -> int {
    if v >= 0x8_0000 {
        v - 0x10_0000
    } else {
        v
    }
}

/// A coordinate that 20 bits can hold.
pub open spec fn fits20(v: int) -> bool {
    -0x8_0000 <= v < 0x8_0000
}

/// The packed position of a node.
pub open spec fn spec_encode(lvl: int, x: int, y: int, z: int) -> int {
    (lvl % 16) * 0x1000_0000_0000_0000 + low20(x) * 0x100_0000_0000 + low20(y) * 0x10_0000 + low20(
        z,
    )
}

/// The level of a packed position.
pub open spec fn spec_level(pos: u64) -> int {
    pos as int / 0x1000_0000_0000_0000
}

/// The x coordinate of a packed position.
pub open spec fn spec_x(pos: u64) -> int {
    signed20((pos as int / 0x100_0000_0000) % 0x10_0000)
}

/// The y coordinate of a packed position.
pub open spec fn spec_y(pos: u64) -> int {
    signed20((pos as int / 0x10_0000) % 0x10_0000)
}

/// The z coordinate of a packed position.
pub open spec fn spec_z(pos: u64) -> int {
    signed20(pos as int % 0x10_0000)
}

/// The position of child `i` of a node.
pub open spec fn spec_child(pos: u64, i: int) -> int {
    spec_encode(
        spec_level(pos) - 1,
        spec_x(pos) * 2 + i % 2,
        spec_y(pos) * 2 + (i / 2) % 2,
        spec_z(pos) * 2 + (i / 4) % 2,
    )
}

/// The position of a node's parent.
pub open spec fn spec_parent(pos: u64) -> int {
    spec_encode(spec_level(pos) + 1, spec_x(pos) / 2, spec_y(pos) / 2, spec_z(pos) / 2)
}

/// The text form of a position.
pub open spec fn spec_format(pos: u64) -> Seq<char> {
    seq!['L'] + text::decimal_signed(spec_level(pos)) + seq!['@', '['] + text::decimal_signed(
        spec_x(pos),
    ) + seq![','] + text::decimal_signed(spec_y(pos)) + seq![','] + text::decimal_signed(
        spec_z(pos),
    ) + seq![']']
}

/// The low 20 bits of a coordinate.
fn pack20(v: i32) -> (r: u64)
    ensures
        r == low20(v as int),
        r < 0x10_0000,
{
    ((v as i64 + 0x1_0000_0000) % 0x10_0000) as u64
}

/// The coordinate that 20 bits stand for.
fn unpack20(v: u64) -> (r: i32)
    requires
        v < 0x10_0000,
    ensures
        r == signed20(v as int),
        fits20(r as int),
{
    if v >= 0x8_0000 {
        v as i32 - 0x10_0000
    } else {
        v as i32
    }
}

/// Packs a level and section coordinates; what does not fit is cut off.
pub fn encode_position(lvl: u32, x: i32, y: i32, z: i32) -> (r: u64)
    ensures
        r == spec_encode(lvl as int, x as int, y as int, z as int),
{
    (lvl % 16) as u64 * 0x1000_0000_0000_0000 + pack20(x) * 0x100_0000_0000 + pack20(y) * 0x10_0000
        + pack20(z)
}

/// The level of a packed position.
pub fn decode_level(pos: u64) -> (r: u32)
    ensures
        r == spec_level(pos),
        r < 16,
{
    (pos / 0x1000_0000_0000_0000) as u32
}

/// The x coordinate of a packed position.
pub fn decode_x(pos: u64) -> (r: i32)
    ensures
        r == spec_x(pos),
        fits20(r as int),
{
    unpack20((pos / 0x100_0000_0000) % 0x10_0000)
}

/// The y coordinate of a packed position.
pub fn decode_y(pos: u64) -> (r: i32)
    ensures
        r == spec_y(pos),
        fits20(r as int),
{
    unpack20((pos / 0x10_0000) % 0x10_0000)
}

/// The z coordinate of a packed position.
pub fn decode_z(pos: u64) -> (r: i32)
    ensures
        r == spec_z(pos),
        fits20(r as int),
{
    unpack20(pos % 0x10_0000)
}

/// The position of child `child_idx` of a node: bit 0 of the index is the
/// child's half in x, bit 1 in y and bit 2 in z.
pub fn make_child_pos(parent_pos: u64, child_idx: u32) -> (r: u64)
    requires
        spec_level(parent_pos) >= 1,
    ensures
        r == spec_child(parent_pos, child_idx as int),
{
    let child_lvl: u32 = decode_level(parent_pos) - 1;
    let bit_x: i32 = (child_idx % 2) as i32;
    let bit_y: i32 = ((child_idx / 2) % 2) as i32;
    let bit_z: i32 = ((child_idx / 4) % 2) as i32;
    encode_position(
        child_lvl,
        decode_x(parent_pos) * 2 + bit_x,
        decode_y(parent_pos) * 2 + bit_y,
        decode_z(parent_pos) * 2 + bit_z,
    )
}

/// Halves a coordinate, rounding down.
fn half(v: i32) -> (r: i32)
    ensures
        r == v as int / 2,
{
    if v >= 0 {
        v / 2
    } else {
        let up: i64 = -(v as i64);
        (-((up + 1) / 2)) as i32
    }
}

/// The position of a node's parent.
pub fn make_parent_pos(child_pos: u64) -> (r: u64)
    ensures
        r == spec_parent(child_pos),
{
    encode_position(
        decode_level(child_pos) + 1,
        half(decode_x(child_pos)),
        half(decode_y(child_pos)),
        half(decode_z(child_pos)),
    )
}

/// A position as text, such as `L2@[1,-4,7]`.
pub fn format_pos(pos: u64) -> (r: String)
    ensures
        r@ == spec_format(pos),
{
    proof {
        reveal_strlit("L");
        reveal_strlit("@[");
        reveal_strlit(",");
        reveal_strlit("]");
    }
    let mut out: String = String::new();
    out.append("L");
    text::push_signed(&mut out, decode_level(pos) as i64);
    out.append("@[");
    text::push_signed(&mut out, decode_x(pos) as i64);
    out.append(",");
    text::push_signed(&mut out, decode_y(pos) as i64);
    out.append(",");
    text::push_signed(&mut out, decode_z(pos) as i64);
    out.append("]");
    assert(out@ =~= spec_format(pos));
    out
}

/// The four parts of a packed position, from those of a sum.
proof fn lemma_parts(p: int, a: int, b: int, c: int, d: int)
    requires
        0 <= a < 16,
        0 <= b < 0x10_0000,
        0 <= c < 0x10_0000,
        0 <= d < 0x10_0000,
        p == a * 0x1000_0000_0000_0000 + b * 0x100_0000_0000 + c * 0x10_0000 + d,
    ensures
        p / 0x1000_0000_0000_0000 == a,
        (p / 0x100_0000_0000) % 0x10_0000 == b,
        (p / 0x10_0000) % 0x10_0000 == c,
        p % 0x10_0000 == d,
{
    let q = a * 0x100_0000_0000 + b * 0x10_0000 + c;
    let t = a * 0x10_0000 + b;
    assert(p / 0x10_0000 == q && p % 0x10_0000 == d) by {
        assert(p == q * 0x10_0000 + d);
    }
    assert(q / 0x10_0000 == t && q % 0x10_0000 == c) by {
        assert(q == t * 0x10_0000 + c);
    }
    assert(t / 0x10_0000 == a && t % 0x10_0000 == b);
    lemma_div_denominator(p, 0x10_0000, 0x10_0000);
    lemma_div_denominator(p, 0x100_0000_0000, 0x10_0000);
}

/// A packed position is made of its four parts.
proof fn lemma_split(p: int)
    requires
        0 <= p <= u64::MAX,
    ensures
        0 <= p / 0x1000_0000_0000_0000 < 16,
        p == (p / 0x1000_0000_0000_0000) * 0x1000_0000_0000_0000 + ((p / 0x100_0000_0000)
            % 0x10_0000) * 0x100_0000_0000 + ((p / 0x10_0000) % 0x10_0000) * 0x10_0000 + p
            % 0x10_0000,
{
    lemma_div_denominator(p, 0x10_0000, 0x10_0000);
    lemma_div_denominator(p, 0x100_0000_0000, 0x10_0000);
    let q = p / 0x10_0000;
    let t = q / 0x10_0000;
    assert(p == q * 0x10_0000 + p % 0x10_0000);
    assert(q == t * 0x10_0000 + q % 0x10_0000);
    assert(t == (t / 0x10_0000) * 0x10_0000 + t % 0x10_0000);
}

/// The coordinates of a packed position fit 20 bits.
pub proof fn lemma_coords_fit(pos: u64)
    ensures
        fits20(spec_x(pos)),
        fits20(spec_y(pos)),
        fits20(spec_z(pos)),
{
}

/// A packed position has the level that it was packed with, whatever the
/// coordinates.
pub proof fn lemma_encode_level(lvl: int, x: int, y: int, z: int)
    requires
        0 <= lvl < 16,
    ensures
        0 <= spec_encode(lvl, x, y, z) <= u64::MAX,
        spec_level(spec_encode(lvl, x, y, z) as u64) == lvl,
{
    lemma_parts(spec_encode(lvl, x, y, z), lvl, low20(x), low20(y), low20(z));
}

/// Reading back a packed position gives the level and the coordinates that went
/// in, as long as they fit.
pub proof fn law_decode_encode(lvl: int, x: int, y: int, z: int)
    requires
        0 <= lvl < 16,
        fits20(x),
        fits20(y),
        fits20(z),
    ensures
        0 <= spec_encode(lvl, x, y, z) <= u64::MAX,
        spec_level(spec_encode(lvl, x, y, z) as u64) == lvl,
        spec_x(spec_encode(lvl, x, y, z) as u64) == x,
        spec_y(spec_encode(lvl, x, y, z) as u64) == y,
        spec_z(spec_encode(lvl, x, y, z) as u64) == z,
{
    lemma_parts(spec_encode(lvl, x, y, z), lvl, low20(x), low20(y), low20(z));
}

/// Packing what was read from a packed position gives the same position.
pub proof fn law_encode_decode(pos: u64)
    ensures
        spec_encode(spec_level(pos), spec_x(pos), spec_y(pos), spec_z(pos)) == pos,
{
    lemma_split(pos as int);
}

/// The parent of a child of a node is the node, as long as the doubled
/// coordinates fit.
pub proof fn law_parent_of_child(pos: u64, i: int)
    requires
        spec_level(pos) >= 1,
        0 <= i < 8,
        fits20(spec_x(pos) * 2),
        fits20(spec_y(pos) * 2),
        fits20(spec_z(pos) * 2),
    ensures
        0 <= spec_child(pos, i) <= u64::MAX,
        spec_parent(spec_child(pos, i) as u64) == pos,
        spec_level(spec_child(pos, i) as u64) == spec_level(pos) - 1,
{
    law_decode_encode(
        spec_level(pos) - 1,
        spec_x(pos) * 2 + i % 2,
        spec_y(pos) * 2 + (i / 2) % 2,
        spec_z(pos) * 2 + (i / 4) % 2,
    );
    law_encode_decode(pos);
}

/// Two children of a node have the same position only if they are the same
/// child.
pub proof fn law_children_differ(pos: u64, i: int, j: int)
    requires
        spec_level(pos) >= 1,
        0 <= i < 8,
        0 <= j < 8,
        spec_child(pos, i) == spec_child(pos, j),
    ensures
        i == j,
{
    let x = spec_x(pos) * 2;
    let y = spec_y(pos) * 2;
    let z = spec_z(pos) * 2;
    let lvl = spec_level(pos) - 1;
    lemma_split(pos as int);
    lemma_parts(
        spec_child(pos, i),
        lvl,
        low20(x + i % 2),
        low20(y + (i / 2) % 2),
        low20(z + (i / 4) % 2),
    );
    lemma_parts(
        spec_child(pos, j),
        lvl,
        low20(x + j % 2),
        low20(y + (j / 2) % 2),
        low20(z + (j / 4) % 2),
    );
    assert(i % 2 == j % 2);
    assert((i / 2) % 2 == (j / 2) % 2);
    assert((i / 4) % 2 == (j / 4) % 2);
}

/// A child is half as large as its parent along each axis and lies in one half of it: in
/// the upper half along x if bit 0 of its number is set, along y if bit 1 is, and along z if
/// bit 2 is.
pub proof fn law_children_are_octants(pos: u64, i: int)
    requires
        spec_level(pos) >= 1,
        0 <= i < 8,
        fits20(spec_x(pos) * 2),
        fits20(spec_y(pos) * 2),
        fits20(spec_z(pos) * 2),
    ensures
        ({
            let c = spec_child(pos, i) as u64;
            &&& spec_level(c) == spec_level(pos) - 1
            &&& spec_x(c) == 2 * spec_x(pos) + i % 2
            &&& spec_y(c) == 2 * spec_y(pos) + (i % 4) / 2
            &&& spec_z(c) == 2 * spec_z(pos) + i / 4
        }),
{
    lemma_coords_fit(pos);
    law_decode_encode(
        spec_level(pos) - 1,
        spec_x(pos) * 2 + i % 2,
        spec_y(pos) * 2 + (i / 2) % 2,
        spec_z(pos) * 2 + (i / 4) % 2,
    );
}

/// In a packed position z takes the lowest bits, y the twenty above, x the twenty above
/// those, and the level the highest four: the next coordinate along an axis, and the next
/// level, is as far away in the packed form whatever the rest is.
pub proof fn law_packed_order(lvl: int, x: int, y: int, z: int)
    requires
        0 <= lvl < 15,
        0 <= x < 0x7_ffff,
        0 <= y < 0x7_ffff,
        0 <= z < 0x7_ffff,
    ensures
        spec_encode(lvl, x, y, z + 1) - spec_encode(lvl, x, y, z) == 1,
        spec_encode(lvl, x, y + 1, z) - spec_encode(lvl, x, y, z) == 1048576,
        spec_encode(lvl, x + 1, y, z) - spec_encode(lvl, x, y, z) == 1048576 * 1048576,
        spec_encode(lvl + 1, x, y, z) - spec_encode(lvl, x, y, z) == 1048576 * 1048576 * 1048576,
{
    assert(low20(x) == x && low20(x + 1) == x + 1);
    assert(low20(y) == y && low20(y + 1) == y + 1);
    assert(low20(z) == z && low20(z + 1) == z + 1);
    assert(lvl % 16 == lvl && (lvl + 1) % 16 == lvl + 1);
}

} // verus!

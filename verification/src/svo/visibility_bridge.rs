//! From visible octree nodes to visible chunks.

use crate::svo::node_manager::GpuNode;
use crate::svo::position;
use crate::svo::position::{decode_level, decode_x, decode_y, decode_z};
use crate::types::ChunkCoord;
use vstd::arithmetic::power2::*;
use vstd::prelude::*;

verus! {

/// Visibility is computed anew every so many frames.
pub const VISIBILITY_UPDATE_INTERVAL: u32 = 2;

/// How far chunks are visible.
pub const RENDER_DIST_CHUNKS: i32 = 16;

/// When visibility was last computed, and what came of it.
pub struct SvoVisibilityState {
    pub frame_counter: u32,
    pub visible_node_count: u32,
    pub hidden_chunk_count: usize,
}

impl Default for SvoVisibilityState {
    /// Nothing has been computed.
    fn default() -> (r: Self)
        ensures
            r.frame_counter == 0,
            r.visible_node_count == 0,
            r.hidden_chunk_count == 0,
    {
        Self { frame_counter: 0, visible_node_count: 0, hidden_chunk_count: 0 }
    }
}

impl SvoVisibilityState {
    /// Counts a frame and says whether visibility is to be computed in it.
    pub fn tick(&mut self) -> (r: bool)
        requires
            old(self).frame_counter < u32::MAX,
        ensures
            r == (old(self).frame_counter + 1 >= VISIBILITY_UPDATE_INTERVAL),
            final(self).frame_counter == if r {
                0
            } else {
                old(self).frame_counter + 1
            },
            final(self).visible_node_count == old(self).visible_node_count,
            final(self).hidden_chunk_count == old(self).hidden_chunk_count,
    {
        self.frame_counter = self.frame_counter + 1;
        if self.frame_counter < VISIBILITY_UPDATE_INTERVAL {
            return false;
        }
        self.frame_counter = 0;
        true
    }
}

/// The chunks that a node covers: from each start to before each end.
#[derive(Debug, Clone, Copy, PartialEq, Eq, Structural)]
pub struct VisibleRegion {
    pub x_start: i32,
    pub x_end: i32,
    pub y_start: i32,
    pub y_end: i32,
    pub z_start: i32,
    pub z_end: i32,
}

/// How many sections a node of a level covers along an axis.
pub open spec fn sections_across(lvl: int) -> int {
    pow2(lvl as nat) as int
}

/// The chunks that the node at a position covers.
pub open spec fn spec_region(pos: u64) -> VisibleRegion {
    let n = sections_across(position::spec_level(pos));
    VisibleRegion {
        x_start: (position::spec_x(pos) * n) as i32,
        x_end: (position::spec_x(pos) * n + n) as i32,
        y_start: (position::spec_y(pos) * n) as i32,
        y_end: (position::spec_y(pos) * n + n) as i32,
        z_start: (position::spec_z(pos) * n) as i32,
        z_end: (position::spec_z(pos) * n + n) as i32,
    }
}

/// The chunks of a node have 32-bit coordinates along an axis.
pub open spec fn axis_fits(v: int, n: int) -> bool {
    i32::MIN <= v * n && v * n + n <= i32::MAX
}

/// The chunks that the node at a position covers have 32-bit coordinates.
pub open spec fn region_fits(pos: u64) -> bool {
    let n = sections_across(position::spec_level(pos));
    &&& axis_fits(position::spec_x(pos), n)
    &&& axis_fits(position::spec_y(pos), n)
    &&& axis_fits(position::spec_z(pos), n)
}

/// How many sections a node of a level covers along an axis.
fn section_count(lvl: u32) -> (r: i32)
    requires
        lvl <= 15,
    ensures
        r == sections_across(lvl as int),
        1 <= r <= 32768,
{
    let mut n: i32 = 1;
    let mut i: u32 = 0;
    proof {
        lemma2_to64();
    }
    while i < lvl
        invariant
            i <= lvl <= 15,
            n == pow2(i as nat),
            n <= 32768,
        decreases lvl - i,
    {
        proof {
            lemma2_to64();
            lemma_pow2_unfold((i + 1) as nat);
            lemma_small_powers((i + 1) as nat);
        }
        n = n * 2;
        i = i + 1;
    }
    proof {
        lemma_small_powers(lvl as nat);
    }
    n
}

/// The powers of two up to 2^15.
proof fn lemma_small_powers(i: nat)
    requires
        i <= 15,
    ensures
        1 <= pow2(i) <= 32768,
{
    lemma2_to64();
    assert(pow2(0) == 1 && pow2(15) == 32768);
    lemma_pow2_pos(i);
    if i < 15 {
        lemma_pow2_strictly_increases(i, 15);
    }
}

/// The product of a 20-bit coordinate and the number of sections across.
proof fn lemma_product(v: int, n: int)
    requires
        position::fits20(v),
        1 <= n <= 32768,
    ensures
        -0x4_0000_0000 <= v * n <= 0x4_0000_0000,
{
    assert(-0x4_0000_0000 <= v * n <= 0x4_0000_0000) by (nonlinear_arith)
        requires
            -0x8_0000 <= v < 0x8_0000,
            1 <= n <= 32768,
    ;
}

/// The chunks that the node at a position covers.
pub fn node_region(pos: u64) -> (r: VisibleRegion)
    requires
        region_fits(pos),
    ensures
        r == spec_region(pos),
{
    let n: i32 = section_count(decode_level(pos));
    let x: i32 = decode_x(pos);
    let y: i32 = decode_y(pos);
    let z: i32 = decode_z(pos);
    assert(axis_fits(x as int, n as int));
    assert(axis_fits(y as int, n as int));
    assert(axis_fits(z as int, n as int));
    VisibleRegion {
        x_start: x * n,
        x_end: x * n + n,
        y_start: y * n,
        y_end: y * n + n,
        z_start: z * n,
        z_end: z * n + n,
    }
}

/// The middle of the node at a position, in voxels, and half its edge length.
pub open spec fn spec_center(pos: u64) -> (int, int, int, int) {
    let n = sections_across(position::spec_level(pos));
    (
        position::spec_x(pos) * n * 32 + n * 16,
        position::spec_y(pos) * n * 32 + n * 16,
        position::spec_z(pos) * n * 32 + n * 16,
        n * 16,
    )
}

/// The middle of the node at a position, in voxels, and half its edge length.
pub fn node_center(pos: u64) -> (r: (i64, i64, i64, i64))
    ensures
        ({
            let n = sections_across(position::spec_level(pos));
            &&& r.3 == n * 16
            &&& r.0 == position::spec_x(pos) * n * 32 + n * 16
            &&& r.1 == position::spec_y(pos) * n * 32 + n * 16
            &&& r.2 == position::spec_z(pos) * n * 32 + n * 16
        }),
        (r.0 as int, r.1 as int, r.2 as int, r.3 as int) == spec_center(pos),
{
    let n: i64 = section_count(decode_level(pos)) as i64;
    let x: i64 = decode_x(pos) as i64;
    let y: i64 = decode_y(pos) as i64;
    let z: i64 = decode_z(pos) as i64;
    proof {
        position::lemma_coords_fit(pos);
        lemma_product(x as int, n as int);
        lemma_product(y as int, n as int);
        lemma_product(z as int, n as int);
    }
    let half: i64 = n * 16;
    (x * n * 32 + half, y * n * 32 + half, z * n * 32 + half, half)
}

/// The regions of those of the first `n` nodes that are near.
pub open spec fn near_regions(nodes: Seq<GpuNode>, near: Seq<bool>, n: int) -> Seq<VisibleRegion>
    decreases n,
{
    if n <= 0 {
        seq![]
    } else if near[n - 1] {
        near_regions(nodes, near, n - 1).push(spec_region(nodes[n - 1].position))
    } else {
        near_regions(nodes, near, n - 1)
    }
}

/// The regions of the nodes that are near.
pub fn compute_visible_regions(nodes: &Vec<GpuNode>, near: &Vec<bool>) -> (r: Vec<VisibleRegion>)
    requires
        near@.len() == nodes@.len(),
        forall|i: int|
            0 <= i < nodes@.len() && near@[i] ==> region_fits((#[trigger] nodes@[i]).position),
    ensures
        r@ == near_regions(nodes@, near@, nodes@.len() as int),
{
    let mut out: Vec<VisibleRegion> = Vec::new();
    let mut i: usize = 0;
    while i < nodes.len()
        invariant
            i <= nodes@.len(),
            near@.len() == nodes@.len(),
            forall|i: int|
                0 <= i < nodes@.len() && near@[i] ==> region_fits((#[trigger] nodes@[i]).position),
            out@ == near_regions(nodes@, near@, i as int),
        decreases nodes@.len() - i,
    {
        if near[i] {
            assert(region_fits(nodes@[i as int].position));
            out.push(node_region(nodes[i].position));
        }
        i = i + 1;
    }
    out
}

/// A chunk lies in a region.
pub open spec fn region_has(r: VisibleRegion, c: ChunkCoord) -> bool {
    r.x_start <= c.cx < r.x_end && r.y_start <= c.cy < r.y_end && r.z_start <= c.cz < r.z_end
}

/// A chunk lies in one of the regions.
pub open spec fn spec_chunk_visible(regions: Seq<VisibleRegion>, c: ChunkCoord) -> bool {
    exists|i: int| 0 <= i < regions.len() && region_has(#[trigger] regions[i], c)
}

/// Whether a chunk lies in one of the regions.
pub fn is_chunk_visible(coord: &ChunkCoord, regions: &Vec<VisibleRegion>) -> (r: bool)
    ensures
        r == spec_chunk_visible(regions@, *coord),
{
    let mut i: usize = 0;
    while i < regions.len()
        invariant
            i <= regions@.len(),
            forall|k: int| 0 <= k < i ==> !region_has(#[trigger] regions@[k], *coord),
        decreases regions@.len() - i,
    {
        let g: VisibleRegion = regions[i];
        if coord.cx >= g.x_start && coord.cx < g.x_end && coord.cy >= g.y_start && coord.cy
            < g.y_end && coord.cz >= g.z_start && coord.cz < g.z_end {
            assert(region_has(regions@[i as int], *coord));
            return true;
        }
        i = i + 1;
    }
    false
}

/// Which chunks are visible. Where no region is visible nothing is said, so that
/// chunks stay as they are.
pub fn chunk_visibility(coords: &Vec<ChunkCoord>, regions: &Vec<VisibleRegion>) -> (r: Option<
    Vec<bool>,
>)
    ensures
        r is None <==> regions@.len() == 0,
        r matches Some(v) ==> v@ == Seq::new(
            coords@.len(),
            |i: int| spec_chunk_visible(regions@, coords@[i]),
        ),
{
    if regions.len() == 0 {
        return None;
    }
    let mut out: Vec<bool> = Vec::new();
    let mut i: usize = 0;
    while i < coords.len()
        invariant
            i <= coords@.len(),
            out@.len() == i,
            forall|k: int|
                0 <= k < i ==> #[trigger] out@[k] == spec_chunk_visible(regions@, coords@[k]),
        decreases coords@.len() - i,
    {
        out.push(is_chunk_visible(&coords[i], regions));
        i = i + 1;
    }
    assert(out@ =~= Seq::new(coords@.len(), |i: int| spec_chunk_visible(regions@, coords@[i])));
    Some(out)
}

/// A node covers exactly the chunks whose ancestor at its level it is: those
/// whose coordinates, divided by the number of sections across and rounded
/// down, are its own.
pub proof fn law_region_covers(pos: u64, c: ChunkCoord)
    requires
        region_fits(pos),
    ensures
        ({
            let n = sections_across(position::spec_level(pos));
            region_has(spec_region(pos), c) <==> c.cx as int / n == position::spec_x(pos)
                && c.cy as int / n == position::spec_y(pos) && c.cz as int / n == position::spec_z(
                pos,
            )
        }),
{
    let n = sections_across(position::spec_level(pos));
    lemma_small_powers(position::spec_level(pos) as nat);
    lemma_axis(position::spec_x(pos), n, c.cx as int);
    lemma_axis(position::spec_y(pos), n, c.cy as int);
    lemma_axis(position::spec_z(pos), n, c.cz as int);
}

/// A coordinate lies in a node's range exactly if its quotient is the node's.
proof fn lemma_axis(v: int, n: int, c: int)
    requires
        n >= 1,
    ensures
        v * n <= c < v * n + n <==> c / n == v,
{
    let q = c / n;
    vstd::arithmetic::div_mod::lemma_fundamental_div_mod(c, n);
    assert(c == n * q + c % n);
    assert(n * q == q * n) by (nonlinear_arith);
    if v * n <= c < v * n + n {
        assert(q == v) by (nonlinear_arith)
            requires
                n >= 1,
                v * n <= c,
                c < v * n + n,
                q * n <= c,
                c < q * n + n,
        ;
    }
}

/// The middle of a node is as far from the lower ends of its chunks as from their upper ends,
/// and half the edge length is that distance. A chunk is 32 voxels wide.
pub proof fn law_center_is_in_the_middle(pos: u64)
    requires
        region_fits(pos),
    ensures
        ({
            let c = spec_center(pos);
            let r = spec_region(pos);
            &&& c.0 - c.3 == 32 * r.x_start && c.0 + c.3 == 32 * r.x_end
            &&& c.1 - c.3 == 32 * r.y_start && c.1 + c.3 == 32 * r.y_end
            &&& c.2 - c.3 == 32 * r.z_start && c.2 + c.3 == 32 * r.z_end
            &&& c.3 > 0
        }),
{
    lemma_small_powers(position::spec_level(pos) as nat);
}

/// A node of the lowest level covers one chunk, the one with its coordinates.
pub proof fn law_smallest_node_is_a_chunk(pos: u64, c: ChunkCoord)
    requires
        position::spec_level(pos) == 0,
    ensures
        region_fits(pos),
        region_has(spec_region(pos), c) <==> c.cx == position::spec_x(pos) && c.cy
            == position::spec_y(pos) && c.cz == position::spec_z(pos),
{
    let n = sections_across(0);
    lemma2_to64();
    position::lemma_coords_fit(pos);
    assert(n == 1);
    assert(position::spec_x(pos) * n == position::spec_x(pos));
    assert(position::spec_y(pos) * n == position::spec_y(pos));
    assert(position::spec_z(pos) * n == position::spec_z(pos));
}

/// The children of a node cover together the chunks that it covers, and no chunk is covered
/// by two of them.
pub proof fn law_children_share_the_chunks(pos: u64, c: ChunkCoord)
    requires
        position::spec_level(pos) >= 1,
        position::fits20(position::spec_x(pos) * 2),
        position::fits20(position::spec_y(pos) * 2),
        position::fits20(position::spec_z(pos) * 2),
        region_fits(pos),
    ensures
        region_has(spec_region(pos), c) <==> exists|i: int|
            0 <= i < 8 && region_has(
                spec_region(#[trigger] position::spec_child(pos, i) as u64),
                c,
            ),
        forall|i: int, j: int|
            0 <= i < j < 8 ==> !(region_has(
                spec_region(#[trigger] position::spec_child(pos, i) as u64),
                c,
            ) && region_has(spec_region(#[trigger] position::spec_child(pos, j) as u64), c)),
{
    let m = sections_across(position::spec_level(pos) - 1);
    let n = sections_across(position::spec_level(pos));
    let (x, y, z) = (position::spec_x(pos), position::spec_y(pos), position::spec_z(pos));
    lemma_pow2_unfold(position::spec_level(pos) as nat);
    lemma_small_powers((position::spec_level(pos) - 1) as nat);
    lemma_halves(x, m, n, c.cx as int);
    lemma_halves(y, m, n, c.cy as int);
    lemma_halves(z, m, n, c.cz as int);
    assert forall|i: int| 0 <= i < 8 implies region_has(
        spec_region(#[trigger] position::spec_child(pos, i) as u64),
        c,
    ) == (in_part(2 * x + i % 2, m, c.cx as int) && in_part(2 * y + (i % 4) / 2, m, c.cy as int)
        && in_part(2 * z + i / 4, m, c.cz as int)) by {
        lemma_child_covers(pos, i, c);
    }
    assert(region_has(spec_region(pos), c) == (in_part(x, n, c.cx as int) && in_part(
        y,
        n,
        c.cy as int,
    ) && in_part(z, n, c.cz as int))) by {
        reveal(in_part);
    }
    if region_has(spec_region(pos), c) {
        let a: int = if in_part(2 * x, m, c.cx as int) {
            0
        } else {
            1
        };
        let b: int = if in_part(2 * y, m, c.cy as int) {
            0
        } else {
            1
        };
        let d: int = if in_part(2 * z, m, c.cz as int) {
            0
        } else {
            1
        };
        let i = a + 2 * b + 4 * d;
        assert(i % 2 == a && (i % 4) / 2 == b && i / 4 == d);
        assert(region_has(spec_region(position::spec_child(pos, i) as u64), c));
    }
}

/// A coordinate lies in the part of a number, if all parts are of a size.
#[verifier::opaque]
spec fn in_part(v: int, size: int, c: int) -> bool {
    v * size <= c < v * size + size
}

/// A part is made of two parts of half its size.
proof fn lemma_halves(v: int, m: int, n: int, c: int)
    requires
        n == 2 * m,
        m >= 1,
    ensures
        in_part(v, n, c) <==> in_part(2 * v, m, c) || in_part(2 * v + 1, m, c),
        !(in_part(2 * v, m, c) && in_part(2 * v + 1, m, c)),
        in_part(2 * v + 0, m, c) == in_part(2 * v, m, c),
{
    reveal(in_part);
    assert(v * n == 2 * (v * m)) by (nonlinear_arith)
        requires
            n == 2 * m,
    ;
    assert((2 * v) * m == 2 * (v * m)) by (nonlinear_arith);
    assert((2 * v + 1) * m == 2 * (v * m) + m) by (nonlinear_arith);
}

/// The chunks that a child covers.
proof fn lemma_child_covers(pos: u64, i: int, c: ChunkCoord)
    requires
        0 <= i < 8,
        position::spec_level(pos) >= 1,
        position::fits20(position::spec_x(pos) * 2),
        position::fits20(position::spec_y(pos) * 2),
        position::fits20(position::spec_z(pos) * 2),
        region_fits(pos),
    ensures
        ({
            let m = sections_across(position::spec_level(pos) - 1);
            region_has(spec_region(position::spec_child(pos, i) as u64), c) == (in_part(
                2 * position::spec_x(pos) + i % 2,
                m,
                c.cx as int,
            ) && in_part(2 * position::spec_y(pos) + (i % 4) / 2, m, c.cy as int) && in_part(
                2 * position::spec_z(pos) + i / 4,
                m,
                c.cz as int,
            ))
        }),
{
    let m = sections_across(position::spec_level(pos) - 1);
    let n = sections_across(position::spec_level(pos));
    lemma_pow2_unfold(position::spec_level(pos) as nat);
    lemma_small_powers((position::spec_level(pos) - 1) as nat);
    position::law_children_are_octants(pos, i);
    lemma_part_fits(position::spec_x(pos), i % 2, m, n);
    lemma_part_fits(position::spec_y(pos), (i % 4) / 2, m, n);
    lemma_part_fits(position::spec_z(pos), i / 4, m, n);
    reveal(in_part);
}

/// Each half of a part that fits in 32 bits does too.
proof fn lemma_part_fits(v: int, b: int, m: int, n: int)
    requires
        n == 2 * m,
        m >= 1,
        0 <= b <= 1,
        axis_fits(v, n),
    ensures
        axis_fits(2 * v + b, m),
{
    assert(v * n == 2 * (v * m)) by (nonlinear_arith)
        requires
            n == 2 * m,
    ;
    if b == 0 {
        assert((2 * v + b) * m == 2 * (v * m)) by (nonlinear_arith)
            requires
                b == 0,
        ;
    } else {
        assert((2 * v + b) * m == 2 * (v * m) + m) by (nonlinear_arith)
            requires
                b == 1,
        ;
    }
}

/// A chunk is visible exactly if a node that is near covers it: nodes that are not near make
/// nothing visible, and none that is near is left out.
pub proof fn law_near_nodes_make_chunks_visible(
    nodes: Seq<GpuNode>,
    near: Seq<bool>,
    n: int,
    c: ChunkCoord,
)
    requires
        0 <= n <= nodes.len(),
        near.len() == nodes.len(),
    ensures
        spec_chunk_visible(near_regions(nodes, near, n), c) <==> exists|i: int|
            0 <= i < n && near[i] && region_has(spec_region((#[trigger] nodes[i]).position), c),
    decreases n,
{
    if n > 0 {
        law_near_nodes_make_chunks_visible(nodes, near, n - 1, c);
        let before = near_regions(nodes, near, n - 1);
        let after = near_regions(nodes, near, n);
        if spec_chunk_visible(before, c) {
            let k = choose|k: int| 0 <= k < before.len() && region_has(#[trigger] before[k], c);
            assert(after[k] == before[k]);
        }
        if near[n - 1] {
            assert(after.last() == spec_region(nodes[n - 1].position));
            if region_has(after.last(), c) {
                assert(region_has(after[after.len() - 1], c));
            }
            if spec_chunk_visible(after, c) {
                let k = choose|k: int| 0 <= k < after.len() && region_has(#[trigger] after[k], c);
                if k < before.len() {
                    assert(before[k] == after[k]);
                }
            }
        }
    }
}

} // verus!

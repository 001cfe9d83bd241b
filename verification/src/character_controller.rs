//! What of the world stands in a walker's way.

use crate::block_definition;
use crate::block_definition::{is_block_solid_from_table, BlockPropertiesTable};
use crate::chunk;
use crate::chunk::ChunkNeighbors;
use crate::chunk_manager;
use crate::chunk_manager::LoadedChunks;
use crate::face;
use crate::palette;
use crate::types;
use crate::types::{split_block_pos, BlockId, BlockPos, ChunkCoord};
use vstd::prelude::*;

verus! {

/// The block at a place of the world; air where nothing is loaded.
pub open spec fn world_block(loaded: LoadedChunks, pos: BlockPos) -> BlockId {
    let c = types::chunk_of(pos);
    let l = types::local_of(pos);
    if loaded.entries@.contains_key(c) {
        loaded.entries@[c].data.block_at(l.0, l.1, l.2)
    } else {
        0
    }
}

/// The block at a place of the world; air where nothing is loaded.
pub fn get_block_at(loaded: &LoadedChunks, x: i32, y: i32, z: i32) -> (r: BlockId)
    requires
        loaded.wf(),
    ensures
        r == world_block(*loaded, BlockPos { x, y, z }),
{
    let (coord, (lx, ly, lz)) = split_block_pos(BlockPos { x, y, z });
    match loaded.entries.get(&coord) {
        Some(entry) => entry.data.get(lx, ly, lz),
        None => 0,
    }
}

/// Whether a block stands in the way.
pub open spec fn blocks_way(
    loaded: LoadedChunks,
    props: Option<&BlockPropertiesTable>,
    pos: BlockPos,
) -> bool {
    block_definition::solid_in(props, world_block(loaded, pos))
}

/// Whether a block stands in the way.
pub fn is_solid(
    loaded: &LoadedChunks,
    props: Option<&BlockPropertiesTable>,
    x: i32,
    y: i32,
    z: i32,
) -> (r: bool)
    requires
        loaded.wf(),
    ensures
        r == blocks_way(*loaded, props, BlockPos { x, y, z }),
{
    is_block_solid_from_table(props, get_block_at(loaded, x, y, z))
}

/// A block lies in a box, its corners included.
pub open spec fn in_box(lo: BlockPos, hi: BlockPos, p: BlockPos) -> bool {
    lo.x <= p.x <= hi.x && lo.y <= p.y <= hi.y && lo.z <= p.z <= hi.z
}

/// A block comes before another: by x, then y, then z.
pub open spec fn comes_before(a: BlockPos, b: BlockPos) -> bool {
    a.x < b.x || (a.x == b.x && (a.y < b.y || (a.y == b.y && a.z < b.z)))
}

/// The list holds the blocks of a box that stand in the way, in order.
pub open spec fn obstacles(
    loaded: LoadedChunks,
    props: Option<&BlockPropertiesTable>,
    lo: BlockPos,
    hi: BlockPos,
    v: Seq<BlockPos>,
) -> bool {
    &&& forall|i: int, j: int|
        0 <= i < j < v.len() ==> comes_before(#[trigger] v[i], #[trigger] v[j])
    &&& forall|p: BlockPos| #[trigger]
        v.contains(p) <==> in_box(lo, hi, p) && blocks_way(loaded, props, p)
}

/// The blocks of a box that stand in the way, by x, then y, then z.
pub fn solid_blocks_in(
    loaded: &LoadedChunks,
    props: Option<&BlockPropertiesTable>,
    lo: BlockPos,
    hi: BlockPos,
) -> (r: Vec<BlockPos>)
    requires
        loaded.wf(),
        hi.x < i32::MAX,
        hi.y < i32::MAX,
        hi.z < i32::MAX,
    ensures
        obstacles(*loaded, props, lo, hi, r@),
{
    let mut out: Vec<BlockPos> = Vec::new();
    let mut x: i32 = lo.x;
    while x <= hi.x
        invariant
            loaded.wf(),
            hi.x < i32::MAX,
            hi.y < i32::MAX,
            hi.z < i32::MAX,
            lo.x <= x,
            forall|i: int, j: int|
                0 <= i < j < out@.len() ==> comes_before(#[trigger] out@[i], #[trigger] out@[j]),
            forall|p: BlockPos| #[trigger]
                out@.contains(p) <==> in_box(lo, hi, p) && p.x < x && blocks_way(
                    *loaded,
                    props,
                    p,
                ),
        decreases hi.x - x + 1,
    {
        let mut y: i32 = lo.y;
        while y <= hi.y
            invariant
                loaded.wf(),
                hi.x < i32::MAX,
                hi.y < i32::MAX,
                hi.z < i32::MAX,
                lo.x <= x <= hi.x,
                lo.y <= y,
                forall|i: int, j: int|
                    0 <= i < j < out@.len() ==> comes_before(
                        #[trigger] out@[i],
                        #[trigger] out@[j],
                    ),
                forall|p: BlockPos| #[trigger]
                    out@.contains(p) <==> in_box(lo, hi, p) && (p.x < x || (p.x == x && p.y < y))
                        && blocks_way(*loaded, props, p),
            decreases hi.y - y + 1,
        {
            let mut z: i32 = lo.z;
            while z <= hi.z
                invariant
                    loaded.wf(),
                    hi.x < i32::MAX,
                    hi.y < i32::MAX,
                    hi.z < i32::MAX,
                    lo.x <= x <= hi.x,
                    lo.y <= y <= hi.y,
                    lo.z <= z,
                    forall|i: int, j: int|
                        0 <= i < j < out@.len() ==> comes_before(
                            #[trigger] out@[i],
                            #[trigger] out@[j],
                        ),
                    forall|p: BlockPos| #[trigger]
                        out@.contains(p) <==> in_box(lo, hi, p) && (p.x < x || (p.x == x && (p.y < y
                            || (p.y == y && p.z < z)))) && blocks_way(*loaded, props, p),
                decreases hi.z - z + 1,
            {
                let p: BlockPos = BlockPos { x, y, z };
                let ghost before = out@;
                if is_solid(loaded, props, x, y, z) {
                    out.push(p);
                    proof {
                        assert forall|i: int, j: int| 0 <= i < j < out@.len() implies comes_before(
                            #[trigger] out@[i],
                            #[trigger] out@[j],
                        ) by {
                            if j == before.len() {
                                assert(before.contains(before[i]));
                            } else {
                                assert(comes_before(before[i], before[j]));
                            }
                        }
                    }
                }
                proof {
                    assert forall|q: BlockPos| #[trigger]
                        out@.contains(q) <==> in_box(lo, hi, q) && (q.x < x || (q.x == x && (q.y < y
                            || (q.y == y && q.z < z + 1)))) && blocks_way(*loaded, props, q) by {
                        if before.contains(q) {
                            let k = choose|k: int| 0 <= k < before.len() && before[k] == q;
                            assert(out@[k] == q);
                        }
                        if out@.contains(q) && q != p {
                            let k = choose|k: int| 0 <= k < out@.len() && out@[k] == q;
                            assert(before[k] == q);
                        }
                        if blocks_way(*loaded, props, p) {
                            assert(out@[before.len() as int] == p);
                        }
                    }
                }
                z = z + 1;
            }
            y = y + 1;
        }
        x = x + 1;
    }
    out
}

/// What a chunk is shown with is the world: the block that is looked up across a face of
/// a block of a loaded chunk, with the neighbours that are loaded next to it, is the block
/// of the world next to that block in the direction of the face.
#[verifier::spinoff_prover]
#[verifier::rlimit(40)]
pub proof fn law_faces_look_into_the_world(
    loaded: LoadedChunks,
    coord: ChunkCoord,
    neighbors: ChunkNeighbors,
    x: int,
    y: int,
    z: int,
    f: int,
    pos: BlockPos,
)
    requires
        loaded.entries@.contains_key(coord),
        chunk_manager::neighbors_fit(coord),
        palette::in_chunk(x, y, z),
        0 <= f < 6,
        forall|i: int|
            0 <= i < 6 ==> match #[trigger] neighbors.neighbor_data@[i] {
                Some(data) => loaded.entries@.contains_key(chunk_manager::neighbor_of(coord, i))
                    && data == loaded.entries@[chunk_manager::neighbor_of(coord, i)].data,
                None => !loaded.entries@.contains_key(chunk_manager::neighbor_of(coord, i)),
            },
        pos.x == 32 * coord.cx + x + face::spec_face(f).spec_normal()[0],
        pos.y == 32 * coord.cy + y + face::spec_face(f).spec_normal()[1],
        pos.z == 32 * coord.cz + z + face::spec_face(f).spec_normal()[2],
    ensures
        chunk::across(
            *loaded.entries@[coord].data,
            neighbors,
            x + face::spec_face(f).spec_normal()[0],
            y + face::spec_face(f).spec_normal()[1],
            z + face::spec_face(f).spec_normal()[2],
            f,
        ) == world_block(loaded, pos),
{
    let n = face::spec_face(f).spec_normal();
    let chunk = *loaded.entries@[coord].data;
    let (a, b, c) = (x + n[0], y + n[1], z + n[2]);
    let there = chunk_manager::neighbor_of(coord, f);
    assert(-1 <= n[0] <= 1 && -1 <= n[1] <= 1 && -1 <= n[2] <= 1) by {
        face::law_faces_by_axis(f, 0);
        face::law_faces_by_axis(f, 1);
        face::law_faces_by_axis(f, 2);
    }
    assert((n[0] == 0 && n[1] == 0) || (n[0] == 0 && n[2] == 0) || (n[1] == 0 && n[2] == 0)) by {
        face::law_faces_by_axis(f, 0);
        face::law_faces_by_axis(f, 1);
        face::law_faces_by_axis(f, 2);
    }
    lemma_axis_step(pos.x as int, coord.cx as int, x, n[0] as int);
    lemma_axis_step(pos.y as int, coord.cy as int, y, n[1] as int);
    lemma_axis_step(pos.z as int, coord.cz as int, z, n[2] as int);
    assert(chunk::across(chunk, neighbors, a, b, c, f) == if palette::in_chunk(a, b, c) {
        chunk.block_at(a, b, c)
    } else {
        match neighbors.neighbor_data@[f] {
            Some(data) => data.block_at(a - 32 * n[0], b - 32 * n[1], c - 32 * n[2]),
            None => 0,
        }
    }) by {
        chunk::law_across_borders(chunk, neighbors, x, y, z, f);
    }
    if palette::in_chunk(a, b, c) {
        assert(types::chunk_of(pos) == coord);
        assert(types::local_of(pos) == (a, b, c));
    } else {
        assert(types::chunk_of(pos) == there);
        assert(types::local_of(pos) == (a - 32 * n[0], b - 32 * n[1], c - 32 * n[2]));
        assert(match neighbors.neighbor_data@[f] {
            Some(data) => loaded.entries@.contains_key(there) && data
                == loaded.entries@[there].data,
            None => !loaded.entries@.contains_key(there),
        });
    }
}

/// Along an axis, a step of at most one stays in the chunk or leads into the next.
proof fn lemma_axis_step(p: int, c: int, v: int, n: int)
    requires
        0 <= v < 32,
        -1 <= n <= 1,
        p == 32 * c + v + n,
    ensures
        0 <= v + n < 32 ==> p / 32 == c && p % 32 == v + n,
        !(0 <= v + n < 32) ==> p / 32 == c + n && p % 32 == v + n - 32 * n,
{
}

/// The world is made of the loaded chunks: the block at a place is that of the chunk that
/// reaches over it, counted from the chunk's first block, and air where none is loaded.
pub proof fn law_world_of_chunks(
    loaded: LoadedChunks,
    coord: ChunkCoord,
    pos: BlockPos,
    x: int,
    y: int,
    z: int,
)
    requires
        0 <= x < 32,
        0 <= y < 32,
        0 <= z < 32,
        pos.x == 32 * coord.cx + x,
        pos.y == 32 * coord.cy + y,
        pos.z == 32 * coord.cz + z,
    ensures
        world_block(loaded, pos) == if loaded.entries@.contains_key(coord) {
            loaded.entries@[coord].data.block_at(x, y, z)
        } else {
            0
        },
{
    assert(types::chunk_of(pos) == coord);
    assert(types::local_of(pos) == (x, y, z));
}

/// What stands in the way in a box is what does in its two parts, one after the other.
pub proof fn law_obstacles_of_parts(
    loaded: LoadedChunks,
    props: Option<&BlockPropertiesTable>,
    lo: BlockPos,
    hi: BlockPos,
    m: i32,
    v: Seq<BlockPos>,
    w: Seq<BlockPos>,
)
    requires
        lo.x <= m < hi.x,
        obstacles(loaded, props, lo, BlockPos { x: m, ..hi }, v),
        obstacles(loaded, props, BlockPos { x: (m + 1) as i32, ..lo }, hi, w),
    ensures
        obstacles(loaded, props, lo, hi, v + w),
{
    let s = v + w;
    assert forall|i: int, j: int| 0 <= i < j < s.len() implies comes_before(
        #[trigger] s[i],
        #[trigger] s[j],
    ) by {
        if i < v.len() && j >= v.len() {
            assert(v.contains(v[i]));
            assert(w.contains(w[j - v.len()]));
        }
    }
    assert forall|p: BlockPos| #[trigger] s.contains(p) <==> in_box(lo, hi, p) && blocks_way(
        loaded,
        props,
        p,
    ) by {
        if v.contains(p) {
            let k = choose|k: int| 0 <= k < v.len() && v[k] == p;
            assert(s[k] == p);
        }
        if w.contains(p) {
            let k = choose|k: int| 0 <= k < w.len() && w[k] == p;
            assert(s[v.len() + k] == p);
        }
        if s.contains(p) {
            let k = choose|k: int| 0 <= k < s.len() && s[k] == p;
            if k < v.len() {
                assert(v.contains(v[k]));
            } else {
                assert(w.contains(w[k - v.len()]));
            }
        }
    }
}

/// In a box of one block that block stands in the way if it is solid, and a box whose corners
/// are the wrong way round holds nothing.
pub proof fn law_obstacles_of_small_boxes(
    loaded: LoadedChunks,
    props: Option<&BlockPropertiesTable>,
    lo: BlockPos,
    hi: BlockPos,
    v: Seq<BlockPos>,
)
    requires
        obstacles(loaded, props, lo, hi, v),
    ensures
        lo.x > hi.x || lo.y > hi.y || lo.z > hi.z ==> v.len() == 0,
        lo == hi ==> v == if block_definition::solid_in(props, world_block(loaded, lo)) {
            seq![lo]
        } else {
            seq![]
        },
{
    assert forall|i: int| 0 <= i < v.len() implies in_box(lo, hi, #[trigger] v[i]) by {
        assert(v.contains(v[i]));
    }
    if v.len() > 0 {
        assert(in_box(lo, hi, v[0]));
        if lo == hi && v.len() > 1 {
            assert(in_box(lo, hi, v[1]));
            assert(comes_before(v[0], v[1]));
        }
        assert(v.contains(v[0]));
    }
    if lo == hi && block_definition::solid_in(props, world_block(loaded, lo)) {
        assert(v.contains(lo));
    }
}

/// What stands in the way is listed from smaller to larger x, at the same x from below, and at
/// the same x and height from smaller to larger z.
pub proof fn law_obstacles_in_order(
    loaded: LoadedChunks,
    props: Option<&BlockPropertiesTable>,
    lo: BlockPos,
    hi: BlockPos,
    v: Seq<BlockPos>,
    i: int,
    j: int,
)
    requires
        obstacles(loaded, props, lo, hi, v),
        0 <= i < j < v.len(),
    ensures
        v[i].x <= v[j].x,
        v[i].x == v[j].x ==> v[i].y <= v[j].y,
        v[i].x == v[j].x && v[i].y == v[j].y ==> v[i].z < v[j].z,
{
    assert(comes_before(v[i], v[j]));
}

} // verus!

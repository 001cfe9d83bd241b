//! Breaking and placing blocks.

use crate::character_controller;
use crate::chunk;
use crate::chunk::ChunkData;
use crate::chunk_manager;
use crate::chunk_manager::{ChunkEntry, ChunkManager, LoadedChunks};
use crate::lod::LodLevel;
use crate::palette;
use crate::raycast;
use crate::raycast::{RayPath, VoxelHit};
use crate::triangle_count;
use crate::types;
use crate::types::{split_block_pos, BlockId, BlockPos, ChunkCoord, AIR, CHUNK_SIZE};
use std::sync::Arc;
use vstd::prelude::*;

verus! {

/// The block that is placed.
pub const PLACE_BLOCK_ID: BlockId = 1;

/// The number of a mesh that does not exist.
pub const MISSING_MESH: u64 = u64::MAX;

/// The chunks next to a block at the edge of its chunk: below and above in x,
/// then in y, then in z.
pub open spec fn spec_boundary(c: ChunkCoord, l: (int, int, int)) -> Seq<ChunkCoord> {
    (if l.0 == 0 {
        seq![ChunkCoord { cx: (c.cx - 1) as i32, ..c }]
    } else {
        seq![]
    }) + (if l.0 == 31 {
        seq![ChunkCoord { cx: (c.cx + 1) as i32, ..c }]
    } else {
        seq![]
    }) + (if l.1 == 0 {
        seq![ChunkCoord { cy: (c.cy - 1) as i32, ..c }]
    } else {
        seq![]
    }) + (if l.1 == 31 {
        seq![ChunkCoord { cy: (c.cy + 1) as i32, ..c }]
    } else {
        seq![]
    }) + (if l.2 == 0 {
        seq![ChunkCoord { cz: (c.cz - 1) as i32, ..c }]
    } else {
        seq![]
    }) + (if l.2 == 31 {
        seq![ChunkCoord { cz: (c.cz + 1) as i32, ..c }]
    } else {
        seq![]
    })
}

/// The chunks next to a block at the edge of its chunk.
pub fn boundary_neighbor_coords(coord: ChunkCoord, local_pos: (usize, usize, usize)) -> (r: Vec<
    ChunkCoord,
>)
    requires
        chunk_manager::neighbors_fit(coord),
    ensures
        r@ == spec_boundary(
            coord,
            (local_pos.0 as int, local_pos.1 as int, local_pos.2 as int),
        ),
{
    let (lx, ly, lz) = local_pos;
    let mut out: Vec<ChunkCoord> = Vec::new();
    if lx == 0 {
        out.push(ChunkCoord { cx: coord.cx - 1, cy: coord.cy, cz: coord.cz });
    }
    if lx == CHUNK_SIZE - 1 {
        out.push(ChunkCoord { cx: coord.cx + 1, cy: coord.cy, cz: coord.cz });
    }
    if ly == 0 {
        out.push(ChunkCoord { cx: coord.cx, cy: coord.cy - 1, cz: coord.cz });
    }
    if ly == CHUNK_SIZE - 1 {
        out.push(ChunkCoord { cx: coord.cx, cy: coord.cy + 1, cz: coord.cz });
    }
    if lz == 0 {
        out.push(ChunkCoord { cx: coord.cx, cy: coord.cy, cz: coord.cz - 1 });
    }
    if lz == CHUNK_SIZE - 1 {
        out.push(ChunkCoord { cx: coord.cx, cy: coord.cy, cz: coord.cz + 1 });
    }
    assert(out@ =~= spec_boundary(coord, (lx as int, ly as int, lz as int)));
    out
}

/// The entities of those chunks of a list that are loaded.
pub open spec fn entities_of(
    entries: Map<ChunkCoord, ChunkEntry>,
    coords: Seq<ChunkCoord>,
) -> Seq<u64>
    decreases coords.len(),
{
    if coords.len() == 0 {
        seq![]
    } else {
        let before = entities_of(entries, coords.drop_last());
        if entries.contains_key(coords.last()) {
            before.push(entries[coords.last()].entity)
        } else {
            before
        }
    }
}

/// The entities of those chunks of a list that are loaded.
fn loaded_entities(loaded: &LoadedChunks, coords: &Vec<ChunkCoord>) -> (r: Vec<u64>)
    ensures
        r@ == entities_of(loaded.entries@, coords@),
{
    let mut out: Vec<u64> = Vec::new();
    let mut i: usize = 0;
    assert(coords@.take(0) =~= seq![]);
    while i < coords.len()
        invariant
            i <= coords@.len(),
            out@ == entities_of(loaded.entries@, coords@.take(i as int)),
        decreases coords@.len() - i,
    {
        assert(coords@.take(i + 1).drop_last() =~= coords@.take(i as int));
        match loaded.entries.get(&coords[i]) {
            Some(entry) => {
                out.push(entry.entity);
            },
            None => {},
        }
        i = i + 1;
    }
    assert(coords@.take(i as int) =~= coords@);
    out
}

/// A chunk whose blocks have changed.
pub struct BlockEdit {
    pub entity: u64,
    pub data: Arc<ChunkData>,
}

/// Nothing but the entries differs.
pub open spec fn same_but_entries(pre: ChunkManager, post: ChunkManager) -> bool {
    post.same_but_entries(pre) && post.lods == pre.lods
}

/// The block at `pos` has been set in its chunk, which `edit` describes.
pub open spec fn edited(
    pre: ChunkManager,
    post: ChunkManager,
    pos: BlockPos,
    id: BlockId,
    edit: BlockEdit,
) -> bool {
    let c = types::chunk_of(pos);
    let l = types::local_of(pos);
    let entry = pre.loaded.entries@[c];
    &&& pre.loaded.entries@.contains_key(c)
    &&& edit.entity == entry.entity
    &&& exists|same: ChunkData|
        {
            &&& same@ == entry.data@
            &&& same.kinds() == entry.data.kinds()
            &&& same is Empty == *entry.data is Empty
            &&& same is Uniform == *entry.data is Uniform
            &&& #[trigger] chunk::block_set(same, *edit.data, l.0, l.1, l.2, id)
        }
    &&& post.loaded.entries@ == pre.loaded.entries@.insert(
        c,
        ChunkEntry { data: edit.data, ..entry },
    )
}

/// The chunks next to the block at `pos`, if it is at the edge of its chunk,
/// that are loaded.
pub open spec fn touched_by(entries: Map<ChunkCoord, ChunkEntry>, pos: BlockPos) -> Seq<u64> {
    entities_of(entries, spec_boundary(types::chunk_of(pos), types::local_of(pos)))
}

/// What is to be done to place a block.
pub enum Placement {
    /// There is a block already.
    Occupied,
    /// The block has been placed in a loaded chunk.
    Placed(BlockEdit),
    /// The chunk is not loaded: it is to be made, with these blocks.
    NewChunk(ChunkCoord, ChunkData),
}

/// The block next to the face with direction `normal`.
pub open spec fn next_to(pos: BlockPos, normal: (i32, i32, i32)) -> BlockPos {
    BlockPos {
        x: (pos.x + normal.0) as i32,
        y: (pos.y + normal.1) as i32,
        z: (pos.z + normal.2) as i32,
    }
}

impl ChunkManager {
    /// Sets a block in a loaded chunk.
    fn edit_block(&mut self, pos: BlockPos, id: BlockId) -> (r: BlockEdit)
        requires
            old(self).wf(),
            old(self).loaded.entries@.contains_key(types::chunk_of(pos)),
        ensures
            final(self).wf(),
            same_but_entries(*old(self), *final(self)),
            edited(*old(self), *final(self), pos, id, r),
            old(self).counted() ==> final(self).counted(),
    {
        let (coord, (lx, ly, lz)) = split_block_pos(pos);
        let ghost pre = *self;
        match self.loaded.entries.remove(&coord) {
            Some(entry) => {
                let mut data: ChunkData = entry.data.duplicate();
                let ghost same = data;
                data.set(lx, ly, lz, id);
                let shared: Arc<ChunkData> = Arc::new(data);
                let entity: u64 = entry.entity;
                let fresh: ChunkEntry = ChunkEntry {
                    entity: entry.entity,
                    data: Arc::clone(&shared),
                    last_accessed: entry.last_accessed,
                    solid_mesh: entry.solid_mesh,
                    water_mesh: entry.water_mesh,
                    water_entity: entry.water_entity,
                    water_triangle_count: entry.water_triangle_count,
                    lod_level: entry.lod_level,
                    triangle_count: entry.triangle_count,
                };
                self.loaded.entries.insert(coord, fresh);
                proof {
                    assert(chunk::block_set(
                        same,
                        *shared,
                        lx as int,
                        ly as int,
                        lz as int,
                        id,
                    ));
                    assert(self.loaded.entries@ =~= pre.loaded.entries@.insert(coord, fresh));
                    pre.loaded.entries.lemma_finite();
                    triangle_count::lemma_counted_insert(pre, *self, coord, fresh);
                }
                BlockEdit { entity, data: shared }
            },
            None => {
                assert(false);
                BlockEdit { entity: 0, data: Arc::new(ChunkData::new()) }
            },
        }
    }

    /// Breaks the block at `pos`: it becomes air, if its chunk is loaded. Returns
    /// the change, and the entities of chunks next to the block that are to be
    /// drawn anew.
    pub fn destroy_block(&mut self, pos: BlockPos) -> (r: (Option<BlockEdit>, Vec<u64>))
        requires
            old(self).wf(),
        ensures
            final(self).wf(),
            same_but_entries(*old(self), *final(self)),
            r.0 is Some <==> old(self).loaded.entries@.contains_key(types::chunk_of(pos)),
            r.0 matches Some(edit) ==> edited(*old(self), *final(self), pos, AIR, edit),
            r.0 is None ==> final(self).loaded.entries == old(self).loaded.entries,
            r.1@ == touched_by(old(self).loaded.entries@, pos),
            old(self).counted() ==> final(self).counted(),
    {
        let (coord, local) = split_block_pos(pos);
        let boundary: Vec<ChunkCoord> = boundary_neighbor_coords(coord, local);
        let touched: Vec<u64> = loaded_entities(&self.loaded, &boundary);
        if self.loaded.entries.contains_key(&coord) {
            let edit: BlockEdit = self.edit_block(pos, AIR);
            (Some(edit), touched)
        } else {
            (None, touched)
        }
    }

    /// Places a block next to the face of the block at `pos`, if there is air.
    /// Returns what is to be done, and the entities of chunks next to the block
    /// that are to be drawn anew.
    pub fn place_block(&mut self, pos: BlockPos, normal: (i32, i32, i32)) -> (r: (
        Placement,
        Vec<u64>,
    ))
        requires
            old(self).wf(),
            i32::MIN <= pos.x + normal.0 <= i32::MAX,
            i32::MIN <= pos.y + normal.1 <= i32::MAX,
            i32::MIN <= pos.z + normal.2 <= i32::MAX,
        ensures
            final(self).wf(),
            same_but_entries(*old(self), *final(self)),
            ({
                let p = next_to(pos, normal);
                let c = types::chunk_of(p);
                let l = types::local_of(p);
                let entries = old(self).loaded.entries@;
                &&& r.1@ == touched_by(entries, p)
                &&& match r.0 {
                    Placement::Occupied => {
                        &&& entries.contains_key(c)
                        &&& entries[c].data.block_at(l.0, l.1, l.2) != 0
                        &&& final(self).loaded.entries == old(self).loaded.entries
                    },
                    Placement::Placed(edit) => {
                        &&& entries.contains_key(c)
                        &&& entries[c].data.block_at(l.0, l.1, l.2) == 0
                        &&& edited(*old(self), *final(self), p, PLACE_BLOCK_ID, edit)
                    },
                    Placement::NewChunk(coord, data) => {
                        &&& !entries.contains_key(c)
                        &&& coord == c
                        &&& data.wf()
                        &&& chunk::block_set(
                            ChunkData::Uniform(0),
                            data,
                            l.0,
                            l.1,
                            l.2,
                            PLACE_BLOCK_ID,
                        )
                        &&& final(self).loaded.entries == old(self).loaded.entries
                    },
                }
            }),
            old(self).counted() ==> final(self).counted(),
    {
        let p: BlockPos = BlockPos {
            x: pos.x + normal.0,
            y: pos.y + normal.1,
            z: pos.z + normal.2,
        };
        let (coord, local) = split_block_pos(p);
        let boundary: Vec<ChunkCoord> = boundary_neighbor_coords(coord, local);
        let touched: Vec<u64> = loaded_entities(&self.loaded, &boundary);
        let air: Option<bool> = match self.loaded.entries.get(&coord) {
            Some(entry) => Some(entry.data.get(local.0, local.1, local.2) == 0),
            None => None,
        };
        match air {
            Some(true) => {
                let edit: BlockEdit = self.edit_block(p, PLACE_BLOCK_ID);
                (Placement::Placed(edit), touched)
            },
            Some(false) => (Placement::Occupied, touched),
            None => {
                let mut data: ChunkData = ChunkData::filled(0);
                data.set(local.0, local.1, local.2, PLACE_BLOCK_ID);
                (Placement::NewChunk(coord, data), touched)
            },
        }
    }

    /// Enters a chunk that was made to place a block.
    pub fn register_chunk(&mut self, coord: ChunkCoord, entity: u64, data: Arc<ChunkData>)
        requires
            old(self).wf(),
            data.wf(),
        ensures
            final(self).wf(),
            same_but_entries(*old(self), *final(self)),
            final(self).loaded.entries@ == old(self).loaded.entries@.insert(
                coord,
                ChunkEntry {
                    entity,
                    data,
                    last_accessed: old(self).loaded.frame_counter,
                    solid_mesh: MISSING_MESH,
                    water_mesh: None,
                    water_entity: None,
                    water_triangle_count: 0,
                    lod_level: LodLevel::Lod0,
                    triangle_count: 0,
                },
            ),
            old(self).counted() && !old(self).loaded.entries@.contains_key(coord)
                ==> final(self).counted(),
    {
        let entry: ChunkEntry = ChunkEntry {
            entity,
            data,
            last_accessed: self.loaded.frame_counter,
            solid_mesh: MISSING_MESH,
            water_mesh: None,
            water_entity: None,
            water_triangle_count: 0,
            lod_level: LodLevel::Lod0,
            triangle_count: 0,
        };
        self.loaded.entries.insert(coord, entry);
        proof {
            if !old(self).loaded.entries@.contains_key(coord) {
                old(self).loaded.entries.lemma_finite();
                triangle_count::lemma_counted_insert(*old(self), *self, coord, entry);
            }
        }
    }
}

/// After an edit the block is what it was set to, and all other blocks of its chunk
/// and all other chunks are as they were.
pub proof fn law_edit_reads_back(
    pre: ChunkManager,
    post: ChunkManager,
    pos: BlockPos,
    id: BlockId,
    edit: BlockEdit,
)
    requires
        pre.wf(),
        edited(pre, post, pos, id, edit),
    ensures
        ({
            let c = types::chunk_of(pos);
            let l = types::local_of(pos);
            &&& post.loaded.entries@[c].data.block_at(l.0, l.1, l.2) == id
            &&& forall|x: int, y: int, z: int|
                palette::in_chunk(x, y, z) && (x, y, z) != l
                    ==> #[trigger] post.loaded.entries@[c].data.block_at(x, y, z)
                    == pre.loaded.entries@[c].data.block_at(x, y, z)
            &&& forall|d: ChunkCoord| #[trigger]
                pre.loaded.entries@.contains_key(d) && d != c ==> post.loaded.entries@[d]
                    == pre.loaded.entries@[d]
        }),
{
    let c = types::chunk_of(pos);
    let l = types::local_of(pos);
    let entry = pre.loaded.entries@[c];
    let same = choose|same: ChunkData|
        {
            &&& same@ == entry.data@
            &&& same.kinds() == entry.data.kinds()
            &&& same is Empty == *entry.data is Empty
            &&& same is Uniform == *entry.data is Uniform
            &&& #[trigger] chunk::block_set(same, *edit.data, l.0, l.1, l.2, id)
        };
    match *entry.data {
        ChunkData::Paletted(data) => {
            data.lemma_wf();
        },
        _ => {},
    }
    chunk::law_block_index(l.0, l.1, l.2, l.0, l.1, l.2);
    assert forall|x: int, y: int, z: int| palette::in_chunk(x, y, z) && (x, y, z) != l implies (
    #[trigger] post.loaded.entries@[c].data.block_at(x, y, z)) == pre.loaded.entries@[c].data.block_at(
        x,
        y,
        z,
    ) by {
        chunk::law_block_index(l.0, l.1, l.2, x, y, z);
    }
}

/// The chunks that are to be drawn anew with a block are those that hold a block next to
/// it, other than its own chunk: a chunk is one of them if and only if it holds the block
/// across one of the six faces.
pub proof fn law_touched_chunks_hold_neighbours(pos: BlockPos, d: ChunkCoord)
    requires
        i32::MIN < pos.x < i32::MAX,
        i32::MIN < pos.y < i32::MAX,
        i32::MIN < pos.z < i32::MAX,
    ensures
        ({
            let touched = spec_boundary(types::chunk_of(pos), types::local_of(pos));
            let home = types::chunk_of(pos);
            touched.contains(d) <==> d != home && (d == types::chunk_of(
                BlockPos { x: (pos.x + 1) as i32, ..pos },
            ) || d == types::chunk_of(BlockPos { x: (pos.x - 1) as i32, ..pos }) || d
                == types::chunk_of(BlockPos { y: (pos.y + 1) as i32, ..pos }) || d == types::chunk_of(
                BlockPos { y: (pos.y - 1) as i32, ..pos },
            ) || d == types::chunk_of(BlockPos { z: (pos.z + 1) as i32, ..pos }) || d
                == types::chunk_of(BlockPos { z: (pos.z - 1) as i32, ..pos }))
        }),
{
    let c = types::chunk_of(pos);
    let l = types::local_of(pos);
    let parts = seq![
        (l.0 == 0, ChunkCoord { cx: (c.cx - 1) as i32, ..c }),
        (l.0 == 31, ChunkCoord { cx: (c.cx + 1) as i32, ..c }),
        (l.1 == 0, ChunkCoord { cy: (c.cy - 1) as i32, ..c }),
        (l.1 == 31, ChunkCoord { cy: (c.cy + 1) as i32, ..c }),
        (l.2 == 0, ChunkCoord { cz: (c.cz - 1) as i32, ..c }),
        (l.2 == 31, ChunkCoord { cz: (c.cz + 1) as i32, ..c }),
    ];
    lemma_list_of_parts(c, l, d);
    assert(types::chunk_of(BlockPos { x: (pos.x + 1) as i32, ..pos }) == if l.0 == 31 {
        parts[1].1
    } else {
        c
    });
    assert(types::chunk_of(BlockPos { x: (pos.x - 1) as i32, ..pos }) == if l.0 == 0 {
        parts[0].1
    } else {
        c
    });
    assert(types::chunk_of(BlockPos { y: (pos.y + 1) as i32, ..pos }) == if l.1 == 31 {
        parts[3].1
    } else {
        c
    });
    assert(types::chunk_of(BlockPos { y: (pos.y - 1) as i32, ..pos }) == if l.1 == 0 {
        parts[2].1
    } else {
        c
    });
    assert(types::chunk_of(BlockPos { z: (pos.z + 1) as i32, ..pos }) == if l.2 == 31 {
        parts[5].1
    } else {
        c
    });
    assert(types::chunk_of(BlockPos { z: (pos.z - 1) as i32, ..pos }) == if l.2 == 0 {
        parts[4].1
    } else {
        c
    });
}

/// What one list or another holds.
proof fn lemma_in_both<A>(a: Seq<A>, b: Seq<A>, d: A)
    ensures
        (a + b).contains(d) <==> a.contains(d) || b.contains(d),
{
    let s = a + b;
    if a.contains(d) {
        let k = choose|k: int| 0 <= k < a.len() && a[k] == d;
        assert(s[k] == d);
    }
    if b.contains(d) {
        let k = choose|k: int| 0 <= k < b.len() && b[k] == d;
        assert(s[a.len() + k] == d);
    }
    if s.contains(d) {
        let k = choose|k: int| 0 <= k < s.len() && s[k] == d;
        if k < a.len() {
            assert(a[k] == d);
        } else {
            assert(b[k - a.len()] == d);
        }
    }
}

/// What a list of at most one chunk holds.
proof fn lemma_in_one(take: bool, c: ChunkCoord, d: ChunkCoord)
    ensures
        (if take {
            seq![c]
        } else {
            seq![]
        }).contains(d) <==> take && d == c,
{
    if take {
        assert(seq![c][0] == c);
    }
}

/// What the list of the chunks at the edges of a chunk holds.
proof fn lemma_list_of_parts(c: ChunkCoord, l: (int, int, int), d: ChunkCoord)
    ensures
        spec_boundary(c, l).contains(d) <==> {
            ||| l.0 == 0 && d == (ChunkCoord { cx: (c.cx - 1) as i32, ..c })
            ||| l.0 == 31 && d == (ChunkCoord { cx: (c.cx + 1) as i32, ..c })
            ||| l.1 == 0 && d == (ChunkCoord { cy: (c.cy - 1) as i32, ..c })
            ||| l.1 == 31 && d == (ChunkCoord { cy: (c.cy + 1) as i32, ..c })
            ||| l.2 == 0 && d == (ChunkCoord { cz: (c.cz - 1) as i32, ..c })
            ||| l.2 == 31 && d == (ChunkCoord { cz: (c.cz + 1) as i32, ..c })
        },
{
    let one = |take: bool, e: ChunkCoord|
        if take {
            seq![e]
        } else {
            seq![]
        };
    let a = one(l.0 == 0, ChunkCoord { cx: (c.cx - 1) as i32, ..c });
    let b = one(l.0 == 31, ChunkCoord { cx: (c.cx + 1) as i32, ..c });
    let e = one(l.1 == 0, ChunkCoord { cy: (c.cy - 1) as i32, ..c });
    let f = one(l.1 == 31, ChunkCoord { cy: (c.cy + 1) as i32, ..c });
    let g = one(l.2 == 0, ChunkCoord { cz: (c.cz - 1) as i32, ..c });
    let h = one(l.2 == 31, ChunkCoord { cz: (c.cz + 1) as i32, ..c });
    assert(spec_boundary(c, l) == a + b + e + f + g + h);
    lemma_in_both(a, b, d);
    lemma_in_both(a + b, e, d);
    lemma_in_both(a + b + e, f, d);
    lemma_in_both(a + b + e + f, g, d);
    lemma_in_both(a + b + e + f + g, h, d);
    lemma_in_one(l.0 == 0, ChunkCoord { cx: (c.cx - 1) as i32, ..c }, d);
    lemma_in_one(l.0 == 31, ChunkCoord { cx: (c.cx + 1) as i32, ..c }, d);
    lemma_in_one(l.1 == 0, ChunkCoord { cy: (c.cy - 1) as i32, ..c }, d);
    lemma_in_one(l.1 == 31, ChunkCoord { cy: (c.cy + 1) as i32, ..c }, d);
    lemma_in_one(l.2 == 0, ChunkCoord { cz: (c.cz - 1) as i32, ..c }, d);
    lemma_in_one(l.2 == 31, ChunkCoord { cz: (c.cz + 1) as i32, ..c }, d);
}

/// The entities of the chunks of a list are those of its chunks that are loaded.
pub proof fn law_entities_of_loaded(
    entries: Map<ChunkCoord, ChunkEntry>,
    coords: Seq<ChunkCoord>,
    entity: u64,
)
    ensures
        entities_of(entries, coords).contains(entity) <==> exists|k: int|
            0 <= k < coords.len() && entries.contains_key(#[trigger] coords[k])
                && entries[coords[k]].entity == entity,
        entities_of(entries, coords).len() <= coords.len(),
    decreases coords.len(),
{
    if coords.len() > 0 {
        let short = coords.drop_last();
        let last = coords.last();
        law_entities_of_loaded(entries, short, entity);
        let one = if entries.contains_key(last) {
            seq![entries[last].entity]
        } else {
            seq![]
        };
        assert(entities_of(entries, coords) =~= entities_of(entries, short) + one);
        lemma_in_both(entities_of(entries, short), one, entity);
        assert(coords[coords.len() - 1] == last);
        if entries.contains_key(last) {
            assert(one[0] == entries[last].entity);
        }
        if entities_of(entries, short).contains(entity) {
            let k = choose|k: int|
                0 <= k < short.len() && entries.contains_key(#[trigger] short[k])
                    && entries[short[k]].entity == entity;
            assert(coords[k] == short[k]);
        }
        if exists|k: int|
            0 <= k < coords.len() && entries.contains_key(#[trigger] coords[k])
                && entries[coords[k]].entity == entity {
            let k = choose|k: int|
                0 <= k < coords.len() && entries.contains_key(#[trigger] coords[k])
                    && entries[coords[k]].entity == entity;
            if k < short.len() {
                assert(short[k] == coords[k]);
            }
        }
    }
}

/// A block that is placed on the face that a ray has met stands where the ray came from.
pub proof fn law_placed_where_the_ray_came_from(path: RayPath, k: int, hit: VoxelHit)
    requires
        path.fits(),
        1 <= k <= path.axes@.len(),
        k <= 192,
        (hit.block_pos.x as int, hit.block_pos.y as int, hit.block_pos.z as int)
            == path.block_after(k),
        (hit.normal.0 as int, hit.normal.1 as int, hit.normal.2 as int) == path.normal_after(k),
    ensures
        ({
            let p = next_to(hit.block_pos, hit.normal);
            (p.x as int, p.y as int, p.z as int) == path.block_after(k - 1)
        }),
{
    raycast::law_steps_are_adjacent(path, k);
    lemma_path_near(path, k - 1);
}

/// After `k` steps a ray is no more than `k` blocks away along each axis.
proof fn lemma_path_near(path: RayPath, k: int)
    requires
        0 <= k <= path.axes@.len(),
    ensures
        path.start.x - k <= path.block_after(k).0 <= path.start.x + k,
        path.start.y - k <= path.block_after(k).1 <= path.start.y + k,
        path.start.z - k <= path.block_after(k).2 <= path.start.z + k,
    decreases k,
{
    if k > 0 {
        lemma_path_near(path, k - 1);
    }
}

/// After an edit the block of the world at its place is what it was set to, and the block
/// at every other place of the world is what it was.
pub proof fn law_edit_changes_one_block(
    pre: ChunkManager,
    post: ChunkManager,
    pos: BlockPos,
    id: BlockId,
    edit: BlockEdit,
    other: BlockPos,
)
    requires
        pre.wf(),
        edited(pre, post, pos, id, edit),
        other != pos,
    ensures
        character_controller::world_block(post.loaded, pos) == id,
        character_controller::world_block(post.loaded, other) == character_controller::world_block(
            pre.loaded,
            other,
        ),
{
    law_edit_reads_back(pre, post, pos, id, edit);
    types::law_chunk_and_local(pos);
    types::law_chunk_and_local(other);
    let c = types::chunk_of(pos);
    let d = types::chunk_of(other);
    let l = types::local_of(other);
    if d == c {
        assert(l != types::local_of(pos));
        assert(palette::in_chunk(l.0, l.1, l.2));
    }
}

} // verus!

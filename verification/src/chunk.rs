//! Voxel chunks: 32 x 32 x 32 blocks, stored as compactly as their contents
//! allow.

use crate::block_definition;
use crate::block_definition::{is_block_solid_from_table, BlockPropertiesTable};
use crate::face;
use crate::palette;
use crate::palette::PalettedChunkData;
use crate::types::{BlockId, AIR, CHUNK_SIZE, CHUNK_VOLUME};
use std::sync::Arc;
use vstd::prelude::*;

verus! {

/// What kind of world is generated.
#[derive(Debug, Clone, Copy, PartialEq, Eq, Hash, Structural)]
pub enum WorldType {
    /// Rolling terrain made from noise.
    Noise,
    /// Flat ground.
    Flat,
    /// Nothing but air.
    Void,
    /// A fractal of stone round the origin.
    MengerSponge,
}

impl Default for WorldType {
    /// Rolling terrain.
    fn default() -> (r: Self)
        ensures
            r == WorldType::Noise,
    {
        WorldType::Noise
    }
}

/// Whether a block hides the faces next to it.
pub fn is_block_solid(props: Option<&BlockPropertiesTable>, block_id: BlockId) -> (r: bool)
    ensures
        r == block_definition::solid_in(props, block_id),
{
    is_block_solid_from_table(props, block_id)
}

/// The face between a block and its neighbour is hidden: both are the same kind
/// and not air, or the neighbour is solid.
pub open spec fn culled(
    props: Option<&BlockPropertiesTable>,
    current_id: BlockId,
    neighbor_id: BlockId,
) -> bool {
    (neighbor_id == current_id && neighbor_id != AIR) || block_definition::solid_in(
        props,
        neighbor_id,
    )
}

/// Whether the face between a block and its neighbour is hidden.
pub fn should_cull_face(
    props: Option<&BlockPropertiesTable>,
    current_id: BlockId,
    neighbor_id: BlockId,
) -> (r: bool)
    ensures
        r == culled(props, current_id, neighbor_id),
{
    if neighbor_id == current_id && neighbor_id != AIR {
        return true;
    }
    if is_block_solid(props, neighbor_id) {
        return true;
    }
    false
}

/// The blocks of a chunk.
#[derive(Clone)]
pub enum ChunkData {
    /// Nothing but air.
    Empty,
    /// One kind of block throughout.
    Uniform(BlockId),
    /// Several kinds of block.
    Paletted(PalettedChunkData),
}

/// Another name for the blocks of a chunk.
pub type Chunk = ChunkData;

impl View for ChunkData {
    type V = Seq<BlockId>;

    open spec fn view(&self) -> Seq<BlockId> {
        match self {
            ChunkData::Empty => Seq::new(CHUNK_VOLUME as nat, |i: int| AIR),
            ChunkData::Uniform(id) => Seq::new(CHUNK_VOLUME as nat, |i: int| *id),
            ChunkData::Paletted(data) => data@,
        }
    }
}

impl ChunkData {
    /// The stored indices are consistent.
    pub open spec fn wf(&self) -> bool {
        match self {
            ChunkData::Paletted(data) => data.wf(),
            _ => true,
        }
    }

    /// The block at a place. Outside the chunk it is the block that fills a
    /// uniform chunk, and else air.
    pub open spec fn block_at(&self, x: int, y: int, z: int) -> BlockId {
        if palette::in_chunk(x, y, z) {
            self@[palette::block_index(x, y, z)]
        } else {
            match self {
                ChunkData::Uniform(id) => *id,
                _ => AIR,
            }
        }
    }

    /// The kinds of block that a chunk may hold.
    pub open spec fn kinds(&self) -> Seq<BlockId> {
        match self {
            ChunkData::Empty => seq![],
            ChunkData::Uniform(id) => seq![*id],
            ChunkData::Paletted(data) => data.palette_spec(),
        }
    }

    /// An empty chunk.
    pub fn new() -> (r: Self)
        ensures
            r == ChunkData::Empty,
    {
        ChunkData::Empty
    }

    /// A chunk filled with one kind of block.
    pub fn filled(block_id: BlockId) -> (r: Self)
        ensures
            r == ChunkData::Uniform(block_id),
    {
        ChunkData::Uniform(block_id)
    }

    /// Another chunk with the same contents.
    pub fn duplicate(&self) -> (r: Self)
        requires
            self.wf(),
        ensures
            r.wf(),
            r@ == self@,
            r.kinds() == self.kinds(),
            r is Empty == self is Empty,
            r is Uniform == self is Uniform,
    {
        match self {
            ChunkData::Empty => ChunkData::Empty,
            ChunkData::Uniform(id) => ChunkData::Uniform(*id),
            ChunkData::Paletted(data) => ChunkData::Paletted(data.duplicate()),
        }
    }

    /// The block at a place.
    pub fn get(&self, x: usize, y: usize, z: usize) -> (r: BlockId)
        requires
            self.wf(),
        ensures
            r == self.block_at(x as int, y as int, z as int),
    {
        match self {
            ChunkData::Empty => AIR,
            ChunkData::Uniform(id) => *id,
            ChunkData::Paletted(data) => data.get(x, y, z),
        }
    }

    /// Sets the block at a place. Outside the chunk nothing happens.
    pub fn set(&mut self, x: usize, y: usize, z: usize, id: BlockId)
        requires
            old(self).wf(),
        ensures
            final(self).wf(),
            block_set(*old(self), *final(self), x as int, y as int, z as int, id),
    {
        if x >= CHUNK_SIZE || y >= CHUNK_SIZE || z >= CHUNK_SIZE {
            return;
        }
        let ghost before = self@;
        match self {
            ChunkData::Empty => {
                let ghost k = palette::block_index(x as int, y as int, z as int);
                if id == AIR {
                    assert(before.update(k, id) =~= Seq::new(CHUNK_VOLUME as nat, |i: int| id));
                    *self = ChunkData::Uniform(id);
                } else {
                    let mut data: PalettedChunkData = PalettedChunkData::new();
                    assert(data@ =~= before);
                    data.set(x, y, z, id);
                    *self = ChunkData::Paletted(data);
                }
            },
            ChunkData::Uniform(current) => {
                let current_id: BlockId = *current;
                if current_id != id {
                    let mut data: PalettedChunkData = PalettedChunkData::new();
                    if current_id != AIR {
                        let palette_index: u8 = data.add_or_get_palette_index(current_id);
                        data.fill_all(palette_index);
                    } else {
                        assert(seq![AIR][0] == AIR);
                        assert(seq![AIR].contains(AIR));
                    }
                    assert(data@ =~= before);
                    data.set(x, y, z, id);
                    *self = ChunkData::Paletted(data);
                } else {
                    proof {
                        let k = palette::block_index(x as int, y as int, z as int);
                        assert(before.update(k, id) =~= before);
                    }
                }
            },
            ChunkData::Paletted(data) => {
                data.set(x, y, z, id);
            },
        }
    }

    /// Whether a face of a block is visible. The neighbour of a block at the
    /// edge lies in the chunk next to it, where the coordinates start anew.
    pub fn is_face_visible(
        &self,
        x: usize,
        y: usize,
        z: usize,
        face: &[i32; 3],
        face_index: usize,
        neighbors: &ChunkNeighbors,
        props: Option<&BlockPropertiesTable>,
    ) -> (r: bool)
        requires
            self.wf(),
            neighbors.wf(),
            face_index < 6,
            x <= i32::MAX,
            y <= i32::MAX,
            z <= i32::MAX,
            i32::MIN <= x + face@[0] <= i32::MAX,
            i32::MIN <= y + face@[1] <= i32::MAX,
            i32::MIN <= z + face@[2] <= i32::MAX,
        ensures
            r == !culled(
                props,
                self.block_at(x as int, y as int, z as int),
                across(
                    *self,
                    *neighbors,
                    x + face@[0],
                    y + face@[1],
                    z + face@[2],
                    face_index as int,
                ),
            ),
    {
        let neighbor_id: BlockId = block_across(
            self,
            neighbors,
            x as i32 + face[0],
            y as i32 + face[1],
            z as i32 + face[2],
            face_index,
        );
        let current_id: BlockId = self.get(x, y, z);
        !should_cull_face(props, current_id, neighbor_id)
    }

    /// The bytes that the blocks take.
    pub fn memory_usage(&self) -> (r: usize)
        requires
            self.wf(),
        ensures
            r == match self {
                ChunkData::Empty => 0,
                ChunkData::Uniform(_) => 2,
                ChunkData::Paletted(_) => self.kinds().len() * 2
                    + palette::spec_bits_for_palette(self.kinds().len() as int) * 4096,
            },
    {
        match self {
            ChunkData::Empty => 0,
            ChunkData::Uniform(_) => 2,
            ChunkData::Paletted(data) => {
                proof {
                    data.lemma_wf();
                }
                data.palette_len() * 2 + data.packed_len() * 8
            },
        }
    }

    /// Whether a chunk may hold a kind of block.
    pub fn contains_block(&self, block_id: BlockId) -> (r: bool)
        requires
            self.wf(),
        ensures
            r == self.kinds().contains(block_id),
    {
        match self {
            ChunkData::Empty => false,
            ChunkData::Uniform(id) => {
                assert(self.kinds()[0] == *id);
                *id == block_id
            },
            ChunkData::Paletted(data) => data.palette_contains(block_id),
        }
    }
}

impl Default for ChunkData {
    /// An empty chunk.
    fn default() -> (r: Self)
        ensures
            r == ChunkData::Empty,
    {
        ChunkData::Empty
    }
}

/// The block at a place has been set, and no other block has changed; its kind
/// joins those that the chunk may hold. Outside the chunk nothing happens.
pub open spec fn block_set(
    pre: ChunkData,
    post: ChunkData,
    x: int,
    y: int,
    z: int,
    id: BlockId,
) -> bool {
    if !palette::in_chunk(x, y, z) {
        post == pre
    } else {
        &&& post@ == pre@.update(palette::block_index(x, y, z), id)
        &&& match pre {
            ChunkData::Empty => {
                &&& id == AIR ==> post == ChunkData::Uniform(AIR)
                &&& id != AIR ==> post is Paletted && post.kinds() == palette::palette_with(
                    seq![AIR],
                    id,
                )
            },
            ChunkData::Uniform(current) => {
                &&& current == id ==> post == pre
                &&& current != id ==> post is Paletted && post.kinds() == palette::palette_with(
                    palette::palette_with(seq![AIR], current),
                    id,
                )
            },
            ChunkData::Paletted(data) => post is Paletted && post.kinds() == palette::palette_with(
                data.palette_spec(),
                id,
            ),
        }
    }
}

/// What was set is read back, and no other block changes.
pub proof fn law_set_then_get(
    pre: ChunkData,
    post: ChunkData,
    x: int,
    y: int,
    z: int,
    id: BlockId,
    a: int,
    b: int,
    c: int,
)
    requires
        pre.wf(),
        block_set(pre, post, x, y, z, id),
        palette::in_chunk(x, y, z),
        palette::in_chunk(a, b, c),
    ensures
        post.block_at(x, y, z) == id,
        (a, b, c) != (x, y, z) ==> post.block_at(a, b, c) == pre.block_at(a, b, c),
{
    law_block_index(x, y, z, a, b, c);
    match pre {
        ChunkData::Paletted(data) => {
            data.lemma_wf();
        },
        _ => {},
    }
}

/// Whether a chunk holds nothing but air.
pub open spec fn all_air(chunk: ChunkData) -> bool {
    forall|i: int| 0 <= i < CHUNK_VOLUME ==> #[trigger] chunk@[i] == AIR
}

/// Whether a chunk holds nothing but air.
pub fn is_air_chunk(chunk: &ChunkData) -> (r: bool)
    requires
        chunk.wf(),
    ensures
        r == all_air(*chunk),
{
    match chunk {
        ChunkData::Empty => {
            assert(chunk@ == Seq::new(CHUNK_VOLUME as nat, |i: int| AIR));
            true
        },
        ChunkData::Uniform(id) => {
            assert(chunk@ == Seq::new(CHUNK_VOLUME as nat, |i: int| *id));
            assert(chunk@[0] == *id);
            *id == 0
        },
        ChunkData::Paletted(data) => {
            let r: bool = data.is_empty();
            assert(chunk@ == data@);
            assert(r == all_air(*chunk)) by {
                if !r {
                    let i = choose|i: int|
                        0 <= i < CHUNK_VOLUME && !(#[trigger] data@[i] == AIR);
                    assert(chunk@[i] != AIR);
                }
            }
            r
        },
    }
}

/// The chunks next to a chunk, in the order of the faces.
pub struct ChunkNeighbors {
    pub neighbor_data: [Option<Arc<ChunkData>>; 6],
}

impl ChunkNeighbors {
    /// The neighbours are consistent.
    pub open spec fn wf(&self) -> bool {
        forall|i: int|
            0 <= i < 6 ==> match #[trigger] self.neighbor_data@[i] {
                Some(data) => data.wf(),
                None => true,
            }
    }

    /// The block of a neighbour; air where there is no neighbour or outside it.
    pub open spec fn neighbor_block(&self, face_index: int, x: int, y: int, z: int) -> BlockId {
        match self.neighbor_data@[face_index] {
            Some(data) => if palette::in_chunk(x, y, z) {
                data@[palette::block_index(x, y, z)]
            } else {
                0
            },
            None => 0,
        }
    }

    /// No neighbours.
    pub fn empty() -> (r: Self)
        ensures
            r.wf(),
            forall|i: int| 0 <= i < 6 ==> #[trigger] r.neighbor_data@[i] is None,
    {
        Self { neighbor_data: [None, None, None, None, None, None] }
    }

    /// The block of a neighbour; air where there is no neighbour or outside it.
    pub fn get_neighbor_block(&self, face_index: usize, x: usize, y: usize, z: usize) -> (r: BlockId)
        requires
            self.wf(),
            face_index < 6,
        ensures
            r == self.neighbor_block(face_index as int, x as int, y as int, z as int),
    {
        match &self.neighbor_data[face_index] {
            Some(data) => {
                if x < CHUNK_SIZE && y < CHUNK_SIZE && z < CHUNK_SIZE {
                    data.get(x, y, z)
                } else {
                    0
                }
            },
            None => 0,
        }
    }
}

/// The block at a place that may lie in the chunk next to this one.
pub open spec fn across(
    chunk: ChunkData,
    neighbors: ChunkNeighbors,
    nx: int,
    ny: int,
    nz: int,
    face_index: int,
) -> BlockId {
    if palette::in_chunk(nx, ny, nz) {
        chunk@[palette::block_index(nx, ny, nz)]
    } else {
        neighbors.neighbor_block(face_index, nx % 32, ny % 32, nz % 32)
    }
}

/// The block at a place that may lie in the chunk next to this one.
pub fn block_across(
    chunk: &ChunkData,
    neighbors: &ChunkNeighbors,
    nx: i32,
    ny: i32,
    nz: i32,
    face_index: usize,
) -> (r: BlockId)
    requires
        chunk.wf(),
        neighbors.wf(),
        face_index < 6,
    ensures
        r == across(*chunk, *neighbors, nx as int, ny as int, nz as int, face_index as int),
{
    if nx >= 0 && ny >= 0 && nz >= 0 && nx < CHUNK_SIZE as i32 && ny < CHUNK_SIZE as i32 && nz
        < CHUNK_SIZE as i32 {
        chunk.get(nx as usize, ny as usize, nz as usize)
    } else {
        neighbors.get_neighbor_block(
            face_index,
            crate::types::rem_chunk(nx),
            crate::types::rem_chunk(ny),
            crate::types::rem_chunk(nz),
        )
    }
}

/// A chunk that holds a kind of block is never said not to.
pub proof fn law_kinds_cover(chunk: ChunkData, i: int)
    requires
        chunk.wf(),
        0 <= i < CHUNK_VOLUME,
        !(chunk is Empty),
    ensures
        chunk.kinds().contains(chunk@[i]),
{
    match chunk {
        ChunkData::Uniform(id) => {
            assert(chunk.kinds()[0] == id);
        },
        ChunkData::Paletted(data) => {
            data.lemma_wf();
        },
        ChunkData::Empty => {},
    }
}

/// Different places in a chunk have different indices.
pub proof fn law_block_index(x: int, y: int, z: int, a: int, b: int, c: int)
    requires
        palette::in_chunk(x, y, z),
        palette::in_chunk(a, b, c),
    ensures
        0 <= palette::block_index(x, y, z) < CHUNK_VOLUME,
        palette::block_index(x, y, z) == palette::block_index(a, b, c) ==> x == a && y == b && z
            == c,
{
}

/// The block across a face of a block of a chunk lies next to it. At the border of the
/// chunk it is a block of the neighbour on that side, at the same place but for the
/// coordinate across the border, which starts anew: block 0 lies across block 31, and
/// block 31 across block 0.
pub proof fn law_across_borders(
    chunk: ChunkData,
    neighbors: ChunkNeighbors,
    x: int,
    y: int,
    z: int,
    f: int,
)
    requires
        palette::in_chunk(x, y, z),
        0 <= f < 6,
    ensures
        ({
            let n = face::spec_face(f).spec_normal();
            let (a, b, c) = (x + n[0], y + n[1], z + n[2]);
            across(chunk, neighbors, a, b, c, f) == if 0 <= a < 32 && 0 <= b < 32 && 0 <= c < 32 {
                chunk.block_at(a, b, c)
            } else {
                match neighbors.neighbor_data@[f] {
                    Some(data) => data.block_at(a - 32 * n[0], b - 32 * n[1], c - 32 * n[2]),
                    None => 0,
                }
            }
        }),
        x == 31 ==> across(chunk, neighbors, 32, y, z, 0) == match neighbors.neighbor_data@[0] {
            Some(data) => data.block_at(0, y, z),
            None => 0,
        },
        x == 0 ==> across(chunk, neighbors, -1, y, z, 1) == match neighbors.neighbor_data@[1] {
            Some(data) => data.block_at(31, y, z),
            None => 0,
        },
        y == 31 ==> across(chunk, neighbors, x, 32, z, 2) == match neighbors.neighbor_data@[2] {
            Some(data) => data.block_at(x, 0, z),
            None => 0,
        },
        y == 0 ==> across(chunk, neighbors, x, -1, z, 3) == match neighbors.neighbor_data@[3] {
            Some(data) => data.block_at(x, 31, z),
            None => 0,
        },
        z == 31 ==> across(chunk, neighbors, x, y, 32, 4) == match neighbors.neighbor_data@[4] {
            Some(data) => data.block_at(x, y, 0),
            None => 0,
        },
        z == 0 ==> across(chunk, neighbors, x, y, -1, 5) == match neighbors.neighbor_data@[5] {
            Some(data) => data.block_at(x, y, 31),
            None => 0,
        },
{
}

/// A block hides the face of another that touches it if it is solid or of the same kind;
/// air and, where nothing is said of the kinds of block, water hide no other kind. Of two
/// blocks of different kinds each hides the other's face if it is solid, whatever the
/// other is.
pub proof fn law_hidden_faces(
    props: Option<&BlockPropertiesTable>,
    current_id: BlockId,
    other_id: BlockId,
    neighbor_id: BlockId,
)
    ensures
        neighbor_id != 0 ==> culled(props, neighbor_id, neighbor_id),
        props is None && neighbor_id == 0 ==> !culled(props, current_id, neighbor_id),
        props is None && neighbor_id == 5 ==> (culled(props, current_id, neighbor_id) <==> current_id
            == 5),
        props is None && neighbor_id != 0 && neighbor_id != 5 ==> culled(
            props,
            current_id,
            neighbor_id,
        ),
        props is Some && current_id != neighbor_id ==> (culled(props, current_id, neighbor_id)
            <==> props->0.solid_spec(neighbor_id as int)),
        current_id != neighbor_id && other_id != neighbor_id ==> culled(
            props,
            current_id,
            neighbor_id,
        ) == culled(props, other_id, neighbor_id),
{
}

/// Outside a chunk nothing can be set, and inside all of it is read from one list of
/// blocks: first along x, then along y, then along z.
pub proof fn law_blocks_in_order(chunk: ChunkData, x: int, y: int, z: int)
    requires
        palette::in_chunk(x, y, z),
    ensures
        chunk.block_at(x, y, z) == chunk@[x + 32 * (y + 32 * z)],
        0 <= x + 32 * (y + 32 * z) < 32 * 32 * 32,
{
}

} // verus!

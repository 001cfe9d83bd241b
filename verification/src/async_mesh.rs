//! Meshes made in the background: what a worker does with a task, and which
//! tasks are under way.

use crate::block_definition::BlockPropertiesTable;
use crate::chunk;
use crate::chunk::{is_air_chunk, ChunkData, ChunkNeighbors};
use crate::coord_map::CoordMap;
use crate::face;
use crate::greedy_mesh;
use crate::greedy_mesh::{greedy_sub_mesh, LayerQuad};
use crate::lod;
use crate::lod::{generate_lod_mesh_separated, LodLevel};
use crate::mesh;
use crate::mesh::{Quad, SubMeshData, UvLookupTable};
use crate::solid_mesh;
use crate::solid_mesh::generate_solid_mesh;
use crate::types::{ChunkCoord, WATER};
use vstd::prelude::*;

verus! {

/// How many finished meshes are handed on in one frame.
pub const MESH_UPLOADS_PER_FRAME: usize = 64;

/// How many workers to start, given how many processors there are: one fewer,
/// but at least one. Where the number is unknown, three.
pub fn default_worker_count(processors: Option<usize>) -> (r: usize)
    ensures
        r == match processors {
            Some(n) => if n >= 2 {
                (n - 1) as usize
            } else {
                1
            },
            None => 3,
        },
{
    match processors {
        Some(n) => if n >= 2 {
            n - 1
        } else {
            1
        },
        None => 3,
    }
}

/// The textures that meshes show: those of single faces, and those of merged
/// water faces.
pub struct MeshTextures<T> {
    pub faces: UvLookupTable<T>,
    pub merged: UvLookupTable<T>,
}

/// The mesh shows the merged faces of water in a chunk.
pub open spec fn is_water_mesh<T: Copy>(
    r: SubMeshData<T>,
    chunk: ChunkData,
    neighbors: ChunkNeighbors,
    uv_table: UvLookupTable<T>,
) -> bool {
    exists|layers: Seq<Seq<LayerQuad>>|
        layers.len() == 192 && #[trigger] greedy_mesh::greedy_layers(chunk, neighbors, layers)
            && r.is_mesh_of(greedy_mesh::placed_layers(uv_table, layers, Some(WATER)))
}

/// The meshes of a chunk: one of its solid blocks, face by face, and one of its
/// water, with merged faces, if it may hold water.
pub fn generate_chunk_mesh_separated<T: Copy>(
    chunk: &ChunkData,
    textures: &MeshTextures<T>,
    neighbors: &ChunkNeighbors,
    props: Option<&BlockPropertiesTable>,
) -> (r: (SubMeshData<T>, Option<SubMeshData<T>>))
    requires
        chunk.wf(),
        neighbors.wf(),
        textures.faces.wf(),
        textures.merged.wf(),
    ensures
        r.0.is_mesh_of(solid_mesh::solid_quads(*chunk, *neighbors, props, textures.faces)),
        r.1 is Some <==> chunk.kinds().contains(WATER),
        r.1 matches Some(water) ==> is_water_mesh(water, *chunk, *neighbors, textures.merged),
{
    let solid: SubMeshData<T> = generate_solid_mesh(chunk, &textures.faces, neighbors, props);
    let water: Option<SubMeshData<T>> = if chunk.contains_block(WATER) {
        Some(greedy_sub_mesh(chunk, neighbors, &textures.merged, Some(WATER)))
    } else {
        None
    };
    (solid, water)
}

/// The finished meshes of a chunk.
#[derive(Debug)]
pub struct MeshResult<T> {
    pub coord: ChunkCoord,
    /// The mesh of the solid blocks.
    pub solid: SubMeshData<T>,
    /// The mesh of the water, if there is any.
    pub water: Option<SubMeshData<T>>,
}

/// Makes the meshes of a chunk at a level of detail; of nothing for a chunk of
/// air.
pub fn generate_meshes<T: Copy>(
    coord: ChunkCoord,
    data: &ChunkData,
    textures: &MeshTextures<T>,
    neighbors: &ChunkNeighbors,
    lod_level: Option<LodLevel>,
    props: Option<&BlockPropertiesTable>,
) -> (r: MeshResult<T>)
    requires
        data.wf(),
        neighbors.wf(),
        textures.faces.wf(),
        textures.merged.wf(),
    ensures
        r.coord == coord,
        chunk::all_air(*data) ==> r.solid.is_mesh_of(seq![]) && r.water is None,
        !chunk::all_air(*data) ==> match lod_level {
            Some(level) if level != LodLevel::Lod0 => {
                &&& r.solid.is_mesh_of(
                    lod::lod_quads(*data, *neighbors, props, textures.faces, level),
                )
                &&& r.water is None
            },
            _ => {
                &&& r.solid.is_mesh_of(
                    solid_mesh::solid_quads(*data, *neighbors, props, textures.faces),
                )
                &&& r.water is Some <==> data.kinds().contains(WATER)
                &&& r.water matches Some(water) ==> is_water_mesh(
                    water,
                    *data,
                    *neighbors,
                    textures.merged,
                )
            },
        },
{
    if is_air_chunk(data) {
        return MeshResult { coord, solid: SubMeshData::new(), water: None };
    }
    let level: LodLevel = match lod_level {
        Some(level) => level,
        None => LodLevel::Lod0,
    };
    if level == LodLevel::Lod0 {
        let (solid, water) = generate_chunk_mesh_separated(data, textures, neighbors, props);
        MeshResult { coord, solid, water }
    } else {
        let (solid, water) = generate_lod_mesh_separated(
            data,
            &textures.faces,
            neighbors,
            level,
            props,
        );
        MeshResult { coord, solid, water }
    }
}

/// The finished blocks of a chunk.
pub struct PrepareResult {
    pub coord: ChunkCoord,
    pub data: ChunkData,
}

/// What of the chunks under preparation is left after these results.
pub open spec fn still_preparing(
    pending: Set<ChunkCoord>,
    results: Seq<PrepareResult>,
) -> Set<ChunkCoord>
    decreases results.len(),
{
    if results.len() == 0 {
        pending
    } else {
        still_preparing(pending, results.drop_last()).remove(results.last().coord)
    }
}

/// The results whose chunks were still under preparation.
pub open spec fn wanted_results(
    pending: Set<ChunkCoord>,
    results: Seq<PrepareResult>,
) -> Seq<PrepareResult>
    decreases results.len(),
{
    if results.len() == 0 {
        seq![]
    } else {
        let before = wanted_results(pending, results.drop_last());
        if still_preparing(pending, results.drop_last()).contains(results.last().coord) {
            before.push(results.last())
        } else {
            before
        }
    }
}

/// Which chunks have a task under way, and which tasks are to be cancelled.
pub struct PendingState {
    tasks: CoordMap<()>,
    prepare: CoordMap<()>,
    cancel_queue: Vec<ChunkCoord>,
}

impl PendingState {
    /// The sets are consistent.
    pub closed spec fn wf(&self) -> bool {
        self.tasks.wf() && self.prepare.wf()
    }

    /// The chunks whose meshes are being made.
    pub closed spec fn meshing(&self) -> Set<ChunkCoord> {
        self.tasks@.dom()
    }

    /// The chunks whose blocks are being made.
    pub closed spec fn preparing(&self) -> Set<ChunkCoord> {
        self.prepare@.dom()
    }

    /// The chunks whose tasks are to be cancelled, in order.
    pub closed spec fn cancelled(&self) -> Seq<ChunkCoord> {
        self.cancel_queue@
    }

    /// Nothing is under way.
    pub fn new() -> (r: Self)
        ensures
            r.wf(),
            r.meshing() == Set::<ChunkCoord>::empty(),
            r.preparing() == Set::<ChunkCoord>::empty(),
            r.cancelled() == Seq::<ChunkCoord>::empty(),
    {
        let r = Self {
            tasks: CoordMap::new(),
            prepare: CoordMap::new(),
            cancel_queue: Vec::new(),
        };
        assert(r.meshing() =~= Set::<ChunkCoord>::empty());
        assert(r.preparing() =~= Set::<ChunkCoord>::empty());
        r
    }

    /// Enters a meshing task; returns whether it is to be sent, which it is not
    /// if one for the same chunk is under way.
    pub fn submit_task(&mut self, coord: ChunkCoord) -> (r: bool)
        requires
            old(self).wf(),
        ensures
            final(self).wf(),
            r == !old(self).meshing().contains(coord),
            final(self).meshing() == old(self).meshing().insert(coord),
            final(self).preparing() == old(self).preparing(),
            final(self).cancelled() == old(self).cancelled(),
    {
        if self.tasks.contains_key(&coord) {
            assert(self.meshing() =~= self.meshing().insert(coord));
            return false;
        }
        self.tasks.insert(coord, ());
        assert(self.meshing() =~= old(self).meshing().insert(coord));
        true
    }

    /// Enters a preparation task; returns whether it is to be sent, which it is
    /// not if one for the same chunk is under way.
    pub fn submit_prepare_task(&mut self, coord: ChunkCoord) -> (r: bool)
        requires
            old(self).wf(),
        ensures
            final(self).wf(),
            r == !old(self).preparing().contains(coord),
            final(self).preparing() == old(self).preparing().insert(coord),
            final(self).meshing() == old(self).meshing(),
            final(self).cancelled() == old(self).cancelled(),
    {
        if self.prepare.contains_key(&coord) {
            assert(self.preparing() =~= self.preparing().insert(coord));
            return false;
        }
        self.prepare.insert(coord, ());
        assert(self.preparing() =~= old(self).preparing().insert(coord));
        true
    }

    /// Forgets the tasks of a chunk and queues their cancellation.
    pub fn cancel_task(&mut self, coord: ChunkCoord)
        requires
            old(self).wf(),
        ensures
            final(self).wf(),
            final(self).meshing() == old(self).meshing().remove(coord),
            final(self).preparing() == old(self).preparing().remove(coord),
            final(self).cancelled() == old(self).cancelled().push(coord),
    {
        self.tasks.remove(&coord);
        self.prepare.remove(&coord);
        self.cancel_queue.push(coord);
        assert(self.meshing() =~= old(self).meshing().remove(coord));
        assert(self.preparing() =~= old(self).preparing().remove(coord));
    }

    /// Takes the queue of cancellations.
    pub fn flush_cancel_queue(&mut self) -> (r: Vec<ChunkCoord>)
        requires
            old(self).wf(),
        ensures
            final(self).wf(),
            r@ == old(self).cancelled(),
            final(self).cancelled() == Seq::<ChunkCoord>::empty(),
            final(self).meshing() == old(self).meshing(),
            final(self).preparing() == old(self).preparing(),
    {
        let mut out: Vec<ChunkCoord> = Vec::new();
        let mut i: usize = 0;
        while i < self.cancel_queue.len()
            invariant
                i <= self.cancel_queue@.len(),
                *self == *old(self),
                out@ =~= self.cancel_queue@.take(i as int),
            decreases self.cancel_queue@.len() - i,
        {
            out.push(self.cancel_queue[i]);
            i = i + 1;
        }
        assert(self.cancel_queue@.take(i as int) =~= self.cancel_queue@);
        self.cancel_queue = Vec::new();
        out
    }

    /// Notes that the meshes of these chunks are finished.
    pub fn collect_results(&mut self, coords: &Vec<ChunkCoord>)
        requires
            old(self).wf(),
        ensures
            final(self).wf(),
            final(self).meshing() == old(self).meshing().difference(coords@.to_set()),
            final(self).preparing() == old(self).preparing(),
            final(self).cancelled() == old(self).cancelled(),
    {
        let mut i: usize = 0;
        while i < coords.len()
            invariant
                i <= coords@.len(),
                self.wf(),
                forall|c: ChunkCoord| #[trigger]
                    self.meshing().contains(c) <==> old(self).meshing().contains(c)
                        && !coords@.take(i as int).contains(c),
                self.preparing() == old(self).preparing(),
                self.cancelled() == old(self).cancelled(),
            decreases coords@.len() - i,
        {
            let ghost before = self.meshing();
            self.tasks.remove(&coords[i]);
            proof {
                assert(self.meshing() =~= before.remove(coords@[i as int]));
                let (p, q) = (coords@.take(i as int), coords@.take(i + 1));
                assert forall|c: ChunkCoord| #[trigger] q.contains(c) == (p.contains(c) || c
                    == coords@[i as int]) by {
                    if p.contains(c) {
                        let k = choose|k: int| 0 <= k < p.len() && p[k] == c;
                        assert(q[k] == c);
                    }
                    if q.contains(c) && c != coords@[i as int] {
                        let k = choose|k: int| 0 <= k < q.len() && q[k] == c;
                        assert(p[k] == c);
                    }
                    assert(q[i as int] == coords@[i as int]);
                }
                assert forall|c: ChunkCoord| #[trigger]
                    self.meshing().contains(c) <==> old(self).meshing().contains(c)
                        && !coords@.take(i + 1).contains(c) by {
                    assert(q.contains(c) == (p.contains(c) || c == coords@[i as int]));
                }
            }
            i = i + 1;
        }
        proof {
            assert(coords@.take(i as int) =~= coords@);
            assert(self.meshing() =~= old(self).meshing().difference(coords@.to_set()));
        }
    }

    /// Keeps the results whose chunks are still under preparation, and notes
    /// that they are finished.
    pub fn collect_prepare_results(&mut self, raw: Vec<PrepareResult>) -> (r: Vec<PrepareResult>)
        requires
            old(self).wf(),
        ensures
            final(self).wf(),
            final(self).preparing() == still_preparing(old(self).preparing(), raw@),
            r@ == wanted_results(old(self).preparing(), raw@),
            final(self).meshing() == old(self).meshing(),
            final(self).cancelled() == old(self).cancelled(),
    {
        let mut rest: Vec<PrepareResult> = raw;
        let mut results: Vec<PrepareResult> = Vec::new();
        let ghost mut done: int = 0;
        assert(raw@.take(0) =~= seq![]);
        assert(raw@.skip(0) =~= raw@);
        while rest.len() > 0
            invariant
                0 <= done <= raw@.len(),
                rest@ == raw@.skip(done),
                self.wf(),
                self.preparing() == still_preparing(old(self).preparing(), raw@.take(done)),
                results@ == wanted_results(old(self).preparing(), raw@.take(done)),
                self.meshing() == old(self).meshing(),
                self.cancelled() == old(self).cancelled(),
            decreases rest@.len(),
        {
            let result: PrepareResult = rest.remove(0);
            let ghost before = self.preparing();
            assert(result == raw@[done]);
            assert(raw@.take(done + 1).drop_last() =~= raw@.take(done));
            assert(raw@.take(done + 1).last() == raw@[done]);
            let was: Option<()> = self.prepare.remove(&result.coord);
            assert(self.preparing() =~= before.remove(result.coord));
            match was {
                Some(_) => {
                    results.push(result);
                },
                None => {},
            }
            proof {
                assert(rest@ =~= raw@.skip(done + 1));
                done = done + 1;
            }
        }
        assert(raw@.take(done) =~= raw@);
        results
    }

    /// How many tasks are under way.
    pub fn pending_count(&self) -> (r: usize)
        requires
            self.wf(),
            self.meshing().len() + self.preparing().len() <= usize::MAX,
        ensures
            r == self.meshing().len() + self.preparing().len(),
    {
        self.tasks.len() + self.prepare.len()
    }

    /// Whether the meshes of a chunk are being made.
    pub fn is_pending(&self, coord: &ChunkCoord) -> (r: bool)
        ensures
            r == self.meshing().contains(*coord),
    {
        self.tasks.contains_key(coord)
    }

    /// Whether the blocks of a chunk are being made.
    pub fn is_prepare_pending(&self, coord: &ChunkCoord) -> (r: bool)
        ensures
            r == self.preparing().contains(*coord),
    {
        self.prepare.contains_key(coord)
    }
}

/// A chunk whose tasks were cancelled gives no result until it is asked for
/// again.
pub proof fn law_cancelled_results_dropped(
    pending: Set<ChunkCoord>,
    results: Seq<PrepareResult>,
    k: int,
)
    requires
        0 <= k < wanted_results(pending, results).len(),
    ensures
        pending.contains(wanted_results(pending, results)[k].coord),
    decreases results.len(),
{
    if results.len() > 0 {
        let before = wanted_results(pending, results.drop_last());
        if k < before.len() {
            law_cancelled_results_dropped(pending, results.drop_last(), k);
        } else {
            lemma_still_preparing(pending, results.drop_last(), results.last().coord);
        }
    }
}

/// What is still under preparation was so before.
proof fn lemma_still_preparing(
    pending: Set<ChunkCoord>,
    results: Seq<PrepareResult>,
    c: ChunkCoord,
)
    requires
        still_preparing(pending, results).contains(c),
    ensures
        pending.contains(c),
    decreases results.len(),
{
    if results.len() > 0 {
        lemma_still_preparing(pending, results.drop_last(), c);
    }
}

/// The mesh of the water of a chunk shows just what can be seen of it: a quad reaches over
/// face `f` of a block if and only if the block is water and the block across the face is
/// not, and then it is one quad alone.
pub proof fn law_water_mesh_shows_what_is_seen<T: Copy>(
    r: SubMeshData<T>,
    chunk: ChunkData,
    neighbors: ChunkNeighbors,
    uv_table: UvLookupTable<T>,
    x: int,
    y: int,
    z: int,
    f: int,
)
    requires
        is_water_mesh(r, chunk, neighbors, uv_table),
        0 <= x < 32,
        0 <= y < 32,
        0 <= z < 32,
        0 <= f < 6,
    ensures
        exists|quads: Seq<Quad<T>>|
            {
                let face = face::spec_face(f);
                let n = face.spec_normal();
                &&& #[trigger] r.is_mesh_of(quads)
                &&& (exists|i: int|
                    0 <= i < quads.len() && mesh::covers(#[trigger] quads[i], face, x, y, z))
                    <==> chunk.block_at(x, y, z) == 5 && chunk::across(
                    chunk,
                    neighbors,
                    x + n[0],
                    y + n[1],
                    z + n[2],
                    f,
                ) != 5
                &&& forall|i: int, j: int|
                    0 <= i < quads.len() && 0 <= j < quads.len() && mesh::covers(
                        #[trigger] quads[i],
                        face,
                        x,
                        y,
                        z,
                    ) && mesh::covers(#[trigger] quads[j], face, x, y, z) ==> i == j
            },
{
    let layers = choose|layers: Seq<Seq<LayerQuad>>|
        layers.len() == 192 && #[trigger] greedy_mesh::greedy_layers(chunk, neighbors, layers)
            && r.is_mesh_of(greedy_mesh::placed_layers(uv_table, layers, Some(WATER)));
    greedy_mesh::law_merged_mesh_shows_what_is_seen(
        chunk,
        neighbors,
        uv_table,
        layers,
        Some(WATER),
        x,
        y,
        z,
        f,
    );
    assert(r.is_mesh_of(greedy_mesh::placed_layers(uv_table, layers, Some(WATER))));
}

/// A chunk is under preparation until a result of it has come.
pub proof fn law_results_end_preparation(
    pending: Set<ChunkCoord>,
    results: Seq<PrepareResult>,
    c: ChunkCoord,
)
    ensures
        still_preparing(pending, results).contains(c) <==> pending.contains(c) && forall|k: int|
            0 <= k < results.len() ==> (#[trigger] results[k]).coord != c,
    decreases results.len(),
{
    if results.len() > 0 {
        let short = results.drop_last();
        law_results_end_preparation(pending, short, c);
        assert(results[results.len() - 1] == results.last());
        assert forall|k: int| 0 <= k < short.len() implies #[trigger] short[k] == results[k] by {}
        if still_preparing(pending, results).contains(c) {
            assert forall|k: int| 0 <= k < results.len() implies (#[trigger] results[k]).coord != c by {
                if k < short.len() {
                    assert(short[k] == results[k]);
                }
            }
        } else if pending.contains(c) && results.last().coord != c {
            let k = choose|k: int| 0 <= k < short.len() && (#[trigger] short[k]).coord == c;
            assert(results[k].coord == c);
        }
    }
}

/// Of the results of a chunk under preparation the first is handed on and no other.
pub proof fn law_first_result_counts(
    pending: Set<ChunkCoord>,
    results: Seq<PrepareResult>,
    k: int,
)
    requires
        0 <= k < results.len(),
        pending.contains(results[k].coord),
        forall|j: int| 0 <= j < k ==> (#[trigger] results[j]).coord != results[k].coord,
    ensures
        wanted_results(pending, results).contains(results[k]),
        forall|i: int, j: int|
            0 <= i < j < wanted_results(pending, results).len() ==> (#[trigger] wanted_results(
                pending,
                results,
            )[i]).coord != (#[trigger] wanted_results(pending, results)[j]).coord,
    decreases results.len(),
{
    lemma_results_once(pending, results);
    let short = results.drop_last();
    let before = wanted_results(pending, short);
    let all = wanted_results(pending, results);
    if k < results.len() - 1 {
        assert(short[k] == results[k]);
        assert forall|j: int| 0 <= j < k implies (#[trigger] short[j]).coord != short[k].coord by {
            assert(short[j] == results[j]);
        }
        law_first_result_counts(pending, short, k);
        let i = choose|i: int| 0 <= i < before.len() && before[i] == short[k];
        assert(all[i] == results[k]);
    } else {
        law_results_end_preparation(pending, short, results[k].coord);
        assert forall|j: int| 0 <= j < short.len() implies (#[trigger] short[j]).coord
            != results[k].coord by {
            assert(short[j] == results[j]);
        }
        assert(all[before.len() as int] == results[k]);
    }
}

/// No chunk gives two results.
proof fn lemma_results_once(pending: Set<ChunkCoord>, results: Seq<PrepareResult>)
    ensures
        ({
            let all = wanted_results(pending, results);
            &&& forall|i: int, j: int|
                0 <= i < j < all.len() ==> (#[trigger] all[i]).coord != (#[trigger] all[j]).coord
            &&& forall|i: int|
                0 <= i < all.len() ==> !still_preparing(pending, results).contains(
                    (#[trigger] all[i]).coord,
                )
        }),
    decreases results.len(),
{
    if results.len() > 0 {
        lemma_results_once(pending, results.drop_last());
    }
}

} // verus!

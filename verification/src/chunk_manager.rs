//! Which chunks are loaded: they come in round the player, change their level of
//! detail with the distance, and leave when they are far away or too many.
//!
//! Entities and meshes belong to the renderer and are known here by number.

use crate::async_mesh::PendingState;
use crate::chunk;
use crate::chunk::{is_air_chunk, ChunkData, ChunkNeighbors};
use crate::coord_map::CoordMap;
use crate::face;
use crate::face::neighbor_offset;
use crate::load_queue;
use crate::load_queue::{rebuild_load_queue, LoadQueueBuildState, OffsetEntry, QUEUE_BUILD_STEPS_PER_FRAME};
use crate::lod;
use crate::lod::{chunk_distance_sq, LodLevel, LodManager};
use crate::triangle_count;
use crate::types::ChunkCoord;
use std::sync::Arc;
use vstd::prelude::*;

verus! {

/// How far the world is drawn, in chunks.
pub const RENDER_DISTANCE: i32 = 16;

/// How far the world is loaded at the start.
pub const INITIAL_LOAD_RADIUS: i32 = 16;

/// Beyond this distance chunks are unloaded.
pub const UNLOAD_DISTANCE: i32 = 20;

/// Beyond this many layers chunks are unloaded.
pub const Y_UNLOAD_RADIUS: i32 = 6;

/// How many chunks are sent to be prepared in one frame.
pub const CHUNKS_PER_FRAME: usize = 32;

/// How many chunks are kept before the least recently used are dropped.
pub const MAX_CACHED_CHUNKS: usize = 20000;

/// How many chunks are dropped for that reason in one frame.
pub const LRU_UNLOADS_PER_FRAME: usize = 32;

/// How many neighbours of new chunks are marked for rebuilding in one frame.
pub const NEIGHBOR_DIRTY_PER_FRAME: usize = 512;

/// How many unloaded chunks are cleared away in one frame.
pub const DELETIONS_PER_FRAME: usize = 16;

/// The number of the mesh without triangles that chunks share.
pub const EMPTY_MESH: u64 = 0;

/// A loaded chunk.
pub struct ChunkEntry {
    pub entity: u64,
    pub data: Arc<ChunkData>,
    /// The frame in which the chunk was last used.
    pub last_accessed: u64,
    /// The mesh of the solid blocks.
    pub solid_mesh: u64,
    /// The mesh of the water.
    pub water_mesh: Option<u64>,
    /// The entity that shows the water.
    pub water_entity: Option<u64>,
    pub water_triangle_count: u32,
    pub lod_level: LodLevel,
    pub triangle_count: u32,
}

/// What is left of an unloaded chunk until it is cleared away.
#[derive(Clone, Copy, Debug, PartialEq, Eq, Structural)]
pub struct PendingDeletion {
    pub entity: u64,
    pub mesh: u64,
    pub water_mesh: Option<u64>,
}

/// The loaded chunks and what is to become of them.
pub struct LoadedChunks {
    pub entries: CoordMap<ChunkEntry>,
    /// Chunks in the order in which they came from the workers.
    pub entries_ordered: Vec<ChunkCoord>,
    pub load_queue: Vec<ChunkCoord>,
    pub last_player_chunk: Option<ChunkCoord>,
    pub frame_counter: u64,
    pub needs_unload_check: bool,
    pub pending_deletions: Vec<PendingDeletion>,
    pub load_queue_build_state: Option<LoadQueueBuildState>,
}

impl LoadedChunks {
    /// The blocks of every chunk are consistent, and the ordered list holds
    /// loaded chunks, each once.
    pub open spec fn wf(&self) -> bool {
        &&& self.entries.wf()
        &&& forall|c: ChunkCoord| #[trigger]
            self.entries@.contains_key(c) ==> self.entries@[c].data.wf()
        &&& self.entries_ordered@.no_duplicates()
        &&& forall|i: int|
            0 <= i < self.entries_ordered@.len() ==> self.entries@.contains_key(
                #[trigger] self.entries_ordered@[i],
            )
        &&& load_queue::state_wf(self.load_queue_build_state)
    }
}

impl Default for LoadedChunks {
    /// Nothing is loaded.
    fn default() -> (r: Self)
        ensures
            r.wf(),
            r.entries@ == Map::<ChunkCoord, ChunkEntry>::empty(),
            r.entries_ordered@.len() == 0,
            r.load_queue@.len() == 0,
            r.last_player_chunk is None,
            r.frame_counter == 0,
            !r.needs_unload_check,
            r.pending_deletions@.len() == 0,
            r.load_queue_build_state is None,
    {
        Self {
            entries: CoordMap::new(),
            entries_ordered: Vec::new(),
            load_queue: Vec::new(),
            last_player_chunk: None,
            frame_counter: 0,
            needs_unload_check: false,
            pending_deletions: Vec::new(),
            load_queue_build_state: None,
        }
    }
}

/// The chunk next to `c` across face `i`.
pub open spec fn neighbor_of(c: ChunkCoord, i: int) -> ChunkCoord {
    let d = face::spec_face(i).spec_normal();
    ChunkCoord { cx: (c.cx + d[0]) as i32, cy: (c.cy + d[1]) as i32, cz: (c.cz + d[2]) as i32 }
}

/// The neighbours of a chunk have 32-bit coordinates.
pub open spec fn neighbors_fit(c: ChunkCoord) -> bool {
    &&& i32::MIN < c.cx < i32::MAX
    &&& i32::MIN < c.cy < i32::MAX
    &&& i32::MIN < c.cz < i32::MAX
}

/// The chunk next to a chunk across face `i`.
pub fn neighbor_coord(c: ChunkCoord, i: usize) -> (r: ChunkCoord)
    requires
        neighbors_fit(c),
        i < 6,
    ensures
        r == neighbor_of(c, i as int),
{
    let (dx, dy, dz) = neighbor_offset(i);
    proof {
        let s = face::spec_face(i as int).spec_normal();
        assert(seq![dx, dy, dz][0] == dx && seq![dx, dy, dz][1] == dy && seq![dx, dy, dz][2] == dz);
        assert(s[0] == dx && s[1] == dy && s[2] == dz);
    }
    ChunkCoord { cx: c.cx + dx, cy: c.cy + dy, cz: c.cz + dz }
}

/// The neighbours of a chunk that are loaded.
pub fn collect_neighbors(coord: ChunkCoord, loaded: &LoadedChunks) -> (r: ChunkNeighbors)
    requires
        loaded.wf(),
        neighbors_fit(coord),
    ensures
        r.wf(),
        forall|i: int|
            0 <= i < 6 ==> match #[trigger] r.neighbor_data@[i] {
                Some(data) => loaded.entries@.contains_key(neighbor_of(coord, i)) && data
                    == loaded.entries@[neighbor_of(coord, i)].data,
                None => !loaded.entries@.contains_key(neighbor_of(coord, i)),
            },
{
    let mut neighbors: ChunkNeighbors = ChunkNeighbors::empty();
    let mut i: usize = 0;
    while i < 6
        invariant
            i <= 6,
            loaded.wf(),
            neighbors_fit(coord),
            forall|k: int|
                0 <= k < i ==> match #[trigger] neighbors.neighbor_data@[k] {
                    Some(data) => loaded.entries@.contains_key(neighbor_of(coord, k)) && data
                        == loaded.entries@[neighbor_of(coord, k)].data,
                    None => !loaded.entries@.contains_key(neighbor_of(coord, k)),
                },
            forall|k: int| i <= k < 6 ==> #[trigger] neighbors.neighbor_data@[k] is None,
        decreases 6 - i,
    {
        let n: ChunkCoord = neighbor_coord(coord, i);
        match loaded.entries.get(&n) {
            Some(entry) => {
                neighbors.neighbor_data[i] = Some(Arc::clone(&entry.data));
            },
            None => {},
        }
        i = i + 1;
    }
    neighbors
}

/// What is to be done with the mesh of a chunk's solid blocks.
#[derive(Clone, Copy, Debug, PartialEq, Eq, Structural)]
pub enum SolidUpload {
    /// Write the new triangles into the mesh that is there.
    InPlace,
    /// Make a mesh of its own for the chunk and show it.
    Create,
    /// Remove the mesh and show the empty one.
    Clear,
    /// Go on showing the empty mesh.
    StayEmpty,
}

/// What is to be done with the mesh of a chunk's water.
#[derive(Clone, Copy, Debug, PartialEq, Eq, Structural)]
pub enum WaterUpload {
    /// Write the new triangles into the mesh that is there.
    InPlace,
    /// Make a mesh and show it.
    Create,
    /// Remove the mesh, if there is one, and the entity.
    Remove,
    /// There was no water and there is none.
    Nothing,
}

/// What is to be done with the mesh of the solid blocks: `found` tells whether
/// the old mesh can be found, and `repair` whether one that cannot be found is
/// made anew.
pub fn plan_solid(old_mesh: u64, found: bool, repair: bool, triangles: u32) -> (r: SolidUpload)
    ensures
        r == if triangles > 0 {
            if old_mesh == EMPTY_MESH || (repair && !found) {
                SolidUpload::Create
            } else {
                SolidUpload::InPlace
            }
        } else if old_mesh != EMPTY_MESH {
            SolidUpload::Clear
        } else {
            SolidUpload::StayEmpty
        },
{
    if triangles > 0 {
        if old_mesh != EMPTY_MESH {
            if found || !repair {
                SolidUpload::InPlace
            } else {
                SolidUpload::Create
            }
        } else {
            SolidUpload::Create
        }
    } else if old_mesh != EMPTY_MESH {
        SolidUpload::Clear
    } else {
        SolidUpload::StayEmpty
    }
}

/// What is to be done with the mesh of the water: `found` tells whether the old
/// mesh can be found, and `repair` whether one that cannot be found is made anew.
pub fn plan_water(
    has_water: bool,
    old_mesh: Option<u64>,
    found: bool,
    repair: bool,
    entity: Option<u64>,
) -> (r: WaterUpload)
    ensures
        r == if has_water {
            if old_mesh is Some && (found || !repair) {
                WaterUpload::InPlace
            } else {
                WaterUpload::Create
            }
        } else if entity is Some {
            WaterUpload::Remove
        } else {
            WaterUpload::Nothing
        },
{
    if has_water {
        match old_mesh {
            Some(_) => if found || !repair {
                WaterUpload::InPlace
            } else {
                WaterUpload::Create
            },
            None => WaterUpload::Create,
        }
    } else {
        match entity {
            Some(_) => WaterUpload::Remove,
            None => WaterUpload::Nothing,
        }
    }
}

/// The entry of a chunk after its meshes have been handed over.
pub open spec fn uploaded(
    e: ChunkEntry,
    solid_mesh: u64,
    water_entity: Option<u64>,
    water_mesh: Option<u64>,
    triangles: u32,
    water_triangles: u32,
) -> ChunkEntry {
    ChunkEntry {
        solid_mesh,
        water_entity,
        water_mesh,
        water_triangle_count: water_triangles,
        triangle_count: triangles,
        ..e
    }
}

/// The chunks, the tasks, the levels of detail, and a count of triangles.
pub struct ChunkManager {
    pub loaded: LoadedChunks,
    pub tasks: PendingState,
    pub lods: LodManager,
    /// The triangles of the meshes that the loaded chunks were last given, those of
    /// water too. It wraps.
    pub triangles: u32,
}

/// What is left of a chunk when it is unloaded.
pub open spec fn deletion_of(e: ChunkEntry) -> PendingDeletion {
    PendingDeletion { entity: e.entity, mesh: e.solid_mesh, water_mesh: e.water_mesh }
}

/// What is left of the chunks of a list.
pub open spec fn deletions_of(
    entries: Map<ChunkCoord, ChunkEntry>,
    gone: Seq<ChunkCoord>,
) -> Seq<PendingDeletion> {
    Seq::new(gone.len(), |i: int| deletion_of(entries[gone[i]]))
}

/// How many triangles the chunks of a list have, those of water too.
pub open spec fn triangles_of(entries: Map<ChunkCoord, ChunkEntry>, gone: Seq<ChunkCoord>) -> int
    decreases gone.len(),
{
    if gone.len() == 0 {
        0
    } else {
        triangles_of(entries, gone.drop_last()) + triangle_count::entry_triangles(
            entries[gone.last()],
        )
    }
}

/// Keeps the chunks of a set.
pub open spec fn among(s: Set<ChunkCoord>) -> spec_fn(ChunkCoord) -> bool {
    |c: ChunkCoord| s.contains(c)
}

/// The chunks of `gone` have been unloaded: they are no longer loaded, their
/// tasks are cancelled, their levels forgotten, their triangles no longer
/// counted, and what is left of them is queued to be cleared away.
pub open spec fn chunks_gone(pre: ChunkManager, post: ChunkManager, gone: Seq<ChunkCoord>) -> bool {
    &&& post.loaded.entries@ == pre.loaded.entries@.remove_keys(gone.to_set())
    &&& post.loaded.entries_ordered@ == pre.loaded.entries_ordered@.filter(
        among(post.loaded.entries@.dom()),
    )
    &&& post.loaded.pending_deletions@ == pre.loaded.pending_deletions@ + deletions_of(
        pre.loaded.entries@,
        gone,
    )
    &&& post.triangles == (pre.triangles - triangles_of(pre.loaded.entries@, gone)) % 0x1_0000_0000
    &&& post.tasks.meshing() == pre.tasks.meshing().difference(gone.to_set())
    &&& post.tasks.preparing() == pre.tasks.preparing().difference(gone.to_set())
    &&& post.tasks.cancelled() == pre.tasks.cancelled() + gone
    &&& post.lods.lods() == pre.lods.lods().remove_keys(gone.to_set())
    &&& post.lods.last() == pre.lods.last()
    &&& post.loaded.frame_counter == pre.loaded.frame_counter
}

/// The chunks of `gone` have been unloaded, and nothing else has happened.
pub open spec fn unloaded(pre: ChunkManager, post: ChunkManager, gone: Seq<ChunkCoord>) -> bool {
    &&& chunks_gone(pre, post, gone)
    &&& post.loaded.load_queue == pre.loaded.load_queue
    &&& post.loaded.last_player_chunk == pre.loaded.last_player_chunk
    &&& post.loaded.load_queue_build_state == pre.loaded.load_queue_build_state
}

/// A chunk is far enough from the player to be unloaded.
pub open spec fn far(center: ChunkCoord, c: ChunkCoord) -> bool {
    ||| !(-20 <= c.cx - center.cx <= 20)
    ||| !(-20 <= c.cz - center.cz <= 20)
    ||| !(-6 <= c.cy - center.cy <= 6)
}

/// The distance of two coordinates.
fn axis_distance(a: i32, b: i32) -> (r: i64)
    ensures
        r == if a >= b {
            a - b
        } else {
            b - a
        },
{
    let d: i64 = a as i64 - b as i64;
    if d >= 0 {
        d
    } else {
        -d
    }
}

/// The chunks of a list that are loaded.
fn retain_loaded(list: &Vec<ChunkCoord>, entries: &CoordMap<ChunkEntry>) -> (r: Vec<ChunkCoord>)
    ensures
        r@ == list@.filter(among(entries@.dom())),
{
    let mut kept: Vec<ChunkCoord> = Vec::new();
    let mut i: usize = 0;
    proof {
        reveal(Seq::filter);
        assert(list@.take(0) =~= Seq::empty());
    }
    while i < list.len()
        invariant
            i <= list@.len(),
            kept@ == list@.take(i as int).filter(among(entries@.dom())),
        decreases list@.len() - i,
    {
        proof {
            reveal(Seq::filter);
            assert(list@.take(i + 1).drop_last() =~= list@.take(i as int));
        }
        if entries.contains_key(&list[i]) {
            kept.push(list[i]);
        }
        i = i + 1;
    }
    assert(list@.take(i as int) =~= list@);
    kept
}

/// A filtered list without duplicates has none, and holds what it should.
proof fn lemma_filtered(s: Seq<ChunkCoord>, keep: Set<ChunkCoord>)
    requires
        s.no_duplicates(),
    ensures
        s.filter(among(keep)).no_duplicates(),
        forall|i: int|
            0 <= i < s.filter(among(keep)).len() ==> keep.contains(
                #[trigger] s.filter(among(keep))[i],
            ) && s.contains(s.filter(among(keep))[i]),
    decreases s.len(),
{
    reveal(Seq::filter);
    if s.len() > 0 {
        let t = s.drop_last();
        lemma_filtered(t, keep);
        assert forall|i: int| 0 <= i < t.filter(among(keep)).len() implies s.contains(
            #[trigger] t.filter(among(keep))[i],
        ) by {
            let x = t.filter(among(keep))[i];
            let k = choose|k: int| 0 <= k < t.len() && t[k] == x;
            assert(s[k] == x);
        }
        if among(keep)(s.last()) {
            let f = t.filter(among(keep));
            assert forall|i: int| 0 <= i < f.len() implies f[i] != s.last() by {
                let k = choose|k: int| 0 <= k < t.len() && t[k] == f[i];
                assert(s[k] != s[s.len() - 1]);
            }
            assert(s.contains(s[s.len() - 1]));
        }
    }
}

/// The set of a list with one more chunk.
proof fn lemma_to_set_push(s: Seq<ChunkCoord>, c: ChunkCoord)
    ensures
        s.push(c).to_set() == s.to_set().insert(c),
{
    let t = s.push(c);
    assert forall|x: ChunkCoord| t.to_set().contains(x) == s.to_set().insert(c).contains(x) by {
        if s.contains(x) {
            let k = choose|k: int| 0 <= k < s.len() && s[k] == x;
            assert(t[k] == x);
        }
        if t.contains(x) && x != c {
            let k = choose|k: int| 0 <= k < t.len() && t[k] == x;
            assert(s[k] == x);
        }
        assert(t[s.len() as int] == c);
    }
    assert(t.to_set() =~= s.to_set().insert(c));
}

/// Subtracting in turn from a 32-bit count.
proof fn lemma_sub_wrapping(t: int, a: int, b: int, c: int)
    ensures
        (((t - a) % 0x1_0000_0000 - b) % 0x1_0000_0000 - c) % 0x1_0000_0000 == (t - (a + b + c))
            % 0x1_0000_0000,
{
    vstd::arithmetic::div_mod::lemma_sub_mod_noop(t - a, b, 0x1_0000_0000);
    vstd::arithmetic::div_mod::lemma_sub_mod_noop((t - a) % 0x1_0000_0000, b, 0x1_0000_0000);
    vstd::arithmetic::div_mod::lemma_mod_twice(t - a, 0x1_0000_0000);
    let u = t - a - b;
    vstd::arithmetic::div_mod::lemma_sub_mod_noop(u, c, 0x1_0000_0000);
    vstd::arithmetic::div_mod::lemma_sub_mod_noop(u % 0x1_0000_0000, c, 0x1_0000_0000);
    vstd::arithmetic::div_mod::lemma_mod_twice(u, 0x1_0000_0000);
}

impl ChunkManager {
    /// The parts are consistent.
    pub open spec fn wf(&self) -> bool {
        self.loaded.wf() && self.tasks.wf() && self.lods.wf()
    }

    /// The count of triangles is right.
    pub open spec fn counted(&self) -> bool {
        self.triangles == triangle_count::total_triangles(self.loaded.entries@) % 0x1_0000_0000
    }

    /// Nothing is loaded and nothing is under way.
    pub fn new() -> (r: Self)
        ensures
            r.wf(),
            r.counted(),
            r.loaded.entries@ == Map::<ChunkCoord, ChunkEntry>::empty(),
            r.loaded.entries_ordered@.len() == 0,
            r.loaded.load_queue@.len() == 0,
            r.loaded.last_player_chunk is None,
            r.loaded.frame_counter == 0,
            !r.loaded.needs_unload_check,
            r.loaded.pending_deletions@.len() == 0,
            r.loaded.load_queue_build_state is None,
            r.tasks.meshing() == Set::<ChunkCoord>::empty(),
            r.tasks.preparing() == Set::<ChunkCoord>::empty(),
            r.tasks.cancelled() == Seq::<ChunkCoord>::empty(),
            r.lods.lods() == Map::<ChunkCoord, LodLevel>::empty(),
            r.lods.last() is None,
            r.triangles == 0,
    {
        Self {
            loaded: LoadedChunks::default(),
            tasks: PendingState::new(),
            lods: LodManager::new(),
            triangles: 0,
        }
    }

    /// Whether chunks wait to be cleared away.
    pub fn has_pending_deletions(&self) -> (r: bool)
        ensures
            r == (self.loaded.pending_deletions@.len() > 0),
    {
        self.loaded.pending_deletions.len() > 0
    }

    /// Whether chunks wait to be loaded.
    pub fn has_load_queue_items(&self) -> (r: bool)
        ensures
            r == (self.loaded.load_queue@.len() > 0),
    {
        self.loaded.load_queue.len() > 0
    }

    /// Begins a frame.
    pub fn begin_frame(&mut self)
        requires
            old(self).wf(),
            old(self).loaded.frame_counter < u64::MAX,
        ensures
            final(self).wf(),
            final(self).loaded.frame_counter == old(self).loaded.frame_counter + 1,
            final(self).loaded.entries == old(self).loaded.entries,
            final(self).loaded.entries_ordered == old(self).loaded.entries_ordered,
            final(self).loaded.load_queue == old(self).loaded.load_queue,
            final(self).loaded.last_player_chunk == old(self).loaded.last_player_chunk,
            final(self).loaded.needs_unload_check == old(self).loaded.needs_unload_check,
            final(self).loaded.pending_deletions == old(self).loaded.pending_deletions,
            final(self).loaded.load_queue_build_state == old(self).loaded.load_queue_build_state,
            final(self).tasks == old(self).tasks,
            final(self).lods == old(self).lods,
            final(self).triangles == old(self).triangles,
    {
        self.loaded.frame_counter = self.loaded.frame_counter + 1;
    }

    /// Notes the meshes that a chunk has been given. Nothing happens if the
    /// chunk is no longer loaded.
    pub fn finish_upload(
        &mut self,
        coord: ChunkCoord,
        solid_mesh: u64,
        water_entity: Option<u64>,
        water_mesh: Option<u64>,
        triangles: u32,
        water_triangles: u32,
    )
        requires
            old(self).wf(),
        ensures
            final(self).wf(),
            final(self).tasks == old(self).tasks,
            final(self).lods == old(self).lods,
            final(self).loaded.entries_ordered == old(self).loaded.entries_ordered,
            final(self).loaded.load_queue == old(self).loaded.load_queue,
            final(self).loaded.last_player_chunk == old(self).loaded.last_player_chunk,
            final(self).loaded.frame_counter == old(self).loaded.frame_counter,
            final(self).loaded.needs_unload_check == old(self).loaded.needs_unload_check,
            final(self).loaded.pending_deletions == old(self).loaded.pending_deletions,
            final(self).loaded.load_queue_build_state == old(self).loaded.load_queue_build_state,
            !old(self).loaded.entries@.contains_key(coord) ==> final(self).loaded.entries@ == old(
                self,
            ).loaded.entries@ && final(self).triangles == old(self).triangles,
            old(self).loaded.entries@.contains_key(coord) ==> {
                &&& final(self).loaded.entries@ == old(self).loaded.entries@.insert(
                    coord,
                    uploaded(
                        old(self).loaded.entries@[coord],
                        solid_mesh,
                        water_entity,
                        water_mesh,
                        triangles,
                        water_triangles,
                    ),
                )
                &&& final(self).triangles == (old(self).triangles + (triangles + water_triangles)
                    - triangle_count::entry_triangles(old(self).loaded.entries@[coord]))
                    % 0x1_0000_0000
            },
            old(self).counted() ==> final(self).counted(),
    {
        match self.loaded.entries.remove(&coord) {
            Some(entry) => {
                let old_count: u32 = entry.triangle_count;
                let old_water: u32 = entry.water_triangle_count;
                let fresh: ChunkEntry = ChunkEntry {
                    entity: entry.entity,
                    data: entry.data,
                    last_accessed: entry.last_accessed,
                    solid_mesh,
                    water_mesh,
                    water_entity,
                    water_triangle_count: water_triangles,
                    lod_level: entry.lod_level,
                    triangle_count: triangles,
                };
                self.loaded.entries.insert(coord, fresh);
                self.triangles = triangle_count::recount(
                    self.triangles,
                    triangles,
                    water_triangles,
                    old_count,
                    old_water,
                );
                proof {
                    let entries = old(self).loaded.entries@;
                    let e = uploaded(
                        entries[coord],
                        solid_mesh,
                        water_entity,
                        water_mesh,
                        triangles,
                        water_triangles,
                    );
                    assert(self.loaded.entries@ =~= entries.insert(coord, e));
                    old(self).loaded.entries.lemma_finite();
                    triangle_count::lemma_counted_insert(*old(self), *self, coord, e);
                }
            },
            None => {
                assert(self.loaded.entries@ =~= old(self).loaded.entries@);
            },
        }
    }

    /// Takes the chunks that are to be cleared away in this frame: the first 16
    /// at most.
    pub fn take_deletions(&mut self) -> (r: Vec<PendingDeletion>)
        requires
            old(self).wf(),
        ensures
            final(self).wf(),
            ({
                let all = old(self).loaded.pending_deletions@;
                let n = if all.len() < DELETIONS_PER_FRAME {
                    all.len() as int
                } else {
                    DELETIONS_PER_FRAME as int
                };
                r@ == all.take(n) && final(self).loaded.pending_deletions@ == all.skip(n)
            }),
            final(self).tasks == old(self).tasks,
            final(self).lods == old(self).lods,
            final(self).triangles == old(self).triangles,
            final(self).loaded.entries == old(self).loaded.entries,
            final(self).loaded.entries_ordered == old(self).loaded.entries_ordered,
            final(self).loaded.load_queue == old(self).loaded.load_queue,
            final(self).loaded.last_player_chunk == old(self).loaded.last_player_chunk,
            final(self).loaded.frame_counter == old(self).loaded.frame_counter,
            final(self).loaded.needs_unload_check == old(self).loaded.needs_unload_check,
            final(self).loaded.load_queue_build_state == old(self).loaded.load_queue_build_state,
    {
        let ghost all = self.loaded.pending_deletions@;
        let mut now: Vec<PendingDeletion> = Vec::new();
        let mut later: Vec<PendingDeletion> = Vec::new();
        let mut i: usize = 0;
        while i < self.loaded.pending_deletions.len()
            invariant
                i <= all.len(),
                *self == *old(self),
                all == self.loaded.pending_deletions@,
                now@ =~= all.take(
                    if i < DELETIONS_PER_FRAME {
                        i as int
                    } else {
                        DELETIONS_PER_FRAME as int
                    },
                ),
                i <= DELETIONS_PER_FRAME ==> later@.len() == 0,
                i > DELETIONS_PER_FRAME ==> later@ =~= all.subrange(
                    DELETIONS_PER_FRAME as int,
                    i as int,
                ),
            decreases all.len() - i,
        {
            let d: PendingDeletion = self.loaded.pending_deletions[i];
            if i < DELETIONS_PER_FRAME {
                now.push(d);
            } else {
                later.push(d);
            }
            i = i + 1;
        }
        self.loaded.pending_deletions = later;
        proof {
            if all.len() > DELETIONS_PER_FRAME {
                assert(later@ =~= all.skip(DELETIONS_PER_FRAME as int));
            } else {
                assert(later@ =~= all.skip(all.len() as int));
            }
        }
        now
    }

    /// Unloads the chunks of a list.
    fn unload_all(&mut self, gone: &Vec<ChunkCoord>)
        requires
            old(self).wf(),
            gone@.no_duplicates(),
            forall|i: int|
                0 <= i < gone@.len() ==> old(self).loaded.entries@.contains_key(
                    #[trigger] gone@[i],
                ),
        ensures
            final(self).wf(),
            unloaded(*old(self), *final(self), gone@),
            final(self).loaded.needs_unload_check == old(self).loaded.needs_unload_check,
    {
        let ghost pre = *self;
        let mut i: usize = 0;
        proof {
            assert(gone@.take(0) =~= Seq::empty());
            assert(gone@.take(0).to_set() =~= Set::empty());
            assert(self.loaded.entries@ =~= pre.loaded.entries@.remove_keys(gone@.take(0).to_set()));
            assert(self.lods.lods() =~= pre.lods.lods().remove_keys(gone@.take(0).to_set()));
            assert(self.tasks.meshing() =~= pre.tasks.meshing().difference(gone@.take(0).to_set()));
            assert(self.tasks.preparing() =~= pre.tasks.preparing().difference(
                gone@.take(0).to_set(),
            ));
            assert(self.tasks.cancelled() =~= pre.tasks.cancelled() + gone@.take(0));
            assert(self.loaded.pending_deletions@ =~= pre.loaded.pending_deletions@ + deletions_of(
                pre.loaded.entries@,
                gone@.take(0),
            ));
        }
        while i < gone.len()
            invariant
                i <= gone@.len(),
                pre == *old(self),
                pre.wf(),
                gone@.no_duplicates(),
                forall|k: int|
                    0 <= k < gone@.len() ==> pre.loaded.entries@.contains_key(#[trigger] gone@[k]),
                self.loaded.entries.wf(),
                self.tasks.wf(),
                self.lods.wf(),
                self.loaded.entries@ == pre.loaded.entries@.remove_keys(
                    gone@.take(i as int).to_set(),
                ),
                self.loaded.pending_deletions@ == pre.loaded.pending_deletions@ + deletions_of(
                    pre.loaded.entries@,
                    gone@.take(i as int),
                ),
                self.triangles == (pre.triangles - triangles_of(
                    pre.loaded.entries@,
                    gone@.take(i as int),
                )) % 0x1_0000_0000,
                self.tasks.meshing() == pre.tasks.meshing().difference(
                    gone@.take(i as int).to_set(),
                ),
                self.tasks.preparing() == pre.tasks.preparing().difference(
                    gone@.take(i as int).to_set(),
                ),
                self.tasks.cancelled() == pre.tasks.cancelled() + gone@.take(i as int),
                self.lods.lods() == pre.lods.lods().remove_keys(gone@.take(i as int).to_set()),
                self.lods.last() == pre.lods.last(),
                self.loaded.entries_ordered == pre.loaded.entries_ordered,
                self.loaded.load_queue == pre.loaded.load_queue,
                self.loaded.last_player_chunk == pre.loaded.last_player_chunk,
                self.loaded.frame_counter == pre.loaded.frame_counter,
                self.loaded.load_queue_build_state == pre.loaded.load_queue_build_state,
                self.loaded.needs_unload_check == pre.loaded.needs_unload_check,
            decreases gone@.len() - i,
        {
            let coord: ChunkCoord = gone[i];
            let ghost before = gone@.take(i as int);
            let ghost after = gone@.take(i + 1);
            let ghost m = *self;
            proof {
                assert(after =~= before.push(coord));
                lemma_to_set_push(before, coord);
                assert(after.drop_last() =~= before);
                assert(!before.contains(coord)) by {
                    if before.contains(coord) {
                        let k = choose|k: int| 0 <= k < before.len() && before[k] == coord;
                        assert(gone@[k] == gone@[i as int]);
                    }
                }
                assert(m.loaded.entries@.contains_key(coord));
            }
            self.tasks.cancel_task(coord);
            self.lods.remove(&coord);
            match self.loaded.entries.remove(&coord) {
                Some(entry) => {
                    proof {
                        assert(entry == pre.loaded.entries@[coord]);
                        lemma_sub_wrapping(
                            pre.triangles as int,
                            triangles_of(pre.loaded.entries@, before),
                            entry.triangle_count as int,
                            entry.water_triangle_count as int,
                        );
                    }
                    self.triangles = self.triangles.wrapping_sub(entry.triangle_count);
                    self.triangles = self.triangles.wrapping_sub(entry.water_triangle_count);
                    self.loaded.pending_deletions.push(
                        PendingDeletion {
                            entity: entry.entity,
                            mesh: entry.solid_mesh,
                            water_mesh: entry.water_mesh,
                        },
                    );
                },
                None => {},
            }
            proof {
                assert(self.loaded.entries@ =~= pre.loaded.entries@.remove_keys(after.to_set()));
                assert(self.lods.lods() =~= pre.lods.lods().remove_keys(after.to_set()));
                assert(self.tasks.meshing() =~= pre.tasks.meshing().difference(after.to_set()));
                assert(self.tasks.preparing() =~= pre.tasks.preparing().difference(
                    after.to_set(),
                ));
                assert(self.tasks.cancelled() =~= pre.tasks.cancelled() + after);
                assert(self.loaded.pending_deletions@ =~= pre.loaded.pending_deletions@
                    + deletions_of(pre.loaded.entries@, after));
            }
            i = i + 1;
        }
        assert(gone@.take(i as int) =~= gone@);
        self.loaded.entries_ordered = retain_loaded(
            &self.loaded.entries_ordered,
            &self.loaded.entries,
        );
        proof {
            lemma_filtered(pre.loaded.entries_ordered@, self.loaded.entries@.dom());
        }
    }
}

/// The list holds the loaded chunks that are far from the player, each once.
pub open spec fn all_far(
    entries: Map<ChunkCoord, ChunkEntry>,
    center: ChunkCoord,
    gone: Seq<ChunkCoord>,
) -> bool {
    &&& gone.no_duplicates()
    &&& forall|c: ChunkCoord| #[trigger]
        gone.contains(c) <==> entries.contains_key(c) && far(center, c)
}

/// A chunk may be dropped for want of room: it lies beyond the render distance.
pub open spec fn droppable(center: ChunkCoord, c: ChunkCoord) -> bool {
    !(-16 <= c.cx - center.cx <= 16) || !(-16 <= c.cz - center.cz <= 16)
}

/// A chunk is dropped before another: it was used less recently, or at the same
/// time and lies farther away.
pub open spec fn dropped_before(
    entries: Map<ChunkCoord, ChunkEntry>,
    center: ChunkCoord,
    a: ChunkCoord,
    b: ChunkCoord,
) -> bool {
    ||| entries[a].last_accessed < entries[b].last_accessed
    ||| entries[a].last_accessed == entries[b].last_accessed && lod::distance_sq(a, center)
        > lod::distance_sq(b, center)
}

/// How many chunks are dropped, of `candidates`, when `loaded` are loaded.
pub open spec fn drop_count(loaded: int, candidates: int) -> int {
    let over = if loaded > MAX_CACHED_CHUNKS {
        loaded - MAX_CACHED_CHUNKS
    } else {
        0
    };
    let some = if over < LRU_UNLOADS_PER_FRAME {
        over
    } else {
        LRU_UNLOADS_PER_FRAME as int
    };
    if some < candidates {
        some
    } else {
        candidates
    }
}

/// The loaded chunks that may be dropped.
pub open spec fn drop_candidates(
    entries: Map<ChunkCoord, ChunkEntry>,
    center: ChunkCoord,
) -> Set<ChunkCoord> {
    entries.dom().filter(|c: ChunkCoord| droppable(center, c))
}

/// The list holds the chunks to be dropped: as many as must be, none of which
/// would be dropped after one that stays, in the order of dropping.
pub open spec fn is_drop_list(
    entries: Map<ChunkCoord, ChunkEntry>,
    center: ChunkCoord,
    gone: Seq<ChunkCoord>,
) -> bool {
    &&& gone.len() == drop_count(
        entries.dom().len() as int,
        drop_candidates(entries, center).len() as int,
    )
    &&& gone.no_duplicates()
    &&& forall|i: int|
        0 <= i < gone.len() ==> drop_candidates(entries, center).contains(#[trigger] gone[i])
    &&& forall|i: int, j: int|
        0 <= i < j < gone.len() ==> !dropped_before(
            entries,
            center,
            #[trigger] gone[j],
            #[trigger] gone[i],
        )
    &&& forall|i: int, c: ChunkCoord|
        0 <= i < gone.len() && drop_candidates(entries, center).contains(c) && !gone.contains(c)
            ==> !#[trigger] dropped_before(entries, center, c, gone[i])
}

/// The distance of two chunks, squared, whatever their coordinates.
fn wide_distance_sq(a: ChunkCoord, b: ChunkCoord) -> (r: i128)
    ensures
        r == lod::distance_sq(a, b),
{
    let dx: i128 = a.cx as i128 - b.cx as i128;
    let dy: i128 = a.cy as i128 - b.cy as i128;
    let dz: i128 = a.cz as i128 - b.cz as i128;
    proof {
        let (x, y, z) = (dx as int, dy as int, dz as int);
        assert(0 <= x * x <= 0x1_0000_0000 * 0x1_0000_0000) by (nonlinear_arith)
            requires
                -0x1_0000_0000 <= x <= 0x1_0000_0000,
        ;
        assert(0 <= y * y <= 0x1_0000_0000 * 0x1_0000_0000) by (nonlinear_arith)
            requires
                -0x1_0000_0000 <= y <= 0x1_0000_0000,
        ;
        assert(0 <= z * z <= 0x1_0000_0000 * 0x1_0000_0000) by (nonlinear_arith)
            requires
                -0x1_0000_0000 <= z <= 0x1_0000_0000,
        ;
    }
    dx * dx + dy * dy + dz * dz
}

/// A chunk that may be dropped, with what decides when.
struct DropCandidate {
    coord: ChunkCoord,
    last_accessed: u64,
    dist_sq: i128,
}

/// The candidate describes its chunk.
spec fn describes(d: DropCandidate, entries: Map<ChunkCoord, ChunkEntry>, center: ChunkCoord) -> bool {
    &&& drop_candidates(entries, center).contains(d.coord)
    &&& d.last_accessed == entries[d.coord].last_accessed
    &&& d.dist_sq == lod::distance_sq(d.coord, center)
}

/// The chunks of the candidates.
spec fn coords_of(v: Seq<DropCandidate>) -> Seq<ChunkCoord> {
    Seq::new(v.len(), |i: int| v[i].coord)
}

/// The candidate that is dropped first.
fn first_to_drop(v: &Vec<DropCandidate>, Ghost(entries): Ghost<Map<ChunkCoord, ChunkEntry>>, Ghost(
    center,
): Ghost<ChunkCoord>) -> (r: usize)
    requires
        v@.len() > 0,
        forall|i: int| 0 <= i < v@.len() ==> describes(#[trigger] v@[i], entries, center),
    ensures
        r < v@.len(),
        forall|i: int|
            0 <= i < v@.len() ==> !dropped_before(
                entries,
                center,
                (#[trigger] v@[i]).coord,
                v@[r as int].coord,
            ),
{
    let mut best: usize = 0;
    let mut i: usize = 1;
    assert(describes(v@[0], entries, center));
    while i < v.len()
        invariant
            1 <= i <= v@.len(),
            best < v@.len(),
            forall|k: int| 0 <= k < v@.len() ==> describes(#[trigger] v@[k], entries, center),
            forall|k: int|
                0 <= k < i ==> !dropped_before(
                    entries,
                    center,
                    (#[trigger] v@[k]).coord,
                    v@[best as int].coord,
                ),
        decreases v@.len() - i,
    {
        let a: &DropCandidate = &v[i];
        let b: &DropCandidate = &v[best];
        assert(describes(v@[i as int], entries, center));
        assert(describes(v@[best as int], entries, center));
        let before: bool = a.last_accessed < b.last_accessed || (a.last_accessed
            == b.last_accessed && a.dist_sq > b.dist_sq);
        if before {
            proof {
                assert forall|k: int| 0 <= k < i + 1 implies !dropped_before(
                    entries,
                    center,
                    (#[trigger] v@[k]).coord,
                    v@[i as int].coord,
                ) by {
                    if k < i {
                        assert(!dropped_before(
                            entries,
                            center,
                            v@[k].coord,
                            v@[best as int].coord,
                        ));
                    }
                }
            }
            best = i;
        }
        i = i + 1;
    }
    best
}

impl ChunkManager {
    /// Unloads the chunks that are far from the player, if the player has moved
    /// since this was last done.
    fn unload_distant_chunks(&mut self, center: ChunkCoord)
        requires
            old(self).wf(),
        ensures
            final(self).wf(),
            !old(self).loaded.needs_unload_check ==> *final(self) == *old(self),
            old(self).loaded.needs_unload_check ==> {
                &&& !final(self).loaded.needs_unload_check
                &&& exists|gone: Seq<ChunkCoord>| #[trigger]
                    all_far(old(self).loaded.entries@, center, gone) && unloaded(
                        *old(self),
                        *final(self),
                        gone,
                    )
            },
    {
        if !self.loaded.needs_unload_check {
            return;
        }
        self.loaded.needs_unload_check = false;
        let ghost mid = *self;
        let coords: Vec<ChunkCoord> = self.loaded.entries.coords();
        let mut gone: Vec<ChunkCoord> = Vec::new();
        let mut i: usize = 0;
        while i < coords.len()
            invariant
                i <= coords@.len(),
                *self == mid,
                coords@.no_duplicates(),
                gone@.no_duplicates(),
                forall|c: ChunkCoord| #[trigger]
                    gone@.contains(c) <==> coords@.take(i as int).contains(c) && far(center, c),
            decreases coords@.len() - i,
        {
            let coord: ChunkCoord = coords[i];
            let dx: i64 = axis_distance(coord.cx, center.cx);
            let dz: i64 = axis_distance(coord.cz, center.cz);
            let dy: i64 = axis_distance(coord.cy, center.cy);
            let ghost before = gone@;
            if dx > UNLOAD_DISTANCE as i64 || dz > UNLOAD_DISTANCE as i64 || dy
                > Y_UNLOAD_RADIUS as i64 {
                gone.push(coord);
            }
            proof {
                lemma_take_step(coords@, i as int);
                lemma_to_set_push(before, coord);
                assert(far(center, coord) == (dx > 20 || dz > 20 || dy > 6));
                assert forall|c: ChunkCoord| #[trigger]
                    gone@.contains(c) <==> coords@.take(i + 1).contains(c) && far(center, c) by {
                    assert(before.contains(c) <==> coords@.take(i as int).contains(c) && far(
                        center,
                        c,
                    ));
                    if far(center, coord) {
                        assert(before.push(coord).to_set().contains(c) == (before.contains(c) || c
                            == coord));
                    }
                }
                if far(center, coord) {
                    assert(!before.contains(coord));
                    lemma_push_no_duplicates(before, coord);
                }
            }
            i = i + 1;
        }
        proof {
            assert(coords@.take(i as int) =~= coords@);
            assert forall|k: int| 0 <= k < gone@.len() implies self.loaded.entries@.contains_key(
                #[trigger] gone@[k],
            ) by {
                assert(gone@.contains(gone@[k]));
                assert(coords@.contains(gone@[k]));
            }
            assert(all_far(old(self).loaded.entries@, center, gone@));
        }
        self.unload_all(&gone);
        proof {
            assert(unloaded(*old(self), *self, gone@));
        }
    }

    /// Drops the least recently used of the chunks beyond the render distance
    /// if too many are loaded.
    fn lru_evict(&mut self, center: ChunkCoord)
        requires
            old(self).wf(),
        ensures
            final(self).wf(),
            final(self).loaded.needs_unload_check == old(self).loaded.needs_unload_check,
            exists|gone: Seq<ChunkCoord>| #[trigger]
                is_drop_list(old(self).loaded.entries@, center, gone) && unloaded(
                    *old(self),
                    *final(self),
                    gone,
                ),
    {
        let ghost pre = *self;
        let ghost entries = self.loaded.entries@;
        let count: usize = self.loaded.entries.len();
        let ghost all = drop_candidates(entries, center);
        proof {
            assert(all.subset_of(entries.dom()));
            vstd::set_lib::lemma_len_subset(all, entries.dom());
        }
        if count <= MAX_CACHED_CHUNKS {
            let none: Vec<ChunkCoord> = Vec::new();
            proof {
                assert(is_drop_list(entries, center, none@));
            }
            self.unload_all(&none);
            return;
        }
        let coords: Vec<ChunkCoord> = self.loaded.entries.coords();
        let mut candidates: Vec<DropCandidate> = Vec::new();
        let mut i: usize = 0;
        proof {
            assert(coords_of(candidates@) =~= Seq::empty());
        }
        while i < coords.len()
            invariant
                i <= coords@.len(),
                *self == pre,
                entries == self.loaded.entries@,
                all == drop_candidates(entries, center),
                coords@.no_duplicates(),
                forall|c: ChunkCoord| #[trigger] coords@.contains(c) <==> entries.contains_key(c),
                forall|k: int|
                    0 <= k < candidates@.len() ==> describes(
                        #[trigger] candidates@[k],
                        entries,
                        center,
                    ),
                coords_of(candidates@).no_duplicates(),
                forall|c: ChunkCoord| #[trigger]
                    coords_of(candidates@).contains(c) <==> coords@.take(i as int).contains(c)
                        && droppable(center, c),
            decreases coords@.len() - i,
        {
            let coord: ChunkCoord = coords[i];
            let ghost before = candidates@;
            proof {
                lemma_take_step(coords@, i as int);
                assert(coords@.contains(coord));
            }
            match self.loaded.entries.get(&coord) {
                Some(entry) => {
                    let dx: i64 = axis_distance(coord.cx, center.cx);
                    let dz: i64 = axis_distance(coord.cz, center.cz);
                    if dx > RENDER_DISTANCE as i64 || dz > RENDER_DISTANCE as i64 {
                        let dist_sq: i128 = wide_distance_sq(coord, center);
                        candidates.push(
                            DropCandidate { coord, last_accessed: entry.last_accessed, dist_sq },
                        );
                    }
                },
                None => {},
            }
            proof {
                let (p, q) = (coords_of(before), coords_of(candidates@));
                if droppable(center, coord) {
                    assert(q =~= p.push(coord));
                    lemma_to_set_push(p, coord);
                    assert(!p.contains(coord));
                    lemma_push_no_duplicates(p, coord);
                }
                assert forall|c: ChunkCoord| #[trigger]
                    q.contains(c) <==> coords@.take(i + 1).contains(c) && droppable(center, c) by {
                    assert(p.contains(c) <==> coords@.take(i as int).contains(c) && droppable(
                        center,
                        c,
                    ));
                    if droppable(center, coord) {
                        assert(p.push(coord).to_set().contains(c) == (p.contains(c) || c
                            == coord));
                    }
                }
            }
            i = i + 1;
        }
        proof {
            assert(coords@.take(i as int) =~= coords@);
            let q = coords_of(candidates@);
            assert(q.to_set() =~= all) by {
                assert forall|c: ChunkCoord| q.to_set().contains(c) == all.contains(c) by {
                    assert(q.contains(c) <==> coords@.take(i as int).contains(c) && droppable(
                        center,
                        c,
                    ));
                }
            }
            q.unique_seq_to_set();
        }
        let over: usize = count - MAX_CACHED_CHUNKS;
        let mut evict_count: usize = over;
        if LRU_UNLOADS_PER_FRAME < evict_count {
            evict_count = LRU_UNLOADS_PER_FRAME;
        }
        if candidates.len() < evict_count {
            evict_count = candidates.len();
        }
        let mut gone: Vec<ChunkCoord> = Vec::new();
        let ghost total = candidates@.len();
        while gone.len() < evict_count
            invariant
                gone@.len() <= evict_count,
                candidates@.len() + gone@.len() == total,
                evict_count <= total,
                *self == pre,
                entries == self.loaded.entries@,
                all == drop_candidates(entries, center),
                forall|k: int|
                    0 <= k < candidates@.len() ==> describes(
                        #[trigger] candidates@[k],
                        entries,
                        center,
                    ),
                coords_of(candidates@).no_duplicates(),
                gone@.no_duplicates(),
                forall|c: ChunkCoord| #[trigger]
                    all.contains(c) <==> gone@.contains(c) || coords_of(candidates@).contains(c),
                forall|c: ChunkCoord| #[trigger]
                    gone@.contains(c) ==> !coords_of(candidates@).contains(c),
                forall|a: int, b: int|
                    0 <= a < b < gone@.len() ==> !dropped_before(
                        entries,
                        center,
                        #[trigger] gone@[b],
                        #[trigger] gone@[a],
                    ),
                forall|a: int, c: ChunkCoord|
                    0 <= a < gone@.len() && coords_of(candidates@).contains(c)
                        ==> !#[trigger] dropped_before(entries, center, c, gone@[a]),
            decreases evict_count - gone@.len(),
        {
            let ghost p = coords_of(candidates@);
            let ghost before = gone@;
            let ghost cands = candidates@;
            let k: usize = first_to_drop(&candidates, Ghost(entries), Ghost(center));
            let d: DropCandidate = candidates.remove(k);
            gone.push(d.coord);
            proof {
                let q = coords_of(candidates@);
                assert(q =~= p.remove(k as int));
                assert(p[k as int] == d.coord);
                assert(p.contains(d.coord));
                lemma_to_set_push(before, d.coord);
                lemma_push_no_duplicates(before, d.coord);
                lemma_removed(p, k as int);
                assert forall|c: ChunkCoord| #[trigger] gone@.contains(c) == (before.contains(c) || c
                    == d.coord) by {
                    assert(gone@.to_set().contains(c) == (before.to_set().contains(c) || c
                        == d.coord));
                }
                assert forall|a: int, c: ChunkCoord|
                    0 <= a < gone@.len() && q.contains(c) implies !#[trigger] dropped_before(
                    entries,
                    center,
                    c,
                    gone@[a],
                ) by {
                    assert(p.contains(c));
                    if a < before.len() {
                        assert(!dropped_before(entries, center, c, before[a]));
                    } else {
                        let x = choose|x: int| 0 <= x < p.len() && p[x] == c;
                        assert(cands[x].coord == c);
                    }
                }
                assert forall|a: int, b: int| 0 <= a < b < gone@.len() implies !dropped_before(
                    entries,
                    center,
                    #[trigger] gone@[b],
                    #[trigger] gone@[a],
                ) by {
                    if b == before.len() {
                        assert(!dropped_before(entries, center, d.coord, before[a]));
                    } else {
                        assert(before[a] == gone@[a] && before[b] == gone@[b]);
                    }
                }
                assert forall|c: ChunkCoord| #[trigger] all.contains(c) <==> gone@.contains(c)
                    || q.contains(c) by {
                    assert(gone@.contains(c) == (before.contains(c) || c == d.coord));
                }
                assert forall|j: int| 0 <= j < candidates@.len() implies describes(
                    #[trigger] candidates@[j],
                    entries,
                    center,
                ) by {
                    if j < k {
                        assert(candidates@[j] == cands[j]);
                    } else {
                        assert(candidates@[j] == cands[j + 1]);
                    }
                }
            }
        }
        proof {
            assert forall|j: int| 0 <= j < gone@.len() implies all.contains(
                #[trigger] gone@[j],
            ) && entries.contains_key(gone@[j]) by {
                assert(gone@.contains(gone@[j]));
            }
            assert(is_drop_list(entries, center, gone@));
        }
        self.unload_all(&gone);
    }
}

/// The chunks of a list up to and with one more.
proof fn lemma_take_step(s: Seq<ChunkCoord>, i: int)
    requires
        0 <= i < s.len(),
        s.no_duplicates(),
    ensures
        forall|c: ChunkCoord| #[trigger]
            s.take(i + 1).contains(c) == (s.take(i).contains(c) || c == s[i]),
        !s.take(i).contains(s[i]),
{
    let (p, q) = (s.take(i), s.take(i + 1));
    assert forall|c: ChunkCoord| #[trigger] q.contains(c) == (p.contains(c) || c == s[i]) by {
        if p.contains(c) {
            let k = choose|k: int| 0 <= k < p.len() && p[k] == c;
            assert(q[k] == c);
        }
        if q.contains(c) && c != s[i] {
            let k = choose|k: int| 0 <= k < q.len() && q[k] == c;
            assert(p[k] == c);
        }
        assert(q[i] == s[i]);
    }
    if p.contains(s[i]) {
        let k = choose|k: int| 0 <= k < p.len() && p[k] == s[i];
        assert(s[k] == s[i]);
    }
}

/// A list without duplicates has none after a new chunk is added.
proof fn lemma_push_no_duplicates(s: Seq<ChunkCoord>, c: ChunkCoord)
    requires
        s.no_duplicates(),
        !s.contains(c),
    ensures
        s.push(c).no_duplicates(),
{
    let t = s.push(c);
    assert forall|i: int, j: int| 0 <= i < t.len() && 0 <= j < t.len() && i != j implies t[i]
        != t[j] by {
        if i < s.len() {
            assert(s.contains(s[i]));
        }
        if j < s.len() {
            assert(s.contains(s[j]));
        }
    }
}

/// A list of distinct chunks without one of them.
proof fn lemma_removed(s: Seq<ChunkCoord>, k: int)
    requires
        s.no_duplicates(),
        0 <= k < s.len(),
    ensures
        s.remove(k).no_duplicates(),
        forall|c: ChunkCoord| #[trigger]
            s.remove(k).contains(c) == (s.contains(c) && c != s[k]),
{
    let t = s.remove(k);
    assert forall|c: ChunkCoord| #[trigger] t.contains(c) == (s.contains(c) && c != s[k]) by {
        if t.contains(c) {
            let i = choose|i: int| 0 <= i < t.len() && t[i] == c;
            if i < k {
                assert(s[i] == c);
            } else {
                assert(s[i + 1] == c);
            }
        }
        if s.contains(c) && c != s[k] {
            let i = choose|i: int| 0 <= i < s.len() && s[i] == c;
            if i < k {
                assert(t[i] == c);
            } else {
                assert(t[i - 1] == c);
            }
        }
    }
}

/// The entries after their levels of detail have been changed in turn.
pub open spec fn with_lods(
    entries: Map<ChunkCoord, ChunkEntry>,
    changes: Seq<(ChunkCoord, LodLevel)>,
) -> Map<ChunkCoord, ChunkEntry>
    decreases changes.len(),
{
    if changes.len() == 0 {
        entries
    } else {
        let before = with_lods(entries, changes.drop_last());
        let (c, level) = changes.last();
        if before.contains_key(c) {
            before.insert(c, ChunkEntry { lod_level: level, ..before[c] })
        } else {
            before
        }
    }
}

/// A chunk that is to be drawn at another level of detail.
#[derive(Clone, Copy, Debug, PartialEq, Eq, Structural)]
pub struct LodChange {
    pub entity: u64,
    pub coord: ChunkCoord,
    pub lod_level: LodLevel,
}

/// The changes as they concern entities.
pub open spec fn lod_changes(
    entries: Map<ChunkCoord, ChunkEntry>,
    changes: Seq<(ChunkCoord, LodLevel)>,
) -> Seq<LodChange> {
    Seq::new(
        changes.len(),
        |i: int|
            LodChange {
                entity: entries[changes[i].0].entity,
                coord: changes[i].0,
                lod_level: changes[i].1,
            },
    )
}

/// The list holds the loaded chunks, each once.
pub open spec fn lists_loaded(
    entries: Map<ChunkCoord, ChunkEntry>,
    coords: Seq<ChunkCoord>,
) -> bool {
    &&& coords.no_duplicates()
    &&& forall|c: ChunkCoord| #[trigger] coords.contains(c) <==> entries.contains_key(c)
}

/// The levels of detail have been brought up to date for the player's chunk.
/// Only a player who has come to another chunk changes anything.
pub open spec fn lods_updated(
    pre: ChunkManager,
    post: ChunkManager,
    player: ChunkCoord,
    coords: Seq<ChunkCoord>,
    r: Seq<LodChange>,
) -> bool {
    let changes = if pre.lods.last() == Some(player) {
        seq![]
    } else {
        lod::changes_after(pre.lods.lods(), coords, player)
    };
    &&& lists_loaded(pre.loaded.entries@, coords)
    &&& post.lods.last() == Some(player)
    &&& post.lods.lods() == if pre.lods.last() == Some(player) {
        pre.lods.lods()
    } else {
        lod::lods_after(pre.lods.lods(), coords, player)
    }
    &&& post.loaded.entries@ == with_lods(pre.loaded.entries@, changes)
    &&& r == lod_changes(pre.loaded.entries@, changes)
    &&& post.same_but_entries(pre)
}

/// The chunks that are sent to be prepared when these are looked at in turn: not
/// those that are loaded, and not those with a task under way.
pub open spec fn sent_for(
    loaded: Set<ChunkCoord>,
    meshing: Set<ChunkCoord>,
    preparing: Set<ChunkCoord>,
    coords: Seq<ChunkCoord>,
) -> Seq<ChunkCoord>
    decreases coords.len(),
{
    if coords.len() == 0 {
        seq![]
    } else {
        let before = sent_for(loaded, meshing, preparing, coords.drop_last());
        let c = coords.last();
        if loaded.contains(c) || meshing.contains(c) || preparing.contains(c) || before.contains(
            c,
        ) {
            before
        } else {
            before.push(c)
        }
    }
}

/// How many chunks of the queue are looked at in one frame.
pub open spec fn frame_share(queue: int) -> int {
    if queue < CHUNKS_PER_FRAME {
        queue
    } else {
        CHUNKS_PER_FRAME as int
    }
}

/// The first chunks of the queue have been sent to be prepared, as far as they
/// need to be.
pub open spec fn submitted(pre: ChunkManager, post: ChunkManager, r: Seq<ChunkCoord>) -> bool {
    let queue = pre.loaded.load_queue@;
    let n = frame_share(queue.len() as int);
    &&& r == sent_for(
        pre.loaded.entries@.dom(),
        pre.tasks.meshing(),
        pre.tasks.preparing(),
        queue.take(n),
    )
    &&& post.loaded.load_queue@ == queue.skip(n)
    &&& post.tasks.preparing() == pre.tasks.preparing().union(r.to_set())
    &&& post.tasks.meshing() == pre.tasks.meshing()
    &&& post.tasks.cancelled() == pre.tasks.cancelled()
    &&& post.loaded.entries == pre.loaded.entries
    &&& post.loaded.entries_ordered == pre.loaded.entries_ordered
    &&& post.loaded.last_player_chunk == pre.loaded.last_player_chunk
    &&& post.loaded.frame_counter == pre.loaded.frame_counter
    &&& post.loaded.needs_unload_check == pre.loaded.needs_unload_check
    &&& post.loaded.pending_deletions == pre.loaded.pending_deletions
    &&& post.loaded.load_queue_build_state == pre.loaded.load_queue_build_state
    &&& post.lods == pre.lods
    &&& post.triangles == pre.triangles
}

impl ChunkManager {
    /// All but the entries and the levels is the same.
    pub open spec fn same_but_entries(self, other: Self) -> bool {
        &&& self.loaded.entries_ordered == other.loaded.entries_ordered
        &&& self.loaded.load_queue == other.loaded.load_queue
        &&& self.loaded.last_player_chunk == other.loaded.last_player_chunk
        &&& self.loaded.frame_counter == other.loaded.frame_counter
        &&& self.loaded.needs_unload_check == other.loaded.needs_unload_check
        &&& self.loaded.pending_deletions == other.loaded.pending_deletions
        &&& self.loaded.load_queue_build_state == other.loaded.load_queue_build_state
        &&& self.tasks == other.tasks
        &&& self.triangles == other.triangles
    }

    /// Every loaded chunk is near enough to the player for its squared distance
    /// to fit 32 bits.
    pub open spec fn all_in_range(&self, player: ChunkCoord) -> bool {
        forall|c: ChunkCoord| #[trigger]
            self.loaded.entries@.contains_key(c) ==> lod::in_range(c, player)
    }

    /// Brings the levels of detail up to date and returns the chunks that are to
    /// be drawn anew.
    fn update_lods(&mut self, player: ChunkCoord) -> (r: Vec<LodChange>)
        requires
            old(self).wf(),
            old(self).all_in_range(player),
        ensures
            final(self).wf(),
            final(self).loaded.entries@.dom() == old(self).loaded.entries@.dom(),
            exists|coords: Seq<ChunkCoord>| #[trigger]
                lods_updated(*old(self), *final(self), player, coords, r@),
    {
        let ghost pre = *self;
        let coords: Vec<ChunkCoord> = self.loaded.entries.coords();
        proof {
            assert forall|i: int| 0 <= i < coords@.len() implies lod::in_range(
                #[trigger] coords@[i],
                player,
            ) by {
                assert(coords@.contains(coords@[i]));
            }
        }
        let to_rebuild: Vec<(ChunkCoord, LodLevel)> = self.lods.update_incremental(
            player,
            &coords,
        );
        let ghost changes = to_rebuild@;
        proof {
            assert forall|i: int| 0 <= i < changes.len() implies coords@.contains(
                (#[trigger] changes[i]).0,
            ) by {
                lemma_changes_among(pre.lods.lods(), coords@, player, i);
            }
            assert(changes =~= if pre.lods.last() == Some(player) {
                seq![]
            } else {
                lod::changes_after(pre.lods.lods(), coords@, player)
            });
        }
        let mut out: Vec<LodChange> = Vec::new();
        let mut i: usize = 0;
        assert(changes.take(0) =~= seq![]);
        while i < to_rebuild.len()
            invariant
                i <= to_rebuild@.len(),
                to_rebuild@ == changes,
                pre.wf(),
                self.wf(),
                forall|i: int|
                    0 <= i < changes.len() ==> coords@.contains((#[trigger] changes[i]).0),
                lists_loaded(pre.loaded.entries@, coords@),
                self.loaded.entries@ == with_lods(pre.loaded.entries@, changes.take(i as int)),
                self.loaded.entries@.dom() == pre.loaded.entries@.dom(),
                forall|c: ChunkCoord| #[trigger]
                    pre.loaded.entries@.contains_key(c) ==> self.loaded.entries@[c].entity
                        == pre.loaded.entries@[c].entity,
                out@ =~= lod_changes(pre.loaded.entries@, changes).take(i as int),
                self.same_but_entries(pre),
                self.lods.last() == Some(player),
                self.lods.lods() == if pre.lods.last() == Some(player) {
                    pre.lods.lods()
                } else {
                    lod::lods_after(pre.lods.lods(), coords@, player)
                },
            decreases to_rebuild@.len() - i,
        {
            let (coord, lod_level) = to_rebuild[i];
            let ghost m = *self;
            proof {
                assert(changes[i as int] == (coord, lod_level));
                assert(coords@.contains(changes[i as int].0));
                assert(changes.take(i + 1).drop_last() =~= changes.take(i as int));
                assert(changes.take(i + 1).last() == changes[i as int]);
                assert(pre.loaded.entries@.contains_key(coord));
                assert(pre.loaded.entries@.dom().contains(coord));
                assert(m.loaded.entries@.dom().contains(coord));
            }
            match self.loaded.entries.remove(&coord) {
                Some(entry) => {
                    let entity: u64 = entry.entity;
                    let fresh: ChunkEntry = ChunkEntry {
                        entity: entry.entity,
                        data: entry.data,
                        last_accessed: entry.last_accessed,
                        solid_mesh: entry.solid_mesh,
                        water_mesh: entry.water_mesh,
                        water_entity: entry.water_entity,
                        water_triangle_count: entry.water_triangle_count,
                        lod_level,
                        triangle_count: entry.triangle_count,
                    };
                    self.loaded.entries.insert(coord, fresh);
                    out.push(LodChange { entity, coord, lod_level });
                    proof {
                        assert(self.loaded.entries@ =~= m.loaded.entries@.insert(coord, fresh));
                        assert(self.loaded.entries@.dom() =~= m.loaded.entries@.dom());
                    }
                },
                None => {
                    assert(false);
                },
            }
            i = i + 1;
        }
        proof {
            assert(changes.take(i as int) =~= changes);
            assert(out@ =~= lod_changes(pre.loaded.entries@, changes));
            assert(lods_updated(pre, *self, player, coords@, out@));
        }
        out
    }

    /// Takes the first chunks of the queue and returns those that are to be sent
    /// to be prepared.
    pub fn submit_prepare_tasks(&mut self) -> (r: Vec<ChunkCoord>)
        requires
            old(self).wf(),
        ensures
            final(self).wf(),
            submitted(*old(self), *final(self), r@),
            old(self).counted() ==> final(self).counted(),
    {
        let ghost pre = *self;
        let ghost queue = self.loaded.load_queue@;
        let ghost n = frame_share(queue.len() as int);
        let len: usize = self.loaded.load_queue.len();
        let count: usize = if len < CHUNKS_PER_FRAME {
            len
        } else {
            CHUNKS_PER_FRAME
        };
        let mut sent: Vec<ChunkCoord> = Vec::new();
        let mut i: usize = 0;
        proof {
            assert(queue.take(0) =~= seq![]);
            assert(pre.tasks.preparing().union(sent@.to_set()) =~= pre.tasks.preparing());
        }
        while i < count
            invariant
                i <= count <= queue.len(),
                pre.wf(),
                self.wf(),
                self.loaded == pre.loaded,
                queue == self.loaded.load_queue@,
                self.lods == pre.lods,
                self.triangles == pre.triangles,
                self.tasks.meshing() == pre.tasks.meshing(),
                self.tasks.cancelled() == pre.tasks.cancelled(),
                sent@ == sent_for(
                    pre.loaded.entries@.dom(),
                    pre.tasks.meshing(),
                    pre.tasks.preparing(),
                    queue.take(i as int),
                ),
                self.tasks.preparing() == pre.tasks.preparing().union(sent@.to_set()),
            decreases count - i,
        {
            let coord: ChunkCoord = self.loaded.load_queue[i];
            let ghost before = sent@;
            proof {
                assert(queue.take(i + 1).drop_last() =~= queue.take(i as int));
                assert(queue.take(i + 1).last() == coord);
                assert(sent@.to_set().contains(coord) == sent@.contains(coord));
            }
            if !self.loaded.entries.contains_key(&coord) {
                if !(self.tasks.is_prepare_pending(&coord) || self.tasks.is_pending(&coord)) {
                    self.tasks.submit_prepare_task(coord);
                    sent.push(coord);
                    proof {
                        lemma_to_set_push(before, coord);
                        assert(self.tasks.preparing() =~= pre.tasks.preparing().union(
                            sent@.to_set(),
                        ));
                    }
                }
            }
            i = i + 1;
        }
        let mut rest: Vec<ChunkCoord> = Vec::new();
        let mut j: usize = count;
        while j < len
            invariant
                count <= j <= len,
                len == queue.len(),
                queue == self.loaded.load_queue@,
                rest@ =~= queue.subrange(count as int, j as int),
            decreases len - j,
        {
            rest.push(self.loaded.load_queue[j]);
            j = j + 1;
        }
        assert(rest@ =~= queue.skip(n));
        self.loaded.load_queue = rest;
        sent
    }
}

/// Every change concerns one of the chunks that were looked at.
proof fn lemma_changes_among(
    lods: Map<ChunkCoord, LodLevel>,
    coords: Seq<ChunkCoord>,
    player: ChunkCoord,
    i: int,
)
    ensures
        0 <= i < lod::changes_after(lods, coords, player).len() ==> coords.contains(
            lod::changes_after(lods, coords, player)[i].0,
        ),
    decreases coords.len(),
{
    if coords.len() > 0 {
        let before = lod::changes_after(lods, coords.drop_last(), player);
        lemma_changes_among(lods, coords.drop_last(), player, i);
        if 0 <= i < before.len() {
            let c = before[i].0;
            let k = choose|k: int| 0 <= k < coords.drop_last().len() && coords.drop_last()[k] == c;
            assert(coords[k] == c);
        }
        assert(coords[coords.len() - 1] == coords.last());
    }
}

/// The scan for chunks to load has gone on for one frame. It starts anew when
/// the player has come to another chunk. When it is done, the queue is replaced
/// and the chunks that are now far away are unloaded.
pub open spec fn queue_step(
    pre: ChunkManager,
    post: ChunkManager,
    player: ChunkCoord,
    offsets: Seq<OffsetEntry>,
) -> bool {
    let state = pre.loaded.load_queue_build_state;
    if state is None && pre.loaded.last_player_chunk == Some(player) {
        post == pre
    } else {
        let check = pre.loaded.needs_unload_check || state is None;
        let queue = if post.loaded.load_queue_build_state is None {
            Some(post.loaded.load_queue@)
        } else {
            None
        };
        &&& load_queue::scan_step(
            state,
            post.loaded.load_queue_build_state,
            queue,
            pre.loaded.entries@.dom(),
            player,
            offsets,
            QUEUE_BUILD_STEPS_PER_FRAME as int,
        )
        &&& post.loaded.last_player_chunk == if state is None {
            Some(player)
        } else {
            pre.loaded.last_player_chunk
        }
        &&& if post.loaded.load_queue_build_state is None {
            &&& !post.loaded.needs_unload_check
            &&& if check {
                exists|gone: Seq<ChunkCoord>| #[trigger]
                    all_far(pre.loaded.entries@, player, gone) && chunks_gone(pre, post, gone)
            } else {
                same_chunks(pre, post)
            }
        } else {
            &&& post.loaded.load_queue == pre.loaded.load_queue
            &&& post.loaded.needs_unload_check == check
            &&& same_chunks(pre, post)
        }
    }
}

/// The chunks, the tasks and the levels are the same.
pub open spec fn same_chunks(pre: ChunkManager, post: ChunkManager) -> bool {
    &&& post.loaded.entries == pre.loaded.entries
    &&& post.loaded.entries_ordered == pre.loaded.entries_ordered
    &&& post.loaded.pending_deletions == pre.loaded.pending_deletions
    &&& post.loaded.frame_counter == pre.loaded.frame_counter
    &&& post.tasks == pre.tasks
    &&& post.lods == pre.lods
    &&& post.triangles == pre.triangles
}

/// The first steps of one frame: the queue, the levels of detail, and dropping what
/// is too much.
pub open spec fn load_state_updated(
    pre: ChunkManager,
    post: ChunkManager,
    player: ChunkCoord,
    offsets: Seq<OffsetEntry>,
    changes: Seq<LodChange>,
) -> bool {
    exists|a: ChunkManager, b: ChunkManager|
        {
            &&& #[trigger] queue_step(pre, a, player, offsets)
            &&& #[trigger] lods_step(a, b, player, changes)
            &&& drop_step(b, post, player)
        }
}

/// The steps of one frame: the queue, the levels of detail, dropping what is too
/// much, and sending chunks to be prepared.
pub open spec fn managed(
    pre: ChunkManager,
    post: ChunkManager,
    player: ChunkCoord,
    offsets: Seq<OffsetEntry>,
    changes: Seq<LodChange>,
    sent: Seq<ChunkCoord>,
) -> bool {
    exists|mid: ChunkManager| #[trigger]
        load_state_updated(pre, mid, player, offsets, changes) && submitted(mid, post, sent)
}

/// The levels of detail have been brought up to date, whatever the order in
/// which the chunks were looked at.
pub open spec fn lods_step(
    pre: ChunkManager,
    post: ChunkManager,
    player: ChunkCoord,
    changes: Seq<LodChange>,
) -> bool {
    exists|coords: Seq<ChunkCoord>| #[trigger] lods_updated(pre, post, player, coords, changes)
}

/// The least recently used chunks have been dropped, if too many were loaded.
pub open spec fn drop_step(pre: ChunkManager, post: ChunkManager, player: ChunkCoord) -> bool {
    &&& post.loaded.needs_unload_check == pre.loaded.needs_unload_check
    &&& exists|gone: Seq<ChunkCoord>| #[trigger]
        is_drop_list(pre.loaded.entries@, player, gone) && unloaded(pre, post, gone)
}

/// What a frame asks of the renderer and the workers.
pub struct LoadPlan {
    /// Chunks to be drawn at another level of detail.
    pub lod_changes: Vec<LodChange>,
    /// Chunks to be prepared.
    pub prepare: Vec<ChunkCoord>,
}

impl ChunkManager {
    /// Starts to load the world round a chunk.
    pub fn begin_loading(&mut self, center: ChunkCoord, offsets: &Vec<OffsetEntry>)
        requires
            old(self).wf(),
            load_queue::scan_fits(center),
            load_queue::is_offset_table(offsets@),
        ensures
            final(self).wf(),
            same_chunks(*old(self), *final(self)),
            final(self).loaded.needs_unload_check == old(self).loaded.needs_unload_check,
            final(self).loaded.last_player_chunk == Some(center),
            load_queue::scan_step(
                old(self).loaded.load_queue_build_state,
                final(self).loaded.load_queue_build_state,
                if final(self).loaded.load_queue_build_state is None {
                    Some(final(self).loaded.load_queue@)
                } else {
                    None
                },
                old(self).loaded.entries@.dom(),
                center,
                offsets@,
                QUEUE_BUILD_STEPS_PER_FRAME as int,
            ),
            final(self).loaded.load_queue_build_state is Some ==> final(self).loaded.load_queue
                == old(self).loaded.load_queue,
    {
        self.loaded.last_player_chunk = Some(center);
        let built: Option<Vec<ChunkCoord>> = rebuild_load_queue(
            center,
            &self.loaded.entries,
            &mut self.loaded.load_queue_build_state,
            QUEUE_BUILD_STEPS_PER_FRAME,
            offsets,
        );
        match built {
            Some(queue) => {
                self.loaded.load_queue = queue;
            },
            None => {},
        }
    }

    /// Goes on with the scan for chunks to load.
    fn step_queue(&mut self, player: ChunkCoord, offsets: &Vec<OffsetEntry>)
        requires
            old(self).wf(),
            load_queue::scan_fits(player),
            load_queue::is_offset_table(offsets@),
        ensures
            final(self).wf(),
            queue_step(*old(self), *final(self), player, offsets@),
    {
        let ghost pre = *self;
        let scanning: bool = match self.loaded.load_queue_build_state {
            Some(_) => true,
            None => false,
        };
        let moved: bool = match self.loaded.last_player_chunk {
            Some(last) => last != player,
            None => true,
        };
        if !(scanning || moved) {
            return;
        }
        if !scanning {
            self.loaded.last_player_chunk = Some(player);
            self.loaded.needs_unload_check = true;
        }
        let built: Option<Vec<ChunkCoord>> = rebuild_load_queue(
            player,
            &self.loaded.entries,
            &mut self.loaded.load_queue_build_state,
            QUEUE_BUILD_STEPS_PER_FRAME,
            offsets,
        );
        match built {
            Some(queue) => {
                self.loaded.load_queue = queue;
                let ghost mid = *self;
                self.unload_distant_chunks(player);
                proof {
                    if mid.loaded.needs_unload_check {
                        let gone = choose|gone: Seq<ChunkCoord>| #[trigger]
                            all_far(mid.loaded.entries@, player, gone) && unloaded(
                                mid,
                                *self,
                                gone,
                            );
                        assert(all_far(pre.loaded.entries@, player, gone));
                        assert(chunks_gone(pre, *self, gone));
                    }
                }
            },
            None => {},
        }
    }

    /// Goes on with the scan for chunks to load in a frame in which the player is in
    /// chunk `player`, unloads what is far away, brings the levels of detail up to
    /// date and drops what is too much. Returns the chunks that are to be drawn at
    /// another level of detail.
    pub fn update_load_state(&mut self, player: ChunkCoord, offsets: &Vec<OffsetEntry>) -> (r: Vec<
        LodChange,
    >)
        requires
            old(self).wf(),
            old(self).all_in_range(player),
            load_queue::scan_fits(player),
            load_queue::is_offset_table(offsets@),
        ensures
            final(self).wf(),
            load_state_updated(*old(self), *final(self), player, offsets@, r@),
            old(self).counted() ==> final(self).counted(),
    {
        let ghost pre = *self;
        self.step_queue(player, offsets);
        let ghost a = *self;
        proof {
            assert forall|c: ChunkCoord| #[trigger]
                a.loaded.entries@.contains_key(c) implies lod::in_range(c, player) by {
                assert(pre.loaded.entries@.contains_key(c));
            }
        }
        let lod_changes: Vec<LodChange> = self.update_lods(player);
        let ghost b = *self;
        self.lru_evict(player);
        proof {
            assert(queue_step(pre, a, player, offsets@));
            assert(lods_step(a, b, player, lod_changes@));
            assert(drop_step(b, *self, player));
            pre.loaded.entries.lemma_finite();
            triangle_count::lemma_counted_update(pre, *self, player, offsets@, lod_changes@);
        }
        lod_changes
    }

    /// What is to be done in a frame in which the player is in chunk `player`:
    /// goes on with the scan for chunks to load, unloads what is far away,
    /// brings the levels of detail up to date, drops what is too much, and takes
    /// chunks from the queue.
    pub fn manage_chunk_load_state(&mut self, player: ChunkCoord, offsets: &Vec<OffsetEntry>) -> (r:
        LoadPlan)
        requires
            old(self).wf(),
            old(self).all_in_range(player),
            load_queue::scan_fits(player),
            load_queue::is_offset_table(offsets@),
        ensures
            final(self).wf(),
            managed(
                *old(self),
                *final(self),
                player,
                offsets@,
                r.lod_changes@,
                r.prepare@,
            ),
            old(self).counted() ==> final(self).counted(),
    {
        let lod_changes: Vec<LodChange> = self.update_load_state(player, offsets);
        let prepare: Vec<ChunkCoord> = self.submit_prepare_tasks();
        LoadPlan { lod_changes, prepare }
    }

    /// The player's chunk when the scan last started; the origin before that.
    pub open spec fn spec_player(&self) -> ChunkCoord {
        match self.loaded.last_player_chunk {
            Some(c) => c,
            None => ChunkCoord { cx: 0, cy: 0, cz: 0 },
        }
    }

    /// What is needed to show prepared blocks as a new chunk: its level of detail for
    /// a player in chunk `player`, and its neighbours. Nothing is shown of a chunk that
    /// is loaded already or holds only air.
    pub fn plan_spawn_for(&self, player: ChunkCoord, coord: ChunkCoord, data: &ChunkData) -> (r:
        Option<(LodLevel, ChunkNeighbors)>)
        requires
            self.wf(),
            data.wf(),
            neighbors_fit(coord),
            lod::in_range(coord, player),
        ensures
            r is None <==> self.loaded.entries@.contains_key(coord) || chunk::all_air(*data),
            r matches Some((level, neighbors)) ==> {
                &&& level == LodLevel::spec_at(lod::distance_sq(coord, player))
                &&& neighbors.wf()
                &&& forall|i: int|
                    0 <= i < 6 ==> match #[trigger] neighbors.neighbor_data@[i] {
                        Some(data) => self.loaded.entries@.contains_key(neighbor_of(coord, i))
                            && data == self.loaded.entries@[neighbor_of(coord, i)].data,
                        None => !self.loaded.entries@.contains_key(neighbor_of(coord, i)),
                    }
            },
    {
        if self.loaded.entries.contains_key(&coord) {
            return None;
        }
        if is_air_chunk(data) {
            return None;
        }
        let neighbors: ChunkNeighbors = collect_neighbors(coord, &self.loaded);
        let level: LodLevel = LodLevel::from_chunk_distance_sq(chunk_distance_sq(coord, player));
        Some((level, neighbors))
    }

    /// What is needed to show prepared blocks as a new chunk, for a player who is in
    /// the chunk at which the scan last started.
    pub fn plan_spawn(&self, coord: ChunkCoord, data: &ChunkData) -> (r: Option<
        (LodLevel, ChunkNeighbors),
    >)
        requires
            self.wf(),
            data.wf(),
            neighbors_fit(coord),
            lod::in_range(coord, self.spec_player()),
        ensures
            r is None <==> self.loaded.entries@.contains_key(coord) || chunk::all_air(*data),
            r matches Some((level, neighbors)) ==> {
                &&& level == LodLevel::spec_at(lod::distance_sq(coord, self.spec_player()))
                &&& neighbors.wf()
                &&& forall|i: int|
                    0 <= i < 6 ==> match #[trigger] neighbors.neighbor_data@[i] {
                        Some(data) => self.loaded.entries@.contains_key(neighbor_of(coord, i))
                            && data == self.loaded.entries@[neighbor_of(coord, i)].data,
                        None => !self.loaded.entries@.contains_key(neighbor_of(coord, i)),
                    }
            },
    {
        let player: ChunkCoord = match self.loaded.last_player_chunk {
            Some(c) => c,
            None => ChunkCoord { cx: 0, cy: 0, cz: 0 },
        };
        self.plan_spawn_for(player, coord, data)
    }

    /// Enters a new chunk, shown by an entity. Returns whether its meshes are to
    /// be made, and the entities of at most `budget` of its neighbours, which are
    /// to be made anew.
    pub fn finish_spawn(
        &mut self,
        coord: ChunkCoord,
        entity: u64,
        data: Arc<ChunkData>,
        lod_level: LodLevel,
        budget: usize,
    ) -> (r: (bool, Vec<u64>))
        requires
            old(self).wf(),
            data.wf(),
            neighbors_fit(coord),
            !old(self).loaded.entries@.contains_key(coord),
        ensures
            final(self).wf(),
            final(self).loaded.entries@ == old(self).loaded.entries@.insert(
                coord,
                new_entry(entity, data, old(self).loaded.frame_counter, lod_level),
            ),
            final(self).loaded.entries_ordered@ == old(self).loaded.entries_ordered@.push(coord),
            final(self).lods.lods() == old(self).lods.lods().insert(coord, lod_level),
            final(self).lods.last() == old(self).lods.last(),
            r.0 == !old(self).tasks.meshing().contains(coord),
            final(self).tasks.meshing() == old(self).tasks.meshing().insert(coord),
            final(self).tasks.preparing() == old(self).tasks.preparing(),
            final(self).tasks.cancelled() == old(self).tasks.cancelled(),
            r.1@ == touched_neighbors(old(self).loaded.entries@, coord, 6, budget as int),
            final(self).triangles == old(self).triangles,
            old(self).counted() ==> final(self).counted(),
            final(self).loaded.load_queue == old(self).loaded.load_queue,
            final(self).loaded.last_player_chunk == old(self).loaded.last_player_chunk,
            final(self).loaded.frame_counter == old(self).loaded.frame_counter,
            final(self).loaded.needs_unload_check == old(self).loaded.needs_unload_check,
            final(self).loaded.pending_deletions == old(self).loaded.pending_deletions,
            final(self).loaded.load_queue_build_state == old(self).loaded.load_queue_build_state,
    {
        let mut touched: Vec<u64> = Vec::new();
        let mut i: usize = 0;
        while i < 6
            invariant
                i <= 6,
                neighbors_fit(coord),
                *self == *old(self),
                self.wf(),
                touched@ == touched_neighbors(
                    self.loaded.entries@,
                    coord,
                    i as int,
                    budget as int,
                ),
            decreases 6 - i,
        {
            if touched.len() < budget {
                let n: ChunkCoord = neighbor_coord(coord, i);
                match self.loaded.entries.get(&n) {
                    Some(entry) => {
                        if !is_air_chunk(&entry.data) {
                            touched.push(entry.entity);
                        }
                    },
                    None => {},
                }
            }
            i = i + 1;
        }
        let entry: ChunkEntry = ChunkEntry {
            entity,
            data,
            last_accessed: self.loaded.frame_counter,
            solid_mesh: EMPTY_MESH,
            water_mesh: None,
            water_entity: None,
            water_triangle_count: 0,
            lod_level,
            triangle_count: 0,
        };
        self.loaded.entries.insert(coord, entry);
        self.loaded.entries_ordered.push(coord);
        self.lods.set_lod(coord, lod_level);
        let send: bool = self.tasks.submit_task(coord);
        proof {
            let before = old(self).loaded.entries_ordered@;
            if before.contains(coord) {
                let k = choose|k: int| 0 <= k < before.len() && before[k] == coord;
                assert(old(self).loaded.entries@.contains_key(before[k]));
            }
            lemma_push_no_duplicates(before, coord);
            old(self).loaded.entries.lemma_finite();
            triangle_count::lemma_counted_insert(
                *old(self),
                *self,
                coord,
                new_entry(entity, data, old(self).loaded.frame_counter, lod_level),
            );
        }
        (send, touched)
    }
}

/// The entry of a new chunk.
pub open spec fn new_entry(
    entity: u64,
    data: Arc<ChunkData>,
    frame: u64,
    lod_level: LodLevel,
) -> ChunkEntry {
    ChunkEntry {
        entity,
        data,
        last_accessed: frame,
        solid_mesh: EMPTY_MESH,
        water_mesh: None,
        water_entity: None,
        water_triangle_count: 0,
        lod_level,
        triangle_count: 0,
    }
}

/// The entities of the loaded neighbours that hold more than air, of the first
/// `n` directions, but no more than `budget`.
pub open spec fn touched_neighbors(
    entries: Map<ChunkCoord, ChunkEntry>,
    coord: ChunkCoord,
    n: int,
    budget: int,
) -> Seq<u64>
    decreases n,
{
    if n <= 0 {
        seq![]
    } else {
        let before = touched_neighbors(entries, coord, n - 1, budget);
        let c = neighbor_of(coord, n - 1);
        if before.len() < budget && entries.contains_key(c) && !chunk::all_air(*entries[c].data) {
            before.push(entries[c].entity)
        } else {
            before
        }
    }
}

/// The meshes that are to be removed with an unloaded chunk: its own, but not
/// the shared empty one, and that of its water.
pub fn meshes_to_remove(d: &PendingDeletion) -> (r: Vec<u64>)
    ensures
        r@ == (if d.mesh != EMPTY_MESH {
            seq![d.mesh]
        } else {
            seq![]
        }) + (match d.water_mesh {
            Some(w) => seq![w],
            None => seq![],
        }),
{
    let mut out: Vec<u64> = Vec::new();
    if d.mesh != EMPTY_MESH {
        out.push(d.mesh);
    }
    match d.water_mesh {
        Some(w) => {
            out.push(w);
        },
        None => {},
    }
    assert(out@ =~= (if d.mesh != EMPTY_MESH {
        seq![d.mesh]
    } else {
        seq![]
    }) + (match d.water_mesh {
        Some(w) => seq![w],
        None => seq![],
    }));
    out
}

/// No chunk within the render distance is dropped for want of room.
pub proof fn law_visible_chunks_stay(pre: ChunkManager, post: ChunkManager, player: ChunkCoord, c: ChunkCoord)
    requires
        drop_step(pre, post, player),
        pre.loaded.entries@.contains_key(c),
        -16 <= c.cx - player.cx <= 16,
        -16 <= c.cz - player.cz <= 16,
    ensures
        post.loaded.entries@.contains_key(c),
        post.loaded.entries@[c] == pre.loaded.entries@[c],
{
    let gone = choose|gone: Seq<ChunkCoord>| #[trigger]
        is_drop_list(pre.loaded.entries@, player, gone) && unloaded(pre, post, gone);
    if gone.contains(c) {
        let k = choose|k: int| 0 <= k < gone.len() && gone[k] == c;
        assert(drop_candidates(pre.loaded.entries@, player).contains(gone[k]));
    }
}

/// A chunk that is within the loading range is not unloaded for its distance.
pub proof fn law_loading_range_stays(center: ChunkCoord, c: ChunkCoord)
    requires
        load_queue::horizontal_sq(center, c) <= 256,
        -5 <= c.cy - center.cy <= 5,
    ensures
        !far(center, c),
{
    let (x, z) = (c.cx - center.cx, c.cz - center.cz);
    assert(-16 <= x <= 16 && -16 <= z <= 16) by (nonlinear_arith)
        requires
            x * x + z * z <= 256,
    ;
}

} // verus!

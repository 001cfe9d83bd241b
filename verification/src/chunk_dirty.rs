//! What is done with a chunk whose mesh is out of date.

use crate::chunk;
use crate::chunk::{is_air_chunk, ChunkData, ChunkNeighbors};
use crate::chunk_manager;
use crate::chunk_manager::{collect_neighbors, ChunkEntry, ChunkManager};
use crate::lod;
use crate::lod::LodLevel;
use crate::triangle_count;
use crate::types::ChunkCoord;
use vstd::prelude::*;

verus! {

/// What is to be done.
pub enum DirtyStep {
    /// Show nothing; the chunk is up to date.
    Clear,
    /// Make the mesh anew, at this level and with these neighbours; the chunk is
    /// up to date once that is done.
    Generate(LodLevel, ChunkNeighbors),
    /// Try again later: a mesh of the chunk is being made.
    Wait,
}

impl ChunkManager {
    /// What is to be done with a chunk whose mesh is out of date. A chunk of air
    /// is given `empty_mesh`. Any other has its mesh made anew, unless one is
    /// being made already: then it stays out of date, so that the mesh being made
    /// is replaced in turn.
    pub fn rebuild_dirty(&mut self, coord: ChunkCoord, data: &ChunkData, empty_mesh: u64) -> (r:
        DirtyStep)
        requires
            old(self).wf(),
            data.wf(),
            chunk_manager::neighbors_fit(coord),
        ensures
            final(self).wf(),
            r is Clear <==> chunk::all_air(*data),
            r is Wait <==> !chunk::all_air(*data) && old(self).tasks.meshing().contains(coord),
            r matches DirtyStep::Generate(level, neighbors) ==> {
                &&& level == lod::lod_in(old(self).lods.lods(), coord)
                &&& neighbors.wf()
                &&& forall|i: int|
                    0 <= i < 6 ==> match #[trigger] neighbors.neighbor_data@[i] {
                        Some(d) => old(self).loaded.entries@.contains_key(
                            chunk_manager::neighbor_of(coord, i),
                        ) && d == old(self).loaded.entries@[chunk_manager::neighbor_of(
                            coord,
                            i,
                        )].data,
                        None => !old(self).loaded.entries@.contains_key(
                            chunk_manager::neighbor_of(coord, i),
                        ),
                    }
            },
            final(self).tasks.meshing() == (if chunk::all_air(*data) {
                old(self).tasks.meshing()
            } else {
                old(self).tasks.meshing().insert(coord)
            }),
            final(self).tasks.preparing() == old(self).tasks.preparing(),
            final(self).tasks.cancelled() == old(self).tasks.cancelled(),
            final(self).loaded.entries@ == (if chunk::all_air(*data) && old(
                self,
            ).loaded.entries@.contains_key(coord) {
                old(self).loaded.entries@.insert(
                    coord,
                    ChunkEntry {
                        solid_mesh: empty_mesh,
                        ..old(self).loaded.entries@[coord]
                    },
                )
            } else {
                old(self).loaded.entries@
            }),
            final(self).loaded.entries_ordered == old(self).loaded.entries_ordered,
            final(self).loaded.load_queue == old(self).loaded.load_queue,
            final(self).loaded.last_player_chunk == old(self).loaded.last_player_chunk,
            final(self).loaded.frame_counter == old(self).loaded.frame_counter,
            final(self).loaded.needs_unload_check == old(self).loaded.needs_unload_check,
            final(self).loaded.pending_deletions == old(self).loaded.pending_deletions,
            final(self).loaded.load_queue_build_state == old(self).loaded.load_queue_build_state,
            final(self).lods == old(self).lods,
            final(self).triangles == old(self).triangles,
            old(self).counted() ==> final(self).counted(),
    {
        if is_air_chunk(data) {
            match self.loaded.entries.remove(&coord) {
                Some(entry) => {
                    self.loaded.entries.insert(
                        coord,
                        ChunkEntry { solid_mesh: empty_mesh, ..entry },
                    );
                },
                None => {},
            }
            proof {
                let entries = old(self).loaded.entries@;
                if entries.contains_key(coord) {
                    let fresh = ChunkEntry { solid_mesh: empty_mesh, ..entries[coord] };
                    assert(self.loaded.entries@ =~= entries.insert(coord, fresh));
                    old(self).loaded.entries.lemma_finite();
                    triangle_count::lemma_counted_insert(*old(self), *self, coord, fresh);
                } else {
                    assert(self.loaded.entries@ =~= entries);
                }
            }
            return DirtyStep::Clear;
        }
        let level: LodLevel = self.lods.get_lod(&coord);
        let neighbors: ChunkNeighbors = collect_neighbors(coord, &self.loaded);
        if self.tasks.submit_task(coord) {
            DirtyStep::Generate(level, neighbors)
        } else {
            DirtyStep::Wait
        }
    }
}

} // verus!

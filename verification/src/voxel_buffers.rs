//! One buffer of vertices and one of indices for the meshes of all chunks.

use crate::coord_map::CoordMap;
use crate::types::ChunkCoord;
use vstd::prelude::*;

verus! {

/// How many chunks there is room for.
pub const MAX_CHUNKS: usize = 2048;

/// How many vertices there is room for in each chunk.
pub const MAX_VERTICES_PER_CHUNK: usize = 24000;

/// How many indices there is room for in each chunk.
pub const MAX_INDICES_PER_CHUNK: usize = 36000;

/// One draw call, as the graphics processor reads it.
#[derive(Debug, Clone, Copy, PartialEq, Eq, Structural)]
pub struct IndirectCommand {
    pub index_count: u32,
    pub instance_count: u32,
    pub first_index: u32,
    pub base_vertex: i32,
    pub first_instance: u32,
}

/// A part of the two buffers.
#[derive(Debug, Clone, Copy, PartialEq, Eq, Structural)]
pub struct ChunkBufferRegion {
    pub vertex_offset: u32,
    pub vertex_count: u32,
    pub index_offset: u32,
    pub index_count: u32,
}

/// The parts of the two buffers that are not in use: some regions, and all that
/// lies behind the two offsets.
#[derive(Debug)]
pub struct BufferAllocator {
    pub next_vertex_offset: u32,
    pub next_index_offset: u32,
    pub free_regions: Vec<ChunkBufferRegion>,
}

/// What is not in use.
pub struct Layout {
    pub next_vertex: int,
    pub next_index: int,
    pub free: Seq<ChunkBufferRegion>,
}

/// There is room in the region.
pub open spec fn fits(r: ChunkBufferRegion, vertices: u32, indices: u32) -> bool {
    r.vertex_count >= vertices && r.index_count >= indices
}

/// The first region from `from` on in which there is room, or how many regions
/// there are.
pub open spec fn first_fit(
    free: Seq<ChunkBufferRegion>,
    vertices: u32,
    indices: u32,
    from: int,
) -> int
    decreases free.len() - from,
{
    if from >= free.len() || fits(free[from], vertices, indices) {
        from
    } else {
        first_fit(free, vertices, indices, from + 1)
    }
}

/// The beginning of a region.
pub open spec fn head(r: ChunkBufferRegion, vertices: u32, indices: u32) -> ChunkBufferRegion {
    ChunkBufferRegion {
        vertex_offset: r.vertex_offset,
        vertex_count: vertices,
        index_offset: r.index_offset,
        index_count: indices,
    }
}

/// A region without its beginning.
pub open spec fn rest(r: ChunkBufferRegion, vertices: u32, indices: u32) -> ChunkBufferRegion {
    ChunkBufferRegion {
        vertex_offset: (r.vertex_offset + vertices) as u32,
        vertex_count: (r.vertex_count - vertices) as u32,
        index_offset: (r.index_offset + indices) as u32,
        index_count: (r.index_count - indices) as u32,
    }
}

/// The region that is given out.
pub open spec fn given(l: Layout, vertices: u32, indices: u32) -> ChunkBufferRegion {
    let k = first_fit(l.free, vertices, indices, 0);
    if k < l.free.len() {
        head(l.free[k], vertices, indices)
    } else {
        ChunkBufferRegion {
            vertex_offset: l.next_vertex as u32,
            vertex_count: vertices,
            index_offset: l.next_index as u32,
            index_count: indices,
        }
    }
}

/// What is not in use once a region has been given out: the first region with
/// room is cut, or leaves if nothing remains of it, and the last takes its place;
/// without such a region the offsets move on.
pub open spec fn after_giving(l: Layout, vertices: u32, indices: u32) -> Layout {
    let k = first_fit(l.free, vertices, indices, 0);
    if k < l.free.len() {
        let r = l.free[k];
        if r.vertex_count > vertices || r.index_count > indices {
            Layout { free: l.free.update(k, rest(r, vertices, indices)), ..l }
        } else {
            Layout { free: l.free.update(k, l.free.last()).drop_last(), ..l }
        }
    } else {
        Layout {
            next_vertex: l.next_vertex + vertices,
            next_index: l.next_index + indices,
            free: l.free,
        }
    }
}

/// The region ends where the offsets begin, or before.
pub open spec fn within(r: ChunkBufferRegion, l: Layout) -> bool {
    r.vertex_offset + r.vertex_count <= l.next_vertex && r.index_offset + r.index_count
        <= l.next_index
}

/// Two regions share neither a vertex nor an index.
pub open spec fn apart(a: ChunkBufferRegion, b: ChunkBufferRegion) -> bool {
    &&& a.vertex_offset + a.vertex_count <= b.vertex_offset || b.vertex_offset + b.vertex_count
        <= a.vertex_offset
    &&& a.index_offset + a.index_count <= b.index_offset || b.index_offset + b.index_count
        <= a.index_offset
}

/// The free regions share nothing, and end before the offsets.
pub open spec fn tidy(l: Layout) -> bool {
    &&& 0 <= l.next_vertex <= u32::MAX
    &&& 0 <= l.next_index <= u32::MAX
    &&& forall|i: int| 0 <= i < l.free.len() ==> within(#[trigger] l.free[i], l)
    &&& forall|i: int, j: int|
        0 <= i < j < l.free.len() ==> apart(#[trigger] l.free[i], #[trigger] l.free[j])
}

/// A region in use shares nothing with what is not in use.
pub open spec fn reserved(r: ChunkBufferRegion, l: Layout) -> bool {
    &&& within(r, l)
    &&& forall|i: int| 0 <= i < l.free.len() ==> apart(r, #[trigger] l.free[i])
}

/// There is a place for so many vertices and indices.
pub open spec fn has_room(l: Layout, vertices: u32, indices: u32) -> bool {
    first_fit(l.free, vertices, indices, 0) < l.free.len() || (l.next_vertex + vertices <= u32::MAX
        && l.next_index + indices <= u32::MAX)
}

/// A region that is given out shares nothing with the regions in use nor with
/// what is still not in use.
pub proof fn law_given_is_apart(l: Layout, vertices: u32, indices: u32, used: ChunkBufferRegion)
    requires
        tidy(l),
        has_room(l, vertices, indices),
        reserved(used, l),
    ensures
        tidy(after_giving(l, vertices, indices)),
        reserved(given(l, vertices, indices), after_giving(l, vertices, indices)),
        reserved(used, after_giving(l, vertices, indices)),
        apart(used, given(l, vertices, indices)),
{
    lemma_given(l, vertices, indices);
    let k = first_fit(l.free, vertices, indices, 0);
    lemma_first_fit(l.free, vertices, indices, 0);
    let after = after_giving(l, vertices, indices);
    assert forall|i: int| 0 <= i < after.free.len() implies apart(
        used,
        #[trigger] after.free[i],
    ) by {
        assert(i < l.free.len());
        assert(apart(used, l.free[i]));
        assert(apart(used, l.free[l.free.len() - 1]));
    }
}

/// What the first region with room is.
proof fn lemma_first_fit(free: Seq<ChunkBufferRegion>, vertices: u32, indices: u32, from: int)
    requires
        0 <= from <= free.len(),
    ensures
        from <= first_fit(free, vertices, indices, from) <= free.len(),
        first_fit(free, vertices, indices, from) < free.len() ==> fits(
            free[first_fit(free, vertices, indices, from)],
            vertices,
            indices,
        ),
        forall|i: int|
            from <= i < first_fit(free, vertices, indices, from) ==> !fits(
                #[trigger] free[i],
                vertices,
                indices,
            ),
    decreases free.len() - from,
{
    if from < free.len() && !fits(free[from], vertices, indices) {
        lemma_first_fit(free, vertices, indices, from + 1);
    }
}

/// A region that is given out shares nothing with what is still not in use.
proof fn lemma_given(l: Layout, vertices: u32, indices: u32)
    requires
        tidy(l),
        has_room(l, vertices, indices),
    ensures
        tidy(after_giving(l, vertices, indices)),
        reserved(given(l, vertices, indices), after_giving(l, vertices, indices)),
{
    let k = first_fit(l.free, vertices, indices, 0);
    lemma_first_fit(l.free, vertices, indices, 0);
    let after = after_giving(l, vertices, indices);
    let g = given(l, vertices, indices);
    let last = l.free.len() - 1;
    if k < l.free.len() {
        let r = l.free[k];
        assert(within(r, l));
        if r.vertex_count > vertices || r.index_count > indices {
            assert forall|i: int| 0 <= i < after.free.len() implies apart(
                g,
                #[trigger] after.free[i],
            ) && within(after.free[i], after) by {
                if i < k {
                    assert(apart(l.free[i], l.free[k]));
                } else if i > k {
                    assert(apart(l.free[k], l.free[i]));
                }
            }
            assert forall|i: int, j: int| 0 <= i < j < after.free.len() implies apart(
                #[trigger] after.free[i],
                #[trigger] after.free[j],
            ) by {
                assert(apart(l.free[i], l.free[j]));
            }
        } else {
            assert forall|i: int| 0 <= i < after.free.len() implies apart(
                g,
                #[trigger] after.free[i],
            ) && within(after.free[i], after) by {
                if i < k {
                    assert(apart(l.free[i], l.free[k]));
                } else if i > k {
                    assert(apart(l.free[k], l.free[i]));
                } else {
                    assert(apart(l.free[k], l.free[last]));
                }
            }
            assert forall|i: int, j: int| 0 <= i < j < after.free.len() implies apart(
                #[trigger] after.free[i],
                #[trigger] after.free[j],
            ) by {
                assert(apart(l.free[i], l.free[j]));
                if i == k {
                    assert(apart(l.free[j], l.free[last]));
                } else if j == k {
                    assert(apart(l.free[i], l.free[last]));
                }
            }
        }
    }
}

impl BufferAllocator {
    /// What is not in use.
    pub open spec fn layout(&self) -> Layout {
        Layout {
            next_vertex: self.next_vertex_offset as int,
            next_index: self.next_index_offset as int,
            free: self.free_regions@,
        }
    }

    /// Gives out a region: the beginning of the first free region in which there
    /// is room, else what comes next.
    pub fn allocate(&mut self, vertex_count: u32, index_count: u32) -> (r: ChunkBufferRegion)
        requires
            tidy(old(self).layout()),
            has_room(old(self).layout(), vertex_count, index_count),
        ensures
            r == given(old(self).layout(), vertex_count, index_count),
            final(self).layout() == after_giving(old(self).layout(), vertex_count, index_count),
    {
        let ghost l = self.layout();
        let mut i: usize = 0;
        while i < self.free_regions.len()
            invariant
                i <= self.free_regions@.len(),
                *self == *old(self),
                l == self.layout(),
                tidy(l),
                first_fit(l.free, vertex_count, index_count, 0) == first_fit(
                    l.free,
                    vertex_count,
                    index_count,
                    i as int,
                ),
            decreases self.free_regions@.len() - i,
        {
            let region: ChunkBufferRegion = self.free_regions[i];
            if region.vertex_count >= vertex_count && region.index_count >= index_count {
                assert(within(l.free[i as int], l));
                let allocated = ChunkBufferRegion {
                    vertex_offset: region.vertex_offset,
                    vertex_count,
                    index_offset: region.index_offset,
                    index_count,
                };
                let remaining_vertex: u32 = region.vertex_count - vertex_count;
                let remaining_index: u32 = region.index_count - index_count;
                if remaining_vertex > 0 || remaining_index > 0 {
                    self.free_regions.set(
                        i,
                        ChunkBufferRegion {
                            vertex_offset: region.vertex_offset + vertex_count,
                            vertex_count: remaining_vertex,
                            index_offset: region.index_offset + index_count,
                            index_count: remaining_index,
                        },
                    );
                } else {
                    self.free_regions.swap_remove(i);
                }
                assert(self.free_regions@ =~= after_giving(l, vertex_count, index_count).free);
                return allocated;
            }
            i = i + 1;
        }
        let region = ChunkBufferRegion {
            vertex_offset: self.next_vertex_offset,
            vertex_count,
            index_offset: self.next_index_offset,
            index_count,
        };
        self.next_vertex_offset = self.next_vertex_offset + vertex_count;
        self.next_index_offset = self.next_index_offset + index_count;
        region
    }

    /// Takes a region back.
    pub fn free(&mut self, region: ChunkBufferRegion)
        ensures
            final(self).free_regions@ == old(self).free_regions@.push(region),
            final(self).next_vertex_offset == old(self).next_vertex_offset,
            final(self).next_index_offset == old(self).next_index_offset,
    {
        self.free_regions.push(region);
    }
}

impl Default for BufferAllocator {
    /// Nothing is in use.
    fn default() -> (r: Self)
        ensures
            r.layout() == (Layout { next_vertex: 0, next_index: 0, free: Seq::empty() }),
    {
        Self { next_vertex_offset: 0, next_index_offset: 0, free_regions: Vec::new() }
    }
}

/// The regions of chunks share nothing with each other nor with what is not in
/// use.
pub open spec fn arranged(regions: Map<ChunkCoord, ChunkBufferRegion>, l: Layout) -> bool {
    &&& tidy(l)
    &&& forall|c: ChunkCoord| #[trigger] regions.contains_key(c) ==> reserved(regions[c], l)
    &&& forall|c: ChunkCoord, d: ChunkCoord|
        #[trigger] regions.contains_key(c) && #[trigger] regions.contains_key(d) && c != d
            ==> apart(regions[c], regions[d])
}

/// The meshes in the two buffers.
pub struct VoxelBuffers {
    regions: CoordMap<ChunkBufferRegion>,
    allocator: BufferAllocator,
    dirty: bool,
}

/// The call that draws the mesh in a region.
pub open spec fn draw_call(r: ChunkBufferRegion, number: int) -> IndirectCommand {
    IndirectCommand {
        index_count: r.index_count,
        instance_count: 1,
        first_index: r.index_offset,
        base_vertex: r.vertex_offset as i32,
        first_instance: number as u32,
    }
}

/// The calls draw each chunk once.
pub open spec fn draws(
    commands: Seq<(ChunkCoord, IndirectCommand)>,
    regions: Map<ChunkCoord, ChunkBufferRegion>,
) -> bool {
    &&& forall|i: int|
        0 <= i < commands.len() ==> regions.contains_key((#[trigger] commands[i]).0)
            && commands[i].1 == draw_call(regions[commands[i].0], i)
    &&& forall|c: ChunkCoord| #[trigger]
        regions.contains_key(c) ==> exists|i: int|
            0 <= i < commands.len() && (#[trigger] commands[i]).0 == c
    &&& forall|i: int, j: int|
        0 <= i < j < commands.len() ==> (#[trigger] commands[i]).0 != (#[trigger] commands[j]).0
}

/// What to write for a mesh.
#[derive(Debug)]
pub struct MeshUpload {
    pub region: ChunkBufferRegion,
    /// The indices, counted from the start of the buffer.
    pub indices: Vec<u32>,
}

impl VoxelBuffers {
    /// The regions of the chunks.
    pub closed spec fn regions(&self) -> Map<ChunkCoord, ChunkBufferRegion> {
        self.regions@
    }

    /// What is not in use.
    pub closed spec fn layout(&self) -> Layout {
        self.allocator.layout()
    }

    /// Whether the draw calls are out of date.
    pub closed spec fn spec_dirty(&self) -> bool {
        self.dirty
    }

    /// No two chunks share anything, and there are not too many.
    pub closed spec fn wf(&self) -> bool {
        &&& self.regions.wf()
        &&& self.regions@.dom().finite()
        &&& self.regions@.dom().len() <= MAX_CHUNKS
        &&& arranged(self.regions@, self.allocator.layout())
    }

    /// Empty buffers.
    pub fn new() -> (r: Self)
        ensures
            r.wf(),
            r.regions() == Map::<ChunkCoord, ChunkBufferRegion>::empty(),
            r.layout() == (Layout { next_vertex: 0, next_index: 0, free: Seq::empty() }),
            !r.spec_dirty(),
    {
        Self { regions: CoordMap::new(), allocator: BufferAllocator::default(), dirty: false }
    }

    /// The regions of two chunks share neither a vertex nor an index.
    pub proof fn law_chunks_are_apart(&self, c: ChunkCoord, d: ChunkCoord)
        requires
            self.wf(),
            self.regions().contains_key(c),
            self.regions().contains_key(d),
            c != d,
        ensures
            apart(self.regions()[c], self.regions()[d]),
    {
    }

    /// Finds a place for the mesh of a chunk and says what to write there.
    /// Nothing is done if there are already as many chunks as there is room for.
    pub fn upload_chunk_mesh(
        &mut self,
        coord: ChunkCoord,
        vertex_count: u32,
        indices: &Vec<u32>,
    ) -> (r: Option<MeshUpload>)
        requires
            old(self).wf(),
            indices@.len() <= u32::MAX,
            has_room(old(self).layout(), vertex_count, indices@.len() as u32),
            forall|i: int|
                0 <= i < indices@.len() ==> (#[trigger] indices@[i]) + given(
                    old(self).layout(),
                    vertex_count,
                    indices@.len() as u32,
                ).vertex_offset <= u32::MAX,
        ensures
            final(self).wf(),
            r is None <==> old(self).regions().dom().len() >= MAX_CHUNKS,
            r is None ==> *final(self) == *old(self),
            r matches Some(u) ==> {
                let n = indices@.len() as u32;
                &&& u.region == given(old(self).layout(), vertex_count, n)
                &&& u.indices@.len() == indices@.len()
                &&& forall|i: int|
                    0 <= i < indices@.len() ==> (#[trigger] u.indices@[i]) == indices@[i]
                        + u.region.vertex_offset
                &&& final(self).regions() == old(self).regions().insert(coord, u.region)
                &&& final(self).layout() == after_giving(old(self).layout(), vertex_count, n)
                &&& final(self).spec_dirty()
            },
    {
        if self.regions.len() >= MAX_CHUNKS {
            return None;
        }
        let ghost l = self.allocator.layout();
        let n: u32 = indices.len() as u32;
        let region: ChunkBufferRegion = self.allocator.allocate(vertex_count, n);
        let mut adjusted: Vec<u32> = Vec::new();
        let mut i: usize = 0;
        while i < indices.len()
            invariant
                i <= indices@.len(),
                adjusted@.len() == i,
                forall|k: int|
                    0 <= k < indices@.len() ==> (#[trigger] indices@[k]) + region.vertex_offset
                        <= u32::MAX,
                forall|k: int|
                    0 <= k < i ==> (#[trigger] adjusted@[k]) == indices@[k] + region.vertex_offset,
            decreases indices@.len() - i,
        {
            adjusted.push(indices[i] + region.vertex_offset);
            i = i + 1;
        }
        let ghost before = self.regions@;
        self.regions.insert(coord, region);
        self.dirty = true;
        proof {
            lemma_given(l, vertex_count, n);
            let after = after_giving(l, vertex_count, n);
            assert forall|c: ChunkCoord| before.contains_key(c) implies reserved(
                #[trigger] before[c],
                after,
            ) && apart(before[c], region) by {
                law_given_is_apart(l, vertex_count, n, before[c]);
            }
            assert forall|c: ChunkCoord, d: ChunkCoord|
                #[trigger] self.regions@.contains_key(c) && #[trigger] self.regions@.contains_key(d)
                    && c != d implies apart(self.regions@[c], self.regions@[d]) by {
                if c == coord {
                    assert(before.contains_key(d));
                    assert(apart(before[d], region));
                } else if d == coord {
                    assert(before.contains_key(c));
                    assert(apart(before[c], region));
                } else {
                    assert(before.contains_key(c) && before.contains_key(d));
                }
            }
            assert forall|c: ChunkCoord| #[trigger] self.regions@.contains_key(c) implies reserved(
                self.regions@[c],
                after,
            ) by {
                if c != coord {
                    assert(before.contains_key(c));
                    assert(reserved(before[c], after));
                }
            }
        }
        Some(MeshUpload { region, indices: adjusted })
    }

    /// Gives the region of a chunk back, if it has one.
    pub fn remove_chunk(&mut self, coord: &ChunkCoord)
        requires
            old(self).wf(),
        ensures
            final(self).wf(),
            final(self).regions() == old(self).regions().remove(*coord),
            old(self).regions().contains_key(*coord) ==> final(self).spec_dirty()
                && final(self).layout() == (Layout {
                free: old(self).layout().free.push(old(self).regions()[*coord]),
                ..old(self).layout()
            }),
            !old(self).regions().contains_key(*coord) ==> final(self).spec_dirty() == old(
                self,
            ).spec_dirty() && final(self).layout() == old(self).layout(),
    {
        let ghost before = self.regions@;
        let ghost l = self.allocator.layout();
        match self.regions.remove(coord) {
            Some(region) => {
                self.allocator.free(region);
                self.dirty = true;
                proof {
                    let after = self.allocator.layout();
                    assert(before.contains_key(*coord) && reserved(region, l));
                    assert forall|i: int, j: int| 0 <= i < j < after.free.len() implies apart(
                        #[trigger] after.free[i],
                        #[trigger] after.free[j],
                    ) by {
                        if j == after.free.len() - 1 {
                            assert(apart(region, l.free[i]));
                        } else {
                            assert(apart(l.free[i], l.free[j]));
                        }
                    }
                    assert forall|i: int| 0 <= i < after.free.len() implies within(
                        #[trigger] after.free[i],
                        after,
                    ) by {
                        if i < after.free.len() - 1 {
                            assert(within(l.free[i], l));
                        }
                    }
                    assert forall|c: ChunkCoord| #[trigger]
                        self.regions@.contains_key(c) implies reserved(self.regions@[c], after) by {
                        assert(before.contains_key(c) && reserved(before[c], l));
                        assert(apart(before[c], before[*coord]));
                        assert forall|i: int| 0 <= i < after.free.len() implies apart(
                            before[c],
                            #[trigger] after.free[i],
                        ) by {
                            if i < after.free.len() - 1 {
                                assert(apart(before[c], l.free[i]));
                            }
                        }
                    }
                    assert forall|c: ChunkCoord, d: ChunkCoord| #[trigger]
                        self.regions@.contains_key(c) && #[trigger] self.regions@.contains_key(d)
                            && c != d implies apart(self.regions@[c], self.regions@[d]) by {
                        assert(before.contains_key(c) && before.contains_key(d));
                    }
                }
            },
            None => {
                assert(self.regions@ =~= before);
            },
        }
    }

    /// The draw calls of all chunks, each with its chunk, if those given out
    /// before are out of date. The chunks come in no particular order.
    pub fn update_indirect_buffer(&mut self) -> (r: Option<Vec<(ChunkCoord, IndirectCommand)>>)
        requires
            old(self).wf(),
        ensures
            final(self).wf(),
            final(self).regions() == old(self).regions(),
            final(self).layout() == old(self).layout(),
            !final(self).spec_dirty(),
            r is Some <==> old(self).spec_dirty(),
            r matches Some(commands) ==> draws(commands@, old(self).regions()),
    {
        if !self.dirty {
            return None;
        }
        let coords: Vec<ChunkCoord> = self.regions.coords();
        let mut commands: Vec<(ChunkCoord, IndirectCommand)> = Vec::new();
        proof {
            coords@.unique_seq_to_set();
            assert(coords@.to_set() =~= self.regions@.dom());
        }
        let mut i: usize = 0;
        while i < coords.len()
            invariant
                i <= coords@.len() <= MAX_CHUNKS,
                commands@.len() == i,
                forall|c: ChunkCoord| #[trigger]
                    coords@.contains(c) <==> self.regions@.contains_key(c),
                forall|k: int|
                    0 <= k < i ==> (#[trigger] commands@[k]).0 == coords@[k]
                        && self.regions@.contains_key(commands@[k].0) && commands@[k].1 == draw_call(
                        self.regions@[commands@[k].0],
                        k,
                    ),
            decreases coords@.len() - i,
        {
            let c: ChunkCoord = coords[i];
            assert(coords@.contains(coords@[i as int]));
            match self.regions.get(&c) {
                Some(region) => {
                    commands.push(
                        (
                            c,
                            IndirectCommand {
                                index_count: region.index_count,
                                instance_count: 1,
                                first_index: region.index_offset,
                                base_vertex: #[verifier::truncate]
                                (region.vertex_offset as i32),
                                first_instance: i as u32,
                            },
                        ),
                    );
                },
                None => {
                    assert(false);
                },
            }
            i = i + 1;
        }
        self.dirty = false;
        proof {
            assert forall|c: ChunkCoord| #[trigger]
                self.regions@.contains_key(c) implies exists|k: int|
                0 <= k < commands@.len() && (#[trigger] commands@[k]).0 == c by {
                assert(coords@.contains(c));
                let k = choose|k: int| 0 <= k < coords@.len() && coords@[k] == c;
                assert(commands@[k].0 == c);
            }
            assert forall|i: int, j: int| 0 <= i < j < commands@.len() implies (
            #[trigger] commands@[i]).0 != (#[trigger] commands@[j]).0 by {
                assert(coords@[i] != coords@[j]);
            }
        }
        Some(commands)
    }
}

/// The number of the direction of a unit vector: 0 and 1 for x, 2 and 3 for y, 4
/// and 5 for z, first forwards and then backwards, and 0 for no direction.
pub fn encode_normal(normal: [i32; 3]) -> (r: u32)
    ensures
        r == (if normal@[0] > 0 {
            0u32
        } else if normal@[0] < 0 {
            1
        } else if normal@[1] > 0 {
            2
        } else if normal@[1] < 0 {
            3
        } else if normal@[2] > 0 {
            4
        } else if normal@[2] < 0 {
            5
        } else {
            0
        }),
{
    if normal[0] > 0 {
        0
    } else if normal[0] < 0 {
        1
    } else if normal[1] > 0 {
        2
    } else if normal[1] < 0 {
        3
    } else if normal[2] > 0 {
        4
    } else if normal[2] < 0 {
        5
    } else {
        0
    }
}

/// What is given out is of the size that was asked for. It is cut from the front of the
/// first free region that has as many vertices and as many indices, if there is one, and
/// else it begins where nothing was given out yet.
pub proof fn law_given_comes_from_the_first_room(l: Layout, vertices: u32, indices: u32)
    requires
        tidy(l),
        has_room(l, vertices, indices),
    ensures
        ({
            let g = given(l, vertices, indices);
            let suits = |r: ChunkBufferRegion| r.vertex_count >= vertices && r.index_count >= indices;
            &&& g.vertex_count == vertices
            &&& g.index_count == indices
            &&& (forall|i: int| 0 <= i < l.free.len() ==> !suits(#[trigger] l.free[i]))
                ==> g.vertex_offset == l.next_vertex && g.index_offset == l.next_index
            &&& forall|k: int|
                0 <= k < l.free.len() && suits(#[trigger] l.free[k]) && (forall|i: int|
                    0 <= i < k ==> !suits(#[trigger] l.free[i])) ==> g.vertex_offset
                    == l.free[k].vertex_offset && g.index_offset == l.free[k].index_offset
        }),
{
    lemma_first_fit(l.free, vertices, indices, 0);
    let k = first_fit(l.free, vertices, indices, 0);
    assert forall|m: int|
        0 <= m < l.free.len() && fits(#[trigger] l.free[m], vertices, indices) && (forall|i: int|
            0 <= i < m ==> !fits(#[trigger] l.free[i], vertices, indices)) implies m == k by {
        if m < k {
            assert(!fits(l.free[m], vertices, indices));
        }
    }
}

/// A vertex is not in use.
pub open spec fn vertex_free(l: Layout, v: int) -> bool {
    v >= l.next_vertex || exists|i: int|
        0 <= i < l.free.len() && (#[trigger] l.free[i]).vertex_offset <= v < l.free[i].vertex_offset
            + l.free[i].vertex_count
}

/// An index is not in use.
pub open spec fn index_free(l: Layout, v: int) -> bool {
    v >= l.next_index || exists|i: int|
        0 <= i < l.free.len() && (#[trigger] l.free[i]).index_offset <= v < l.free[i].index_offset
            + l.free[i].index_count
}

/// Nothing is lost: what was not in use before a region is given out is in that region or
/// still not in use, and nothing else is.
pub proof fn law_nothing_is_lost(l: Layout, vertices: u32, indices: u32, v: int)
    requires
        tidy(l),
        has_room(l, vertices, indices),
    ensures
        ({
            let g = given(l, vertices, indices);
            let after = after_giving(l, vertices, indices);
            &&& vertex_free(l, v) <==> vertex_free(after, v) || g.vertex_offset <= v < g.vertex_offset
                + g.vertex_count
            &&& index_free(l, v) <==> index_free(after, v) || g.index_offset <= v < g.index_offset
                + g.index_count
        }),
{
    lemma_first_fit(l.free, vertices, indices, 0);
    let k = first_fit(l.free, vertices, indices, 0);
    let g = given(l, vertices, indices);
    let after = after_giving(l, vertices, indices);
    if k < l.free.len() {
        let r = l.free[k];
        assert(within(r, l));
        if r.vertex_count > vertices || r.index_count > indices {
            assert(after.free.len() == l.free.len());
            assert(after.free[k] == rest(r, vertices, indices));
            assert forall|i: int| 0 <= i < l.free.len() && i != k implies #[trigger] after.free[i]
                == l.free[i] by {}
            if vertex_free(l, v) && v < l.next_vertex {
                let i = choose|i: int|
                    0 <= i < l.free.len() && (#[trigger] l.free[i]).vertex_offset <= v
                        < l.free[i].vertex_offset + l.free[i].vertex_count;
                if i != k {
                    assert(after.free[i] == l.free[i]);
                }
            }
            if vertex_free(after, v) && v < l.next_vertex {
                let i = choose|i: int|
                    0 <= i < after.free.len() && (#[trigger] after.free[i]).vertex_offset <= v
                        < after.free[i].vertex_offset + after.free[i].vertex_count;
                if i != k {
                    assert(after.free[i] == l.free[i]);
                } else {
                    assert(after.free[i] == rest(l.free[k], vertices, indices));
                }
            }
            if index_free(l, v) && v < l.next_index {
                let i = choose|i: int|
                    0 <= i < l.free.len() && (#[trigger] l.free[i]).index_offset <= v
                        < l.free[i].index_offset + l.free[i].index_count;
                if i != k {
                    assert(after.free[i] == l.free[i]);
                }
            }
            if index_free(after, v) && v < l.next_index {
                let i = choose|i: int|
                    0 <= i < after.free.len() && (#[trigger] after.free[i]).index_offset <= v
                        < after.free[i].index_offset + after.free[i].index_count;
                if i != k {
                    assert(after.free[i] == l.free[i]);
                } else {
                    assert(after.free[i] == rest(l.free[k], vertices, indices));
                }
            }
        } else {
            let last = l.free.len() - 1;
            assert(after.free.len() == last);
            assert forall|i: int| 0 <= i < last implies #[trigger] after.free[i] == (if i == k {
                l.free[last]
            } else {
                l.free[i]
            }) by {}
            if vertex_free(l, v) && v < l.next_vertex {
                let i = choose|i: int|
                    0 <= i < l.free.len() && (#[trigger] l.free[i]).vertex_offset <= v
                        < l.free[i].vertex_offset + l.free[i].vertex_count;
                if i == last && i != k {
                    assert(after.free[k] == l.free[i]);
                } else if i != k {
                    assert(after.free[i] == l.free[i]);
                }
            }
            if vertex_free(after, v) && v < l.next_vertex {
                let i = choose|i: int|
                    0 <= i < after.free.len() && (#[trigger] after.free[i]).vertex_offset <= v
                        < after.free[i].vertex_offset + after.free[i].vertex_count;
                if i == k {
                    assert(after.free[i] == l.free[last]);
                } else {
                    assert(after.free[i] == l.free[i]);
                }
            }
            if index_free(l, v) && v < l.next_index {
                let i = choose|i: int|
                    0 <= i < l.free.len() && (#[trigger] l.free[i]).index_offset <= v
                        < l.free[i].index_offset + l.free[i].index_count;
                if i == last && i != k {
                    assert(after.free[k] == l.free[i]);
                } else if i != k {
                    assert(after.free[i] == l.free[i]);
                }
            }
            if index_free(after, v) && v < l.next_index {
                let i = choose|i: int|
                    0 <= i < after.free.len() && (#[trigger] after.free[i]).index_offset <= v
                        < after.free[i].index_offset + after.free[i].index_count;
                if i == k {
                    assert(after.free[i] == l.free[last]);
                } else {
                    assert(after.free[i] == l.free[i]);
                }
            }
        }
    }
}

/// The draw calls of the chunks draw the indices of their regions, each chunk once and none
/// twice: every index of a region is drawn by the call of its chunk and by no other.
pub proof fn law_each_index_is_drawn_once(
    commands: Seq<(ChunkCoord, IndirectCommand)>,
    regions: Map<ChunkCoord, ChunkBufferRegion>,
    l: Layout,
    i: int,
    j: int,
    v: int,
)
    requires
        draws(commands, regions),
        arranged(regions, l),
        0 <= i < commands.len(),
        0 <= j < commands.len(),
        commands[i].1.first_index <= v < commands[i].1.first_index + commands[i].1.index_count,
    ensures
        ({
            let r = regions[commands[i].0];
            &&& r.index_offset <= v < r.index_offset + r.index_count
            &&& commands[i].1.instance_count == 1
            &&& commands[i].1.first_instance == i as u32
            &&& r.vertex_offset <= i32::MAX ==> commands[i].1.base_vertex == r.vertex_offset
            &&& commands[j].1.first_index <= v < commands[j].1.first_index + commands[j].1.index_count
                ==> i == j
        }),
{
    let (a, b) = (commands[i], commands[j]);
    assert(regions.contains_key(a.0) && regions.contains_key(b.0));
    if i != j {
        assert(a.0 != b.0) by {
            if i < j {
                assert(commands[i].0 != commands[j].0);
            } else {
                assert(commands[j].0 != commands[i].0);
            }
        }
        assert(apart(regions[a.0], regions[b.0]));
    }
}

} // verus!

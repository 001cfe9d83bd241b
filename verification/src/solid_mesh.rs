//! Meshes of solid blocks, face by face.

use crate::block_definition;
use crate::block_definition::BlockPropertiesTable;
use crate::chunk;
use crate::chunk::{block_across, should_cull_face, ChunkData, ChunkNeighbors};
use crate::face;
use crate::face::{face_quad, faces};
use crate::mesh;
use crate::mesh::{Quad, SubMeshData, UvLookupTable};
use crate::types::{BlockId, CHUNK_SIZE};
use vstd::prelude::*;

verus! {

/// Air and water have no place in the mesh of solid blocks.
pub open spec fn skippable(block_id: BlockId) -> bool {
    block_id == 0 || block_id == 5
}

/// Whether a block is air or water.
fn is_skippable(block_id: BlockId) -> (r: bool)
    ensures
        r == skippable(block_id),
{
    block_id == 0 || block_id == 5
}

/// The place of face `f` of a block when all faces of a chunk are counted.
pub open spec fn face_number(x: int, y: int, z: int, f: int) -> int {
    ((z * 32 + x) * 32 + y) * 6 + f
}

/// The block and the face with a number: x, y, z, face.
pub open spec fn face_at(n: int) -> (int, int, int, int) {
    ((n / 192) % 32, (n / 6) % 32, n / 6144, n % 6)
}

/// A face is found again from its number.
pub proof fn lemma_face_number(x: int, y: int, z: int, f: int)
    requires
        0 <= x < 32,
        0 <= y < 32,
        0 <= z < 32,
        0 <= f < 6,
    ensures
        face_at(face_number(x, y, z, f)) == (x, y, z, f),
        0 <= face_number(x, y, z, f) < 196608,
{
}

/// The face with number `n` is to be drawn: its block is solid, and the block
/// across does not hide it.
pub open spec fn shown(
    chunk: ChunkData,
    neighbors: ChunkNeighbors,
    props: Option<&BlockPropertiesTable>,
    n: int,
) -> bool {
    let (x, y, z, f) = face_at(n);
    let id = chunk.block_at(x, y, z);
    let d = face::spec_face(f).spec_normal();
    !skippable(id) && !chunk::culled(
        props,
        id,
        chunk::across(chunk, neighbors, x + d[0], y + d[1], z + d[2], f),
    )
}

/// The quad of the face with number `n`.
pub open spec fn quad_at<T: Copy>(chunk: ChunkData, uv_table: UvLookupTable<T>, n: int) -> Quad<T> {
    let (x, y, z, f) = face_at(n);
    let face = face::spec_face(f);
    Quad {
        face,
        origin: (x, y, z),
        extent: (1, 1, 1),
        uv: uv_table.uv(chunk.block_at(x, y, z) as int, face.spec_face_index()),
    }
}

/// The quads of the faces to be drawn among the first `n`.
pub open spec fn quads_upto<T: Copy>(
    chunk: ChunkData,
    neighbors: ChunkNeighbors,
    props: Option<&BlockPropertiesTable>,
    uv_table: UvLookupTable<T>,
    n: nat,
) -> Seq<Quad<T>>
    decreases n,
{
    if n == 0 {
        seq![]
    } else {
        let rest = quads_upto(chunk, neighbors, props, uv_table, (n - 1) as nat);
        if shown(chunk, neighbors, props, n - 1) {
            rest.push(quad_at(chunk, uv_table, n - 1))
        } else {
            rest
        }
    }
}

/// The quads of a chunk's solid blocks. A chunk of one kind of block hides its
/// own faces.
pub open spec fn solid_quads<T: Copy>(
    chunk: ChunkData,
    neighbors: ChunkNeighbors,
    props: Option<&BlockPropertiesTable>,
    uv_table: UvLookupTable<T>,
) -> Seq<Quad<T>> {
    if chunk is Paletted {
        quads_upto(chunk, neighbors, props, uv_table, 196608)
    } else {
        seq![]
    }
}

/// There are no more quads than faces.
proof fn lemma_quads_len<T: Copy>(
    chunk: ChunkData,
    neighbors: ChunkNeighbors,
    props: Option<&BlockPropertiesTable>,
    uv_table: UvLookupTable<T>,
    n: nat,
)
    ensures
        quads_upto(chunk, neighbors, props, uv_table, n).len() <= n,
    decreases n,
{
    if n > 0 {
        lemma_quads_len(chunk, neighbors, props, uv_table, (n - 1) as nat);
    }
}

/// Faces that are not drawn add nothing.
proof fn lemma_quads_skip<T: Copy>(
    chunk: ChunkData,
    neighbors: ChunkNeighbors,
    props: Option<&BlockPropertiesTable>,
    uv_table: UvLookupTable<T>,
    m: nat,
    n: nat,
)
    requires
        m <= n,
        forall|k: int| m <= k < n ==> !#[trigger] shown(chunk, neighbors, props, k),
    ensures
        quads_upto(chunk, neighbors, props, uv_table, n) == quads_upto(
            chunk,
            neighbors,
            props,
            uv_table,
            m,
        ),
    decreases n,
{
    if m < n {
        lemma_quads_skip(chunk, neighbors, props, uv_table, m, (n - 1) as nat);
        assert(!shown(chunk, neighbors, props, n - 1));
    }
}

/// The highest block of a column that is neither air nor water, or 32 if there
/// is none.
fn column_top(chunk: &ChunkData, x: usize, z: usize) -> (r: usize)
    requires
        chunk.wf(),
        x < 32,
        z < 32,
    ensures
        r <= 32,
        r < 32 ==> forall|y: int|
            r < y < 32 ==> skippable(#[trigger] chunk.block_at(x as int, y, z as int)),
        r == 32 ==> forall|y: int|
            0 <= y < 32 ==> skippable(#[trigger] chunk.block_at(x as int, y, z as int)),
{
    let mut top: usize = CHUNK_SIZE;
    while top > 0
        invariant
            top <= 32,
            chunk.wf(),
            forall|y: int|
                top <= y < 32 ==> skippable(#[trigger] chunk.block_at(x as int, y, z as int)),
        decreases top,
    {
        top = top - 1;
        if !is_skippable(chunk.get(x, top, z)) {
            return top;
        }
    }
    CHUNK_SIZE
}

/// Whether a face of a block is visible, where the block is known.
fn is_face_visible_fast(
    chunk: &ChunkData,
    x: usize,
    y: usize,
    z: usize,
    current_id: BlockId,
    face: &[i32; 3],
    face_index: usize,
    neighbors: &ChunkNeighbors,
    props: Option<&BlockPropertiesTable>,
) -> (r: bool)
    requires
        chunk.wf(),
        neighbors.wf(),
        x < 32,
        y < 32,
        z < 32,
        face_index < 6,
        face@ == face::spec_face(face_index as int).spec_normal(),
        current_id == chunk.block_at(x as int, y as int, z as int),
        !skippable(current_id),
    ensures
        r == shown(
            *chunk,
            *neighbors,
            props,
            face_number(x as int, y as int, z as int, face_index as int),
        ),
{
    proof {
        lemma_face_number(x as int, y as int, z as int, face_index as int);
    }
    let neighbor_id: BlockId = block_across(
        chunk,
        neighbors,
        x as i32 + face[0],
        y as i32 + face[1],
        z as i32 + face[2],
        face_index,
    );
    !should_cull_face(props, current_id, neighbor_id)
}

/// The mesh of a chunk's solid blocks: a quad for every visible face of a block
/// that is neither air nor water.
pub fn generate_solid_mesh<T: Copy>(
    chunk: &ChunkData,
    uv_table: &UvLookupTable<T>,
    neighbors: &ChunkNeighbors,
    props: Option<&BlockPropertiesTable>,
) -> (r: SubMeshData<T>)
    requires
        chunk.wf(),
        neighbors.wf(),
        uv_table.wf(),
    ensures
        r.is_mesh_of(solid_quads(*chunk, *neighbors, props, *uv_table)),
{
    match chunk {
        ChunkData::Empty => {
            return SubMeshData::new();
        },
        ChunkData::Uniform(_) => {
            return SubMeshData::new();
        },
        ChunkData::Paletted(_) => {},
    }
    let mut out: SubMeshData<T> = SubMeshData::new();
    let mut z: usize = 0;
    while z < CHUNK_SIZE
        invariant
            z <= 32,
            chunk.wf(),
            neighbors.wf(),
            uv_table.wf(),
            out.is_mesh_of(
                quads_upto(*chunk, *neighbors, props, *uv_table, (z * 6144) as nat),
            ),
        decreases 32 - z,
    {
        let mut x: usize = 0;
        while x < CHUNK_SIZE
            invariant
                x <= 32,
                z < 32,
                chunk.wf(),
                neighbors.wf(),
                uv_table.wf(),
                out.is_mesh_of(
                    quads_upto(
                        *chunk,
                        *neighbors,
                        props,
                        *uv_table,
                        (z * 6144 + x * 192) as nat,
                    ),
                ),
            decreases 32 - x,
        {
            let top: usize = column_top(chunk, x, z);
            let ghost start = z * 6144 + x * 192;
            let end: usize = if top == CHUNK_SIZE {
                0
            } else {
                top + 1
            };
            let mut y: usize = 0;
            while y < end
                invariant
                    y <= end <= 32,
                    x < 32,
                    z < 32,
                    start == z * 6144 + x * 192,
                    chunk.wf(),
                    neighbors.wf(),
                    uv_table.wf(),
                    out.is_mesh_of(
                        quads_upto(*chunk, *neighbors, props, *uv_table, (start + y * 6) as nat),
                    ),
                decreases end - y,
            {
                let block_id: BlockId = chunk.get(x, y, z);
                if is_skippable(block_id) {
                    proof {
                        assert forall|k: int| start + y * 6 <= k < start + (y + 1) * 6 implies
                            !#[trigger] shown(*chunk, *neighbors, props, k) by {
                            lemma_face_number(x as int, y as int, z as int, k - start - y * 6);
                        }
                        lemma_quads_skip(
                            *chunk,
                            *neighbors,
                            props,
                            *uv_table,
                            (start + y * 6) as nat,
                            (start + (y + 1) * 6) as nat,
                        );
                    }
                } else {
                    let mut f: usize = 0;
                    while f < 6
                        invariant
                            f <= 6,
                            x < 32,
                            y < 32,
                            z < 32,
                            start == z * 6144 + x * 192,
                            chunk.wf(),
                            neighbors.wf(),
                            uv_table.wf(),
                            block_id == chunk.block_at(x as int, y as int, z as int),
                            !skippable(block_id),
                            out.is_mesh_of(
                                quads_upto(
                                    *chunk,
                                    *neighbors,
                                    props,
                                    *uv_table,
                                    (start + y * 6 + f) as nat,
                                ),
                            ),
                        decreases 6 - f,
                    {
                        let ghost n = start + y * 6 + f;
                        let ghost quads = quads_upto(
                            *chunk,
                            *neighbors,
                            props,
                            *uv_table,
                            n as nat,
                        );
                        proof {
                            lemma_face_number(x as int, y as int, z as int, f as int);
                            lemma_quads_len(*chunk, *neighbors, props, *uv_table, n as nat);
                            assert(n == face_number(x as int, y as int, z as int, f as int));
                        }
                        let (face, offset, uv_idx) = faces(f);
                        if is_face_visible_fast(
                            chunk,
                            x,
                            y,
                            z,
                            block_id,
                            &offset,
                            f,
                            neighbors,
                            props,
                        ) {
                            let uv: (T, T, T, T) = uv_table.get_uv(block_id, uv_idx);
                            let (verts, uvs, normal) = face_quad(x, y, z, face, uv);
                            out.push_quad(
                                verts,
                                uvs,
                                normal,
                                Ghost(quads),
                                Ghost(quad_at(*chunk, *uv_table, n as int)),
                            );
                        }
                        f = f + 1;
                    }
                }
                y = y + 1;
            }
            proof {
                assert forall|k: int| start + y * 6 <= k < start + 192 implies !#[trigger] shown(
                    *chunk,
                    *neighbors,
                    props,
                    k,
                ) by {
                    let q = (k - start) / 6;
                    lemma_face_number(x as int, q, z as int, (k - start) % 6);
                    assert(skippable(chunk.block_at(x as int, q, z as int)));
                }
                lemma_quads_skip(
                    *chunk,
                    *neighbors,
                    props,
                    *uv_table,
                    (start + y * 6) as nat,
                    (start + 192) as nat,
                );
            }
            x = x + 1;
        }
        z = z + 1;
    }
    out
}

/// The face with a number is that of one block.
proof fn lemma_face_at(n: int)
    requires
        0 <= n < 196608,
    ensures
        ({
            let (x, y, z, f) = face_at(n);
            &&& 0 <= x < 32
            &&& 0 <= y < 32
            &&& 0 <= z < 32
            &&& 0 <= f < 6
            &&& face_number(x, y, z, f) == n
        }),
{
    let (x, y, z, f) = face_at(n);
    assert(n == 6 * (n / 6) + f);
    assert(n / 192 == (n / 6) / 32);
    assert(n / 6144 == (n / 192) / 32);
}

/// Among the quads of the first `n` faces one covers a face if the face is one of them and
/// to be drawn, and only that one.
proof fn lemma_quads_cover<T: Copy>(
    chunk: ChunkData,
    neighbors: ChunkNeighbors,
    props: Option<&BlockPropertiesTable>,
    uv_table: UvLookupTable<T>,
    n: nat,
    x: int,
    y: int,
    z: int,
    f: int,
)
    requires
        n <= 196608,
        0 <= x < 32,
        0 <= y < 32,
        0 <= z < 32,
        0 <= f < 6,
    ensures
        ({
            let quads = quads_upto(chunk, neighbors, props, uv_table, n);
            let face = face::spec_face(f);
            let m = face_number(x, y, z, f);
            &&& (exists|i: int|
                0 <= i < quads.len() && mesh::covers(#[trigger] quads[i], face, x, y, z)) <==> m < n
                && shown(chunk, neighbors, props, m)
            &&& forall|i: int|
                0 <= i < quads.len() && mesh::covers(#[trigger] quads[i], face, x, y, z) ==> quads[i]
                    == quad_at(chunk, uv_table, m)
            &&& forall|i: int, j: int|
                0 <= i < quads.len() && 0 <= j < quads.len() && mesh::covers(
                    #[trigger] quads[i],
                    face,
                    x,
                    y,
                    z,
                ) && mesh::covers(#[trigger] quads[j], face, x, y, z) ==> i == j
        }),
    decreases n,
{
    if n > 0 {
        lemma_quads_cover(chunk, neighbors, props, uv_table, (n - 1) as nat, x, y, z, f);
        let rest = quads_upto(chunk, neighbors, props, uv_table, (n - 1) as nat);
        let quads = quads_upto(chunk, neighbors, props, uv_table, n);
        let face = face::spec_face(f);
        let m = face_number(x, y, z, f);
        let q = quad_at(chunk, uv_table, n - 1);
        lemma_face_number(x, y, z, f);
        lemma_face_at(n - 1);
        let g = face_at(n - 1).3;
        assert(mesh::covers(q, face, x, y, z) <==> m == n - 1) by {
            if face::spec_face(g) == face {
                face::law_faces_differ(f, g);
            }
        }
        if shown(chunk, neighbors, props, n - 1) {
            assert(quads == rest.push(q));
            assert forall|i: int| 0 <= i < rest.len() implies #[trigger] quads[i] == rest[i] by {}
            assert(quads[rest.len() as int] == q);
            if m == n - 1 {
                assert(mesh::covers(quads[rest.len() as int], face, x, y, z));
            } else if m < n && shown(chunk, neighbors, props, m) {
                let i = choose|i: int|
                    0 <= i < rest.len() && mesh::covers(#[trigger] rest[i], face, x, y, z);
                assert(mesh::covers(quads[i], face, x, y, z));
            }
            assert forall|i: int|
                0 <= i < quads.len() && mesh::covers(#[trigger] quads[i], face, x, y, z) implies i
                == rest.len() || mesh::covers(rest[i], face, x, y, z) by {}
        }
    }
}

/// The mesh of a chunk's solid blocks shows just what can be seen of them. A quad shows
/// face `f` of a block if and only if the block is neither air nor water, and the block
/// across the face is of another kind and not solid; then it is one quad alone, the size
/// of the block, and has the texture of that face of the block. A chunk of one kind of
/// block is not shown.
pub proof fn law_solid_mesh_shows_what_is_seen<T: Copy>(
    chunk: ChunkData,
    neighbors: ChunkNeighbors,
    props: Option<&BlockPropertiesTable>,
    uv_table: UvLookupTable<T>,
    x: int,
    y: int,
    z: int,
    f: int,
)
    requires
        0 <= x < 32,
        0 <= y < 32,
        0 <= z < 32,
        0 <= f < 6,
    ensures
        ({
            let quads = solid_quads(chunk, neighbors, props, uv_table);
            let face = face::spec_face(f);
            let n = face.spec_normal();
            let id = chunk.block_at(x, y, z);
            let other = chunk::across(chunk, neighbors, x + n[0], y + n[1], z + n[2], f);
            &&& (exists|i: int|
                0 <= i < quads.len() && mesh::covers(#[trigger] quads[i], face, x, y, z))
                <==> chunk is Paletted && id != 0 && id != 5 && other != id
                && !block_definition::solid_in(props, other)
            &&& forall|i: int|
                0 <= i < quads.len() && mesh::covers(#[trigger] quads[i], face, x, y, z) ==> {
                    &&& quads[i].origin == (x, y, z)
                    &&& quads[i].extent == (1int, 1int, 1int)
                    &&& quads[i].uv == uv_table.uv(id as int, face.spec_face_index())
                }
            &&& forall|i: int, j: int|
                0 <= i < quads.len() && 0 <= j < quads.len() && mesh::covers(
                    #[trigger] quads[i],
                    face,
                    x,
                    y,
                    z,
                ) && mesh::covers(#[trigger] quads[j], face, x, y, z) ==> i == j
        }),
{
    lemma_quads_cover(chunk, neighbors, props, uv_table, 196608, x, y, z, f);
    lemma_face_number(x, y, z, f);
}

/// Every quad of the mesh of a chunk's solid blocks shows a face of a block of the chunk.
pub proof fn law_solid_mesh_stays_in_chunk<T: Copy>(
    chunk: ChunkData,
    neighbors: ChunkNeighbors,
    props: Option<&BlockPropertiesTable>,
    uv_table: UvLookupTable<T>,
    i: int,
)
    requires
        0 <= i < solid_quads(chunk, neighbors, props, uv_table).len(),
    ensures
        ({
            let q = solid_quads(chunk, neighbors, props, uv_table)[i];
            exists|x: int, y: int, z: int|
                0 <= x < 32 && 0 <= y < 32 && 0 <= z < 32 && #[trigger] mesh::covers(
                    q,
                    q.face,
                    x,
                    y,
                    z,
                )
        }),
{
    lemma_quads_stay(chunk, neighbors, props, uv_table, 196608, i);
}

/// Every quad of the first `n` faces shows a face of a block of the chunk.
proof fn lemma_quads_stay<T: Copy>(
    chunk: ChunkData,
    neighbors: ChunkNeighbors,
    props: Option<&BlockPropertiesTable>,
    uv_table: UvLookupTable<T>,
    n: nat,
    i: int,
)
    requires
        n <= 196608,
        0 <= i < quads_upto(chunk, neighbors, props, uv_table, n).len(),
    ensures
        ({
            let q = quads_upto(chunk, neighbors, props, uv_table, n)[i];
            exists|x: int, y: int, z: int|
                0 <= x < 32 && 0 <= y < 32 && 0 <= z < 32 && #[trigger] mesh::covers(
                    q,
                    q.face,
                    x,
                    y,
                    z,
                )
        }),
    decreases n,
{
    if n > 0 {
        let rest = quads_upto(chunk, neighbors, props, uv_table, (n - 1) as nat);
        if i < rest.len() {
            lemma_quads_stay(chunk, neighbors, props, uv_table, (n - 1) as nat, i);
        } else {
            let q = quad_at(chunk, uv_table, n - 1);
            let (x, y, z, f) = face_at(n - 1);
            lemma_face_at(n - 1);
            assert(mesh::covers(q, q.face, x, y, z));
        }
    }
}

} // verus!

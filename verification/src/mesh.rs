//! Triangle meshes made of quads, and the textures that their faces show.
//!
//! A texture coordinate is a number of any type; the mesh copies it and never
//! computes with it.

use crate::face;
use crate::face::Face;
use vstd::prelude::*;
use vstd::string::*;

verus! {

/// A texture's rectangle: left, right, top, bottom.
pub type UvCoord<T> = (T, T, T, T);

/// A corner of a mesh.
#[derive(Clone, Copy, Debug)]
pub struct MeshVertex<T> {
    pub position: [i32; 3],
    pub normal: [i32; 3],
    pub uv: [T; 2],
}

/// A mesh: corners, and three indices into them for each triangle.
#[derive(Clone, Debug)]
pub struct SubMeshData<T> {
    pub vertices: Vec<MeshVertex<T>>,
    pub indices: Vec<u32>,
    pub triangle_count: u32,
}

/// A textured quad: its face, the box whose face it is, and its texture's
/// rectangle.
#[verifier::ext_equal]
pub struct Quad<T> {
    pub face: Face,
    pub origin: (int, int, int),
    pub extent: (int, int, int),
    pub uv: UvCoord<T>,
}

/// Four corners from `at` on show the quad.
pub open spec fn corners_show<T>(v: Seq<MeshVertex<T>>, at: int, q: Quad<T>) -> bool {
    let c = face::spec_corners(q.face, q.origin, q.extent);
    &&& forall|k: int|
        0 <= k < 4 ==> {
            &&& v[at + k].position@[0] == (#[trigger] c[k]).0
            &&& v[at + k].position@[1] == c[k].1
            &&& v[at + k].position@[2] == c[k].2
            &&& v[at + k].normal@ == q.face.spec_normal()
        }
    &&& v[at].uv@ == seq![q.uv.0, q.uv.3]
    &&& v[at + 1].uv@ == seq![q.uv.1, q.uv.3]
    &&& v[at + 2].uv@ == seq![q.uv.1, q.uv.2]
    &&& v[at + 3].uv@ == seq![q.uv.0, q.uv.2]
}

/// Six indices from `at` on make two triangles of the four corners from `base`
/// on.
pub open spec fn indices_show(ix: Seq<u32>, at: int, base: int) -> bool {
    &&& ix[at] == base
    &&& ix[at + 1] == base + 2
    &&& ix[at + 2] == base + 1
    &&& ix[at + 3] == base
    &&& ix[at + 4] == base + 3
    &&& ix[at + 5] == base + 2
}

/// Corners and indices show the quads, in their order.
pub open spec fn shows<T>(v: Seq<MeshVertex<T>>, ix: Seq<u32>, quads: Seq<Quad<T>>) -> bool {
    &&& v.len() == 4 * quads.len()
    &&& ix.len() == 6 * quads.len()
    &&& forall|i: int|
        0 <= i < quads.len() ==> corners_show(v, 4 * i, #[trigger] quads[i]) && indices_show(
            ix,
            6 * i,
            4 * i,
        )
}

impl<T> SubMeshData<T> {
    /// The mesh shows the quads, in their order, as two triangles each.
    pub open spec fn is_mesh_of(&self, quads: Seq<Quad<T>>) -> bool {
        &&& shows(self.vertices@, self.indices@, quads)
        &&& self.triangle_count == 2 * quads.len()
    }

    /// A mesh of nothing.
    pub fn new() -> (r: Self)
        ensures
            r.is_mesh_of(seq![]),
    {
        Self { vertices: Vec::new(), indices: Vec::new(), triangle_count: 0 }
    }

    /// Whether the mesh has no corners.
    pub fn is_empty(&self) -> (r: bool)
        ensures
            r == (self.vertices@.len() == 0),
    {
        self.vertices.len() == 0
    }
}

impl<T: Copy> SubMeshData<T> {
    /// Adds a quad.
    pub(crate) fn push_quad(&mut self, verts: [[i32; 3]; 4], uvs: [[T; 2]; 4], normal: [i32; 3], Ghost(
        quads,
    ): Ghost<Seq<Quad<T>>>, Ghost(q): Ghost<Quad<T>>)
        requires
            old(self).is_mesh_of(quads),
            quads.len() < 0x1000_0000,
            face::corners_are(verts@, face::spec_corners(q.face, q.origin, q.extent)),
            face::uvs_are(uvs@, q.uv),
            normal@ == q.face.spec_normal(),
        ensures
            final(self).is_mesh_of(quads.push(q)),
    {
        let base: u32 = self.vertices.len() as u32;
        self.vertices.push(MeshVertex { position: verts[0], normal, uv: uvs[0] });
        self.vertices.push(MeshVertex { position: verts[1], normal, uv: uvs[1] });
        self.vertices.push(MeshVertex { position: verts[2], normal, uv: uvs[2] });
        self.vertices.push(MeshVertex { position: verts[3], normal, uv: uvs[3] });
        self.indices.push(base);
        self.indices.push(base + 2);
        self.indices.push(base + 1);
        self.indices.push(base);
        self.indices.push(base + 3);
        self.indices.push(base + 2);
        self.triangle_count = self.triangle_count + 2;
        proof {
            let n = quads.len() as int;
            let (v0, v1) = (old(self).vertices@, self.vertices@);
            let (x0, x1) = (old(self).indices@, self.indices@);
            assert forall|i: int| 0 <= i < n + 1 implies corners_show(
                v1,
                4 * i,
                #[trigger] quads.push(q)[i],
            ) && indices_show(x1, 6 * i, 4 * i) by {
                if i < n {
                    assert(quads.push(q)[i] == quads[i]);
                    assert(corners_show(v0, 4 * i, quads[i]));
                    assert(v1[4 * i] == v0[4 * i] && v1[4 * i + 1] == v0[4 * i + 1] && v1[4 * i + 2]
                        == v0[4 * i + 2] && v1[4 * i + 3] == v0[4 * i + 3]);
                    let c = face::spec_corners(quads[i].face, quads[i].origin, quads[i].extent);
                    assert forall|k: int| 0 <= k < 4 implies v1[4 * i + k].position@[0] == (
                    #[trigger] c[k]).0 && v1[4 * i + k].position@[1] == c[k].1 && v1[4 * i
                        + k].position@[2] == c[k].2 && v1[4 * i + k].normal@
                        == quads[i].face.spec_normal() by {
                        assert(v1[4 * i + k] == v0[4 * i + k]);
                    }
                } else {
                    assert(quads.push(q)[i] == q);
                    let c = face::spec_corners(q.face, q.origin, q.extent);
                    assert forall|k: int| 0 <= k < 4 implies v1[4 * i + k].position@[0] == (
                    #[trigger] c[k]).0 && v1[4 * i + k].position@[1] == c[k].1 && v1[4 * i
                        + k].position@[2] == c[k].2 && v1[4 * i + k].normal@
                        == q.face.spec_normal() by {
                        assert(v1[4 * i + k].position == verts@[k]);
                    }
                }
            }
        }
    }

    /// Splits the mesh into positions, texture coordinates, directions and
    /// indices.
    pub fn split_for_bevy(self) -> (r: (Vec<[i32; 3]>, Vec<[T; 2]>, Vec<[i32; 3]>, Vec<u32>))
        ensures
            r.0@.len() == self.vertices@.len(),
            r.1@.len() == self.vertices@.len(),
            r.2@.len() == self.vertices@.len(),
            forall|i: int|
                0 <= i < self.vertices@.len() ==> (#[trigger] self.vertices@[i]) == (MeshVertex {
                    position: r.0@[i],
                    uv: r.1@[i],
                    normal: r.2@[i],
                }),
            r.3 == self.indices,
    {
        let mut positions: Vec<[i32; 3]> = Vec::new();
        let mut uvs: Vec<[T; 2]> = Vec::new();
        let mut normals: Vec<[i32; 3]> = Vec::new();
        let mut i: usize = 0;
        while i < self.vertices.len()
            invariant
                i <= self.vertices@.len(),
                positions@.len() == i,
                uvs@.len() == i,
                normals@.len() == i,
                forall|j: int|
                    0 <= j < i ==> (#[trigger] self.vertices@[j]) == (MeshVertex {
                        position: positions@[j],
                        uv: uvs@[j],
                        normal: normals@[j],
                    }),
            decreases self.vertices@.len() - i,
        {
            let v: &MeshVertex<T> = &self.vertices[i];
            positions.push(v.position);
            uvs.push(v.uv);
            normals.push(v.normal);
            i = i + 1;
        }
        (positions, uvs, normals, self.indices)
    }
}

/// The texture's rectangle for each kind of block and each place of a face.
#[derive(Debug)]
pub struct UvLookupTable<T> {
    uv_array: Vec<Option<UvCoord<T>>>,
    default_uv: UvCoord<T>,
}

impl<T: Copy> UvLookupTable<T> {
    /// There is a place for every kind of block and every face.
    pub closed spec fn wf(&self) -> bool {
        self.uv_array@.len() == 768
    }

    /// The rectangle that has been entered, if any.
    pub closed spec fn entry(&self, block_id: int, face_index: int) -> Option<UvCoord<T>> {
        self.uv_array@[block_id * 3 + face_index]
    }

    /// The rectangle where none has been entered.
    pub closed spec fn spec_default(&self) -> UvCoord<T> {
        self.default_uv
    }

    /// The rectangle of a face.
    pub open spec fn uv(&self, block_id: int, face_index: int) -> UvCoord<T> {
        match self.entry(block_id, face_index) {
            Some(uv) => uv,
            None => self.spec_default(),
        }
    }

    /// A table without entries.
    pub fn new(default_uv: UvCoord<T>) -> (r: Self)
        ensures
            r.wf(),
            r.spec_default() == default_uv,
            forall|b: int, f: int|
                0 <= b < 256 && 0 <= f < 3 ==> (#[trigger] r.entry(b, f)) is None,
    {
        let mut uv_array: Vec<Option<UvCoord<T>>> = Vec::new();
        let mut i: usize = 0;
        while i < 768
            invariant
                i <= 768,
                uv_array@.len() == i,
                forall|j: int| 0 <= j < i ==> (#[trigger] uv_array@[j]) is None,
            decreases 768 - i,
        {
            uv_array.push(None);
            i = i + 1;
        }
        Self { uv_array, default_uv }
    }

    /// Enters a rectangle.
    pub fn set_uv(&mut self, block_id: u8, face_index: usize, uv: UvCoord<T>)
        requires
            old(self).wf(),
            face_index < 3,
        ensures
            final(self).wf(),
            final(self).spec_default() == old(self).spec_default(),
            forall|b: int, f: int|
                0 <= b < 256 && 0 <= f < 3 ==> (#[trigger] final(self).entry(b, f)) == (if b
                    == block_id && f == face_index {
                    Some(uv)
                } else {
                    old(self).entry(b, f)
                }),
    {
        self.uv_array.set(block_id as usize * 3 + face_index, Some(uv));
    }

    /// The rectangle of a face.
    pub fn get_uv(&self, block_id: u8, face_index: usize) -> (r: UvCoord<T>)
        requires
            self.wf(),
            face_index < 3,
        ensures
            r == self.uv(block_id as int, face_index as int),
    {
        match self.uv_array[block_id as usize * 3 + face_index] {
            Some(uv) => uv,
            None => self.default_uv,
        }
    }
}

/// The place of the texture of a face with this name.
pub open spec fn spec_face_name_to_index(name: Seq<u8>) -> int {
    if name == seq![116u8, 111u8, 112u8] {
        0
    } else if name.len() == 6 && name[0] == 98u8 && name[1] == 111u8 {
        1
    } else {
        2
    }
}

/// The place of the texture of a face with this name: 0 for `top`, 1 for six
/// bytes that begin with `bo`, as `bottom` does, and else 2.
pub fn face_name_to_index(face_name: &str) -> (r: usize)
    ensures
        r == spec_face_name_to_index(face_name.spec_bytes()),
        r < 3,
{
    let name: &[u8] = face_name.as_bytes();
    if name.len() == 3 && name[0] == 116 && name[1] == 111 && name[2] == 112 {
        assert(name@ =~= seq![116u8, 111u8, 112u8]);
        0
    } else if name.len() == 6 && name[0] == 98 && name[1] == 111 {
        1
    } else {
        2
    }
}

/// The quad shows face `face` of the block at a place.
pub open spec fn covers<T>(q: Quad<T>, face: Face, x: int, y: int, z: int) -> bool {
    &&& q.face == face
    &&& q.origin.0 <= x < q.origin.0 + q.extent.0
    &&& q.origin.1 <= y < q.origin.1 + q.extent.1
    &&& q.origin.2 <= z < q.origin.2 + q.extent.2
}

/// What the sign of a product is.
proof fn lemma_product_sign(a: int, b: int)
    ensures
        a == 0 ==> a * b == 0,
        b == 0 ==> a * b == 0,
        a > 0 && b > 0 ==> a * b > 0,
        a < 0 && b < 0 ==> a * b > 0,
        a > 0 && b < 0 ==> a * b < 0,
        a < 0 && b > 0 ==> a * b < 0,
{
    assert(a == 0 || b == 0 ==> a * b == 0) by (nonlinear_arith);
    assert((a > 0 && b > 0) || (a < 0 && b < 0) ==> a * b > 0) by (nonlinear_arith);
    assert((a > 0 && b < 0) || (a < 0 && b > 0) ==> a * b < 0) by (nonlinear_arith);
}

/// Both triangles of each quad of a mesh are seen from the side to which their face
/// looks: the cross product of their edges, in the order of their corners, points along
/// the direction that the corners name. Together they have all four corners of the quad.
pub proof fn law_triangles_face_outward<T>(
    v: Seq<MeshVertex<T>>,
    ix: Seq<u32>,
    quads: Seq<Quad<T>>,
    i: int,
    t: int,
    k: int,
)
    requires
        shows(v, ix, quads),
        0 <= i < quads.len(),
        0 <= k < 4,
        quads[i].extent.0 > 0,
        quads[i].extent.1 > 0,
        quads[i].extent.2 > 0,
        t == 2 * i || t == 2 * i + 1,
    ensures
        ({
            let a = v[ix[3 * t] as int];
            let b = v[ix[3 * t + 1] as int].position@;
            let c = v[ix[3 * t + 2] as int].position@;
            let (o, n) = (a.position@, a.normal@);
            let e = (b[0] - o[0], b[1] - o[1], b[2] - o[2]);
            let f = (c[0] - o[0], c[1] - o[1], c[2] - o[2]);
            let x = (
                e.1 * f.2 - e.2 * f.1,
                e.2 * f.0 - e.0 * f.2,
                e.0 * f.1 - e.1 * f.0,
            );
            &&& n[0] > 0 <==> x.0 > 0
            &&& n[0] < 0 <==> x.0 < 0
            &&& n[1] > 0 <==> x.1 > 0
            &&& n[1] < 0 <==> x.1 < 0
            &&& n[2] > 0 <==> x.2 > 0
            &&& n[2] < 0 <==> x.2 < 0
        }),
        exists|m: int| 6 * i <= m < 6 * i + 6 && #[trigger] ix[m] == 4 * i + k,
{
    let q = quads[i];
    assert(corners_show(v, 4 * i, q) && indices_show(ix, 6 * i, 4 * i));
    let c = face::spec_corners(q.face, q.origin, q.extent);
    assert(c[0] == c[0] && c[1] == c[1] && c[2] == c[2] && c[3] == c[3]);
    assert(v[4 * i + 0].position@[0] == c[0].0);
    assert(v[4 * i + 1].position@[0] == c[1].0);
    assert(v[4 * i + 2].position@[0] == c[2].0);
    assert(v[4 * i + 3].position@[0] == c[3].0);
    let a = v[ix[3 * t] as int];
    let b = v[ix[3 * t + 1] as int].position@;
    let g = v[ix[3 * t + 2] as int].position@;
    let (o, n) = (a.position@, a.normal@);
    let e = (b[0] - o[0], b[1] - o[1], b[2] - o[2]);
    let f = (g[0] - o[0], g[1] - o[1], g[2] - o[2]);
    lemma_product_sign(e.1, f.2);
    lemma_product_sign(e.2, f.1);
    lemma_product_sign(e.2, f.0);
    lemma_product_sign(e.0, f.2);
    lemma_product_sign(e.0, f.1);
    lemma_product_sign(e.1, f.0);
    assert(ix[6 * i] == 4 * i && ix[6 * i + 2] == 4 * i + 1 && ix[6 * i + 1] == 4 * i + 2 && ix[6
        * i + 4] == 4 * i + 3);
}

/// Textures stand upright on the sides of a block: of the corners of a quad that looks
/// sideways, the upper ones show the top of its texture and the lower ones the bottom,
/// and one above another show the same side of it.
pub proof fn law_textures_upright<T>(v: Seq<MeshVertex<T>>, at: int, q: Quad<T>, j: int, k: int)
    requires
        corners_show(v, at, q),
        q.face.spec_normal()[1] == 0,
        q.extent.0 > 0,
        q.extent.1 > 0,
        q.extent.2 > 0,
        0 <= j < 4,
        0 <= k < 4,
    ensures
        v[at + j].position@[1] == q.origin.1 + q.extent.1 ==> v[at + j].uv@[1] == q.uv.2,
        v[at + j].position@[1] == q.origin.1 ==> v[at + j].uv@[1] == q.uv.3,
        v[at + j].position@[1] == q.origin.1 || v[at + j].position@[1] == q.origin.1 + q.extent.1,
        v[at + j].uv@[0] == q.uv.0 || v[at + j].uv@[0] == q.uv.1,
        v[at + j].position@[0] == v[at + k].position@[0] && v[at + j].position@[2]
            == v[at + k].position@[2] ==> v[at + j].uv@[0] == v[at + k].uv@[0],
{
    let c = face::spec_corners(q.face, q.origin, q.extent);
    assert(v[at + j].position@[0] == c[j].0);
    assert(v[at + k].position@[0] == c[k].0);
}

/// The name of a face leads to the place of its texture.
pub proof fn law_names_lead_to_places(face: Face, name: &str)
    requires
        name@ == face.spec_face_name(),
    ensures
        spec_face_name_to_index(name.spec_bytes()) == face.spec_face_index(),
{
    reveal_strlit("top");
    reveal_strlit("bottom");
    reveal_strlit("side");
    is_ascii_spec_bytes(name);
    assert(is_ascii(name));
    let bytes = name.spec_bytes();
    match face {
        Face::Top => {
            assert(bytes =~= seq![116u8, 111u8, 112u8]);
        },
        Face::Bottom => {
            assert(bytes.len() == 6 && bytes[0] == 98u8 && bytes[1] == 111u8);
        },
        _ => {
            assert(bytes.len() == 4);
        },
    }
}

/// A mesh counts the triangles that its indices make, three to each, and has four corners for
/// every two of them.
pub proof fn law_triangles_are_counted<T>(m: SubMeshData<T>, quads: Seq<Quad<T>>)
    requires
        m.is_mesh_of(quads),
    ensures
        m.indices@.len() == 3 * m.triangle_count,
        m.vertices@.len() == 2 * m.triangle_count,
        m.triangle_count == 0 <==> quads.len() == 0,
{
}

/// Textures are laid out by the places of the corners, and by them alone. Sideways the left
/// edge of the texture is at the upper end of x or z on the faces that look along +Z and -X
/// and at the lower end on those along -Z and +X. On a top or bottom it is at the lower
/// end of x; the lower edge is at the lower end of z on a top, and at its upper end on a bottom.
pub proof fn law_textures_by_place<T>(v: Seq<MeshVertex<T>>, at: int, q: Quad<T>, k: int)
    requires
        corners_show(v, at, q),
        0 <= k < 4,
        q.extent.0 > 0,
        q.extent.1 > 0,
        q.extent.2 > 0,
    ensures
        ({
            let (p, uv, n) = (v[at + k].position@, v[at + k].uv@, q.face.spec_normal());
            &&& n[0] > 0 ==> uv[0] == if p[2] == q.origin.2 {
                q.uv.0
            } else {
                q.uv.1
            }
            &&& n[0] < 0 ==> uv[0] == if p[2] == q.origin.2 {
                q.uv.1
            } else {
                q.uv.0
            }
            &&& n[2] > 0 ==> uv[0] == if p[0] == q.origin.0 {
                q.uv.1
            } else {
                q.uv.0
            }
            &&& n[2] < 0 ==> uv[0] == if p[0] == q.origin.0 {
                q.uv.0
            } else {
                q.uv.1
            }
            &&& n[1] != 0 ==> uv[0] == if p[0] == q.origin.0 {
                q.uv.0
            } else {
                q.uv.1
            }
            &&& n[1] > 0 ==> uv[1] == if p[2] == q.origin.2 {
                q.uv.3
            } else {
                q.uv.2
            }
            &&& n[1] < 0 ==> uv[1] == if p[2] == q.origin.2 {
                q.uv.2
            } else {
                q.uv.3
            }
        }),
{
    let c = face::spec_corners(q.face, q.origin, q.extent);
    assert(v[at + k].position@[0] == c[k].0);
}

} // verus!

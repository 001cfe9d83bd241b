//! The six faces of a block and the quads that show them.

use vstd::prelude::*;
use vstd::string::*;

verus! {

/// One of the six faces of a block.
#[derive(Clone, Copy, Debug, PartialEq, Eq, Structural)]
pub enum Face {
    Top,
    Bottom,
    Right,
    Left,
    Front,
    Back,
}

impl Face {
    /// The name under which a face's texture is found.
    pub open spec fn spec_face_name(self) -> Seq<char> {
        match self {
            Face::Top => "top"@,
            Face::Bottom => "bottom"@,
            _ => "side"@,
        }
    }

    /// The name under which a face's texture is found: top, bottom or side.
    pub fn to_face_name(self) -> (r: &'static str)
        ensures
            r@ == self.spec_face_name(),
    {
        match self {
            Face::Top => "top",
            Face::Bottom => "bottom",
            _ => "side",
        }
    }

    /// The place of a face's texture: 0 for the top, 1 for the bottom, 2 for the
    /// sides.
    pub open spec fn spec_face_index(self) -> int {
        match self {
            Face::Top => 0,
            Face::Bottom => 1,
            _ => 2,
        }
    }

    /// The place of a face's texture: 0 for the top, 1 for the bottom, 2 for the
    /// sides.
    pub fn face_index(self) -> (r: usize)
        ensures
            r == self.spec_face_index(),
    {
        match self {
            Face::Top => 0,
            Face::Bottom => 1,
            _ => 2,
        }
    }

    /// The direction in which a face looks.
    pub open spec fn spec_normal(self) -> Seq<i32> {
        match self {
            Face::Top => seq![0, 1, 0],
            Face::Bottom => seq![0, (-1) as i32, 0],
            Face::Right => seq![1, 0, 0],
            Face::Left => seq![(-1) as i32, 0, 0],
            Face::Front => seq![0, 0, 1],
            Face::Back => seq![0, 0, (-1) as i32],
        }
    }

    /// The direction in which a face looks.
    pub fn normal(self) -> (r: [i32; 3])
        ensures
            r@ == self.spec_normal(),
    {
        let r: [i32; 3] = match self {
            Face::Top => [0, 1, 0],
            Face::Bottom => [0, -1, 0],
            Face::Right => [1, 0, 0],
            Face::Left => [-1, 0, 0],
            Face::Front => [0, 0, 1],
            Face::Back => [0, 0, -1],
        };
        assert(r@ =~= self.spec_normal());
        r
    }
}

/// The faces in the order in which neighbours are listed: +X, -X, +Y, -Y, +Z, -Z.
pub open spec fn spec_face(i: int) -> Face {
    if i == 0 {
        Face::Right
    } else if i == 1 {
        Face::Left
    } else if i == 2 {
        Face::Top
    } else if i == 3 {
        Face::Bottom
    } else if i == 4 {
        Face::Front
    } else {
        Face::Back
    }
}

/// Face `i` in the order in which neighbours are listed, with its direction and
/// the place of its texture.
pub fn faces(i: usize) -> (r: (Face, [i32; 3], usize))
    requires
        i < 6,
    ensures
        r.0 == spec_face(i as int),
        r.1@ == spec_face(i as int).spec_normal(),
        r.2 == spec_face(i as int).spec_face_index(),
{
    let face: Face = match i {
        0 => Face::Right,
        1 => Face::Left,
        2 => Face::Top,
        3 => Face::Bottom,
        4 => Face::Front,
        _ => Face::Back,
    };
    (face, face.normal(), face.face_index())
}

/// The offset of neighbour `i`, in the same order.
pub fn neighbor_offset(i: usize) -> (r: (i32, i32, i32))
    requires
        i < 6,
    ensures
        seq![r.0, r.1, r.2] == spec_face(i as int).spec_normal(),
{
    let (_face, n, _place) = faces(i);
    assert(seq![n@[0], n@[1], n@[2]] =~= n@);
    (n[0], n[1], n[2])
}

/// The corners of the face of a box: `p` is the corner of the box with the
/// smallest coordinates and `d` its extent. Seen from outside they go round
/// counter-clockwise, beginning at the lower left.
pub open spec fn spec_corners(face: Face, p: (int, int, int), d: (int, int, int)) -> Seq<
    (int, int, int),
> {
    let (x, y, z) = p;
    let (a, b, c) = (p.0 + d.0, p.1 + d.1, p.2 + d.2);
    match face {
        Face::Top => seq![(x, b, z), (a, b, z), (a, b, c), (x, b, c)],
        Face::Bottom => seq![(x, y, c), (a, y, c), (a, y, z), (x, y, z)],
        Face::Right => seq![(a, y, z), (a, y, c), (a, b, c), (a, b, z)],
        Face::Left => seq![(x, y, c), (x, y, z), (x, b, z), (x, b, c)],
        Face::Front => seq![(a, y, c), (x, y, c), (x, b, c), (a, b, c)],
        Face::Back => seq![(x, y, z), (a, y, z), (a, b, z), (x, b, z)],
    }
}

/// The corners are those of the sequence.
pub open spec fn corners_are(r: Seq<[i32; 3]>, s: Seq<(int, int, int)>) -> bool {
    &&& r.len() == 4
    &&& s.len() == 4
    &&& forall|k: int|
        0 <= k < 4 ==> (#[trigger] r[k])@[0] == s[k].0 && r[k]@[1] == s[k].1 && r[k]@[2] == s[k].2
}

/// The corners of the face of a box.
pub fn box_face(
    face: Face,
    x: i32,
    y: i32,
    z: i32,
    dx: i32,
    dy: i32,
    dz: i32,
) -> (r: [[i32; 3]; 4])
    requires
        i32::MIN <= x + dx <= i32::MAX,
        i32::MIN <= y + dy <= i32::MAX,
        i32::MIN <= z + dz <= i32::MAX,
    ensures
        corners_are(
            r@,
            spec_corners(face, (x as int, y as int, z as int), (dx as int, dy as int, dz as int)),
        ),
{
    let (a, b, c) = (x + dx, y + dy, z + dz);
    match face {
        Face::Top => [[x, b, z], [a, b, z], [a, b, c], [x, b, c]],
        Face::Bottom => [[x, y, c], [a, y, c], [a, y, z], [x, y, z]],
        Face::Right => [[a, y, z], [a, y, c], [a, b, c], [a, b, z]],
        Face::Left => [[x, y, c], [x, y, z], [x, b, z], [x, b, c]],
        Face::Front => [[a, y, c], [x, y, c], [x, b, c], [a, b, c]],
        Face::Back => [[x, y, z], [a, y, z], [a, b, z], [x, b, z]],
    }
}

/// The texture coordinates of the corners of a quad, in their order, where the
/// texture's rectangle is (left, right, top, bottom).
pub open spec fn uvs_are<T>(r: Seq<[T; 2]>, uv: (T, T, T, T)) -> bool {
    &&& r.len() == 4
    &&& r[0]@ == seq![uv.0, uv.3]
    &&& r[1]@ == seq![uv.1, uv.3]
    &&& r[2]@ == seq![uv.1, uv.2]
    &&& r[3]@ == seq![uv.0, uv.2]
}

/// The texture coordinates of the corners of a quad.
pub fn face_uvs<T: Copy>(uv: (T, T, T, T)) -> (r: [[T; 2]; 4])
    ensures
        uvs_are(r@, uv),
{
    let r: [[T; 2]; 4] = [[uv.0, uv.3], [uv.1, uv.3], [uv.1, uv.2], [uv.0, uv.2]];
    assert(r@[0]@ =~= seq![uv.0, uv.3]);
    assert(r@[1]@ =~= seq![uv.1, uv.3]);
    assert(r@[2]@ =~= seq![uv.1, uv.2]);
    assert(r@[3]@ =~= seq![uv.0, uv.2]);
    r
}

/// The quad of one face of a block: corners, texture coordinates and direction.
pub fn face_quad<T: Copy>(x: usize, y: usize, z: usize, face: Face, uv: (T, T, T, T)) -> (r: (
    [[i32; 3]; 4],
    [[T; 2]; 4],
    [i32; 3],
))
    requires
        x < i32::MAX,
        y < i32::MAX,
        z < i32::MAX,
    ensures
        corners_are(r.0@, spec_corners(face, (x as int, y as int, z as int), (1, 1, 1))),
        uvs_are(r.1@, uv),
        r.2@ == face.spec_normal(),
{
    (box_face(face, x as i32, y as i32, z as i32, 1, 1, 1), face_uvs(uv), face.normal())
}

/// The quad of one face of a cube of `step` blocks, scaled down so that the cube
/// has the size of one block. The coordinates are counted in parts of `step`: a
/// coordinate is the number given here divided by `step`.
pub fn face_quad_lod<T: Copy>(
    x: usize,
    y: usize,
    z: usize,
    face: Face,
    uv: (T, T, T, T),
    step: usize,
) -> (r: ([[i32; 3]; 4], [[T; 2]; 4], [i32; 3]))
    requires
        x + step <= i32::MAX,
        y + step <= i32::MAX,
        z + step <= i32::MAX,
    ensures
        corners_are(
            r.0@,
            spec_corners(
                face,
                (x as int, y as int, z as int),
                (step as int, step as int, step as int),
            ),
        ),
        uvs_are(r.1@, uv),
        r.2@ == face.spec_normal(),
{
    let d: i32 = step as i32;
    (box_face(face, x as i32, y as i32, z as i32, d, d, d), face_uvs(uv), face.normal())
}

/// The corners of a face span a flat quad whose direction, by the order of the
/// corners, is that of the face or its opposite: the cross product of the edges
/// from the first corner to the third and to the second points along the
/// normal.
pub proof fn law_quads_face_outward(face: Face, p: (int, int, int), s: int)
    requires
        s > 0,
    ensures
        ({
            let c = spec_corners(face, p, (s, s, s));
            let e = (c[2].0 - c[0].0, c[2].1 - c[0].1, c[2].2 - c[0].2);
            let f = (c[1].0 - c[0].0, c[1].1 - c[0].1, c[1].2 - c[0].2);
            let n = face.spec_normal();
            &&& e.1 * f.2 - e.2 * f.1 == s * s * n[0]
            &&& e.2 * f.0 - e.0 * f.2 == s * s * n[1]
            &&& e.0 * f.1 - e.1 * f.0 == s * s * n[2]
        }),
{
    let c = spec_corners(face, p, (s, s, s));
    let e = (c[2].0 - c[0].0, c[2].1 - c[0].1, c[2].2 - c[0].2);
    let f = (c[1].0 - c[0].0, c[1].1 - c[0].1, c[1].2 - c[0].2);
    match face {
        Face::Top => {
            assert(e == (s, 0int, s) && f == (s, 0int, 0int));
        },
        Face::Bottom => {
            assert(e == (s, 0int, -s) && f == (s, 0int, 0int));
        },
        Face::Right => {
            assert(e == (0int, s, s) && f == (0int, 0int, s));
        },
        Face::Left => {
            assert(e == (0int, s, -s) && f == (0int, 0int, -s));
        },
        Face::Front => {
            assert(e == (-s, s, 0int) && f == (-s, 0int, 0int));
        },
        Face::Back => {
            assert(e == (s, s, 0int) && f == (s, 0int, 0int));
        },
    }
    lemma_edge_products(s, e.1, f.2);
    lemma_edge_products(s, e.2, f.1);
    lemma_edge_products(s, e.2, f.0);
    lemma_edge_products(s, e.0, f.2);
    lemma_edge_products(s, e.0, f.1);
    lemma_edge_products(s, e.1, f.0);
    assert(s * s * 1 == s * s && s * s * 0 == 0 && s * s * (-1) == -(s * s)) by (nonlinear_arith);
}

/// Products of edge coordinates.
proof fn lemma_edge_products(s: int, a: int, b: int)
    requires
        a == 0 || a == s || a == -s,
        b == 0 || b == s || b == -s,
    ensures
        a == 0 || b == 0 ==> a * b == 0,
        a == s && b == s ==> a * b == s * s,
        a == -s && b == -s ==> a * b == s * s,
        a == s && b == -s ==> a * b == -(s * s),
        a == -s && b == s ==> a * b == -(s * s),
{
    assert((-s) * (-s) == s * s && s * (-s) == -(s * s) && (-s) * s == -(s * s) && 0 * b == 0 && a
        * 0 == 0) by (nonlinear_arith);
}

/// The faces are listed axis by axis, along x, y and z, and along each axis first the
/// one that looks to larger coordinates: each looks along its axis alone.
pub proof fn law_faces_by_axis(i: int, k: int)
    requires
        0 <= i < 6,
        0 <= k < 3,
    ensures
        spec_face(i).spec_normal().len() == 3,
        spec_face(i).spec_normal()[k] == if k != i / 2 {
            0
        } else if i % 2 == 0 {
            1
        } else {
            -1
        },
{
}

/// Each face has one place in the list.
pub proof fn law_faces_differ(i: int, j: int)
    requires
        0 <= i < 6,
        0 <= j < 6,
        spec_face(i) == spec_face(j),
    ensures
        i == j,
{
}

/// The corners of a face are the four corners of the box on the side to which the face
/// looks, and each shares an edge of the box with the next.
pub proof fn law_corners_of_box(face: Face, p: (int, int, int), d: (int, int, int), k: int)
    requires
        d.0 > 0,
        d.1 > 0,
        d.2 > 0,
        0 <= k < 4,
    ensures
        ({
            let c = spec_corners(face, p, d);
            let n = face.spec_normal();
            let next = c[(k + 1) % 4];
            &&& c.len() == 4
            &&& c[k].0 == p.0 || c[k].0 == p.0 + d.0
            &&& c[k].1 == p.1 || c[k].1 == p.1 + d.1
            &&& c[k].2 == p.2 || c[k].2 == p.2 + d.2
            &&& n[0] > 0 ==> c[k].0 == p.0 + d.0
            &&& n[0] < 0 ==> c[k].0 == p.0
            &&& n[1] > 0 ==> c[k].1 == p.1 + d.1
            &&& n[1] < 0 ==> c[k].1 == p.1
            &&& n[2] > 0 ==> c[k].2 == p.2 + d.2
            &&& n[2] < 0 ==> c[k].2 == p.2
            &&& forall|j: int| 0 <= j < 4 && j != k ==> #[trigger] c[j] != c[k]
            &&& (next.0 == c[k].0 && next.1 == c[k].1) || (next.1 == c[k].1 && next.2 == c[k].2) || (
            next.0 == c[k].0 && next.2 == c[k].2)
        }),
{
}

/// No corner of a box is higher than those of its top or lower than those of its
/// bottom, and likewise right and left are its sides of largest and smallest x, and
/// front and back those of largest and smallest z.
pub proof fn law_faces_are_outermost(
    face: Face,
    p: (int, int, int),
    d: (int, int, int),
    j: int,
    k: int,
)
    requires
        d.0 > 0,
        d.1 > 0,
        d.2 > 0,
        0 <= j < 4,
        0 <= k < 4,
    ensures
        spec_corners(face, p, d)[j].1 <= spec_corners(Face::Top, p, d)[k].1,
        spec_corners(face, p, d)[j].1 >= spec_corners(Face::Bottom, p, d)[k].1,
        spec_corners(face, p, d)[j].0 <= spec_corners(Face::Right, p, d)[k].0,
        spec_corners(face, p, d)[j].0 >= spec_corners(Face::Left, p, d)[k].0,
        spec_corners(face, p, d)[j].2 <= spec_corners(Face::Front, p, d)[k].2,
        spec_corners(face, p, d)[j].2 >= spec_corners(Face::Back, p, d)[k].2,
        spec_corners(Face::Bottom, p, d)[j].1 < spec_corners(Face::Top, p, d)[k].1,
        spec_corners(Face::Left, p, d)[j].0 < spec_corners(Face::Right, p, d)[k].0,
        spec_corners(Face::Back, p, d)[j].2 < spec_corners(Face::Front, p, d)[k].2,
{
}

/// A face has the texture of the top if it looks up, that of the bottom if it looks
/// down, and else that of the sides: so says its place, and so says its name.
pub proof fn law_textures_by_direction(face: Face)
    ensures
        face.spec_normal()[1] > 0 <==> face.spec_face_index() == 0,
        face.spec_normal()[1] < 0 <==> face.spec_face_index() == 1,
        face.spec_normal()[1] == 0 <==> face.spec_face_index() == 2,
        face.spec_normal()[1] > 0 <==> face.spec_face_name() == "top"@,
        face.spec_normal()[1] < 0 <==> face.spec_face_name() == "bottom"@,
        face.spec_normal()[1] == 0 <==> face.spec_face_name() == "side"@,
{
    reveal_strlit("top");
    reveal_strlit("bottom");
    reveal_strlit("side");
    assert("top"@.len() == 3 && "bottom"@.len() == 6 && "side"@.len() == 4);
}

} // verus!

//! Vertices in eight bytes.
//!
//! The first word holds x, y and z with ten bits each and two bits of the
//! direction; the second holds u and v with eight bits each and sixteen bits of
//! the model.

use crate::face;
use vstd::prelude::*;

verus! {

/// One of the six directions of a face.
#[derive(Debug, Clone, Copy, PartialEq, Eq, Hash, Structural)]
pub enum NormalDirection {
    Right,
    Left,
    Up,
    Down,
    Front,
    Back,
}

/// The size of a number.
pub open spec fn size_of(v: int) -> int {
    if v >= 0 {
        v
    } else {
        -v
    }
}

/// The size of a number.
fn magnitude(v: i32) -> (r: i64)
    ensures
        r == size_of(v as int),
{
    if v >= 0 {
        v as i64
    } else {
        -(v as i64)
    }
}

impl NormalDirection {
    /// The number of the direction.
    pub open spec fn spec_number(self) -> int {
        match self {
            NormalDirection::Right => 0,
            NormalDirection::Left => 1,
            NormalDirection::Up => 2,
            NormalDirection::Down => 3,
            NormalDirection::Front => 4,
            NormalDirection::Back => 5,
        }
    }

    /// The number of the direction.
    pub fn number(self) -> (r: u32)
        ensures
            r == self.spec_number(),
            r < 6,
    {
        match self {
            NormalDirection::Right => 0,
            NormalDirection::Left => 1,
            NormalDirection::Up => 2,
            NormalDirection::Down => 3,
            NormalDirection::Front => 4,
            NormalDirection::Back => 5,
        }
    }

    /// The direction in which a vector mostly points: along x if its x is larger
    /// than the others, else along y if its y is larger than its z, else along z.
    pub open spec fn spec_from_normal(nx: int, ny: int, nz: int) -> NormalDirection {
        if size_of(nx) > size_of(ny) && size_of(nx) > size_of(nz) {
            if nx > 0 {
                NormalDirection::Right
            } else {
                NormalDirection::Left
            }
        } else if size_of(ny) > size_of(nz) {
            if ny > 0 {
                NormalDirection::Up
            } else {
                NormalDirection::Down
            }
        } else {
            if nz > 0 {
                NormalDirection::Front
            } else {
                NormalDirection::Back
            }
        }
    }

    /// The direction in which a vector mostly points. The components are given
    /// in any common unit.
    pub fn from_normal(nx: i32, ny: i32, nz: i32) -> (r: Self)
        ensures
            r == Self::spec_from_normal(nx as int, ny as int, nz as int),
    {
        let (ax, ay, az) = (magnitude(nx), magnitude(ny), magnitude(nz));
        if ax > ay && ax > az {
            if nx > 0 {
                NormalDirection::Right
            } else {
                NormalDirection::Left
            }
        } else if ay > az {
            if ny > 0 {
                NormalDirection::Up
            } else {
                NormalDirection::Down
            }
        } else {
            if nz > 0 {
                NormalDirection::Front
            } else {
                NormalDirection::Back
            }
        }
    }

    /// The unit vector of the direction.
    pub open spec fn spec_to_normal(self) -> (int, int, int) {
        match self {
            NormalDirection::Right => (1, 0, 0),
            NormalDirection::Left => (-1, 0, 0),
            NormalDirection::Up => (0, 1, 0),
            NormalDirection::Down => (0, -1, 0),
            NormalDirection::Front => (0, 0, 1),
            NormalDirection::Back => (0, 0, -1),
        }
    }

    /// The unit vector of the direction.
    pub fn to_normal(&self) -> (r: [i32; 3])
        ensures
            (r@[0] as int, r@[1] as int, r@[2] as int) == self.spec_to_normal(),
    {
        match self {
            NormalDirection::Right => [1, 0, 0],
            NormalDirection::Left => [-1, 0, 0],
            NormalDirection::Up => [0, 1, 0],
            NormalDirection::Down => [0, -1, 0],
            NormalDirection::Front => [0, 0, 1],
            NormalDirection::Back => [0, 0, -1],
        }
    }
}

/// A direction is found again from its unit vector.
pub proof fn law_normal_round_trip(d: NormalDirection)
    ensures
        NormalDirection::spec_from_normal(
            d.spec_to_normal().0,
            d.spec_to_normal().1,
            d.spec_to_normal().2,
        ) == d,
{
}

/// A vertex in eight bytes.
#[derive(Debug, Clone, Copy, PartialEq, Eq, Structural)]
pub struct CompactVertex {
    /// Position and direction.
    pub data0: u32,
    /// Texture coordinates and model.
    pub data1: u32,
}

impl CompactVertex {
    /// The vertex that holds these numbers. Of each coordinate the low ten bits
    /// are kept, and of the direction's number the low two.
    pub open spec fn spec_new(
        x: int,
        y: int,
        z: int,
        normal: NormalDirection,
        u: int,
        v: int,
        model_id: int,
    ) -> (int, int) {
        (
            x % 1024 + (y % 1024) * 0x400 + (z % 1024) * 0x10_0000 + (normal.spec_number() % 4)
                * 0x4000_0000,
            u + v * 0x100 + model_id * 0x1_0000,
        )
    }

    /// Packs a vertex.
    pub fn new(
        x: u16,
        y: u16,
        z: u16,
        normal: NormalDirection,
        u: u8,
        v: u8,
        model_id: u16,
    ) -> (r: Self)
        ensures
            (r.data0 as int, r.data1 as int) == Self::spec_new(
                x as int,
                y as int,
                z as int,
                normal,
                u as int,
                v as int,
                model_id as int,
            ),
    {
        let data0: u32 = (x % 1024) as u32 + (y % 1024) as u32 * 0x400 + (z % 1024) as u32
            * 0x10_0000 + (normal.number() % 4) * 0x4000_0000;
        let data1: u32 = u as u32 + v as u32 * 0x100 + model_id as u32 * 0x1_0000;
        Self { data0, data1 }
    }

    /// The x coordinate.
    pub fn x(&self) -> (r: u16)
        ensures
            r == self.data0 as int % 1024,
    {
        (self.data0 % 1024) as u16
    }

    /// The y coordinate.
    pub fn y(&self) -> (r: u16)
        ensures
            r == (self.data0 as int / 0x400) % 1024,
    {
        ((self.data0 / 0x400) % 1024) as u16
    }

    /// The z coordinate.
    pub fn z(&self) -> (r: u16)
        ensures
            r == (self.data0 as int / 0x10_0000) % 1024,
    {
        ((self.data0 / 0x10_0000) % 1024) as u16
    }

    /// The direction that two bits stand for.
    pub open spec fn spec_direction(&self) -> NormalDirection {
        let d = self.data0 as int / 0x4000_0000;
        if d == 0 {
            NormalDirection::Right
        } else if d == 1 {
            NormalDirection::Left
        } else if d == 2 {
            NormalDirection::Up
        } else {
            NormalDirection::Down
        }
    }

    /// The direction.
    pub fn normal_direction(&self) -> (r: NormalDirection)
        ensures
            r == self.spec_direction(),
    {
        match self.data0 / 0x4000_0000 {
            0 => NormalDirection::Right,
            1 => NormalDirection::Left,
            2 => NormalDirection::Up,
            _ => NormalDirection::Down,
        }
    }

    /// The unit vector of the direction.
    pub fn normal(&self) -> (r: [i32; 3])
        ensures
            (r@[0] as int, r@[1] as int, r@[2] as int) == self.spec_direction().spec_to_normal(),
    {
        self.normal_direction().to_normal()
    }

    /// The u coordinate, from 0 to 255.
    pub fn u_byte(&self) -> (r: u8)
        ensures
            r == self.data1 as int % 256,
    {
        (self.data1 % 256) as u8
    }

    /// The v coordinate, from 0 to 255.
    pub fn v_byte(&self) -> (r: u8)
        ensures
            r == (self.data1 as int / 256) % 256,
    {
        ((self.data1 / 256) % 256) as u8
    }

    /// The model.
    pub fn model_id(&self) -> (r: u16)
        ensures
            r == self.data1 as int / 0x1_0000,
    {
        (self.data1 / 0x1_0000) as u16
    }
}

/// What is packed is read back: coordinates up to 1023, texture coordinates and
/// model always, and the first four directions.
pub proof fn law_vertex_round_trip(
    w: CompactVertex,
    x: int,
    y: int,
    z: int,
    normal: NormalDirection,
    u: int,
    v: int,
    model_id: int,
)
    requires
        0 <= x < 1024,
        0 <= y < 1024,
        0 <= z < 1024,
        0 <= u < 256,
        0 <= v < 256,
        0 <= model_id < 65536,
        (w.data0 as int, w.data1 as int) == CompactVertex::spec_new(
            x,
            y,
            z,
            normal,
            u,
            v,
            model_id,
        ),
    ensures
        w.data0 as int % 1024 == x,
        (w.data0 as int / 0x400) % 1024 == y,
        (w.data0 as int / 0x10_0000) % 1024 == z,
        w.data1 as int % 256 == u,
        (w.data1 as int / 256) % 256 == v,
        w.data1 as int / 0x1_0000 == model_id,
        normal.spec_number() < 4 ==> w.spec_direction() == normal,
{
    law_packed_parts_are_apart(x, y, z, normal, u, v, model_id);
}

/// A mesh of compact vertices.
#[derive(Debug)]
pub struct CompactMeshData {
    pub vertices: Vec<CompactVertex>,
    pub indices: Vec<u32>,
    pub triangle_count: u32,
}

/// A vertex before it is packed: the position in 32nds of a block, the
/// direction, and the texture coordinates in 255ths.
#[derive(Debug, Clone, Copy, PartialEq, Eq)]
pub struct VertexParts {
    pub x: u16,
    pub y: u16,
    pub z: u16,
    pub normal: NormalDirection,
    pub u: u8,
    pub v: u8,
}

impl CompactMeshData {
    /// A mesh of nothing.
    pub fn new() -> (r: Self)
        ensures
            r.vertices@.len() == 0,
            r.indices@.len() == 0,
            r.triangle_count == 0,
    {
        Self { vertices: Vec::new(), indices: Vec::new(), triangle_count: 0 }
    }

    /// Whether the mesh has no vertices.
    pub fn is_empty(&self) -> (r: bool)
        ensures
            r == (self.vertices@.len() == 0),
    {
        self.vertices.len() == 0
    }

    /// Packs a mesh.
    pub fn from_parts(parts: &Vec<VertexParts>, indices: &Vec<u32>, model_id: u16) -> (r: Self)
        requires
            indices@.len() <= u32::MAX,
        ensures
            r.vertices@.len() == parts@.len(),
            forall|i: int|
                0 <= i < parts@.len() ==> ((#[trigger] r.vertices@[i]).data0 as int,
                    r.vertices@[i].data1 as int) == CompactVertex::spec_new(
                    parts@[i].x as int,
                    parts@[i].y as int,
                    parts@[i].z as int,
                    parts@[i].normal,
                    parts@[i].u as int,
                    parts@[i].v as int,
                    model_id as int,
                ),
            r.indices@ == indices@,
            r.triangle_count == indices@.len() / 3,
    {
        let mut vertices: Vec<CompactVertex> = Vec::new();
        let mut i: usize = 0;
        while i < parts.len()
            invariant
                i <= parts@.len(),
                vertices@.len() == i,
                forall|k: int|
                    0 <= k < i ==> ((#[trigger] vertices@[k]).data0 as int, vertices@[k].data1
                        as int) == CompactVertex::spec_new(
                        parts@[k].x as int,
                        parts@[k].y as int,
                        parts@[k].z as int,
                        parts@[k].normal,
                        parts@[k].u as int,
                        parts@[k].v as int,
                        model_id as int,
                    ),
            decreases parts@.len() - i,
        {
            let p: &VertexParts = &parts[i];
            vertices.push(CompactVertex::new(p.x, p.y, p.z, p.normal, p.u, p.v, model_id));
            i = i + 1;
        }
        let mut copied: Vec<u32> = Vec::new();
        let mut j: usize = 0;
        while j < indices.len()
            invariant
                j <= indices@.len(),
                copied@ =~= indices@.take(j as int),
            decreases indices@.len() - j,
        {
            copied.push(indices[j]);
            j = j + 1;
        }
        assert(indices@.take(j as int) =~= indices@);
        Self { vertices, indices: copied, triangle_count: (indices.len() / 3) as u32 }
    }

    /// Unpacks the vertices.
    pub fn to_parts(&self) -> (r: Vec<VertexParts>)
        ensures
            r@.len() == self.vertices@.len(),
            forall|i: int|
                0 <= i < r@.len() ==> {
                    let w = self.vertices@[i];
                    let p = #[trigger] r@[i];
                    &&& p.x == w.data0 as int % 1024
                    &&& p.y == (w.data0 as int / 0x400) % 1024
                    &&& p.z == (w.data0 as int / 0x10_0000) % 1024
                    &&& p.normal == w.spec_direction()
                    &&& p.u == w.data1 as int % 256
                    &&& p.v == (w.data1 as int / 256) % 256
                },
    {
        let mut out: Vec<VertexParts> = Vec::new();
        let mut i: usize = 0;
        while i < self.vertices.len()
            invariant
                i <= self.vertices@.len(),
                out@.len() == i,
                forall|k: int|
                    0 <= k < i ==> {
                        let w = self.vertices@[k];
                        let p = #[trigger] out@[k];
                        &&& p.x == w.data0 as int % 1024
                        &&& p.y == (w.data0 as int / 0x400) % 1024
                        &&& p.z == (w.data0 as int / 0x10_0000) % 1024
                        &&& p.normal == w.spec_direction()
                        &&& p.u == w.data1 as int % 256
                        &&& p.v == (w.data1 as int / 256) % 256
                    },
            decreases self.vertices@.len() - i,
        {
            let w: CompactVertex = self.vertices[i];
            out.push(
                VertexParts {
                    x: w.x(),
                    y: w.y(),
                    z: w.z(),
                    normal: w.normal_direction(),
                    u: w.u_byte(),
                    v: w.v_byte(),
                },
            );
            i = i + 1;
        }
        out
    }
}

/// The direction of a vector is the one along which it reaches farthest: no component is
/// larger than what the vector has along it. Where several are as large, z comes before y
/// and y before x.
pub proof fn law_direction_of_a_vector(nx: int, ny: int, nz: int)
    ensures
        ({
            let d = NormalDirection::spec_from_normal(nx, ny, nz).spec_to_normal();
            let along = if d.0 != 0 {
                d.0 * nx
            } else if d.1 != 0 {
                d.1 * ny
            } else {
                d.2 * nz
            };
            &&& -along <= nx <= along
            &&& -along <= ny <= along
            &&& -along <= nz <= along
            &&& (nz == along || nz == -along) ==> d.2 != 0
            &&& nz != along && nz != -along && (ny == along || ny == -along) ==> d.1 != 0
        }),
{
    let d = NormalDirection::spec_from_normal(nx, ny, nz).spec_to_normal();
    assert(1 * nx == nx && (-1) * nx == -nx && 1 * ny == ny && (-1) * ny == -ny && 1 * nz == nz && (
    -1) * nz == -nz);
}

/// The directions are numbered as the faces of a block are listed.
pub proof fn law_directions_numbered_as_faces(d: NormalDirection)
    ensures
        0 <= d.spec_number() < 6,
        ({
            let n = face::spec_face(d.spec_number()).spec_normal();
            d.spec_to_normal() == (n[0] as int, n[1] as int, n[2] as int)
        }),
{
}

/// Coordinates, texture coordinates and model do not touch one another in a packed vertex:
/// another value of one of them leaves what is read of the others as it is.
pub proof fn law_packed_parts_are_apart(
    x: int,
    y: int,
    z: int,
    normal: NormalDirection,
    u: int,
    v: int,
    model_id: int,
)
    requires
        0 <= u < 256,
        0 <= v < 256,
        0 <= model_id < 65536,
    ensures
        ({
            let w = CompactVertex::spec_new(x, y, z, normal, u, v, model_id);
            &&& w.0 % 1024 == x % 1024
            &&& (w.0 / 1024) % 1024 == y % 1024
            &&& (w.0 / 0x10_0000) % 1024 == z % 1024
            &&& w.0 / 0x4000_0000 == normal.spec_number() % 4
            &&& 0 <= w.0 < 0x1_0000_0000
            &&& w.1 % 256 == u
            &&& (w.1 / 256) % 256 == v
            &&& w.1 / 0x1_0000 == model_id
        }),
{
    let w = CompactVertex::spec_new(x, y, z, normal, u, v, model_id);
    let (a, b, c, d) = (x % 1024, y % 1024, z % 1024, normal.spec_number() % 4);
    assert(w.0 == a + 1024 * (b + 1024 * (c + 1024 * d)));
    assert(w.0 % 1024 == a && w.0 / 1024 == b + 1024 * (c + 1024 * d));
    assert(w.0 / 0x10_0000 == c + 1024 * d);
    assert(w.0 / 0x4000_0000 == d);
    assert(w.1 == u + 256 * (v + 256 * model_id));
}

} // verus!

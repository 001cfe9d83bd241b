//! Sections: cubes of 32 x 32 x 32 voxels.

use crate::bits;
use crate::svo::config::{SECTION_SIZE, SECTION_VOLUME};
use crate::svo::position;
use crate::svo::position::{decode_x, decode_y, decode_z, encode_position};
use vstd::prelude::*;

verus! {

/// The packed position of a section.
pub type SectionId = u64;

/// A voxel: 0 for air, else the kind of block.
pub type Voxel = u16;

/// Where a section lies, counted in sections.
#[derive(Debug, Clone, Copy, PartialEq, Eq, Hash, Structural)]
pub struct SectionCoord {
    pub x: i32,
    pub y: i32,
    pub z: i32,
}

impl SectionCoord {
    /// A coordinate.
    pub fn new(x: i32, y: i32, z: i32) -> (r: Self)
        ensures
            r == (SectionCoord { x, y, z }),
    {
        Self { x, y, z }
    }

    /// The packed position, as a number.
    pub open spec fn spec_encode(self) -> int {
        position::spec_encode(0, self.x as int, self.y as int, self.z as int)
    }

    /// The packed position at level 0.
    pub fn encode(&self) -> (r: SectionId)
        ensures
            r == self.spec_encode(),
    {
        encode_position(0, self.x, self.y, self.z)
    }

    /// The coordinate of a packed position.
    pub fn decode(id: SectionId) -> (r: Self)
        ensures
            r.x == position::spec_x(id),
            r.y == position::spec_y(id),
            r.z == position::spec_z(id),
    {
        Self { x: decode_x(id), y: decode_y(id), z: decode_z(id) }
    }
}

/// The place of a voxel in a section.
pub open spec fn voxel_index(x: int, y: int, z: int) -> int {
    (z * 32 + x) * 32 + y
}

/// How many of the first `n` voxels are not air.
pub open spec fn count_solid(v: Seq<Voxel>, n: int) -> int
    decreases n,
{
    if n <= 0 {
        0
    } else {
        count_solid(v, n - 1) + if v[n - 1] != 0 {
            1int
        } else {
            0
        }
    }
}

/// How changing one voxel changes the count.
proof fn lemma_count_update(v: Seq<Voxel>, i: int, value: Voxel, n: int)
    requires
        0 <= i < v.len(),
        0 <= n <= v.len(),
    ensures
        count_solid(v.update(i, value), n) == count_solid(v, n) + (if i < n {
            (if value != 0 {
                1int
            } else {
                0
            }) - (if v[i] != 0 {
                1int
            } else {
                0
            })
        } else {
            0
        }),
    decreases n,
{
    if n > 0 {
        lemma_count_update(v, i, value, n - 1);
    }
}

/// The count is a number of voxels, and none where all are air.
proof fn lemma_count_bounds(v: Seq<Voxel>, n: int)
    requires
        0 <= n <= v.len(),
    ensures
        0 <= count_solid(v, n) <= n,
    decreases n,
{
    if n > 0 {
        lemma_count_bounds(v, n - 1);
    }
}

/// A voxel that is not air is counted.
proof fn lemma_count_positive(v: Seq<Voxel>, i: int, n: int)
    requires
        0 <= i < n <= v.len(),
        v[i] != 0,
    ensures
        count_solid(v, n) >= 1,
    decreases n,
{
    lemma_count_bounds(v, n - 1);
    if i < n - 1 {
        lemma_count_positive(v, i, n - 1);
    }
}

/// A voxel lies in octant `k` of a section: bit 2 of the octant is its half in
/// z, bit 1 in x and bit 0 in y.
pub open spec fn in_octant(k: int, x: int, y: int, z: int) -> bool {
    z / 16 == k / 4 && x / 16 == (k / 2) % 2 && y / 16 == k % 2
}

/// Some voxel of octant `k` is not air.
pub open spec fn octant_filled(v: Seq<Voxel>, k: int) -> bool {
    exists|x: int, y: int, z: int|
        0 <= x < 32 && 0 <= y < 32 && 0 <= z < 32 && in_octant(k, x, y, z) && #[trigger] voxel_at(
            v,
            x,
            y,
            z,
        ) != 0
}

/// The voxel at a place.
pub open spec fn voxel_at(v: Seq<Voxel>, x: int, y: int, z: int) -> Voxel {
    v[voxel_index(x, y, z)]
}

/// A section.
pub struct Section {
    pub coord: SectionCoord,
    pub voxels: Vec<Voxel>,
    /// Which octants hold more than air, as of the last recalculation.
    pub non_empty_children: u8,
    /// How many voxels are not air.
    pub solid_count: u32,
    pub ref_count: u32,
    pub is_dirty: bool,
}

impl Section {
    /// The section has all its voxels, and the count is right.
    pub open spec fn wf(&self) -> bool {
        &&& self.voxels@.len() == SECTION_VOLUME
        &&& self.solid_count == count_solid(self.voxels@, SECTION_VOLUME as int)
    }

    /// The mask of octants is right.
    pub open spec fn octants_known(&self) -> bool {
        forall|k: int|
            0 <= k < 8 ==> #[trigger] bits::bit(self.non_empty_children as u64, k)
                == octant_filled(self.voxels@, k)
    }

    /// A section of air that is in use once and counts as changed.
    pub fn new(coord: SectionCoord) -> (r: Self)
        ensures
            r.wf(),
            r.coord == coord,
            r.voxels@ == Seq::new(SECTION_VOLUME as nat, |i: int| 0u16),
            r.non_empty_children == 0,
            r.octants_known(),
            r.solid_count == 0,
            r.ref_count == 1,
            r.is_dirty,
    {
        let voxels: Vec<Voxel> = vec![0u16; 32768];
        proof {
            assert(voxels@ =~= Seq::new(SECTION_VOLUME as nat, |i: int| 0u16));
            lemma_count_air(voxels@, SECTION_VOLUME as int);
            bits::lemma_bit_constants();
        }
        Self { coord, voxels, non_empty_children: 0, solid_count: 0, ref_count: 1, is_dirty: true }
    }

    /// The voxel at a place.
    pub fn get_voxel(&self, x: u32, y: u32, z: u32) -> (r: Voxel)
        requires
            self.wf(),
            x < SECTION_SIZE,
            y < SECTION_SIZE,
            z < SECTION_SIZE,
        ensures
            r == voxel_at(self.voxels@, x as int, y as int, z as int),
    {
        let idx: u32 = (z * SECTION_SIZE + x) * SECTION_SIZE + y;
        self.voxels[idx as usize]
    }

    /// Sets the voxel at a place. The section counts as changed if the voxel
    /// was another.
    pub fn set_voxel(&mut self, x: u32, y: u32, z: u32, value: Voxel)
        requires
            old(self).wf(),
            x < SECTION_SIZE,
            y < SECTION_SIZE,
            z < SECTION_SIZE,
        ensures
            final(self).wf(),
            final(self).voxels@ == old(self).voxels@.update(
                voxel_index(x as int, y as int, z as int),
                value,
            ),
            final(self).is_dirty == (old(self).is_dirty || voxel_at(
                old(self).voxels@,
                x as int,
                y as int,
                z as int,
            ) != value),
            final(self).coord == old(self).coord,
            final(self).non_empty_children == old(self).non_empty_children,
            final(self).ref_count == old(self).ref_count,
    {
        let idx: usize = ((z * SECTION_SIZE + x) * SECTION_SIZE + y) as usize;
        let ghost before = self.voxels@;
        proof {
            lemma_count_update(before, idx as int, value, SECTION_VOLUME as int);
            lemma_count_bounds(before, SECTION_VOLUME as int);
            lemma_count_bounds(before.update(idx as int, value), SECTION_VOLUME as int);
        }
        let old_value: Voxel = self.voxels[idx];
        if old_value != value {
            self.voxels.set(idx, value);
            self.is_dirty = true;
            if old_value == 0 && value != 0 {
                self.solid_count = self.solid_count + 1;
            } else if old_value != 0 && value == 0 {
                self.solid_count = self.solid_count - 1;
            }
        } else {
            assert(before.update(idx as int, value) =~= before);
        }
    }

    /// Replaces all voxels.
    pub fn set_voxels(&mut self, data: &[Voxel])
        requires
            data@.len() == SECTION_VOLUME,
        ensures
            final(self).wf(),
            final(self).voxels@ == data@,
            final(self).octants_known(),
            final(self).is_dirty,
            final(self).coord == old(self).coord,
            final(self).ref_count == old(self).ref_count,
    {
        let mut voxels: Vec<Voxel> = Vec::new();
        let mut i: usize = 0;
        while i < data.len()
            invariant
                i <= data@.len(),
                voxels@ =~= data@.take(i as int),
            decreases data@.len() - i,
        {
            voxels.push(data[i]);
            i = i + 1;
        }
        assert(data@.take(i as int) =~= data@);
        self.voxels = voxels;
        self.is_dirty = true;
        self.recalc_metadata();
    }

    /// Whether some voxel of octant `k` is not air.
    fn octant_has_solid(&self, k: u32) -> (r: bool)
        requires
            self.voxels@.len() == SECTION_VOLUME,
            k < 8,
        ensures
            r == octant_filled(self.voxels@, k as int),
    {
        let half: u32 = SECTION_SIZE / 2;
        let z_start: u32 = (k / 4) * half;
        let x_start: u32 = ((k / 2) % 2) * half;
        let y_start: u32 = (k % 2) * half;
        let mut i: u32 = 0;
        while i < 4096
            invariant
                i <= 4096,
                k < 8,
                half == 16,
                z_start == (k / 4) * 16,
                x_start == ((k / 2) % 2) * 16,
                y_start == (k % 2) * 16,
                self.voxels@.len() == SECTION_VOLUME,
                forall|j: int|
                    0 <= j < i ==> #[trigger] cell_voxel(
                        self.voxels@,
                        x_start as int,
                        y_start as int,
                        z_start as int,
                        j,
                    ) == 0,
            decreases 4096 - i,
        {
            let z: u32 = z_start + i / 256;
            let x: u32 = x_start + (i / 16) % 16;
            let y: u32 = y_start + i % 16;
            let idx: u32 = (z * SECTION_SIZE + x) * SECTION_SIZE + y;
            assert(self.voxels@[idx as int] == cell_voxel(
                self.voxels@,
                x_start as int,
                y_start as int,
                z_start as int,
                i as int,
            ));
            if self.voxels[idx as usize] != 0 {
                proof {
                    assert(in_octant(k as int, x as int, y as int, z as int));
                    assert(voxel_at(self.voxels@, x as int, y as int, z as int) != 0);
                }
                return true;
            }
            i = i + 1;
        }
        proof {
            if octant_filled(self.voxels@, k as int) {
                let (x, y, z) = choose|x: int, y: int, z: int|
                    0 <= x < 32 && 0 <= y < 32 && 0 <= z < 32 && in_octant(k as int, x, y, z)
                        && #[trigger] voxel_at(self.voxels@, x, y, z) != 0;
                let (dx, dy, dz) = (x - x_start, y - y_start, z - z_start);
                let j = dz * 256 + dx * 16 + dy;
                assert(0 <= dx < 16 && 0 <= dy < 16 && 0 <= dz < 16);
                assert(j / 256 == dz && (j / 16) % 16 == dx && j % 16 == dy);
                assert(cell_voxel(
                    self.voxels@,
                    x_start as int,
                    y_start as int,
                    z_start as int,
                    j,
                ) == 0);
            }
        }
        false
    }

    /// Counts the voxels that are not air, and finds the octants that hold some.
    pub fn recalc_metadata(&mut self)
        requires
            old(self).voxels@.len() == SECTION_VOLUME,
        ensures
            final(self).wf(),
            final(self).octants_known(),
            final(self).voxels@ == old(self).voxels@,
            final(self).is_dirty == old(self).is_dirty,
            final(self).coord == old(self).coord,
            final(self).ref_count == old(self).ref_count,
    {
        let mut count: u32 = 0;
        let mut i: usize = 0;
        while i < SECTION_VOLUME
            invariant
                i <= SECTION_VOLUME,
                self.voxels@.len() == SECTION_VOLUME,
                count == count_solid(self.voxels@, i as int),
                count <= i,
            decreases SECTION_VOLUME - i,
        {
            if self.voxels[i] != 0 {
                count = count + 1;
            }
            i = i + 1;
        }
        let mut mask: u64 = 0;
        let mut k: u32 = 0;
        proof {
            bits::lemma_bit_constants();
        }
        while k < 8
            invariant
                k <= 8,
                mask < 256,
                self.voxels@.len() == SECTION_VOLUME,
                forall|j: int|
                    0 <= j < 64 ==> #[trigger] bits::bit(mask, j) == (j < k && octant_filled(
                        self.voxels@,
                        j,
                    )),
            decreases 8 - k,
        {
            if self.octant_has_solid(k) {
                let bit: u64 = k as u64;
                proof {
                    bits::lemma_bit_set(mask, bit);
                    bits::lemma_byte_bit_set(mask, bit);
                }
                mask = mask | (1u64 << bit);
            }
            k = k + 1;
        }
        self.solid_count = count;
        self.non_empty_children = mask as u8;
    }

    /// Notes one more use.
    pub fn acquire(&mut self)
        requires
            old(self).ref_count < u32::MAX,
        ensures
            *final(self) == (Section {
                ref_count: (old(self).ref_count + 1) as u32,
                ..*old(self)
            }),
    {
        self.ref_count = self.ref_count + 1;
    }

    /// Notes one use less; returns whether the section is no longer in use.
    pub fn release(&mut self) -> (r: bool)
        requires
            old(self).ref_count >= 1,
        ensures
            *final(self) == (Section {
                ref_count: (old(self).ref_count - 1) as u32,
                ..*old(self)
            }),
            r == (final(self).ref_count == 0),
    {
        self.ref_count = self.ref_count - 1;
        self.ref_count == 0
    }
}

/// The voxel with number `j` of an octant.
spec fn cell_voxel(v: Seq<Voxel>, x0: int, y0: int, z0: int, j: int) -> Voxel {
    voxel_at(v, x0 + (j / 16) % 16, y0 + j % 16, z0 + j / 256)
}

/// Air is not counted.
proof fn lemma_count_air(v: Seq<Voxel>, n: int)
    requires
        0 <= n <= v.len(),
        forall|i: int| 0 <= i < v.len() ==> #[trigger] v[i] == 0,
    ensures
        count_solid(v, n) == 0,
    decreases n,
{
    if n > 0 {
        lemma_count_air(v, n - 1);
    }
}

/// A section has no counted voxel exactly if it is all air.
pub proof fn law_count_zero_is_air(s: Section)
    requires
        s.wf(),
    ensures
        s.solid_count == 0 <==> forall|i: int|
            0 <= i < SECTION_VOLUME ==> #[trigger] s.voxels@[i] == 0,
{
    if s.solid_count == 0 {
        assert forall|i: int| 0 <= i < SECTION_VOLUME implies #[trigger] s.voxels@[i] == 0 by {
            if s.voxels@[i] != 0 {
                lemma_count_positive(s.voxels@, i, SECTION_VOLUME as int);
            }
        }
    } else {
        if forall|i: int| 0 <= i < SECTION_VOLUME ==> #[trigger] s.voxels@[i] == 0 {
            lemma_count_air(s.voxels@, SECTION_VOLUME as int);
        }
    }
}

/// Reading back a section's packed position gives its coordinate, as long as it
/// fits.
pub proof fn law_section_position(c: SectionCoord)
    requires
        position::fits20(c.x as int),
        position::fits20(c.y as int),
        position::fits20(c.z as int),
    ensures
        0 <= c.spec_encode() <= u64::MAX,
        position::spec_x(c.spec_encode() as u64) == c.x,
        position::spec_y(c.spec_encode() as u64) == c.y,
        position::spec_z(c.spec_encode() as u64) == c.z,
{
    position::law_decode_encode(0, c.x as int, c.y as int, c.z as int);
}

/// The voxels of a section are listed column by column from below, first along y, then along
/// x, then along z, and no two have the same place.
pub proof fn law_voxels_in_order(v: Seq<Voxel>, x: int, y: int, z: int, a: int, b: int, c: int)
    requires
        0 <= x < 32,
        0 <= y < 32,
        0 <= z < 32,
        0 <= a < 32,
        0 <= b < 32,
        0 <= c < 32,
    ensures
        voxel_at(v, x, y, z) == v[y + 32 * (x + 32 * z)],
        0 <= voxel_index(x, y, z) < 32 * 32 * 32,
        voxel_index(x, y, z) == voxel_index(a, b, c) ==> x == a && y == b && z == c,
{
}

/// Every voxel lies in one octant, and an octant is half a section along each axis: bit 0 of
/// its number tells the halves along y apart, bit 1 those along x, and bit 2 those along z.
pub proof fn law_octants_are_halves(k: int, x: int, y: int, z: int)
    requires
        0 <= x < 32,
        0 <= y < 32,
        0 <= z < 32,
        0 <= k < 8,
    ensures
        in_octant(k, x, y, z) <==> k == (if y >= 16 {
            1int
        } else {
            0
        }) + (if x >= 16 {
            2int
        } else {
            0
        }) + (if z >= 16 {
            4int
        } else {
            0
        }),
{
}

/// A voxel that is set to something else than air where there was air is one more that
/// counts, one that becomes air is one less, and else the count stays; the count of none
/// is zero.
pub proof fn law_count_follows_voxels(v: Seq<Voxel>, i: int, value: Voxel)
    requires
        v.len() == 32768,
        0 <= i < 32768,
    ensures
        count_solid(v.update(i, value), 32768) - count_solid(v, 32768) == (if value != 0 {
            1int
        } else {
            0
        }) - (if v[i] != 0 {
            1int
        } else {
            0
        }),
        0 <= count_solid(v, 32768) <= 32768,
        count_solid(v, 0) == 0,
{
    lemma_count_update(v, i, value, 32768);
    lemma_count_bounds(v, 32768);
}

} // verus!

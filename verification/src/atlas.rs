//! Places of textures in one large picture.

use crate::face::Face;
use vstd::prelude::*;

verus! {

/// The edge length of a texture in pixels.
pub const TILE_SIZE_PX: u32 = 32;

/// The width of the picture in pixels.
pub const ATLAS_WIDTH_PX: u32 = 250;

/// The height of the picture in pixels.
pub const ATLAS_HEIGHT_PX: u32 = 1000;

/// The place of a texture.
#[derive(Clone, Copy, Debug, PartialEq, Eq, Structural)]
pub struct AtlasSlot {
    pub col: u32,
    pub row: u32,
}

impl AtlasSlot {
    /// The texture's rectangle in pixels: left, right, top, bottom.
    pub fn pixel_rect(&self) -> (r: (u32, u32, u32, u32))
        requires
            (self.col + 1) * 32 <= u32::MAX,
            (self.row + 1) * 32 <= u32::MAX,
        ensures
            r.0 == self.col * 32,
            r.1 == (self.col + 1) * 32,
            r.2 == self.row * 32,
            r.3 == (self.row + 1) * 32,
    {
        (
            self.col * TILE_SIZE_PX,
            (self.col + 1) * TILE_SIZE_PX,
            self.row * TILE_SIZE_PX,
            (self.row + 1) * TILE_SIZE_PX,
        )
    }
}

/// The place of a face of a grass block: grass on top, earth below, and a side
/// of its own.
pub fn grass_slot(face: Face) -> (r: AtlasSlot)
    ensures
        r == match face {
            Face::Top => AtlasSlot { col: 0, row: 0 },
            Face::Bottom => AtlasSlot { col: 0, row: 1 },
            _ => AtlasSlot { col: 1, row: 0 },
        },
{
    match face {
        Face::Top => AtlasSlot { col: 0, row: 0 },
        Face::Bottom => AtlasSlot { col: 0, row: 1 },
        _ => AtlasSlot { col: 1, row: 0 },
    }
}

/// The place of a face of a dirt block: one for top and bottom and one for the
/// sides.
pub fn dirt_slot(face: Face) -> (r: AtlasSlot)
    ensures
        r == match face {
            Face::Top | Face::Bottom => AtlasSlot { col: 0, row: 1 },
            _ => AtlasSlot { col: 1, row: 1 },
        },
{
    match face {
        Face::Top | Face::Bottom => AtlasSlot { col: 0, row: 1 },
        _ => AtlasSlot { col: 1, row: 1 },
    }
}

/// The place of a face of a stone block: the same for all.
pub fn stone_slot(_face: Face) -> (r: AtlasSlot)
    ensures
        r == (AtlasSlot { col: 2, row: 0 }),
{
    AtlasSlot { col: 2, row: 0 }
}

} // verus!

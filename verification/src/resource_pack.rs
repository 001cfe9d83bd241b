//! Textures: how they are kept, saved, and laid out in layers.

use crate::block_definition::BlockDefinition;
use crate::face::Face;
use crate::mesh::{UvCoord, UvLookupTable};
use crate::text;
use image::ImageEncoder;
use std::collections::HashMap;
use vstd::arithmetic::div_mod::lemma_fundamental_div_mod_converse;
use vstd::prelude::*;
use vstd::std_specs::hash::*;
use vstd::string::*;

verus! {

broadcast use vstd::std_specs::hash::group_hash_axioms;

/// What can go wrong with a texture pack.
#[derive(Debug, Clone, Copy, PartialEq, Eq, Structural)]
pub enum PackError {
    /// There is no texture.
    NoTextures,
    /// The bytes are no PNG file that can be read.
    Undecodable,
    /// The pixels cannot be written as a PNG file.
    Unencodable,
}

/// A picture: four bytes for each pixel, row by row.
#[derive(Debug)]
pub struct Texture {
    pub name: String,
    pub pixels: Vec<u8>,
    pub width: u32,
    pub height: u32,
}

/// The errors of the `image` crate, `image::ImageError`. Nothing is said of what
/// is in one.
#[verifier::external_type_specification]
#[verifier::external_body]
pub struct ExImageError(image::ImageError);

/// The pixels, the width and the height of the picture in a PNG file.
pub uninterp spec fn png_decoded(bytes: Seq<u8>) -> Option<(Seq<u8>, u32, u32)>;

/// How many bytes of pixels are read of a PNG file at most.
pub const PNG_READ_LIMIT: u64 = 0x2000_0000;

/// Reads a PNG file.
///
/// The picture comes from `image::load_from_memory_with_format` and
/// `to_rgba8`: whether there is one, and which, is a function of the bytes, and it
/// has four bytes for each pixel.
#[verifier::external_body]
fn decode_png(bytes: &Vec<u8>) -> (r: Result<(Vec<u8>, u32, u32), image::ImageError>)
    ensures
        match r {
            Ok(p) => png_decoded(bytes@) == Some((p.0@, p.1, p.2)) && p.0@.len() == p.1 * p.2 * 4,
            Err(_) => png_decoded(bytes@) is None,
        },
{
    let rgba = image::load_from_memory_with_format(bytes, image::ImageFormat::Png)?.to_rgba8();
    let (width, height) = rgba.dimensions();
    Ok((rgba.to_vec(), width, height))
}

/// What is read back of the PNG file of a picture: the picture, unless it has more
/// bytes than are read.
pub open spec fn read_back(pixels: Seq<u8>, width: u32, height: u32) -> Option<
    (Seq<u8>, u32, u32),
> {
    if pixels.len() <= PNG_READ_LIMIT {
        Some((pixels, width, height))
    } else {
        None
    }
}

/// Writes a PNG file.
///
/// The bytes come from `image::codecs::png::PngEncoder::write_image`, which
/// panics unless there are four bytes for each pixel, and fails just where the
/// picture has no pixels. PNG keeps every byte, so the file holds the picture;
/// reading gives up where the pixels take more than 512 MiB, which is the default
/// of `image::Limits`. Which bytes the file has is not said.
#[verifier::external_body]
fn encode_png(pixels: &Vec<u8>, width: u32, height: u32) -> (r: Result<Vec<u8>, image::ImageError>)
    requires
        pixels@.len() == width * height * 4,
    ensures
        match r {
            Ok(bytes) => 0 < width && 0 < height && png_decoded(bytes@) == read_back(
                pixels@,
                width,
                height,
            ),
            Err(_) => width == 0 || height == 0,
        },
{
    let mut out: Vec<u8> = Vec::new();
    image::codecs::png::PngEncoder::new(&mut out).write_image(
        pixels,
        width,
        height,
        image::ExtendedColorType::Rgba8,
    )?;
    Ok(out)
}

/// The texture in a PNG file.
pub fn load_png_as_rgba(name: String, bytes: &Vec<u8>) -> (r: Result<Texture, PackError>)
    ensures
        match r {
            Ok(t) => t.name@ == name@ && png_decoded(bytes@) == Some((t.pixels@, t.width, t.height))
                && t.pixels@.len() == t.width * t.height * 4,
            Err(e) => e == PackError::Undecodable && png_decoded(bytes@) is None,
        },
{
    match decode_png(bytes) {
        Ok((pixels, width, height)) => Ok(Texture { name, pixels, width, height }),
        Err(_) => Err(PackError::Undecodable),
    }
}

/// The PNG file of a picture. There is none of a picture without pixels.
pub fn save_rgba_as_png(pixels: &Vec<u8>, width: u32, height: u32) -> (r: Result<
    Vec<u8>,
    PackError,
>)
    requires
        pixels@.len() == width * height * 4,
    ensures
        match r {
            Ok(bytes) => 0 < width && 0 < height && png_decoded(bytes@) == read_back(
                pixels@,
                width,
                height,
            ),
            Err(e) => e == PackError::Unencodable && (width == 0 || height == 0),
        },
{
    match encode_png(pixels, width, height) {
        Ok(bytes) => Ok(bytes),
        Err(_) => Err(PackError::Unencodable),
    }
}

/// The number, or the nearest of 0 and 255.
pub open spec fn clamped(v: int) -> u8 {
    if v < 0 {
        0
    } else if v > 255 {
        255
    } else {
        v as u8
    }
}

/// Byte `c` of the pixel at (`x`, `y`) of a made-up texture: the colour, a
/// little lighter or darker from pixel to pixel, and opaque.
pub open spec fn default_texel(color: Seq<u8>, x: int, y: int, c: int) -> u8 {
    if c == 3 {
        255
    } else {
        clamped(color[c] + (x * 7 + y * 13) % 20 - 10)
    }
}

/// The number, or the nearest of 0 and 255.
fn clamp_byte(v: i32) -> (r: u8)
    ensures
        r == clamped(v as int),
{
    if v < 0 {
        0
    } else if v > 255 {
        255
    } else {
        v as u8
    }
}

/// The pixels of a made-up texture, 16 by 16.
pub fn create_default_texture_pixels(base_color: [u8; 4]) -> (r: Vec<u8>)
    ensures
        r@.len() == 1024,
        forall|y: int, x: int, c: int|
            0 <= y < 16 && 0 <= x < 16 && 0 <= c < 4 ==> r@[(y * 16 + x) * 4 + c]
                == #[trigger] default_texel(base_color@, x, y, c),
{
    let mut pixels: Vec<u8> = Vec::new();
    let mut at: usize = 0;
    while at < 256
        invariant
            at <= 256,
            pixels@.len() == at * 4,
            forall|y: int, x: int, c: int|
                0 <= y && 0 <= x < 16 && 0 <= c < 4 && y * 16 + x < at ==> pixels@[(y * 16 + x) * 4
                    + c] == #[trigger] default_texel(base_color@, x, y, c),
        decreases 256 - at,
    {
        let x: usize = at % 16;
        let y: usize = at / 16;
        let noise: i32 = ((x * 7 + y * 13) % 20) as i32 - 10;
        pixels.push(clamp_byte(base_color[0] as i32 + noise));
        pixels.push(clamp_byte(base_color[1] as i32 + noise));
        pixels.push(clamp_byte(base_color[2] as i32 + noise));
        pixels.push(255);
        at = at + 1;
    }
    pixels
}

/// How many made-up textures there are.
pub const DEFAULT_TEXTURE_COUNT: usize = 5;

/// The name of a made-up texture.
pub open spec fn default_name(i: int) -> Seq<char> {
    if i == 0 {
        "dirt"@
    } else if i == 1 {
        "obsidian"@
    } else if i == 2 {
        "glass"@
    } else if i == 3 {
        "bedrock"@
    } else {
        "water"@
    }
}

/// The colour of a made-up texture.
pub open spec fn default_color(i: int) -> Seq<u8> {
    if i == 0 {
        seq![135u8, 100u8, 60u8, 255u8]
    } else if i == 1 {
        seq![20u8, 18u8, 30u8, 255u8]
    } else if i == 2 {
        seq![200u8, 220u8, 240u8, 255u8]
    } else if i == 3 {
        seq![85u8, 85u8, 85u8, 255u8]
    } else {
        seq![30u8, 100u8, 200u8, 180u8]
    }
}

/// One of the made-up textures, which stand in for a pack that is not there.
pub fn default_texture(i: usize) -> (r: Texture)
    requires
        i < DEFAULT_TEXTURE_COUNT,
    ensures
        r.name@ == default_name(i as int),
        r.width == 16,
        r.height == 16,
        r.pixels@.len() == 1024,
        forall|y: int, x: int, c: int|
            0 <= y < 16 && 0 <= x < 16 && 0 <= c < 4 ==> r.pixels@[(y * 16 + x) * 4 + c]
                == #[trigger] default_texel(default_color(i as int), x, y, c),
{
    let (name, color): (&str, [u8; 4]) = match i {
        0 => ("dirt", [135, 100, 60, 255]),
        1 => ("obsidian", [20, 18, 30, 255]),
        2 => ("glass", [200, 220, 240, 255]),
        3 => ("bedrock", [85, 85, 85, 255]),
        _ => ("water", [30, 100, 200, 180]),
    };
    assert(color@ =~= default_color(i as int));
    Texture {
        name: name.to_owned(),
        pixels: create_default_texture_pixels(color),
        width: 16,
        height: 16,
    }
}

/// A list of names in order.
pub open spec fn names_sorted(names: Seq<String>) -> bool {
    forall|i: int, j: int|
        0 <= i < j < names.len() ==> !text::less(
            (#[trigger] names[j])@,
            (#[trigger] names[i])@,
        )
}

/// Puts a name in its place in a list in order.
pub fn insert_name(names: &mut Vec<String>, name: String)
    requires
        names_sorted(old(names)@),
    ensures
        names_sorted(final(names)@),
        exists|i: int|
            0 <= i <= old(names)@.len() && final(names)@ == #[trigger] old(names)@.insert(i, name),
{
    let mut i: usize = 0;
    while i < names.len() && !text::is_less(name.as_str(), names[i].as_str())
        invariant
            i <= names@.len(),
            *names == *old(names),
            forall|k: int| 0 <= k < i ==> !text::less(name@, (#[trigger] names@[k])@),
        decreases names@.len() - i,
    {
        i = i + 1;
    }
    proof {
        let n = names@;
        let m = n.insert(i as int, name);
        assert forall|a: int, b: int| 0 <= a < b < m.len() implies !text::less(
            (#[trigger] m[b])@,
            (#[trigger] m[a])@,
        ) by {
            if a == i {
                let before = n[b - 1]@;
                if text::less(before, name@) {
                    if b - 1 == i {
                        text::lemma_less_irreflexive(name@);
                        text::lemma_less_transitive(name@, before, name@);
                    } else {
                        let first = n[i as int]@;
                        text::lemma_less_transitive(before, name@, first);
                        assert(!text::less(n[b - 1]@, n[i as int]@));
                    }
                }
            }
        }
    }
    names.insert(i, name);
}

/// Which pack to load.
#[derive(Debug, Clone, Copy, PartialEq, Eq, Structural)]
pub enum PackChoice {
    /// The one that was asked for.
    Selected,
    /// The first that is there.
    First,
    /// One that has to be made.
    CreateDefault,
}

/// Chooses a pack: the one that was asked for if it is there, else the first,
/// and if there is none, one that has to be made.
pub fn resolve_pack(selected_is_there: bool, available: usize) -> (r: PackChoice)
    ensures
        r == (if selected_is_there {
            PackChoice::Selected
        } else if available > 0 {
            PackChoice::First
        } else {
            PackChoice::CreateDefault
        }),
{
    if selected_is_there {
        PackChoice::Selected
    } else if available > 0 {
        PackChoice::First
    } else {
        PackChoice::CreateDefault
    }
}

/// The textures are in the order of their names and no name occurs twice.
pub open spec fn in_order(textures: Seq<Texture>) -> bool {
    forall|i: int, j: int|
        0 <= i < j < textures.len() ==> text::less(
            (#[trigger] textures[i]).name@,
            (#[trigger] textures[j]).name@,
        )
}

/// One of the textures has this name and this picture.
pub open spec fn holds(
    textures: Seq<Texture>,
    name: Seq<char>,
    pixels: Seq<u8>,
    width: u32,
    height: u32,
) -> bool {
    exists|i: int|
        0 <= i < textures.len() && (#[trigger] textures[i]).name@ == name && textures[i].pixels@
            == pixels && textures[i].width == width && textures[i].height == height
}

/// The length of the longest side of a texture.
pub open spec fn longest_side(textures: Seq<Texture>) -> int
    decreases textures.len(),
{
    if textures.len() == 0 {
        0
    } else {
        let rest = longest_side(textures.drop_last());
        let t = textures.last();
        let own = if t.width > t.height {
            t.width as int
        } else {
            t.height as int
        };
        if rest > own {
            rest
        } else {
            own
        }
    }
}

/// No side is longer than the longest.
proof fn lemma_longest_side(textures: Seq<Texture>, i: int)
    requires
        0 <= i < textures.len(),
    ensures
        textures[i].width <= longest_side(textures),
        textures[i].height <= longest_side(textures),
    decreases textures.len(),
{
    if i < textures.len() - 1 {
        lemma_longest_side(textures.drop_last(), i);
        assert(textures.drop_last()[i] == textures[i]);
    }
}

/// How many bytes all layers take.
pub open spec fn atlas_len(textures: Seq<Texture>) -> int {
    longest_side(textures) * longest_side(textures) * 4 * textures.len()
}

/// Byte `c` of the pixel at (`x`, `y`) of a layer: that of the texture, and
/// nothing beside or below the texture.
pub open spec fn atlas_texel(textures: Seq<Texture>, layer: int, y: int, x: int, c: int) -> u8 {
    let t = textures[layer];
    let at = (y * t.width + x) * 4;
    if x < t.width && y < t.height && at + 3 < t.pixels@.len() {
        t.pixels@[at + c]
    } else {
        0
    }
}

/// The number of a pixel, counted row by row and layer by layer.
pub open spec fn texel_index(size: int, layer: int, y: int, x: int) -> int {
    (layer * size + y) * size + x
}

/// Different pixels have different numbers.
proof fn lemma_texel_index(size: int, l: int, y: int, x: int, l2: int, y2: int, x2: int)
    requires
        0 <= y < size,
        0 <= x < size,
        0 <= y2 < size,
        0 <= x2 < size,
        texel_index(size, l, y, x) == texel_index(size, l2, y2, x2),
    ensures
        l == l2,
        y == y2,
        x == x2,
{
    let d = texel_index(size, l, y, x);
    lemma_fundamental_div_mod_converse(d, size, l * size + y, x);
    lemma_fundamental_div_mod_converse(d, size, l2 * size + y2, x2);
    lemma_fundamental_div_mod_converse(l * size + y, size, l, y);
    lemma_fundamental_div_mod_converse(l2 * size + y2, size, l2, y2);
}

/// The pixels of a texture lie within a square of the longest side.
proof fn lemma_texel_bound(w: int, h: int, size: int, y: int, x: int)
    by (nonlinear_arith)
    requires
        0 <= x < w,
        0 <= y < h,
        w <= size,
        h <= size,
    ensures
        0 <= y * w + x < size * size,
{
    assert(y * w + x < (y + 1) * w);
    assert((y + 1) * w <= h * w);
    assert(h * w <= size * size);
}

/// Where a texture lies among the layers.
#[derive(Debug)]
pub struct TextureInfo {
    pub name: String,
    pub size: (u32, u32),
    pub layer_index: u32,
}

/// All textures, each in a layer of its own and the layers of one size.
#[derive(Debug)]
pub struct TextureAtlas {
    /// What is in each layer.
    pub textures: Vec<TextureInfo>,
    /// The pixels, layer by layer.
    pub array_pixels: Vec<u8>,
    pub array_layers: u32,
    /// The width and height of each layer.
    pub tex_size: u32,
}

/// The atlas shows these textures.
pub open spec fn shows(atlas: TextureAtlas, textures: Seq<Texture>) -> bool {
    &&& atlas.array_layers == textures.len()
    &&& atlas.tex_size == longest_side(textures)
    &&& atlas.textures@.len() == textures.len()
    &&& forall|i: int|
        0 <= i < textures.len() ==> (#[trigger] atlas.textures@[i]).name@ == textures[i].name@
            && atlas.textures@[i].size == (textures[i].width, textures[i].height)
            && atlas.textures@[i].layer_index == i
    &&& atlas.array_pixels@.len() == atlas_len(textures)
    &&& forall|l: int, y: int, x: int, c: int|
        0 <= l < textures.len() && 0 <= y < atlas.tex_size && 0 <= x < atlas.tex_size && 0 <= c < 4
            ==> atlas.array_pixels@[texel_index(atlas.tex_size as int, l, y, x) * 4 + c]
            == #[trigger] atlas_texel(textures, l, y, x, c)
}

/// The textures of a pack.
#[derive(Debug)]
pub struct TextureCache {
    pub textures: Vec<Texture>,
}

impl TextureCache {
    /// The textures are in order.
    pub open spec fn wf(&self) -> bool {
        in_order(self.textures@)
    }

    /// No textures.
    pub fn new() -> (r: Self)
        ensures
            r.wf(),
            r.textures@.len() == 0,
    {
        Self { textures: Vec::new() }
    }

    /// Adds a texture, in place of one with the same name.
    pub fn insert(&mut self, texture: Texture)
        requires
            old(self).wf(),
        ensures
            final(self).wf(),
            forall|n: Seq<char>, p: Seq<u8>, w: u32, h: u32|
                #[trigger] holds(final(self).textures@, n, p, w, h) == (if n == texture.name@ {
                    p == texture.pixels@ && w == texture.width && h == texture.height
                } else {
                    holds(old(self).textures@, n, p, w, h)
                }),
    {
        let mut i: usize = 0;
        while i < self.textures.len() && text::is_less(
            self.textures[i].name.as_str(),
            texture.name.as_str(),
        )
            invariant
                i <= self.textures@.len(),
                *self == *old(self),
                forall|k: int|
                    0 <= k < i ==> text::less((#[trigger] self.textures@[k]).name@, texture.name@),
            decreases self.textures@.len() - i,
        {
            i = i + 1;
        }
        let ghost before = self.textures@;
        if i < self.textures.len() && text::same_text(
            self.textures[i].name.as_str(),
            texture.name.as_str(),
        ) {
            proof {
                lemma_replaced(before, before.update(i as int, texture), i as int, texture);
            }
            self.textures.set(i, texture);
        } else {
            proof {
                lemma_inserted(before, before.insert(i as int, texture), i as int, texture);
            }
            self.textures.insert(i, texture);
        }
    }

    /// The length of the longest side of a texture.
    fn tex_size(&self) -> (r: u32)
        ensures
            r == longest_side(self.textures@),
    {
        let mut size: u32 = 0;
        let mut i: usize = 0;
        while i < self.textures.len()
            invariant
                i <= self.textures@.len(),
                size == longest_side(self.textures@.take(i as int)),
            decreases self.textures@.len() - i,
        {
            let t: &Texture = &self.textures[i];
            assert(self.textures@.take(i + 1).drop_last() =~= self.textures@.take(i as int));
            let own: u32 = if t.width > t.height {
                t.width
            } else {
                t.height
            };
            if own >= size {
                size = own;
            }
            i = i + 1;
        }
        assert(self.textures@.take(i as int) =~= self.textures@);
        size
    }

    /// How many bytes all layers take, if 32 bits can count them.
    pub fn atlas_len(&self) -> (r: Option<u32>)
        ensures
            match r {
                Some(n) => n == atlas_len(self.textures@),
                None => atlas_len(self.textures@) > u32::MAX,
            },
    {
        let size: u32 = self.tex_size();
        let n: usize = self.textures.len();
        proof {
            assert(size * size <= u32::MAX * u32::MAX) by (nonlinear_arith)
                requires
                    0 <= size <= u32::MAX,
            ;
        }
        let square: u64 = size as u64 * size as u64;
        if square == 0 || n == 0 {
            proof {
                assert(square * 4 * n == 0) by (nonlinear_arith)
                    requires
                        square == 0 || n == 0,
                ;
            }
            return Some(0);
        }
        if square > u32::MAX as u64 || n > u32::MAX as usize {
            proof {
                assert(square * 4 * n > u32::MAX) by (nonlinear_arith)
                    requires
                        square >= 1,
                        n >= 1,
                        square > u32::MAX || n > u32::MAX,
                ;
            }
            return None;
        }
        proof {
            assert(0 <= square * 4 * n <= u32::MAX * 4 * u32::MAX) by (nonlinear_arith)
                requires
                    0 <= square <= u32::MAX,
                    0 <= n <= u32::MAX,
            ;
        }
        let total: u128 = square as u128 * 4 * n as u128;
        if total > u32::MAX as u128 {
            None
        } else {
            Some(total as u32)
        }
    }

    /// Lays the textures out in layers, in the order of their names. The layers
    /// are squares, as long as the longest side of a texture. Fails if there is
    /// no texture.
    pub fn build_atlas(&self) -> (r: Result<TextureAtlas, PackError>)
        requires
            atlas_len(self.textures@) <= u32::MAX,
            self.textures@.len() <= u32::MAX,
        ensures
            match r {
                Ok(atlas) => self.textures@.len() > 0 && shows(atlas, self.textures@),
                Err(e) => self.textures@.len() == 0 && e == PackError::NoTextures,
            },
    {
        if self.textures.len() == 0 {
            return Err(PackError::NoTextures);
        }
        let size: u32 = self.tex_size();
        let mut infos: Vec<TextureInfo> = Vec::new();
        let mut out: Vec<u8> = Vec::new();
        let mut layer: usize = 0;
        proof {
            assert((0 * size + 0) * size + 0 == 0) by (nonlinear_arith);
        }
        while layer < self.textures.len()
            invariant
                layer <= self.textures@.len() <= u32::MAX,
                atlas_len(self.textures@) <= u32::MAX,
                size == longest_side(self.textures@),
                infos@.len() == layer,
                forall|i: int|
                    0 <= i < layer ==> (#[trigger] infos@[i]).name@ == self.textures@[i].name@
                        && infos@[i].size == (
                        self.textures@[i].width,
                        self.textures@[i].height,
                    ) && infos@[i].layer_index == i,
                out@.len() == texel_index(size as int, layer as int, 0, 0) * 4,
                laid_out(out@, self.textures@, size as int),
            decreases self.textures@.len() - layer,
        {
            let t: &Texture = &self.textures[layer];
            infos.push(
                TextureInfo {
                    name: t.name.clone(),
                    size: (t.width, t.height),
                    layer_index: layer as u32,
                },
            );
            self.lay_out_layer(&mut out, size, layer);
            layer = layer + 1;
        }
        let atlas = TextureAtlas {
            textures: infos,
            array_pixels: out,
            array_layers: self.textures.len() as u32,
            tex_size: size,
        };
        proof {
            lemma_all_laid_out(atlas, self.textures@);
        }
        Ok(atlas)
    }

    /// Lays out one layer behind those before it.
    fn lay_out_layer(&self, out: &mut Vec<u8>, size: u32, layer: usize)
        requires
            layer < self.textures@.len(),
            atlas_len(self.textures@) <= u32::MAX,
            size == longest_side(self.textures@),
            old(out)@.len() == texel_index(size as int, layer as int, 0, 0) * 4,
            laid_out(old(out)@, self.textures@, size as int),
        ensures
            final(out)@.len() == texel_index(size as int, layer + 1, 0, 0) * 4,
            laid_out(final(out)@, self.textures@, size as int),
    {
        let t: &Texture = &self.textures[layer];
        proof {
            lemma_longest_side(self.textures@, layer as int);
        }
        let mut y: u32 = 0;
        while y < size
            invariant
                y <= size,
                layer < self.textures@.len(),
                *t == self.textures@[layer as int],
                atlas_len(self.textures@) <= u32::MAX,
                size == longest_side(self.textures@),
                t.width <= size,
                t.height <= size,
                out@.len() == texel_index(size as int, layer as int, y as int, 0) * 4,
                laid_out(out@, self.textures@, size as int),
            decreases size - y,
        {
            let mut x: u32 = 0;
            while x < size
                invariant
                    x <= size,
                    y < size,
                    layer < self.textures@.len(),
                    *t == self.textures@[layer as int],
                    atlas_len(self.textures@) <= u32::MAX,
                    size == longest_side(self.textures@),
                    t.width <= size,
                    t.height <= size,
                    out@.len() == texel_index(size as int, layer as int, y as int, x as int) * 4,
                    laid_out(out@, self.textures@, size as int),
                decreases size - x,
            {
                let ghost before = out@;
                let mut filled: bool = false;
                if x < t.width && y < t.height {
                    proof {
                        lemma_texel_bound(
                            t.width as int,
                            t.height as int,
                            size as int,
                            y as int,
                            x as int,
                        );
                        lemma_square_fits(size as int, self.textures@.len() as int);
                        assert(0 <= y * t.width) by (nonlinear_arith)
                            requires
                                0 <= y,
                                0 <= t.width,
                        ;
                    }
                    let at: usize = (y as usize * t.width as usize + x as usize) * 4;
                    if at + 3 < t.pixels.len() {
                        out.push(t.pixels[at]);
                        out.push(t.pixels[at + 1]);
                        out.push(t.pixels[at + 2]);
                        out.push(t.pixels[at + 3]);
                        filled = true;
                    }
                }
                if !filled {
                    out.push(0);
                    out.push(0);
                    out.push(0);
                    out.push(0);
                }
                proof {
                    assert(out@.take(before.len() as int) =~= before);
                    lemma_pixel_laid_out(
                        before,
                        out@,
                        self.textures@,
                        size as int,
                        layer as int,
                        y as int,
                        x as int,
                    );
                }
                x = x + 1;
            }
            proof {
                assert((layer * size + y) * size + size == (layer * size + (y + 1)) * size + 0)
                    by (nonlinear_arith);
            }
            y = y + 1;
        }
        proof {
            assert((layer * size + size) * size + 0 == ((layer + 1) * size + 0) * size + 0)
                by (nonlinear_arith);
        }
    }
}

/// The bytes are the first of all layers.
spec fn laid_out(out: Seq<u8>, textures: Seq<Texture>, size: int) -> bool {
    forall|l: int, y: int, x: int, c: int|
        0 <= l < textures.len() && 0 <= y < size && 0 <= x < size && 0 <= c < 4 && texel_index(
            size,
            l,
            y,
            x,
        ) * 4 + c < out.len() ==> 0 <= texel_index(size, l, y, x) && out[texel_index(size, l, y, x)
            * 4 + c] == #[trigger] atlas_texel(textures, l, y, x, c)
}

/// A pixel more is laid out.
proof fn lemma_pixel_laid_out(
    before: Seq<u8>,
    after: Seq<u8>,
    textures: Seq<Texture>,
    size: int,
    layer: int,
    y: int,
    x: int,
)
    requires
        0 <= layer < textures.len(),
        0 <= y < size,
        0 <= x < size,
        laid_out(before, textures, size),
        before.len() == texel_index(size, layer, y, x) * 4,
        after.len() == before.len() + 4,
        after.take(before.len() as int) == before,
        forall|c: int|
            0 <= c < 4 ==> after[before.len() + c] == #[trigger] atlas_texel(
                textures,
                layer,
                y,
                x,
                c,
            ),
    ensures
        laid_out(after, textures, size),
        after.len() == texel_index(size, layer, y, x + 1) * 4,
{
    assert forall|l2: int, y2: int, x2: int, c: int|
        0 <= l2 < textures.len() && 0 <= y2 < size && 0 <= x2 < size && 0 <= c < 4 && texel_index(
            size,
            l2,
            y2,
            x2,
        ) * 4 + c < after.len() implies 0 <= texel_index(size, l2, y2, x2) && after[texel_index(
        size,
        l2,
        y2,
        x2,
    ) * 4 + c] == #[trigger] atlas_texel(textures, l2, y2, x2, c) by {
        let k = texel_index(size, l2, y2, x2);
        assert(0 <= k) by (nonlinear_arith)
            requires
                k == (l2 * size + y2) * size + x2,
                0 <= l2,
                0 <= y2,
                0 <= x2,
                0 < size,
        ;
        if k * 4 + c < before.len() {
            assert(after.take(before.len() as int)[k * 4 + c] == after[k * 4 + c]);
        } else {
            assert(k == texel_index(size, layer, y, x));
            lemma_texel_index(size, layer, y, x, l2, y2, x2);
        }
    }
}

/// A square of the longest side has no more pixels than all layers.
proof fn lemma_square_fits(size: int, layers: int)
    by (nonlinear_arith)
    requires
        layers >= 1,
        size >= 0,
    ensures
        size * size * 4 <= size * size * 4 * layers,
{
}

/// When all layers are laid out, the atlas shows the textures.
proof fn lemma_all_laid_out(atlas: TextureAtlas, textures: Seq<Texture>)
    requires
        atlas.array_layers == textures.len(),
        atlas.tex_size == longest_side(textures),
        atlas.textures@.len() == textures.len(),
        forall|i: int|
            0 <= i < textures.len() ==> (#[trigger] atlas.textures@[i]).name@ == textures[i].name@
                && atlas.textures@[i].size == (textures[i].width, textures[i].height)
                && atlas.textures@[i].layer_index == i,
        atlas.array_pixels@.len() == texel_index(atlas.tex_size as int, textures.len() as int, 0, 0)
            * 4,
        laid_out(atlas.array_pixels@, textures, atlas.tex_size as int),
    ensures
        shows(atlas, textures),
{
    let size = atlas.tex_size as int;
    let n = textures.len() as int;
    assert(((n * size + 0) * size + 0) * 4 == size * size * 4 * n) by (nonlinear_arith);
    assert forall|l: int, y: int, x: int, c: int|
        0 <= l < n && 0 <= y < size && 0 <= x < size && 0 <= c < 4 implies atlas.array_pixels@[
    texel_index(size, l, y, x) * 4 + c] == #[trigger] atlas_texel(textures, l, y, x, c) by {
        assert((l * size + y) * size + x < (n * size + 0) * size + 0) by (nonlinear_arith)
            requires
                0 <= l < n,
                0 <= y < size,
                0 <= x < size,
        {
            assert(l * size + y + 1 <= n * size) by (nonlinear_arith)
                requires
                    0 <= l < n,
                    0 <= y < size,
            ;
            assert((l * size + y + 1) * size <= (n * size) * size) by (nonlinear_arith)
                requires
                    l * size + y + 1 <= n * size,
                    0 < size,
            ;
            assert((l * size + y) * size + size == (l * size + y + 1) * size) by (nonlinear_arith);
        }
    }
}

/// What is held once a texture is in the place of another with its name.
proof fn lemma_replaced(before: Seq<Texture>, after: Seq<Texture>, i: int, t: Texture)
    requires
        in_order(before),
        0 <= i < before.len(),
        before[i].name@ == t.name@,
        after == before.update(i, t),
    ensures
        in_order(after),
        forall|n: Seq<char>, p: Seq<u8>, w: u32, h: u32|
            #[trigger] holds(after, n, p, w, h) == (if n == t.name@ {
                p == t.pixels@ && w == t.width && h == t.height
            } else {
                holds(before, n, p, w, h)
            }),
{
    assert forall|n: Seq<char>, p: Seq<u8>, w: u32, h: u32|
        #[trigger] holds(after, n, p, w, h) == (if n == t.name@ {
            p == t.pixels@ && w == t.width && h == t.height
        } else {
            holds(before, n, p, w, h)
        }) by {
        lemma_only_one(after, i, n, p, w, h);
        if n != t.name@ {
            if holds(before, n, p, w, h) {
                let k = choose|k: int|
                    0 <= k < before.len() && (#[trigger] before[k]).name@ == n && before[k].pixels@
                        == p && before[k].width == w && before[k].height == h;
                assert(after[k] == before[k]);
            }
            if holds(after, n, p, w, h) {
                let k = choose|k: int|
                    0 <= k < after.len() && (#[trigger] after[k]).name@ == n && after[k].pixels@ == p
                        && after[k].width == w && after[k].height == h;
                assert(after[k] == before[k]);
            }
        }
    }
}

/// What is held once a texture is put between those with smaller and those with
/// greater names.
proof fn lemma_inserted(before: Seq<Texture>, after: Seq<Texture>, i: int, t: Texture)
    requires
        in_order(before),
        0 <= i <= before.len(),
        forall|k: int| 0 <= k < i ==> text::less((#[trigger] before[k]).name@, t.name@),
        i < before.len() ==> !text::less(before[i].name@, t.name@) && before[i].name@ != t.name@,
        after == before.insert(i, t),
    ensures
        in_order(after),
        forall|n: Seq<char>, p: Seq<u8>, w: u32, h: u32|
            #[trigger] holds(after, n, p, w, h) == (if n == t.name@ {
                p == t.pixels@ && w == t.width && h == t.height
            } else {
                holds(before, n, p, w, h)
            }),
{
    if i < before.len() {
        text::lemma_less_total(before[i].name@, t.name@);
    }
    assert forall|a: int, b: int| 0 <= a < b < after.len() implies text::less(
        (#[trigger] after[a]).name@,
        (#[trigger] after[b]).name@,
    ) by {
        if a == i && b > i + 1 {
            text::lemma_less_transitive(t.name@, before[i].name@, before[b - 1].name@);
        }
    }
    assert forall|n: Seq<char>, p: Seq<u8>, w: u32, h: u32|
        #[trigger] holds(after, n, p, w, h) == (if n == t.name@ {
            p == t.pixels@ && w == t.width && h == t.height
        } else {
            holds(before, n, p, w, h)
        }) by {
        assert(after[i] == t);
        lemma_only_one(after, i, n, p, w, h);
        if n != t.name@ {
            if holds(before, n, p, w, h) {
                let k = choose|k: int|
                    0 <= k < before.len() && (#[trigger] before[k]).name@ == n && before[k].pixels@
                        == p && before[k].width == w && before[k].height == h;
                assert(after[if k < i {
                    k
                } else {
                    k + 1
                }] == before[k]);
            }
            if holds(after, n, p, w, h) {
                let k = choose|k: int|
                    0 <= k < after.len() && (#[trigger] after[k]).name@ == n && after[k].pixels@ == p
                        && after[k].width == w && after[k].height == h;
                assert(after[k] == before[if k < i {
                    k
                } else {
                    k - 1
                }]);
            }
        }
    }
}

/// Under the name of a texture nothing else is held.
proof fn lemma_only_one(
    textures: Seq<Texture>,
    i: int,
    n: Seq<char>,
    p: Seq<u8>,
    w: u32,
    h: u32,
)
    requires
        in_order(textures),
        0 <= i < textures.len(),
    ensures
        n == textures[i].name@ ==> holds(textures, n, p, w, h) == (p == textures[i].pixels@ && w
            == textures[i].width && h == textures[i].height),
{
    if n == textures[i].name@ && holds(textures, n, p, w, h) {
        let k = choose|k: int|
            0 <= k < textures.len() && (#[trigger] textures[k]).name@ == n && textures[k].pixels@
                == p && textures[k].width == w && textures[k].height == h;
        text::lemma_less_irreflexive(n);
        assert(k == i);
    }
}

/// No two layers have the same name, so a name leads to one layer.
pub proof fn law_one_layer_per_name(atlas: TextureAtlas, textures: Seq<Texture>, i: int, j: int)
    requires
        in_order(textures),
        shows(atlas, textures),
        0 <= i < textures.len(),
        0 <= j < textures.len(),
        atlas.textures@[i].name@ == atlas.textures@[j].name@,
    ensures
        i == j,
{
    text::lemma_less_irreflexive(textures[i].name@);
}

/// The name is that of layer `i`, and of none before it.
pub open spec fn is_layer_of(infos: Seq<TextureInfo>, name: Seq<char>, i: int) -> bool {
    &&& 0 <= i < infos.len()
    &&& infos[i].name@ == name
    &&& forall|k: int| 0 <= k < i ==> (#[trigger] infos[k]).name@ != name
}

/// No layer has the name.
pub open spec fn no_layer(infos: Seq<TextureInfo>, name: Seq<char>) -> bool {
    forall|k: int| 0 <= k < infos.len() ==> (#[trigger] infos[k]).name@ != name
}

impl TextureAtlas {
    /// The layer with a name, if there is one.
    pub fn layer_of(&self, name: &str) -> (r: Option<usize>)
        ensures
            match r {
                Some(i) => is_layer_of(self.textures@, name@, i as int),
                None => no_layer(self.textures@, name@),
            },
    {
        let mut i: usize = 0;
        while i < self.textures.len()
            invariant
                i <= self.textures@.len(),
                forall|k: int| 0 <= k < i ==> (#[trigger] self.textures@[k]).name@ != name@,
            decreases self.textures@.len() - i,
        {
            if text::same_text(self.textures[i].name.as_str(), name) {
                return Some(i);
            }
            i = i + 1;
        }
        None
    }
}

/// Each definition is filed under the number of its block.
pub open spec fn filed_by_id(definitions: Map<u8, BlockDefinition>) -> bool {
    forall|k: u8| #[trigger] definitions.contains_key(k) ==> definitions[k].id == k
}

/// Files a definition, in place of one of the same block.
pub fn add_definition(definitions: &mut HashMap<u8, BlockDefinition>, definition: BlockDefinition)
    requires
        filed_by_id(old(definitions)@),
    ensures
        filed_by_id(final(definitions)@),
        final(definitions)@ == old(definitions)@.insert(definition.id, definition),
{
    definitions.insert(definition.id, definition);
}

/// The name of the texture of a face: the top, the bottom, or a side.
pub open spec fn texture_name(definition: BlockDefinition, face_index: int) -> Seq<char> {
    if face_index == 0 {
        definition.textures.top@
    } else if face_index == 1 {
        definition.textures.bottom@
    } else {
        definition.textures.side@
    }
}

/// The number of the face with a name: `top`, `bottom` or `side`.
pub open spec fn named_face(face: Seq<char>) -> Option<int> {
    if face == "top"@ {
        Some(0)
    } else if face == "bottom"@ {
        Some(1)
    } else if face == "side"@ {
        Some(2)
    } else {
        None
    }
}

/// The name of the texture of a face.
fn get_texture_name(definition: &BlockDefinition, face_index: usize) -> (r: &str)
    ensures
        r@ == texture_name(*definition, face_index as int),
{
    if face_index == 0 {
        definition.textures.top.as_str()
    } else if face_index == 1 {
        definition.textures.bottom.as_str()
    } else {
        definition.textures.side.as_str()
    }
}

/// The layer of the texture of a face of a block, if the block is defined, the
/// face is `top`, `bottom` or `side`, and the texture is there.
pub fn block_layer(
    definitions: &HashMap<u8, BlockDefinition>,
    atlas: &TextureAtlas,
    block_id: u8,
    face: &str,
) -> (r: Option<usize>)
    requires
        filed_by_id(definitions@),
    ensures
        match r {
            Some(i) => definitions@.contains_key(block_id) && named_face(face@) is Some
                && is_layer_of(
                atlas.textures@,
                texture_name(definitions@[block_id], named_face(face@)->0),
                i as int,
            ),
            None => definitions@.contains_key(block_id) && named_face(face@) is Some ==> no_layer(
                atlas.textures@,
                texture_name(definitions@[block_id], named_face(face@)->0),
            ),
        },
{
    let face_index: usize = if text::same_text(face, "top") {
        0
    } else if text::same_text(face, "bottom") {
        1
    } else if text::same_text(face, "side") {
        2
    } else {
        return None;
    };
    match definitions.get(&block_id) {
        Some(definition) => atlas.layer_of(get_texture_name(definition, face_index)),
        None => None,
    }
}

/// What a table of texture coordinates says of a face of a block: the
/// coordinates of the layer of its texture, if there is one.
pub open spec fn follows<T>(
    entry: Option<UvCoord<T>>,
    definitions: Map<u8, BlockDefinition>,
    infos: Seq<TextureInfo>,
    layer_uvs: Seq<UvCoord<T>>,
    block_id: int,
    face_index: int,
) -> bool {
    if definitions.contains_key(block_id as u8) {
        let name = texture_name(definitions[block_id as u8], face_index);
        match entry {
            Some(uv) => exists|i: int| #[trigger]
                is_layer_of(infos, name, i) && uv == layer_uvs[i],
            None => no_layer(infos, name),
        }
    } else {
        entry is None
    }
}

/// The table of the texture coordinates of all blocks. `layer_uvs` are those of
/// the layers.
pub fn build_uv_table<T: Copy>(
    definitions: &HashMap<u8, BlockDefinition>,
    atlas: &TextureAtlas,
    layer_uvs: &Vec<UvCoord<T>>,
    default_uv: UvCoord<T>,
) -> (r: UvLookupTable<T>)
    requires
        filed_by_id(definitions@),
        layer_uvs@.len() == atlas.textures@.len(),
    ensures
        r.wf(),
        r.spec_default() == default_uv,
        forall|b: int, f: int|
            0 <= b < 256 && 0 <= f < 3 ==> follows(
                #[trigger] r.entry(b, f),
                definitions@,
                atlas.textures@,
                layer_uvs@,
                b,
                f,
            ),
{
    let mut table: UvLookupTable<T> = UvLookupTable::new(default_uv);
    let mut at: usize = 0;
    while at < 768
        invariant
            at <= 768,
            table.wf(),
            table.spec_default() == default_uv,
            layer_uvs@.len() == atlas.textures@.len(),
            forall|b: int, f: int|
                0 <= b < 256 && 0 <= f < 3 ==> (if b * 3 + f < at {
                    follows(
                        #[trigger] table.entry(b, f),
                        definitions@,
                        atlas.textures@,
                        layer_uvs@,
                        b,
                        f,
                    )
                } else {
                    table.entry(b, f) is None
                }),
        decreases 768 - at,
    {
        let block_id: u8 = (at / 3) as u8;
        let face_index: usize = at % 3;
        match definitions.get(&block_id) {
            Some(definition) => {
                match atlas.layer_of(get_texture_name(definition, face_index)) {
                    Some(i) => {
                        table.set_uv(block_id, face_index, layer_uvs[i]);
                        assert(table.entry(block_id as int, face_index as int) == Some(
                            layer_uvs@[i as int],
                        ));
                    },
                    None => {},
                }
            },
            None => {},
        }
        at = at + 1;
    }
    table
}

/// What came of a scan for textures: how many were found, and an error if none
/// was.
pub fn scan_result(count: usize) -> (r: Result<usize, PackError>)
    ensures
        r == (if count == 0 {
            Err::<usize, PackError>(PackError::NoTextures)
        } else {
            Ok::<usize, PackError>(count)
        }),
{
    if count == 0 {
        Err(PackError::NoTextures)
    } else {
        Ok(count)
    }
}

/// The number nearest to another among those that a byte holds.
pub proof fn law_clamped_is_nearest(v: int, b: u8)
    ensures
        clamped(v) <= v ==> b <= clamped(v) || b > v,
        clamped(v) >= v ==> b >= clamped(v) || b < v,
        0 <= v <= 255 ==> clamped(v) == v,
{
}

/// A made-up texture is opaque and nowhere more than ten away from its colour; along each
/// row it becomes lighter by seven from pixel to pixel, or darker by thirteen, as far as a
/// byte allows.
pub proof fn law_made_up_textures_are_near_their_colour(color: Seq<u8>, x: int, y: int, c: int)
    requires
        color.len() == 4,
        0 <= c < 4,
    ensures
        default_texel(color, x, y, 3) == 255,
        c < 3 ==> color[c] - 10 <= default_texel(color, x, y, c) <= color[c] + 10,
        c < 3 && 10 <= color[c] <= 245 ==> {
            let step = default_texel(color, x + 1, y, c) - default_texel(color, x, y, c);
            step == 7 || step == -13
        },
        c < 3 && 10 <= color[c] <= 245 ==> {
            let step = default_texel(color, x, y + 1, c) - default_texel(color, x, y, c);
            step == 13 || step == -7
        },
{
    let m = x * 7 + y * 13;
    assert((x + 1) * 7 + y * 13 == m + 7);
    assert(x * 7 + (y + 1) * 13 == m + 13);
}

/// The longest side is that of one of the textures, and none is longer.
pub proof fn law_longest_side(textures: Seq<Texture>, i: int)
    requires
        0 <= i < textures.len(),
    ensures
        textures[i].width <= longest_side(textures),
        textures[i].height <= longest_side(textures),
        exists|k: int|
            0 <= k < textures.len() && ((#[trigger] textures[k]).width == longest_side(textures)
                || textures[k].height == longest_side(textures)),
    decreases textures.len(),
{
    let short = textures.drop_last();
    let last = textures.len() - 1;
    assert(textures[last] == textures.last());
    if i < last {
        law_longest_side(short, i);
        let k = choose|k: int|
            0 <= k < short.len() && ((#[trigger] short[k]).width == longest_side(short)
                || short[k].height == longest_side(short));
        assert(textures[k] == short[k]);
        assert(textures[i] == short[i]);
    } else if last > 0 {
        law_longest_side(short, 0);
        let k = choose|k: int|
            0 <= k < short.len() && ((#[trigger] short[k]).width == longest_side(short)
                || short[k].height == longest_side(short));
        assert(textures[k] == short[k]);
    } else {
        assert(longest_side(short) == 0);
    }
}

/// Each texture is found again in its layer, in the corner of the first pixel: the byte of
/// a pixel is that of the pixel as many rows down and as many columns to the right, and
/// what lies beside or below the texture is nothing.
pub proof fn law_textures_are_found_in_their_layers(
    atlas: TextureAtlas,
    textures: Seq<Texture>,
    l: int,
    y: int,
    x: int,
    c: int,
)
    requires
        shows(atlas, textures),
        0 <= l < textures.len(),
        0 <= y < atlas.tex_size,
        0 <= x < atlas.tex_size,
        0 <= c < 4,
        textures[l].pixels@.len() == textures[l].width * textures[l].height * 4,
    ensures
        ({
            let size = atlas.tex_size as int;
            let byte = atlas.array_pixels@[(l * size * size + y * size + x) * 4 + c];
            &&& x < textures[l].width && y < textures[l].height ==> byte == textures[l].pixels@[(y
                * textures[l].width + x) * 4 + c]
            &&& x >= textures[l].width || y >= textures[l].height ==> byte == 0
        }),
        textures[l].width <= atlas.tex_size,
        textures[l].height <= atlas.tex_size,
        atlas.textures@[l].layer_index == l,
        atlas.textures@[l].name@ == textures[l].name@,
{
    let size = atlas.tex_size as int;
    let t = textures[l];
    let (w, h) = (t.width as int, t.height as int);
    law_longest_side(textures, l);
    assert(atlas.array_pixels@[texel_index(size, l, y, x) * 4 + c] == atlas_texel(
        textures,
        l,
        y,
        x,
        c,
    ));
    assert((l * size + y) * size + x == l * size * size + y * size + x) by (nonlinear_arith);
    if x < w && y < h {
        assert((y * w + x) * 4 + 3 < w * h * 4) by (nonlinear_arith)
            requires
                0 <= x < w,
                0 <= y < h,
        ;
    }
    assert(atlas.textures@[l].name@ == textures[l].name@);
}

/// A face of a block has the texture of the block's top if it looks up, that of its bottom if
/// it looks down, and else that of its sides, and it is found by the face's name too.
pub proof fn law_faces_have_their_textures(definition: BlockDefinition, face: Face)
    ensures
        face.spec_normal()[1] > 0 ==> texture_name(definition, face.spec_face_index())
            == definition.textures.top@,
        face.spec_normal()[1] < 0 ==> texture_name(definition, face.spec_face_index())
            == definition.textures.bottom@,
        face.spec_normal()[1] == 0 ==> texture_name(definition, face.spec_face_index())
            == definition.textures.side@,
        named_face(face.spec_face_name()) == Some(face.spec_face_index()),
{
    reveal_strlit("top");
    reveal_strlit("bottom");
    reveal_strlit("side");
    assert("top"@.len() == 3 && "bottom"@.len() == 6 && "side"@.len() == 4);
}

/// No two made-up textures have the same name.
pub proof fn law_made_up_names_differ(i: int, j: int)
    requires
        0 <= i < DEFAULT_TEXTURE_COUNT,
        0 <= j < DEFAULT_TEXTURE_COUNT,
        default_name(i) == default_name(j),
    ensures
        i == j,
{
    reveal_strlit("dirt");
    reveal_strlit("obsidian");
    reveal_strlit("glass");
    reveal_strlit("bedrock");
    reveal_strlit("water");
    assert("dirt"@.len() == 4 && "obsidian"@.len() == 8 && "bedrock"@.len() == 7);
    assert("glass"@[0] == 'g' && "water"@[0] == 'w');
}

/// Where the names differ, each layer is found by its own name and by no other.
pub proof fn law_layers_are_found_by_name(
    infos: Seq<TextureInfo>,
    name: Seq<char>,
    i: int,
    j: int,
)
    requires
        0 <= i < infos.len(),
        forall|a: int, b: int|
            #![trigger infos[a].name, infos[b].name]
            0 <= a < b < infos.len() ==> infos[a].name@ != infos[b].name@,
    ensures
        is_layer_of(infos, infos[i].name@, j) <==> j == i,
        is_layer_of(infos, name, i) ==> name == infos[i].name@,
        no_layer(infos, name) ==> name != infos[i].name@ && !is_layer_of(infos, name, j),
        !no_layer(infos, name) ==> exists|k: int|
            0 <= k < infos.len() && name == (#[trigger] infos[k]).name@,
{
    assert(infos[i].name == infos[i].name);
    if 0 <= j < infos.len() {
        assert(infos[j].name@ == infos[i].name@ ==> j == i);
    }
}

/// The made-up textures have colours that fit their names: only water lets light through, and
/// it is blue; dirt is brown, bedrock is grey, glass is the lightest and obsidian the darkest.
pub proof fn law_made_up_colours_fit_their_names(i: int)
    requires
        0 <= i < 5,
    ensures
        ({
            let c = default_color(i);
            let light = c[0] + c[1] + c[2];
            &&& c.len() == 4
            &&& c[3] < 255 <==> default_name(i) == "water"@
            &&& c[2] > c[0] + c[1] <==> default_name(i) == "water"@
            &&& c[0] > c[1] && c[1] > c[2] <==> default_name(i) == "dirt"@
            &&& c[0] == c[1] && c[1] == c[2] <==> default_name(i) == "bedrock"@
            &&& light >= 600 <==> default_name(i) == "glass"@
            &&& light < 100 <==> default_name(i) == "obsidian"@
        }),
{
    assert forall|j: int| 0 <= j < 5 && default_name(i) == #[trigger] default_name(j) implies i
        == j by {
        law_made_up_names_differ(i, j);
    }
    assert(default_name(0) == "dirt"@ && default_name(1) == "obsidian"@ && default_name(2)
        == "glass"@ && default_name(3) == "bedrock"@ && default_name(4) == "water"@);
}

} // verus!

use std::collections::HashMap;
use voxel_engine::block_definition::{BlockDefinition, BlockTextures};
use voxel_engine::resource_pack::{
    add_definition, block_layer, build_uv_table, create_default_texture_pixels, default_texture,
    insert_name, load_png_as_rgba, resolve_pack, save_rgba_as_png, scan_result, PackChoice,
    PackError, Texture, TextureCache, DEFAULT_TEXTURE_COUNT,
};

fn texture(name: &str, width: u32, height: u32, byte: u8) -> Texture {
    Texture {
        name: name.to_string(),
        pixels: vec![byte; (width * height * 4) as usize],
        width,
        height,
    }
}

#[test]
fn a_saved_texture_is_loaded_again() {
    for i in 0..DEFAULT_TEXTURE_COUNT {
        let t = default_texture(i);
        let bytes = save_rgba_as_png(&t.pixels, t.width, t.height).unwrap();
        assert_eq!(bytes[1..4].to_vec(), "PNG".as_bytes().to_vec());
        let back = load_png_as_rgba("again".to_string(), &bytes).unwrap();
        assert_eq!(back.name, "again");
        assert_eq!(back.pixels, t.pixels);
        assert_eq!((back.width, back.height), (16, 16));
    }
}

#[test]
fn pictures_need_not_be_square() {
    let pixels: Vec<u8> = (0..3 * 5 * 4).map(|i| (i * 17 % 256) as u8).collect();
    let bytes = save_rgba_as_png(&pixels, 3, 5).unwrap();
    let back = load_png_as_rgba("p".to_string(), &bytes).unwrap();
    assert_eq!(back.pixels, pixels);
    assert_eq!((back.width, back.height), (3, 5));
}

#[test]
fn what_is_no_picture_is_refused() {
    assert_eq!(
        load_png_as_rgba("x".to_string(), &vec![1, 2, 3]).unwrap_err(),
        PackError::Undecodable
    );
    for (width, height) in [(0, 0), (0, 5), (5, 0)] {
        assert_eq!(
            save_rgba_as_png(&Vec::new(), width, height).unwrap_err(),
            PackError::Unencodable
        );
    }
}

#[test]
fn wide_pictures_are_kept() {
    let pixels: Vec<u8> = (0..5000 * 2 * 4).map(|i| (i * 31 % 251) as u8).collect();
    let bytes = save_rgba_as_png(&pixels, 5000, 2).unwrap();
    let back = load_png_as_rgba("wide".to_string(), &bytes).unwrap();
    assert_eq!(back.pixels, pixels);
    assert_eq!((back.width, back.height), (5000, 2));
}

#[test]
fn made_up_pixels() {
    let pixels = create_default_texture_pixels([0, 100, 255, 7]);
    assert_eq!(pixels.len(), 1024);
    assert_eq!(pixels[0..4].to_vec(), vec![0, 90, 245, 255]);
    assert_eq!(pixels[(2 * 16 + 3) * 4 + 1], (100 + (3 * 7 + 2 * 13) % 20 - 10) as u8);
    assert_eq!(default_texture(4).name, "water");
}

#[test]
fn layers_are_in_the_order_of_their_names() {
    let mut cache = TextureCache::new();
    assert_eq!(cache.build_atlas().unwrap_err(), PackError::NoTextures);
    cache.insert(texture("stone", 2, 1, 7));
    cache.insert(texture("dirt", 1, 1, 5));
    cache.insert(texture("stone", 1, 2, 9));
    assert_eq!(cache.atlas_len(), Some(32));
    let atlas = cache.build_atlas().unwrap();
    assert_eq!(atlas.tex_size, 2);
    assert_eq!(atlas.array_layers, 2);
    assert_eq!(atlas.layer_of("dirt"), Some(0));
    assert_eq!(atlas.layer_of("stone"), Some(1));
    assert_eq!(atlas.layer_of("glass"), None);
    let p = &atlas.array_pixels;
    assert_eq!(p.len(), 32);
    assert_eq!(p[0..4].to_vec(), vec![5; 4]);
    assert_eq!(p[4..16].to_vec(), vec![0; 12]);
    assert_eq!(p[16..20].to_vec(), vec![9; 4]);
    assert_eq!(p[20..24].to_vec(), vec![0; 4]);
    assert_eq!(p[24..28].to_vec(), vec![9; 4]);
    assert_eq!(atlas.textures[1].size, (1, 2));
}

#[test]
fn too_many_bytes_are_not_counted() {
    let mut cache = TextureCache::new();
    cache.insert(Texture {
        name: "large".to_string(),
        pixels: Vec::new(),
        width: 40_000,
        height: 1,
    });
    assert_eq!(cache.atlas_len(), None);
}

#[test]
fn blocks_find_their_textures() {
    let mut definitions = HashMap::new();
    add_definition(
        &mut definitions,
        BlockDefinition {
            id: 3,
            name: "dirt".to_string(),
            solid: true,
            transparent: false,
            textures: BlockTextures {
                top: "grass".to_string(),
                bottom: "dirt".to_string(),
                side: "missing".to_string(),
            },
        },
    );
    let mut cache = TextureCache::new();
    cache.insert(texture("grass", 1, 1, 1));
    cache.insert(texture("dirt", 1, 1, 2));
    let atlas = cache.build_atlas().unwrap();
    assert_eq!(block_layer(&definitions, &atlas, 3, "top"), Some(1));
    assert_eq!(block_layer(&definitions, &atlas, 3, "bottom"), Some(0));
    assert_eq!(block_layer(&definitions, &atlas, 3, "side"), None);
    assert_eq!(block_layer(&definitions, &atlas, 3, "front"), None);
    assert_eq!(block_layer(&definitions, &atlas, 4, "top"), None);
    let uvs = vec![(0, 1, 0, 1), (1, 2, 0, 1)];
    let table = build_uv_table(&definitions, &atlas, &uvs, (9, 9, 9, 9));
    assert_eq!(table.get_uv(3, 0), (1, 2, 0, 1));
    assert_eq!(table.get_uv(3, 1), (0, 1, 0, 1));
    assert_eq!(table.get_uv(3, 2), (9, 9, 9, 9));
    assert_eq!(table.get_uv(4, 0), (9, 9, 9, 9));
}

#[test]
fn packs_are_chosen_in_order() {
    let mut names = Vec::new();
    for n in ["b", "a", "c", "ab", "\u{4e00}"] {
        insert_name(&mut names, n.to_string());
    }
    assert_eq!(names, vec!["a", "ab", "b", "c", "\u{4e00}"]);
    assert_eq!(resolve_pack(true, 0), PackChoice::Selected);
    assert_eq!(resolve_pack(false, 2), PackChoice::First);
    assert_eq!(resolve_pack(false, 0), PackChoice::CreateDefault);
    assert_eq!(scan_result(0), Err(PackError::NoTextures));
    assert_eq!(scan_result(3), Ok(3));
}

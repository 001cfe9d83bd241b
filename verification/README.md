# voxel_engine

The logic of a voxel game as a verified library, and the game round it.

- `src/` is the library. What its functions do is stated in `requires` and
  `ensures` (for a method of a trait, where the trait is declared), and Verus
  proves it. Three small functions call other crates, and what they state is
  believed: `decode_png` and `encode_png` in `src/resource_pack.rs`, which call
  `image`, and `cast_words` in `src/svo/gpu_traversal.rs`, which calls
  `bytemuck`. The bytes that `encode_png` writes are not stated, nor the order
  of the bytes of a word in `cast_words`. The library holds block
  storage, meshes, levels of detail, the loading and unloading of chunks,
  editing, ray casts, texture layers, mesh buffers, and under `src/svo/` the
  octree that decides what is visible.
- `tests/` runs the library on concrete values.
- `app/` is the game: Bevy systems, threads, files, and whatever computes with
  floating-point numbers.

Entities and meshes belong to the renderer; the library knows them by number.
Texture coordinates are a type parameter, so that the library never looks into
them. Public functions whose name starts with `law_` state what holds across
several operations.

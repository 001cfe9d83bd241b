//! How many triangles the loaded chunks show in all.

use crate::chunk_manager;
use crate::chunk_manager::{ChunkEntry, ChunkManager, LodChange};
use crate::load_queue::OffsetEntry;
use crate::lod;
use crate::lod::LodLevel;
use crate::types::ChunkCoord;
use vstd::prelude::*;

verus! {

/// How many triangles the meshes of a chunk have, that of water among them.
pub open spec fn entry_triangles(e: ChunkEntry) -> int {
    e.triangle_count + e.water_triangle_count
}

/// How many triangles the meshes of some chunks have in all.
pub open spec fn total_triangles(entries: Map<ChunkCoord, ChunkEntry>) -> int
    decreases entries.dom().len(),
    when entries.dom().finite()
{
    if entries.dom().len() == 0 {
        0
    } else {
        let c = entries.dom().choose();
        entry_triangles(entries[c]) + total_triangles(entries.remove(c))
    }
}

/// Any chunk may be counted first.
pub proof fn lemma_total_split(entries: Map<ChunkCoord, ChunkEntry>, c: ChunkCoord)
    requires
        entries.dom().finite(),
        entries.contains_key(c),
    ensures
        total_triangles(entries) == entry_triangles(entries[c]) + total_triangles(
            entries.remove(c),
        ),
    decreases entries.dom().len(),
{
    let d = entries.dom().choose();
    assert(entries.dom().contains(c));
    if d != c {
        let without = entries.remove(d);
        assert(without.dom() =~= entries.dom().remove(d));
        lemma_total_split(without, c);
        let less = entries.remove(c);
        assert(less.dom() =~= entries.dom().remove(c));
        assert(less.contains_key(d));
        lemma_total_split(less, d);
        assert(without.remove(c) =~= less.remove(d));
    }
}

/// A chunk that comes or changes.
pub proof fn lemma_total_insert(
    entries: Map<ChunkCoord, ChunkEntry>,
    c: ChunkCoord,
    e: ChunkEntry,
)
    requires
        entries.dom().finite(),
    ensures
        entries.insert(c, e).dom().finite(),
        total_triangles(entries.insert(c, e)) == total_triangles(entries) + entry_triangles(e) - (
        if entries.contains_key(c) {
            entry_triangles(entries[c])
        } else {
            0
        }),
{
    let after = entries.insert(c, e);
    assert(after.dom() =~= entries.dom().insert(c));
    lemma_total_split(after, c);
    if entries.contains_key(c) {
        lemma_total_split(entries, c);
        assert(after.remove(c) =~= entries.remove(c));
    } else {
        assert(after.remove(c) =~= entries);
    }
}

/// Chunks that go.
pub proof fn lemma_total_without(entries: Map<ChunkCoord, ChunkEntry>, gone: Seq<ChunkCoord>)
    requires
        entries.dom().finite(),
        gone.no_duplicates(),
        forall|i: int| 0 <= i < gone.len() ==> entries.contains_key(#[trigger] gone[i]),
    ensures
        total_triangles(entries.remove_keys(gone.to_set())) == total_triangles(entries)
            - chunk_manager::triangles_of(entries, gone),
    decreases gone.len(),
{
    if gone.len() == 0 {
        assert(entries.remove_keys(gone.to_set()) =~= entries);
    } else {
        let first = gone.drop_last();
        let c = gone.last();
        assert forall|i: int| 0 <= i < first.len() implies entries.contains_key(
            #[trigger] first[i],
        ) by {
            assert(first[i] == gone[i]);
        }
        lemma_total_without(entries, first);
        let before = entries.remove_keys(first.to_set());
        assert(before.dom() =~= entries.dom().difference(first.to_set()));
        assert(entries.contains_key(gone[gone.len() - 1]));
        assert(!first.contains(c)) by {
            if first.contains(c) {
                let k = choose|k: int| 0 <= k < first.len() && first[k] == c;
                assert(gone[k] == gone[gone.len() - 1]);
            }
        }
        lemma_total_split(before, c);
        assert forall|x: ChunkCoord| gone.to_set().contains(x) == (first.to_set().contains(x) || x
            == c) by {
            if first.contains(x) {
                let k = choose|k: int| 0 <= k < first.len() && first[k] == x;
                assert(gone[k] == x);
            }
            if gone.contains(x) && x != c {
                let k = choose|k: int| 0 <= k < gone.len() && gone[k] == x;
                assert(first[k] == x);
            }
            assert(gone[gone.len() - 1] == c);
        }
        assert(before.remove(c) =~= entries.remove_keys(gone.to_set()));
    }
}

/// Levels of detail do not matter.
pub proof fn lemma_total_with_lods(
    entries: Map<ChunkCoord, ChunkEntry>,
    changes: Seq<(ChunkCoord, LodLevel)>,
)
    requires
        entries.dom().finite(),
    ensures
        chunk_manager::with_lods(entries, changes).dom().finite(),
        total_triangles(chunk_manager::with_lods(entries, changes)) == total_triangles(entries),
    decreases changes.len(),
{
    if changes.len() > 0 {
        lemma_total_with_lods(entries, changes.drop_last());
        let before = chunk_manager::with_lods(entries, changes.drop_last());
        let (c, level) = changes.last();
        if before.contains_key(c) {
            lemma_total_insert(before, c, ChunkEntry { lod_level: level, ..before[c] });
        }
    }
}

/// A 32-bit count with a chunk's meshes in place of those that it had.
pub fn recount(total: u32, solid: u32, water: u32, old_solid: u32, old_water: u32) -> (r: u32)
    ensures
        r == (total + (solid + water) - (old_solid + old_water)) % 0x1_0000_0000,
{
    let with_solid: u32 = total.wrapping_add(solid);
    let with_both: u32 = with_solid.wrapping_add(water);
    let less_solid: u32 = with_both.wrapping_sub(old_solid);
    let r: u32 = less_solid.wrapping_sub(old_water);
    proof {
        let m: int = 0x1_0000_0000;
        let sum = total + (solid + water) - (old_solid + old_water);
        assert(r == sum || r == sum - m || r == sum - 2 * m || r == sum + m || r == sum + 2 * m);
        assert(r == sum % m);
    }
    r
}

/// A count that is right stays right when a number is added to it and to what is
/// counted.
proof fn lemma_wrap(t: int, d: int)
    ensures
        (t % 0x1_0000_0000 + d) % 0x1_0000_0000 == (t + d) % 0x1_0000_0000,
{
    let m: int = 0x1_0000_0000;
    vstd::arithmetic::div_mod::lemma_add_mod_noop(t, d, m);
    vstd::arithmetic::div_mod::lemma_add_mod_noop(t % m, d, m);
    vstd::arithmetic::div_mod::lemma_mod_twice(t, m);
}

/// The count stays right when a chunk comes or changes.
pub proof fn lemma_counted_insert(
    pre: ChunkManager,
    post: ChunkManager,
    c: ChunkCoord,
    e: ChunkEntry,
)
    requires
        pre.loaded.entries@.dom().finite(),
        post.loaded.entries@ == pre.loaded.entries@.insert(c, e),
        post.triangles == (pre.triangles + entry_triangles(e) - (
        if pre.loaded.entries@.contains_key(c) {
            entry_triangles(pre.loaded.entries@[c])
        } else {
            0
        })) % 0x1_0000_0000,
    ensures
        pre.counted() ==> post.counted(),
{
    let entries = pre.loaded.entries@;
    lemma_total_insert(entries, c, e);
    lemma_wrap(total_triangles(entries), total_triangles(post.loaded.entries@) - total_triangles(
        entries,
    ));
}

/// The count stays right when chunks are unloaded.
pub proof fn lemma_counted_gone(pre: ChunkManager, post: ChunkManager, gone: Seq<ChunkCoord>)
    requires
        pre.loaded.entries@.dom().finite(),
        chunk_manager::chunks_gone(pre, post, gone),
        gone.no_duplicates(),
        forall|i: int|
            0 <= i < gone.len() ==> pre.loaded.entries@.contains_key(#[trigger] gone[i]),
    ensures
        post.loaded.entries@.dom().finite(),
        pre.counted() ==> post.counted(),
{
    let entries = pre.loaded.entries@;
    lemma_total_without(entries, gone);
    assert(post.loaded.entries@.dom() =~= entries.dom().difference(gone.to_set()));
    lemma_wrap(total_triangles(entries), -chunk_manager::triangles_of(entries, gone));
}

/// The count stays right in the first steps of a frame.
pub proof fn lemma_counted_update(
    pre: ChunkManager,
    post: ChunkManager,
    player: ChunkCoord,
    offsets: Seq<OffsetEntry>,
    changes: Seq<LodChange>,
)
    requires
        pre.loaded.entries@.dom().finite(),
        chunk_manager::load_state_updated(pre, post, player, offsets, changes),
    ensures
        pre.counted() ==> post.counted(),
{
    let (a, b) = choose|a: ChunkManager, b: ChunkManager|
        {
            &&& #[trigger] chunk_manager::queue_step(pre, a, player, offsets)
            &&& #[trigger] chunk_manager::lods_step(a, b, player, changes)
            &&& chunk_manager::drop_step(b, post, player)
        };
    lemma_counted_queue(pre, a, player, offsets);
    let coords = choose|coords: Seq<ChunkCoord>| #[trigger]
        chunk_manager::lods_updated(a, b, player, coords, changes);
    let levels = if a.lods.last() == Some(player) {
        seq![]
    } else {
        lod::changes_after(a.lods.lods(), coords, player)
    };
    lemma_total_with_lods(a.loaded.entries@, levels);
    let gone = choose|gone: Seq<ChunkCoord>| #[trigger]
        chunk_manager::is_drop_list(b.loaded.entries@, player, gone) && chunk_manager::unloaded(
            b,
            post,
            gone,
        );
    assert forall|i: int| 0 <= i < gone.len() implies b.loaded.entries@.contains_key(
        #[trigger] gone[i],
    ) by {
        assert(chunk_manager::drop_candidates(b.loaded.entries@, player).contains(gone[i]));
    }
    lemma_counted_gone(b, post, gone);
}

/// The count stays right when the scan for chunks to load goes on.
proof fn lemma_counted_queue(
    pre: ChunkManager,
    post: ChunkManager,
    player: ChunkCoord,
    offsets: Seq<OffsetEntry>,
)
    requires
        pre.loaded.entries@.dom().finite(),
        chunk_manager::queue_step(pre, post, player, offsets),
    ensures
        post.loaded.entries@.dom().finite(),
        pre.counted() ==> post.counted(),
{
    let state = pre.loaded.load_queue_build_state;
    if (state is None && pre.loaded.last_player_chunk == Some(player)) || !(
    post.loaded.load_queue_build_state is None) || !(pre.loaded.needs_unload_check
        || state is None) {
    } else {
        let gone = choose|gone: Seq<ChunkCoord>| #[trigger]
            chunk_manager::all_far(pre.loaded.entries@, player, gone)
                && chunk_manager::chunks_gone(pre, post, gone);
        assert forall|i: int| 0 <= i < gone.len() implies pre.loaded.entries@.contains_key(
            #[trigger] gone[i],
        ) by {
            assert(gone.contains(gone[i]));
        }
        lemma_counted_gone(pre, post, gone);
    }
}

/// The total is the sum over the chunks: without chunks it is zero, and a further chunk adds
/// the triangles of both its meshes.
pub proof fn law_total_is_the_sum(
    entries: Map<ChunkCoord, ChunkEntry>,
    c: ChunkCoord,
    e: ChunkEntry,
)
    requires
        entries.dom().finite(),
        !entries.contains_key(c),
    ensures
        total_triangles(Map::<ChunkCoord, ChunkEntry>::empty()) == 0,
        total_triangles(entries.insert(c, e)) == total_triangles(entries) + e.triangle_count
            + e.water_triangle_count,
{
    lemma_total_insert(entries, c, e);
}

} // verus!

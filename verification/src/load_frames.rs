//! What holds of the loading of chunks over several frames.

use crate::chunk_manager;
use crate::chunk_manager::{ChunkEntry, ChunkManager, LodChange};
use crate::load_queue;
use crate::load_queue::{OffsetEntry, QUEUE_BUILD_STEPS_PER_FRAME};
use crate::lod;
use crate::lod::LodLevel;
use crate::types::ChunkCoord;
use vstd::prelude::*;

verus! {

/// A frame in which the player is in chunk `player`, with or without the chunks that
/// it sends to be prepared.
pub open spec fn frame(
    pre: ChunkManager,
    post: ChunkManager,
    player: ChunkCoord,
    offsets: Seq<OffsetEntry>,
) -> bool {
    ||| exists|changes: Seq<LodChange>| #[trigger]
        chunk_manager::load_state_updated(pre, post, player, offsets, changes)
    ||| exists|changes: Seq<LodChange>, sent: Seq<ChunkCoord>| #[trigger]
        chunk_manager::managed(pre, post, player, offsets, changes, sent)
}

/// Nothing has been done to the scan for chunks to load. Chunks may have come and
/// gone.
pub open spec fn scan_untouched(pre: ChunkManager, post: ChunkManager) -> bool {
    &&& post.loaded.load_queue_build_state == pre.loaded.load_queue_build_state
    &&& post.loaded.needs_unload_check == pre.loaded.needs_unload_check
    &&& post.loaded.last_player_chunk == pre.loaded.last_player_chunk
}

/// Frames that follow one another: frame `i` leads from `starts[i]` to `ends[i]`, with
/// the player in chunk `players[i]`. The first of them starts a scan, because the
/// player has moved, and none but the last can end it.
pub open spec fn one_scan(
    starts: Seq<ChunkManager>,
    ends: Seq<ChunkManager>,
    players: Seq<ChunkCoord>,
    offsets: Seq<OffsetEntry>,
) -> bool {
    &&& starts.len() == ends.len() == players.len()
    &&& starts.len() > 0
    &&& starts[0].loaded.load_queue_build_state is None
    &&& starts[0].loaded.last_player_chunk != Some(players[0])
    &&& forall|i: int|
        0 <= i < starts.len() ==> #[trigger] frame(starts[i], ends[i], players[i], offsets)
    &&& forall|i: int|
        0 < i < starts.len() ==> scan_untouched(ends[i - 1], #[trigger] starts[i])
    &&& forall|i: int|
        0 <= i < ends.len() - 1 ==> (#[trigger] ends[i]).loaded.load_queue_build_state is Some
}

/// Changes of levels of detail keep the chunks.
proof fn lemma_lods_keep_chunks(
    entries: Map<ChunkCoord, ChunkEntry>,
    changes: Seq<(ChunkCoord, LodLevel)>,
)
    ensures
        chunk_manager::with_lods(entries, changes).dom() =~= entries.dom(),
    decreases changes.len(),
{
    if changes.len() > 0 {
        lemma_lods_keep_chunks(entries, changes.drop_last());
    }
}

/// What a frame does to the scan is what its first step does, and the later steps let
/// no chunk come.
proof fn lemma_frame(
    pre: ChunkManager,
    post: ChunkManager,
    player: ChunkCoord,
    offsets: Seq<OffsetEntry>,
) -> (a: ChunkManager)
    requires
        frame(pre, post, player, offsets),
    ensures
        chunk_manager::queue_step(pre, a, player, offsets),
        scan_untouched(a, post),
        post.loaded.entries@.dom().subset_of(a.loaded.entries@.dom()),
{
    let (mid, changes) = if exists|changes: Seq<LodChange>| #[trigger]
        chunk_manager::load_state_updated(pre, post, player, offsets, changes) {
        let changes = choose|changes: Seq<LodChange>| #[trigger]
            chunk_manager::load_state_updated(pre, post, player, offsets, changes);
        (post, changes)
    } else {
        let (changes, sent) = choose|changes: Seq<LodChange>, sent: Seq<ChunkCoord>| #[trigger]
            chunk_manager::managed(pre, post, player, offsets, changes, sent);
        let mid = choose|mid: ChunkManager| #[trigger]
            chunk_manager::load_state_updated(pre, mid, player, offsets, changes)
                && chunk_manager::submitted(mid, post, sent);
        (mid, changes)
    };
    let (a, b) = choose|a: ChunkManager, b: ChunkManager|
        {
            &&& #[trigger] chunk_manager::queue_step(pre, a, player, offsets)
            &&& #[trigger] chunk_manager::lods_step(a, b, player, changes)
            &&& chunk_manager::drop_step(b, mid, player)
        };
    let coords = choose|coords: Seq<ChunkCoord>| #[trigger]
        chunk_manager::lods_updated(a, b, player, coords, changes);
    let levels = if a.lods.last() == Some(player) {
        seq![]
    } else {
        lod::changes_after(a.lods.lods(), coords, player)
    };
    lemma_lods_keep_chunks(a.loaded.entries@, levels);
    a
}

/// As long as a scan goes on, the check for chunks that are too far away is owed.
proof fn lemma_check_owed(
    starts: Seq<ChunkManager>,
    ends: Seq<ChunkManager>,
    players: Seq<ChunkCoord>,
    offsets: Seq<OffsetEntry>,
    n: int,
)
    requires
        one_scan(starts, ends, players, offsets),
        0 < n < starts.len(),
    ensures
        starts[n].loaded.needs_unload_check,
        starts[n].loaded.load_queue_build_state is Some,
    decreases n,
{
    if n > 1 {
        lemma_check_owed(starts, ends, players, offsets, n - 1);
    }
    assert(frame(starts[n - 1], ends[n - 1], players[n - 1], offsets));
    let a = lemma_frame(starts[n - 1], ends[n - 1], players[n - 1], offsets);
    assert(scan_untouched(ends[n - 1], starts[n]));
    assert(ends[n - 1].loaded.load_queue_build_state is Some);
}

/// Once a scan has ended, no chunk is loaded that is too far away from the player,
/// wherever the player went while it lasted and whatever chunks came and went between
/// its frames.
pub proof fn law_far_chunks_go(
    starts: Seq<ChunkManager>,
    ends: Seq<ChunkManager>,
    players: Seq<ChunkCoord>,
    offsets: Seq<OffsetEntry>,
    c: ChunkCoord,
)
    requires
        one_scan(starts, ends, players, offsets),
        ends.last().loaded.load_queue_build_state is None,
        ends.last().loaded.entries@.contains_key(c),
    ensures
        starts.last().loaded.entries@.contains_key(c),
        !chunk_manager::far(players.last(), c),
        -20 <= c.cx - players.last().cx <= 20,
        -20 <= c.cz - players.last().cz <= 20,
        -6 <= c.cy - players.last().cy <= 6,
{
    let n = starts.len() - 1;
    if n > 0 {
        lemma_check_owed(starts, ends, players, offsets, n);
    }
    assert(frame(starts[n], ends[n], players[n], offsets));
    let a = lemma_frame(starts[n], ends[n], players[n], offsets);
    assert(a.loaded.entries@.contains_key(c));
    let gone = choose|gone: Seq<ChunkCoord>| #[trigger]
        chunk_manager::all_far(starts[n].loaded.entries@, players[n], gone)
            && chunk_manager::chunks_gone(starts[n], a, gone);
    assert(!gone.contains(c));
}

/// The scan of a player who stays ends: a frame after which it still goes on has
/// looked at as many chunks as a frame looks at, and at those of the frames before.
pub proof fn law_scan_ends(
    starts: Seq<ChunkManager>,
    ends: Seq<ChunkManager>,
    players: Seq<ChunkCoord>,
    offsets: Seq<OffsetEntry>,
    n: int,
)
    requires
        one_scan(starts, ends, players, offsets),
        forall|i: int| 0 <= i < players.len() ==> #[trigger] players[i] == players[0],
        0 <= n < ends.len(),
        ends[n].loaded.load_queue_build_state is Some,
    ensures
        load_queue::resumed(ends[n].loaded.load_queue_build_state, players[0]).0 == (n + 1)
            * QUEUE_BUILD_STEPS_PER_FRAME,
        (n + 1) * QUEUE_BUILD_STEPS_PER_FRAME < load_queue::scan_len(offsets),
    decreases n,
{
    if n > 0 {
        assert(ends[n - 1].loaded.load_queue_build_state is Some);
        law_scan_ends(starts, ends, players, offsets, n - 1);
        assert(scan_untouched(ends[n - 1], starts[n]));
    }
    assert(frame(starts[n], ends[n], players[n], offsets));
    let a = lemma_frame(starts[n], ends[n], players[n], offsets);
    assert(players[n] == players[0]);
}

} // verus!

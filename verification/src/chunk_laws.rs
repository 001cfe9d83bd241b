//! What holds of chunks as they come, change and go.

use crate::chunk;
use crate::chunk_manager;
use crate::chunk_manager::{ChunkEntry, ChunkManager, LodChange};
use crate::lod;
use crate::lod::LodLevel;
use crate::types::ChunkCoord;
use vstd::prelude::*;

verus! {

/// A chunk is unloaded for its distance once it is more than twenty chunks away along x or
/// along z, or more than six along y.
pub proof fn law_unloading_distance(center: ChunkCoord, c: ChunkCoord)
    ensures
        chunk_manager::far(center, c) <==> c.cx - center.cx > 20 || center.cx - c.cx > 20 || c.cz
            - center.cz > 20 || center.cz - c.cz > 20 || c.cy - center.cy > 6 || center.cy - c.cy > 6,
{
}

/// No more than 32 chunks are dropped in a frame, and none as long as there are no more than
/// 20000; only chunks more than sixteen chunks away along x or along z are. A chunk that
/// stays and could have been dropped was used no less recently than any that is dropped,
/// and if it was used at the same time it is no farther away.
pub proof fn law_least_recent_go_first(
    pre: ChunkManager,
    post: ChunkManager,
    player: ChunkCoord,
    c: ChunkCoord,
    d: ChunkCoord,
)
    requires
        chunk_manager::drop_step(pre, post, player),
        pre.loaded.entries@.dom().finite(),
        pre.loaded.entries@.contains_key(c),
        !post.loaded.entries@.contains_key(c),
        post.loaded.entries@.contains_key(d),
    ensures
        pre.loaded.entries@.dom().len() > 20000,
        c.cx - player.cx > 16 || player.cx - c.cx > 16 || c.cz - player.cz > 16 || player.cz - c.cz
            > 16,
        d.cx - player.cx > 16 || player.cx - d.cx > 16 || d.cz - player.cz > 16 || player.cz - d.cz
            > 16 ==> pre.loaded.entries@[c].last_accessed <= pre.loaded.entries@[d].last_accessed && (
        pre.loaded.entries@[c].last_accessed == pre.loaded.entries@[d].last_accessed
            ==> lod::distance_sq(c, player) >= lod::distance_sq(d, player)),
        pre.loaded.entries@.contains_key(d) && post.loaded.entries@[d] == pre.loaded.entries@[d],
        post.loaded.entries@.dom().len() + 32 >= pre.loaded.entries@.dom().len(),
        post.loaded.entries@.dom().len() >= 20000,
{
    let entries = pre.loaded.entries@;
    let gone = choose|gone: Seq<ChunkCoord>| #[trigger]
        chunk_manager::is_drop_list(entries, player, gone) && chunk_manager::unloaded(
            pre,
            post,
            gone,
        );
    assert(gone.contains(c));
    let i = choose|i: int| 0 <= i < gone.len() && gone[i] == c;
    assert(chunk_manager::drop_candidates(entries, player).contains(gone[i]));
    assert(!gone.contains(d));
    if chunk_manager::droppable(player, d) {
        assert(chunk_manager::drop_candidates(entries, player).contains(d));
        assert(!chunk_manager::dropped_before(entries, player, d, gone[i]));
    }
    gone.unique_seq_to_set();
    assert(gone.to_set().subset_of(entries.dom())) by {
        assert forall|e: ChunkCoord| gone.to_set().contains(e) implies entries.dom().contains(e) by {
            let k = choose|k: int| 0 <= k < gone.len() && gone[k] == e;
            assert(chunk_manager::drop_candidates(entries, player).contains(gone[k]));
        }
    }
    assert(post.loaded.entries@.dom() =~= entries.dom().difference(gone.to_set()));
    vstd::set_lib::lemma_set_difference_len(entries.dom(), gone.to_set());
    assert(entries.dom().intersect(gone.to_set()) =~= gone.to_set());
}

/// A frame sends the chunks of its share of the queue to be prepared that are neither loaded
/// nor under way, each once; its share are the first 32 chunks of the queue, or all if
/// there are fewer, and the others stay in the queue.
pub proof fn law_what_is_sent(
    pre: ChunkManager,
    post: ChunkManager,
    sent: Seq<ChunkCoord>,
    c: ChunkCoord,
)
    requires
        chunk_manager::submitted(pre, post, sent),
    ensures
        ({
            let queue = pre.loaded.load_queue@;
            let n = queue.len() - post.loaded.load_queue@.len();
            &&& n == 32 || (n < 32 && post.loaded.load_queue@.len() == 0)
            &&& post.loaded.load_queue@ == queue.subrange(n, queue.len() as int)
            &&& sent.contains(c) <==> queue.take(n).contains(c) && !pre.loaded.entries@.contains_key(c)
                && !pre.tasks.meshing().contains(c) && !pre.tasks.preparing().contains(c)
            &&& sent.no_duplicates()
            &&& sent.contains(c) ==> post.tasks.preparing().contains(c)
        }),
{
    let queue = pre.loaded.load_queue@;
    let n = chunk_manager::frame_share(queue.len() as int);
    assert(queue.skip(n) =~= queue.subrange(n, queue.len() as int));
    lemma_sent_for(
        pre.loaded.entries@.dom(),
        pre.tasks.meshing(),
        pre.tasks.preparing(),
        queue.take(n),
        c,
    );
}

/// What is sent of a list of chunks.
proof fn lemma_sent_for(
    loaded: Set<ChunkCoord>,
    meshing: Set<ChunkCoord>,
    preparing: Set<ChunkCoord>,
    coords: Seq<ChunkCoord>,
    c: ChunkCoord,
)
    ensures
        ({
            let sent = chunk_manager::sent_for(loaded, meshing, preparing, coords);
            &&& sent.contains(c) <==> coords.contains(c) && !loaded.contains(c) && !meshing.contains(c)
                && !preparing.contains(c)
            &&& sent.no_duplicates()
        }),
    decreases coords.len(),
{
    if coords.len() > 0 {
        let short = coords.drop_last();
        let last = coords.last();
        lemma_sent_for(loaded, meshing, preparing, short, c);
        let before = chunk_manager::sent_for(loaded, meshing, preparing, short);
        let sent = chunk_manager::sent_for(loaded, meshing, preparing, coords);
        lemma_contains_last(coords, c);
        if sent != before {
            assert(sent.drop_last() =~= before);
            lemma_contains_last(sent, c);
        }
    }
}

/// What a list holds that is not empty.
proof fn lemma_contains_last<A>(s: Seq<A>, a: A)
    requires
        s.len() > 0,
    ensures
        s.contains(a) <==> s.drop_last().contains(a) || s.last() == a,
{
    let short = s.drop_last();
    if short.contains(a) {
        let k = choose|k: int| 0 <= k < short.len() && short[k] == a;
        assert(s[k] == a);
    }
    if s.contains(a) && s.last() != a {
        let k = choose|k: int| 0 <= k < s.len() && s[k] == a;
        assert(short[k] == a);
    }
    assert(s[s.len() - 1] == s.last());
}

/// Each loaded chunk has the level of detail that has been set for it.
pub open spec fn levels_agree(m: ChunkManager) -> bool {
    forall|c: ChunkCoord| #[trigger]
        m.loaded.entries@.contains_key(c) ==> m.loaded.entries@[c].lod_level == lod::lod_in(
            m.lods.lods(),
            c,
        )
}

/// The changes of level that a frame hands on are those of loaded chunks, each with its
/// entity and the level that it has from then on, and every chunk that has another level
/// afterwards is among them; what is set for a chunk and what it has stay the same.
pub proof fn law_changes_of_level(
    pre: ChunkManager,
    post: ChunkManager,
    player: ChunkCoord,
    changes: Seq<LodChange>,
    c: ChunkCoord,
)
    requires
        chunk_manager::lods_step(pre, post, player, changes),
        levels_agree(pre),
        pre.loaded.entries@.contains_key(c),
    ensures
        post.loaded.entries@.contains_key(c),
        post.loaded.entries@[c].lod_level == lod::lod_in(post.lods.lods(), c),
        post.loaded.entries@[c] == (ChunkEntry {
            lod_level: post.loaded.entries@[c].lod_level,
            ..pre.loaded.entries@[c]
        }),
        post.loaded.entries@[c].lod_level != pre.loaded.entries@[c].lod_level ==> exists|i: int|
            0 <= i < changes.len() && (#[trigger] changes[i]).coord == c && changes[i].entity
                == pre.loaded.entries@[c].entity && changes[i].lod_level
                == post.loaded.entries@[c].lod_level,
        forall|i: int|
            0 <= i < changes.len() && (#[trigger] changes[i]).coord == c ==> changes[i].lod_level
                == post.loaded.entries@[c].lod_level && changes[i].entity
                == pre.loaded.entries@[c].entity,
        pre.lods.last() != Some(player) && post.loaded.entries@[c].lod_level
            != pre.loaded.entries@[c].lod_level ==> post.loaded.entries@[c].lod_level
            == LodLevel::spec_at(lod::distance_sq(c, player)),
{
    let coords = choose|coords: Seq<ChunkCoord>| #[trigger]
        chunk_manager::lods_updated(pre, post, player, coords, changes);
    let entries = pre.loaded.entries@;
    let steps = if pre.lods.last() == Some(player) {
        seq![]
    } else {
        lod::changes_after(pre.lods.lods(), coords, player)
    };
    let level = lod::lod_in(post.lods.lods(), c);
    let before = lod::lod_in(pre.lods.lods(), c);
    if pre.lods.last() != Some(player) {
        lod::law_update_looks_at_each(pre.lods.lods(), coords, player, c);
    }
    assert forall|k: int| 0 <= k < steps.len() && (#[trigger] steps[k]).0 == c implies steps[k].1
        == level by {
        assert(steps.contains((c, steps[k].1)));
    }
    lemma_with_lods(entries, steps, c, level);
    if level != before {
        let k = choose|k: int| 0 <= k < steps.len() && steps[k] == (c, level);
        assert(changes[k].coord == c);
    } else {
        if exists|k: int| 0 <= k < steps.len() && (#[trigger] steps[k]).0 == c {
            let k = choose|k: int| 0 <= k < steps.len() && (#[trigger] steps[k]).0 == c;
            assert(steps.contains((c, level)));
        }
    }
    assert forall|i: int| 0 <= i < changes.len() && (#[trigger] changes[i]).coord == c implies
        changes[i].lod_level == level && changes[i].entity == entries[c].entity by {
        assert(steps[i].0 == c);
    }
}

/// What changes of level make of an entry, if all of them give it the same level.
proof fn lemma_with_lods(
    entries: Map<ChunkCoord, ChunkEntry>,
    steps: Seq<(ChunkCoord, LodLevel)>,
    c: ChunkCoord,
    level: LodLevel,
)
    requires
        entries.contains_key(c),
        forall|k: int| 0 <= k < steps.len() && (#[trigger] steps[k]).0 == c ==> steps[k].1 == level,
    ensures
        ({
            let after = chunk_manager::with_lods(entries, steps);
            &&& after.contains_key(c)
            &&& after[c] == if exists|k: int| 0 <= k < steps.len() && (#[trigger] steps[k]).0 == c {
                ChunkEntry { lod_level: level, ..entries[c] }
            } else {
                entries[c]
            }
        }),
    decreases steps.len(),
{
    if steps.len() > 0 {
        let short = steps.drop_last();
        assert forall|k: int| 0 <= k < short.len() && (#[trigger] short[k]).0 == c implies short[k].1
            == level by {
            assert(steps[k] == short[k]);
        }
        lemma_with_lods(entries, short, c, level);
        assert(steps[steps.len() - 1] == steps.last());
        if exists|k: int| 0 <= k < short.len() && (#[trigger] short[k]).0 == c {
            let k = choose|k: int| 0 <= k < short.len() && (#[trigger] short[k]).0 == c;
            assert(steps[k].0 == c);
        }
        if exists|k: int| 0 <= k < steps.len() && (#[trigger] steps[k]).0 == c {
            let k = choose|k: int| 0 <= k < steps.len() && (#[trigger] steps[k]).0 == c;
            if k < short.len() {
                assert(short[k].0 == c);
            }
        }
    }
}

/// A new chunk has those of its six neighbours drawn anew that are loaded and hold more than
/// air, as long as the budget lasts.
pub proof fn law_neighbours_of_a_new_chunk(
    entries: Map<ChunkCoord, ChunkEntry>,
    coord: ChunkCoord,
    budget: int,
    entity: u64,
)
    requires
        chunk_manager::neighbors_fit(coord),
        budget >= 0,
    ensures
        ({
            let touched = chunk_manager::touched_neighbors(entries, coord, 6, budget);
            let beside = |d: ChunkCoord|
                entries.contains_key(d) && !chunk::all_air(*entries[d].data) && entries[d].entity
                    == entity;
            let next_to = beside(ChunkCoord { cx: (coord.cx + 1) as i32, ..coord }) || beside(
                ChunkCoord { cx: (coord.cx - 1) as i32, ..coord },
            ) || beside(ChunkCoord { cy: (coord.cy + 1) as i32, ..coord }) || beside(
                ChunkCoord { cy: (coord.cy - 1) as i32, ..coord },
            ) || beside(ChunkCoord { cz: (coord.cz + 1) as i32, ..coord }) || beside(
                ChunkCoord { cz: (coord.cz - 1) as i32, ..coord },
            );
            &&& touched.len() <= budget
            &&& touched.contains(entity) ==> next_to
            &&& budget >= 6 && next_to ==> touched.contains(entity)
        }),
{
    lemma_touched(entries, coord, 6, budget, entity);
    assert(chunk_manager::neighbor_of(coord, 0) == ChunkCoord {
        cx: (coord.cx + 1) as i32,
        ..coord
    });
    assert(chunk_manager::neighbor_of(coord, 1) == ChunkCoord {
        cx: (coord.cx - 1) as i32,
        ..coord
    });
    assert(chunk_manager::neighbor_of(coord, 2) == ChunkCoord {
        cy: (coord.cy + 1) as i32,
        ..coord
    });
    assert(chunk_manager::neighbor_of(coord, 3) == ChunkCoord {
        cy: (coord.cy - 1) as i32,
        ..coord
    });
    assert(chunk_manager::neighbor_of(coord, 4) == ChunkCoord {
        cz: (coord.cz + 1) as i32,
        ..coord
    });
    assert(chunk_manager::neighbor_of(coord, 5) == ChunkCoord {
        cz: (coord.cz - 1) as i32,
        ..coord
    });
    let (x, y, z) = (
        shown_as(entries, coord, 0, entity) || shown_as(entries, coord, 1, entity),
        shown_as(entries, coord, 2, entity) || shown_as(entries, coord, 3, entity),
        shown_as(entries, coord, 4, entity) || shown_as(entries, coord, 5, entity),
    );
    let touched = chunk_manager::touched_neighbors(entries, coord, 6, budget);
    if touched.contains(entity) {
        let i = choose|i: int| 0 <= i < 6 && #[trigger] shown_as(entries, coord, i, entity);
        assert(i == 0 || i == 1 || i == 2 || i == 3 || i == 4 || i == 5);
        assert(x || y || z);
    }
}

/// The neighbour in a direction is loaded, holds more than air and has an entity.
spec fn shown_as(
    entries: Map<ChunkCoord, ChunkEntry>,
    coord: ChunkCoord,
    i: int,
    entity: u64,
) -> bool {
    let d = chunk_manager::neighbor_of(coord, i);
    entries.contains_key(d) && !chunk::all_air(*entries[d].data) && entries[d].entity == entity
}

/// What the neighbours in the first `n` directions are.
proof fn lemma_touched(
    entries: Map<ChunkCoord, ChunkEntry>,
    coord: ChunkCoord,
    n: int,
    budget: int,
    entity: u64,
)
    requires
        0 <= n <= 6,
        budget >= 0,
    ensures
        ({
            let touched = chunk_manager::touched_neighbors(entries, coord, n, budget);
            &&& touched.len() <= budget
            &&& touched.len() <= n
            &&& touched.contains(entity) ==> exists|i: int|
                0 <= i < n && #[trigger] shown_as(entries, coord, i, entity)
            &&& budget >= n ==> forall|i: int|
                0 <= i < n && #[trigger] shown_as(entries, coord, i, entity) ==> touched.contains(
                    entity,
                )
        }),
    decreases n,
{
    if n > 0 {
        lemma_touched(entries, coord, n - 1, budget, entity);
        let before = chunk_manager::touched_neighbors(entries, coord, n - 1, budget);
        let touched = chunk_manager::touched_neighbors(entries, coord, n, budget);
        if touched != before {
            assert(touched.drop_last() =~= before);
            lemma_contains_last(touched, entity);
            assert(touched.last() == entity ==> shown_as(entries, coord, n - 1, entity));
        }
    }
}

} // verus!

//! Which top-level regions the octree covers, as the player moves.

use crate::coord_map::CoordMap;
use crate::svo::config::MAX_LOD;
use crate::svo::node_manager;
use crate::svo::node_manager::NodeManager;
use crate::svo::position;
use crate::svo::position::encode_position;
use crate::svo::region_queue;
use crate::svo::region_queue::{
    region_positions, region_representable, renew, settle, share_of, Region, PROCESS_RATE,
};
use crate::svo::region_set;
use crate::svo::region_set::{difference, region_of, square};
use crate::svo::voxel_source::VoxelSource;
use crate::types::ChunkCoord;
use vstd::prelude::*;

verus! {

/// Keeps the octree's regions round the player.
pub struct SvoSyncController {
    /// The regions that have been asked for.
    pub loaded: CoordMap<()>,
    /// Those of them that wait to be inserted, in this order.
    pub pending: Vec<Region>,
    /// The player has moved since the regions were last computed.
    pub needs_rebuild: bool,
    /// Where the player was then, in whole voxels.
    pub last_px: i32,
    pub last_pz: i32,
}

/// The regions that belong round a position.
pub open spec fn wanted(px: int, pz: int) -> spec_fn(ChunkCoord) -> bool {
    |c: ChunkCoord|
        region_set::in_square(
            region_set::spec_region_of(px),
            region_set::spec_region_of(pz),
            1,
            -2,
            2,
            c,
        )
}

/// The regions that belong round a position and are not among some.
pub open spec fn wanted_but(px: int, pz: int, have: Map<ChunkCoord, ()>) -> spec_fn(
    ChunkCoord,
) -> bool {
    |c: ChunkCoord| wanted(px, pz)(c) && !have.contains_key(c)
}

/// The regions among some that do not belong round a position.
pub open spec fn unwanted(px: int, pz: int, have: Map<ChunkCoord, ()>) -> spec_fn(
    ChunkCoord,
) -> bool {
    |c: ChunkCoord| have.contains_key(c) && !wanted(px, pz)(c)
}

/// A region as a coordinate.
pub open spec fn coord_of(c: Region) -> ChunkCoord {
    ChunkCoord { cx: c.0, cy: c.1, cz: c.2 }
}

/// The regions round a position fit the packed form.
pub open spec fn regions_fit(px: int, pz: int) -> bool {
    &&& -0x8000 < region_set::spec_region_of(px) < 0x7fff
    &&& -0x8000 < region_set::spec_region_of(pz) < 0x7fff
}

impl SvoSyncController {
    /// The set of regions is consistent, and what waits has been asked for.
    pub open spec fn wf(&self) -> bool {
        &&& self.loaded.wf()
        &&& forall|i: int|
            0 <= i < self.pending@.len() ==> self.loaded@.contains_key(
                coord_of(#[trigger] self.pending@[i]),
            )
    }

    /// The regions that have been asked for fit the packed form.
    pub open spec fn fits(&self) -> bool {
        forall|c: ChunkCoord| #[trigger]
            self.loaded@.contains_key(c) ==> region_representable((c.cx, c.cy, c.cz))
    }

    /// Every region that has been asked for has a node or waits for one.
    pub open spec fn provides(&self, manager: NodeManager) -> bool {
        forall|c: ChunkCoord| #[trigger]
            self.loaded@.contains_key(c) ==> region_queue::provided(
                self.pending@,
                manager.ids(),
                (c.cx, c.cy, c.cz),
            )
    }

    /// The regions to be inserted and to be removed, and what is asked for then.
    pub open spec fn updated(&self, post: Self, add: Seq<Region>, rem: Seq<Region>) -> bool {
        &&& post.last_px == self.last_px
        &&& post.last_pz == self.last_pz
        &&& !post.needs_rebuild
        &&& if self.needs_rebuild {
            let (px, pz) = (self.last_px as int, self.last_pz as int);
            &&& forall|c: ChunkCoord| #[trigger]
                post.loaded@.contains_key(c) <==> wanted(px, pz)(c)
            &&& region_set::lists(add, wanted_but(px, pz, self.loaded@))
            &&& region_set::lists(rem, unwanted(px, pz, self.loaded@))
        } else {
            &&& post.loaded@ == self.loaded@
            &&& add == Seq::<Region>::empty()
            &&& rem == Seq::<Region>::empty()
        }
    }

    /// Notes where the player is, if the squared distance to where the player
    /// was, rounded up, is more than 32 squared. Returns whether that was so.
    pub fn set_center(&mut self, px: i32, pz: i32, moved_sq: u64) -> (r: bool)
        requires
            old(self).wf(),
        ensures
            final(self).wf(),
            r == (moved_sq > 1024),
            final(self).loaded == old(self).loaded,
            final(self).pending == old(self).pending,
            r ==> final(self).last_px == px && final(self).last_pz == pz
                && final(self).needs_rebuild,
            !r ==> *final(self) == *old(self),
    {
        if moved_sq > 1024 {
            self.last_px = px;
            self.last_pz = pz;
            self.needs_rebuild = true;
            true
        } else {
            false
        }
    }

    /// The regions to be inserted and those to be removed: a square of three by
    /// three columns round the player, five regions high, is kept. Nothing is to
    /// be done unless the player has moved. The regions to be inserted wait behind
    /// those that wait already and are still wanted.
    pub fn compute_updates(&mut self) -> (r: (Vec<Region>, Vec<Region>))
        requires
            old(self).wf(),
        ensures
            final(self).wf(),
            old(self).updated(*final(self), r.0@, r.1@),
            !old(self).needs_rebuild ==> *final(self) == *old(self),
            final(self).pending@ == region_queue::renewed(old(self).pending@, r.0@, r.1@),
    {
        if !self.needs_rebuild {
            proof {
                let none = Seq::<Region>::empty();
                lemma_none_leaves(self.pending@);
                assert(region_queue::renewed(self.pending@, none, none) =~= self.pending@);
            }
            return (Vec::new(), Vec::new());
        }
        self.needs_rebuild = false;
        let tx: i32 = region_of(self.last_px);
        let tz: i32 = region_of(self.last_pz);
        let fresh: CoordMap<()> = square(tx, tz, 1, -2, 2);
        let to_add: Vec<Region> = difference(&fresh, &self.loaded);
        let to_remove: Vec<Region> = difference(&self.loaded, &fresh);
        proof {
            let (px, pz) = (old(self).last_px as int, old(self).last_pz as int);
            let have = old(self).loaded@;
            assert forall|c: ChunkCoord| #[trigger]
                to_add@.contains((c.cx, c.cy, c.cz)) <==> wanted_but(px, pz, have)(c) by {
                assert(fresh@.contains_key(c) <==> wanted(px, pz)(c));
                assert(region_set::only_in(fresh@, have)(c) == wanted_but(px, pz, have)(c));
            }
            assert forall|c: ChunkCoord| #[trigger]
                to_remove@.contains((c.cx, c.cy, c.cz)) <==> unwanted(px, pz, have)(c) by {
                assert(fresh@.contains_key(c) <==> wanted(px, pz)(c));
                assert(region_set::only_in(have, fresh@)(c) == unwanted(px, pz, have)(c));
            }
        }
        self.pending = renew(&self.pending, &to_add, &to_remove);
        self.loaded = fresh;
        proof {
            let pre = *old(self);
            let (px, pz) = (pre.last_px as int, pre.last_pz as int);
            region_queue::lemma_renewed(pre.pending@, to_add@, to_remove@);
            assert forall|i: int| 0 <= i < self.pending@.len() implies self.loaded@.contains_key(
                coord_of(#[trigger] self.pending@[i]),
            ) by {
                let r = self.pending@[i];
                let c = coord_of(r);
                assert(self.pending@.contains(r));
                assert((c.cx, c.cy, c.cz) == r);
                if to_add@.contains(r) {
                    assert(wanted_but(px, pz, pre.loaded@)(c));
                } else {
                    assert(pre.pending@.contains(r) && !to_remove@.contains(r));
                    let k = choose|k: int| 0 <= k < pre.pending@.len() && pre.pending@[k] == r;
                    assert(pre.loaded@.contains_key(coord_of(pre.pending@[k])));
                    assert(!unwanted(px, pz, pre.loaded@)(c));
                }
            }
        }
        (to_add, to_remove)
    }

    /// Lets the octree follow the player for one frame: inserts the first share of
    /// the regions that wait, and removes all regions that are no longer wanted.
    /// Returns how many regions were to be inserted and how many to be removed.
    pub fn advance<S: VoxelSource>(&mut self, manager: &mut NodeManager, source: &S) -> (r: (
        usize,
        usize,
    ))
        requires
            source.valid(),
            old(self).wf(),
            old(self).fits(),
            old(self).needs_rebuild ==> regions_fit(
                old(self).last_px as int,
                old(self).last_pz as int,
            ),
            old(manager).wf(),
            old(manager).inserts() == Seq::<u64>::empty(),
            old(manager).removes() == Seq::<u64>::empty(),
        ensures
            final(self).wf(),
            final(self).fits(),
            final(manager).wf(),
            final(manager).inserts() == Seq::<u64>::empty(),
            final(manager).removes() == Seq::<u64>::empty(),
            exists|add: Seq<Region>, rem: Seq<Region>|
                advanced(
                    *old(self),
                    *final(self),
                    *old(manager),
                    *final(manager),
                    add,
                    rem,
                    r,
                    source,
                ),
            old(self).provides(*old(manager)) ==> final(self).provides(*final(manager)),
    {
        let ghost pre = *self;
        let ghost before = *manager;
        let (to_add, to_remove) = self.compute_updates();
        let ghost mid = *self;
        let ghost queue = self.pending@;
        proof {
            lemma_updates_fit(pre, mid, to_add@, to_remove@);
            assert(region_queue::all_representable(queue)) by {
                assert forall|i: int| 0 <= i < queue.len() implies region_representable(
                    #[trigger] queue[i],
                ) by {
                    let c = coord_of(queue[i]);
                    assert(mid.loaded@.contains_key(c));
                    assert((c.cx, c.cy, c.cz) == queue[i]);
                }
            }
        }
        let share: Vec<Region> = share_of(&self.pending, PROCESS_RATE);
        proof {
            region_queue::lemma_share(queue, PROCESS_RATE);
        }
        apply_updates(manager, &share, &to_remove, source);
        let (_come, waiting) = settle(&self.pending, PROCESS_RATE, manager);
        self.pending = waiting;
        let r: (usize, usize) = (share.len(), to_remove.len());
        proof {
            let none = Seq::<u64>::empty();
            assert(none + region_positions(share@) =~= region_positions(share@));
            assert(none + region_positions(to_remove@) =~= region_positions(to_remove@));
            assert forall|i: int| 0 <= i < self.pending@.len() implies self.loaded@.contains_key(
                coord_of(#[trigger] self.pending@[i]),
            ) by {
                let c = self.pending@[i];
                region_queue::lemma_still_waiting(queue, PROCESS_RATE, manager.ids(), c);
                assert(self.pending@.contains(c));
                let k = choose|k: int| 0 <= k < queue.len() && queue[k] == c;
                assert(mid.loaded@.contains_key(coord_of(queue[k])));
            }
            if pre.provides(before) {
                lemma_provides(pre, *self, before, *manager, to_add@, to_remove@, source);
            }
            assert(advanced(pre, *self, before, *manager, to_add@, to_remove@, r, source));
        }
        r
    }
}

/// One frame has gone by: `add` and `rem` are the regions that the player's move
/// asks for and no longer asks for, the first share of those that wait has been
/// inserted, and all of `rem` have been removed.
pub open spec fn advanced<S: VoxelSource>(
    pre: SvoSyncController,
    post: SvoSyncController,
    before: NodeManager,
    after: NodeManager,
    add: Seq<Region>,
    rem: Seq<Region>,
    counts: (usize, usize),
    source: &S,
) -> bool {
    let queue = region_queue::renewed(pre.pending@, add, rem);
    &&& pre.updated(post, add, rem)
    &&& region_queue::share_inserted(before, after, queue, PROCESS_RATE, rem, source)
    &&& post.pending@ == region_queue::still_waiting(queue, PROCESS_RATE, after.ids())
    &&& counts.0 == region_queue::first_share(queue, PROCESS_RATE).len()
    &&& counts.1 == rem.len()
}

/// Nothing leaves a queue where nothing is to be removed.
pub proof fn lemma_none_leaves(waiting: Seq<Region>)
    ensures
        waiting.filter(region_queue::not_among(Seq::empty())) == waiting,
    decreases waiting.len(),
{
    reveal(Seq::filter);
    if waiting.len() > 0 {
        lemma_none_leaves(waiting.drop_last());
        assert(waiting.drop_last().push(waiting.last()) =~= waiting);
    } else {
        assert(waiting.filter(region_queue::not_among(Seq::empty())) =~= waiting);
    }
}

/// The regions of an update fit the packed form.
proof fn lemma_updates_fit(
    pre: SvoSyncController,
    post: SvoSyncController,
    add: Seq<Region>,
    rem: Seq<Region>,
)
    requires
        pre.fits(),
        pre.needs_rebuild ==> regions_fit(pre.last_px as int, pre.last_pz as int),
        pre.updated(post, add, rem),
    ensures
        post.fits(),
        region_queue::all_representable(rem),
{
    let (px, pz) = (pre.last_px as int, pre.last_pz as int);
    if pre.needs_rebuild {
        assert forall|c: ChunkCoord| #[trigger]
            post.loaded@.contains_key(c) implies region_representable((c.cx, c.cy, c.cz)) by {
            assert(wanted(px, pz)(c));
        }
        assert forall|i: int| 0 <= i < rem.len() implies region_representable(
            #[trigger] rem[i],
        ) by {
            let c = coord_of(rem[i]);
            assert(rem.contains((c.cx, c.cy, c.cz)));
            assert(unwanted(px, pz, pre.loaded@)(c));
            assert(pre.loaded@.contains_key(c));
        }
    }
}

/// No region that has been asked for is forgotten.
proof fn lemma_provides<S: VoxelSource>(
    pre: SvoSyncController,
    post: SvoSyncController,
    before: NodeManager,
    after: NodeManager,
    add: Seq<Region>,
    rem: Seq<Region>,
    source: &S,
)
    requires
        pre.provides(before),
        pre.updated(post, add, rem),
        post.fits(),
        region_queue::all_representable(rem),
        region_queue::share_inserted(
            before,
            after,
            region_queue::renewed(pre.pending@, add, rem),
            PROCESS_RATE,
            rem,
            source,
        ),
        post.pending@ == region_queue::still_waiting(
            region_queue::renewed(pre.pending@, add, rem),
            PROCESS_RATE,
            after.ids(),
        ),
    ensures
        post.provides(after),
{
    let (px, pz) = (pre.last_px as int, pre.last_pz as int);
    assert forall|c: ChunkCoord| #[trigger]
        post.loaded@.contains_key(c) implies region_queue::provided(
        post.pending@,
        after.ids(),
        (c.cx, c.cy, c.cz),
    ) by {
        let r = (c.cx, c.cy, c.cz);
        if pre.needs_rebuild {
            assert(wanted(px, pz)(c));
            assert(rem.contains(r) == unwanted(px, pz, pre.loaded@)(c));
            assert(add.contains(r) == wanted_but(px, pz, pre.loaded@)(c));
        }
        if pre.loaded@.contains_key(c) {
            assert(region_queue::provided(pre.pending@, before.ids(), r));
        }
        region_queue::law_no_region_is_forgotten(
            pre.pending@,
            add,
            rem,
            PROCESS_RATE,
            before,
            after,
            source,
            r,
        );
    }
}

/// Every region that belongs round the player becomes a root: a frame in which the
/// store does not fill up turns the first share of those that wait into roots, and
/// when none waits any more, all regions that have been asked for are roots.
pub proof fn law_wanted_regions_become_roots<S: VoxelSource>(
    pre: SvoSyncController,
    post: SvoSyncController,
    before: NodeManager,
    after: NodeManager,
    add: Seq<Region>,
    rem: Seq<Region>,
    counts: (usize, usize),
    source: &S,
    c: ChunkCoord,
)
    requires
        pre.wf(),
        pre.fits(),
        pre.provides(before),
        pre.needs_rebuild ==> regions_fit(pre.last_px as int, pre.last_pz as int),
        advanced(pre, post, before, after, add, rem, counts, source),
        !region_queue::filled_up(
            before,
            region_queue::renewed(pre.pending@, add, rem),
            PROCESS_RATE,
            source,
        ),
    ensures
        post.pending@.len() + counts.0 == region_queue::renewed(pre.pending@, add, rem).len(),
        post.loaded@.contains_key(c) && post.pending@.len() == 0 ==> after.ids().contains_key(
            region_queue::region_pos((c.cx, c.cy, c.cz)),
        ),
{
    let queue = region_queue::renewed(pre.pending@, add, rem);
    let (px, pz) = (pre.last_px as int, pre.last_pz as int);
    lemma_updates_fit(pre, post, add, rem);
    region_queue::lemma_renewed(pre.pending@, add, rem);
    assert forall|r: Region| #[trigger] queue.contains(r) implies !rem.contains(r)
        && region_representable(r) by {
        let d = coord_of(r);
        assert((d.cx, d.cy, d.cz) == r);
        if pre.needs_rebuild {
            assert(rem.contains(r) == unwanted(px, pz, pre.loaded@)(d));
            assert(add.contains(r) == wanted_but(px, pz, pre.loaded@)(d));
            assert(post.loaded@.contains_key(d) == wanted(px, pz)(d));
        }
        if pre.pending@.contains(r) {
            let k = choose|k: int| 0 <= k < pre.pending@.len() && pre.pending@[k] == r;
            assert(pre.loaded@.contains_key(coord_of(pre.pending@[k])));
        }
    }
    assert forall|i: int| 0 <= i < queue.len() implies region_representable(#[trigger] queue[i]) by {
        assert(queue.contains(queue[i]));
    }
    region_queue::law_share_becomes_roots(queue, PROCESS_RATE, rem, before, after, source);
    lemma_provides(pre, post, before, after, add, rem, source);
    assert(post.loaded@.contains_key(c) ==> region_queue::provided(
        post.pending@,
        after.ids(),
        (c.cx, c.cy, c.cz),
    ));
}

impl Default for SvoSyncController {
    /// No regions, and the player counts as having moved.
    fn default() -> (r: Self)
        ensures
            r.wf(),
            r.loaded@ == Map::<ChunkCoord, ()>::empty(),
            r.pending@ == Seq::<Region>::empty(),
            r.needs_rebuild,
            r.last_px == i32::MAX,
            r.last_pz == i32::MAX,
    {
        Self {
            loaded: CoordMap::new(),
            pending: Vec::new(),
            needs_rebuild: true,
            last_px: i32::MAX,
            last_pz: i32::MAX,
        }
    }
}

/// Inserts the regions to be added and removes those to be removed, and builds the
/// octrees of the new ones.
pub fn apply_updates<S: VoxelSource>(
    manager: &mut NodeManager,
    to_add: &Vec<Region>,
    to_remove: &Vec<Region>,
    source: &S,
)
    requires
        source.valid(),
        old(manager).wf(),
        region_queue::all_representable(to_add@),
    ensures
        final(manager).wf(),
        final(manager).inserts() == Seq::<u64>::empty(),
        final(manager).removes() == Seq::<u64>::empty(),
        node_manager::processed(
            *old(manager),
            *final(manager),
            old(manager).inserts() + region_positions(to_add@),
            old(manager).removes() + region_positions(to_remove@),
            source,
        ),
{
    let ghost pre = *manager;
    let mut i: usize = 0;
    assert(pre.inserts() + region_positions(to_add@.take(0)) =~= pre.inserts());
    while i < to_add.len()
        invariant
            i <= to_add@.len(),
            manager.wf(),
            region_queue::all_representable(to_add@),
            manager.same_but_queues(&pre),
            manager.inserts() == pre.inserts() + region_positions(to_add@.take(i as int)),
            manager.removes() == pre.removes(),
        decreases to_add@.len() - i,
    {
        let (x, y, z) = to_add[i];
        proof {
            assert(region_representable(to_add@[i as int]));
            position::law_decode_encode(4, x as int, y as int, z as int);
        }
        let pos: u64 = encode_position(MAX_LOD, x, y, z);
        manager.insert_top_level(pos);
        assert(manager.inserts() =~= pre.inserts() + region_positions(to_add@.take(i + 1)));
        i = i + 1;
    }
    assert(to_add@.take(i as int) =~= to_add@);
    let mut j: usize = 0;
    assert(pre.removes() + region_positions(to_remove@.take(0)) =~= pre.removes());
    while j < to_remove.len()
        invariant
            j <= to_remove@.len(),
            manager.wf(),
            manager.same_but_queues(&pre),
            manager.inserts() == pre.inserts() + region_positions(to_add@),
            manager.removes() == pre.removes() + region_positions(to_remove@.take(j as int)),
        decreases to_remove@.len() - j,
    {
        let (x, y, z) = to_remove[j];
        let pos: u64 = encode_position(MAX_LOD, x, y, z);
        proof {
            position::lemma_encode_level(4, x as int, y as int, z as int);
        }
        manager.remove_top_level(pos);
        assert(manager.removes() =~= pre.removes() + region_positions(to_remove@.take(j + 1)));
        j = j + 1;
    }
    assert(to_remove@.take(j as int) =~= to_remove@);
    let ghost queued = *manager;
    manager.process_pending(source);
    proof {
        node_manager::lemma_processed_from(
            pre,
            queued,
            *manager,
            queued.inserts(),
            queued.removes(),
            source,
        );
    }
}

/// The regions that are kept are those that were asked for: what is to be
/// inserted and what is to be removed have nothing in common.
pub proof fn law_updates_disjoint(px: int, pz: int, have: Map<ChunkCoord, ()>, c: ChunkCoord)
    ensures
        !(wanted_but(px, pz, have)(c) && unwanted(px, pz, have)(c)),
        (have.contains_key(c) && !unwanted(px, pz, have)(c)) || wanted_but(px, pz, have)(c)
            <==> wanted(px, pz)(c),
{
}

/// The regions round a player are those beside the player's own and two layers up and down:
/// three by three columns of five.
pub proof fn law_regions_round_the_player(px: int, pz: int, c: ChunkCoord)
    ensures
        wanted(px, pz)(c) <==> {
            let (x, z) = (region_set::spec_region_of(px), region_set::spec_region_of(pz));
            &&& c.cx == x - 1 || c.cx == x || c.cx == x + 1
            &&& c.cz == z - 1 || c.cz == z || c.cz == z + 1
            &&& c.cy == -2 || c.cy == -1 || c.cy == 0 || c.cy == 1 || c.cy == 2
        },
{
}

} // verus!

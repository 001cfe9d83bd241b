//! Which top-level regions are kept round the player, for an adjustable
//! distance.

use crate::coord_map::CoordMap;
use crate::svo::node_manager::NodeManager;
use crate::svo::region_queue;
use crate::svo::region_queue::{
    region_positions, region_representable, renew, settle, share_of, Region, PROCESS_RATE,
};
use crate::svo::region_set;
use crate::svo::region_set::{difference, region_of, square};
use crate::svo::section;
use crate::svo::section::{SectionCoord, SectionId};
use crate::svo::section_tracker;
use crate::svo::section_tracker::SectionTracker;
use crate::svo::svo_sync;
use crate::svo::svo_sync::apply_updates;
use crate::svo::voxel_source::VoxelSource;
use crate::types::ChunkCoord;
use vstd::prelude::*;

verus! {

/// Keeps regions round the player.
pub struct RenderDistanceController {
    /// How many regions to each side are kept.
    pub render_distance: i32,
    /// The lowest regions.
    pub min_y: i32,
    /// The highest regions.
    pub max_y: i32,
    /// The columns that have been asked for, at height 0.
    pub loaded: CoordMap<()>,
    /// The regions of these columns that wait to be inserted, in this order.
    pub pending: Vec<Region>,
    /// Where the player was last, in whole voxels.
    pub last_px: i32,
    pub last_pz: i32,
    /// The regions are to be computed anew.
    pub needs_rebuild: bool,
    /// How many regions are inserted in one frame.
    pub process_rate: usize,
}

/// The column of a region.
pub open spec fn column_of(c: ChunkCoord) -> ChunkCoord {
    ChunkCoord { cx: c.cx, cy: 0, cz: c.cz }
}

/// The regions of some columns between two heights.
fn expand(columns: &CoordMap<()>, y_min: i32, y_max: i32) -> (r: CoordMap<()>)
    requires
        columns.wf(),
        y_max < i32::MAX,
        forall|c: ChunkCoord| #[trigger] columns@.contains_key(c) ==> c.cy == 0,
    ensures
        r.wf(),
        forall|c: ChunkCoord| #[trigger]
            r@.contains_key(c) <==> columns@.contains_key(column_of(c)) && y_min <= c.cy <= y_max,
{
    let list: Vec<ChunkCoord> = columns.coords();
    let mut out: CoordMap<()> = CoordMap::new();
    let mut i: usize = 0;
    while i < list.len()
        invariant
            i <= list@.len(),
            y_max < i32::MAX,
            out.wf(),
            forall|c: ChunkCoord| #[trigger] list@.contains(c) <==> columns@.contains_key(c),
            forall|c: ChunkCoord| #[trigger] columns@.contains_key(c) ==> c.cy == 0,
            forall|c: ChunkCoord| #[trigger]
                out@.contains_key(c) <==> list@.take(i as int).contains(column_of(c)) && y_min
                    <= c.cy <= y_max,
        decreases list@.len() - i,
    {
        let column: ChunkCoord = list[i];
        let ghost before = out@;
        assert(list@.contains(column));
        let mut y: i32 = y_min;
        while y <= y_max
            invariant
                y_max < i32::MAX,
                y_min <= y,
                y_min <= y_max ==> y <= y_max + 1,
                y_min > y_max ==> y == y_min,
                out.wf(),
                column.cy == 0,
                forall|c: ChunkCoord| #[trigger]
                    out@.contains_key(c) <==> before.contains_key(c) || (column_of(c) == column
                        && y_min <= c.cy < y),
            decreases y_max + 1 - y,
        {
            out.insert(ChunkCoord { cx: column.cx, cy: y, cz: column.cz }, ());
            y = y + 1;
        }
        proof {
            let (p, q) = (list@.take(i as int), list@.take(i + 1));
            assert forall|c: ChunkCoord| #[trigger]
                out@.contains_key(c) <==> q.contains(column_of(c)) && y_min <= c.cy <= y_max by {
                let d = column_of(c);
                assert(before.contains_key(c) <==> p.contains(d) && y_min <= c.cy <= y_max);
                if p.contains(d) {
                    let k = choose|k: int| 0 <= k < p.len() && p[k] == d;
                    assert(q[k] == d);
                }
                if q.contains(d) && d != column {
                    let k = choose|k: int| 0 <= k < q.len() && q[k] == d;
                    assert(p[k] == d);
                }
                assert(q[i as int] == column);
                assert(q.contains(d) == (p.contains(d) || d == column));
                assert(y > y_max);
                assert(out@.contains_key(c) <==> before.contains_key(c) || (d == column && y_min
                    <= c.cy < y));
            }
        }
        i = i + 1;
    }
    assert(list@.take(i as int) =~= list@);
    out
}

impl RenderDistanceController {
    /// The columns are consistent, the heights leave room, and what waits has been
    /// asked for and waits once.
    pub open spec fn wf(&self) -> bool {
        &&& self.loaded.wf()
        &&& forall|c: ChunkCoord| #[trigger] self.loaded@.contains_key(c) ==> c.cy == 0
        &&& self.max_y < i32::MAX
        &&& self.pending@.no_duplicates()
        &&& forall|i: int|
            0 <= i < self.pending@.len() ==> self.has(svo_sync::coord_of(#[trigger] self.pending@[i]))
    }

    /// The regions that have been asked for fit the packed form.
    pub open spec fn fits(&self) -> bool {
        forall|c: ChunkCoord| #[trigger]
            self.has(c) ==> region_representable((c.cx, c.cy, c.cz))
    }

    /// The columns that belong round the player have 32-bit coordinates.
    pub open spec fn area_fits(&self) -> bool {
        region_set::square_fits(
            region_set::spec_region_of(self.last_px as int),
            region_set::spec_region_of(self.last_pz as int),
            self.render_distance as int,
        )
    }

    /// The regions that belong round the player fit the packed form.
    pub open spec fn wants_what_fits(&self) -> bool {
        let tx = region_set::spec_region_of(self.last_px as int);
        let tz = region_set::spec_region_of(self.last_pz as int);
        &&& -0x8000 <= tx - self.render_distance && tx + self.render_distance < 0x8000
        &&& -0x8000 <= tz - self.render_distance && tz + self.render_distance < 0x8000
        &&& -0x8000 <= self.min_y && self.max_y < 0x8000
    }

    /// Every region that has been asked for has a node or waits for one.
    pub open spec fn provides(&self, manager: NodeManager) -> bool {
        forall|c: ChunkCoord| #[trigger]
            self.has(c) ==> region_queue::provided(
                self.pending@,
                manager.ids(),
                (c.cx, c.cy, c.cz),
            )
    }

    /// The regions to be inserted and to be removed, and what is asked for then.
    pub open spec fn updated(self, post: Self, add: Seq<Region>, rem: Seq<Region>) -> bool {
        &&& !post.needs_rebuild
        &&& post.render_distance == self.render_distance
        &&& post.min_y == self.min_y
        &&& post.max_y == self.max_y
        &&& post.last_px == self.last_px
        &&& post.last_pz == self.last_pz
        &&& post.process_rate == self.process_rate
        &&& if self.needs_rebuild {
            &&& forall|c: ChunkCoord| post.has(c) == #[trigger] self.wants(c)
            &&& self.min_y > self.max_y ==> post.loaded@ == Map::<ChunkCoord, ()>::empty()
            &&& region_set::lists(add, self.lacking())
            &&& region_set::lists(rem, self.surplus())
        } else {
            &&& post.loaded@ == self.loaded@
            &&& add == Seq::<Region>::empty()
            &&& rem == Seq::<Region>::empty()
        }
    }

    /// A region belongs round the player.
    pub open spec fn wants(&self, c: ChunkCoord) -> bool {
        region_set::in_square(
            region_set::spec_region_of(self.last_px as int),
            region_set::spec_region_of(self.last_pz as int),
            self.render_distance as int,
            self.min_y as int,
            self.max_y as int,
            c,
        )
    }

    /// A region was asked for.
    pub open spec fn has(&self, c: ChunkCoord) -> bool {
        self.loaded@.contains_key(column_of(c)) && self.min_y <= c.cy <= self.max_y
    }

    /// The regions that belong round the player and were not asked for.
    pub open spec fn lacking(self) -> spec_fn(ChunkCoord) -> bool {
        |c: ChunkCoord| self.wants(c) && !self.has(c)
    }

    /// The regions that were asked for and do not belong round the player.
    pub open spec fn surplus(self) -> spec_fn(ChunkCoord) -> bool {
        |c: ChunkCoord| self.has(c) && !self.wants(c)
    }

    /// Sets the distance.
    pub fn set_render_distance(&mut self, distance: i32)
        requires
            old(self).wf(),
        ensures
            final(self).wf(),
            final(self).render_distance == distance,
            final(self).needs_rebuild == (old(self).needs_rebuild || distance != old(
                self,
            ).render_distance),
            final(self).min_y == old(self).min_y,
            final(self).max_y == old(self).max_y,
            final(self).loaded == old(self).loaded,
            final(self).pending == old(self).pending,
            final(self).process_rate == old(self).process_rate,
            final(self).last_px == old(self).last_px,
            final(self).last_pz == old(self).last_pz,
    {
        if distance != self.render_distance {
            self.render_distance = distance;
            self.needs_rebuild = true;
        }
    }

    /// Notes where the player is, if the squared distance to where the player
    /// was, rounded up, is more than 32 squared. Returns whether that was so.
    pub fn set_center(&mut self, px: i32, pz: i32, moved_sq: u64) -> (r: bool)
        requires
            old(self).wf(),
        ensures
            final(self).wf(),
            r == (moved_sq > 1024),
            !r ==> *final(self) == *old(self),
            r ==> final(self).last_px == px && final(self).last_pz == pz
                && final(self).needs_rebuild && final(self).loaded == old(self).loaded
                && final(self).pending == old(self).pending && final(self).process_rate == old(
                self,
            ).process_rate
                && final(self).render_distance == old(self).render_distance && final(self).min_y
                == old(self).min_y && final(self).max_y == old(self).max_y,
    {
        if moved_sq > 1024 {
            self.last_px = px;
            self.last_pz = pz;
            self.needs_rebuild = true;
            true
        } else {
            false
        }
    }

    /// The regions to be inserted and those to be removed. Nothing is to be done
    /// unless the player has moved or the distance was changed. The regions to be
    /// inserted wait behind those that wait already and are still wanted.
    pub fn compute_updates(&mut self) -> (r: (Vec<Region>, Vec<Region>))
        requires
            old(self).wf(),
            old(self).needs_rebuild ==> old(self).area_fits(),
        ensures
            final(self).wf(),
            old(self).updated(*final(self), r.0@, r.1@),
            !old(self).needs_rebuild ==> *final(self) == *old(self),
            final(self).pending@ == region_queue::renewed(old(self).pending@, r.0@, r.1@),
    {
        if !self.needs_rebuild {
            proof {
                let none = Seq::<Region>::empty();
                svo_sync::lemma_none_leaves(self.pending@);
                assert(region_queue::renewed(self.pending@, none, none) =~= self.pending@);
            }
            return (Vec::new(), Vec::new());
        }
        self.needs_rebuild = false;
        let tx: i32 = region_of(self.last_px);
        let tz: i32 = region_of(self.last_pz);
        let fresh: CoordMap<()> = square(
            tx,
            tz,
            self.render_distance,
            self.min_y,
            self.max_y,
        );
        let before: CoordMap<()> = expand(&self.loaded, self.min_y, self.max_y);
        let to_add: Vec<Region> = difference(&fresh, &before);
        let to_remove: Vec<Region> = difference(&before, &fresh);
        proof {
            let pre = *old(self);
            assert forall|c: ChunkCoord| fresh@.contains_key(c) == #[trigger] pre.wants(c)
                && before@.contains_key(c) == pre.has(c) by {
                assert(before@.contains_key(c) <==> pre.has(c));
                assert(fresh@.contains_key(c) <==> pre.wants(c));
            }
            assert forall|c: ChunkCoord| #[trigger]
                to_add@.contains((c.cx, c.cy, c.cz)) <==> pre.lacking()(c) by {
                assert(fresh@.contains_key(c) == pre.wants(c));
                assert(region_set::only_in(fresh@, before@)(c) == pre.lacking()(c));
            }
            assert forall|c: ChunkCoord| #[trigger]
                to_remove@.contains((c.cx, c.cy, c.cz)) <==> pre.surplus()(c) by {
                assert(fresh@.contains_key(c) == pre.wants(c));
                assert(region_set::only_in(before@, fresh@)(c) == pre.surplus()(c));
            }
        }
        self.loaded = if self.min_y <= self.max_y {
            square(tx, tz, self.render_distance, 0, 0)
        } else {
            CoordMap::new()
        };
        self.pending = renew(&self.pending, &to_add, &to_remove);
        proof {
            let pre = *old(self);
            assert forall|c: ChunkCoord| self.has(c) == #[trigger] pre.wants(c) by {
                let d = column_of(c);
                assert(self.loaded@.contains_key(d) <==> self.min_y <= self.max_y
                    && region_set::in_square(
                    tx as int,
                    tz as int,
                    self.render_distance as int,
                    0,
                    0,
                    d,
                ));
            }
            region_queue::lemma_renewed(pre.pending@, to_add@, to_remove@);
            assert forall|r: Region| #[trigger] to_add@.contains(r) implies !pre.pending@.contains(
                r,
            ) by {
                let c = svo_sync::coord_of(r);
                assert((c.cx, c.cy, c.cz) == r);
                assert(pre.lacking()(c));
                if pre.pending@.contains(r) {
                    let k = choose|k: int| 0 <= k < pre.pending@.len() && pre.pending@[k] == r;
                    assert(pre.has(svo_sync::coord_of(pre.pending@[k])));
                }
            }
            region_queue::lemma_renewed_once(pre.pending@, to_add@, to_remove@);
            assert forall|i: int| 0 <= i < self.pending@.len() implies self.has(
                svo_sync::coord_of(#[trigger] self.pending@[i]),
            ) by {
                let r = self.pending@[i];
                let c = svo_sync::coord_of(r);
                assert(self.pending@.contains(r));
                assert((c.cx, c.cy, c.cz) == r);
                assert(self.has(c) == pre.wants(c));
                if to_add@.contains(r) {
                    assert(pre.lacking()(c));
                } else {
                    assert(pre.pending@.contains(r) && !to_remove@.contains(r));
                    let k = choose|k: int| 0 <= k < pre.pending@.len() && pre.pending@[k] == r;
                    assert(pre.has(svo_sync::coord_of(pre.pending@[k])));
                    assert(!pre.surplus()(c));
                }
            }
        }
        (to_add, to_remove)
    }

    /// Lets the sections and the octree follow the player for one frame: inserts the
    /// first share of the regions that wait, uses the first sections of those that
    /// have become roots, and removes all regions that are no longer wanted. Returns
    /// how many regions were to be inserted and how many to be removed, and which
    /// sections left the cache.
    pub fn advance<S: VoxelSource>(
        &mut self,
        tracker: &mut SectionTracker,
        manager: &mut NodeManager,
        source: &S,
    ) -> (r: (usize, usize, Vec<Option<SectionId>>))
        requires
            source.valid(),
            old(self).wf(),
            old(self).fits(),
            old(self).needs_rebuild ==> old(self).wants_what_fits(),
            old(tracker).wf(),
            uses_leave_room(*old(tracker)),
            old(manager).wf(),
            old(manager).inserts() == Seq::<u64>::empty(),
            old(manager).removes() == Seq::<u64>::empty(),
        ensures
            final(self).wf(),
            final(self).fits(),
            final(tracker).wf(),
            final(manager).wf(),
            final(manager).inserts() == Seq::<u64>::empty(),
            final(manager).removes() == Seq::<u64>::empty(),
            exists|add: Seq<Region>, rem: Seq<Region>, chain: Seq<SectionTracker>|
                {
                    &&& #[trigger] advanced(
                        *old(self),
                        *final(self),
                        *old(manager),
                        *final(manager),
                        add,
                        rem,
                        (r.0, r.1),
                        source,
                    )
                    &&& #[trigger] followed(
                        chain,
                        region_queue::arrived(
                            region_queue::renewed(old(self).pending@, add, rem),
                            old(self).process_rate,
                            final(manager).ids(),
                        ),
                        rem,
                        r.2@,
                    )
                    &&& chain.first() == *old(tracker)
                    &&& chain.last() == *final(tracker)
                },
            old(self).provides(*old(manager)) ==> final(self).provides(*final(manager)),
    {
        let ghost pre = *self;
        let ghost before = *manager;
        let (to_add, to_remove) = self.compute_updates();
        let ghost mid = *self;
        let ghost queue = self.pending@;
        proof {
            lemma_updates_fit(pre, mid, to_add@, to_remove@);
            assert forall|i: int| 0 <= i < queue.len() implies region_representable(
                #[trigger] queue[i],
            ) by {
                let c = svo_sync::coord_of(queue[i]);
                assert(mid.has(c));
                assert((c.cx, c.cy, c.cz) == queue[i]);
            }
        }
        let share: Vec<Region> = share_of(&self.pending, self.process_rate);
        proof {
            region_queue::lemma_share(queue, pre.process_rate);
        }
        apply_updates(manager, &share, &to_remove, source);
        let (come, waiting) = settle(&self.pending, self.process_rate, manager);
        self.pending = waiting;
        proof {
            region_queue::lemma_arrived(queue, pre.process_rate, manager.ids());
            region_queue::lemma_settled_once(queue, pre.process_rate, manager.ids());
        }
        let evicted: Vec<Option<SectionId>> = follow_sections(tracker, &come, &to_remove);
        let r: (usize, usize, Vec<Option<SectionId>>) = (share.len(), to_remove.len(), evicted);
        proof {
            let none = Seq::<u64>::empty();
            assert(none + region_positions(share@) =~= region_positions(share@));
            assert(none + region_positions(to_remove@) =~= region_positions(to_remove@));
            assert forall|i: int| 0 <= i < self.pending@.len() implies self.has(
                svo_sync::coord_of(#[trigger] self.pending@[i]),
            ) by {
                let c = self.pending@[i];
                region_queue::lemma_still_waiting(queue, pre.process_rate, manager.ids(), c);
                assert(self.pending@.contains(c));
                let k = choose|k: int| 0 <= k < queue.len() && queue[k] == c;
                assert(mid.has(svo_sync::coord_of(queue[k])));
            }
            assert forall|c: ChunkCoord| #[trigger] self.has(c) implies region_representable(
                (c.cx, c.cy, c.cz),
            ) by {
                assert(mid.has(c));
            }
            assert(pre.updated(*self, to_add@, to_remove@)) by {
                assert forall|c: ChunkCoord| pre.needs_rebuild implies self.has(c)
                    == #[trigger] pre.wants(c) by {
                    assert(mid.has(c) == pre.wants(c));
                }
            }
            if pre.provides(before) {
                lemma_provides(pre, *self, before, *manager, to_add@, to_remove@, source);
            }
            assert(advanced(
                pre,
                *self,
                before,
                *manager,
                to_add@,
                to_remove@,
                (r.0, r.1),
                source,
            ));
            let chain = choose|chain: Seq<SectionTracker>|
                chain.len() > 0 && chain.first() == *old(tracker) && chain.last() == *tracker
                    && #[trigger] followed(chain, come@, to_remove@, evicted@);
            assert(followed(
                chain,
                region_queue::arrived(
                    region_queue::renewed(pre.pending@, to_add@, to_remove@),
                    pre.process_rate,
                    manager.ids(),
                ),
                to_remove@,
                r.2@,
            ));
        }
        r
    }
}

/// One frame has gone by: `add` and `rem` are the regions that the player's move
/// asks for and no longer asks for, the first share of those that wait has been
/// inserted, and all of `rem` have been removed.
pub open spec fn advanced<S: VoxelSource>(
    pre: RenderDistanceController,
    post: RenderDistanceController,
    before: NodeManager,
    after: NodeManager,
    add: Seq<Region>,
    rem: Seq<Region>,
    counts: (usize, usize),
    source: &S,
) -> bool {
    let queue = region_queue::renewed(pre.pending@, add, rem);
    &&& pre.updated(post, add, rem)
    &&& region_queue::share_inserted(before, after, queue, pre.process_rate, rem, source)
    &&& post.pending@ == region_queue::still_waiting(queue, pre.process_rate, after.ids())
    &&& counts.0 == region_queue::first_share(queue, pre.process_rate).len()
    &&& counts.1 == rem.len()
}

/// The regions of an update fit the packed form.
proof fn lemma_updates_fit(
    pre: RenderDistanceController,
    post: RenderDistanceController,
    add: Seq<Region>,
    rem: Seq<Region>,
)
    requires
        pre.fits(),
        pre.needs_rebuild ==> pre.wants_what_fits(),
        pre.updated(post, add, rem),
    ensures
        post.fits(),
        region_queue::all_representable(rem),
{
    assert forall|c: ChunkCoord| #[trigger] post.has(c) implies region_representable(
        (c.cx, c.cy, c.cz),
    ) by {
        if pre.needs_rebuild {
            assert(post.has(c) == pre.wants(c));
        } else {
            assert(pre.has(c));
        }
    }
    if pre.needs_rebuild {
        assert forall|i: int| 0 <= i < rem.len() implies region_representable(
            #[trigger] rem[i],
        ) by {
            let c = svo_sync::coord_of(rem[i]);
            assert(rem.contains((c.cx, c.cy, c.cz)));
            assert(pre.surplus()(c));
            assert(pre.has(c));
        }
    }
}

/// No region that has been asked for is forgotten.
proof fn lemma_provides<S: VoxelSource>(
    pre: RenderDistanceController,
    post: RenderDistanceController,
    before: NodeManager,
    after: NodeManager,
    add: Seq<Region>,
    rem: Seq<Region>,
    source: &S,
)
    requires
        pre.provides(before),
        pre.updated(post, add, rem),
        post.fits(),
        region_queue::all_representable(rem),
        region_queue::share_inserted(
            before,
            after,
            region_queue::renewed(pre.pending@, add, rem),
            pre.process_rate,
            rem,
            source,
        ),
        post.pending@ == region_queue::still_waiting(
            region_queue::renewed(pre.pending@, add, rem),
            pre.process_rate,
            after.ids(),
        ),
    ensures
        post.provides(after),
{
    assert forall|c: ChunkCoord| #[trigger] post.has(c) implies region_queue::provided(
        post.pending@,
        after.ids(),
        (c.cx, c.cy, c.cz),
    ) by {
        let r = (c.cx, c.cy, c.cz);
        if pre.needs_rebuild {
            assert(post.has(c) == pre.wants(c));
            assert(rem.contains(r) == pre.surplus()(c));
            assert(add.contains(r) == pre.lacking()(c));
        } else {
            assert(pre.has(c));
        }
        if pre.has(c) {
            assert(region_queue::provided(pre.pending@, before.ids(), r));
        }
        region_queue::law_no_region_is_forgotten(
            pre.pending@,
            add,
            rem,
            pre.process_rate,
            before,
            after,
            source,
            r,
        );
    }
}

/// Every region that belongs round the player becomes a root: a frame in which the
/// store does not fill up turns the first share of those that wait into roots, and
/// when none waits any more, all regions that have been asked for are roots.
pub proof fn law_wanted_regions_become_roots<S: VoxelSource>(
    pre: RenderDistanceController,
    post: RenderDistanceController,
    before: NodeManager,
    after: NodeManager,
    add: Seq<Region>,
    rem: Seq<Region>,
    counts: (usize, usize),
    source: &S,
    c: ChunkCoord,
)
    requires
        pre.wf(),
        pre.fits(),
        pre.provides(before),
        pre.needs_rebuild ==> pre.wants_what_fits(),
        advanced(pre, post, before, after, add, rem, counts, source),
        !region_queue::filled_up(
            before,
            region_queue::renewed(pre.pending@, add, rem),
            pre.process_rate,
            source,
        ),
    ensures
        post.pending@.len() + counts.0 == region_queue::renewed(pre.pending@, add, rem).len(),
        post.has(c) && post.pending@.len() == 0 ==> after.ids().contains_key(
            region_queue::region_pos((c.cx, c.cy, c.cz)),
        ),
{
    let queue = region_queue::renewed(pre.pending@, add, rem);
    lemma_updates_fit(pre, post, add, rem);
    region_queue::lemma_renewed(pre.pending@, add, rem);
    assert forall|r: Region| #[trigger] queue.contains(r) implies !rem.contains(r)
        && region_representable(r) by {
        let d = svo_sync::coord_of(r);
        assert((d.cx, d.cy, d.cz) == r);
        if pre.needs_rebuild {
            assert(rem.contains(r) == pre.surplus()(d));
            assert(add.contains(r) == pre.lacking()(d));
            assert(post.has(d) == pre.wants(d));
        }
        if pre.pending@.contains(r) {
            let k = choose|k: int| 0 <= k < pre.pending@.len() && pre.pending@[k] == r;
            assert(pre.has(svo_sync::coord_of(pre.pending@[k])));
        }
    }
    assert forall|i: int| 0 <= i < queue.len() implies region_representable(#[trigger] queue[i]) by {
        assert(queue.contains(queue[i]));
    }
    region_queue::law_share_becomes_roots(queue, pre.process_rate, rem, before, after, source);
    lemma_provides(pre, post, before, after, add, rem, source);
    assert(post.has(c) ==> region_queue::provided(
        post.pending@,
        after.ids(),
        (c.cx, c.cy, c.cz),
    ));
}

impl Default for RenderDistanceController {
    /// One region to each side, from two below to two above.
    fn default() -> (r: Self)
        ensures
            r.wf(),
            r.render_distance == 1,
            r.min_y == -2,
            r.max_y == 2,
            r.loaded@ == Map::<ChunkCoord, ()>::empty(),
            r.pending@ == Seq::<Region>::empty(),
            r.last_px == i32::MAX,
            r.last_pz == i32::MAX,
            !r.needs_rebuild,
            r.process_rate == PROCESS_RATE,
    {
        Self {
            render_distance: 1,
            min_y: -2,
            max_y: 2,
            loaded: CoordMap::new(),
            pending: Vec::new(),
            last_px: i32::MAX,
            last_pz: i32::MAX,
            needs_rebuild: false,
            process_rate: PROCESS_RATE,
        }
    }
}

/// The first section of a top-level region.
pub open spec fn first_section(c: Region) -> SectionCoord {
    SectionCoord { x: (c.0 * 16) as i32, y: (c.1 * 16) as i32, z: (c.2 * 16) as i32 }
}

/// The trackers of `chain` lead from one to the next by using the first sections
/// of `add` and then giving back those of `rem`, where `evicted` had to leave.
pub open spec fn followed(
    chain: Seq<SectionTracker>,
    add: Seq<Region>,
    rem: Seq<Region>,
    evicted: Seq<Option<SectionId>>,
) -> bool {
    &&& chain.len() == add.len() + rem.len() + 1
    &&& evicted.len() == rem.len()
    &&& forall|i: int|
        0 <= i < add.len() ==> section_tracker::acquire_step(
            #[trigger] chain[i],
            chain[i + 1],
            first_section(add[i]),
        )
    &&& forall|j: int|
        0 <= j < rem.len() ==> section_tracker::release_step(
            chain[add.len() + j],
            chain[add.len() + j + 1],
            first_section(rem[j]).spec_encode() as u64,
            #[trigger] evicted[j],
        )
}

/// Every use count leaves room for one more use.
pub open spec fn uses_leave_room(t: SectionTracker) -> bool {
    forall|id: SectionId| #[trigger]
        t.active_map().contains_key(id) ==> t.active_map()[id].ref_count < u32::MAX
}

/// The use counts of the first sections of some regions leave room for one more use.
spec fn regions_leave_room(t: SectionTracker, v: Seq<Region>, from: int) -> bool {
    forall|k: int|
        from <= k < v.len() && t.active_map().contains_key(
            first_section(#[trigger] v[k]).spec_encode() as u64,
        ) ==> t.active_map()[first_section(v[k]).spec_encode() as u64].ref_count < u32::MAX
}

/// Different regions have different first sections.
proof fn lemma_first_sections_differ(a: Region, b: Region)
    requires
        region_representable(a),
        region_representable(b),
        a != b,
    ensures
        first_section(a).spec_encode() as u64 != first_section(b).spec_encode() as u64,
{
    section::law_section_position(first_section(a));
    section::law_section_position(first_section(b));
}

/// Uses the first sections of the regions that were added and gives back those of
/// the regions that were removed. Returns which sections left the cache.
fn follow_sections(
    tracker: &mut SectionTracker,
    to_add: &Vec<Region>,
    to_remove: &Vec<Region>,
) -> (r: Vec<Option<SectionId>>)
    requires
        old(tracker).wf(),
        uses_leave_room(*old(tracker)),
        to_add@.no_duplicates(),
        region_queue::all_representable(to_add@),
        region_queue::all_representable(to_remove@),
    ensures
        final(tracker).wf(),
        exists|chain: Seq<SectionTracker>|
            chain.len() > 0 && chain.first() == *old(tracker) && chain.last() == *final(tracker)
                && #[trigger] followed(
                chain,
                to_add@,
                to_remove@,
                r@,
            ),
{
    let ghost share = to_add@;
    let ghost mut chain: Seq<SectionTracker> = seq![*tracker];
    let count: usize = to_add.len();
    let mut i: usize = 0;
    while i < count
        invariant
            i <= count <= to_add@.len(),
            to_add@.no_duplicates(),
            count == share.len(),
            share == to_add@,
            tracker.wf(),
            regions_leave_room(*tracker, to_add@, i as int),
            region_queue::all_representable(to_add@),
            chain.len() == i + 1,
            chain.first() == *old(tracker),
            chain.last() == *tracker,
            forall|k: int|
                0 <= k < i ==> section_tracker::acquire_step(
                    #[trigger] chain[k],
                    chain[k + 1],
                    first_section(share[k]),
                ),
        decreases count - i,
    {
        let (x, y, z) = to_add[i];
        assert(region_representable(to_add@[i as int]));
        assert(share[i as int] == to_add@[i as int]);
        let coord: SectionCoord = SectionCoord::new(x * 16, y * 16, z * 16);
        let ghost before = *tracker;
        tracker.acquire(coord);
        proof {
            let longer = chain.push(*tracker);
            assert forall|k: int| 0 <= k < i + 1 implies section_tracker::acquire_step(
                #[trigger] longer[k],
                longer[k + 1],
                first_section(share[k]),
            ) by {
                if k < i {
                    assert(longer[k] == chain[k] && longer[k + 1] == chain[k + 1]);
                }
            }
            chain = longer;
            assert forall|k: int|
                i + 1 <= k < to_add@.len() && tracker.active_map().contains_key(
                    first_section(#[trigger] to_add@[k]).spec_encode() as u64,
                ) implies tracker.active_map()[first_section(
                to_add@[k],
            ).spec_encode() as u64].ref_count < u32::MAX by {
                assert(region_representable(to_add@[k]));
                assert(to_add@[k] != to_add@[i as int]);
                lemma_first_sections_differ(to_add@[k], to_add@[i as int]);
            }
        }
        i = i + 1;
    }
    let mut evicted: Vec<Option<SectionId>> = Vec::new();
    let mut j: usize = 0;
    while j < to_remove.len()
        invariant
            j <= to_remove@.len(),
            count == share.len(),
            tracker.wf(),
            region_queue::all_representable(to_remove@),
            evicted@.len() == j,
            chain.len() == count + j + 1,
            chain.first() == *old(tracker),
            chain.last() == *tracker,
            forall|k: int|
                0 <= k < count ==> section_tracker::acquire_step(
                    #[trigger] chain[k],
                    chain[k + 1],
                    first_section(share[k]),
                ),
            forall|k: int|
                0 <= k < j ==> section_tracker::release_step(
                    chain[count + k],
                    chain[count + k + 1],
                    first_section(to_remove@[k]).spec_encode() as u64,
                    #[trigger] evicted@[k],
                ),
        decreases to_remove@.len() - j,
    {
        let (x, y, z) = to_remove[j];
        assert(region_representable(to_remove@[j as int]));
        let coord: SectionCoord = SectionCoord::new(x * 16, y * 16, z * 16);
        let id: SectionId = coord.encode();
        let gone: Option<SectionId> = tracker.release(id);
        let ghost earlier = evicted@;
        evicted.push(gone);
        proof {
            let longer = chain.push(*tracker);
            assert forall|k: int| 0 <= k < count implies section_tracker::acquire_step(
                #[trigger] longer[k],
                longer[k + 1],
                first_section(share[k]),
            ) by {
                assert(longer[k] == chain[k] && longer[k + 1] == chain[k + 1]);
            }
            assert forall|k: int| 0 <= k < j + 1 implies section_tracker::release_step(
                longer[count + k],
                longer[count + k + 1],
                first_section(to_remove@[k]).spec_encode() as u64,
                #[trigger] evicted@[k],
            ) by {
                if k < j {
                    assert(evicted@[k] == earlier[k]);
                    assert(longer[count + k] == chain[count + k]);
                    assert(longer[count + k + 1] == chain[count + k + 1]);
                }
            }
            chain = longer;
        }
        j = j + 1;
    }
    assert(followed(chain, share, to_remove@, evicted@));
    evicted
}

/// The regions that belong round the player are the columns at most the render distance away
/// from the player's along both axes, between the lowest and the highest layer; where the
/// player has moved, what is inserted and removed leads from the regions asked for before to
/// exactly these.
pub proof fn law_updates_lead_to_the_player(
    pre: RenderDistanceController,
    post: RenderDistanceController,
    add: Seq<Region>,
    rem: Seq<Region>,
    c: ChunkCoord,
)
    requires
        pre.updated(post, add, rem),
    ensures
        pre.wants(c) <==> {
            let dx = c.cx - region_set::spec_region_of(pre.last_px as int);
            let dz = c.cz - region_set::spec_region_of(pre.last_pz as int);
            &&& dx <= pre.render_distance && -dx <= pre.render_distance
            &&& dz <= pre.render_distance && -dz <= pre.render_distance
            &&& pre.min_y <= c.cy && c.cy <= pre.max_y
        },
        post.has(c) <==> add.contains((c.cx, c.cy, c.cz)) || (pre.has(c) && !rem.contains(
            (c.cx, c.cy, c.cz),
        )),
        pre.needs_rebuild ==> (post.has(c) <==> pre.wants(c)),
        !pre.needs_rebuild ==> post.has(c) == pre.has(c),
{
    let t = (c.cx, c.cy, c.cz);
    if pre.needs_rebuild {
        assert(post.has(c) == pre.wants(c));
        assert(add.contains(t) <==> pre.lacking()(c));
        assert(rem.contains(t) <==> pre.surplus()(c));
    }
}

/// A top-level region is sixteen sections wide along each axis, and its first section is the
/// one at its lower corner: the first sections of neighbouring regions are sixteen apart.
pub proof fn law_first_sections_apart(a: Region, b: Region)
    requires
        region_representable(a),
        region_representable(b),
    ensures
        first_section((0, 0, 0)) == (SectionCoord { x: 0, y: 0, z: 0 }),
        first_section(b).x - first_section(a).x == 16 * (b.0 - a.0),
        first_section(b).y - first_section(a).y == 16 * (b.1 - a.1),
        first_section(b).z - first_section(a).z == 16 * (b.2 - a.2),
{
}

} // verus!

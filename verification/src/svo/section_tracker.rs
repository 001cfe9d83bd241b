//! The life of sections: those in use, and a cache of those that were used last.

use crate::svo::section::{Section, SectionCoord, SectionId};
use std::collections::HashMap;
use vstd::prelude::*;
use vstd::std_specs::hash::*;

verus! {

broadcast use vstd::std_specs::hash::group_hash_axioms;

/// A section is in use or cached but not both, the order lists the cached ones,
/// each once, and no section in use has a count of zero.
pub open spec fn sections_wf(
    active: Map<SectionId, Section>,
    cache: Map<SectionId, Section>,
    order: Seq<SectionId>,
) -> bool {
    &&& order.no_duplicates()
    &&& forall|id: SectionId| #[trigger] cache.contains_key(id) <==> order.contains(id)
    &&& forall|id: SectionId| #[trigger]
        active.contains_key(id) ==> !cache.contains_key(id) && active[id].wf()
            && active[id].ref_count >= 1
    &&& forall|id: SectionId| #[trigger] cache.contains_key(id) ==> cache[id].wf()
}

/// Keeps sections while they are in use, and some of them for a while after.
pub struct SectionTracker {
    active: HashMap<SectionId, Section>,
    cache: HashMap<SectionId, Section>,
    /// The cached sections, the one released longest ago first.
    lru: Vec<SectionId>,
    cache_size: usize,
}

impl SectionTracker {
    /// The sections in use.
    pub closed spec fn active_map(&self) -> Map<SectionId, Section> {
        self.active@
    }

    /// The cached sections.
    pub closed spec fn cache_map(&self) -> Map<SectionId, Section> {
        self.cache@
    }

    /// The cached sections, the one released longest ago first.
    pub closed spec fn order(&self) -> Seq<SectionId> {
        self.lru@
    }

    /// How many sections are cached at most.
    pub closed spec fn capacity(&self) -> int {
        self.cache_size as int
    }

    /// The tracker is consistent.
    pub open spec fn wf(&self) -> bool {
        &&& sections_wf(self.active_map(), self.cache_map(), self.order())
        &&& self.order().len() <= self.capacity() || self.order().len() <= 1
        &&& self.counts_right()
    }

    /// The number of cached sections is the length of their order.
    pub closed spec fn counts_right(&self) -> bool {
        self.cache@.dom().finite() && self.cache@.len() == self.lru@.len()
    }

    /// A tracker without sections that caches `cache_size` of them.
    pub fn new(cache_size: usize) -> (r: Self)
        ensures
            r.wf(),
            r.active_map() == Map::<SectionId, Section>::empty(),
            r.cache_map() == Map::<SectionId, Section>::empty(),
            r.order() == Seq::<SectionId>::empty(),
            r.capacity() == cache_size,
    {
        let r = Self { active: HashMap::new(), cache: HashMap::new(), lru: Vec::new(), cache_size };
        assert(r.lru@ =~= Seq::empty());
        r
    }

    /// The section that is handed out when one at `coord` is asked for: the one
    /// in use, used once more; the cached one; or a new one.
    pub open spec fn acquired(&self, coord: SectionCoord) -> Section {
        let id = coord.spec_encode() as u64;
        if self.active_map().contains_key(id) {
            let s = self.active_map()[id];
            Section { ref_count: (s.ref_count + 1) as u32, ..s }
        } else {
            Section { ref_count: 1, ..self.cache_map()[id] }
        }
    }

    /// Notes a use of the section at `coord` and returns its id. A section that
    /// is neither in use nor cached is made anew.
    pub fn acquire(&mut self, coord: SectionCoord) -> (id: SectionId)
        requires
            old(self).wf(),
            old(self).active_map().contains_key(coord.spec_encode() as u64) ==> old(
                self,
            ).active_map()[coord.spec_encode() as u64].ref_count < u32::MAX,
        ensures
            final(self).wf(),
            id == coord.spec_encode(),
            acquire_step(*old(self), *final(self), coord),
    {
        let id: SectionId = coord.encode();
        let ghost pre = *self;
        proof {
            lemma_filter_other(self.lru@, id);
        }
        match self.active.remove(&id) {
            Some(mut section) => {
                section.acquire();
                self.active.insert(id, section);
                proof {
                    assert(self.active@ =~= pre.active@.insert(id, self.active@[id]));
                    assert(self.cache@ =~= pre.cache@.remove(id));
                    assert(self.lru@ == pre.lru@.filter(other_than(id)));
                }
                return id;
            },
            None => {},
        }
        assert(self.active@ =~= pre.active@);
        match self.cache.remove(&id) {
            Some(mut section) => {
                self.remove_from_lru(id);
                section.ref_count = 1;
                self.active.insert(id, section);
            },
            None => {
                assert(self.cache@ =~= pre.cache@);
                assert(self.cache@ =~= pre.cache@.remove(id));
                self.active.insert(id, Section::new(coord));
            },
        }
        id
    }

    /// Takes an id out of the order.
    fn remove_from_lru(&mut self, id: SectionId)
        ensures
            final(self).active == old(self).active,
            final(self).cache == old(self).cache,
            final(self).cache_size == old(self).cache_size,
            final(self).lru@ == old(self).lru@.filter(other_than(id)),
    {
        let mut kept: Vec<SectionId> = Vec::new();
        let mut i: usize = 0;
        proof {
            reveal(Seq::filter);
            assert(self.lru@.take(0) =~= Seq::empty());
        }
        while i < self.lru.len()
            invariant
                i <= self.lru@.len(),
                *self == *old(self),
                kept@ == self.lru@.take(i as int).filter(other_than(id)),
            decreases self.lru@.len() - i,
        {
            proof {
                reveal(Seq::filter);
                assert(self.lru@.take(i + 1).drop_last() =~= self.lru@.take(i as int));
            }
            if self.lru[i] != id {
                kept.push(self.lru[i]);
            }
            i = i + 1;
        }
        assert(self.lru@.take(i as int) =~= self.lru@);
        self.lru = kept;
    }

    /// Notes that a section is used once less. One that is no longer in use goes
    /// to the cache, where the one released longest ago makes room if need be:
    /// its id is returned. Nothing happens to a section that is not in use.
    pub fn release(&mut self, id: SectionId) -> (r: Option<SectionId>)
        requires
            old(self).wf(),
        ensures
            final(self).wf(),
            release_step(*old(self), *final(self), id, r),
    {
        let ghost pre = *self;
        assert(pre.active@.contains_key(id) ==> pre.active@[id].ref_count >= 1);
        let mut section: Section = match self.active.remove(&id) {
            Some(section) => section,
            None => {
                assert(self.active@ =~= pre.active@);
                return None;
            },
        };
        let last: bool = section.release();
        if !last {
            self.active.insert(id, section);
            assert(self.active@ =~= pre.active@.insert(id, self.active@[id]));
            return None;
        }
        let mut evicted: Option<SectionId> = None;
        if self.cache.len() >= self.cache_size {
            if self.lru.len() > 0 {
                let tail: SectionId = self.lru[0];
                assert(self.lru@.contains(tail));
                assert(pre.cache_map().contains_key(tail));
                self.cache.remove(&tail);
                self.lru.remove(0);
                evicted = Some(tail);
                proof {
                    assert(self.lru@ =~= pre.lru@.skip(1));
                    assert forall|x: SectionId| #[trigger]
                        self.lru@.contains(x) <==> pre.lru@.contains(x) && x != tail by {
                        if pre.lru@.contains(x) && x != tail {
                            let k = choose|k: int| 0 <= k < pre.lru@.len() && pre.lru@[k] == x;
                            assert(self.lru@[k - 1] == x);
                        }
                        if self.lru@.contains(x) {
                            let k = choose|k: int| 0 <= k < self.lru@.len() && self.lru@[k] == x;
                            assert(pre.lru@[k + 1] == x);
                        }
                    }
                }
            }
        }
        let ghost mid = *self;
        section.is_dirty = false;
        self.cache.insert(id, section);
        self.lru.push(id);
        proof {
            assert(!pre.cache_map().contains_key(id));
            assert(!mid.lru@.contains(id)) by {
                if mid.lru@.contains(id) {
                    assert(pre.order().contains(id));
                }
            }
            assert forall|x: SectionId| #[trigger] self.lru@.contains(x) <==> mid.lru@.contains(x)
                || x == id by {
                if mid.lru@.contains(x) {
                    let k = choose|k: int| 0 <= k < mid.lru@.len() && mid.lru@[k] == x;
                    assert(self.lru@[k] == x);
                }
                if self.lru@.contains(x) && x != id {
                    let k = choose|k: int| 0 <= k < self.lru@.len() && self.lru@[k] == x;
                    assert(mid.lru@[k] == x);
                }
                assert(self.lru@[mid.lru@.len() as int] == id);
            }
            assert(self.lru@.no_duplicates()) by {
                assert forall|i: int, j: int|
                    0 <= i < self.lru@.len() && 0 <= j < self.lru@.len() && i != j implies
                    self.lru@[i] != self.lru@[j] by {
                    if i < mid.lru@.len() {
                        assert(mid.lru@.contains(mid.lru@[i]));
                    }
                    if j < mid.lru@.len() {
                        assert(mid.lru@.contains(mid.lru@[j]));
                    }
                }
            }
            assert forall|x: SectionId| #[trigger]
                self.cache_map().contains_key(x) <==> self.order().contains(x) by {
                assert(mid.cache@.contains_key(x) <==> mid.lru@.contains(x));
            }
        }
        evicted
    }

    /// The section in use with this id.
    pub fn get_active(&self, id: SectionId) -> (r: Option<&Section>)
        ensures
            r is Some <==> self.active_map().contains_key(id),
            r matches Some(s) ==> *s == self.active_map()[id],
    {
        self.active.get(&id)
    }

    /// Puts back a section in use, such as one whose voxels have been set.
    /// Returns whether there was one with this id; if not, nothing happens.
    pub fn set_active(&mut self, id: SectionId, section: Section) -> (r: bool)
        requires
            old(self).wf(),
            section.wf(),
            section.ref_count >= 1,
        ensures
            final(self).wf(),
            r == old(self).active_map().contains_key(id),
            final(self).active_map() == if r {
                old(self).active_map().insert(id, section)
            } else {
                old(self).active_map()
            },
            final(self).cache_map() == old(self).cache_map(),
            final(self).order() == old(self).order(),
            final(self).capacity() == old(self).capacity(),
    {
        if !self.active.contains_key(&id) {
            return false;
        }
        self.active.insert(id, section);
        true
    }

    /// Whether a section is in use or cached.
    pub fn is_cached(&self, id: SectionId) -> (r: bool)
        ensures
            r == (self.cache_map().contains_key(id) || self.active_map().contains_key(id)),
    {
        self.cache.contains_key(&id) || self.active.contains_key(&id)
    }

    /// The cached section with this id.
    pub fn get_cached(&self, id: SectionId) -> (r: Option<&Section>)
        ensures
            r is Some <==> self.cache_map().contains_key(id),
            r matches Some(s) ==> *s == self.cache_map()[id],
    {
        self.cache.get(&id)
    }

    /// Marks a section in use as changed.
    pub fn mark_dirty(&mut self, id: SectionId)
        requires
            old(self).wf(),
        ensures
            final(self).wf(),
            final(self).active_map() == if old(self).active_map().contains_key(id) {
                old(self).active_map().insert(
                    id,
                    Section { is_dirty: true, ..old(self).active_map()[id] },
                )
            } else {
                old(self).active_map()
            },
            final(self).cache_map() == old(self).cache_map(),
            final(self).order() == old(self).order(),
            final(self).capacity() == old(self).capacity(),
    {
        let ghost pre = *self;
        match self.active.remove(&id) {
            Some(mut section) => {
                section.is_dirty = true;
                self.active.insert(id, section);
                assert(self.active@ =~= pre.active@.insert(id, self.active@[id]));
            },
            None => {
                assert(self.active@ =~= pre.active@);
            },
        }
    }

    /// Drops all sections. Returns the ids of all that were in use or cached,
    /// each once; those in use come first.
    pub fn clear(&mut self) -> (r: Vec<SectionId>)
        requires
            old(self).wf(),
        ensures
            final(self).wf(),
            exists|first: Seq<SectionId>| #[trigger]
                lists_keys(old(self).active_map(), first) && r@ == first + old(self).order(),
            final(self).active_map() == Map::<SectionId, Section>::empty(),
            final(self).cache_map() == Map::<SectionId, Section>::empty(),
            final(self).order() == Seq::<SectionId>::empty(),
            final(self).capacity() == old(self).capacity(),
    {
        let mut dropped: Vec<SectionId> = Vec::new();
        let ghost s = vstd::std_specs::iter::IteratorSpec::remaining(&self.active.keys());
        for k in iter: self.active.keys()
            invariant
                *self == *old(self),
                iter.seq() == s,
                s.no_duplicates(),
                s.unref().to_set() == self.active@.dom(),
                dropped@.len() == iter.index(),
                forall|i: int| 0 <= i < dropped@.len() ==> #[trigger] dropped@[i] == *s[i],
        {
            dropped.push(*k);
        }
        let ghost first = dropped@;
        proof {
            assert(first =~= s.unref());
            assert forall|i: int, j: int|
                0 <= i < first.len() && 0 <= j < first.len() && i != j implies first[i]
                != first[j] by {
                assert(s[i] != s[j]);
            }
            assert forall|id: SectionId| #[trigger] first.contains(id)
                <==> self.active@.contains_key(id) by {
                assert(first.to_set().contains(id) <==> first.contains(id));
            }
            assert(lists_keys(self.active_map(), first));
        }
        let mut i: usize = 0;
        while i < self.lru.len()
            invariant
                i <= self.lru@.len(),
                *self == *old(self),
                dropped@ =~= first + self.lru@.take(i as int),
            decreases self.lru@.len() - i,
        {
            dropped.push(self.lru[i]);
            i = i + 1;
        }
        assert(self.lru@.take(i as int) =~= self.lru@);
        self.active.clear();
        self.cache.clear();
        self.lru = Vec::new();
        assert(self.lru@ =~= Seq::empty());
        dropped
    }

    /// How many sections are in use.
    pub fn active_count(&self) -> (r: usize)
        ensures
            r == self.active_map().len(),
    {
        self.active.len()
    }

    /// How many sections are cached.
    pub fn cached_count(&self) -> (r: usize)
        requires
            self.wf(),
        ensures
            r == self.order().len(),
    {
        self.cache.len()
    }
}

/// The list holds the keys of a map, each once.
pub open spec fn lists_keys(m: Map<SectionId, Section>, ids: Seq<SectionId>) -> bool {
    &&& ids.no_duplicates()
    &&& forall|id: SectionId| #[trigger] ids.contains(id) <==> m.contains_key(id)
}

/// The section at `coord` has been noted as used once more.
pub open spec fn acquire_step(
    pre: SectionTracker,
    post: SectionTracker,
    coord: SectionCoord,
) -> bool {
    let id = coord.spec_encode() as u64;
    let known = pre.active_map().contains_key(id) || pre.cache_map().contains_key(id);
    let s = post.active_map()[id];
    &&& post.capacity() == pre.capacity()
    &&& post.active_map().contains_key(id)
    &&& known ==> s == pre.acquired(coord)
    &&& !known ==> s.coord == coord && s.solid_count == 0 && s.ref_count == 1 && s.is_dirty
        && s.octants_known() && s.voxels@ == Seq::new(32768, |i: int| 0u16)
    &&& post.active_map() == pre.active_map().insert(id, s)
    &&& post.cache_map() == pre.cache_map().remove(id)
    &&& post.order() == pre.order().filter(other_than(id))
}

/// A section has been noted as used once less, and `evicted` had to leave the
/// cache for it.
pub open spec fn release_step(
    pre: SectionTracker,
    post: SectionTracker,
    id: SectionId,
    evicted: Option<SectionId>,
) -> bool {
    let s = pre.active_map()[id];
    let full = pre.order().len() >= pre.capacity() && pre.order().len() > 0;
    let oldest = pre.order()[0];
    let cached = Section { ref_count: 0, is_dirty: false, ..s };
    &&& post.capacity() == pre.capacity()
    &&& if !pre.active_map().contains_key(id) {
        &&& evicted is None
        &&& post.active_map() == pre.active_map()
        &&& post.cache_map() == pre.cache_map()
        &&& post.order() == pre.order()
    } else if s.ref_count > 1 {
        &&& evicted is None
        &&& post.active_map() == pre.active_map().insert(
            id,
            Section { ref_count: (s.ref_count - 1) as u32, ..s },
        )
        &&& post.cache_map() == pre.cache_map()
        &&& post.order() == pre.order()
    } else if full {
        &&& evicted == Some(oldest)
        &&& post.active_map() == pre.active_map().remove(id)
        &&& post.cache_map() == pre.cache_map().remove(oldest).insert(id, cached)
        &&& post.order() == pre.order().skip(1).push(id)
    } else {
        &&& evicted is None
        &&& post.active_map() == pre.active_map().remove(id)
        &&& post.cache_map() == pre.cache_map().insert(id, cached)
        &&& post.order() == pre.order().push(id)
    }
}

/// Keeps every id but one.
pub open spec fn other_than(id: SectionId) -> spec_fn(SectionId) -> bool {
    |x: SectionId| x != id
}

/// An order of distinct ids without one of them.
proof fn lemma_filter_other(s: Seq<SectionId>, id: SectionId)
    requires
        s.no_duplicates(),
    ensures
        s.filter(other_than(id)).no_duplicates(),
        forall|x: SectionId| #[trigger]
            s.filter(other_than(id)).contains(x) <==> s.contains(x) && x != id,
        !s.contains(id) ==> s.filter(other_than(id)) == s,
        s.contains(id) ==> s.filter(other_than(id)).len() == s.len() - 1,
    decreases s.len(),
{
    reveal(Seq::filter);
    if s.len() > 0 {
        let t = s.drop_last();
        let f = t.filter(other_than(id));
        lemma_filter_other(t, id);
        assert forall|x: SectionId| #[trigger] s.contains(x) <==> t.contains(x) || x == s.last() by {
            if t.contains(x) {
                let k = choose|k: int| 0 <= k < t.len() && t[k] == x;
                assert(s[k] == x);
            }
            if s.contains(x) && x != s.last() {
                let k = choose|k: int| 0 <= k < s.len() && s[k] == x;
                assert(t[k] == x);
            }
            assert(s[s.len() - 1] == s.last());
        }
        assert(!t.contains(s.last())) by {
            if t.contains(s.last()) {
                let k = choose|k: int| 0 <= k < t.len() && t[k] == s.last();
                assert(s[k] == s[s.len() - 1]);
            }
        }
        if s.last() != id {
            let g = f.push(s.last());
            assert(s.filter(other_than(id)) == g);
            assert forall|x: SectionId| #[trigger] g.contains(x) <==> f.contains(x) || x
                == s.last() by {
                if f.contains(x) {
                    let k = choose|k: int| 0 <= k < f.len() && f[k] == x;
                    assert(g[k] == x);
                }
                if g.contains(x) && x != s.last() {
                    let k = choose|k: int| 0 <= k < g.len() && g[k] == x;
                    assert(f[k] == x);
                }
                assert(g[f.len() as int] == s.last());
            }
            assert forall|i: int, j: int| 0 <= i < g.len() && 0 <= j < g.len() && i != j implies g[i]
                != g[j] by {
                if i < f.len() {
                    assert(f.contains(f[i]));
                }
                if j < f.len() {
                    assert(f.contains(f[j]));
                }
            }
            if !s.contains(id) {
                assert(t.push(s.last()) =~= s);
            }
        }
    } else {
        assert(s.filter(other_than(id)) =~= s);
    }
}

/// A section that is released and asked for again comes back as it was, but
/// counts as unchanged: what the cache holds at an id is handed out again.
pub proof fn law_cached_section_returns(t: SectionTracker, coord: SectionCoord)
    requires
        t.wf(),
        t.cache_map().contains_key(coord.spec_encode() as u64),
    ensures
        t.acquired(coord).voxels == t.cache_map()[coord.spec_encode() as u64].voxels,
        t.acquired(coord).ref_count == 1,
{
}

/// A section that is in use and is asked for once more and given back once is as it was, and
/// so is everything else.
pub proof fn law_asked_for_and_given_back(
    a: SectionTracker,
    b: SectionTracker,
    c: SectionTracker,
    coord: SectionCoord,
    evicted: Option<SectionId>,
)
    requires
        a.wf(),
        a.active_map().contains_key(coord.spec_encode() as u64),
        a.active_map()[coord.spec_encode() as u64].ref_count < u32::MAX,
        acquire_step(a, b, coord),
        release_step(b, c, coord.spec_encode() as u64, evicted),
    ensures
        c.active_map() == a.active_map(),
        c.cache_map() == a.cache_map(),
        evicted is None,
        b.active_map()[coord.spec_encode() as u64].ref_count == a.active_map()[coord.spec_encode() as
            u64].ref_count + 1,
{
    let id = coord.spec_encode() as u64;
    assert(!a.cache_map().contains_key(id));
    assert(b.cache_map() =~= a.cache_map());
    assert(c.active_map() =~= a.active_map());
}

/// A section that nobody uses any more is kept and comes back with its voxels when it is
/// asked for again, and its use is counted anew.
pub proof fn law_given_back_and_asked_for(
    a: SectionTracker,
    b: SectionTracker,
    c: SectionTracker,
    coord: SectionCoord,
    evicted: Option<SectionId>,
)
    requires
        a.wf(),
        a.active_map().contains_key(coord.spec_encode() as u64),
        a.active_map()[coord.spec_encode() as u64].ref_count == 1,
        release_step(a, b, coord.spec_encode() as u64, evicted),
        acquire_step(b, c, coord),
    ensures
        ({
            let id = coord.spec_encode() as u64;
            &&& !b.active_map().contains_key(id)
            &&& b.cache_map().contains_key(id)
            &&& b.order().last() == id
            &&& c.active_map()[id].voxels == a.active_map()[id].voxels
            &&& c.active_map()[id].solid_count == a.active_map()[id].solid_count
            &&& c.active_map()[id].ref_count == 1
            &&& !c.active_map()[id].is_dirty
            &&& !c.cache_map().contains_key(id)
        }),
{
}

/// What leaves the cache is the section that was given back longest ago, and only where the
/// cache is full: the sections leave in the order in which they were given back.
pub proof fn law_oldest_section_leaves(
    a: SectionTracker,
    b: SectionTracker,
    id: SectionId,
    evicted: Option<SectionId>,
)
    requires
        a.wf(),
        release_step(a, b, id, evicted),
    ensures
        evicted is Some ==> a.order().len() >= a.capacity() && a.order().len() > 0 && evicted
            == Some(a.order()[0]) && a.cache_map().contains_key(a.order()[0])
            && !b.cache_map().contains_key(a.order()[0]),
        forall|other: SectionId| #[trigger]
            a.cache_map().contains_key(other) && evicted != Some(other) ==> b.cache_map().contains_key(
                other,
            ) && b.cache_map()[other] == a.cache_map()[other],
        evicted is None && b.cache_map() != a.cache_map() ==> a.order().len() < a.capacity()
            || a.order().len() == 0,
{
    let oldest = a.order()[0];
    if evicted is Some {
        assert(a.order().contains(oldest));
        assert(a.cache_map().contains_key(oldest));
    }
    assert forall|other: SectionId| #[trigger]
        a.cache_map().contains_key(other) && evicted != Some(other) implies b.cache_map().contains_key(
        other,
    ) && b.cache_map()[other] == a.cache_map()[other] by {
        if a.active_map().contains_key(id) {
            assert(!a.cache_map().contains_key(id));
        }
    }
}

} // verus!

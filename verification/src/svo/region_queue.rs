//! The top-level regions that wait to be inserted into the octree, a few in each
//! frame.

use crate::svo::config::MAX_LOD;
use crate::svo::node_manager;
use crate::svo::node_manager::NodeManager;
use crate::svo::position;
use crate::svo::position::encode_position;
use crate::svo::voxel_source::VoxelSource;
use vstd::prelude::*;

verus! {

/// A top-level region, by its coordinates.
pub type Region = (i32, i32, i32);

/// How many regions are inserted in one frame, unless another number is set.
pub const PROCESS_RATE: usize = 16;

/// The packed position of a top-level region.
pub open spec fn region_pos(c: Region) -> u64 {
    position::spec_encode(4, c.0 as int, c.1 as int, c.2 as int) as u64
}

/// The packed positions of top-level regions.
pub open spec fn region_positions(v: Seq<Region>) -> Seq<u64> {
    Seq::new(v.len(), |i: int| region_pos(v[i]))
}

/// A region whose sections all have coordinates that a packed position can
/// hold.
pub open spec fn region_representable(c: Region) -> bool {
    &&& -0x8000 <= c.0 < 0x8000
    &&& -0x8000 <= c.1 < 0x8000
    &&& -0x8000 <= c.2 < 0x8000
}

/// The regions of a list all fit the packed form.
pub open spec fn all_representable(v: Seq<Region>) -> bool {
    forall|i: int| 0 <= i < v.len() ==> region_representable(#[trigger] v[i])
}

/// The first regions of a list, as many as one frame inserts.
pub open spec fn first_share(v: Seq<Region>, rate: usize) -> Seq<Region> {
    if v.len() < rate {
        v
    } else {
        v.take(rate as int)
    }
}

/// Keeps the regions that are not among some.
pub open spec fn not_among(rem: Seq<Region>) -> spec_fn(Region) -> bool {
    |c: Region| !rem.contains(c)
}

/// Keeps the regions that have a node.
pub open spec fn has_node(ids: Map<u64, u32>) -> spec_fn(Region) -> bool {
    |c: Region| ids.contains_key(region_pos(c))
}

/// Keeps the regions that have no node.
pub open spec fn has_no_node(ids: Map<u64, u32>) -> spec_fn(Region) -> bool {
    |c: Region| !ids.contains_key(region_pos(c))
}

/// The regions that wait after some have been asked for and others are no longer
/// wanted.
pub open spec fn renewed(waiting: Seq<Region>, add: Seq<Region>, rem: Seq<Region>) -> Seq<Region> {
    waiting.filter(not_among(rem)) + add
}

/// The regions that have come to have nodes once the first share of a queue has been
/// inserted.
pub open spec fn arrived(queue: Seq<Region>, rate: usize, ids: Map<u64, u32>) -> Seq<Region> {
    first_share(queue, rate).filter(has_node(ids))
}

/// The regions that wait once the first share of a queue has been inserted: those
/// for which there was no room, and then the rest of the queue.
pub open spec fn still_waiting(queue: Seq<Region>, rate: usize, ids: Map<u64, u32>) -> Seq<
    Region,
> {
    first_share(queue, rate).filter(has_no_node(ids)) + queue.skip(
        first_share(queue, rate).len() as int,
    )
}

/// A region has a node or waits for one.
pub open spec fn provided(waiting: Seq<Region>, ids: Map<u64, u32>, c: Region) -> bool {
    waiting.contains(c) || ids.contains_key(region_pos(c))
}

/// Whether a region is in a list.
fn holds(v: &Vec<Region>, c: Region) -> (r: bool)
    ensures
        r == v@.contains(c),
{
    let mut i: usize = 0;
    while i < v.len()
        invariant
            i <= v@.len(),
            forall|k: int| 0 <= k < i ==> v@[k] != c,
        decreases v@.len() - i,
    {
        let (x, y, z) = v[i];
        if x == c.0 && y == c.1 && z == c.2 {
            assert(v@[i as int] == c);
            return true;
        }
        i = i + 1;
    }
    false
}

/// The regions that wait after some have been asked for and others are no longer
/// wanted.
pub fn renew(waiting: &Vec<Region>, add: &Vec<Region>, rem: &Vec<Region>) -> (r: Vec<Region>)
    ensures
        r@ == renewed(waiting@, add@, rem@),
{
    let mut out: Vec<Region> = Vec::new();
    let mut i: usize = 0;
    proof {
        reveal(Seq::filter);
        assert(waiting@.take(0) =~= Seq::empty());
    }
    while i < waiting.len()
        invariant
            i <= waiting@.len(),
            out@ == waiting@.take(i as int).filter(not_among(rem@)),
        decreases waiting@.len() - i,
    {
        proof {
            reveal(Seq::filter);
            assert(waiting@.take(i + 1).drop_last() =~= waiting@.take(i as int));
        }
        if !holds(rem, waiting[i]) {
            out.push(waiting[i]);
        }
        i = i + 1;
    }
    assert(waiting@.take(i as int) =~= waiting@);
    let ghost kept = out@;
    let mut j: usize = 0;
    while j < add.len()
        invariant
            j <= add@.len(),
            out@ =~= kept + add@.take(j as int),
        decreases add@.len() - j,
    {
        out.push(add[j]);
        j = j + 1;
    }
    assert(add@.take(j as int) =~= add@);
    out
}

/// The first regions of a queue, as many as one frame inserts.
pub fn share_of(queue: &Vec<Region>, rate: usize) -> (r: Vec<Region>)
    ensures
        r@ == first_share(queue@, rate),
{
    let mut out: Vec<Region> = Vec::new();
    let mut i: usize = 0;
    while i < queue.len() && i < rate
        invariant
            i <= queue@.len(),
            i <= rate,
            out@ =~= queue@.take(i as int),
        decreases queue@.len() - i,
    {
        out.push(queue[i]);
        i = i + 1;
    }
    assert(out@ =~= first_share(queue@, rate));
    out
}

/// The regions of the first share of a queue that have nodes now, and those of the
/// queue that wait.
pub fn settle(queue: &Vec<Region>, rate: usize, manager: &NodeManager) -> (r: (
    Vec<Region>,
    Vec<Region>,
))
    ensures
        r.0@ == arrived(queue@, rate, manager.ids()),
        r.1@ == still_waiting(queue@, rate, manager.ids()),
{
    let share: Vec<Region> = share_of(queue, rate);
    let ghost ids = manager.ids();
    let mut come: Vec<Region> = Vec::new();
    let mut waiting: Vec<Region> = Vec::new();
    let mut i: usize = 0;
    proof {
        reveal(Seq::filter);
        assert(share@.take(0) =~= Seq::empty());
    }
    while i < share.len()
        invariant
            i <= share@.len(),
            ids == manager.ids(),
            come@ == share@.take(i as int).filter(has_node(ids)),
            waiting@ == share@.take(i as int).filter(has_no_node(ids)),
        decreases share@.len() - i,
    {
        proof {
            reveal(Seq::filter);
            assert(share@.take(i + 1).drop_last() =~= share@.take(i as int));
        }
        let (x, y, z) = share[i];
        let pos: u64 = encode_position(MAX_LOD, x, y, z);
        assert(pos == region_pos(share@[i as int]));
        if manager.has_node_at(pos) {
            come.push(share[i]);
        } else {
            waiting.push(share[i]);
        }
        i = i + 1;
    }
    assert(share@.take(i as int) =~= share@);
    let ghost left = waiting@;
    let mut j: usize = share.len();
    while j < queue.len()
        invariant
            share@.len() <= j <= queue@.len(),
            waiting@ =~= left + queue@.subrange(share@.len() as int, j as int),
        decreases queue@.len() - j,
    {
        waiting.push(queue[j]);
        j = j + 1;
    }
    assert(queue@.subrange(share@.len() as int, j as int) =~= queue@.skip(share@.len() as int));
    (come, waiting)
}

/// Regions that fit the packed form have different positions.
proof fn lemma_positions_differ(a: Region, b: Region)
    requires
        region_representable(a),
        region_representable(b),
        region_pos(a) == region_pos(b),
    ensures
        a == b,
        position::spec_level(region_pos(a)) == 4,
{
    position::law_decode_encode(4, a.0 as int, a.1 as int, a.2 as int);
    position::law_decode_encode(4, b.0 as int, b.1 as int, b.2 as int);
}

/// A region that is not in a list does not have the position of one that is.
proof fn lemma_position_apart(rem: Seq<Region>, c: Region)
    requires
        all_representable(rem),
        region_representable(c),
        !rem.contains(c),
    ensures
        !region_positions(rem).contains(region_pos(c)),
        position::spec_level(region_pos(c)) == 4,
{
    lemma_positions_differ(c, c);
    let v = region_positions(rem);
    if v.contains(region_pos(c)) {
        let k = choose|k: int| 0 <= k < v.len() && v[k] == region_pos(c);
        assert(region_representable(rem[k]));
        lemma_positions_differ(rem[k], c);
    }
}

/// What a filter keeps.
proof fn lemma_kept(v: Seq<Region>, p: spec_fn(Region) -> bool, c: Region)
    requires
        v.contains(c),
        p(c),
    ensures
        v.filter(p).contains(c),
    decreases v.len(),
{
    reveal(Seq::filter);
    let t = v.drop_last();
    let k = choose|k: int| 0 <= k < v.len() && v[k] == c;
    if k < t.len() {
        assert(t[k] == c);
        lemma_kept(t, p, c);
        let l = choose|l: int| 0 <= l < t.filter(p).len() && t.filter(p)[l] == c;
        assert(v.filter(p)[l] == c);
    } else {
        assert(v.filter(p)[t.filter(p).len() as int] == c);
    }
}

/// A filter keeps nothing where nothing passes, and else only what is there.
proof fn lemma_only_kept(v: Seq<Region>, p: spec_fn(Region) -> bool)
    ensures
        (forall|i: int| 0 <= i < v.len() ==> !p(#[trigger] v[i])) ==> v.filter(p).len() == 0,
        forall|i: int|
            0 <= i < v.filter(p).len() ==> v.contains(#[trigger] v.filter(p)[i]) && p(
                v.filter(p)[i],
            ),
    decreases v.len(),
{
    reveal(Seq::filter);
    if v.len() > 0 {
        let t = v.drop_last();
        lemma_only_kept(t, p);
        if forall|i: int| 0 <= i < v.len() ==> !p(#[trigger] v[i]) {
            assert forall|i: int| 0 <= i < t.len() implies !p(#[trigger] t[i]) by {
                assert(t[i] == v[i]);
            }
            assert(!p(v[v.len() - 1]));
        }
        assert forall|i: int| 0 <= i < v.filter(p).len() implies v.contains(
            #[trigger] v.filter(p)[i],
        ) && p(v.filter(p)[i]) by {
            if i < t.filter(p).len() {
                let c = t.filter(p)[i];
                assert(t.contains(c));
                let k = choose|k: int| 0 <= k < t.len() && t[k] == c;
                assert(v[k] == c);
            } else {
                assert(v[v.len() - 1] == v.last());
            }
        }
    }
}

/// A filter repeats nothing.
proof fn lemma_kept_once(v: Seq<Region>, p: spec_fn(Region) -> bool)
    requires
        v.no_duplicates(),
    ensures
        v.filter(p).no_duplicates(),
    decreases v.len(),
{
    reveal(Seq::filter);
    if v.len() > 0 {
        let t = v.drop_last();
        lemma_kept_once(t, p);
        lemma_only_kept(t, p);
        let f = t.filter(p);
        if p(v.last()) {
            assert forall|i: int| 0 <= i < f.len() implies f[i] != v.last() by {
                assert(t.contains(f[i]));
                let k = choose|k: int| 0 <= k < t.len() && t[k] == f[i];
                assert(v[k] != v[v.len() - 1]);
            }
        }
    }
}

/// A renewed queue repeats nothing.
pub proof fn lemma_renewed_once(waiting: Seq<Region>, add: Seq<Region>, rem: Seq<Region>)
    requires
        waiting.no_duplicates(),
        add.no_duplicates(),
        forall|c: Region| #[trigger] add.contains(c) ==> !waiting.contains(c),
    ensures
        renewed(waiting, add, rem).no_duplicates(),
{
    let kept = waiting.filter(not_among(rem));
    let all = renewed(waiting, add, rem);
    lemma_kept_once(waiting, not_among(rem));
    lemma_only_kept(waiting, not_among(rem));
    assert forall|i: int, j: int| 0 <= i < j < all.len() implies all[i] != all[j] by {
        if j < kept.len() {
            assert(kept[i] != kept[j]);
        } else {
            assert(add.contains(add[j - kept.len()]));
            if i < kept.len() {
                assert(waiting.contains(kept[i]));
            } else {
                assert(add[i - kept.len()] != add[j - kept.len()]);
            }
        }
    }
}

/// What waits and what has arrived repeats nothing.
pub proof fn lemma_settled_once(queue: Seq<Region>, rate: usize, ids: Map<u64, u32>)
    requires
        queue.no_duplicates(),
    ensures
        still_waiting(queue, rate, ids).no_duplicates(),
        arrived(queue, rate, ids).no_duplicates(),
{
    let share = first_share(queue, rate);
    let kept = share.filter(has_no_node(ids));
    let rest = queue.skip(share.len() as int);
    let all = still_waiting(queue, rate, ids);
    assert forall|i: int, j: int| 0 <= i < j < share.len() implies share[i] != share[j] by {
        assert(queue[i] != queue[j]);
    }
    lemma_kept_once(share, has_no_node(ids));
    lemma_kept_once(share, has_node(ids));
    lemma_only_kept(share, has_no_node(ids));
    assert forall|i: int, j: int| 0 <= i < j < all.len() implies all[i] != all[j] by {
        if j < kept.len() {
            assert(kept[i] != kept[j]);
        } else {
            let b = j - kept.len() + share.len();
            assert(all[j] == queue[b]);
            if i < kept.len() {
                assert(share.contains(kept[i]));
                let a = choose|a: int| 0 <= a < share.len() && share[a] == kept[i];
                assert(queue[a] == kept[i]);
                assert(queue[a] != queue[b]);
            } else {
                let a = i - kept.len() + share.len();
                assert(all[i] == queue[a]);
                assert(queue[a] != queue[b]);
            }
        }
    }
}

/// What a renewed queue holds.
pub proof fn lemma_renewed(waiting: Seq<Region>, add: Seq<Region>, rem: Seq<Region>)
    ensures
        forall|c: Region| #[trigger]
            renewed(waiting, add, rem).contains(c) <==> (waiting.contains(c) && !rem.contains(c))
                || add.contains(c),
{
    let kept = waiting.filter(not_among(rem));
    let all = renewed(waiting, add, rem);
    lemma_only_kept(waiting, not_among(rem));
    assert forall|c: Region| #[trigger]
        all.contains(c) <==> (waiting.contains(c) && !rem.contains(c)) || add.contains(c) by {
        if all.contains(c) {
            let k = choose|k: int| 0 <= k < all.len() && all[k] == c;
            if k < kept.len() {
                assert(kept[k] == c);
            } else {
                assert(add[k - kept.len()] == c);
            }
        }
        if waiting.contains(c) && !rem.contains(c) {
            lemma_kept(waiting, not_among(rem), c);
            let k = choose|k: int| 0 <= k < kept.len() && kept[k] == c;
            assert(all[k] == c);
        }
        if add.contains(c) {
            let k = choose|k: int| 0 <= k < add.len() && add[k] == c;
            assert(all[kept.len() + k] == c);
        }
    }
}

/// What waits was in the queue.
pub proof fn lemma_still_waiting(queue: Seq<Region>, rate: usize, ids: Map<u64, u32>, c: Region)
    ensures
        still_waiting(queue, rate, ids).contains(c) ==> queue.contains(c),
        queue.contains(c) ==> provided(still_waiting(queue, rate, ids), ids, c),
{
    let share = first_share(queue, rate);
    let kept = share.filter(has_no_node(ids));
    let rest = queue.skip(share.len() as int);
    let all = still_waiting(queue, rate, ids);
    lemma_only_kept(share, has_no_node(ids));
    if all.contains(c) {
        let k = choose|k: int| 0 <= k < all.len() && all[k] == c;
        if k < kept.len() {
            assert(kept[k] == c);
            let l = choose|l: int| 0 <= l < share.len() && share[l] == c;
            assert(queue[l] == c);
        } else {
            assert(rest[k - kept.len()] == c);
            assert(queue[k - kept.len() + share.len()] == c);
        }
    }
    if queue.contains(c) && !ids.contains_key(region_pos(c)) {
        let k = choose|k: int| 0 <= k < queue.len() && queue[k] == c;
        if k < share.len() {
            assert(share[k] == c);
            lemma_kept(share, has_no_node(ids), c);
            let l = choose|l: int| 0 <= l < kept.len() && kept[l] == c;
            assert(all[l] == c);
        } else {
            assert(rest[k - share.len()] == c);
            assert(all[kept.len() + k - share.len()] == c);
        }
    }
}

/// The first share of a queue is part of the queue.
pub proof fn lemma_share(queue: Seq<Region>, rate: usize)
    requires
        all_representable(queue),
    ensures
        all_representable(first_share(queue, rate)),
{
    let share = first_share(queue, rate);
    assert forall|i: int| 0 <= i < share.len() implies region_representable(#[trigger] share[i]) by {
        assert(share[i] == queue[i]);
    }
}

/// What has arrived was in the first share of the queue.
pub proof fn lemma_arrived(queue: Seq<Region>, rate: usize, ids: Map<u64, u32>)
    requires
        all_representable(queue),
    ensures
        all_representable(arrived(queue, rate, ids)),
{
    let share = first_share(queue, rate);
    let all = arrived(queue, rate, ids);
    lemma_only_kept(share, has_node(ids));
    assert forall|i: int| 0 <= i < all.len() implies region_representable(#[trigger] all[i]) by {
        assert(share.contains(all[i]));
        let k = choose|k: int| 0 <= k < share.len() && share[k] == all[i];
        assert(queue[k] == all[i]);
    }
}

/// The first share of a queue has been inserted into the octree and the regions of
/// `rem` have been removed.
pub open spec fn share_inserted<S: VoxelSource>(
    pre: NodeManager,
    post: NodeManager,
    queue: Seq<Region>,
    rate: usize,
    rem: Seq<Region>,
    source: &S,
) -> bool {
    node_manager::processed(
        pre,
        post,
        region_positions(first_share(queue, rate)),
        region_positions(rem),
        source,
    )
}

/// The store filled up while the first share of a queue was inserted.
pub open spec fn filled_up<S: VoxelSource>(
    pre: NodeManager,
    queue: Seq<Region>,
    rate: usize,
    source: &S,
) -> bool {
    node_manager::filled_up(pre, region_positions(first_share(queue, rate)), source)
}

/// A region that had a node or waited for one, or that has just been asked for, has
/// one or waits for one after the next frame, unless it is no longer wanted: none is
/// forgotten.
pub proof fn law_no_region_is_forgotten<S: VoxelSource>(
    waiting: Seq<Region>,
    add: Seq<Region>,
    rem: Seq<Region>,
    rate: usize,
    pre: NodeManager,
    post: NodeManager,
    source: &S,
    c: Region,
)
    requires
        share_inserted(pre, post, renewed(waiting, add, rem), rate, rem, source),
        provided(waiting, pre.ids(), c) || add.contains(c),
        !rem.contains(c),
        region_representable(c),
        all_representable(rem),
    ensures
        provided(still_waiting(renewed(waiting, add, rem), rate, post.ids()), post.ids(), c),
{
    let queue = renewed(waiting, add, rem);
    lemma_renewed(waiting, add, rem);
    lemma_still_waiting(queue, rate, post.ids(), c);
    lemma_position_apart(rem, c);
    if !queue.contains(c) {
        node_manager::lemma_processed_ids(
            pre,
            post,
            region_positions(first_share(queue, rate)),
            region_positions(rem),
            source,
            region_pos(c),
        );
    }
}

/// Unless the store fills up, every region of the first share of a queue that is
/// still wanted becomes a root, and only the rest of the queue waits.
pub proof fn law_share_becomes_roots<S: VoxelSource>(
    queue: Seq<Region>,
    rate: usize,
    rem: Seq<Region>,
    pre: NodeManager,
    post: NodeManager,
    source: &S,
)
    requires
        share_inserted(pre, post, queue, rate, rem, source),
        !filled_up(pre, queue, rate, source),
        all_representable(queue),
        all_representable(rem),
        forall|c: Region| #[trigger] queue.contains(c) ==> !rem.contains(c),
    ensures
        forall|c: Region| #[trigger]
            first_share(queue, rate).contains(c) ==> post.ids().contains_key(region_pos(c)),
        still_waiting(queue, rate, post.ids()) == queue.skip(first_share(queue, rate).len() as int),
{
    let share = first_share(queue, rate);
    let ins = region_positions(share);
    assert forall|c: Region| #[trigger] share.contains(c) implies post.ids().contains_key(
        region_pos(c),
    ) by {
        let k = choose|k: int| 0 <= k < share.len() && share[k] == c;
        assert(queue[k] == c);
        assert(queue.contains(c));
        assert(region_representable(queue[k]));
        assert(ins[k] == region_pos(c));
        lemma_position_apart(rem, c);
        node_manager::lemma_processed_ids(
            pre,
            post,
            ins,
            region_positions(rem),
            source,
            region_pos(c),
        );
    }
    assert forall|i: int| 0 <= i < share.len() implies !has_no_node(post.ids())(
        #[trigger] share[i],
    ) by {
        assert(share.contains(share[i]));
    }
    lemma_only_kept(share, has_no_node(post.ids()));
    assert(still_waiting(queue, rate, post.ids()) =~= queue.skip(share.len() as int));
}

/// How many regions wait after `frames` frames in which nothing new is asked for and
/// the store does not fill up.
pub open spec fn waiting_after(n: nat, rate: usize, frames: nat) -> nat
    decreases frames,
{
    if frames == 0 {
        n
    } else {
        let before = waiting_after(n, rate, (frames - 1) as nat);
        if before < rate {
            0
        } else {
            (before - rate) as nat
        }
    }
}

/// So every region gets its turn: none waits any more after as many frames as there
/// are shares.
pub proof fn law_waiting_ends(n: nat, rate: usize, frames: nat)
    ensures
        waiting_after(n, rate, frames) == if n <= rate * frames {
            0
        } else {
            n - rate * frames
        },
    decreases frames,
{
    if frames > 0 {
        law_waiting_ends(n, rate, (frames - 1) as nat);
        assert(rate * frames == rate * (frames - 1) + rate) by (nonlinear_arith);
        assert(rate * (frames - 1) >= 0) by (nonlinear_arith)
            requires
                frames > 0,
        ;
    } else {
        assert(rate * frames == 0) by (nonlinear_arith)
            requires
                frames == 0,
        ;
    }
}

} // verus!

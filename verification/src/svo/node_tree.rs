//! What it means for nodes in a flat store to form octrees.

use crate::bits;
use crate::svo::hierarchical_bitset;
use crate::svo::hierarchical_bitset::CAPACITY;
use crate::svo::node_store;
use crate::svo::node_store::{NodeRec, NodeType};
use crate::svo::position;
use crate::svo::voxel_source;
use crate::svo::voxel_source::{ChunkVoxelSource, VoxelSource};
use vstd::arithmetic::power2::*;
use vstd::prelude::*;

verus! {

/// Half the number of regions of a level that lie along one axis.
pub open spec fn half_range(lvl: int) -> int {
    if lvl <= 0 {
        0x8_0000
    } else if lvl == 1 {
        0x4_0000
    } else if lvl == 2 {
        0x2_0000
    } else if lvl == 3 {
        0x1_0000
    } else {
        0x8000
    }
}

/// A position whose sections all have coordinates that a packed position can
/// hold.
pub open spec fn representable(pos: u64) -> bool {
    let h = half_range(position::spec_level(pos));
    &&& position::spec_level(pos) <= 4
    &&& -h <= position::spec_x(pos) < h
    &&& -h <= position::spec_y(pos) < h
    &&& -h <= position::spec_z(pos) < h
}

/// The ancestor of a position that is `n` levels up.
pub open spec fn ancestor(pos: u64, n: nat) -> u64
    decreases n,
{
    if n == 0 {
        pos
    } else {
        ancestor(position::spec_parent(pos) as u64, (n - 1) as nat)
    }
}

/// The region of `p` lies inside the region of `q`, and is smaller.
pub open spec fn strictly_under(p: u64, q: u64) -> bool {
    &&& position::spec_level(p) < position::spec_level(q)
    &&& ancestor(p, (position::spec_level(q) - position::spec_level(p)) as nat) == q
}

/// Slot `c` is one of the eight that node `id` points to.
pub open spec fn is_child(s: Seq<NodeRec>, id: int, c: int) -> bool {
    s[id].child_ptr <= c < s[id].child_ptr + 8
}

/// Slot `j` belongs to the tree whose root is in slot `id` at level `lvl`.
pub open spec fn in_tree(s: Seq<NodeRec>, id: int, lvl: nat, j: int) -> bool
    decreases lvl,
{
    j == id || (lvl > 0 && s[id].node_type == NodeType::Inner && exists|c: int|
        #[trigger] is_child(s, id, c) && in_tree(s, c, (lvl - 1) as nat, j))
}

/// Slot `id` is the root of a well-formed tree: an inner node has eight slots
/// for its children, whose positions are the octants of its own and whose trees
/// share nothing.
pub open spec fn tree_wf(s: Seq<NodeRec>, id: int, lvl: nat) -> bool
    decreases lvl,
{
    &&& 0 <= id < s.len()
    &&& position::spec_level(s[id].position) == lvl
    &&& representable(s[id].position)
    &&& s[id].node_type == NodeType::Inner ==> {
        let base = s[id].child_ptr;
        &&& lvl > 0
        &&& 0 <= base
        &&& base + 8 <= CAPACITY
        &&& base + 8 <= s.len()
        &&& 0 <= s[id].child_existence < 256
        &&& forall|c: int|
            #[trigger] is_child(s, id, c) ==> {
                &&& tree_wf(s, c, (lvl - 1) as nat)
                &&& s[c].position == position::spec_child(s[id].position, c - base)
                &&& (s[c].node_type != NodeType::Unused) == bits::bit(
                    s[id].child_existence as u64,
                    c - base,
                )
                &&& !in_tree(s, c, (lvl - 1) as nat, id)
            }
        &&& forall|c: int, d: int, j: int|
            base <= c < base + 8 && base <= d < base + 8 && c != d && #[trigger] in_tree(
                s,
                c,
                (lvl - 1) as nat,
                j,
            ) ==> !#[trigger] in_tree(s, d, (lvl - 1) as nat, j)
    }
}

/// A node that waits for its contents.
pub open spec fn pending_rec(pos: u64) -> NodeRec {
    NodeRec { position: pos, node_type: NodeType::Pending, ..node_store::fresh_rec() }
}

/// The slot of a child whose region is empty.
pub open spec fn absent_rec(pos: u64) -> NodeRec {
    NodeRec { position: pos, ..node_store::fresh_rec() }
}

/// A node whose region is empty.
pub open spec fn empty_leaf_rec(pos: u64) -> NodeRec {
    NodeRec {
        position: pos,
        node_type: NodeType::Leaf,
        geometry: -2,
        dirty: true,
        ..node_store::fresh_rec()
    }
}

/// A single section that holds voxels.
pub open spec fn full_leaf_rec(pos: u64) -> NodeRec {
    NodeRec {
        position: pos,
        node_type: NodeType::Leaf,
        child_existence: 255,
        dirty: true,
        ..node_store::fresh_rec()
    }
}

/// A node whose children start at slot `base`.
pub open spec fn inner_rec(pos: u64, base: int, existence: int) -> NodeRec {
    NodeRec {
        position: pos,
        node_type: NodeType::Inner,
        child_ptr: base,
        child_existence: existence,
        child_ptr_count: 8,
        dirty: true,
        ..node_store::fresh_rec()
    }
}

/// Whether the source has content at a position.
pub open spec fn content_at<S: VoxelSource>(source: &S, pos: u64) -> bool {
    source.has_content(
        position::spec_level(pos),
        position::spec_x(pos),
        position::spec_y(pos),
        position::spec_z(pos),
    )
}

/// The position of octant `i`.
pub open spec fn child_pos(pos: u64, i: int) -> u64 {
    position::spec_child(pos, i) as u64
}

/// The source has content in some octant of `pos`.
pub open spec fn any_child_content<S: VoxelSource>(source: &S, pos: u64) -> bool {
    exists|i: int| 0 <= i < 8 && #[trigger] content_at(source, child_pos(pos, i))
}

/// The tree in slot `id` says exactly what the source says of the region `pos`,
/// down to single sections. A node that waits for its contents stands where
/// there was no room for its children.
pub open spec fn built<S: VoxelSource>(
    s: Seq<NodeRec>,
    id: int,
    lvl: nat,
    pos: u64,
    source: &S,
) -> bool
    decreases lvl,
{
    if lvl == 0 {
        s[id] == (if content_at(source, pos) {
            full_leaf_rec(pos)
        } else {
            empty_leaf_rec(pos)
        })
    } else if !any_child_content(source, pos) {
        s[id] == empty_leaf_rec(pos)
    } else {
        ||| s[id] == pending_rec(pos)
        ||| {
            let base = s[id].child_ptr;
            &&& s[id] == inner_rec(pos, base, s[id].child_existence)
            &&& 0 <= s[id].child_existence < 256
            &&& forall|i: int|
                0 <= i < 8 ==> #[trigger] bits::bit(s[id].child_existence as u64, i) == content_at(
                    source,
                    child_pos(pos, i),
                )
            &&& forall|c: int|
                #[trigger] is_child(s, id, c) ==> if content_at(source, child_pos(pos, c - base)) {
                    built(s, c, (lvl - 1) as nat, child_pos(pos, c - base), source)
                } else {
                    s[c] == absent_rec(child_pos(pos, c - base))
                }
        }
    }
}

/// There is no room for eight more children.
pub open spec fn exhausted(allocated: Set<int>, limit: int) -> bool {
    allocated.len() + 8 > limit || !hierarchical_bitset::has_free_run(allocated, 8)
}

/// A pool that has no room for children has none after it has grown fuller.
pub proof fn lemma_exhausted_grows(a: Set<int>, b: Set<int>, limit: int)
    requires
        exhausted(a, limit),
        a.subset_of(b),
        b.finite(),
    ensures
        exhausted(b, limit),
{
    vstd::set_lib::lemma_len_subset(a, b);
    if hierarchical_bitset::has_free_run(b, 8) {
        let q = choose|q: int| hierarchical_bitset::free_run(b, q, 8);
        assert(hierarchical_bitset::free_run(a, q, 8));
    }
}

/// The octants of a representable region are representable.
pub proof fn lemma_child_representable(pos: u64, i: int)
    requires
        representable(pos),
        position::spec_level(pos) >= 1,
        0 <= i < 8,
    ensures
        child_pos(pos, i) == position::spec_child(pos, i),
        representable(child_pos(pos, i)),
        position::spec_level(child_pos(pos, i)) == position::spec_level(pos) - 1,
        position::spec_x(child_pos(pos, i)) == position::spec_x(pos) * 2 + i % 2,
        position::spec_y(child_pos(pos, i)) == position::spec_y(pos) * 2 + (i / 2) % 2,
        position::spec_z(child_pos(pos, i)) == position::spec_z(pos) * 2 + (i / 4) % 2,
        position::spec_parent(child_pos(pos, i)) == pos,
        strictly_under(child_pos(pos, i), pos),
{
    position::law_decode_encode(
        position::spec_level(pos) - 1,
        position::spec_x(pos) * 2 + i % 2,
        position::spec_y(pos) * 2 + (i / 2) % 2,
        position::spec_z(pos) * 2 + (i / 4) % 2,
    );
    position::law_parent_of_child(pos, i);
    let c = child_pos(pos, i);
    assert(ancestor(c, 1) == ancestor(position::spec_parent(c) as u64, 0));
}

/// A coordinate within the range of its level fits what a source can be asked.
proof fn lemma_axis_fits(lvl: int, v: int)
    requires
        0 <= lvl <= 4,
        -half_range(lvl) <= v < half_range(lvl),
    ensures
        voxel_source::axis_fits(lvl, v),
{
    lemma2_to64();
    let w = pow2(lvl as nat) as int;
    assert(w == 1 || w == 2 || w == 4 || w == 8 || w == 16);
    assert(v * w >= -0x8_0000 && (v + 1) * w <= 0x8_0000) by {
        if lvl == 0 {
            assert(w == 1);
        } else if lvl == 1 {
            assert(w == 2);
        } else if lvl == 2 {
            assert(w == 4);
        } else if lvl == 3 {
            assert(w == 8);
        } else {
            assert(w == 16);
        }
    }
}

/// A representable region fits what a source can be asked.
pub proof fn lemma_region_fits(pos: u64)
    requires
        representable(pos),
    ensures
        voxel_source::region_fits(
            position::spec_level(pos),
            position::spec_x(pos),
            position::spec_y(pos),
            position::spec_z(pos),
        ),
{
    lemma_axis_fits(position::spec_level(pos), position::spec_x(pos));
    lemma_axis_fits(position::spec_level(pos), position::spec_y(pos));
    lemma_axis_fits(position::spec_level(pos), position::spec_z(pos));
}

/// Ancestors of ancestors.
pub proof fn lemma_ancestor_sum(p: u64, m: nat, n: nat)
    ensures
        ancestor(ancestor(p, m), n) == ancestor(p, m + n),
    decreases m,
{
    if m > 0 {
        lemma_ancestor_sum(position::spec_parent(p) as u64, (m - 1) as nat, n);
    }
}

/// A region inside a region inside a third is inside the third.
pub proof fn lemma_under_transitive(p: u64, q: u64, r: u64)
    requires
        strictly_under(p, q),
        strictly_under(q, r),
    ensures
        strictly_under(p, r),
{
    lemma_ancestor_sum(
        p,
        (position::spec_level(q) - position::spec_level(p)) as nat,
        (position::spec_level(r) - position::spec_level(q)) as nat,
    );
}

/// A region lies inside at most one region of each level.
pub proof fn lemma_under_unique(p: u64, q: u64, r: u64)
    requires
        strictly_under(p, q),
        strictly_under(p, r),
        position::spec_level(q) == position::spec_level(r),
    ensures
        q == r,
{
}

/// A root is in its own tree, and every other slot of the tree has a position
/// under that of the root.
pub proof fn lemma_tree_positions(s: Seq<NodeRec>, id: int, lvl: nat, j: int)
    requires
        tree_wf(s, id, lvl),
        in_tree(s, id, lvl, j),
    ensures
        0 <= j < s.len(),
        j != id ==> strictly_under(s[j].position, s[id].position),
        j != id ==> position::spec_level(s[j].position) < lvl,
    decreases lvl,
{
    if j != id {
        let base = s[id].child_ptr;
        let c = choose|c: int| #[trigger] is_child(s, id, c) && in_tree(s, c, (lvl - 1) as nat, j);
        assert(tree_wf(s, c, (lvl - 1) as nat));
        lemma_tree_positions(s, c, (lvl - 1) as nat, j);
        lemma_child_representable(s[id].position, c - base);
        if j != c {
            lemma_under_transitive(s[j].position, s[c].position, s[id].position);
        }
    }
}

/// A tree depends on its own slots alone.
pub proof fn lemma_frame(s: Seq<NodeRec>, t: Seq<NodeRec>, id: int, lvl: nat)
    requires
        tree_wf(s, id, lvl),
        s.len() <= t.len(),
        forall|j: int| #[trigger] in_tree(s, id, lvl, j) ==> t[j] == s[j],
    ensures
        tree_wf(t, id, lvl),
        forall|j: int| #[trigger] in_tree(t, id, lvl, j) == in_tree(s, id, lvl, j),
    decreases lvl,
{
    assert(in_tree(s, id, lvl, id));
    if s[id].node_type == NodeType::Inner {
        let base = s[id].child_ptr;
        let sub = (lvl - 1) as nat;
        assert forall|c: int| #[trigger] is_child(s, id, c) implies {
            &&& tree_wf(t, c, sub)
            &&& t[c] == s[c]
            &&& forall|j: int| #[trigger] in_tree(t, c, sub, j) == in_tree(s, c, sub, j)
        } by {
            assert(tree_wf(s, c, sub));
            assert forall|j: int| #[trigger] in_tree(s, c, sub, j) implies t[j] == s[j] by {
                assert(in_tree(s, id, lvl, j));
            }
            assert(in_tree(s, c, sub, c));
            lemma_frame(s, t, c, sub);
        }
        assert forall|j: int| #[trigger] in_tree(t, id, lvl, j) == in_tree(s, id, lvl, j) by {
            if in_tree(t, id, lvl, j) && j != id {
                let c = choose|c: int| #[trigger] is_child(t, id, c) && in_tree(t, c, sub, j);
                assert(is_child(s, id, c));
                assert(in_tree(s, c, sub, j));
            }
            if in_tree(s, id, lvl, j) && j != id {
                let c = choose|c: int| #[trigger] is_child(s, id, c) && in_tree(s, c, sub, j);
                assert(is_child(t, id, c));
                assert(in_tree(t, c, sub, j));
            }
        }
        assert forall|c: int| #[trigger] is_child(t, id, c) implies {
            &&& tree_wf(t, c, sub)
            &&& t[c].position == position::spec_child(t[id].position, c - base)
            &&& (t[c].node_type != NodeType::Unused) == bits::bit(
                t[id].child_existence as u64,
                c - base,
            )
            &&& !in_tree(t, c, sub, id)
        } by {
            assert(is_child(s, id, c));
        }
        assert forall|c: int, d: int, j: int|
            base <= c < base + 8 && base <= d < base + 8 && c != d && #[trigger] in_tree(
                t,
                c,
                sub,
                j,
            ) implies !#[trigger] in_tree(t, d, sub, j) by {
            assert(is_child(s, id, c));
            assert(is_child(s, id, d));
            assert(in_tree(s, c, sub, j));
            assert(!in_tree(s, d, sub, j));
        }
    }
}

/// What a tree says of the source depends on its own slots alone.
pub proof fn lemma_built_frame<S: VoxelSource>(
    s: Seq<NodeRec>,
    t: Seq<NodeRec>,
    id: int,
    lvl: nat,
    pos: u64,
    source: &S,
)
    requires
        tree_wf(s, id, lvl),
        built(s, id, lvl, pos, source),
        forall|j: int| #[trigger] in_tree(s, id, lvl, j) ==> t[j] == s[j],
    ensures
        built(t, id, lvl, pos, source),
    decreases lvl,
{
    assert(in_tree(s, id, lvl, id));
    if lvl > 0 && any_child_content(source, pos) && s[id] != pending_rec(pos) {
        let base = s[id].child_ptr;
        let sub = (lvl - 1) as nat;
        assert forall|c: int|
            #[trigger] is_child(t, id, c) implies if content_at(source, child_pos(pos, c - base)) {
            built(t, c, sub, child_pos(pos, c - base), source)
        } else {
            t[c] == absent_rec(child_pos(pos, c - base))
        } by {
            assert(is_child(s, id, c));
            assert forall|j: int| #[trigger] in_tree(s, c, sub, j) implies t[j] == s[j] by {
                assert(in_tree(s, id, lvl, j));
            }
            assert(in_tree(s, c, sub, c));
            if content_at(source, child_pos(pos, c - base)) {
                lemma_built_frame(s, t, c, sub, child_pos(pos, c - base), source);
            }
        }
    }
}

/// The number of an octant.
pub open spec fn is_octant(i: int) -> bool {
    0 <= i < 8
}

/// The section at `q` lies in the region at `pos`, `lvl` levels below it.
pub open spec fn section_in(pos: u64, lvl: nat, q: u64) -> bool
    decreases lvl,
{
    if lvl == 0 {
        q == pos
    } else {
        exists|i: int|
            #[trigger] is_octant(i) && section_in(child_pos(pos, i), (lvl - 1) as nat, q)
    }
}

/// A region holds something if one of its octants does.
pub open spec fn inherits<S: VoxelSource>(source: &S) -> bool {
    forall|pos: u64, i: int|
        representable(pos) && position::spec_level(pos) >= 1 && is_octant(i)
            && #[trigger] content_at(source, child_pos(pos, i)) ==> content_at(source, pos)
}

/// No node of the tree waits for its contents.
pub open spec fn complete(s: Seq<NodeRec>, id: int, lvl: nat) -> bool
    decreases lvl,
{
    &&& s[id].node_type != NodeType::Pending
    &&& lvl > 0 && s[id].node_type == NodeType::Inner ==> forall|c: int|
        #[trigger] is_child(s, id, c) ==> complete(s, c, (lvl - 1) as nat)
}

/// The octant of a region in which a section lies.
proof fn lemma_octant_of(pos: u64, lvl: nat, q: u64) -> (i: int)
    requires
        lvl > 0,
        section_in(pos, lvl, q),
    ensures
        is_octant(i),
        section_in(child_pos(pos, i), (lvl - 1) as nat, q),
{
    choose|i: int| #[trigger] is_octant(i) && section_in(child_pos(pos, i), (lvl - 1) as nat, q)
}

/// The child of a root in whose tree a slot below the root lies.
proof fn lemma_child_holding(s: Seq<NodeRec>, id: int, lvl: nat, j: int) -> (c: int)
    requires
        in_tree(s, id, lvl, j),
        j != id,
    ensures
        lvl > 0,
        s[id].node_type == NodeType::Inner,
        is_child(s, id, c),
        in_tree(s, c, (lvl - 1) as nat, j),
{
    choose|c: int| #[trigger] is_child(s, id, c) && in_tree(s, c, (lvl - 1) as nat, j)
}

/// What the tree of a child says, if the child's region has content and the root
/// does not wait for its contents.
proof fn lemma_built_child<S: VoxelSource>(
    s: Seq<NodeRec>,
    id: int,
    lvl: nat,
    pos: u64,
    source: &S,
    i: int,
) -> (c: int)
    requires
        lvl > 0,
        is_octant(i),
        built(s, id, lvl, pos, source),
        s[id].node_type != NodeType::Pending,
        content_at(source, child_pos(pos, i)),
    ensures
        c == s[id].child_ptr + i,
        s[id].node_type == NodeType::Inner,
        is_child(s, id, c),
        built(s, c, (lvl - 1) as nat, child_pos(pos, i), source),
{
    assert(any_child_content(source, pos));
    let c = s[id].child_ptr + i;
    assert(is_child(s, id, c));
    assert(c - s[id].child_ptr == i);
    c
}

/// What stands in the slot of a child.
proof fn lemma_built_slot<S: VoxelSource>(
    s: Seq<NodeRec>,
    id: int,
    lvl: nat,
    pos: u64,
    source: &S,
    c: int,
)
    requires
        lvl > 0,
        built(s, id, lvl, pos, source),
        s[id].node_type == NodeType::Inner,
        is_child(s, id, c),
    ensures
        ({
            let child = child_pos(pos, c - s[id].child_ptr);
            if content_at(source, child) {
                built(s, c, (lvl - 1) as nat, child, source)
            } else {
                s[c] == absent_rec(child)
            }
        }),
{
}

/// The regions round a section with content have content.
proof fn lemma_content_above<S: VoxelSource>(source: &S, pos: u64, lvl: nat, q: u64)
    requires
        inherits(source),
        representable(pos),
        position::spec_level(pos) == lvl,
        section_in(pos, lvl, q),
        content_at(source, q),
    ensures
        content_at(source, pos),
    decreases lvl,
{
    if lvl > 0 {
        let i = lemma_octant_of(pos, lvl, q);
        lemma_child_representable(pos, i);
        lemma_content_above(source, child_pos(pos, i), (lvl - 1) as nat, q);
    }
}

/// Every section with content in the region of a complete tree has a leaf in the
/// tree.
pub proof fn law_content_has_a_leaf<S: VoxelSource>(
    s: Seq<NodeRec>,
    id: int,
    lvl: nat,
    pos: u64,
    source: &S,
    q: u64,
) -> (j: int)
    requires
        inherits(source),
        representable(pos),
        position::spec_level(pos) == lvl,
        built(s, id, lvl, pos, source),
        complete(s, id, lvl),
        section_in(pos, lvl, q),
        content_at(source, q),
    ensures
        in_tree(s, id, lvl, j),
        s[j] == full_leaf_rec(q),
    decreases lvl,
{
    if lvl == 0 {
        id
    } else {
        let i = lemma_octant_of(pos, lvl, q);
        let child = child_pos(pos, i);
        lemma_child_representable(pos, i);
        lemma_content_above(source, child, (lvl - 1) as nat, q);
        let c = lemma_built_child(s, id, lvl, pos, source, i);
        assert(is_child(s, id, c) && complete(s, c, (lvl - 1) as nat));
        law_content_has_a_leaf(s, c, (lvl - 1) as nat, child, source, q)
    }
}

/// Every leaf of a tree that is not marked empty is a section with content, in
/// the region of the tree.
pub proof fn law_leaf_has_content<S: VoxelSource>(
    s: Seq<NodeRec>,
    id: int,
    lvl: nat,
    pos: u64,
    source: &S,
    j: int,
)
    requires
        built(s, id, lvl, pos, source),
        in_tree(s, id, lvl, j),
        s[j].node_type == NodeType::Leaf,
        s[j].geometry != -2,
    ensures
        content_at(source, s[j].position),
        section_in(pos, lvl, s[j].position),
    decreases lvl,
{
    if j != id {
        let c = lemma_child_holding(s, id, lvl, j);
        let i = c - s[id].child_ptr;
        lemma_built_slot(s, id, lvl, pos, source, c);
        if content_at(source, child_pos(pos, i)) {
            law_leaf_has_content(s, c, (lvl - 1) as nat, child_pos(pos, i), source, j);
            assert(is_octant(i));
        } else if j != c {
            lemma_child_holding(s, c, (lvl - 1) as nat, j);
        }
    }
}

/// The loaded chunks are a source in which a region holds something if one of its
/// octants does, so a complete tree of theirs has a leaf for each chunk that is
/// not all air.
pub proof fn law_chunks_inherit(source: &ChunkVoxelSource)
    ensures
        inherits(source),
{
    assert forall|pos: u64, i: int|
        representable(pos) && position::spec_level(pos) >= 1 && is_octant(i)
            && #[trigger] content_at(source, child_pos(pos, i)) implies content_at(source, pos) by {
        lemma_child_representable(pos, i);
        let k = (i % 2) * 4 + ((i / 2) % 2) * 2 + (i / 4) % 2;
        assert(k / 4 == i % 2 && (k / 2) % 2 == (i / 2) % 2 && k % 2 == (i / 4) % 2);
        voxel_source::law_content_is_inherited(
            source,
            position::spec_level(pos),
            position::spec_x(pos),
            position::spec_y(pos),
            position::spec_z(pos),
            k,
        );
    }
}

/// A node is to be sent to the renderer exactly if it has been built, as a leaf or with
/// children; only one with children names slots, eight in a row; and what is known to be empty
/// has a geometry that says so.
pub proof fn law_kinds_of_records(pos: u64, base: int, existence: int)
    requires
        0 <= base,
    ensures
        forall|r: NodeRec|
            #![trigger r.node_type]
            r == pending_rec(pos) || r == absent_rec(pos) || r == empty_leaf_rec(pos) || r
                == full_leaf_rec(pos) || r == inner_rec(pos, base, existence) ==> {
                &&& r.position == pos
                &&& r.dirty <==> r.node_type is Leaf || r.node_type is Inner
                &&& r.child_ptr >= 0 <==> r.node_type is Inner
                &&& r.node_type is Inner ==> r.child_ptr == base && r.child_ptr_count == 8
                    && r.child_existence == existence
                &&& r.node_type is Leaf ==> (r.child_existence == 0 || r.child_existence == 255) && (
                r.geometry == -2 <==> r.child_existence == 0)
                &&& !(r.node_type is Leaf) ==> r.geometry == -1
            },
        pending_rec(pos).node_type is Pending,
        absent_rec(pos).node_type is Unused,
        empty_leaf_rec(pos).node_type is Leaf && empty_leaf_rec(pos).geometry == -2,
        full_leaf_rec(pos).node_type is Leaf && full_leaf_rec(pos).geometry == -1,
        inner_rec(pos, base, existence).node_type is Inner,
{
}

} // verus!

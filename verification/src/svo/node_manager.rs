//! The octrees over the loaded world, and what of them the graphics processor
//! has yet to learn.
//!
//! The roots are the top-level regions. An inner node points to eight slots for
//! its octants; an octant without content has a slot that is not in use as a
//! node.

use crate::bits;
use crate::svo::hierarchical_bitset;
use crate::svo::hierarchical_bitset::CAPACITY;
use crate::svo::node_records;
use crate::svo::node_store;
use crate::svo::node_store::{NodeRec, NodeStore, NodeType};
use crate::svo::node_tree;
use crate::svo::position;
use crate::svo::position::{decode_level, decode_x, decode_y, decode_z, encode_position, make_child_pos};
use crate::svo::voxel_source;
use crate::svo::voxel_source::VoxelSource;
use std::collections::HashMap;
use vstd::prelude::*;
use vstd::std_specs::hash::*;

verus! {

broadcast use vstd::std_specs::hash::group_hash_axioms;

/// A node in the form that the graphics processor reads.
#[derive(Debug, Clone, Copy, PartialEq, Eq, Structural)]
pub struct GpuNode {
    /// The encoded position.
    pub position: u64,
    /// Geometry, flags and child pointer.
    pub data: u64,
}

/// The form of a stored node that the graphics processor reads.
pub open spec fn gpu_of(n: NodeRec) -> GpuNode {
    GpuNode { position: node_store::compact(n).0, data: node_store::compact(n).1 }
}

impl GpuNode {
    /// Reads a node from the store; all ones for a slot that is not in use.
    pub fn from_store(store: &NodeStore, node_id: u32) -> (r: Self)
        requires
            store.wf(),
            node_id < CAPACITY,
        ensures
            store.allocated().contains(node_id as int) ==> r == gpu_of(store@[node_id as int]),
            !store.allocated().contains(node_id as int) ==> r == (GpuNode {
                position: u64::MAX,
                data: u64::MAX,
            }),
    {
        let (position, data) = store.write_node_compact(node_id);
        Self { position, data }
    }

    /// A node of zeros, which stands for a slot that is not in use.
    pub fn zeroed() -> (r: Self)
        ensures
            r == (GpuNode { position: 0, data: 0 }),
    {
        Self { position: 0, data: 0 }
    }
}

/// A node that has changed since it was last sent to the graphics processor.
#[derive(Debug, Clone, Copy, PartialEq, Eq, Structural)]
pub struct DirtyNode {
    pub node_id: u32,
    pub gpu_data: GpuNode,
}

/// Some entry of `d` is about node `j`.
pub open spec fn listed(d: Seq<DirtyNode>, j: int) -> bool {
    exists|k: int| 0 <= k < d.len() && (#[trigger] d[k]).node_id == j
}

/// The generation number after `n` changes.
pub open spec fn generation_after(g: u64, n: int) -> int {
    (g + n) % 0x1_0000_0000_0000_0000
}

/// The table that the graphics processor reads: one entry for each slot up to
/// the largest one in use.
pub open spec fn is_gpu_table(nodes: Seq<NodeRec>, allocated: Set<int>, t: Seq<GpuNode>) -> bool {
    &&& hierarchical_bitset::is_top(allocated, t.len() - 1)
    &&& forall|i: int|
        0 <= i < t.len() ==> #[trigger] t[i] == if allocated.contains(i) {
            gpu_of(nodes[i])
        } else {
            GpuNode { position: 0, data: 0 }
        }
}

/// Every change is about a slot that exists, and every dirty node is listed.
pub open spec fn changes_wf(nodes: Seq<NodeRec>, allocated: Set<int>, d: Seq<DirtyNode>) -> bool {
    &&& forall|k: int| 0 <= k < d.len() ==> (#[trigger] d[k]).node_id < nodes.len()
    &&& forall|j: int| #[trigger] allocated.contains(j) && nodes[j].dirty ==> listed(d, j)
}

/// Slot `j` belongs to the tree of some root.
pub open spec fn in_some_tree(nodes: Seq<NodeRec>, tops: Seq<u32>, j: int) -> bool {
    exists|k: int|
        0 <= k < tops.len() && #[trigger] node_tree::in_tree(nodes, tops[k] as int, 4, j)
}

/// The slots in use are those of the trees under the roots, and no two trees
/// share a slot.
pub open spec fn trees_wf(nodes: Seq<NodeRec>, allocated: Set<int>, tops: Seq<u32>) -> bool {
    &&& forall|k: int|
        0 <= k < tops.len() ==> {
            &&& node_tree::tree_wf(nodes, #[trigger] tops[k] as int, 4)
            &&& nodes[tops[k] as int].node_type != NodeType::Unused
        }
    &&& forall|j: int| #[trigger] allocated.contains(j) == in_some_tree(nodes, tops, j)
    &&& forall|k: int, l: int, j: int|
        0 <= k < tops.len() && 0 <= l < tops.len() && k != l && #[trigger] node_tree::in_tree(
            nodes,
            tops[k] as int,
            4,
            j,
        ) ==> !#[trigger] node_tree::in_tree(nodes, tops[l] as int, 4, j)
}

/// The nodes are exactly those that are found by their positions.
pub open spec fn ids_wf(nodes: Seq<NodeRec>, allocated: Set<int>, ids: Map<u64, u32>) -> bool {
    &&& forall|j: int| #[trigger]
        allocated.contains(j) && nodes[j].node_type != NodeType::Unused ==> {
            &&& ids.contains_key(nodes[j].position)
            &&& ids[nodes[j].position] == j
        }
    &&& forall|p: u64| #[trigger]
        ids.contains_key(p) ==> {
            &&& allocated.contains(ids[p] as int)
            &&& nodes[ids[p] as int].node_type != NodeType::Unused
            &&& nodes[ids[p] as int].position == p
        }
}

/// What waits for insertion are top-level regions that fit the packed form.
pub open spec fn inserts_wf(q: Seq<u64>) -> bool {
    forall|p: u64| #[trigger]
        q.contains(p) ==> position::spec_level(p) == 4 && node_tree::representable(p)
}

/// What waits for removal are top-level regions.
pub open spec fn removes_wf(q: Seq<u64>) -> bool {
    forall|p: u64| #[trigger] q.contains(p) ==> position::spec_level(p) == 4
}

/// The nodes by position, the roots, the queues and the changes to be sent.
pub struct NodeBooks {
    pos_to_id: HashMap<u64, u32>,
    top_level_ids: Vec<u32>,
    dirty_nodes: Vec<DirtyNode>,
    pending_insert: Vec<u64>,
    pending_remove: Vec<u64>,
    generation: u64,
    gpu_data_cache: Vec<GpuNode>,
    cache_current: bool,
}

/// The octrees: the slots of their nodes, and what is known of them besides.
pub struct NodeManager {
    pub store: NodeStore,
    pub books: NodeBooks,
}

impl NodeManager {
    /// The slots of the store.
    pub open spec fn nodes(&self) -> Seq<NodeRec> {
        self.store@
    }

    /// The slots in use.
    pub open spec fn allocated(&self) -> Set<int> {
        self.store.allocated()
    }

    /// How many slots may be in use.
    pub open spec fn limit(&self) -> int {
        self.store.limit()
    }

    /// The slot of the node at each position.
    pub closed spec fn ids(&self) -> Map<u64, u32> {
        self.books.pos_to_id@
    }

    /// The slots of the roots, in the order of their insertion.
    pub closed spec fn tops(&self) -> Seq<u32> {
        self.books.top_level_ids@
    }

    /// The changes that have not been taken yet.
    pub closed spec fn dirty(&self) -> Seq<DirtyNode> {
        self.books.dirty_nodes@
    }

    /// The positions that wait for insertion.
    pub closed spec fn inserts(&self) -> Seq<u64> {
        self.books.pending_insert@
    }

    /// The positions that wait for removal.
    pub closed spec fn removes(&self) -> Seq<u64> {
        self.books.pending_remove@
    }

    /// The generation number.
    pub closed spec fn spec_generation(&self) -> u64 {
        self.books.generation
    }

    /// Whether the last table that was handed out is out of date.
    pub closed spec fn table_stale(&self) -> bool {
        !self.books.cache_current
    }

    /// The last table that was handed out.
    pub closed spec fn table(&self) -> Seq<GpuNode> {
        self.books.gpu_data_cache@
    }

    /// The store is consistent.
    pub open spec fn store_wf(&self) -> bool {
        self.store.wf()
    }

    /// The store and the list of changes agree.
    pub open spec fn core_wf(&self) -> bool {
        self.store_wf() && changes_wf(self.nodes(), self.allocated(), self.dirty())
    }

    /// The slots in use are those of the trees under the roots.
    pub open spec fn trees_wf(&self) -> bool {
        trees_wf(self.nodes(), self.allocated(), self.tops())
    }

    /// The nodes are exactly those that are found by their positions.
    pub open spec fn ids_wf(&self) -> bool {
        ids_wf(self.nodes(), self.allocated(), self.ids())
    }

    /// The manager is consistent.
    pub open spec fn wf(&self) -> bool {
        &&& self.core_wf()
        &&& self.trees_wf()
        &&& self.ids_wf()
        &&& !self.table_stale() ==> is_gpu_table(self.nodes(), self.allocated(), self.table())
        &&& inserts_wf(self.inserts())
        &&& removes_wf(self.removes())
    }

    /// Roots and queues are the same.
    pub open spec fn same_rest(&self, other: &Self) -> bool {
        &&& self.tops() == other.tops()
        &&& self.inserts() == other.inserts()
        &&& self.removes() == other.removes()
        &&& self.limit() == other.limit()
    }

    /// A manager without nodes, with room for 2^18 of them.
    pub fn new() -> (r: Self)
        ensures
            r.wf(),
            r.tops() == Seq::<u32>::empty(),
            r.allocated() == Set::<int>::empty(),
            r.ids() == Map::<u64, u32>::empty(),
            r.dirty() == Seq::<DirtyNode>::empty(),
            r.inserts() == Seq::<u64>::empty(),
            r.removes() == Seq::<u64>::empty(),
            r.limit() == 0x4_0000,
            r.spec_generation() == 0,
            r.table_stale(),
    {
        Self {
            store: NodeStore::new(0x4_0000),
            books: NodeBooks {
                pos_to_id: HashMap::new(),
                top_level_ids: Vec::new(),
                dirty_nodes: Vec::new(),
                pending_insert: Vec::new(),
                pending_remove: Vec::new(),
                generation: 0,
                gpu_data_cache: Vec::new(),
                cache_current: false,
            },
        }
    }

    /// Counts one more change.
    fn mark_generation_dirty(&mut self)
        ensures
            final(self).store == old(self).store,
            final(self).ids() == old(self).ids(),
            final(self).same_rest(old(self)),
            final(self).dirty() == old(self).dirty(),
            final(self).spec_generation() == generation_after(old(self).spec_generation(), 1),
            final(self).table_stale(),
    {
        self.books.generation = self.books.generation.wrapping_add(1);
        self.books.cache_current = false;
    }

    /// Queues a top-level region for insertion.
    pub fn insert_top_level(&mut self, section_pos: u64)
        requires
            old(self).wf(),
            position::spec_level(section_pos) == 4,
            node_tree::representable(section_pos),
        ensures
            final(self).wf(),
            final(self).nodes() == old(self).nodes(),
            final(self).allocated() == old(self).allocated(),
            final(self).limit() == old(self).limit(),
            final(self).ids() == old(self).ids(),
            final(self).tops() == old(self).tops(),
            final(self).dirty() == old(self).dirty(),
            final(self).inserts() == old(self).inserts().push(section_pos),
            final(self).removes() == old(self).removes(),
            final(self).spec_generation() == old(self).spec_generation(),
            final(self).table_stale() == old(self).table_stale(),
            final(self).table() == old(self).table(),
    {
        self.books.pending_insert.push(section_pos);
        proof {
            lemma_push_contains(old(self).inserts(), section_pos);
        }
    }

    /// Queues a top-level region for removal.
    pub fn remove_top_level(&mut self, section_pos: u64)
        requires
            old(self).wf(),
            position::spec_level(section_pos) == 4,
        ensures
            final(self).wf(),
            final(self).nodes() == old(self).nodes(),
            final(self).allocated() == old(self).allocated(),
            final(self).limit() == old(self).limit(),
            final(self).ids() == old(self).ids(),
            final(self).tops() == old(self).tops(),
            final(self).dirty() == old(self).dirty(),
            final(self).inserts() == old(self).inserts(),
            final(self).removes() == old(self).removes().push(section_pos),
            final(self).spec_generation() == old(self).spec_generation(),
            final(self).table_stale() == old(self).table_stale(),
            final(self).table() == old(self).table(),
    {
        self.books.pending_remove.push(section_pos);
        proof {
            lemma_push_contains(old(self).removes(), section_pos);
        }
    }

    /// Marks a node as dirty and lists it with what the graphics processor is
    /// to read; a slot that is not in use is left alone.
    pub fn mark_node_dirty(&mut self, node_id: u32)
        requires
            old(self).core_wf(),
            node_id < CAPACITY,
        ensures
            final(self).core_wf(),
            old(self).wf() ==> final(self).wf(),
            final(self).ids() == old(self).ids(),
            final(self).same_rest(old(self)),
            final(self).allocated() == old(self).allocated(),
            !old(self).allocated().contains(node_id as int) ==> *final(self) == *old(self),
            old(self).allocated().contains(node_id as int) ==> {
                let node = NodeRec { dirty: true, ..old(self).nodes()[node_id as int] };
                &&& final(self).nodes() == old(self).nodes().update(node_id as int, node)
                &&& final(self).dirty() == old(self).dirty().push(
                    DirtyNode { node_id, gpu_data: gpu_of(node) },
                )
                &&& final(self).spec_generation() == generation_after(
                    old(self).spec_generation(),
                    1,
                )
                &&& final(self).table_stale()
            },
    {
        if !self.store.node_exists(node_id) {
            return;
        }
        proof {
            self.store.lemma_wf();
        }
        self.store.set_dirty(node_id, true);
        let gpu_data: GpuNode = GpuNode::from_store(&self.store, node_id);
        self.books.dirty_nodes.push(DirtyNode { node_id, gpu_data });
        self.mark_generation_dirty();
        proof {
            let pre = *old(self);
            assert forall|j: int| #[trigger] self.allocated().contains(j) && self.nodes()[j].dirty
                implies listed(self.dirty(), j) by {
                if j == node_id {
                    assert(self.dirty()[pre.dirty().len() as int].node_id == j);
                } else {
                    assert(pre.allocated().contains(j) && pre.nodes()[j].dirty);
                    let k = choose|k: int|
                        0 <= k < pre.dirty().len() && (#[trigger] pre.dirty()[k]).node_id == j;
                    assert(self.dirty()[k].node_id == j);
                }
            }
            if pre.wf() {
                lemma_trees_keep(
                    pre.nodes(),
                    self.nodes(),
                    pre.allocated(),
                    pre.tops(),
                    pre.ids(),
                );
            }
        }
    }
}

/// What a queue holds after a push.
proof fn lemma_push_contains(q: Seq<u64>, v: u64)
    ensures
        forall|p: u64| #[trigger] q.push(v).contains(p) <==> q.contains(p) || p == v,
{
    assert forall|p: u64| #[trigger] q.push(v).contains(p) <==> q.contains(p) || p == v by {
        if q.push(v).contains(p) && p != v {
            let k = choose|k: int| 0 <= k < q.push(v).len() && q.push(v)[k] == p;
            assert(q[k] == p);
        }
        if q.contains(p) {
            let k = choose|k: int| 0 <= k < q.len() && q[k] == p;
            assert(q.push(v)[k] == p);
        }
        assert(q.push(v)[q.len() as int] == v);
    }
}

/// The two stores differ at most in flags that no tree depends on.
pub open spec fn same_shape(s: Seq<NodeRec>, t: Seq<NodeRec>) -> bool {
    &&& s.len() == t.len()
    &&& forall|j: int|
        0 <= j < s.len() ==> #[trigger] t[j] == (NodeRec { dirty: t[j].dirty, ..s[j] })
}

/// Trees survive a change of dirty flags.
proof fn lemma_shape_tree(s: Seq<NodeRec>, t: Seq<NodeRec>, id: int, lvl: nat)
    requires
        same_shape(s, t),
        node_tree::tree_wf(s, id, lvl),
    ensures
        node_tree::tree_wf(t, id, lvl),
        forall|j: int| #[trigger]
            node_tree::in_tree(t, id, lvl, j) == node_tree::in_tree(s, id, lvl, j),
    decreases lvl,
{
    assert(t[id] == (NodeRec { dirty: t[id].dirty, ..s[id] }));
    if s[id].node_type == NodeType::Inner {
        let sub = (lvl - 1) as nat;
        let base = s[id].child_ptr;
        assert forall|c: int| #[trigger] node_tree::is_child(s, id, c) implies {
            &&& node_tree::tree_wf(t, c, sub)
            &&& forall|j: int| #[trigger]
                node_tree::in_tree(t, c, sub, j) == node_tree::in_tree(s, c, sub, j)
        } by {
            lemma_shape_tree(s, t, c, sub);
        }
        assert forall|c: int| #[trigger] node_tree::is_child(t, id, c) implies {
            &&& node_tree::tree_wf(t, c, sub)
            &&& t[c].position == position::spec_child(t[id].position, c - base)
            &&& (t[c].node_type != NodeType::Unused) == bits::bit(
                t[id].child_existence as u64,
                c - base,
            )
            &&& !node_tree::in_tree(t, c, sub, id)
        } by {
            assert(node_tree::is_child(s, id, c));
            assert(t[c] == (NodeRec { dirty: t[c].dirty, ..s[c] }));
        }
        assert forall|c: int, d: int, j: int|
            base <= c < base + 8 && base <= d < base + 8 && c != d
                && #[trigger] node_tree::in_tree(t, c, sub, j) implies !#[trigger] node_tree::in_tree(
            t,
            d,
            sub,
            j,
        ) by {
            assert(node_tree::is_child(s, id, c));
            assert(node_tree::is_child(s, id, d));
            assert(node_tree::in_tree(s, c, sub, j));
        }
        assert forall|j: int| #[trigger]
            node_tree::in_tree(t, id, lvl, j) == node_tree::in_tree(s, id, lvl, j) by {
            if node_tree::in_tree(t, id, lvl, j) && j != id {
                let c = choose|c: int| #[trigger]
                    node_tree::is_child(t, id, c) && node_tree::in_tree(t, c, sub, j);
                assert(node_tree::is_child(s, id, c));
                assert(node_tree::in_tree(s, c, sub, j));
            }
            if node_tree::in_tree(s, id, lvl, j) && j != id {
                let c = choose|c: int| #[trigger]
                    node_tree::is_child(s, id, c) && node_tree::in_tree(s, c, sub, j);
                assert(node_tree::is_child(t, id, c));
                assert(node_tree::in_tree(t, c, sub, j));
            }
        }
    }
}

/// The table does not show dirty flags.
proof fn lemma_table_keep(
    s: Seq<NodeRec>,
    t: Seq<NodeRec>,
    allocated: Set<int>,
    table: Seq<GpuNode>,
)
    requires
        same_shape(s, t),
        is_gpu_table(s, allocated, table),
        forall|j: int| #[trigger] allocated.contains(j) ==> 0 <= j < s.len(),
    ensures
        is_gpu_table(t, allocated, table),
{
    assert forall|k: int| 0 <= k < table.len() implies #[trigger] table[k]
        == if allocated.contains(k) {
        gpu_of(t[k])
    } else {
        GpuNode { position: 0, data: 0 }
    } by {
        if allocated.contains(k) {
            assert(t[k] == (NodeRec { dirty: t[k].dirty, ..s[k] }));
        }
    }
}

/// Clearing the flags of all listed nodes leaves no dirty node and changes
/// nothing else.
proof fn lemma_drained(s: Seq<NodeRec>, t: Seq<NodeRec>, allocated: Set<int>, d: Seq<DirtyNode>)
    requires
        changes_wf(s, allocated, d),
        forall|j: int| #[trigger] allocated.contains(j) ==> 0 <= j < s.len(),
        s.len() == t.len(),
        forall|j: int|
            0 <= j < s.len() ==> #[trigger] t[j] == (if listed(d, j) {
                NodeRec { dirty: false, ..s[j] }
            } else {
                s[j]
            }),
    ensures
        same_shape(s, t),
        forall|j: int| #[trigger] allocated.contains(j) ==> !t[j].dirty,
        changes_wf(t, allocated, Seq::empty()),
{
    assert forall|j: int| #[trigger] allocated.contains(j) implies !t[j].dirty by {
        assert(t[j] == (if listed(d, j) {
            NodeRec { dirty: false, ..s[j] }
        } else {
            s[j]
        }));
    }
}

/// Trees and positions stay consistent when nodes change in their dirty flags
/// alone.
proof fn lemma_trees_keep(
    s: Seq<NodeRec>,
    t: Seq<NodeRec>,
    allocated: Set<int>,
    tops: Seq<u32>,
    ids: Map<u64, u32>,
)
    requires
        trees_wf(s, allocated, tops),
        ids_wf(s, allocated, ids),
        same_shape(s, t),
        forall|j: int| #[trigger] allocated.contains(j) ==> 0 <= j < s.len(),
    ensures
        trees_wf(t, allocated, tops),
        ids_wf(t, allocated, ids),
{
    assert forall|k: int| 0 <= k < tops.len() implies {
        &&& node_tree::tree_wf(t, #[trigger] tops[k] as int, 4)
        &&& t[tops[k] as int].node_type != NodeType::Unused
        &&& forall|j: int| #[trigger]
            node_tree::in_tree(t, tops[k] as int, 4, j) == node_tree::in_tree(
                s,
                tops[k] as int,
                4,
                j,
            )
    } by {
        lemma_shape_tree(s, t, tops[k] as int, 4);
        let r = tops[k] as int;
        assert(t[r] == (NodeRec { dirty: t[r].dirty, ..s[r] }));
    }
    assert forall|j: int| #[trigger] allocated.contains(j) == in_some_tree(t, tops, j) by {
        if in_some_tree(s, tops, j) {
            let k = choose|k: int|
                0 <= k < tops.len() && #[trigger] node_tree::in_tree(s, tops[k] as int, 4, j);
            assert(node_tree::in_tree(t, tops[k] as int, 4, j));
        }
        if in_some_tree(t, tops, j) {
            let k = choose|k: int|
                0 <= k < tops.len() && #[trigger] node_tree::in_tree(t, tops[k] as int, 4, j);
            assert(node_tree::in_tree(s, tops[k] as int, 4, j));
        }
    }
    assert forall|k: int, l: int, j: int|
        0 <= k < tops.len() && 0 <= l < tops.len() && k != l && #[trigger] node_tree::in_tree(
            t,
            tops[k] as int,
            4,
            j,
        ) implies !#[trigger] node_tree::in_tree(t, tops[l] as int, 4, j) by {
        assert(node_tree::in_tree(s, tops[k] as int, 4, j));
        assert(!node_tree::in_tree(s, tops[l] as int, 4, j));
    }
    assert forall|j: int| #[trigger] allocated.contains(j) implies t[j] == (NodeRec {
        dirty: t[j].dirty,
        ..s[j]
    }) by {
    }
}

/// No node lies inside the region of `pos`.
pub open spec fn none_under(ids: Map<u64, u32>, pos: u64) -> bool {
    forall|p: u64| #[trigger] ids.contains_key(p) ==> !node_tree::strictly_under(p, pos)
}

/// `c` is one of the eight slots from `base` on.
pub open spec fn in_block(base: int, c: int) -> bool {
    base <= c < base + 8
}

/// The slots that are not in use are as they were, and those that have come to the
/// store hold nothing.
pub open spec fn free_slots_kept(s: Seq<NodeRec>, t: Seq<NodeRec>, used: Set<int>) -> bool {
    forall|j: int|
        0 <= j < t.len() && !#[trigger] used.contains(j) ==> t[j] == if j < s.len() {
            s[j]
        } else {
            node_store::zero_rec()
        }
}

/// The list of changes has grown, by entries that say what the nodes now are,
/// and every new entry has been counted.
pub open spec fn changes_grow(pre: NodeManager, post: NodeManager) -> bool {
    &&& pre.dirty().len() <= post.dirty().len()
    &&& forall|k: int|
        0 <= k < pre.dirty().len() ==> #[trigger] post.dirty()[k] == pre.dirty()[k]
    &&& post.spec_generation() == generation_after(
        pre.spec_generation(),
        post.dirty().len() - pre.dirty().len(),
    )
}

/// Growth on top of growth.
proof fn lemma_changes_grow(a: NodeManager, b: NodeManager, c: NodeManager)
    requires
        changes_grow(a, b),
        changes_grow(b, c),
    ensures
        changes_grow(a, c),
{
    assert forall|k: int| 0 <= k < a.dirty().len() implies #[trigger] c.dirty()[k]
        == a.dirty()[k] by {
        assert(b.dirty()[k] == a.dirty()[k]);
    }
    lemma_generation_sum(
        a.spec_generation(),
        b.dirty().len() - a.dirty().len(),
        c.dirty().len() - b.dirty().len(),
    );
}

/// Counting on after counting.
proof fn lemma_generation_sum(g: u64, m: int, n: int)
    ensures
        0 <= generation_after(g, m) <= u64::MAX,
        generation_after(generation_after(g, m) as u64, n) == generation_after(g, m + n),
{
    vstd::arithmetic::div_mod::lemma_add_mod_noop(g + m, n, 0x1_0000_0000_0000_0000);
    let h = generation_after(g, m);
    vstd::arithmetic::div_mod::lemma_add_mod_noop(h, n, 0x1_0000_0000_0000_0000);
    vstd::arithmetic::div_mod::lemma_mod_twice(g + m, 0x1_0000_0000_0000_0000);
}

/// The node in slot `id`, which waited for its contents, has become a tree that
/// says what the source says of its region; all else is as it was.
pub open spec fn expanded<S: VoxelSource>(
    pre: NodeManager,
    post: NodeManager,
    id: int,
    source: &S,
) -> bool {
    let pos = pre.nodes()[id].position;
    let lvl = position::spec_level(pos) as nat;
    &&& post.core_wf()
    &&& post.same_rest(&pre)
    &&& pre.nodes().len() <= post.nodes().len()
    &&& forall|j: int| #[trigger]
        pre.allocated().contains(j) && j != id ==> post.nodes()[j] == pre.nodes()[j]
    &&& node_tree::tree_wf(post.nodes(), id, lvl)
    &&& node_tree::built(post.nodes(), id, lvl, pos, source)
    &&& forall|j: int| #[trigger]
        post.allocated().contains(j) <==> pre.allocated().contains(j) || node_tree::in_tree(
            post.nodes(),
            id,
            lvl,
            j,
        )
    &&& forall|j: int| #[trigger]
        node_tree::in_tree(post.nodes(), id, lvl, j) && j != id ==> !pre.allocated().contains(j)
    &&& forall|p: u64| #[trigger]
        pre.ids().contains_key(p) ==> post.ids().contains_key(p) && post.ids()[p] == pre.ids()[p]
    &&& forall|j: int| #[trigger]
        node_tree::in_tree(post.nodes(), id, lvl, j) && j != id && post.nodes()[j].node_type
            != NodeType::Unused ==> {
            &&& post.ids().contains_key(post.nodes()[j].position)
            &&& post.ids()[post.nodes()[j].position] == j
        }
    &&& forall|p: u64| #[trigger]
        post.ids().contains_key(p) && !pre.ids().contains_key(p) ==> {
            &&& node_tree::strictly_under(p, pos)
            &&& node_tree::in_tree(post.nodes(), id, lvl, post.ids()[p] as int)
            &&& post.nodes()[post.ids()[p] as int].node_type != NodeType::Unused
            &&& post.nodes()[post.ids()[p] as int].position == p
        }
    &&& forall|j: int| #[trigger]
        node_tree::in_tree(post.nodes(), id, lvl, j) && post.nodes()[j].node_type
            == NodeType::Pending ==> node_tree::exhausted(post.allocated(), post.limit())
    &&& changes_grow(pre, post)
    &&& post.dirty() == pre.dirty() + node_records::built_records(post.nodes(), id, lvl)
    &&& node_records::placed(post.nodes(), id, lvl, pre.allocated()) == Some(post.allocated())
    &&& free_slots_kept(pre.nodes(), post.nodes(), post.allocated())
}

/// The octants of the node in slot `id` while the first `upto` of the eight
/// slots from `base` on have been expanded and the others wait.
spec fn octants_wf<S: VoxelSource>(
    pre: NodeManager,
    m: NodeManager,
    id: int,
    pos: u64,
    base: int,
    upto: int,
    source: &S,
) -> bool {
    let sub = (position::spec_level(pos) - 1) as nat;
    &&& m.core_wf()
    &&& m.same_rest(&pre)
    &&& octants_trees(pre, m, id, pos, base, upto, source)
    &&& octants_ids(pre, m, base, sub)
    &&& forall|c: int, j: int| #[trigger]
        in_block(base, c) && c < base + upto && #[trigger] node_tree::in_tree(
            m.nodes(),
            c,
            sub,
            j,
        ) && m.nodes()[j].node_type == NodeType::Pending ==> node_tree::exhausted(
            m.allocated(),
            m.limit(),
        )
    &&& changes_grow(pre, m)
    &&& octants_changes(pre, m, base, upto, sub)
    &&& free_slots_kept(pre.nodes(), m.nodes(), m.allocated())
    &&& 0 <= upto
}

/// The slots of the octants.
spec fn octants_trees<S: VoxelSource>(
    pre: NodeManager,
    m: NodeManager,
    id: int,
    pos: u64,
    base: int,
    upto: int,
    source: &S,
) -> bool {
    let sub = (position::spec_level(pos) - 1) as nat;
    &&& pre.nodes().len() <= m.nodes().len()
    &&& 0 <= base
    &&& base + 8 <= m.nodes().len()
    &&& base + 8 <= CAPACITY
    &&& pre.allocated().contains(id)
    &&& forall|j: int| #[trigger]
        pre.allocated().contains(j) ==> m.allocated().contains(j) && (j != id ==> m.nodes()[j]
            == pre.nodes()[j])
    &&& forall|c: int| #[trigger]
        in_block(base, c) ==> octant_wf(m.nodes(), c, sub, pos, base, upto, source)
    &&& forall|c: int, j: int| #[trigger]
        in_block(base, c) && #[trigger] node_tree::in_tree(m.nodes(), c, sub, j)
            ==> m.allocated().contains(j) && !pre.allocated().contains(j)
    &&& forall|c: int, d: int, j: int|
        in_block(base, c) && in_block(base, d) && c != d && #[trigger] node_tree::in_tree(
            m.nodes(),
            c,
            sub,
            j,
        ) ==> !#[trigger] node_tree::in_tree(m.nodes(), d, sub, j)
    &&& forall|j: int| #[trigger]
        m.allocated().contains(j) && !pre.allocated().contains(j) ==> in_octant(
            m.nodes(),
            base,
            sub,
            j,
        )
}

/// One octant: not in use, expanded, or waiting.
spec fn octant_wf<S: VoxelSource>(
    s: Seq<NodeRec>,
    c: int,
    sub: nat,
    pos: u64,
    base: int,
    upto: int,
    source: &S,
) -> bool {
    let p = node_tree::child_pos(pos, c - base);
    &&& node_tree::tree_wf(s, c, sub)
    &&& s[c].position == p
    &&& if !node_tree::content_at(source, p) {
        s[c] == node_tree::absent_rec(p)
    } else if c < base + upto {
        node_tree::built(s, c, sub, p, source)
    } else {
        s[c] == node_tree::pending_rec(p)
    }
}

/// The positions of the octants.
spec fn octants_ids(pre: NodeManager, m: NodeManager, base: int, sub: nat) -> bool {
    &&& forall|p: u64| #[trigger]
        pre.ids().contains_key(p) ==> m.ids().contains_key(p) && m.ids()[p] == pre.ids()[p]
    &&& forall|c: int, j: int| #[trigger]
        in_block(base, c) && #[trigger] node_tree::in_tree(m.nodes(), c, sub, j)
            && m.nodes()[j].node_type != NodeType::Unused ==> {
            &&& m.ids().contains_key(m.nodes()[j].position)
            &&& m.ids()[m.nodes()[j].position] == j
        }
    &&& forall|p: u64| #[trigger]
        m.ids().contains_key(p) && !pre.ids().contains_key(p) ==> {
            &&& in_octant(m.nodes(), base, sub, m.ids()[p] as int)
            &&& m.nodes()[m.ids()[p] as int].node_type != NodeType::Unused
            &&& m.nodes()[m.ids()[p] as int].position == p
        }
}

/// The slots that the octants took, and the changes that they brought.
#[verifier::opaque]
spec fn octants_changes(
    pre: NodeManager,
    m: NodeManager,
    base: int,
    upto: int,
    sub: nat,
) -> bool {
    &&& hierarchical_bitset::lowest_free_run(pre.allocated(), base, 8)
    &&& node_records::octants_placed(
        m.nodes(),
        base,
        upto as nat,
        sub,
        pre.allocated().union(hierarchical_bitset::index_range(base, base + 8)),
    ) == Some(m.allocated())
    &&& m.dirty() == pre.dirty() + node_records::octants_built_records(
        m.nodes(),
        base,
        upto as nat,
        sub,
    )
}

/// The octants but for the one in slot `e` are the same in both stores.
spec fn others_same(s: Seq<NodeRec>, t: Seq<NodeRec>, base: int, e: int, sub: nat) -> bool {
    forall|c: int| #[trigger]
        in_block(base, c) && c != e ==> {
            &&& node_tree::tree_wf(t, c, sub)
            &&& t[c] == s[c]
            &&& forall|j: int| #[trigger]
                node_tree::in_tree(t, c, sub, j) == node_tree::in_tree(s, c, sub, j)
            &&& forall|j: int| #[trigger] node_tree::in_tree(s, c, sub, j) ==> t[j] == s[j]
        }
}

/// Slot `j` belongs to the tree of one of the eight slots from `base` on.
spec fn in_octant(s: Seq<NodeRec>, base: int, sub: nat, j: int) -> bool {
    exists|c: int| #[trigger] in_block(base, c) && node_tree::in_tree(s, c, sub, j)
}

/// Nothing lies inside the region of an octant that still waits.
proof fn lemma_octant_ready<S: VoxelSource>(
    pre: NodeManager,
    m: NodeManager,
    id: int,
    pos: u64,
    base: int,
    i: int,
    source: &S,
)
    requires
        octants_wf(pre, m, id, pos, base, i, source),
        node_tree::representable(pos),
        position::spec_level(pos) >= 1,
        none_under(pre.ids(), pos),
        0 <= i < 8,
        node_tree::content_at(source, node_tree::child_pos(pos, i)),
    ensures
        none_under(m.ids(), node_tree::child_pos(pos, i)),
        m.allocated().contains(base + i),
        m.nodes()[base + i] == node_tree::pending_rec(node_tree::child_pos(pos, i)),
{
    let cp = node_tree::child_pos(pos, i);
    let sub = (position::spec_level(pos) - 1) as nat;
    let c = base + i;
    assert(in_block(base, c));
    assert(octant_wf(m.nodes(), c, sub, pos, base, i, source));
    assert(node_tree::in_tree(m.nodes(), c, sub, c));
    node_tree::lemma_child_representable(pos, i);
    assert forall|p: u64| #[trigger] m.ids().contains_key(p) implies !node_tree::strictly_under(
        p,
        cp,
    ) by {
        if node_tree::strictly_under(p, cp) {
            if pre.ids().contains_key(p) {
                node_tree::lemma_under_transitive(p, cp, pos);
            } else {
                let j = m.ids()[p] as int;
                let d = choose|d: int| #[trigger]
                    in_block(base, d) && node_tree::in_tree(m.nodes(), d, sub, j);
                assert(octant_wf(m.nodes(), d, sub, pos, base, i, source));
                node_tree::lemma_child_representable(pos, d - base);
                if j != d {
                    node_tree::lemma_tree_positions(m.nodes(), d, sub, j);
                    node_tree::lemma_under_unique(p, cp, m.nodes()[d].position);
                    position::law_children_differ(pos, i, d - base);
                    assert(d == c);
                    assert(m.nodes()[c].node_type == NodeType::Pending);
                    assert(j == c);
                }
            }
        }
    }
}

/// Expanding an octant leaves the others alone.
proof fn lemma_octant_others<S: VoxelSource>(
    pre: NodeManager,
    m: NodeManager,
    n: NodeManager,
    id: int,
    pos: u64,
    base: int,
    i: int,
    source: &S,
)
    requires
        octants_wf(pre, m, id, pos, base, i, source),
        node_tree::representable(pos),
        position::spec_level(pos) >= 1,
        0 <= i < 8,
        node_tree::content_at(source, node_tree::child_pos(pos, i)),
        expanded(m, n, base + i, source),
    ensures
        others_same(
            m.nodes(),
            n.nodes(),
            base,
            base + i,
            (position::spec_level(pos) - 1) as nat,
        ),
        n.nodes()[id] == m.nodes()[id],
{
    let sub = (position::spec_level(pos) - 1) as nat;
    let e = base + i;
    let cp = node_tree::child_pos(pos, i);
    let (s, t) = (m.nodes(), n.nodes());
    assert(in_block(base, e));
    assert(octant_wf(s, e, sub, pos, base, i, source));
    node_tree::lemma_child_representable(pos, i);
    assert(node_tree::in_tree(s, e, sub, e));
    m.store.lemma_wf();
    assert(m.allocated().contains(id));
    assert forall|c: int| #[trigger] in_block(base, c) && c != e implies {
        &&& node_tree::tree_wf(t, c, sub)
        &&& t[c] == s[c]
        &&& forall|j: int| #[trigger]
            node_tree::in_tree(t, c, sub, j) == node_tree::in_tree(s, c, sub, j)
        &&& forall|j: int| #[trigger] node_tree::in_tree(s, c, sub, j) ==> t[j] == s[j]
    } by {
        assert(octant_wf(s, c, sub, pos, base, i, source));
        assert forall|j: int| #[trigger] node_tree::in_tree(s, c, sub, j) implies t[j] == s[j] by {
            assert(m.allocated().contains(j));
            assert(j != e);
        }
        assert(node_tree::in_tree(s, c, sub, c));
        node_tree::lemma_frame(s, t, c, sub);
    }
    assert(!node_tree::in_tree(s, e, sub, id));
}

/// The trees of the octants after the next one was expanded.
proof fn lemma_octant_trees<S: VoxelSource>(
    pre: NodeManager,
    m: NodeManager,
    n: NodeManager,
    id: int,
    pos: u64,
    base: int,
    i: int,
    source: &S,
)
    requires
        octants_wf(pre, m, id, pos, base, i, source),
        node_tree::representable(pos),
        position::spec_level(pos) >= 1,
        0 <= i < 8,
        node_tree::content_at(source, node_tree::child_pos(pos, i)),
        expanded(m, n, base + i, source),
        others_same(
            m.nodes(),
            n.nodes(),
            base,
            base + i,
            (position::spec_level(pos) - 1) as nat,
        ),
    ensures
        octants_trees(pre, n, id, pos, base, i + 1, source),
        forall|j: int| in_octant(m.nodes(), base, (position::spec_level(pos) - 1) as nat, j)
            ==> #[trigger] in_octant(n.nodes(), base, (position::spec_level(pos) - 1) as nat, j),
{
    let sub = (position::spec_level(pos) - 1) as nat;
    let e = base + i;
    let cp = node_tree::child_pos(pos, i);
    let (s, t) = (m.nodes(), n.nodes());
    assert(in_block(base, e));
    assert(octant_wf(s, e, sub, pos, base, i, source));
    node_tree::lemma_child_representable(pos, i);
    assert(node_tree::in_tree(s, e, sub, e));
    assert forall|c: int| #[trigger] in_block(base, c) implies octant_wf(
        t,
        c,
        sub,
        pos,
        base,
        i + 1,
        source,
    ) by {
        let p = node_tree::child_pos(pos, c - base);
        assert(octant_wf(s, c, sub, pos, base, i, source));
        if c != e {
            if node_tree::content_at(source, p) && c < e {
                node_tree::lemma_built_frame(s, t, c, sub, p, source);
            }
        } else {
            lemma_built_position(t, e, sub, cp, source);
        }
    }
    assert forall|c: int, j: int| #[trigger]
        in_block(base, c) && #[trigger] node_tree::in_tree(t, c, sub, j) implies
        n.allocated().contains(j) && !pre.allocated().contains(j) by {
        if c != e {
            assert(node_tree::in_tree(s, c, sub, j));
            assert(m.allocated().contains(j));
        } else if pre.allocated().contains(j) {
            assert(m.allocated().contains(j));
        }
    }
    assert forall|c: int, d: int, j: int|
        in_block(base, c) && in_block(base, d) && c != d && #[trigger] node_tree::in_tree(
            t,
            c,
            sub,
            j,
        ) implies !#[trigger] node_tree::in_tree(t, d, sub, j) by {
        if c != e && d != e {
            assert(node_tree::in_tree(s, c, sub, j));
            assert(!node_tree::in_tree(s, d, sub, j));
        } else if c == e {
            if node_tree::in_tree(s, d, sub, j) {
                assert(m.allocated().contains(j));
            }
        } else {
            assert(node_tree::in_tree(s, c, sub, j));
            assert(m.allocated().contains(j));
        }
    }
    assert forall|j: int| in_octant(s, base, sub, j) implies #[trigger] in_octant(
        t,
        base,
        sub,
        j,
    ) by {
        let c = choose|c: int| #[trigger] in_block(base, c) && node_tree::in_tree(s, c, sub, j);
        if c == e {
            assert(j == e);
            assert(node_tree::in_tree(t, e, sub, e));
        } else {
            assert(node_tree::in_tree(t, c, sub, j));
        }
    }
    assert forall|j: int| #[trigger]
        n.allocated().contains(j) && !pre.allocated().contains(j) implies in_octant(
        t,
        base,
        sub,
        j,
    ) by {
        if m.allocated().contains(j) {
            assert(in_octant(s, base, sub, j));
            assert(in_octant(t, base, sub, j));
        } else {
            assert(node_tree::in_tree(t, e, sub, j));
            assert(in_block(base, e));
        }
    }
    assert forall|j: int| #[trigger] pre.allocated().contains(j) implies n.allocated().contains(j)
        && (j != id ==> t[j] == pre.nodes()[j]) by {
        assert(m.allocated().contains(j));
        assert(!node_tree::in_tree(s, e, sub, j));
    }
}

/// The positions of the octants after the next one was expanded.
proof fn lemma_octant_ids<S: VoxelSource>(
    pre: NodeManager,
    m: NodeManager,
    n: NodeManager,
    id: int,
    pos: u64,
    base: int,
    i: int,
    source: &S,
)
    requires
        octants_wf(pre, m, id, pos, base, i, source),
        node_tree::representable(pos),
        position::spec_level(pos) >= 1,
        0 <= i < 8,
        node_tree::content_at(source, node_tree::child_pos(pos, i)),
        expanded(m, n, base + i, source),
        others_same(
            m.nodes(),
            n.nodes(),
            base,
            base + i,
            (position::spec_level(pos) - 1) as nat,
        ),
        forall|j: int| in_octant(m.nodes(), base, (position::spec_level(pos) - 1) as nat, j)
            ==> #[trigger] in_octant(n.nodes(), base, (position::spec_level(pos) - 1) as nat, j),
    ensures
        octants_ids(pre, n, base, (position::spec_level(pos) - 1) as nat),
{
    let sub = (position::spec_level(pos) - 1) as nat;
    let e = base + i;
    let cp = node_tree::child_pos(pos, i);
    let (s, t) = (m.nodes(), n.nodes());
    assert(in_block(base, e));
    assert(octant_wf(s, e, sub, pos, base, i, source));
    node_tree::lemma_child_representable(pos, i);
    assert(node_tree::in_tree(s, e, sub, e));
    assert forall|c: int, j: int| #[trigger]
        in_block(base, c) && #[trigger] node_tree::in_tree(t, c, sub, j) && t[j].node_type
            != NodeType::Unused implies {
        &&& n.ids().contains_key(t[j].position)
        &&& n.ids()[t[j].position] == j
    } by {
        if c != e {
            assert(node_tree::in_tree(s, c, sub, j));
            assert(m.ids().contains_key(s[j].position));
        } else if j == e {
            assert(m.ids().contains_key(s[e].position));
            lemma_built_position(t, e, sub, cp, source);
        }
    }
    assert forall|p: u64| #[trigger]
        n.ids().contains_key(p) && !pre.ids().contains_key(p) implies {
        &&& in_octant(t, base, sub, n.ids()[p] as int)
        &&& t[n.ids()[p] as int].node_type != NodeType::Unused
        &&& t[n.ids()[p] as int].position == p
    } by {
        if m.ids().contains_key(p) {
            let j = m.ids()[p] as int;
            assert(in_octant(s, base, sub, j));
            assert(in_octant(t, base, sub, j));
            let c = choose|c: int| #[trigger]
                in_block(base, c) && node_tree::in_tree(s, c, sub, j);
            assert(m.allocated().contains(j));
            if j == e {
                lemma_built_position(t, e, sub, cp, source);
            }
        } else {
            assert(in_block(base, e));
            assert(node_tree::in_tree(t, e, sub, n.ids()[p] as int));
        }
    }
}

/// The changes of the octants after the next one was expanded.
proof fn lemma_octant_changes<S: VoxelSource>(
    pre: NodeManager,
    m: NodeManager,
    n: NodeManager,
    id: int,
    pos: u64,
    base: int,
    i: int,
    source: &S,
)
    requires
        octants_wf(pre, m, id, pos, base, i, source),
        node_tree::representable(pos),
        position::spec_level(pos) >= 1,
        0 <= i < 8,
        node_tree::content_at(source, node_tree::child_pos(pos, i)),
        expanded(m, n, base + i, source),
        others_same(
            m.nodes(),
            n.nodes(),
            base,
            base + i,
            (position::spec_level(pos) - 1) as nat,
        ),
    ensures
        octants_changes(pre, n, base, i + 1, (position::spec_level(pos) - 1) as nat),
        changes_grow(pre, n),
{
    let sub = (position::spec_level(pos) - 1) as nat;
    let e = base + i;
    let cp = node_tree::child_pos(pos, i);
    let (s, t) = (m.nodes(), n.nodes());
    assert(in_block(base, e));
    assert(octant_wf(s, e, sub, pos, base, i, source));
    node_tree::lemma_child_representable(pos, i);
    assert(node_tree::in_tree(s, e, sub, e));
    assert forall|c: int| base <= c < base + i implies #[trigger] node_records::same_tree(
        s,
        t,
        c,
        sub,
    ) by {
        assert(in_block(base, c));
        assert(octant_wf(s, c, sub, pos, base, i, source));
    }
    assert(octants_changes(pre, n, base, i + 1, sub)) by {
        reveal(octants_changes);
        node_records::lemma_octant_built(
            s,
            t,
            base,
            i as nat,
            sub,
            pre.dirty(),
            pre.allocated().union(hierarchical_bitset::index_range(base, base + 8)),
            m.allocated(),
            n.allocated(),
        );
    }
    lemma_changes_grow(pre, m, n);
}

/// Expanding the next octant keeps the octants consistent.
proof fn lemma_octant_step<S: VoxelSource>(
    pre: NodeManager,
    m: NodeManager,
    n: NodeManager,
    id: int,
    pos: u64,
    base: int,
    i: int,
    source: &S,
)
    requires
        octants_wf(pre, m, id, pos, base, i, source),
        node_tree::representable(pos),
        position::spec_level(pos) >= 1,
        0 <= i < 8,
        node_tree::content_at(source, node_tree::child_pos(pos, i)),
        expanded(m, n, base + i, source),
    ensures
        octants_wf(pre, n, id, pos, base, i + 1, source),
        n.nodes()[id] == m.nodes()[id],
{
    let sub = (position::spec_level(pos) - 1) as nat;
    let e = base + i;
    let (s, t) = (m.nodes(), n.nodes());
    assert(in_block(base, e));
    assert(octant_wf(s, e, sub, pos, base, i, source));
    node_tree::lemma_child_representable(pos, i);
    lemma_octant_others(pre, m, n, id, pos, base, i, source);
    lemma_octant_trees(pre, m, n, id, pos, base, i, source);
    lemma_octant_ids(pre, m, n, id, pos, base, i, source);
    lemma_octant_changes(pre, m, n, id, pos, base, i, source);
    n.store.lemma_wf();
    assert forall|c: int, j: int| #[trigger]
        in_block(base, c) && c < base + i + 1 && #[trigger] node_tree::in_tree(t, c, sub, j)
            && t[j].node_type == NodeType::Pending implies node_tree::exhausted(
        n.allocated(),
        n.limit(),
    ) by {
        if c != e {
            assert(node_tree::in_tree(s, c, sub, j));
            assert(node_tree::exhausted(m.allocated(), m.limit()));
            node_tree::lemma_exhausted_grows(m.allocated(), n.allocated(), m.limit());
        }
    }
}

/// A tree that was built for a position has it at its root, and its root is a
/// node.
proof fn lemma_built_position<S: VoxelSource>(
    s: Seq<NodeRec>,
    id: int,
    lvl: nat,
    pos: u64,
    source: &S,
)
    requires
        node_tree::built(s, id, lvl, pos, source),
    ensures
        s[id].position == pos,
        s[id].node_type != NodeType::Unused,
{
}

/// Once all octants have been expanded and the node points to them, the node is
/// expanded.
#[verifier::rlimit(60)]
proof fn lemma_octants_done<S: VoxelSource>(
    pre: NodeManager,
    m: NodeManager,
    f: NodeManager,
    id: int,
    base: int,
    existence: int,
    source: &S,
)
    requires
        ({
            let pos = pre.nodes()[id].position;
            let done = node_tree::inner_rec(pos, base, existence);
            &&& octants_wf(pre, m, id, pos, base, 8, source)
            &&& node_tree::representable(pos)
            &&& position::spec_level(pos) >= 1
            &&& node_tree::any_child_content(source, pos)
            &&& 0 <= existence < 256
            &&& forall|i: int|
                0 <= i < 8 ==> #[trigger] bits::bit(existence as u64, i) == node_tree::content_at(
                    source,
                    node_tree::child_pos(pos, i),
                )
            &&& f.core_wf()
            &&& f.same_rest(&m)
            &&& f.allocated() == m.allocated()
            &&& f.ids() == m.ids()
            &&& f.nodes() == m.nodes().update(id, done)
            &&& f.dirty() == m.dirty().push(
                DirtyNode { node_id: id as u32, gpu_data: gpu_of(done) },
            )
            &&& f.spec_generation() == generation_after(m.spec_generation(), 1)
            &&& 0 <= id <= u32::MAX
        }),
    ensures
        expanded(pre, f, id, source),
{
    let pos = pre.nodes()[id].position;
    let lvl = position::spec_level(pos) as nat;
    let sub = (lvl - 1) as nat;
    let (s, t) = (m.nodes(), f.nodes());
    m.store.lemma_wf();
    assert(m.allocated().contains(id));
    assert forall|c: int| #[trigger] in_block(base, c) implies {
        &&& node_tree::tree_wf(t, c, sub)
        &&& t[c] == s[c]
        &&& forall|j: int| #[trigger]
            node_tree::in_tree(t, c, sub, j) == node_tree::in_tree(s, c, sub, j)
        &&& forall|j: int| #[trigger] node_tree::in_tree(s, c, sub, j) ==> t[j] == s[j] && j != id
    } by {
        assert forall|j: int| #[trigger] node_tree::in_tree(s, c, sub, j) implies t[j] == s[j] && j
            != id by {
            assert(!pre.allocated().contains(j));
        }
        assert(node_tree::in_tree(s, c, sub, c));
        node_tree::lemma_frame(s, t, c, sub);
    }
    assert forall|c: int| #[trigger] node_tree::is_child(t, id, c) implies in_block(base, c) by {}
    assert forall|c: int| #[trigger] in_block(base, c) implies node_tree::is_child(t, id, c) by {}
    assert forall|c: int| #[trigger] node_tree::is_child(t, id, c) implies {
        &&& node_tree::tree_wf(t, c, sub)
        &&& t[c].position == position::spec_child(t[id].position, c - base)
        &&& (t[c].node_type != NodeType::Unused) == bits::bit(
            t[id].child_existence as u64,
            c - base,
        )
        &&& !node_tree::in_tree(t, c, sub, id)
    } by {
        assert(in_block(base, c));
        node_tree::lemma_child_representable(pos, c - base);
        let p = node_tree::child_pos(pos, c - base);
        assert(bits::bit(existence as u64, c - base) == node_tree::content_at(source, p));
        if node_tree::content_at(source, p) {
            lemma_built_position(s, c, sub, p, source);
        }
        if node_tree::in_tree(t, c, sub, id) {
            assert(node_tree::in_tree(s, c, sub, id));
        }
    }
    assert forall|c: int, d: int, j: int|
        base <= c < base + 8 && base <= d < base + 8 && c != d && #[trigger] node_tree::in_tree(
            t,
            c,
            sub,
            j,
        ) implies !#[trigger] node_tree::in_tree(t, d, sub, j) by {
        assert(in_block(base, c) && in_block(base, d));
        assert(node_tree::in_tree(s, c, sub, j));
        assert(!node_tree::in_tree(s, d, sub, j));
    }
    assert(node_tree::tree_wf(t, id, lvl));
    assert forall|c: int| #[trigger] node_tree::is_child(t, id, c) implies if node_tree::content_at(
        source,
        node_tree::child_pos(pos, c - base),
    ) {
        node_tree::built(t, c, sub, node_tree::child_pos(pos, c - base), source)
    } else {
        t[c] == node_tree::absent_rec(node_tree::child_pos(pos, c - base))
    } by {
        assert(in_block(base, c));
        let p = node_tree::child_pos(pos, c - base);
        if node_tree::content_at(source, p) {
            node_tree::lemma_built_frame(s, t, c, sub, p, source);
        }
    }
    assert(node_tree::built(t, id, lvl, pos, source));
    assert forall|j: int| #[trigger] node_tree::in_tree(t, id, lvl, j) && j != id implies in_octant(
        s,
        base,
        sub,
        j,
    ) by {
        let c = choose|c: int| #[trigger]
            node_tree::is_child(t, id, c) && node_tree::in_tree(t, c, sub, j);
        assert(in_block(base, c) && node_tree::in_tree(s, c, sub, j));
    }
    assert forall|j: int| #[trigger] in_octant(s, base, sub, j) implies node_tree::in_tree(
        t,
        id,
        lvl,
        j,
    ) && t[j] == s[j] && j != id by {
        let c = choose|c: int| #[trigger] in_block(base, c) && node_tree::in_tree(s, c, sub, j);
        assert(node_tree::is_child(t, id, c) && node_tree::in_tree(t, c, sub, j));
    }
    assert forall|j: int| #[trigger] f.allocated().contains(j) implies pre.allocated().contains(j)
        || node_tree::in_tree(t, id, lvl, j) by {
        if !pre.allocated().contains(j) {
            assert(in_octant(s, base, sub, j));
        }
    }
    assert forall|j: int| #[trigger] node_tree::in_tree(t, id, lvl, j) implies {
        &&& f.allocated().contains(j)
        &&& j != id ==> !pre.allocated().contains(j)
        &&& j != id && t[j].node_type != NodeType::Unused ==> f.ids().contains_key(t[j].position)
            && f.ids()[t[j].position] == j
        &&& t[j].node_type == NodeType::Pending ==> node_tree::exhausted(f.allocated(), f.limit())
    } by {
        if j != id {
            assert(in_octant(s, base, sub, j));
            let c = choose|c: int| #[trigger]
                in_block(base, c) && node_tree::in_tree(s, c, sub, j);
            assert(in_block(base, c) && node_tree::in_tree(s, c, sub, j));
        }
    }
    assert forall|p: u64| #[trigger]
        f.ids().contains_key(p) && !pre.ids().contains_key(p) implies {
        &&& node_tree::strictly_under(p, pos)
        &&& node_tree::in_tree(t, id, lvl, f.ids()[p] as int)
        &&& t[f.ids()[p] as int].node_type != NodeType::Unused
        &&& t[f.ids()[p] as int].position == p
    } by {
        let j = f.ids()[p] as int;
        assert(m.ids().contains_key(p));
        assert(in_octant(s, base, sub, j));
        node_tree::lemma_tree_positions(t, id, lvl, j);
    }
    assert forall|c: int| base <= c < base + 8 implies #[trigger] node_records::same_tree(
        s,
        t,
        c,
        sub,
    ) by {
        assert(in_block(base, c));
        assert(octant_wf(s, c, sub, pos, base, 8, source));
    }
    assert(f.dirty() == pre.dirty() + node_records::built_records(t, id, lvl)
        && node_records::placed(t, id, lvl, pre.allocated()) == Some(f.allocated())) by {
        reveal(octants_changes);
        node_records::lemma_inner_built(
            s,
            t,
            id,
            lvl,
            base,
            pre.dirty(),
            pre.allocated(),
            m.allocated(),
        );
    }
    lemma_changes_grow(pre, m, f);
}

/// A node that was left without octants is expanded.
proof fn lemma_leaf_expanded<S: VoxelSource>(
    pre: NodeManager,
    f: NodeManager,
    id: int,
    rec: NodeRec,
    source: &S,
)
    requires
        ({
            let pos = pre.nodes()[id].position;
            let lvl = position::spec_level(pos) as nat;
            &&& pre.core_wf()
            &&& pre.allocated().contains(id)
            &&& node_tree::representable(pos)
            &&& rec.position == pos
            &&& rec.node_type == NodeType::Leaf || rec.node_type == NodeType::Pending
            &&& node_tree::built(pre.nodes().update(id, rec), id, lvl, pos, source)
            &&& f.core_wf()
            &&& f.same_rest(&pre)
            &&& f.allocated() == pre.allocated()
            &&& f.ids() == pre.ids()
            &&& f.nodes() == pre.nodes().update(id, rec)
            &&& rec.node_type == NodeType::Leaf ==> f.dirty() == pre.dirty().push(
                DirtyNode { node_id: id as u32, gpu_data: gpu_of(rec) },
            ) && f.spec_generation() == generation_after(pre.spec_generation(), 1)
            &&& rec.node_type == NodeType::Pending ==> f.dirty() == pre.dirty()
                && f.spec_generation() == pre.spec_generation() && node_tree::exhausted(
                f.allocated(),
                f.limit(),
            )
            &&& 0 <= id <= u32::MAX
        }),
    ensures
        expanded(pre, f, id, source),
{
    pre.store.lemma_wf();
    let lvl = position::spec_level(pre.nodes()[id].position) as nat;
    assert(f.dirty() =~= pre.dirty() + node_records::built_records(f.nodes(), id, lvl));
}

/// The slots for the octants of node `id` while the first `upto` of them have
/// been filled in.
spec fn block_wf<S: VoxelSource>(
    pre: NodeManager,
    m: NodeManager,
    id: int,
    pos: u64,
    base: int,
    upto: int,
    source: &S,
) -> bool {
    &&& m.core_wf()
    &&& m.same_rest(&pre)
    &&& m.dirty() == pre.dirty()
    &&& m.spec_generation() == pre.spec_generation()
    &&& free_slots_kept(pre.nodes(), m.nodes(), m.allocated())
    &&& pre.nodes().len() <= m.nodes().len()
    &&& 0 <= base
    &&& base + 8 <= m.nodes().len()
    &&& base + 8 <= CAPACITY
    &&& hierarchical_bitset::lowest_free_run(pre.allocated(), base, 8)
    &&& pre.allocated().contains(id)
    &&& forall|j: int| #[trigger]
        m.allocated().contains(j) <==> pre.allocated().contains(j) || in_block(base, j)
    &&& forall|j: int| #[trigger] in_block(base, j) ==> !pre.allocated().contains(j)
    &&& forall|j: int| #[trigger]
        pre.allocated().contains(j) && j != id ==> m.nodes()[j] == pre.nodes()[j]
    &&& forall|c: int| #[trigger]
        in_block(base, c) ==> m.nodes()[c] == {
            let p = node_tree::child_pos(pos, c - base);
            if c >= base + upto {
                node_store::fresh_rec()
            } else if node_tree::content_at(source, p) {
                node_tree::pending_rec(p)
            } else {
                node_tree::absent_rec(p)
            }
        }
    &&& forall|p: u64| #[trigger]
        pre.ids().contains_key(p) ==> m.ids().contains_key(p) && m.ids()[p] == pre.ids()[p]
    &&& forall|c: int| #[trigger]
        in_block(base, c) && c < base + upto && node_tree::content_at(
            source,
            node_tree::child_pos(pos, c - base),
        ) ==> {
            let p = node_tree::child_pos(pos, c - base);
            m.ids().contains_key(p) && m.ids()[p] == c
        }
    &&& forall|p: u64| #[trigger]
        m.ids().contains_key(p) && !pre.ids().contains_key(p) ==> {
            let c = m.ids()[p] as int;
            &&& in_block(base, c)
            &&& c < base + upto
            &&& p == node_tree::child_pos(pos, c - base)
            &&& node_tree::content_at(source, p)
        }
}

/// The filled slots are octants that all wait.
proof fn lemma_block_octants<S: VoxelSource>(
    pre: NodeManager,
    m: NodeManager,
    id: int,
    pos: u64,
    base: int,
    source: &S,
)
    requires
        block_wf(pre, m, id, pos, base, 8, source),
        node_tree::representable(pos),
        position::spec_level(pos) >= 1,
    ensures
        octants_wf(pre, m, id, pos, base, 0, source),
{
    let sub = (position::spec_level(pos) - 1) as nat;
    assert forall|c: int| #[trigger] in_block(base, c) implies node_tree::tree_wf(
        m.nodes(),
        c,
        sub,
    ) && forall|j: int| #[trigger] node_tree::in_tree(m.nodes(), c, sub, j) <==> j == c by {
        node_tree::lemma_child_representable(pos, c - base);
    }
    assert forall|j: int| #[trigger] in_block(base, j) implies in_octant(
        m.nodes(),
        base,
        sub,
        j,
    ) by {
        assert(node_tree::in_tree(m.nodes(), j, sub, j));
    }
    let taken = pre.allocated().union(hierarchical_bitset::index_range(base, base + 8));
    assert forall|j: int| m.allocated().contains(j) == taken.contains(j) by {
        assert(in_block(base, j) == hierarchical_bitset::index_range(base, base + 8).contains(j));
    }
    assert(m.allocated() =~= taken);
    assert(octants_changes(pre, m, base, 0, sub)) by {
        reveal(octants_changes);
        assert(m.dirty() =~= pre.dirty() + node_records::octants_built_records(
            m.nodes(),
            base,
            0,
            sub,
        ));
    }
}

impl NodeManager {
    /// Whether a region has content: some octant of it is a node already, or
    /// the source says so.
    fn check_region_has_content<S: VoxelSource>(
        &self,
        lvl: u32,
        x: i32,
        y: i32,
        z: i32,
        source: &S,
    ) -> (r: bool)
        requires
            source.valid(),
            lvl <= 4,
            node_tree::representable(
                position::spec_encode(lvl as int, x as int, y as int, z as int) as u64,
            ),
            position::fits20(x as int),
            position::fits20(y as int),
            position::fits20(z as int),
        ensures
            ({
                let pos = position::spec_encode(lvl as int, x as int, y as int, z as int) as u64;
                r == (node_tree::content_at(source, pos) || (lvl > 0 && exists|i: int|
                    0 <= i < 8 && #[trigger] self.ids().contains_key(
                        node_tree::child_pos(pos, i),
                    )))
            }),
    {
        let ghost pos = position::spec_encode(lvl as int, x as int, y as int, z as int) as u64;
        proof {
            position::law_decode_encode(lvl as int, x as int, y as int, z as int);
            node_tree::lemma_region_fits(pos);
        }
        if lvl == 0 {
            return source.region_has_content(0, x, y, z);
        }
        let mut oz: i32 = 0;
        while oz < 2
            invariant
                source.valid(),
                0 <= oz <= 2,
                1 <= lvl <= 4,
                pos == position::spec_encode(lvl as int, x as int, y as int, z as int) as u64,
                position::spec_level(pos) == lvl,
                position::spec_x(pos) == x,
                position::spec_y(pos) == y,
                position::spec_z(pos) == z,
                position::fits20(x as int),
                position::fits20(y as int),
                position::fits20(z as int),
                node_tree::representable(pos),
                forall|i: int|
                    0 <= i < 8 && i / 4 < oz ==> !#[trigger] self.ids().contains_key(
                        node_tree::child_pos(pos, i),
                    ),
            decreases 2 - oz,
        {
            let mut ox: i32 = 0;
            while ox < 2
                invariant
                    source.valid(),
                    0 <= ox <= 2,
                    0 <= oz < 2,
                    1 <= lvl <= 4,
                    pos == position::spec_encode(lvl as int, x as int, y as int, z as int) as u64,
                    position::spec_level(pos) == lvl,
                    position::spec_x(pos) == x,
                    position::spec_y(pos) == y,
                    position::spec_z(pos) == z,
                    position::fits20(x as int),
                    position::fits20(y as int),
                    position::fits20(z as int),
                    node_tree::representable(pos),
                    forall|i: int|
                        0 <= i < 8 && (i / 4 < oz || (i / 4 == oz && i % 2 < ox))
                            ==> !#[trigger] self.ids().contains_key(node_tree::child_pos(pos, i)),
                decreases 2 - ox,
            {
                let mut oy: i32 = 0;
                while oy < 2
                    invariant
                        source.valid(),
                        0 <= oy <= 2,
                        0 <= ox < 2,
                        0 <= oz < 2,
                        1 <= lvl <= 4,
                        pos == position::spec_encode(
                            lvl as int,
                            x as int,
                            y as int,
                            z as int,
                        ) as u64,
                        position::spec_level(pos) == lvl,
                        position::spec_x(pos) == x,
                        position::spec_y(pos) == y,
                        position::spec_z(pos) == z,
                        position::fits20(x as int),
                        position::fits20(y as int),
                        position::fits20(z as int),
                        node_tree::representable(pos),
                        forall|i: int|
                            0 <= i < 8 && (i / 4 < oz || (i / 4 == oz && (i % 2 < ox || (i % 2
                                == ox && (i / 2) % 2 < oy)))) ==> !#[trigger] self.ids().contains_key(
                                node_tree::child_pos(pos, i),
                            ),
                    decreases 2 - oy,
                {
                    let child: u64 = encode_position(lvl - 1, x * 2 + ox, y * 2 + oy, z * 2 + oz);
                    let ghost i = ox + 2 * oy + 4 * oz;
                    proof {
                        assert(i % 2 == ox && (i / 2) % 2 == oy && i / 4 == oz && (i / 4) % 2
                            == oz);
                        node_tree::lemma_child_representable(pos, i as int);
                        assert(child == node_tree::child_pos(pos, i as int));
                    }
                    if self.books.pos_to_id.contains_key(&child) {
                        assert(self.ids().contains_key(node_tree::child_pos(pos, i as int)));
                        return true;
                    }
                    oy = oy + 1;
                }
                ox = ox + 1;
            }
            oz = oz + 1;
        }
        source.region_has_content(lvl, x, y, z)
    }

    /// Makes a node that waits for its contents an empty leaf.
    fn finish_empty(&mut self, node_id: u32)
        requires
            old(self).core_wf(),
            old(self).allocated().contains(node_id as int),
        ensures
            final(self).core_wf(),
            final(self).same_rest(old(self)),
            final(self).allocated() == old(self).allocated(),
            final(self).ids() == old(self).ids(),
            ({
                let node = NodeRec {
                    node_type: NodeType::Leaf,
                    geometry: -2,
                    request_in_flight: false,
                    dirty: true,
                    ..old(self).nodes()[node_id as int]
                };
                &&& final(self).nodes() == old(self).nodes().update(node_id as int, node)
                &&& final(self).dirty() == old(self).dirty().push(
                    DirtyNode { node_id, gpu_data: gpu_of(node) },
                )
            }),
            final(self).spec_generation() == generation_after(old(self).spec_generation(), 1),
    {
        proof {
            self.store.lemma_wf();
        }
        self.store.set_node_type(node_id, NodeType::Leaf);
        self.store.set_node_geometry(node_id, -2);
        self.store.unmark_request_in_flight(node_id);
        self.mark_node_dirty(node_id);
        assert(self.nodes() =~= old(self).nodes().update(
            node_id as int,
            NodeRec {
                node_type: NodeType::Leaf,
                geometry: -2,
                request_in_flight: false,
                dirty: true,
                ..old(self).nodes()[node_id as int]
            },
        ));
    }

    /// Which octants of a node have content, one bit each.
    fn content_mask<S: VoxelSource>(&self, pos: u64, source: &S) -> (mask: u8)
        requires
            source.valid(),
            node_tree::representable(pos),
            position::spec_level(pos) >= 1,
            none_under(self.ids(), pos),
        ensures
            forall|i: int|
                0 <= i < 8 ==> #[trigger] bits::bit(mask as u64, i) == node_tree::content_at(
                    source,
                    node_tree::child_pos(pos, i),
                ),
            (mask != 0) == node_tree::any_child_content(source, pos),
    {
        let lvl: u32 = decode_level(pos);
        let mut mask: u64 = 0;
        let mut i: u32 = 0;
        proof {
            bits::lemma_bit_constants();
        }
        while i < 8
            invariant
                i <= 8,
                source.valid(),
                mask < 256,
                lvl == position::spec_level(pos),
                node_tree::representable(pos),
                position::spec_level(pos) >= 1,
                none_under(self.ids(), pos),
                forall|j: int|
                    0 <= j < 64 ==> #[trigger] bits::bit(mask, j) == (j < i
                        && node_tree::content_at(source, node_tree::child_pos(pos, j))),
            decreases 8 - i,
        {
            let child: u64 = make_child_pos(pos, i);
            proof {
                node_tree::lemma_child_representable(pos, i as int);
                position::law_encode_decode(child);
                assert forall|k: int| 0 <= k < 8 && position::spec_level(child) > 0 implies
                    !#[trigger] self.ids().contains_key(node_tree::child_pos(child, k)) by {
                    node_tree::lemma_child_representable(child, k);
                    node_tree::lemma_under_transitive(
                        node_tree::child_pos(child, k),
                        child,
                        pos,
                    );
                }
            }
            let has: bool = self.check_region_has_content(
                lvl - 1,
                decode_x(child),
                decode_y(child),
                decode_z(child),
                source,
            );
            if has {
                let bit: u64 = i as u64;
                proof {
                    bits::lemma_bit_set(mask, bit);
                    bits::lemma_byte_bit_set(mask, bit);
                }
                mask = mask | (1u64 << bit);
            }
            i = i + 1;
        }
        proof {
            bits::lemma_trailing_zeros(mask);
            bits::lemma_bit_constants();
            if mask != 0 {
                let z = vstd::std_specs::bits::u64_trailing_zeros(mask) as int;
                assert(bits::bit(mask, z));
                assert(node_tree::content_at(source, node_tree::child_pos(pos, z)));
            } else if node_tree::any_child_content(source, pos) {
                let z = choose|z: int|
                    0 <= z < 8 && #[trigger] node_tree::content_at(
                        source,
                        node_tree::child_pos(pos, z),
                    );
                assert(bits::bit(mask, z));
            }
        }
        mask as u8
    }

    /// Fills in the eight slots from `base` on as octants of a node.
    fn init_octants<S: VoxelSource>(
        &mut self,
        node_id: u32,
        pos: u64,
        base: u32,
        mask: u8,
        source: &S,
        Ghost(pre): Ghost<NodeManager>,
    )
        requires
            block_wf(pre, *old(self), node_id as int, pos, base as int, 0, source),
            pre.core_wf(),
            node_tree::representable(pos),
            position::spec_level(pos) >= 1,
            none_under(pre.ids(), pos),
            forall|i: int|
                0 <= i < 8 ==> #[trigger] bits::bit(mask as u64, i) == node_tree::content_at(
                    source,
                    node_tree::child_pos(pos, i),
                ),
        ensures
            block_wf(pre, *final(self), node_id as int, pos, base as int, 8, source),
            final(self).nodes()[node_id as int] == old(self).nodes()[node_id as int],
    {
        let mut i: u32 = 0;
        while i < 8
            invariant
                i <= 8,
                block_wf(pre, *self, node_id as int, pos, base as int, i as int, source),
                pre.core_wf(),
                node_tree::representable(pos),
                position::spec_level(pos) >= 1,
                none_under(pre.ids(), pos),
                forall|i: int|
                    0 <= i < 8 ==> #[trigger] bits::bit(mask as u64, i) == node_tree::content_at(
                        source,
                        node_tree::child_pos(pos, i),
                    ),
                self.nodes()[node_id as int] == old(self).nodes()[node_id as int],
            decreases 8 - i,
        {
            let ghost prev = *self;
            let child: u64 = make_child_pos(pos, i);
            let child_id: u32 = base + i;
            proof {
                bits::lemma_bit_test(mask as u64, i as u64);
                node_tree::lemma_child_representable(pos, i as int);
                assert(in_block(base as int, child_id as int));
                assert(child == node_tree::child_pos(pos, i as int));
                assert(!pre.ids().contains_key(child));
                assert(pre.allocated().contains(node_id as int));
            }
            self.store.set_node_position(child_id, child);
            if (mask as u64) & (1u64 << (i as u64)) != 0 {
                self.store.set_node_type(child_id, NodeType::Pending);
                self.books.pos_to_id.insert(child, child_id);
            } else {
                self.store.set_node_type(child_id, NodeType::Unused);
            }
            proof {
                self.lemma_init_step(
                    prev,
                    pre,
                    node_id as int,
                    pos,
                    base as int,
                    i as int,
                    source,
                );
            }
            i = i + 1;
        }
    }

    /// Filling in one more octant.
    proof fn lemma_init_step<S: VoxelSource>(
        self,
        prev: NodeManager,
        pre: NodeManager,
        id: int,
        pos: u64,
        base: int,
        i: int,
        source: &S,
    )
        requires
            block_wf(pre, prev, id, pos, base, i, source),
            pre.core_wf(),
            node_tree::representable(pos),
            position::spec_level(pos) >= 1,
            0 <= i < 8,
            base + i <= u32::MAX,
            !pre.ids().contains_key(node_tree::child_pos(pos, i)),
            self.store.wf(),
            self.same_rest(&prev),
            self.dirty() == prev.dirty(),
            self.spec_generation() == prev.spec_generation(),
            self.allocated() == prev.allocated(),
            ({
                let p = node_tree::child_pos(pos, i);
                let node = if node_tree::content_at(source, p) {
                    node_tree::pending_rec(p)
                } else {
                    node_tree::absent_rec(p)
                };
                &&& self.nodes() =~= prev.nodes().update(base + i, node)
                &&& self.ids() == if node_tree::content_at(source, p) {
                    prev.ids().insert(p, (base + i) as u32)
                } else {
                    prev.ids()
                }
            }),
        ensures
            block_wf(pre, self, id, pos, base, i + 1, source),
            self.nodes()[id] == prev.nodes()[id],
    {
        let p = node_tree::child_pos(pos, i);
        assert(in_block(base, base + i));
        assert(pre.allocated().contains(id));
        assert(id != base + i);
        prev.store.lemma_wf();
        pre.store.lemma_wf();
        assert(prev.allocated().contains(id));
        lemma_octants_differ(pos);
        assert forall|j: int| #[trigger]
            pre.allocated().contains(j) && j != id implies self.nodes()[j] == pre.nodes()[j] by {
            assert(prev.allocated().contains(j));
            assert(j != base + i);
        }
        assert forall|c: int| #[trigger]
            in_block(base, c) && c < base + i + 1 && node_tree::content_at(
                source,
                node_tree::child_pos(pos, c - base),
            ) implies {
            let q = node_tree::child_pos(pos, c - base);
            self.ids().contains_key(q) && self.ids()[q] == c
        } by {
            let q = node_tree::child_pos(pos, c - base);
            if c != base + i {
                assert(q != p);
                assert(prev.ids().contains_key(q));
            }
        }
        assert forall|q: u64| #[trigger]
            self.ids().contains_key(q) && !pre.ids().contains_key(q) implies {
            let c = self.ids()[q] as int;
            &&& in_block(base, c)
            &&& c < base + i + 1
            &&& q == node_tree::child_pos(pos, c - base)
            &&& node_tree::content_at(source, q)
        } by {
            if q != p {
                assert(prev.ids().contains_key(q));
            } else if !node_tree::content_at(source, p) {
                assert(prev.ids().contains_key(q));
            } else {
                assert(self.ids()[q] == base + i);
            }
        }
        assert forall|j: int| #[trigger]
            self.allocated().contains(j) && self.nodes()[j].dirty implies listed(
            self.dirty(),
            j,
        ) by {
            assert(prev.allocated().contains(j));
            assert(j != base + i);
        }
    }

    /// Expands a node that waits for its contents: asks the source about its
    /// region and builds the tree under it, down to single sections. Where there
    /// is no room for eight children the node is left waiting.
    fn request_leaf_node<S: VoxelSource>(&mut self, node_id: u32, source: &S)
        requires
            source.valid(),
            old(self).core_wf(),
            old(self).allocated().contains(node_id as int),
            old(self).nodes()[node_id as int] == node_tree::pending_rec(
                old(self).nodes()[node_id as int].position,
            ),
            node_tree::representable(old(self).nodes()[node_id as int].position),
            none_under(old(self).ids(), old(self).nodes()[node_id as int].position),
        ensures
            expanded(*old(self), *final(self), node_id as int, source),
        decreases position::spec_level(old(self).nodes()[node_id as int].position),
    {
        let ghost pre = *self;
        let ghost id = node_id as int;
        proof {
            self.store.lemma_wf();
        }
        let pos: u64 = self.store.node_position(node_id);
        let lvl: u32 = decode_level(pos);
        self.store.mark_request_in_flight(node_id);
        if lvl == 0 {
            proof {
                node_tree::lemma_region_fits(pos);
            }
            let has_content: bool = source.region_has_content(
                0,
                decode_x(pos),
                decode_y(pos),
                decode_z(pos),
            );
            if !has_content {
                self.finish_empty(node_id);
                proof {
                    let rec = node_tree::empty_leaf_rec(pos);
                    assert(self.nodes() =~= pre.nodes().update(id, rec));
                    lemma_leaf_expanded(pre, *self, id, rec, source);
                }
                return;
            }
            self.store.set_node_type(node_id, NodeType::Leaf);
            self.store.set_node_child_existence(node_id, 0xFF);
            self.store.unmark_request_in_flight(node_id);
            self.mark_node_dirty(node_id);
            proof {
                let rec = node_tree::full_leaf_rec(pos);
                assert(self.nodes() =~= pre.nodes().update(id, rec));
                lemma_leaf_expanded(pre, *self, id, rec, source);
            }
            return;
        }
        let mask: u8 = self.content_mask(pos, source);
        if mask == 0 {
            self.finish_empty(node_id);
            proof {
                let rec = node_tree::empty_leaf_rec(pos);
                assert(self.nodes() =~= pre.nodes().update(id, rec));
                lemma_leaf_expanded(pre, *self, id, rec, source);
            }
            return;
        }
        let base: u32 = match self.store.allocate_contiguous(8) {
            Some(base) => base,
            None => {
                self.store.unmark_request_in_flight(node_id);
                proof {
                    let rec = node_tree::pending_rec(pos);
                    assert(self.nodes() =~= pre.nodes().update(id, rec));
                    lemma_leaf_expanded(pre, *self, id, rec, source);
                }
                return;
            },
        };
        let ghost mid = *self;
        proof {
            assert forall|j: int| #[trigger] in_block(base as int, j) implies
                !pre.allocated().contains(j) by {}
            assert(!in_block(base as int, id));
        }
        self.store.set_node_type(node_id, NodeType::Inner);
        self.store.set_child_ptr(node_id, base as i32);
        self.store.set_node_child_existence(node_id, mask);
        self.store.set_child_ptr_count(node_id, 8);
        let ghost flying = NodeRec {
            request_in_flight: true,
            dirty: false,
            ..node_tree::inner_rec(pos, base as int, mask as int)
        };
        proof {
            assert(self.nodes()[id] == flying);
            assert forall|j: int| #[trigger]
                self.allocated().contains(j) && self.nodes()[j].dirty implies listed(
                self.dirty(),
                j,
            ) by {
                if pre.allocated().contains(j) {
                    assert(pre.nodes()[j].dirty);
                } else {
                    assert(in_block(base as int, j));
                }
            }
            assert(block_wf(pre, *self, id, pos, base as int, 0, source));
        }
        self.init_octants(node_id, pos, base, mask, source, Ghost(pre));
        proof {
            lemma_block_octants(pre, *self, id, pos, base as int, source);
        }
        let mut i: u32 = 0;
        while i < 8
            invariant
                i <= 8,
                source.valid(),
                id == node_id,
                lvl == position::spec_level(pos),
                lvl >= 1,
                pos == old(self).nodes()[id].position,
                pre == *old(self),
                node_tree::representable(pos),
                none_under(pre.ids(), pos),
                octants_wf(pre, *self, id, pos, base as int, i as int, source),
                self.nodes()[id] == flying,
                forall|i: int|
                    0 <= i < 8 ==> #[trigger] bits::bit(mask as u64, i) == node_tree::content_at(
                        source,
                        node_tree::child_pos(pos, i),
                    ),
            decreases 8 - i,
        {
            proof {
                bits::lemma_bit_test(mask as u64, i as u64);
                node_tree::lemma_child_representable(pos, i as int);
                assert(in_block(base as int, base + i));
                assert(octant_wf(
                    self.nodes(),
                    base + i,
                    (lvl - 1) as nat,
                    pos,
                    base as int,
                    i as int,
                    source,
                ));
                assert(bits::bit(mask as u64, i as int) == node_tree::content_at(
                    source,
                    node_tree::child_pos(pos, i as int),
                ));
            }
            let ghost m = *self;
            if (mask as u64) & (1u64 << (i as u64)) != 0 {
                proof {
                    lemma_octant_ready(pre, m, id, pos, base as int, i as int, source);
                }
                self.request_leaf_node(base + i, source);
                proof {
                    lemma_octant_step(pre, m, *self, id, pos, base as int, i as int, source);
                }
            } else {
                proof {
                    lemma_octant_skip(pre, m, id, pos, base as int, i as int, source);
                }
            }
            i = i + 1;
        }
        let ghost m = *self;
        proof {
            self.store.lemma_wf();
            assert(self.allocated().contains(id));
        }
        self.store.unmark_request_in_flight(node_id);
        self.mark_node_dirty(node_id);
        proof {
            assert(self.nodes() =~= m.nodes().update(
                id,
                node_tree::inner_rec(pos, base as int, mask as int),
            ));
            lemma_octants_done(pre, m, *self, id, base as int, mask as int, source);
        }
    }
}

/// The octants of a region are eight different regions.
proof fn lemma_octants_differ(pos: u64)
    requires
        node_tree::representable(pos),
        position::spec_level(pos) >= 1,
    ensures
        forall|i: int, j: int|
            0 <= i < 8 && 0 <= j < 8 && #[trigger] node_tree::child_pos(pos, i)
                == #[trigger] node_tree::child_pos(pos, j) ==> i == j,
{
    assert forall|i: int, j: int|
        0 <= i < 8 && 0 <= j < 8 && #[trigger] node_tree::child_pos(pos, i)
            == #[trigger] node_tree::child_pos(pos, j) implies i == j by {
        node_tree::lemma_child_representable(pos, i);
        node_tree::lemma_child_representable(pos, j);
        position::law_children_differ(pos, i, j);
    }
}

/// An octant without content needs no expansion.
proof fn lemma_octant_skip<S: VoxelSource>(
    pre: NodeManager,
    m: NodeManager,
    id: int,
    pos: u64,
    base: int,
    i: int,
    source: &S,
)
    requires
        octants_wf(pre, m, id, pos, base, i, source),
        0 <= i < 8,
        !node_tree::content_at(source, node_tree::child_pos(pos, i)),
    ensures
        octants_wf(pre, m, id, pos, base, i + 1, source),
{
    let sub = (position::spec_level(pos) - 1) as nat;
    assert(in_block(base, base + i));
    assert(octant_wf(m.nodes(), base + i, sub, pos, base, i, source));
    assert forall|c: int| #[trigger] in_block(base, c) implies octant_wf(
        m.nodes(),
        c,
        sub,
        pos,
        base,
        i + 1,
        source,
    ) by {
        assert(octant_wf(m.nodes(), c, sub, pos, base, i, source));
    }
    assert(octants_changes(pre, m, base, i + 1, sub)) by {
        reveal(octants_changes);
        node_records::lemma_octant_skipped(m.nodes(), base, i as nat, sub);
    }
}

/// The nodes of the tree in slot `id`, but for its root, are those that are
/// found by their positions.
spec fn subtree_ids(m: NodeManager, id: int, lvl: nat) -> bool {
    &&& forall|j: int| #[trigger]
        node_tree::in_tree(m.nodes(), id, lvl, j) && j != id && m.nodes()[j].node_type
            != NodeType::Unused ==> {
            &&& m.ids().contains_key(m.nodes()[j].position)
            &&& m.ids()[m.nodes()[j].position] == j
        }
    &&& forall|p: u64| #[trigger]
        m.ids().contains_key(p) && node_tree::in_tree(m.nodes(), id, lvl, m.ids()[p] as int)
            ==> m.ids()[p] != id && m.nodes()[m.ids()[p] as int].position == p
            && m.nodes()[m.ids()[p] as int].node_type != NodeType::Unused
}

/// The tree in slot `id` has been given back, and all else is as it was.
pub open spec fn uprooted(pre: NodeManager, post: NodeManager, id: int) -> bool {
    let lvl = position::spec_level(pre.nodes()[id].position) as nat;
    &&& post.core_wf()
    &&& post.same_rest(&pre)
    &&& post.nodes().len() == pre.nodes().len()
    &&& forall|j: int| #[trigger]
        post.allocated().contains(j) <==> pre.allocated().contains(j) && !node_tree::in_tree(
            pre.nodes(),
            id,
            lvl,
            j,
        )
    &&& forall|j: int|
        0 <= j < pre.nodes().len() && !#[trigger] node_tree::in_tree(pre.nodes(), id, lvl, j)
            ==> post.nodes()[j] == pre.nodes()[j]
    &&& forall|j: int| #[trigger]
        node_tree::in_tree(pre.nodes(), id, lvl, j) ==> post.nodes()[j] == node_store::fresh_rec()
    &&& forall|p: u64| #[trigger]
        post.ids().contains_key(p) <==> pre.ids().contains_key(p) && !node_tree::in_tree(
            pre.nodes(),
            id,
            lvl,
            pre.ids()[p] as int,
        )
    &&& forall|p: u64| #[trigger] post.ids().contains_key(p) ==> post.ids()[p] == pre.ids()[p]
    &&& changes_grow(pre, post)
    &&& post.dirty() == pre.dirty() + node_records::gone_records(pre.nodes(), id, lvl)
}

/// Slot `j` belongs to the tree of one of the first `upto` octants that are
/// nodes.
spec fn in_gone_octant(s: Seq<NodeRec>, base: int, upto: int, sub: nat, j: int) -> bool {
    exists|c: int| #[trigger]
        in_block(base, c) && c < base + upto && s[c].node_type != NodeType::Unused
            && node_tree::in_tree(s, c, sub, j)
}

/// The first `upto` octants of a node have been given back.
spec fn pruned(pre: NodeManager, m: NodeManager, base: int, upto: int, sub: nat) -> bool {
    &&& m.core_wf()
    &&& m.same_rest(&pre)
    &&& m.nodes().len() == pre.nodes().len()
    &&& forall|j: int| #[trigger]
        m.allocated().contains(j) <==> pre.allocated().contains(j) && !in_gone_octant(
            pre.nodes(),
            base,
            upto,
            sub,
            j,
        )
    &&& forall|j: int|
        0 <= j < pre.nodes().len() && !#[trigger] in_gone_octant(pre.nodes(), base, upto, sub, j)
            ==> m.nodes()[j] == pre.nodes()[j]
    &&& forall|j: int| #[trigger]
        in_gone_octant(pre.nodes(), base, upto, sub, j) ==> m.nodes()[j] == node_store::fresh_rec()
    &&& forall|p: u64| #[trigger]
        m.ids().contains_key(p) <==> pre.ids().contains_key(p) && !in_gone_octant(
            pre.nodes(),
            base,
            upto,
            sub,
            pre.ids()[p] as int,
        )
    &&& forall|p: u64| #[trigger] m.ids().contains_key(p) ==> m.ids()[p] == pre.ids()[p]
    &&& changes_grow(pre, m)
    &&& 0 <= upto
    &&& m.dirty() == pre.dirty() + node_records::octants_gone_records(
        pre.nodes(),
        base,
        upto as nat,
        sub,
    )
}

/// What a node that is about to be given back looks like.
spec fn removable(m: NodeManager, id: int, lvl: nat) -> bool {
    &&& m.core_wf()
    &&& node_tree::tree_wf(m.nodes(), id, lvl)
    &&& forall|j: int| #[trigger]
        node_tree::in_tree(m.nodes(), id, lvl, j) ==> m.allocated().contains(j)
    &&& subtree_ids(m, id, lvl)
}

/// The next octant can be given back once its position has been forgotten.
proof fn lemma_prune_ready(
    pre: NodeManager,
    m: NodeManager,
    n: NodeManager,
    id: int,
    base: int,
    i: int,
    lvl: nat,
)
    requires
        removable(pre, id, lvl),
        pre.nodes()[id].node_type == NodeType::Inner,
        base == pre.nodes()[id].child_ptr,
        0 <= i < 8,
        pruned(pre, m, base, i, (lvl - 1) as nat),
        pre.nodes()[base + i].node_type != NodeType::Unused,
        n.store == m.store,
        n.ids() == m.ids().remove(pre.nodes()[base + i].position),
        n.same_rest(&m),
        n.dirty() == m.dirty(),
        n.spec_generation() == m.spec_generation(),
    ensures
        removable(n, base + i, (lvl - 1) as nat),
        n.nodes()[base + i] == pre.nodes()[base + i],
        forall|j: int| #[trigger]
            node_tree::in_tree(n.nodes(), base + i, (lvl - 1) as nat, j) == node_tree::in_tree(
                pre.nodes(),
                base + i,
                (lvl - 1) as nat,
                j,
            ),
        node_records::gone_records(n.nodes(), base + i, (lvl - 1) as nat)
            == node_records::gone_records(pre.nodes(), base + i, (lvl - 1) as nat),
{
    let sub = (lvl - 1) as nat;
    let e = base + i;
    let (s, t) = (pre.nodes(), n.nodes());
    assert(node_tree::is_child(s, id, e));
    assert(node_tree::tree_wf(s, e, sub));
    assert forall|j: int| #[trigger] node_tree::in_tree(s, e, sub, j) implies {
        &&& t[j] == s[j]
        &&& n.allocated().contains(j)
        &&& node_tree::in_tree(s, id, lvl, j)
        &&& !in_gone_octant(s, base, i, sub, j)
    } by {
        if in_gone_octant(s, base, i, sub, j) {
            let c = choose|c: int| #[trigger]
                in_block(base, c) && c < base + i && s[c].node_type != NodeType::Unused
                    && node_tree::in_tree(s, c, sub, j);
            assert(node_tree::is_child(s, id, c));
            assert(!node_tree::in_tree(s, c, sub, j));
        }
        assert(node_tree::in_tree(s, id, lvl, j)) by {
            assert(node_tree::is_child(s, id, e));
        }
        node_tree::lemma_tree_positions(s, e, sub, j);
        assert(m.nodes()[j] == s[j]);
    }
    node_tree::lemma_frame(s, t, e, sub);
    node_records::lemma_records_frame(s, t, e, sub);
    assert(node_tree::in_tree(s, e, sub, e));
    assert forall|j: int| #[trigger]
        node_tree::in_tree(t, e, sub, j) && j != e && t[j].node_type != NodeType::Unused implies {
        &&& n.ids().contains_key(t[j].position)
        &&& n.ids()[t[j].position] == j
    } by {
        assert(node_tree::in_tree(s, e, sub, j));
        assert(node_tree::in_tree(s, id, lvl, j));
        assert(!node_tree::in_tree(s, e, sub, id));
        let p = s[j].position;
        assert(pre.ids().contains_key(p) && pre.ids()[p] == j);
        assert(m.ids().contains_key(p));
        assert(node_tree::in_tree(s, id, lvl, e));
        assert(pre.ids()[s[e].position] == e);
    }
    assert forall|p: u64| #[trigger]
        n.ids().contains_key(p) && node_tree::in_tree(t, e, sub, n.ids()[p] as int) implies n.ids()[p]
        != e && t[n.ids()[p] as int].position == p && t[n.ids()[p] as int].node_type
        != NodeType::Unused by {
        assert(m.ids().contains_key(p));
        assert(pre.ids().contains_key(p));
        let j = pre.ids()[p] as int;
        assert(node_tree::in_tree(s, e, sub, j));
        assert(node_tree::in_tree(s, id, lvl, j));
        if j == e {
            assert(s[e].position == p);
        }
    }
}

/// One more octant has been given back.
proof fn lemma_prune_step(
    pre: NodeManager,
    m: NodeManager,
    n: NodeManager,
    f: NodeManager,
    id: int,
    base: int,
    i: int,
    lvl: nat,
)
    requires
        removable(pre, id, lvl),
        pre.nodes()[id].node_type == NodeType::Inner,
        base == pre.nodes()[id].child_ptr,
        0 <= i < 8,
        pruned(pre, m, base, i, (lvl - 1) as nat),
        pre.nodes()[base + i].node_type != NodeType::Unused,
        n.store == m.store,
        n.ids() == m.ids().remove(pre.nodes()[base + i].position),
        n.same_rest(&m),
        n.dirty() == m.dirty(),
        n.spec_generation() == m.spec_generation(),
        uprooted(n, f, base + i),
    ensures
        pruned(pre, f, base, i + 1, (lvl - 1) as nat),
{
    let sub = (lvl - 1) as nat;
    let e = base + i;
    let s = pre.nodes();
    lemma_prune_ready(pre, m, n, id, base, i, lvl);
    assert(node_tree::is_child(s, id, e));
    assert(node_tree::tree_wf(s, e, sub));
    assert(in_block(base, e));
    assert forall|j: int| #[trigger] in_gone_octant(s, base, i + 1, sub, j) == (in_gone_octant(
        s,
        base,
        i,
        sub,
        j,
    ) || node_tree::in_tree(s, e, sub, j)) by {
        if in_gone_octant(s, base, i + 1, sub, j) {
            let c = choose|c: int| #[trigger]
                in_block(base, c) && c < base + i + 1 && s[c].node_type != NodeType::Unused
                    && node_tree::in_tree(s, c, sub, j);
            if c != e {
                assert(in_block(base, c));
            }
        }
        if in_gone_octant(s, base, i, sub, j) {
            let c = choose|c: int| #[trigger]
                in_block(base, c) && c < base + i && s[c].node_type != NodeType::Unused
                    && node_tree::in_tree(s, c, sub, j);
            assert(in_block(base, c));
        }
    }
    assert forall|j: int|
        0 <= j < s.len() && !#[trigger] in_gone_octant(s, base, i + 1, sub, j) implies f.nodes()[j]
        == s[j] by {
        assert(!node_tree::in_tree(n.nodes(), e, sub, j));
        assert(!in_gone_octant(s, base, i, sub, j));
    }
    assert forall|j: int| #[trigger] in_gone_octant(s, base, i + 1, sub, j) implies f.nodes()[j]
        == node_store::fresh_rec() by {
        if node_tree::in_tree(s, e, sub, j) {
            assert(node_tree::in_tree(n.nodes(), e, sub, j));
        } else {
            assert(in_gone_octant(s, base, i, sub, j));
            let c = choose|c: int| #[trigger]
                in_block(base, c) && c < base + i && s[c].node_type != NodeType::Unused
                    && node_tree::in_tree(s, c, sub, j);
            assert(node_tree::is_child(s, id, c));
            node_tree::lemma_tree_positions(s, c, sub, j);
            assert(!node_tree::in_tree(n.nodes(), e, sub, j));
        }
    }
    assert forall|p: u64| #[trigger]
        f.ids().contains_key(p) <==> pre.ids().contains_key(p) && !in_gone_octant(
            s,
            base,
            i + 1,
            sub,
            pre.ids()[p] as int,
        ) by {
        if pre.ids().contains_key(p) {
            let j = pre.ids()[p] as int;
            if p == s[e].position {
                assert(node_tree::in_tree(s, e, sub, e));
                assert(node_tree::in_tree(s, id, lvl, e));
                assert(!node_tree::in_tree(s, e, sub, id));
                assert(j == e);
            }
            if m.ids().contains_key(p) {
                assert(in_gone_octant(s, base, i + 1, sub, j) == node_tree::in_tree(s, e, sub, j));
            }
        }
    }
    assert(f.dirty() =~= pre.dirty() + node_records::octants_gone_records(
        s,
        base,
        (i + 1) as nat,
        sub,
    ));
    assert(changes_grow(m, n));
    lemma_changes_grow(pre, m, n);
    lemma_changes_grow(pre, n, f);
}

/// A node has been given back once its octants and its own slot have been.
proof fn lemma_uprooted(
    pre: NodeManager,
    m: NodeManager,
    f: NodeManager,
    id: int,
    base: int,
    lvl: nat,
)
    requires
        removable(pre, id, lvl),
        pre.nodes()[id].node_type == NodeType::Inner,
        base == pre.nodes()[id].child_ptr,
        lvl == position::spec_level(pre.nodes()[id].position),
        pruned(pre, m, base, 8, (lvl - 1) as nat),
        f.store.wf(),
        f.same_rest(&m),
        f.ids() == m.ids(),
        f.dirty() == m.dirty(),
        f.spec_generation() == m.spec_generation(),
        f.nodes().len() == m.nodes().len(),
        forall|j: int| #[trigger]
            f.allocated().contains(j) <==> m.allocated().contains(j) && !in_block(base, j) && j
                != id,
        forall|j: int|
            0 <= j < m.nodes().len() && !in_block(base, j) && j != id ==> #[trigger] f.nodes()[j]
                == m.nodes()[j],
        forall|j: int|
            0 <= j < m.nodes().len() && (in_block(base, j) || j == id) ==> #[trigger] f.nodes()[j]
                == if m.allocated().contains(j) {
                node_store::fresh_rec()
            } else {
                m.nodes()[j]
            },
    ensures
        uprooted(pre, f, id),
{
    let sub = (lvl - 1) as nat;
    let s = pre.nodes();
    assert forall|j: int| #[trigger] node_tree::in_tree(s, id, lvl, j) == (j == id || in_block(
        base,
        j,
    ) || in_gone_octant(s, base, 8, sub, j)) by {
        if node_tree::in_tree(s, id, lvl, j) && j != id {
            let c = choose|c: int| #[trigger]
                node_tree::is_child(s, id, c) && node_tree::in_tree(s, c, sub, j);
            assert(in_block(base, c));
            if s[c].node_type == NodeType::Unused {
                assert(j == c);
            } else {
                assert(in_gone_octant(s, base, 8, sub, j));
            }
        }
        if in_block(base, j) {
            assert(node_tree::is_child(s, id, j));
            assert(node_tree::in_tree(s, j, sub, j));
        }
        if in_gone_octant(s, base, 8, sub, j) {
            let c = choose|c: int| #[trigger]
                in_block(base, c) && c < base + 8 && s[c].node_type != NodeType::Unused
                    && node_tree::in_tree(s, c, sub, j);
            assert(node_tree::is_child(s, id, c));
            assert(node_tree::in_tree(s, c, sub, j));
        }
    }
    assert forall|j: int|
        0 <= j < s.len() && !#[trigger] node_tree::in_tree(s, id, lvl, j) implies f.nodes()[j]
        == s[j] by {
        assert(f.nodes()[j] == m.nodes()[j]);
    }
    assert forall|j: int| #[trigger] node_tree::in_tree(s, id, lvl, j) implies f.nodes()[j]
        == node_store::fresh_rec() by {
        node_tree::lemma_tree_positions(s, id, lvl, j);
        assert(pre.allocated().contains(j));
        if in_gone_octant(s, base, 8, sub, j) {
            assert(m.nodes()[j] == node_store::fresh_rec());
            assert(!m.allocated().contains(j));
        } else {
            assert(m.allocated().contains(j));
        }
        assert(f.nodes()[j] == node_store::fresh_rec());
    }
    assert forall|p: u64| #[trigger]
        f.ids().contains_key(p) <==> pre.ids().contains_key(p) && !node_tree::in_tree(
            s,
            id,
            lvl,
            pre.ids()[p] as int,
        ) by {
        if pre.ids().contains_key(p) {
            let j = pre.ids()[p] as int;
            if node_tree::in_tree(s, id, lvl, j) {
                assert(j != id);
                let c = choose|c: int| #[trigger]
                    node_tree::is_child(s, id, c) && node_tree::in_tree(s, c, sub, j);
                assert(in_block(base, c));
                if s[c].node_type == NodeType::Unused {
                    assert(j == c);
                }
                assert(in_gone_octant(s, base, 8, sub, j));
            }
        }
    }
    m.store.lemma_wf();
    assert forall|j: int| #[trigger] f.allocated().contains(j) && f.nodes()[j].dirty implies listed(
        f.dirty(),
        j,
    ) by {
        assert(m.allocated().contains(j));
        assert(f.nodes()[j] == m.nodes()[j]);
    }
}

impl NodeManager {
    /// Resets a leaf's geometry and lists the change.
    fn clear_geometry(&mut self, node_id: u32)
        requires
            old(self).core_wf(),
            old(self).allocated().contains(node_id as int),
        ensures
            final(self).core_wf(),
            final(self).same_rest(old(self)),
            final(self).allocated() == old(self).allocated(),
            final(self).ids() == old(self).ids(),
            ({
                let node = NodeRec {
                    geometry: 0,
                    child_existence: 0,
                    dirty: true,
                    ..old(self).nodes()[node_id as int]
                };
                &&& final(self).nodes() == old(self).nodes().update(node_id as int, node)
                &&& final(self).dirty() == old(self).dirty().push(
                    DirtyNode { node_id, gpu_data: gpu_of(node) },
                )
            }),
            final(self).spec_generation() == generation_after(old(self).spec_generation(), 1),
    {
        proof {
            self.store.lemma_wf();
        }
        self.store.set_node_geometry(node_id, 0);
        self.store.set_node_child_existence(node_id, 0);
        self.mark_node_dirty(node_id);
        assert(self.nodes() =~= old(self).nodes().update(
            node_id as int,
            NodeRec {
                geometry: 0,
                child_existence: 0,
                dirty: true,
                ..old(self).nodes()[node_id as int]
            },
        ));
    }

    /// Gives back a node and all nodes under it, and forgets the positions of
    /// those under it.
    fn recurse_remove_node(&mut self, node_id: u32)
        requires
            removable(
                *old(self),
                node_id as int,
                position::spec_level(old(self).nodes()[node_id as int].position) as nat,
            ),
        ensures
            uprooted(*old(self), *final(self), node_id as int),
        decreases position::spec_level(old(self).nodes()[node_id as int].position),
    {
        let ghost pre = *self;
        let ghost id = node_id as int;
        let ghost lvl = position::spec_level(pre.nodes()[id].position) as nat;
        proof {
            self.store.lemma_wf();
            assert(node_tree::in_tree(pre.nodes(), id, lvl, id));
        }
        let node_type: NodeType = self.store.get_node_type(node_id);
        let pos: u64 = self.store.node_position(node_id);
        if node_type == NodeType::Inner {
            let base: u32 = self.store.get_child_ptr(node_id) as u32;
            let mask: u8 = self.store.get_node_child_existence(node_id);
            let mut i: u32 = 0;
            proof {
                assert forall|j: int| !#[trigger] in_gone_octant(
                    pre.nodes(),
                    base as int,
                    0,
                    (lvl - 1) as nat,
                    j,
                ) by {}
            }
            while i < 8
                invariant
                    i <= 8,
                    id == node_id,
                    pre == *old(self),
                    lvl == position::spec_level(pre.nodes()[id].position),
                    lvl >= 1,
                    removable(pre, id, lvl),
                    pre.nodes()[id].node_type == NodeType::Inner,
                    pos == pre.nodes()[id].position,
                    base == pre.nodes()[id].child_ptr,
                    mask == pre.nodes()[id].child_existence,
                    pruned(pre, *self, base as int, i as int, (lvl - 1) as nat),
                decreases 8 - i,
            {
                let ghost m = *self;
                proof {
                    bits::lemma_bit_test(mask as u64, i as u64);
                    assert(node_tree::is_child(pre.nodes(), id, base + i));
                    node_tree::lemma_child_representable(pos, i as int);
                }
                if (mask as u64) & (1u64 << (i as u64)) != 0 {
                    let child: u64 = make_child_pos(pos, i);
                    self.books.pos_to_id.remove(&child);
                    let ghost n = *self;
                    proof {
                        lemma_prune_ready(pre, m, n, id, base as int, i as int, lvl);
                    }
                    self.recurse_remove_node(base + i);
                    proof {
                        lemma_prune_step(pre, m, n, *self, id, base as int, i as int, lvl);
                    }
                } else {
                    proof {
                        lemma_prune_skip(pre, m, base as int, i as int, (lvl - 1) as nat);
                    }
                }
                i = i + 1;
            }
            let ghost m = *self;
            self.store.free_contiguous(base, 8);
            proof {
                self.store.lemma_wf();
            }
            self.store.free(node_id);
            proof {
                assert forall|j: int| #[trigger]
                    self.allocated().contains(j) <==> m.allocated().contains(j) && !in_block(
                        base as int,
                        j,
                    ) && j != id by {}
                lemma_uprooted(pre, m, *self, id, base as int, lvl);
            }
        } else {
            if node_type == NodeType::Leaf {
                self.clear_geometry(node_id);
            }
            let ghost m = *self;
            self.store.free(node_id);
            proof {
                assert forall|j: int| #[trigger]
                    node_tree::in_tree(pre.nodes(), id, lvl, j) == (j == id) by {}
                m.store.lemma_wf();
                assert(self.dirty() =~= pre.dirty() + node_records::gone_records(
                    pre.nodes(),
                    id,
                    lvl,
                ));
                assert forall|j: int| #[trigger]
                    self.allocated().contains(j) && self.nodes()[j].dirty implies listed(
                    self.dirty(),
                    j,
                ) by {
                    assert(m.allocated().contains(j));
                }
            }
        }
    }
}

/// An octant that is not a node needs no removal.
proof fn lemma_prune_skip(pre: NodeManager, m: NodeManager, base: int, i: int, sub: nat)
    requires
        pruned(pre, m, base, i, sub),
        pre.nodes()[base + i].node_type == NodeType::Unused,
    ensures
        pruned(pre, m, base, i + 1, sub),
{
    let s = pre.nodes();
    node_records::lemma_octant_skipped(s, base, i as nat, sub);
    assert forall|j: int| #[trigger] in_gone_octant(s, base, i + 1, sub, j) == in_gone_octant(
        s,
        base,
        i,
        sub,
        j,
    ) by {
        if in_gone_octant(s, base, i + 1, sub, j) {
            let c = choose|c: int| #[trigger]
                in_block(base, c) && c < base + i + 1 && s[c].node_type != NodeType::Unused
                    && node_tree::in_tree(s, c, sub, j);
            assert(in_block(base, c) && c < base + i);
        }
        if in_gone_octant(s, base, i, sub, j) {
            let c = choose|c: int| #[trigger]
                in_block(base, c) && c < base + i && s[c].node_type != NodeType::Unused
                    && node_tree::in_tree(s, c, sub, j);
            assert(in_block(base, c));
        }
    }
}

/// Keeps every slot but one.
pub open spec fn not_id(id: u32) -> spec_fn(u32) -> bool {
    |t: u32| t != id
}

/// Keeps the roots whose positions are not in `ps`.
pub open spec fn not_at(nodes: Seq<NodeRec>, ps: Seq<u64>) -> spec_fn(u32) -> bool {
    |t: u32| !ps.contains(nodes[t as int].position)
}

/// Filtering twice is filtering by both conditions.
proof fn lemma_filter_twice(
    s: Seq<u32>,
    p: spec_fn(u32) -> bool,
    q: spec_fn(u32) -> bool,
    r: spec_fn(u32) -> bool,
)
    requires
        forall|x: u32| #[trigger] s.contains(x) ==> r(x) == (p(x) && q(x)),
    ensures
        s.filter(p).filter(q) == s.filter(r),
    decreases s.len(),
{
    reveal(Seq::filter);
    if s.len() > 0 {
        let t = s.drop_last();
        let x = s.last();
        assert(s.contains(x));
        assert forall|y: u32| #[trigger] t.contains(y) implies r(y) == (p(y) && q(y)) by {
            let k = choose|k: int| 0 <= k < t.len() && t[k] == y;
            assert(s[k] == y);
            assert(s.contains(y));
        }
        lemma_filter_twice(t, p, q, r);
        if p(x) {
            assert(s.filter(p) == t.filter(p).push(x));
            assert(s.filter(p).drop_last() =~= t.filter(p));
            assert(s.filter(p).last() == x);
        }
    }
}

/// Removes a slot from a list of slots.
fn retain_other(v: &mut Vec<u32>, id: u32)
    ensures
        final(v)@ == old(v)@.filter(not_id(id)),
{
    let mut kept: Vec<u32> = Vec::new();
    let mut i: usize = 0;
    proof {
        reveal(Seq::filter);
        assert(v@.take(0) =~= Seq::empty());
    }
    while i < v.len()
        invariant
            i <= v@.len(),
            v@ == old(v)@,
            kept@ == v@.take(i as int).filter(not_id(id)),
        decreases v@.len() - i,
    {
        proof {
            reveal(Seq::filter);
            assert(v@.take(i + 1).drop_last() =~= v@.take(i as int));
        }
        if v[i] != id {
            kept.push(v[i]);
        }
        i = i + 1;
    }
    assert(v@.take(i as int) =~= v@);
    *v = kept;
}

/// A region has been inserted: nothing happens to one that is there already or
/// for which there is no slot; else it becomes a root whose tree says what the
/// source says. The root takes the lowest free slot, and each node of its tree is
/// listed as changed.
pub open spec fn insert_step<S: VoxelSource>(
    pre: NodeManager,
    post: NodeManager,
    pos: u64,
    source: &S,
) -> bool {
    if pre.ids().contains_key(pos) || pre.allocated().len() >= pre.limit() {
        post == pre
    } else {
        &&& post.wf()
        &&& post.limit() == pre.limit()
        &&& post.inserts() == pre.inserts()
        &&& post.removes() == pre.removes()
        &&& post.tops().len() == pre.tops().len() + 1
        &&& post.tops() == pre.tops().push(post.tops().last())
        &&& node_tree::built(post.nodes(), post.tops().last() as int, 4, pos, source)
        &&& post.ids().contains_key(pos)
        &&& forall|j: int| #[trigger]
            pre.allocated().contains(j) ==> post.allocated().contains(j) && post.nodes()[j]
                == pre.nodes()[j]
        &&& forall|p: u64| #[trigger]
            pre.ids().contains_key(p) ==> post.ids().contains_key(p) && post.ids()[p]
                == pre.ids()[p]
        &&& forall|j: int| #[trigger]
            post.allocated().contains(j) && !pre.allocated().contains(j)
                && post.nodes()[j].node_type == NodeType::Pending ==> node_tree::exhausted(
                post.allocated(),
                post.limit(),
            )
        &&& hierarchical_bitset::lowest_free_run(pre.allocated(), post.tops().last() as int, 1)
        &&& node_records::placed(
            post.nodes(),
            post.tops().last() as int,
            4,
            pre.allocated().insert(post.tops().last() as int),
        ) == Some(post.allocated())
        &&& pre.nodes().len() <= post.nodes().len()
        &&& free_slots_kept(pre.nodes(), post.nodes(), post.allocated())
        &&& post.dirty() == pre.dirty() + node_records::built_records(
            post.nodes(),
            post.tops().last() as int,
            4,
        )
        &&& post.spec_generation() == generation_after(
            pre.spec_generation(),
            post.dirty().len() - pre.dirty().len() + 1,
        )
        &&& post.table_stale()
    }
}

/// The new root joins the trees.
proof fn lemma_insert_trees<S: VoxelSource>(
    pre: NodeManager,
    a: NodeManager,
    post: NodeManager,
    pos: u64,
    id: u32,
    source: &S,
)
    requires
        pre.wf(),
        position::spec_level(pos) == 4,
        !pre.ids().contains_key(pos),
        !pre.allocated().contains(id as int),
        a.allocated() == pre.allocated().insert(id as int),
        pre.nodes().len() <= a.nodes().len(),
        forall|j: int| #[trigger]
            pre.allocated().contains(j) ==> a.nodes()[j] == pre.nodes()[j],
        a.nodes()[id as int].position == pos,
        a.ids() == pre.ids().insert(pos, id),
        a.tops() == pre.tops().push(id),
        expanded(a, post, id as int, source),
    ensures
        post.trees_wf(),
        post.ids_wf(),
{
    let (s, t) = (pre.nodes(), post.nodes());
    let tops = post.tops();
    let n = pre.tops().len();
    pre.store.lemma_wf();
    assert forall|j: int| #[trigger] pre.allocated().contains(j) implies t[j] == s[j] && j != id by {
        assert(a.allocated().contains(j));
    }
    lemma_built_position(t, id as int, 4, pos, source);
    assert forall|k: int| 0 <= k < n implies {
        &&& node_tree::tree_wf(t, #[trigger] tops[k] as int, 4)
        &&& t[tops[k] as int] == s[tops[k] as int]
        &&& tops[k] == pre.tops()[k]
        &&& forall|j: int| #[trigger]
            node_tree::in_tree(t, tops[k] as int, 4, j) == node_tree::in_tree(
                s,
                tops[k] as int,
                4,
                j,
            )
    } by {
        let r = pre.tops()[k] as int;
        assert(tops[k] == r);
        assert forall|j: int| #[trigger] node_tree::in_tree(s, r, 4, j) implies t[j] == s[j] by {
            assert(in_some_tree(s, pre.tops(), j));
            assert(pre.allocated().contains(j));
        }
        assert(node_tree::in_tree(s, r, 4, r));
        node_tree::lemma_frame(s, t, r, 4);
    }
    assert(tops[n as int] == id);
    assert forall|j: int| #[trigger] post.allocated().contains(j) == in_some_tree(t, tops, j) by {
        if pre.allocated().contains(j) {
            assert(in_some_tree(s, pre.tops(), j));
            let k = choose|k: int|
                0 <= k < n && #[trigger] node_tree::in_tree(s, pre.tops()[k] as int, 4, j);
            assert(tops[k] == pre.tops()[k]);
            assert(node_tree::in_tree(t, tops[k] as int, 4, j));
            assert(a.allocated().contains(j));
        } else if post.allocated().contains(j) {
            assert(node_tree::in_tree(t, id as int, 4, j));
            assert(node_tree::in_tree(t, tops[n as int] as int, 4, j));
        }
        if in_some_tree(t, tops, j) {
            let k = choose|k: int|
                0 <= k < tops.len() && #[trigger] node_tree::in_tree(t, tops[k] as int, 4, j);
            if k < n {
                assert(node_tree::in_tree(s, pre.tops()[k] as int, 4, j));
                assert(in_some_tree(s, pre.tops(), j));
                assert(pre.allocated().contains(j));
                assert(a.allocated().contains(j));
            } else {
                assert(node_tree::in_tree(t, id as int, 4, j));
            }
        }
    }
    assert forall|k: int, l: int, j: int|
        0 <= k < tops.len() && 0 <= l < tops.len() && k != l && #[trigger] node_tree::in_tree(
            t,
            tops[k] as int,
            4,
            j,
        ) implies !#[trigger] node_tree::in_tree(t, tops[l] as int, 4, j) by {
        if k < n {
            assert(node_tree::in_tree(s, pre.tops()[k] as int, 4, j));
            assert(in_some_tree(s, pre.tops(), j));
            assert(pre.allocated().contains(j));
            assert(a.allocated().contains(j));
        }
        if l < n && node_tree::in_tree(t, tops[l] as int, 4, j) {
            assert(node_tree::in_tree(s, pre.tops()[l] as int, 4, j));
            assert(in_some_tree(s, pre.tops(), j));
            assert(pre.allocated().contains(j));
            assert(a.allocated().contains(j));
        }
    }
    assert forall|j: int| #[trigger]
        post.allocated().contains(j) && t[j].node_type != NodeType::Unused implies {
        &&& post.ids().contains_key(t[j].position)
        &&& post.ids()[t[j].position] == j
    } by {
        if pre.allocated().contains(j) {
            assert(pre.ids().contains_key(s[j].position));
            assert(s[j].position != pos);
            assert(a.ids().contains_key(s[j].position));
        } else if j == id {
            assert(a.ids().contains_key(pos));
        } else {
            assert(!a.allocated().contains(j));
            assert(node_tree::in_tree(t, id as int, 4, j));
        }
    }
    assert forall|p: u64| #[trigger] post.ids().contains_key(p) implies {
        &&& post.allocated().contains(post.ids()[p] as int)
        &&& t[post.ids()[p] as int].node_type != NodeType::Unused
        &&& t[post.ids()[p] as int].position == p
    } by {
        if p == pos {
            assert(a.ids().contains_key(p));
            assert(node_tree::in_tree(t, id as int, 4, id as int));
        } else if pre.ids().contains_key(p) {
            assert(a.ids().contains_key(p));
            assert(pre.allocated().contains(pre.ids()[p] as int));
            assert(a.allocated().contains(pre.ids()[p] as int));
        } else {
            assert(!a.ids().contains_key(p));
        }
    }
}

/// No node lies inside a top-level region that is not a root.
proof fn lemma_none_under_new(m: NodeManager, pos: u64)
    requires
        m.wf(),
        position::spec_level(pos) == 4,
        !m.ids().contains_key(pos),
    ensures
        none_under(m.ids(), pos),
{
    let s = m.nodes();
    assert forall|p: u64| #[trigger] m.ids().contains_key(p) implies !node_tree::strictly_under(
        p,
        pos,
    ) by {
        if node_tree::strictly_under(p, pos) {
            let j = m.ids()[p] as int;
            assert(m.allocated().contains(j));
            assert(in_some_tree(s, m.tops(), j));
            let k = choose|k: int|
                0 <= k < m.tops().len() && #[trigger] node_tree::in_tree(
                    s,
                    m.tops()[k] as int,
                    4,
                    j,
                );
            let r = m.tops()[k] as int;
            assert(node_tree::tree_wf(s, r, 4));
            node_tree::lemma_tree_positions(s, r, 4, j);
            assert(node_tree::in_tree(s, r, 4, r));
            assert(in_some_tree(s, m.tops(), r));
            assert(m.allocated().contains(r));
            if j != r {
                node_tree::lemma_under_unique(p, pos, s[r].position);
            }
            assert(m.ids().contains_key(s[r].position));
        }
    }
}

impl NodeManager {
    /// Inserts one top-level region.
    fn insert_top_level_inner<S: VoxelSource>(&mut self, pos: u64, source: &S)
        requires
            source.valid(),
            old(self).wf(),
            position::spec_level(pos) == 4,
            node_tree::representable(pos),
        ensures
            insert_step(*old(self), *final(self), pos, source),
    {
        let ghost pre = *self;
        if self.books.pos_to_id.contains_key(&pos) {
            return;
        }
        proof {
            self.store.lemma_wf();
            lemma_none_under_new(pre, pos);
        }
        let node_id: u32 = match self.store.allocate() {
            Some(id) => id,
            None => {
                return;
            },
        };
        self.store.set_node_position(node_id, pos);
        self.store.set_node_type(node_id, NodeType::Pending);
        self.books.pos_to_id.insert(pos, node_id);
        self.books.top_level_ids.push(node_id);
        let ghost a = *self;
        proof {
            assert(hierarchical_bitset::free_run(pre.allocated(), node_id as int, 1));
            assert(!pre.allocated().contains(node_id as int));
            assert(a.nodes()[node_id as int] == node_tree::pending_rec(pos));
            assert forall|j: int| #[trigger] pre.allocated().contains(j) implies a.nodes()[j]
                == pre.nodes()[j] by {}
            assert forall|j: int| #[trigger]
                a.allocated().contains(j) && a.nodes()[j].dirty implies listed(a.dirty(), j) by {
                assert(pre.allocated().contains(j));
            }
            assert(a.core_wf());
        }
        self.request_leaf_node(node_id, source);
        let ghost b = *self;
        proof {
            lemma_insert_trees(pre, a, b, pos, node_id, source);
        }
        self.mark_generation_dirty();
        proof {
            lemma_generation_sum(
                pre.spec_generation(),
                b.dirty().len() - pre.dirty().len(),
                1,
            );
            assert(self.tops() =~= pre.tops().push(node_id));
            assert(a.ids().contains_key(pos));
            assert forall|j: int| #[trigger] pre.allocated().contains(j) implies
                self.allocated().contains(j) && self.nodes()[j] == pre.nodes()[j] by {
                assert(a.allocated().contains(j));
            }
            assert forall|p: u64| #[trigger] pre.ids().contains_key(p) implies
                self.ids().contains_key(p) && self.ids()[p] == pre.ids()[p] by {
                assert(a.ids().contains_key(p));
            }
            assert forall|j: int| #[trigger]
                self.allocated().contains(j) && !pre.allocated().contains(j)
                    && self.nodes()[j].node_type == NodeType::Pending implies node_tree::exhausted(
                self.allocated(),
                self.limit(),
            ) by {
                if j == node_id {
                    assert(node_tree::in_tree(b.nodes(), node_id as int, 4, j));
                } else {
                    assert(!a.allocated().contains(j));
                }
            }
        }
    }
}

/// A region has been removed: nothing happens to one that is not there; else
/// its root and all nodes under it have been given back, their slots are fresh, and
/// its leaves are listed as changed.
pub open spec fn remove_step(pre: NodeManager, post: NodeManager, pos: u64) -> bool {
    if !pre.ids().contains_key(pos) {
        post == pre
    } else {
        &&& post.wf()
        &&& post.limit() == pre.limit()
        &&& post.inserts() == pre.inserts()
        &&& post.removes() == pre.removes()
        &&& post.tops() == pre.tops().filter(not_id(pre.ids()[pos]))
        &&& !post.ids().contains_key(pos)
        &&& forall|j: int| #[trigger]
            post.allocated().contains(j) <==> pre.allocated().contains(j) && !node_tree::in_tree(
                pre.nodes(),
                pre.ids()[pos] as int,
                4,
                j,
            )
        &&& post.nodes().len() == pre.nodes().len()
        &&& forall|j: int| #[trigger]
            post.allocated().contains(j) ==> post.nodes()[j] == pre.nodes()[j]
        &&& forall|j: int| #[trigger]
            node_tree::in_tree(pre.nodes(), pre.ids()[pos] as int, 4, j) ==> post.nodes()[j]
                == node_store::fresh_rec()
        &&& forall|j: int|
            0 <= j < pre.nodes().len() && !#[trigger] node_tree::in_tree(
                pre.nodes(),
                pre.ids()[pos] as int,
                4,
                j,
            ) ==> post.nodes()[j] == pre.nodes()[j]
        &&& post.dirty() == pre.dirty() + node_records::gone_records(
            pre.nodes(),
            pre.ids()[pos] as int,
            4,
        )
        &&& post.spec_generation() == generation_after(
            pre.spec_generation(),
            post.dirty().len() - pre.dirty().len() + 1,
        )
        &&& post.table_stale()
    }
}

/// A node at a top-level position is a root.
proof fn lemma_top_at(m: NodeManager, pos: u64) -> (k: int)
    requires
        m.wf(),
        position::spec_level(pos) == 4,
        m.ids().contains_key(pos),
    ensures
        0 <= k < m.tops().len(),
        m.tops()[k] == m.ids()[pos],
{
    let s = m.nodes();
    let j = m.ids()[pos] as int;
    assert(m.allocated().contains(j));
    assert(in_some_tree(s, m.tops(), j));
    let k = choose|k: int|
        0 <= k < m.tops().len() && #[trigger] node_tree::in_tree(s, m.tops()[k] as int, 4, j);
    let r = m.tops()[k] as int;
    assert(node_tree::tree_wf(s, r, 4));
    node_tree::lemma_tree_positions(s, r, 4, j);
    k
}

/// A root is a node in use that is found by its position.
proof fn lemma_top_found(m: NodeManager, t: u32)
    requires
        m.wf(),
        m.tops().contains(t),
    ensures
        m.allocated().contains(t as int),
        m.ids().contains_key(m.nodes()[t as int].position),
        m.ids()[m.nodes()[t as int].position] == t,
        position::spec_level(m.nodes()[t as int].position) == 4,
{
    let s = m.nodes();
    let k = choose|k: int| 0 <= k < m.tops().len() && m.tops()[k] == t;
    assert(node_tree::tree_wf(s, m.tops()[k] as int, 4));
    assert(node_tree::in_tree(s, m.tops()[k] as int, 4, t as int));
    assert(in_some_tree(s, m.tops(), t as int));
    assert(m.allocated().contains(t as int));
}

/// The other roots keep their trees.
proof fn lemma_remove_trees(
    pre: NodeManager,
    a: NodeManager,
    post: NodeManager,
    pos: u64,
    id: u32,
)
    requires
        pre.wf(),
        position::spec_level(pos) == 4,
        pre.ids().contains_key(pos),
        id == pre.ids()[pos],
        a.store == pre.store,
        a.ids() == pre.ids().remove(pos),
        a.tops() == pre.tops().filter(not_id(id)),
        uprooted(a, post, id as int),
    ensures
        post.trees_wf(),
        post.ids_wf(),
        !post.ids().contains_key(pos),
{
    let (s, t) = (pre.nodes(), post.nodes());
    let tops = post.tops();
    pre.store.lemma_wf();
    let top = lemma_top_at(pre, pos);
    assert(pre.tops().contains(id)) by {
        assert(pre.tops()[top] == id);
    }
    lemma_top_found(pre, id);
    assert(s[id as int].position == pos);
    assert(position::spec_level(a.nodes()[id as int].position) as nat == 4);
    assert forall|k: int| 0 <= k < tops.len() implies {
        &&& #[trigger] tops[k] != id
        &&& pre.tops().contains(tops[k])
    } by {
        assert(tops.contains(tops[k]));
        lemma_filter_member(pre.tops(), not_id(id), tops[k]);
    }
    assert forall|k: int| 0 <= k < tops.len() implies {
        &&& node_tree::tree_wf(t, #[trigger] tops[k] as int, 4)
        &&& t[tops[k] as int] == s[tops[k] as int]
        &&& forall|j: int| #[trigger]
            node_tree::in_tree(t, tops[k] as int, 4, j) == node_tree::in_tree(
                s,
                tops[k] as int,
                4,
                j,
            )
        &&& forall|j: int| #[trigger]
            node_tree::in_tree(s, tops[k] as int, 4, j) ==> !node_tree::in_tree(
                s,
                id as int,
                4,
                j,
            )
    } by {
        let r = tops[k] as int;
        let l = choose|l: int| 0 <= l < pre.tops().len() && pre.tops()[l] == tops[k];
        assert(node_tree::tree_wf(s, pre.tops()[l] as int, 4));
        assert forall|j: int| #[trigger] node_tree::in_tree(s, r, 4, j) implies t[j] == s[j]
            && !node_tree::in_tree(s, id as int, 4, j) by {
            assert(node_tree::in_tree(s, pre.tops()[l] as int, 4, j));
            assert(!node_tree::in_tree(s, pre.tops()[top] as int, 4, j));
            assert(!node_tree::in_tree(a.nodes(), id as int, 4, j));
            node_tree::lemma_tree_positions(s, r, 4, j);
        }
        assert(node_tree::in_tree(s, r, 4, r));
        node_tree::lemma_frame(s, t, r, 4);
    }
    assert forall|j: int| #[trigger] post.allocated().contains(j) == in_some_tree(t, tops, j) by {
        if post.allocated().contains(j) {
            assert(pre.allocated().contains(j));
            assert(in_some_tree(s, pre.tops(), j));
            let l = choose|l: int|
                0 <= l < pre.tops().len() && #[trigger] node_tree::in_tree(
                    s,
                    pre.tops()[l] as int,
                    4,
                    j,
                );
            let r = pre.tops()[l];
            assert(r != id);
            lemma_filter_keeps(pre.tops(), not_id(id), r);
            let k = choose|k: int| 0 <= k < tops.len() && tops[k] == r;
            assert(node_tree::in_tree(t, tops[k] as int, 4, j));
        }
        if in_some_tree(t, tops, j) {
            let k = choose|k: int|
                0 <= k < tops.len() && #[trigger] node_tree::in_tree(t, tops[k] as int, 4, j);
            assert(node_tree::in_tree(s, tops[k] as int, 4, j));
            let l = choose|l: int| 0 <= l < pre.tops().len() && pre.tops()[l] == tops[k];
            assert(node_tree::in_tree(s, pre.tops()[l] as int, 4, j));
            assert(in_some_tree(s, pre.tops(), j));
            assert(pre.allocated().contains(j));
        }
    }
    lemma_filter_distinct(pre, id);
    assert forall|k: int, l: int, j: int|
        0 <= k < tops.len() && 0 <= l < tops.len() && k != l && #[trigger] node_tree::in_tree(
            t,
            tops[k] as int,
            4,
            j,
        ) implies !#[trigger] node_tree::in_tree(t, tops[l] as int, 4, j) by {
        assert(tops[k] != tops[l]);
        let x = choose|x: int| 0 <= x < pre.tops().len() && pre.tops()[x] == tops[k];
        let y = choose|y: int| 0 <= y < pre.tops().len() && pre.tops()[y] == tops[l];
        assert(node_tree::in_tree(s, pre.tops()[x] as int, 4, j));
        assert(!node_tree::in_tree(s, pre.tops()[y] as int, 4, j));
    }
    assert forall|j: int| #[trigger]
        post.allocated().contains(j) && t[j].node_type != NodeType::Unused implies {
        &&& post.ids().contains_key(t[j].position)
        &&& post.ids()[t[j].position] == j
    } by {
        assert(pre.allocated().contains(j));
        assert(!node_tree::in_tree(s, id as int, 4, j));
        assert(t[j] == s[j]);
        assert(pre.ids()[s[j].position] == j);
        assert(j != id);
        assert(a.ids().contains_key(s[j].position));
    }
    assert forall|p: u64| #[trigger] post.ids().contains_key(p) implies {
        &&& post.allocated().contains(post.ids()[p] as int)
        &&& t[post.ids()[p] as int].node_type != NodeType::Unused
        &&& t[post.ids()[p] as int].position == p
    } by {
        assert(a.ids().contains_key(p));
        let j = pre.ids()[p] as int;
        assert(pre.ids().contains_key(p));
        assert(pre.allocated().contains(j));
        assert(!node_tree::in_tree(s, id as int, 4, j));
        assert(t[j] == s[j]);
    }
}

/// What a filtered list holds comes from the list and meets the condition.
proof fn lemma_filter_member(s: Seq<u32>, p: spec_fn(u32) -> bool, x: u32)
    requires
        s.filter(p).contains(x),
    ensures
        s.contains(x),
        p(x),
    decreases s.len(),
{
    reveal(Seq::filter);
    if s.len() > 0 {
        let t = s.drop_last();
        if s.filter(p) == t.filter(p) || t.filter(p).contains(x) {
            lemma_filter_member(t, p, x);
            let k = choose|k: int| 0 <= k < t.len() && t[k] == x;
            assert(s[k] == x);
        } else {
            assert(p(s.last()));
            let k = choose|k: int| 0 <= k < s.filter(p).len() && s.filter(p)[k] == x;
            if k < t.filter(p).len() {
                assert(t.filter(p)[k] == x);
            }
            assert(s[s.len() - 1] == x);
        }
    }
}

/// A filtered list holds all of the list that meets the condition.
proof fn lemma_filter_keeps(s: Seq<u32>, p: spec_fn(u32) -> bool, x: u32)
    requires
        s.contains(x),
        p(x),
    ensures
        s.filter(p).contains(x),
    decreases s.len(),
{
    reveal(Seq::filter);
    let t = s.drop_last();
    if t.contains(x) {
        lemma_filter_keeps(t, p, x);
        let k = choose|k: int| 0 <= k < t.filter(p).len() && t.filter(p)[k] == x;
        assert(s.filter(p)[k] == x);
    } else {
        let k = choose|k: int| 0 <= k < s.len() && s[k] == x;
        if k < s.len() - 1 {
            assert(t[k] == x);
        }
        assert(s.filter(p)[t.filter(p).len() as int] == x);
    }
}

/// A filtered list of distinct slots holds distinct slots.
proof fn lemma_filter_no_duplicates(s: Seq<u32>, p: spec_fn(u32) -> bool)
    requires
        s.no_duplicates(),
    ensures
        s.filter(p).no_duplicates(),
    decreases s.len(),
{
    reveal(Seq::filter);
    if s.len() > 0 {
        let t = s.drop_last();
        lemma_filter_no_duplicates(t, p);
        if p(s.last()) {
            if t.filter(p).contains(s.last()) {
                lemma_filter_member(t, p, s.last());
                let k = choose|k: int| 0 <= k < t.len() && t[k] == s.last();
                assert(s[k] == s[s.len() - 1]);
            }
        }
    }
}

/// No slot is a root twice, before or after a removal.
proof fn lemma_filter_distinct(m: NodeManager, id: u32)
    requires
        m.wf(),
    ensures
        m.tops().no_duplicates(),
        m.tops().filter(not_id(id)).no_duplicates(),
{
    assert forall|k: int, l: int|
        0 <= k < m.tops().len() && 0 <= l < m.tops().len() && k != l implies m.tops()[k]
        != m.tops()[l] by {
        let r = m.tops()[k] as int;
        assert(node_tree::in_tree(m.nodes(), m.tops()[k] as int, 4, r));
        assert(!node_tree::in_tree(m.nodes(), m.tops()[l] as int, 4, r));
    }
    lemma_filter_no_duplicates(m.tops(), not_id(id));
}

impl NodeManager {
    /// Removes one top-level region.
    fn remove_top_level_inner(&mut self, pos: u64)
        requires
            old(self).wf(),
            position::spec_level(pos) == 4,
        ensures
            remove_step(*old(self), *final(self), pos),
    {
        let ghost pre = *self;
        let node_id: u32 = match self.books.pos_to_id.get(&pos) {
            Some(id) => *id,
            None => {
                return;
            },
        };
        self.books.pos_to_id.remove(&pos);
        retain_other(&mut self.books.top_level_ids, node_id);
        let ghost a = *self;
        proof {
            let s = pre.nodes();
            let top = lemma_top_at(pre, pos);
            assert(pre.tops()[top] == node_id);
            assert(pre.tops().contains(node_id));
            lemma_top_found(pre, node_id);
            assert forall|j: int| #[trigger] node_tree::in_tree(s, node_id as int, 4, j) implies
                a.allocated().contains(j) by {
                assert(node_tree::in_tree(s, pre.tops()[top] as int, 4, j));
                assert(in_some_tree(s, pre.tops(), j));
                assert(pre.allocated().contains(j));
            }
            assert(removable(a, node_id as int, 4)) by {
                assert(node_tree::tree_wf(s, pre.tops()[top] as int, 4));
            }
        }
        self.recurse_remove_node(node_id);
        let ghost b = *self;
        proof {
            lemma_remove_trees(pre, a, b, pos, node_id);
        }
        self.mark_generation_dirty();
        proof {
            lemma_generation_sum(
                pre.spec_generation(),
                b.dirty().len() - pre.dirty().len(),
                1,
            );
            pre.store.lemma_wf();
        }
    }
}

/// Step `i` of a chain has inserted the region `ps[i]`.
pub open spec fn inserted_at<S: VoxelSource>(
    chain: Seq<NodeManager>,
    ps: Seq<u64>,
    i: int,
    source: &S,
) -> bool {
    insert_step(chain[i], chain[i + 1], ps[i], source)
}

/// Each step of a chain has inserted one of `ps`, in turn.
pub open spec fn insert_chain<S: VoxelSource>(
    chain: Seq<NodeManager>,
    ps: Seq<u64>,
    source: &S,
) -> bool {
    &&& chain.len() == ps.len() + 1
    &&& forall|i: int| 0 <= i < ps.len() ==> #[trigger] inserted_at(chain, ps, i, source)
}

/// Step `i` of a chain has removed the region `ps[i]`.
pub open spec fn removed_at(chain: Seq<NodeManager>, ps: Seq<u64>, i: int) -> bool {
    remove_step(chain[i], chain[i + 1], ps[i])
}

/// Each step of a chain has removed one of `ps`, in turn.
pub open spec fn remove_chain(chain: Seq<NodeManager>, ps: Seq<u64>) -> bool {
    &&& chain.len() == ps.len() + 1
    &&& forall|i: int| 0 <= i < ps.len() ==> #[trigger] removed_at(chain, ps, i)
}

/// A chain of insertions goes on with one more.
proof fn lemma_insert_chain<S: VoxelSource>(
    chain: Seq<NodeManager>,
    n: NodeManager,
    ps: Seq<u64>,
    pos: u64,
    source: &S,
)
    requires
        insert_chain(chain, ps, source),
        insert_step(chain.last(), n, pos, source),
    ensures
        insert_chain(chain.push(n), ps.push(pos), source),
{
    let (longer, qs) = (chain.push(n), ps.push(pos));
    assert forall|i: int| 0 <= i < qs.len() implies #[trigger] inserted_at(
        longer,
        qs,
        i,
        source,
    ) by {
        if i < ps.len() {
            assert(inserted_at(chain, ps, i, source));
        }
    }
}

/// A chain of removals goes on with one more.
proof fn lemma_remove_chain(chain: Seq<NodeManager>, n: NodeManager, ps: Seq<u64>, pos: u64)
    requires
        remove_chain(chain, ps),
        remove_step(chain.last(), n, pos),
    ensures
        remove_chain(chain.push(n), ps.push(pos)),
{
    let (longer, qs) = (chain.push(n), ps.push(pos));
    assert forall|i: int| 0 <= i < qs.len() implies #[trigger] removed_at(longer, qs, i) by {
        if i < ps.len() {
            assert(removed_at(chain, ps, i));
        }
    }
}

/// All of `ps` have been inserted in turn. The trees that were there are as
/// they were, every new root stands for one of `ps` and says what the source
/// says of it, and only a full store can keep one of `ps` out.
pub open spec fn inserted<S: VoxelSource>(
    pre: NodeManager,
    post: NodeManager,
    ps: Seq<u64>,
    source: &S,
) -> bool {
    &&& exists|chain: Seq<NodeManager>| #[trigger]
        insert_chain(chain, ps, source) && chain.first().same_but_queues(&pre) && chain.last()
            == post
    &&& post.wf()
    &&& post.limit() == pre.limit()
    &&& pre.tops().len() <= post.tops().len()
    &&& post.tops().take(pre.tops().len() as int) == pre.tops()
    &&& forall|j: int| #[trigger]
        pre.allocated().contains(j) ==> post.allocated().contains(j) && post.nodes()[j]
            == pre.nodes()[j]
    &&& forall|k: int|
        pre.tops().len() <= k < post.tops().len() ==> {
            let t = #[trigger] post.tops()[k] as int;
            let p = post.nodes()[t].position;
            &&& ps.contains(p)
            &&& !pre.ids().contains_key(p)
            &&& node_tree::built(post.nodes(), t, 4, p, source)
        }
    &&& forall|p: u64| #[trigger]
        pre.ids().contains_key(p) ==> post.ids().contains_key(p) && post.ids()[p] == pre.ids()[p]
    &&& forall|p: u64| #[trigger]
        ps.contains(p) ==> post.ids().contains_key(p) || post.allocated().len() >= post.limit()
    &&& forall|j: int| #[trigger]
        post.allocated().contains(j) && !pre.allocated().contains(j) && post.nodes()[j].node_type
            == NodeType::Pending ==> node_tree::exhausted(post.allocated(), post.limit())
    &&& pre.dirty().len() <= post.dirty().len()
    &&& post.dirty().take(pre.dirty().len() as int) == pre.dirty()
    &&& post.spec_generation() == generation_after(
        pre.spec_generation(),
        post.dirty().len() - pre.dirty().len() + post.tops().len() - pre.tops().len(),
    )
    &&& post.tops().len() > pre.tops().len() ==> post.table_stale()
    &&& post.tops().len() == pre.tops().len() ==> post.allocated() == pre.allocated()
        && post.dirty() == pre.dirty() && post.ids() == pre.ids() && post.table_stale()
        == pre.table_stale() && post.table() == pre.table()
}

/// All of `ps` have been removed in turn: the roots at other positions remain,
/// in their order, with their trees as they were.
pub open spec fn removed(pre: NodeManager, post: NodeManager, ps: Seq<u64>) -> bool {
    &&& exists|chain: Seq<NodeManager>| #[trigger]
        remove_chain(chain, ps) && chain.first() == pre && chain.last() == post
    &&& post.wf()
    &&& post.limit() == pre.limit()
    &&& post.tops() == pre.tops().filter(not_at(pre.nodes(), ps))
    &&& forall|j: int| #[trigger]
        post.allocated().contains(j) ==> pre.allocated().contains(j) && post.nodes()[j]
            == pre.nodes()[j]
    &&& pre.dirty().len() <= post.dirty().len()
    &&& post.dirty().take(pre.dirty().len() as int) == pre.dirty()
    &&& post.spec_generation() == generation_after(
        pre.spec_generation(),
        post.dirty().len() - pre.dirty().len() + pre.tops().len() - post.tops().len(),
    )
    &&& post.tops().len() < pre.tops().len() ==> post.table_stale()
    &&& post.tops().len() == pre.tops().len() ==> post.allocated() == pre.allocated()
        && post.dirty() == pre.dirty() && post.ids() == pre.ids() && post.table_stale()
        == pre.table_stale() && post.table() == pre.table()
}

/// The regions of `ins` have been inserted and then those of `rem` removed.
pub open spec fn processed<S: VoxelSource>(
    pre: NodeManager,
    post: NodeManager,
    ins: Seq<u64>,
    rem: Seq<u64>,
    source: &S,
) -> bool {
    exists|mid: NodeManager, end: NodeManager| #[trigger]
        inserted(pre, mid, ins, source) && #[trigger] removed(mid, end, rem)
            && post.same_but_queues(&end)
}

/// The store is full after the regions of `ins` have been inserted.
pub open spec fn filled_up<S: VoxelSource>(pre: NodeManager, ins: Seq<u64>, source: &S) -> bool {
    exists|mid: NodeManager| #[trigger]
        inserted(pre, mid, ins, source) && mid.allocated().len() >= mid.limit()
}

/// A root that is not removed stays, and a region that is inserted and not removed
/// becomes a root unless the store fills up.
pub proof fn lemma_processed_ids<S: VoxelSource>(
    pre: NodeManager,
    post: NodeManager,
    ins: Seq<u64>,
    rem: Seq<u64>,
    source: &S,
    p: u64,
)
    requires
        processed(pre, post, ins, rem, source),
        position::spec_level(p) == 4,
        !rem.contains(p),
    ensures
        pre.ids().contains_key(p) ==> post.ids().contains_key(p),
        ins.contains(p) ==> post.ids().contains_key(p) || filled_up(pre, ins, source),
{
    let (mid, end) = choose|mid: NodeManager, end: NodeManager| #[trigger]
        inserted(pre, mid, ins, source) && #[trigger] removed(mid, end, rem)
            && post.same_but_queues(&end);
    if mid.ids().contains_key(p) {
        let k = lemma_top_at(mid, p);
        let id = mid.tops()[k];
        assert(mid.tops().contains(id));
        assert(mid.nodes()[id as int].position == p);
        lemma_filter_keeps(mid.tops(), not_at(mid.nodes(), rem), id);
        lemma_top_found(end, id);
    }
}

/// What the queues held before does not matter to what inserting does.
pub proof fn lemma_processed_from<S: VoxelSource>(
    pre: NodeManager,
    queued: NodeManager,
    post: NodeManager,
    ins: Seq<u64>,
    rem: Seq<u64>,
    source: &S,
)
    requires
        queued.same_but_queues(&pre),
        processed(queued, post, ins, rem, source),
    ensures
        processed(pre, post, ins, rem, source),
{
    let (mid, end) = choose|mid: NodeManager, end: NodeManager| #[trigger]
        inserted(queued, mid, ins, source) && #[trigger] removed(mid, end, rem)
            && post.same_but_queues(&end);
    let chain = choose|chain: Seq<NodeManager>| #[trigger]
        insert_chain(chain, ins, source) && chain.first().same_but_queues(&queued)
            && chain.last() == mid;
    assert(insert_chain(chain, ins, source) && chain.first().same_but_queues(&pre));
    assert(inserted(pre, mid, ins, source));
    assert(removed(mid, end, rem));
}

/// One more region has been inserted.
proof fn lemma_inserted_step<S: VoxelSource>(
    pre: NodeManager,
    m: NodeManager,
    n: NodeManager,
    ps: Seq<u64>,
    pos: u64,
    source: &S,
)
    requires
        inserted(pre, m, ps, source),
        insert_step(m, n, pos, source),
        pre.wf(),
    ensures
        inserted(pre, n, ps.push(pos), source),
{
    lemma_push_contains(ps, pos);
    m.store.lemma_wf();
    n.store.lemma_wf();
    let chain = choose|chain: Seq<NodeManager>| #[trigger]
        insert_chain(chain, ps, source) && chain.first().same_but_queues(&pre) && chain.last()
            == m;
    lemma_insert_chain(chain, n, ps, pos, source);
    assert(chain.push(n).first() == chain.first() && chain.push(n).last() == n);
    if m.ids().contains_key(pos) || m.allocated().len() >= m.limit() {
        return;
    }
    let (s, t) = (m.nodes(), n.nodes());
    let last = n.tops().last();
    assert(n.tops().take(pre.tops().len() as int) =~= m.tops().take(pre.tops().len() as int));
    assert(n.dirty().take(pre.dirty().len() as int) =~= m.dirty().take(m.dirty().len() as int).take(
        pre.dirty().len() as int,
    )) by {
        assert(n.dirty().take(m.dirty().len() as int) =~= m.dirty());
        assert(m.dirty().take(m.dirty().len() as int) =~= m.dirty());
        assert forall|k: int| 0 <= k < pre.dirty().len() implies n.dirty()[k] == m.dirty()[k] by {
            assert(n.dirty().take(m.dirty().len() as int)[k] == m.dirty()[k]);
        }
    }
    assert(m.dirty().take(m.dirty().len() as int) =~= m.dirty());
    lemma_generation_sum(
        pre.spec_generation(),
        m.dirty().len() - pre.dirty().len() + m.tops().len() - pre.tops().len(),
        n.dirty().len() - m.dirty().len() + 1,
    );
    lemma_built_position(t, last as int, 4, pos, source);
    assert forall|k: int| pre.tops().len() <= k < n.tops().len() implies {
        let r = #[trigger] n.tops()[k] as int;
        let p = t[r].position;
        &&& ps.push(pos).contains(p)
        &&& !pre.ids().contains_key(p)
        &&& node_tree::built(t, r, 4, p, source)
    } by {
        if k < m.tops().len() {
            let r = m.tops()[k] as int;
            assert(n.tops()[k] == m.tops()[k]);
            assert(node_tree::tree_wf(s, r, 4));
            assert forall|j: int| #[trigger] node_tree::in_tree(s, r, 4, j) implies t[j] == s[j] by {
                assert(node_tree::in_tree(s, m.tops()[k] as int, 4, j));
                assert(in_some_tree(s, m.tops(), j));
                assert(m.allocated().contains(j));
            }
            assert(node_tree::in_tree(s, r, 4, r));
            node_tree::lemma_built_frame(s, t, r, 4, s[r].position, source);
        } else {
            assert(n.tops()[k] == last);
            if pre.ids().contains_key(pos) {
                assert(m.ids().contains_key(pos));
            }
        }
    }
    assert(m.allocated().subset_of(n.allocated()));
    vstd::set_lib::lemma_len_subset(m.allocated(), n.allocated());
    assert forall|p: u64| #[trigger] ps.push(pos).contains(p) implies n.ids().contains_key(p)
        || n.allocated().len() >= n.limit() by {
        if p != pos {
            assert(ps.contains(p));
        }
    }
    assert forall|p: u64| #[trigger] pre.ids().contains_key(p) implies n.ids().contains_key(p)
        && n.ids()[p] == pre.ids()[p] by {
        assert(m.ids().contains_key(p));
    }
    assert forall|j: int| #[trigger] pre.allocated().contains(j) implies n.allocated().contains(j)
        && t[j] == pre.nodes()[j] by {
        assert(m.allocated().contains(j));
    }
    assert forall|j: int| #[trigger]
        n.allocated().contains(j) && !pre.allocated().contains(j) && t[j].node_type
            == NodeType::Pending implies node_tree::exhausted(n.allocated(), n.limit()) by {
        if m.allocated().contains(j) {
            node_tree::lemma_exhausted_grows(m.allocated(), n.allocated(), m.limit());
        }
    }
}

/// One more region has been removed.
proof fn lemma_removed_step(
    pre: NodeManager,
    m: NodeManager,
    n: NodeManager,
    ps: Seq<u64>,
    pos: u64,
)
    requires
        removed(pre, m, ps),
        remove_step(m, n, pos),
        pre.wf(),
        position::spec_level(pos) == 4,
    ensures
        removed(pre, n, ps.push(pos)),
{
    let s = pre.nodes();
    lemma_push_contains(ps, pos);
    let chain = choose|chain: Seq<NodeManager>| #[trigger]
        remove_chain(chain, ps) && chain.first() == pre && chain.last() == m;
    lemma_remove_chain(chain, n, ps, pos);
    assert(chain.push(n).first() == chain.first() && chain.push(n).last() == n);
    if !m.ids().contains_key(pos) {
        assert forall|x: u32| #[trigger] pre.tops().contains(x) implies not_at(s, ps.push(pos))(x)
            == (not_at(s, ps)(x) && keep_all()(x)) by {
            if not_at(s, ps)(x) {
                lemma_filter_keeps(pre.tops(), not_at(s, ps), x);
                lemma_top_found(m, x);
                assert(m.nodes()[x as int] == s[x as int]);
            }
        }
        lemma_filter_twice(pre.tops(), not_at(s, ps), keep_all(), not_at(s, ps.push(pos)));
        lemma_filter_all(m.tops());
    } else {
        let id = m.ids()[pos];
        assert forall|x: u32| #[trigger] pre.tops().contains(x) implies not_at(s, ps.push(pos))(x)
            == (not_at(s, ps)(x) && not_id(id)(x)) by {
            if not_at(s, ps)(x) {
                lemma_filter_keeps(pre.tops(), not_at(s, ps), x);
                lemma_top_found(m, x);
                assert(m.nodes()[x as int] == s[x as int]);
                let k = lemma_top_at(m, pos);
                assert(m.tops().contains(id)) by {
                    assert(m.tops()[k] == id);
                }
                lemma_top_found(m, id);
            }
        }
        lemma_filter_twice(pre.tops(), not_at(s, ps), not_id(id), not_at(s, ps.push(pos)));
        let k = lemma_top_at(m, pos);
        lemma_filter_distinct(m, id);
        lemma_filter_one(m.tops(), k);
        assert(n.dirty().take(m.dirty().len() as int) =~= m.dirty());
        assert forall|j: int| 0 <= j < pre.dirty().len() implies n.dirty()[j] == pre.dirty()[j] by {
            assert(n.dirty().take(m.dirty().len() as int)[j] == m.dirty()[j]);
            assert(m.dirty().take(pre.dirty().len() as int)[j] == pre.dirty()[j]);
        }
        assert(n.dirty().take(pre.dirty().len() as int) =~= pre.dirty());
        lemma_generation_sum(
            pre.spec_generation(),
            m.dirty().len() - pre.dirty().len() + pre.tops().len() - m.tops().len(),
            n.dirty().len() - m.dirty().len() + 1,
        );
        assert forall|j: int| #[trigger] n.allocated().contains(j) implies pre.allocated().contains(
            j,
        ) && n.nodes()[j] == s[j] by {
            assert(m.allocated().contains(j));
        }
        lemma_filter_shorter(pre.tops(), not_at(s, ps));
    }
}

/// Keeps everything.
spec fn keep_all() -> spec_fn(u32) -> bool {
    |t: u32| true
}

/// Keeping everything changes nothing.
proof fn lemma_filter_all(s: Seq<u32>)
    ensures
        s.filter(keep_all()) == s,
    decreases s.len(),
{
    reveal(Seq::filter);
    if s.len() > 0 {
        lemma_filter_all(s.drop_last());
        assert(s.drop_last().push(s.last()) =~= s);
    } else {
        assert(s.filter(keep_all()) =~= s);
    }
}

/// A filtered list is no longer than the list.
proof fn lemma_filter_shorter(s: Seq<u32>, p: spec_fn(u32) -> bool)
    ensures
        s.filter(p).len() <= s.len(),
    decreases s.len(),
{
    reveal(Seq::filter);
    if s.len() > 0 {
        lemma_filter_shorter(s.drop_last(), p);
    }
}

/// Taking one slot out of a list of distinct slots makes it shorter by one.
proof fn lemma_filter_one(s: Seq<u32>, k: int)
    requires
        s.no_duplicates(),
        0 <= k < s.len(),
    ensures
        s.filter(not_id(s[k])).len() == s.len() - 1,
    decreases s.len(),
{
    reveal(Seq::filter);
    let t = s.drop_last();
    let id = s[k];
    if k == s.len() - 1 {
        assert forall|x: u32| #[trigger] t.contains(x) implies not_id(id)(x) == (keep_all()(x)
            && keep_all()(x)) by {
            let l = choose|l: int| 0 <= l < t.len() && t[l] == x;
            assert(s[l] == x);
        }
        lemma_filter_twice(t, keep_all(), keep_all(), not_id(id));
        lemma_filter_all(t);
        lemma_filter_all(t.filter(keep_all()));
    } else {
        assert(t[k] == id);
        assert(s[s.len() - 1] != s[k]);
        lemma_filter_one(t, k);
    }
}

impl NodeManager {
    /// Inserts and then removes what has been queued. The source tells which
    /// regions have content.
    pub fn process_pending<S: VoxelSource>(&mut self, source: &S)
        requires
            source.valid(),
            old(self).wf(),
        ensures
            final(self).wf(),
            final(self).inserts() == Seq::<u64>::empty(),
            final(self).removes() == Seq::<u64>::empty(),
            processed(
                *old(self),
                *final(self),
                old(self).inserts(),
                old(self).removes(),
                source,
            ),
    {
        let ghost pre = *self;
        let mut i: usize = 0;
        proof {
            assert(pre.tops().take(pre.tops().len() as int) =~= pre.tops());
            assert(pre.dirty().take(pre.dirty().len() as int) =~= pre.dirty());
            assert(pre.inserts().take(0) =~= Seq::empty());
            assert(insert_chain(seq![pre], Seq::<u64>::empty(), source));
            assert(seq![pre].first() == pre && seq![pre].last() == pre);
        }
        while i < self.books.pending_insert.len()
            invariant
                i <= self.inserts().len(),
                self.inserts() == pre.inserts(),
                self.removes() == pre.removes(),
                source.valid(),
                pre == *old(self),
                pre.wf(),
                inserted(pre, *self, pre.inserts().take(i as int), source),
            decreases self.inserts().len() - i,
        {
            let ghost m = *self;
            let pos: u64 = self.books.pending_insert[i];
            proof {
                assert(self.inserts()[i as int] == pos);
                assert(self.inserts().contains(pos));
            }
            self.insert_top_level_inner(pos, source);
            proof {
                lemma_inserted_step(pre, m, *self, pre.inserts().take(i as int), pos, source);
                assert(pre.inserts().take(i as int).push(pos) =~= pre.inserts().take(i + 1));
            }
            i = i + 1;
        }
        let ghost mid = *self;
        let mut i: usize = 0;
        proof {
            assert(pre.inserts().take(pre.inserts().len() as int) =~= pre.inserts());
            assert(mid.dirty().take(mid.dirty().len() as int) =~= mid.dirty());
            assert(mid.removes().take(0) =~= Seq::empty());
            assert forall|x: u32| #[trigger] mid.tops().contains(x) implies not_at(
                mid.nodes(),
                Seq::empty(),
            )(x) == (keep_all()(x) && keep_all()(x)) by {}
            lemma_filter_twice(
                mid.tops(),
                keep_all(),
                keep_all(),
                not_at(mid.nodes(), Seq::empty()),
            );
            lemma_filter_all(mid.tops());
            assert(remove_chain(seq![mid], Seq::<u64>::empty()));
            assert(seq![mid].first() == mid && seq![mid].last() == mid);
            assert(removed(mid, mid, Seq::empty()));
        }
        while i < self.books.pending_remove.len()
            invariant
                i <= self.removes().len(),
                self.removes() == mid.removes(),
                mid.wf(),
                mid.removes() == old(self).removes(),
                removed(mid, *self, mid.removes().take(i as int)),
            decreases self.removes().len() - i,
        {
            let ghost m = *self;
            let pos: u64 = self.books.pending_remove[i];
            proof {
                assert(self.removes()[i as int] == pos);
                assert(self.removes().contains(pos));
            }
            self.remove_top_level_inner(pos);
            proof {
                lemma_removed_step(mid, m, *self, mid.removes().take(i as int), pos);
                assert(mid.removes().take(i as int).push(pos) =~= mid.removes().take(i + 1));
            }
            i = i + 1;
        }
        let ghost end = *self;
        proof {
            assert(mid.removes().take(mid.removes().len() as int) =~= mid.removes());
        }
        self.books.pending_insert = Vec::new();
        self.books.pending_remove = Vec::new();
        proof {
            assert(inserted(*old(self), mid, old(self).inserts(), source));
            assert(removed(mid, end, old(self).removes()));
            assert(self.same_but_queues(&end));
        }
    }

    /// All but the queues is the same.
    pub open spec fn same_but_queues(&self, other: &Self) -> bool {
        &&& self.nodes() == other.nodes()
        &&& self.allocated() == other.allocated()
        &&& self.limit() == other.limit()
        &&& self.ids() == other.ids()
        &&& self.tops() == other.tops()
        &&& self.dirty() == other.dirty()
        &&& self.spec_generation() == other.spec_generation()
        &&& self.table_stale() == other.table_stale()
        &&& self.table() == other.table()
    }

    /// Takes the list of changes and marks its nodes as no longer dirty.
    pub fn drain_dirty_nodes(&mut self) -> (r: Vec<DirtyNode>)
        requires
            old(self).wf(),
        ensures
            final(self).wf(),
            r@ == old(self).dirty(),
            final(self).dirty() == Seq::<DirtyNode>::empty(),
            final(self).nodes().len() == old(self).nodes().len(),
            forall|j: int|
                0 <= j < old(self).nodes().len() ==> #[trigger] final(self).nodes()[j] == (if listed(
                    r@,
                    j,
                ) {
                    NodeRec { dirty: false, ..old(self).nodes()[j] }
                } else {
                    old(self).nodes()[j]
                }),
            forall|j: int| #[trigger]
                final(self).allocated().contains(j) ==> !final(self).nodes()[j].dirty,
            final(self).allocated() == old(self).allocated(),
            final(self).ids() == old(self).ids(),
            final(self).same_rest(old(self)),
            final(self).spec_generation() == old(self).spec_generation(),
            final(self).table_stale() == old(self).table_stale(),
            final(self).table() == old(self).table(),
    {
        let ghost pre = *self;
        let mut result: Vec<DirtyNode> = Vec::new();
        let mut i: usize = 0;
        proof {
            self.store.lemma_wf();
            assert(pre.dirty().take(0) =~= Seq::empty());
        }
        while i < self.books.dirty_nodes.len()
            invariant
                i <= self.books.dirty_nodes@.len(),
                self.books.dirty_nodes@ == pre.dirty(),
                pre == *old(self),
                pre.wf(),
                self.store.wf(),
                self.allocated() == pre.allocated(),
                self.ids() == pre.ids(),
                self.same_rest(&pre),
                self.spec_generation() == pre.spec_generation(),
                self.table_stale() == pre.table_stale(),
                self.table() == pre.table(),
                self.nodes().len() == pre.nodes().len(),
                result@ == pre.dirty().take(i as int),
                forall|j: int|
                    0 <= j < pre.nodes().len() ==> #[trigger] self.nodes()[j] == (if listed(
                        pre.dirty().take(i as int),
                        j,
                    ) {
                        NodeRec { dirty: false, ..pre.nodes()[j] }
                    } else {
                        pre.nodes()[j]
                    }),
            decreases self.books.dirty_nodes@.len() - i,
        {
            let d: DirtyNode = self.books.dirty_nodes[i];
            let ghost m = *self;
            self.store.set_dirty(d.node_id, false);
            result.push(d);
            proof {
                assert(pre.dirty().take(i + 1) =~= pre.dirty().take(i as int).push(d));
                let (p, q) = (pre.dirty().take(i as int), pre.dirty().take(i + 1));
                assert forall|j: int| #[trigger] listed(q, j) == (listed(p, j) || j == d.node_id) by {
                    if listed(p, j) {
                        let k = choose|k: int| 0 <= k < p.len() && (#[trigger] p[k]).node_id == j;
                        assert(q[k].node_id == j);
                    }
                    if listed(q, j) && j != d.node_id {
                        let k = choose|k: int| 0 <= k < q.len() && (#[trigger] q[k]).node_id == j;
                        assert(p[k].node_id == j);
                    }
                    assert(q[i as int].node_id == d.node_id);
                }
            }
            i = i + 1;
        }
        self.books.dirty_nodes = Vec::new();
        proof {
            assert(pre.dirty().take(i as int) =~= pre.dirty());
            lemma_drained(pre.nodes(), self.nodes(), pre.allocated(), pre.dirty());
            lemma_trees_keep(
                pre.nodes(),
                self.nodes(),
                pre.allocated(),
                pre.tops(),
                pre.ids(),
            );
            if !self.table_stale() {
                lemma_table_keep(pre.nodes(), self.nodes(), pre.allocated(), self.table());
            }
        }
        result
    }

    /// Whether the graphics processor has yet to read a change.
    pub fn has_dirty_nodes(&self) -> (r: bool)
        ensures
            r == self.table_stale(),
    {
        !self.books.cache_current
    }

    /// The generation number, which grows with every change.
    pub fn generation(&self) -> (r: u64)
        ensures
            r == self.spec_generation(),
    {
        self.books.generation
    }

    /// The slots of the roots.
    pub fn top_level_ids(&self) -> (r: &Vec<u32>)
        ensures
            r@ == self.tops(),
    {
        &self.books.top_level_ids
    }

    /// The geometry of a slot: -1 for none, -2 for empty, else its id.
    pub fn node_geometry(&self, node_id: u32) -> (r: i32)
        requires
            node_id < self.nodes().len(),
        ensures
            r == self.nodes()[node_id as int].geometry,
    {
        self.store.get_node_geometry(node_id)
    }

    /// The position of a slot.
    pub fn node_position(&self, node_id: u32) -> (r: u64)
        requires
            node_id < self.nodes().len(),
        ensures
            r == self.nodes()[node_id as int].position,
    {
        self.store.node_position(node_id)
    }

    /// Whether there is a node at a position.
    pub fn has_node_at(&self, pos: u64) -> (r: bool)
        ensures
            r == self.ids().contains_key(pos),
    {
        self.books.pos_to_id.contains_key(&pos)
    }

    /// How many nodes there are.
    pub fn node_count(&self) -> (r: u32)
        requires
            self.wf(),
        ensures
            r == self.allocated().len(),
    {
        self.store.node_count()
    }

    /// The table that the graphics processor reads. It is built anew only if
    /// something has changed since it was last asked for.
    pub fn gpu_node_data(&mut self) -> (r: &Vec<GpuNode>)
        requires
            old(self).wf(),
        ensures
            final(self).wf(),
            is_gpu_table(final(self).nodes(), final(self).allocated(), r@),
            final(self).table() == r@,
            !final(self).table_stale(),
            !old(self).table_stale() ==> r@ == old(self).table(),
            final(self).nodes() == old(self).nodes(),
            final(self).allocated() == old(self).allocated(),
            final(self).ids() == old(self).ids(),
            final(self).dirty() == old(self).dirty(),
            final(self).same_rest(old(self)),
            final(self).spec_generation() == old(self).spec_generation(),
    {
        if !self.books.cache_current {
            let end: i32 = self.store.end_node_id();
            let count: u32 = (end + 1) as u32;
            let mut data: Vec<GpuNode> = Vec::new();
            let mut id: u32 = 0;
            while id < count
                invariant
                    id <= count,
                    count <= CAPACITY,
                    self.store.wf(),
                    data@.len() == id,
                    forall|i: int|
                        0 <= i < id ==> #[trigger] data@[i] == if self.allocated().contains(i) {
                            gpu_of(self.nodes()[i])
                        } else {
                            GpuNode { position: 0, data: 0 }
                        },
                decreases count - id,
            {
                if self.store.node_exists(id) {
                    data.push(GpuNode::from_store(&self.store, id));
                } else {
                    data.push(GpuNode::zeroed());
                }
                id = id + 1;
            }
            self.books.gpu_data_cache = data;
            self.books.cache_current = true;
        }
        &self.books.gpu_data_cache
    }
}

/// Where there is no root, nothing is left: removing every region gives back
/// every slot and forgets every position.
pub proof fn law_no_roots_no_nodes(m: NodeManager)
    requires
        m.wf(),
        m.tops().len() == 0,
    ensures
        m.allocated() == Set::<int>::empty(),
        m.ids() == Map::<u64, u32>::empty(),
{
    assert forall|j: int| !#[trigger] m.allocated().contains(j) by {
        if m.allocated().contains(j) {
            assert(in_some_tree(m.nodes(), m.tops(), j));
        }
    }
    assert(m.allocated() =~= Set::<int>::empty());
    assert forall|p: u64| !#[trigger] m.ids().contains_key(p) by {
        if m.ids().contains_key(p) {
            assert(m.allocated().contains(m.ids()[p] as int));
        }
    }
    assert(m.ids() =~= Map::<u64, u32>::empty());
}

/// No two nodes have the same position.
pub proof fn law_one_node_per_position(m: NodeManager, i: int, j: int)
    requires
        m.wf(),
        m.allocated().contains(i),
        m.allocated().contains(j),
        m.nodes()[i].node_type != NodeType::Unused,
        m.nodes()[j].node_type != NodeType::Unused,
        m.nodes()[i].position == m.nodes()[j].position,
    ensures
        i == j,
{
}

/// The region of every node lies in the region of a root.
pub proof fn law_nodes_lie_under_roots(m: NodeManager, j: int) -> (k: int)
    requires
        m.wf(),
        m.allocated().contains(j),
    ensures
        0 <= k < m.tops().len(),
        j == m.tops()[k] || node_tree::strictly_under(
            m.nodes()[j].position,
            m.nodes()[m.tops()[k] as int].position,
        ),
{
    assert(in_some_tree(m.nodes(), m.tops(), j));
    let k = choose|k: int|
        0 <= k < m.tops().len() && #[trigger] node_tree::in_tree(
            m.nodes(),
            m.tops()[k] as int,
            4,
            j,
        );
    assert(node_tree::tree_wf(m.nodes(), m.tops()[k] as int, 4));
    node_tree::lemma_tree_positions(m.nodes(), m.tops()[k] as int, 4, j);
    k
}

/// Where one region was queued for insertion and none for removal, processing the
/// queues is that one insertion.
pub proof fn law_one_insertion<S: VoxelSource>(
    pre: NodeManager,
    post: NodeManager,
    pos: u64,
    source: &S,
)
    requires
        processed(pre, post, seq![pos], Seq::empty(), source),
    ensures
        exists|a: NodeManager, b: NodeManager| #[trigger]
            insert_step(a, b, pos, source) && a.same_but_queues(&pre) && post.same_but_queues(&b),
{
    let ps = seq![pos];
    let (mid, end) = choose|mid: NodeManager, end: NodeManager| #[trigger]
        inserted(pre, mid, ps, source) && #[trigger] removed(mid, end, Seq::empty())
            && post.same_but_queues(&end);
    let chain = choose|chain: Seq<NodeManager>| #[trigger]
        insert_chain(chain, ps, source) && chain.first().same_but_queues(&pre) && chain.last()
            == mid;
    assert(inserted_at(chain, ps, 0, source));
    let gone = choose|gone: Seq<NodeManager>| #[trigger]
        remove_chain(gone, Seq::empty()) && gone.first() == mid && gone.last() == end;
    assert(gone.len() == 1);
    assert(insert_step(chain[0], chain[1], pos, source));
}

/// A new root takes the lowest free slot: it was free, and all slots below it were
/// in use.
pub proof fn law_roots_take_the_lowest_slot<S: VoxelSource>(
    pre: NodeManager,
    post: NodeManager,
    pos: u64,
    source: &S,
    j: int,
)
    requires
        insert_step(pre, post, pos, source),
        !pre.ids().contains_key(pos),
        pre.allocated().len() < pre.limit(),
        0 <= j < post.tops().last(),
    ensures
        !pre.allocated().contains(post.tops().last() as int),
        pre.allocated().contains(j),
{
    let root = post.tops().last() as int;
    assert(hierarchical_bitset::free_run(pre.allocated(), root, 1));
    assert(!hierarchical_bitset::free_run(pre.allocated(), j, 1));
}

} // verus!

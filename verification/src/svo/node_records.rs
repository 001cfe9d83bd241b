//! What building and removing a tree does in turn: which slots it takes, and which
//! changes it lists.

use crate::svo::hierarchical_bitset;
use crate::svo::node_manager;
use crate::svo::node_manager::DirtyNode;
use crate::svo::node_store::{NodeRec, NodeType};
use crate::svo::node_tree;
use vstd::prelude::*;

verus! {

/// The slots in use once the tree in slot `id` has been built, where `used` were in
/// use before: each inner node takes the lowest eight slots in a row that are free,
/// and then its octants are built in turn. `None` if a node has taken others.
pub open spec fn placed(s: Seq<NodeRec>, id: int, lvl: nat, used: Set<int>) -> Option<Set<int>>
    decreases lvl, 0nat,
{
    let base = s[id].child_ptr;
    if lvl == 0 || s[id].node_type != NodeType::Inner {
        Some(used)
    } else if hierarchical_bitset::lowest_free_run(used, base, 8) {
        octants_placed(
            s,
            base,
            8,
            (lvl - 1) as nat,
            used.union(hierarchical_bitset::index_range(base, base + 8)),
        )
    } else {
        None
    }
}

/// The slots in use once the trees in the first `n` slots from `base` on have been
/// built in turn.
pub open spec fn octants_placed(
    s: Seq<NodeRec>,
    base: int,
    n: nat,
    sub: nat,
    used: Set<int>,
) -> Option<Set<int>>
    decreases sub, n + 1,
{
    if n == 0 {
        Some(used)
    } else {
        match octants_placed(s, base, (n - 1) as nat, sub, used) {
            Some(then) => placed(s, base + n - 1, sub, then),
            None => None,
        }
    }
}

/// The change that says what the node in slot `j` is.
pub open spec fn record_of(j: int, node: NodeRec) -> DirtyNode {
    DirtyNode { node_id: j as u32, gpu_data: node_manager::gpu_of(node) }
}

/// The changes that building the tree in slot `id` lists: first those of its
/// octants in turn, then that of the node. A node that waits for its contents lists
/// none.
pub open spec fn built_records(s: Seq<NodeRec>, id: int, lvl: nat) -> Seq<DirtyNode>
    decreases lvl, 0nat,
{
    if s[id].node_type == NodeType::Leaf {
        seq![record_of(id, s[id])]
    } else if s[id].node_type == NodeType::Inner && lvl > 0 {
        octants_built_records(s, s[id].child_ptr, 8, (lvl - 1) as nat).push(record_of(id, s[id]))
    } else {
        seq![]
    }
}

/// The changes that building the trees in the first `n` slots from `base` on lists.
pub open spec fn octants_built_records(s: Seq<NodeRec>, base: int, n: nat, sub: nat) -> Seq<
    DirtyNode,
>
    decreases sub, n + 1,
{
    if n == 0 {
        seq![]
    } else {
        octants_built_records(s, base, (n - 1) as nat, sub) + built_records(s, base + n - 1, sub)
    }
}

/// A leaf without its geometry.
pub open spec fn cleared_leaf(node: NodeRec) -> NodeRec {
    NodeRec { geometry: 0, child_existence: 0, dirty: true, ..node }
}

/// The changes that removing the tree in slot `id` lists: that each of its leaves, in
/// turn, has no geometry any more.
pub open spec fn gone_records(s: Seq<NodeRec>, id: int, lvl: nat) -> Seq<DirtyNode>
    decreases lvl, 0nat,
{
    if s[id].node_type == NodeType::Leaf {
        seq![record_of(id, cleared_leaf(s[id]))]
    } else if s[id].node_type == NodeType::Inner && lvl > 0 {
        octants_gone_records(s, s[id].child_ptr, 8, (lvl - 1) as nat)
    } else {
        seq![]
    }
}

/// The changes that removing the trees in the first `n` slots from `base` on lists.
pub open spec fn octants_gone_records(s: Seq<NodeRec>, base: int, n: nat, sub: nat) -> Seq<
    DirtyNode,
>
    decreases sub, n + 1,
{
    if n == 0 {
        seq![]
    } else {
        octants_gone_records(s, base, (n - 1) as nat, sub) + gone_records(s, base + n - 1, sub)
    }
}

/// The tree in slot `c` is the same in both stores.
pub open spec fn same_tree(s: Seq<NodeRec>, t: Seq<NodeRec>, c: int, lvl: nat) -> bool {
    &&& node_tree::tree_wf(s, c, lvl)
    &&& forall|j: int| #[trigger] node_tree::in_tree(s, c, lvl, j) ==> t[j] == s[j]
}

/// What building and removing a tree does depends on its own slots alone.
pub proof fn lemma_records_frame(s: Seq<NodeRec>, t: Seq<NodeRec>, id: int, lvl: nat)
    requires
        same_tree(s, t, id, lvl),
    ensures
        built_records(t, id, lvl) == built_records(s, id, lvl),
        gone_records(t, id, lvl) == gone_records(s, id, lvl),
        forall|used: Set<int>| #[trigger] placed(t, id, lvl, used) == placed(s, id, lvl, used),
    decreases lvl, 0nat,
{
    assert(node_tree::in_tree(s, id, lvl, id));
    if s[id].node_type == NodeType::Inner && lvl > 0 {
        let sub = (lvl - 1) as nat;
        let base = s[id].child_ptr;
        assert forall|c: int| base <= c < base + 8 implies #[trigger] same_tree(s, t, c, sub) by {
            assert(node_tree::is_child(s, id, c));
            assert forall|j: int| #[trigger] node_tree::in_tree(s, c, sub, j) implies t[j]
                == s[j] by {
                assert(node_tree::in_tree(s, id, lvl, j));
            }
        }
        lemma_octants_frame(s, t, base, 8, sub);
        assert forall|used: Set<int>| #[trigger] placed(t, id, lvl, used) == placed(
            s,
            id,
            lvl,
            used,
        ) by {
            let taken = used.union(hierarchical_bitset::index_range(base, base + 8));
            assert(octants_placed(t, base, 8, sub, taken) == octants_placed(
                s,
                base,
                8,
                sub,
                taken,
            ));
        }
    }
}

/// What building and removing octants does depends on their own slots alone.
pub proof fn lemma_octants_frame(s: Seq<NodeRec>, t: Seq<NodeRec>, base: int, n: nat, sub: nat)
    requires
        forall|c: int| base <= c < base + n ==> #[trigger] same_tree(s, t, c, sub),
    ensures
        octants_built_records(t, base, n, sub) == octants_built_records(s, base, n, sub),
        octants_gone_records(t, base, n, sub) == octants_gone_records(s, base, n, sub),
        forall|used: Set<int>| #[trigger]
            octants_placed(t, base, n, sub, used) == octants_placed(s, base, n, sub, used),
    decreases sub, n + 1,
{
    if n > 0 {
        lemma_octants_frame(s, t, base, (n - 1) as nat, sub);
        assert(same_tree(s, t, base + n - 1, sub));
        lemma_records_frame(s, t, base + n - 1, sub);
        assert forall|used: Set<int>| #[trigger]
            octants_placed(t, base, n, sub, used) == octants_placed(s, base, n, sub, used) by {
            let before = octants_placed(s, base, (n - 1) as nat, sub, used);
            assert(octants_placed(t, base, (n - 1) as nat, sub, used) == before);
            if before is Some {
                assert(placed(t, base + n - 1, sub, before->0) == placed(
                    s,
                    base + n - 1,
                    sub,
                    before->0,
                ));
            }
        }
    }
}

/// One more octant has been built.
pub proof fn lemma_octant_built(
    s: Seq<NodeRec>,
    t: Seq<NodeRec>,
    base: int,
    i: nat,
    sub: nat,
    first: Seq<DirtyNode>,
    used: Set<int>,
    then: Set<int>,
    after: Set<int>,
)
    requires
        forall|c: int| base <= c < base + i ==> #[trigger] same_tree(s, t, c, sub),
        octants_placed(s, base, i, sub, used) == Some(then),
        placed(t, base + i, sub, then) == Some(after),
    ensures
        octants_placed(t, base, i + 1, sub, used) == Some(after),
        first + octants_built_records(s, base, i, sub) + built_records(t, base + i, sub) == first
            + octants_built_records(t, base, i + 1, sub),
{
    lemma_octants_frame(s, t, base, i, sub);
    assert(octants_placed(t, base, i, sub, used) == Some(then));
    assert(first + octants_built_records(s, base, i, sub) + built_records(t, base + i, sub)
        =~= first + octants_built_records(t, base, i + 1, sub));
}

/// An octant that is not a node does nothing.
pub proof fn lemma_octant_skipped(s: Seq<NodeRec>, base: int, i: nat, sub: nat)
    requires
        s[base + i].node_type == NodeType::Unused,
    ensures
        forall|used: Set<int>| #[trigger]
            octants_placed(s, base, i + 1, sub, used) == octants_placed(s, base, i, sub, used),
        octants_built_records(s, base, i + 1, sub) == octants_built_records(s, base, i, sub),
        octants_gone_records(s, base, i + 1, sub) == octants_gone_records(s, base, i, sub),
{
    assert forall|used: Set<int>| #[trigger]
        octants_placed(s, base, i + 1, sub, used) == octants_placed(s, base, i, sub, used) by {
        let before = octants_placed(s, base, i, sub, used);
        if before is Some {
            assert(placed(s, base + i, sub, before->0) == before);
        }
    }
    assert(built_records(s, base + i, sub) =~= seq![]);
    assert(gone_records(s, base + i, sub) =~= seq![]);
    assert(octants_built_records(s, base, i + 1, sub) =~= octants_built_records(s, base, i, sub));
    assert(octants_gone_records(s, base, i + 1, sub) =~= octants_gone_records(s, base, i, sub));
}

/// A node has been built once its octants have been.
pub proof fn lemma_inner_built(
    s: Seq<NodeRec>,
    t: Seq<NodeRec>,
    id: int,
    lvl: nat,
    base: int,
    first: Seq<DirtyNode>,
    used: Set<int>,
    after: Set<int>,
)
    requires
        lvl > 0,
        t[id].node_type == NodeType::Inner,
        t[id].child_ptr == base,
        forall|c: int| base <= c < base + 8 ==> #[trigger] same_tree(s, t, c, (lvl - 1) as nat),
        hierarchical_bitset::lowest_free_run(used, base, 8),
        octants_placed(
            s,
            base,
            8,
            (lvl - 1) as nat,
            used.union(hierarchical_bitset::index_range(base, base + 8)),
        ) == Some(after),
    ensures
        placed(t, id, lvl, used) == Some(after),
        (first + octants_built_records(s, base, 8, (lvl - 1) as nat)).push(record_of(id, t[id]))
            == first + built_records(t, id, lvl),
{
    let sub = (lvl - 1) as nat;
    lemma_octants_frame(s, t, base, 8, sub);
    let taken = used.union(hierarchical_bitset::index_range(base, base + 8));
    assert(octants_placed(t, base, 8, sub, taken) == Some(after));
    assert((first + octants_built_records(s, base, 8, sub)).push(record_of(id, t[id])) =~= first
        + built_records(t, id, lvl));
}

/// Every change that building a tree lists is about one of its nodes, and says what
/// that node is.
pub proof fn law_records_say_what_nodes_are(s: Seq<NodeRec>, id: int, lvl: nat, k: int)
    requires
        node_tree::tree_wf(s, id, lvl),
        0 <= k < built_records(s, id, lvl).len(),
    ensures
        exists|j: int| #[trigger]
            node_tree::in_tree(s, id, lvl, j) && built_records(s, id, lvl)[k] == record_of(j, s[j]),
    decreases lvl, 0nat,
{
    assert(node_tree::in_tree(s, id, lvl, id));
    if s[id].node_type == NodeType::Inner && lvl > 0 {
        let sub = (lvl - 1) as nat;
        let base = s[id].child_ptr;
        let inside = octants_built_records(s, base, 8, sub);
        if k < inside.len() {
            assert forall|c: int| base <= c < base + 8 implies #[trigger] node_tree::tree_wf(
                s,
                c,
                sub,
            ) by {
                assert(node_tree::is_child(s, id, c));
            }
            let (c, j) = lemma_octant_record(s, base, 8, sub, k);
            assert(node_tree::is_child(s, id, c));
            assert(node_tree::in_tree(s, id, lvl, j));
        }
    }
}

/// Where a change that octants list comes from.
proof fn lemma_octant_record(s: Seq<NodeRec>, base: int, n: nat, sub: nat, k: int) -> (r: (
    int,
    int,
))
    requires
        forall|c: int| base <= c < base + n ==> #[trigger] node_tree::tree_wf(s, c, sub),
        0 <= k < octants_built_records(s, base, n, sub).len(),
    ensures
        base <= r.0 < base + n,
        node_tree::in_tree(s, r.0, sub, r.1),
        octants_built_records(s, base, n, sub)[k] == record_of(r.1, s[r.1]),
    decreases sub, n + 1,
{
    let before = octants_built_records(s, base, (n - 1) as nat, sub);
    if k < before.len() {
        lemma_octant_record(s, base, (n - 1) as nat, sub, k)
    } else {
        let c = base + n - 1;
        assert(node_tree::tree_wf(s, c, sub));
        law_records_say_what_nodes_are(s, c, sub, k - before.len());
        let j = choose|j: int| #[trigger]
            node_tree::in_tree(s, c, sub, j) && built_records(s, c, sub)[k - before.len()]
                == record_of(j, s[j]);
        (c, j)
    }
}

} // verus!

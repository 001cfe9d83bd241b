//! Groups visible nodes into batches that are drawn together.

use crate::svo::node_manager::NodeManager;
use crate::svo::node_store::NodeRec;
use crate::svo::position;
use crate::svo::position::decode_level;
use std::collections::HashMap;
use vstd::prelude::*;
use vstd::std_specs::hash::*;

verus! {

broadcast use vstd::std_specs::hash::group_hash_axioms;

/// Nodes that are drawn together.
#[derive(Debug)]
pub struct RenderBatch {
    pub material_id: u32,
    pub node_ids: Vec<u32>,
    pub lod_level: u32,
}

impl RenderBatch {
    /// An empty batch.
    pub fn new(material_id: u32, lod_level: u32) -> (r: Self)
        ensures
            r.material_id == material_id,
            r.lod_level == lod_level,
            r.node_ids@ == Seq::<u32>::empty(),
    {
        Self { material_id, node_ids: Vec::new(), lod_level }
    }

    /// Whether the batch has no nodes.
    pub fn is_empty(&self) -> (r: bool)
        ensures
            r == (self.node_ids@.len() == 0),
    {
        self.node_ids.len() == 0
    }

    /// Adds a node.
    pub fn add_node(&mut self, node_id: u32)
        ensures
            final(self).material_id == old(self).material_id,
            final(self).lod_level == old(self).lod_level,
            final(self).node_ids@ == old(self).node_ids@.push(node_id),
    {
        self.node_ids.push(node_id);
    }

    /// How many nodes the batch has.
    pub fn len(&self) -> (r: usize)
        ensures
            r == self.node_ids@.len(),
    {
        self.node_ids.len()
    }
}

/// How many nodes and batches there are, and how large the batches are.
#[derive(Debug, Clone, Copy, PartialEq, Eq, Structural)]
pub struct BatchRenderStats {
    pub total_nodes: u32,
    pub batch_count: u32,
    pub max_batch_size: u32,
    pub min_batch_size: u32,
}

/// A batch without its vectors: material, level and nodes.
#[verifier::ext_equal]
pub struct BatchModel {
    pub material_id: u32,
    pub lod_level: u32,
    pub node_ids: Seq<u32>,
}

/// The batches as values.
pub open spec fn model_of(batches: Seq<RenderBatch>) -> Seq<BatchModel> {
    Seq::new(
        batches.len(),
        |i: int|
            BatchModel {
                material_id: batches[i].material_id,
                lod_level: batches[i].lod_level,
                node_ids: batches[i].node_ids@,
            },
    )
}

/// The key by which the batch of a material and a level is found.
pub open spec fn batch_key(material_id: u32, lod_level: u32) -> u32 {
    (material_id << 4u32) | lod_level
}

/// The place of the batch with a key, or the number of batches if there is none.
pub open spec fn place_of(batches: Seq<BatchModel>, key: u32) -> int
    decreases batches.len(),
{
    if batches.len() == 0 {
        0
    } else {
        let p = place_of(batches.drop_last(), key);
        if p < batches.len() - 1 {
            p
        } else if batch_key(batches.last().material_id, batches.last().lod_level) == key {
            batches.len() - 1
        } else {
            batches.len() as int
        }
    }
}

/// The batches after a node has been added: to the batch of its key, or to a new
/// one.
pub open spec fn with_node(
    batches: Seq<BatchModel>,
    node_id: u32,
    material_id: u32,
    lod_level: u32,
) -> Seq<BatchModel> {
    let p = place_of(batches, batch_key(material_id, lod_level));
    if p < batches.len() {
        batches.update(
            p,
            BatchModel { node_ids: batches[p].node_ids.push(node_id), ..batches[p] },
        )
    } else {
        batches.push(BatchModel { material_id, lod_level, node_ids: seq![node_id] })
    }
}

/// How many nodes the batches have in all.
pub open spec fn node_total(batches: Seq<BatchModel>) -> int
    decreases batches.len(),
{
    if batches.len() == 0 {
        0
    } else {
        node_total(batches.drop_last()) + batches.last().node_ids.len()
    }
}

/// The batches of a frame.
pub struct BatchRenderer {
    batches: Vec<RenderBatch>,
    material_to_batch: HashMap<u32, usize>,
    enabled: bool,
    stats: BatchRenderStats,
}

/// The statistics describe the batches.
pub open spec fn stats_of(s: BatchRenderStats, batches: Seq<BatchModel>) -> bool {
    &&& s.total_nodes == node_total(batches)
    &&& s.batch_count == batches.len()
    &&& batches.len() == 0 ==> s.max_batch_size == 0 && s.min_batch_size == 0
    &&& forall|i: int|
        0 <= i < batches.len() ==> s.min_batch_size <= (#[trigger] batches[i]).node_ids.len()
            <= s.max_batch_size
    &&& batches.len() > 0 ==> (exists|i: int|
        0 <= i < batches.len() && (#[trigger] batches[i]).node_ids.len() == s.max_batch_size) && (
    exists|i: int|
        0 <= i < batches.len() && (#[trigger] batches[i]).node_ids.len() == s.min_batch_size)
}

impl BatchRenderer {
    /// The batches.
    pub closed spec fn model(&self) -> Seq<BatchModel> {
        model_of(self.batches@)
    }

    /// Whether batches are built at all.
    pub closed spec fn spec_enabled(&self) -> bool {
        self.enabled
    }

    /// The statistics.
    pub closed spec fn spec_stats(&self) -> BatchRenderStats {
        self.stats
    }

    /// The map finds each batch by its key, and the statistics are right.
    pub closed spec fn wf(&self) -> bool {
        &&& forall|key: u32| #[trigger]
            self.material_to_batch@.contains_key(key) <==> place_of(self.model(), key)
                < self.model().len()
        &&& forall|key: u32| #[trigger]
            self.material_to_batch@.contains_key(key) ==> self.material_to_batch@[key] == place_of(
                self.model(),
                key,
            )
        &&& stats_of(self.stats, self.model())
    }

    /// A renderer without batches.
    pub fn new(enabled: bool) -> (r: Self)
        ensures
            r.wf(),
            r.model() == Seq::<BatchModel>::empty(),
            r.spec_enabled() == enabled,
            stats_of(r.spec_stats(), r.model()),
    {
        let r = Self {
            batches: Vec::new(),
            material_to_batch: HashMap::new(),
            enabled,
            stats: BatchRenderStats {
                total_nodes: 0,
                batch_count: 0,
                max_batch_size: 0,
                min_batch_size: 0,
            },
        };
        assert(r.model() =~= Seq::<BatchModel>::empty());
        r
    }

    /// Drops all batches.
    pub fn clear(&mut self)
        ensures
            final(self).wf(),
            final(self).model() == Seq::<BatchModel>::empty(),
            final(self).spec_enabled() == old(self).spec_enabled(),
            stats_of(final(self).spec_stats(), final(self).model()),
    {
        self.batches = Vec::new();
        self.material_to_batch = HashMap::new();
        self.stats =
        BatchRenderStats {
            total_nodes: 0,
            batch_count: 0,
            max_batch_size: 0,
            min_batch_size: 0,
        };
        assert(self.model() =~= Seq::<BatchModel>::empty());
    }

    /// Adds a node to the batch of its material and level.
    pub fn add_node(&mut self, node_id: u32, material_id: u32, lod_level: u32)
        requires
            old(self).wf(),
            node_total(old(self).model()) < u32::MAX,
            old(self).model().len() < u32::MAX,
        ensures
            final(self).wf(),
            final(self).spec_enabled() == old(self).spec_enabled(),
            final(self).model() == with_node(old(self).model(), node_id, material_id, lod_level),
            stats_of(final(self).spec_stats(), final(self).model()),
            node_total(final(self).model()) == node_total(old(self).model()) + 1,
    {
        let ghost before = self.model();
        let key: u32 = (material_id << 4u32) | lod_level;
        proof {
            lemma_place_bounds(before, key);
        }
        let found: Option<usize> = match self.material_to_batch.get(&key) {
            Some(idx) => Some(*idx),
            None => None,
        };
        match found {
            Some(idx) => {
                let ghost p = idx as int;
                self.push_into(idx, node_id);
                proof {
                    assert(self.model() =~= with_node(before, node_id, material_id, lod_level));
                    lemma_total_update(before, p, node_id);
                    assert forall|k: u32| #[trigger] place_of(self.model(), k) == place_of(
                        before,
                        k,
                    ) by {
                        lemma_place_same_keys(before, self.model(), k);
                    }
                }
            },
            None => {
                let idx: usize = self.batches.len();
                let mut batch: RenderBatch = RenderBatch::new(material_id, lod_level);
                batch.add_node(node_id);
                assert(batch.node_ids@ =~= seq![node_id]);
                self.batches.push(batch);
                self.material_to_batch.insert(key, idx);
                proof {
                    let after = self.model();
                    assert(after =~= with_node(before, node_id, material_id, lod_level));
                    assert(after.drop_last() =~= before);
                    assert forall|k: u32| #[trigger] place_of(after, k) == (if k == key {
                        before.len() as int
                    } else if place_of(before, k) < before.len() {
                        place_of(before, k)
                    } else {
                        before.len() as int + 1
                    }) by {
                        lemma_place_bounds(before, k);
                    }
                    assert forall|k: u32| #[trigger]
                        self.material_to_batch@.contains_key(k) <==> place_of(after, k)
                            < after.len() by {
                        lemma_place_bounds(before, k);
                        assert(old(self).material_to_batch@.contains_key(k) <==> place_of(
                            before,
                            k,
                        ) < before.len());
                    }
                    assert forall|k: u32| #[trigger]
                        self.material_to_batch@.contains_key(k) implies self.material_to_batch@[k]
                        == place_of(after, k) by {
                        lemma_place_bounds(before, k);
                        assert(old(self).material_to_batch@.contains_key(k) <==> place_of(
                            before,
                            k,
                        ) < before.len());
                    }
                }
            },
        }
        self.update_stats();
    }

    /// Adds a node to the batch at a place.
    fn push_into(&mut self, idx: usize, node_id: u32)
        requires
            idx < old(self).batches@.len(),
        ensures
            final(self).material_to_batch == old(self).material_to_batch,
            final(self).enabled == old(self).enabled,
            final(self).stats == old(self).stats,
            final(self).model() == old(self).model().update(
                idx as int,
                BatchModel {
                    node_ids: old(self).model()[idx as int].node_ids.push(node_id),
                    ..old(self).model()[idx as int]
                },
            ),
    {
        let ghost before = self.batches@;
        let mut batch: RenderBatch = self.batches.remove(idx);
        batch.add_node(node_id);
        self.batches.insert(idx, batch);
        assert(self.model() =~= model_of(before).update(
            idx as int,
            BatchModel {
                node_ids: model_of(before)[idx as int].node_ids.push(node_id),
                ..model_of(before)[idx as int]
            },
        ));
    }

    /// Counts the nodes and finds the largest and the smallest batch.
    fn update_stats(&mut self)
        requires
            node_total(old(self).model()) <= u32::MAX,
            old(self).model().len() <= u32::MAX,
        ensures
            stats_of(final(self).stats, final(self).model()),
            final(self).batches == old(self).batches,
            final(self).material_to_batch == old(self).material_to_batch,
            final(self).enabled == old(self).enabled,
    {
        let ghost m = self.model();
        let mut total: u32 = 0;
        let mut max: u32 = 0;
        let mut min: u32 = 0;
        let mut i: usize = 0;
        while i < self.batches.len()
            invariant
                i <= self.batches@.len(),
                *self == *old(self),
                m == self.model(),
                node_total(m) <= u32::MAX,
                total == node_total(m.take(i as int)),
                i == 0 ==> max == 0 && min == 0,
                forall|k: int| 0 <= k < i ==> min <= (#[trigger] m[k]).node_ids.len() <= max,
                i > 0 ==> (exists|k: int| 0 <= k < i && (#[trigger] m[k]).node_ids.len() == max)
                    && (exists|k: int| 0 <= k < i && (#[trigger] m[k]).node_ids.len() == min),
            decreases self.batches@.len() - i,
        {
            proof {
                assert(m.take(i + 1).drop_last() =~= m.take(i as int));
                assert(m.take(i + 1).last() == m[i as int]);
                lemma_total_prefix(m, i + 1);
                assert(m[i as int].node_ids == self.batches@[i as int].node_ids@);
            }
            let n: u32 = self.batches[i].len() as u32;
            assert(m[i as int].node_ids.len() == n);
            total = total + n;
            if i == 0 {
                max = n;
                min = n;
            } else {
                if n > max {
                    max = n;
                }
                if n < min {
                    min = n;
                }
            }
            i = i + 1;
        }
        assert(m.take(i as int) =~= m);
        self.stats =
        BatchRenderStats {
            total_nodes: total,
            batch_count: self.batches.len() as u32,
            max_batch_size: max,
            min_batch_size: min,
        };
    }

    /// Builds the batches of the visible nodes anew. Nodes without geometry are
    /// left out, and nothing is built while the renderer is not enabled.
    pub fn build_from_render_queue(&mut self, node_ids: &Vec<u32>, manager: &NodeManager)
        requires
            manager.wf(),
            node_ids@.len() < u32::MAX,
            forall|i: int|
                0 <= i < node_ids@.len() ==> (#[trigger] node_ids@[i]) < manager.nodes().len(),
        ensures
            final(self).wf(),
            final(self).spec_enabled() == old(self).spec_enabled(),
            final(self).model() == if old(self).spec_enabled() {
                batches_of(node_ids@, manager.nodes())
            } else {
                seq![]
            },
            stats_of(final(self).spec_stats(), final(self).model()),
    {
        self.clear();
        if !self.enabled {
            return;
        }
        let mut i: usize = 0;
        assert(node_ids@.take(0) =~= seq![]);
        while i < node_ids.len()
            invariant
                i <= node_ids@.len(),
                node_ids@.len() < u32::MAX,
                manager.wf(),
                forall|i: int|
                    0 <= i < node_ids@.len() ==> (#[trigger] node_ids@[i])
                        < manager.nodes().len(),
                self.wf(),
                self.enabled == old(self).enabled,
                self.model() == batches_of(node_ids@.take(i as int), manager.nodes()),
                stats_of(self.spec_stats(), self.model()),
                node_total(self.model()) <= i,
                self.model().len() <= i,
            decreases node_ids@.len() - i,
        {
            let node_id: u32 = node_ids[i];
            proof {
                assert(node_ids@.take(i + 1).drop_last() =~= node_ids@.take(i as int));
                assert(node_ids@.take(i + 1).last() == node_id);
                assert(node_ids@[i as int] < manager.nodes().len());
            }
            let geometry: i32 = manager.node_geometry(node_id);
            let position: u64 = manager.node_position(node_id);
            let lod_level: u32 = decode_level(position);
            if geometry >= 0 {
                proof {
                    lemma_place_bounds(self.model(), batch_key(geometry as u32, lod_level));
                }
                self.add_node(node_id, geometry as u32, lod_level);
            }
            i = i + 1;
        }
        assert(node_ids@.take(i as int) =~= node_ids@);
    }

    /// The batches.
    pub fn batches(&self) -> (r: &Vec<RenderBatch>)
        ensures
            model_of(r@) == self.model(),
    {
        &self.batches
    }

    /// The statistics.
    pub fn stats(&self) -> (r: BatchRenderStats)
        ensures
            r == self.spec_stats(),
    {
        self.stats
    }

    /// Whether there are no batches.
    pub fn is_empty(&self) -> (r: bool)
        ensures
            r == (self.model().len() == 0),
    {
        self.batches.len() == 0
    }

    /// How many nodes the batches have in all.
    pub fn total_nodes(&self) -> (r: u32)
        requires
            self.wf(),
        ensures
            r == node_total(self.model()),
    {
        self.stats.total_nodes
    }
}

/// The batches of some nodes, added in turn.
pub open spec fn batches_of(ids: Seq<u32>, nodes: Seq<NodeRec>) -> Seq<BatchModel>
    decreases ids.len(),
{
    if ids.len() == 0 {
        seq![]
    } else {
        let before = batches_of(ids.drop_last(), nodes);
        let n = nodes[ids.last() as int];
        if n.geometry < 0 {
            before
        } else {
            with_node(
                before,
                ids.last(),
                n.geometry as u32,
                position::spec_level(n.position) as u32,
            )
        }
    }
}

/// A place is that of a batch or just behind the last.
proof fn lemma_place_bounds(batches: Seq<BatchModel>, key: u32)
    ensures
        0 <= place_of(batches, key) <= batches.len(),
    decreases batches.len(),
{
    if batches.len() > 0 {
        lemma_place_bounds(batches.drop_last(), key);
    }
}

/// Places depend on materials and levels alone.
proof fn lemma_place_same_keys(a: Seq<BatchModel>, b: Seq<BatchModel>, key: u32)
    requires
        a.len() == b.len(),
        forall|i: int|
            0 <= i < a.len() ==> (#[trigger] a[i]).material_id == b[i].material_id
                && a[i].lod_level == b[i].lod_level,
    ensures
        place_of(a, key) == place_of(b, key),
    decreases a.len(),
{
    if a.len() > 0 {
        assert forall|i: int| 0 <= i < a.drop_last().len() implies (
        #[trigger] a.drop_last()[i]).material_id == b.drop_last()[i].material_id
            && a.drop_last()[i].lod_level == b.drop_last()[i].lod_level by {
            assert(a[i].material_id == b[i].material_id);
        }
        lemma_place_same_keys(a.drop_last(), b.drop_last(), key);
        assert(a[a.len() - 1].material_id == b[b.len() - 1].material_id);
    }
}

/// One more node in a batch is one more in all.
proof fn lemma_total_update(m: Seq<BatchModel>, p: int, node_id: u32)
    requires
        0 <= p < m.len(),
    ensures
        node_total(
            m.update(p, BatchModel { node_ids: m[p].node_ids.push(node_id), ..m[p] }),
        ) == node_total(m) + 1,
    decreases m.len(),
{
    let n = m.update(p, BatchModel { node_ids: m[p].node_ids.push(node_id), ..m[p] });
    if p < m.len() - 1 {
        lemma_total_update(m.drop_last(), p, node_id);
        assert(n.drop_last() =~= m.drop_last().update(
            p,
            BatchModel {
                node_ids: m.drop_last()[p].node_ids.push(node_id),
                ..m.drop_last()[p]
            },
        ));
    } else {
        assert(n.drop_last() =~= m.drop_last());
    }
}

/// The first batches have no more nodes than all.
proof fn lemma_total_prefix(m: Seq<BatchModel>, n: int)
    requires
        0 <= n <= m.len(),
    ensures
        0 <= node_total(m.take(n)) <= node_total(m),
    decreases m.len(),
{
    if m.len() == 0 {
        assert(m.take(n) =~= m);
    } else if n == m.len() {
        assert(m.take(n) =~= m);
        lemma_total_prefix(m.drop_last(), n - 1);
    } else {
        lemma_total_prefix(m.drop_last(), n);
        assert(m.take(n) =~= m.drop_last().take(n));
    }
}

/// Every node that is added is in a batch of its key.
pub proof fn law_added_node_is_found(
    batches: Seq<BatchModel>,
    node_id: u32,
    material_id: u32,
    lod_level: u32,
) -> (p: int)
    ensures
        ({
            let after = with_node(batches, node_id, material_id, lod_level);
            &&& 0 <= p < after.len()
            &&& after[p].node_ids.last() == node_id
            &&& after[p].node_ids.len() > 0
            &&& batch_key(after[p].material_id, after[p].lod_level) == batch_key(
                material_id,
                lod_level,
            )
        }),
{
    let key = batch_key(material_id, lod_level);
    lemma_place_bounds(batches, key);
    lemma_place_key(batches, key);
    place_of(batches, key)
}

/// The batch at the place of a key has that key.
proof fn lemma_place_key(batches: Seq<BatchModel>, key: u32)
    ensures
        0 <= place_of(batches, key) < batches.len() ==> batch_key(
            batches[place_of(batches, key)].material_id,
            batches[place_of(batches, key)].lod_level,
        ) == key,
    decreases batches.len(),
{
    if batches.len() > 0 {
        lemma_place_bounds(batches.drop_last(), key);
        lemma_place_key(batches.drop_last(), key);
    }
}

impl Default for BatchRenderer {
    /// A renderer that is switched on and has no batches.
    fn default() -> (r: Self)
        ensures
            r.wf(),
            r.model() == Seq::<BatchModel>::empty(),
            r.spec_enabled(),
            stats_of(r.spec_stats(), r.model()),
    {
        Self::new(true)
    }
}

/// Nodes share a batch only if they agree in material and level.
pub proof fn law_keys_tell_apart(m1: u32, l1: u32, m2: u32, l2: u32)
    requires
        m1 < 0x1000_0000,
        m2 < 0x1000_0000,
        l1 < 16,
        l2 < 16,
    ensures
        batch_key(m1, l1) == batch_key(m2, l2) <==> m1 == m2 && l1 == l2,
{
    assert((m1 << 4u32) | l1 == (m2 << 4u32) | l2 ==> m1 == m2 && l1 == l2) by (bit_vector)
        requires
            m1 < 0x1000_0000,
            m2 < 0x1000_0000,
            l1 < 16,
            l2 < 16,
    ;
}

/// A node that is added is one more node in one batch: every other batch stays as it is, and
/// no batch loses a node.
pub proof fn law_adding_changes_one_batch(
    batches: Seq<BatchModel>,
    node_id: u32,
    material_id: u32,
    lod_level: u32,
)
    ensures
        ({
            let after = with_node(batches, node_id, material_id, lod_level);
            let key = batch_key(material_id, lod_level);
            &&& batches.len() <= after.len() <= batches.len() + 1
            &&& forall|i: int|
                #![trigger after[i]]
                0 <= i < batches.len() ==> after[i].material_id == batches[i].material_id
                    && after[i].lod_level == batches[i].lod_level && (after[i].node_ids
                    == batches[i].node_ids || (after[i].node_ids == batches[i].node_ids.push(
                    node_id,
                ) && after.len() == batches.len() && batch_key(
                    batches[i].material_id,
                    batches[i].lod_level,
                ) == key))
            &&& after.len() > batches.len() ==> after.last().node_ids == seq![node_id]
                && after.last().material_id == material_id && after.last().lod_level == lod_level
        }),
{
    let key = batch_key(material_id, lod_level);
    lemma_place_bounds(batches, key);
    if place_of(batches, key) < batches.len() {
        lemma_place_key(batches, key);
    }
}

/// The batches of some nodes hold those of them that have a geometry, and no others, each in
/// a batch of its own geometry and level.
pub proof fn law_batches_hold_their_nodes(ids: Seq<u32>, nodes: Seq<NodeRec>)
    ensures
        forall|p: int, j: int|
            #![trigger batches_of(ids, nodes)[p].node_ids[j]]
            0 <= p < batches_of(ids, nodes).len() && 0 <= j < batches_of(
                ids,
                nodes,
            )[p].node_ids.len() ==> in_its_batch(ids, nodes, batches_of(ids, nodes)[p], j),
        forall|k: int|
            #![trigger ids[k]]
            0 <= k < ids.len() && nodes[ids[k] as int].geometry >= 0 ==> exists|p: int|
                0 <= p < batches_of(ids, nodes).len() && (#[trigger] batches_of(
                    ids,
                    nodes,
                )[p]).node_ids.contains(ids[k]),
    decreases ids.len(),
{
    if ids.len() > 0 {
        let short = ids.drop_last();
        let before = batches_of(short, nodes);
        let after = batches_of(ids, nodes);
        let id = ids.last();
        let n = nodes[id as int];
        law_batches_hold_their_nodes(short, nodes);
        let (m, l) = (n.geometry as u32, position::spec_level(n.position) as u32);
        if n.geometry >= 0 {
            law_adding_changes_one_batch(before, id, m, l);
            let place = law_added_node_is_found(before, id, m, l);
            let last = after[place].node_ids.len() - 1;
            assert(after[place].node_ids[last] == id);
        }
        assert forall|p: int, j: int|
            #![trigger after[p].node_ids[j]]
            0 <= p < after.len() && 0 <= j < after[p].node_ids.len() implies in_its_batch(
            ids,
            nodes,
            after[p],
            j,
        ) by {
            assert(ids[ids.len() - 1] == id);
            if p < before.len() && j < before[p].node_ids.len() {
                let old_id = before[p].node_ids[j];
                assert(in_its_batch(short, nodes, before[p], j));
                let k = choose|k: int| 0 <= k < short.len() && short[k] == old_id;
                assert(ids[k] == old_id);
                assert(after[p].node_ids[j] == old_id);
            } else {
                assert(after[p].node_ids[j] == id);
            }
        }
        assert forall|k: int|
            #![trigger ids[k]]
            0 <= k < ids.len() && nodes[ids[k] as int].geometry >= 0 implies exists|p: int|
            0 <= p < after.len() && (#[trigger] after[p]).node_ids.contains(ids[k]) by {
            if k < short.len() {
                assert(short[k] == ids[k]);
                let p = choose|p: int|
                    0 <= p < before.len() && (#[trigger] before[p]).node_ids.contains(ids[k]);
                let j = choose|j: int|
                    0 <= j < before[p].node_ids.len() && before[p].node_ids[j] == ids[k];
                assert(after[p].node_ids[j] == ids[k]);
                assert(after[p].node_ids.contains(ids[k]));
            } else {
                let place = law_added_node_is_found(before, id, m, l);
                assert(after[place].node_ids.contains(id));
            }
        }
    }
}

/// A node of a batch is one of those that were to be drawn, has a geometry, and agrees with
/// the batch in geometry and level.
pub open spec fn in_its_batch(
    ids: Seq<u32>,
    nodes: Seq<NodeRec>,
    batch: BatchModel,
    j: int,
) -> bool {
    let id = batch.node_ids[j];
    let n = nodes[id as int];
    &&& ids.contains(id)
    &&& n.geometry >= 0
    &&& batch_key(batch.material_id, batch.lod_level) == batch_key(
        n.geometry as u32,
        position::spec_level(n.position) as u32,
    )
}

} // verus!

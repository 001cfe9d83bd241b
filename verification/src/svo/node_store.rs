//! Flat storage for the nodes of the octree.
//!
//! A node is four 64-bit words in one contiguous array:
//! - word 0: the encoded position
//! - word 1: geometry (24 bits), child pointer (24), child existence (8), child
//!   pointer count less one (3), geometry in flight (1), spare (1), node type
//!   (2), request in flight (1)
//! - word 2: request id (19 bits), all children are leaves (1), dirty (1),
//!   spare (43)
//! - word 3: spare
//!
//! Slots are handed out by a [`HierarchicalBitSet`].

use crate::bits;
use crate::svo::hierarchical_bitset;
use crate::svo::hierarchical_bitset::{HierarchicalBitSet, CAPACITY, SET_FULL};
use vstd::prelude::*;
use vstd::slice::*;

verus! {

/// The largest value of a child pointer field; also the null child pointer.
pub const NODE_ID_MASK: u32 = 0xff_ffff;

/// The largest value of a geometry field; also the null geometry.
pub const GEOMETRY_ID_MASK: u32 = 0xff_ffff;

/// The largest geometry id that is neither null nor empty.
pub const MAX_GEOMETRY_ID: u32 = 0xff_fffd;

/// The largest request id.
pub const REQUEST_ID_MASK: u32 = 0x7_ffff;

/// How many slots the array grows by.
pub const INCREMENT_SIZE: u32 = 0x1_0000;

/// What a node is.
#[derive(Debug, Clone, Copy, PartialEq, Eq, Structural)]
pub enum NodeType {
    /// The slot is not in use.
    Unused,
    /// The node holds geometry.
    Leaf,
    /// The node holds a pointer to its children.
    Inner,
    /// The node waits for its contents.
    Pending,
}

impl NodeType {
    /// The two bits that stand for the type.
    pub open spec fn spec_code(self) -> u64 {
        match self {
            NodeType::Unused => 0,
            NodeType::Leaf => 1,
            NodeType::Inner => 2,
            NodeType::Pending => 3,
        }
    }

    /// The two bits that stand for the type.
    pub fn code(self) -> (r: u64)
        ensures
            r == self.spec_code(),
            r <= 3,
    {
        match self {
            NodeType::Unused => 0,
            NodeType::Leaf => 1,
            NodeType::Inner => 2,
            NodeType::Pending => 3,
        }
    }
}

/// The contents of a node's four words, field by field.
#[verifier::ext_equal]
pub struct NodeRec {
    pub position: u64,
    /// -1 for none, -2 for empty, else an id.
    pub geometry: int,
    /// -1 for none, else the id of the first child.
    pub child_ptr: int,
    pub child_existence: int,
    pub child_ptr_count: int,
    pub geometry_in_flight: bool,
    pub spare_flag: bool,
    pub node_type: NodeType,
    pub request_in_flight: bool,
    pub request: int,
    pub all_children_are_leaf: bool,
    pub dirty: bool,
    pub spare_bits: u64,
    pub spare_word: u64,
}

/// What a 24-bit geometry field stands for.
pub open spec fn geometry_of(v: u64) -> int {
    if v == GEOMETRY_ID_MASK {
        -1
    } else if v == GEOMETRY_ID_MASK - 1 {
        -2
    } else {
        v as int
    }
}

/// What a 24-bit child pointer field stands for.
pub open spec fn child_ptr_of(v: u64) -> int {
    if v == NODE_ID_MASK {
        -1
    } else {
        v as int
    }
}

/// What a two-bit type field stands for.
pub open spec fn node_type_of(v: u64) -> NodeType {
    if v == 1 {
        NodeType::Leaf
    } else if v == 2 {
        NodeType::Inner
    } else if v == 3 {
        NodeType::Pending
    } else {
        NodeType::Unused
    }
}

/// The node that four words describe.
pub open spec fn decode(w0: u64, w1: u64, w2: u64, w3: u64) -> NodeRec {
    NodeRec {
        position: w0,
        geometry: geometry_of(bits::field(w1, 0, 24)),
        child_ptr: child_ptr_of(bits::field(w1, 24, 24)),
        child_existence: bits::field(w1, 48, 8) as int,
        child_ptr_count: bits::field(w1, 56, 3) + 1,
        geometry_in_flight: bits::field(w1, 59, 1) == 1,
        spare_flag: bits::field(w1, 60, 1) == 1,
        node_type: node_type_of(bits::field(w1, 61, 2)),
        request_in_flight: bits::field(w1, 63, 1) == 1,
        request: bits::field(w2, 0, 19) as int,
        all_children_are_leaf: bits::field(w2, 19, 1) == 1,
        dirty: bits::field(w2, 20, 1) == 1,
        spare_bits: bits::field(w2, 21, 43),
        spare_word: w3,
    }
}

/// A node as it is when its slot has just been handed out or given back.
pub open spec fn fresh_rec() -> NodeRec {
    NodeRec {
        position: u64::MAX,
        geometry: -1,
        child_ptr: -1,
        child_existence: 0,
        child_ptr_count: 1,
        geometry_in_flight: false,
        spare_flag: false,
        node_type: NodeType::Unused,
        request_in_flight: false,
        request: REQUEST_ID_MASK as int,
        all_children_are_leaf: false,
        dirty: false,
        spare_bits: 0,
        spare_word: 0,
    }
}

/// A slot that has never been handed out.
pub open spec fn zero_rec() -> NodeRec {
    decode(0, 0, 0, 0)
}

/// How many slots there are once `index` is among them.
pub open spec fn slots_for(slots: int, index: int, limit: int) -> int {
    if index < slots {
        slots
    } else if index + INCREMENT_SIZE <= limit {
        index + INCREMENT_SIZE
    } else if index + 1 <= limit {
        limit
    } else {
        index + 1
    }
}

/// `nodes` with unused slots appended until there are `slots`.
pub open spec fn grown(nodes: Seq<NodeRec>, slots: int) -> Seq<NodeRec> {
    Seq::new(
        if slots <= nodes.len() { nodes.len() } else { slots as nat },
        |i: int|
            if i < nodes.len() {
                nodes[i]
            } else {
                zero_rec()
            },
    )
}

/// `nodes` with the slots `lo..hi` that are in `which` made fresh.
pub open spec fn cleared(nodes: Seq<NodeRec>, lo: int, hi: int, which: Set<int>) -> Seq<NodeRec> {
    Seq::new(
        nodes.len(),
        |i: int|
            if lo <= i < hi && which.contains(i) {
                fresh_rec()
            } else {
                nodes[i]
            },
    )
}

/// The two words that describe a node on the graphics processor: the position,
/// and from bit 0 upwards the geometry (24 bits), the flags (8 bits: request in
/// flight, a clear bit, child pointer count less one, all children are leaves)
/// and the child pointer (24 bits).
pub open spec fn compact(n: NodeRec) -> (u64, u64) {
    let geometry = if n.geometry == -1 {
        0xff_ffff
    } else if n.geometry == -2 {
        0xff_fffe
    } else {
        n.geometry
    };
    let child = if n.child_ptr == -1 {
        0xff_ffff
    } else {
        n.child_ptr
    };
    let flags = (if n.request_in_flight { 1int } else { 0 }) + (n.child_ptr_count - 1) * 4 + (
    if n.all_children_are_leaf { 32int } else { 0 });
    (n.position, (geometry + flags * 0x100_0000 + child * 0x1_0000_0000) as u64)
}

/// Node slots in one flat array.
pub struct NodeStore {
    data: Vec<u64>,
    allocation_set: HierarchicalBitSet,
}

/// The words of a fresh node.
proof fn lemma_fresh()
    ensures
        decode(u64::MAX, 0xffff_ffff_ffff, 0x7_ffff, 0) == fresh_rec(),
{
    bits::lemma_mask_values();
    assert((1u64 << 43u64) == 0x800_0000_0000) by (bit_vector);
    let w1 = 0xffff_ffff_ffffu64;
    let w2 = 0x7_ffffu64;
    assert((w1 >> 0u64) & 0xff_ffff == 0xff_ffff && (w1 >> 24u64) & 0xff_ffff == 0xff_ffff && (w1
        >> 48u64) & 0xff == 0 && (w1 >> 56u64) & 7 == 0 && (w1 >> 59u64) & 1 == 0 && (w1 >> 60u64)
        & 1 == 0 && (w1 >> 61u64) & 3 == 0 && (w1 >> 63u64) & 1 == 0 && (w2 >> 0u64) & 0x7_ffff
        == 0x7_ffff && (w2 >> 19u64) & 1 == 0 && (w2 >> 20u64) & 1 == 0 && (w2 >> 21u64)
        & 0x7ff_ffff_ffff == 0) by (bit_vector)
        requires
            w1 == 0xffff_ffff_ffffu64,
            w2 == 0x7_ffffu64,
    ;
}

impl View for NodeStore {
    type V = Seq<NodeRec>;

    closed spec fn view(&self) -> Seq<NodeRec> {
        Seq::new((self.data@.len() / 4) as nat, |i: int| self.rec(i))
    }
}

impl NodeStore {
    /// Word `k` of slot `i`.
    closed spec fn word(&self, i: int, k: int) -> u64 {
        self.data@[4 * i + k]
    }

    /// The node in slot `i`.
    closed spec fn rec(&self, i: int) -> NodeRec {
        decode(self.word(i, 0), self.word(i, 1), self.word(i, 2), self.word(i, 3))
    }

    /// The slots that are in use.
    pub closed spec fn allocated(&self) -> Set<int> {
        self.allocation_set@
    }

    /// How many slots may be in use at once.
    pub closed spec fn limit(&self) -> int {
        self.allocation_set.limit_spec()
    }

    /// The parts of the store are consistent on their own.
    closed spec fn base_wf(&self) -> bool {
        &&& self.allocation_set.wf()
        &&& self.data@.len() % 4 == 0
    }

    /// The store is consistent: every slot in use exists.
    pub closed spec fn wf(&self) -> bool {
        &&& self.base_wf()
        &&& forall|i: int|
            #[trigger] self.allocation_set@.contains(i) ==> 0 <= i < self.data@.len() / 4
    }

    /// What a consistent store guarantees.
    pub proof fn lemma_wf(&self)
        requires
            self.wf(),
        ensures
            self.allocated().finite(),
            self.allocated().len() <= self.limit() <= CAPACITY,
            forall|i: int| #[trigger]
                self.allocated().contains(i) ==> 0 <= i < self@.len() && i < CAPACITY,
    {
        self.allocation_set.lemma_wf();
    }

    /// The fields of a stored node keep to their widths.
    pub proof fn lemma_rec_bounds(&self, i: int)
        requires
            0 <= i < self@.len(),
        ensures
            -2 <= self@[i].geometry <= MAX_GEOMETRY_ID,
            -1 <= self@[i].child_ptr < NODE_ID_MASK,
            0 <= self@[i].child_existence <= 255,
            1 <= self@[i].child_ptr_count <= 8,
            0 <= self@[i].request <= REQUEST_ID_MASK,
    {
        let w1 = self.word(i, 1);
        let w2 = self.word(i, 2);
        bits::lemma_mask_values();
        bits::lemma_field_bound(w1, 0, 24);
        bits::lemma_field_bound(w1, 24, 24);
        bits::lemma_field_bound(w1, 48, 8);
        bits::lemma_field_bound(w1, 56, 3);
        bits::lemma_field_bound(w2, 0, 19);
    }

    /// Creates an empty store for at most `max_node_count` nodes.
    pub fn new(max_node_count: u32) -> (r: Self)
        requires
            max_node_count < NODE_ID_MASK,
        ensures
            r.wf(),
            r.allocated() == Set::<int>::empty(),
            r.limit() == max_node_count,
            r@ == Seq::new(INCREMENT_SIZE as nat, |i: int| zero_rec()),
    {
        let r = Self {
            data: vec![0u64; 262144],
            allocation_set: HierarchicalBitSet::new(max_node_count),
        };
        assert(r@ =~= Seq::new(INCREMENT_SIZE as nat, |i: int| zero_rec()));
        r
    }

    /// Reads word `k` of slot `node_id`.
    fn get(&self, node_id: u32, k: usize) -> (r: u64)
        requires
            node_id < self@.len(),
            k < 4,
        ensures
            r == self.word(node_id as int, k as int),
    {
        assert(self.data.len() >= 4 * self@.len());
        self.data[node_id as usize * 4 + k]
    }

    /// Writes word `k` of slot `node_id`.
    fn put(&mut self, node_id: u32, k: usize, v: u64)
        requires
            node_id < old(self)@.len(),
            k < 4,
        ensures
            final(self).allocation_set == old(self).allocation_set,
            final(self).data@.len() == old(self).data@.len(),
            forall|i: int, j: int|
                0 <= i && 0 <= j < 4 && 4 * i + j < old(self).data@.len() ==> (
                #[trigger] final(self).word(i, j)) == (if i == node_id && j == k {
                    v
                } else {
                    old(self).word(i, j)
                }),
    {
        assert(self.data.len() >= 4 * self@.len());
        let idx: usize = node_id as usize * 4 + k;
        self.data.set(idx, v);
    }

    /// Makes sure that slot `index` exists.
    fn ensure_sized(&mut self, index: u32)
        requires
            old(self).base_wf(),
            index < CAPACITY,
        ensures
            final(self).base_wf(),
            final(self).allocation_set == old(self).allocation_set,
            final(self)@ == grown(
                old(self)@,
                slots_for(old(self)@.len() as int, index as int, old(self).limit()),
            ),
            index < final(self)@.len(),
    {
        proof {
            self.allocation_set.lemma_wf();
        }
        let required: usize = (index as usize + 1) * 4;
        if required > self.data.len() {
            let mut new_size: usize = index as usize + INCREMENT_SIZE as usize;
            let limit: usize = self.allocation_set.limit() as usize;
            if new_size > limit {
                new_size = limit;
            }
            if new_size < index as usize + 1 {
                new_size = index as usize + 1;
            }
            self.data.resize(new_size * 4, 0);
            proof {
                let before = old(self).data@;
                assert forall|i: int| 0 <= i < before.len() implies self.data@[i]
                    == #[trigger] before[i] by {
                    assert(self.data@.subrange(0, before.len() as int)[i] == before[i]);
                }
            }
        }
        assert(self@ =~= grown(
            old(self)@,
            slots_for(old(self)@.len() as int, index as int, old(self).limit()),
        ));
    }

    /// Makes a slot fresh.
    fn clear(&mut self, node_id: u32)
        requires
            old(self).base_wf(),
            node_id < old(self)@.len(),
        ensures
            final(self).base_wf(),
            final(self).allocation_set == old(self).allocation_set,
            final(self)@ == old(self)@.update(node_id as int, fresh_rec()),
    {
        self.put(node_id, 0, u64::MAX);
        self.put(node_id, 1, 0xffff_ffff_ffff);
        self.put(node_id, 2, 0x7_ffff);
        self.put(node_id, 3, 0);
        proof {
            lemma_fresh();
        }
        assert(self@ =~= old(self)@.update(node_id as int, fresh_rec()));
    }

    /// Hands out the lowest free slot, made fresh; `None` if the limit is
    /// reached.
    pub fn allocate(&mut self) -> (r: Option<u32>)
        requires
            old(self).wf(),
        ensures
            final(self).wf(),
            final(self).limit() == old(self).limit(),
            r is None <==> old(self).allocated().len() >= old(self).limit(),
            r is None ==> *final(self) == *old(self),
            r matches Some(id) ==> {
                &&& hierarchical_bitset::lowest_free_run(old(self).allocated(), id as int, 1)
                &&& id <= old(self).allocated().len()
                &&& id < final(self)@.len()
                &&& final(self).allocated() == old(self).allocated().insert(id as int)
                &&& final(self)@ == grown(
                    old(self)@,
                    slots_for(old(self)@.len() as int, id as int, old(self).limit()),
                ).update(id as int, fresh_rec())
            },
    {
        proof {
            self.allocation_set.lemma_wf();
        }
        let id: u32 = self.allocation_set.allocate_next();
        if id == SET_FULL {
            return None;
        }
        assert(self@ =~= old(self)@);
        self.ensure_sized(id);
        self.clear(id);
        assert forall|i: int| #[trigger] self.allocation_set@.contains(i) implies 0 <= i
            < self.data@.len() / 4 by {
            if i != id {
                assert(old(self).allocation_set@.contains(i));
            }
            assert(self.data@.len() / 4 == self@.len());
        }
        Some(id)
    }

    /// Hands out `count` consecutive slots at the lowest place where they are
    /// all free, made fresh, and returns the first; `None` if `count` is zero,
    /// the limit does not allow them or there is no such place.
    pub fn allocate_contiguous(&mut self, count: u32) -> (r: Option<u32>)
        requires
            old(self).wf(),
            count <= 64,
        ensures
            final(self).wf(),
            final(self).limit() == old(self).limit(),
            r is None <==> {
                ||| count == 0
                ||| old(self).allocated().len() + count > old(self).limit()
                ||| !hierarchical_bitset::has_free_run(old(self).allocated(), count as int)
            },
            r is None ==> *final(self) == *old(self),
            r matches Some(id) ==> {
                &&& hierarchical_bitset::lowest_free_run(
                    old(self).allocated(),
                    id as int,
                    count as int,
                )
                &&& id + count <= final(self)@.len()
                &&& id + count <= CAPACITY
                &&& final(self).allocated() == old(self).allocated().union(
                    hierarchical_bitset::index_range(id as int, id + count),
                )
                &&& final(self)@ == cleared(
                    grown(
                        old(self)@,
                        slots_for(old(self)@.len() as int, id + count - 1, old(self).limit()),
                    ),
                    id as int,
                    id + count,
                    final(self).allocated(),
                )
            },
    {
        if count == 0 {
            return None;
        }
        let id: u32 = self.allocation_set.allocate_next_consecutive(count);
        if id == SET_FULL {
            return None;
        }
        assert(self@ =~= old(self)@);
        self.ensure_sized(id + count - 1);
        let ghost big = self@;
        let ghost set = self.allocation_set;
        let mut i: u32 = 0;
        assert(self@ =~= cleared(big, id as int, id as int, set@));
        while i < count
            invariant
                self.base_wf(),
                self.allocation_set == set,
                i <= count,
                id + count <= big.len(),
                id + count <= CAPACITY,
                set@ == old(self).allocated().union(
                    hierarchical_bitset::index_range(id as int, id + count),
                ),
                self@ == cleared(big, id as int, id + i, set@),
            decreases count - i,
        {
            self.clear(id + i);
            i = i + 1;
            assert(self@ =~= cleared(big, id as int, id + i, set@));
        }
        Some(id)
    }

    /// Gives a slot back.
    pub fn free(&mut self, node_id: u32)
        requires
            old(self).wf(),
            node_id < CAPACITY,
        ensures
            final(self).wf(),
            final(self).limit() == old(self).limit(),
            final(self).allocated() == old(self).allocated().remove(node_id as int),
            final(self)@ == cleared(
                old(self)@,
                node_id as int,
                node_id + 1,
                old(self).allocated(),
            ),
    {
        self.free_contiguous(node_id, 1);
        assert(old(self).allocated().difference(
            hierarchical_bitset::index_range(node_id as int, node_id + 1),
        ) =~= old(self).allocated().remove(node_id as int));
    }

    /// Gives back those of the `count` slots from `base_node_id` that are in
    /// use.
    pub fn free_contiguous(&mut self, base_node_id: u32, count: u32)
        requires
            old(self).wf(),
            base_node_id + count <= CAPACITY,
        ensures
            final(self).wf(),
            final(self).limit() == old(self).limit(),
            final(self).allocated() == old(self).allocated().difference(
                hierarchical_bitset::index_range(base_node_id as int, base_node_id + count),
            ),
            final(self)@ == cleared(
                old(self)@,
                base_node_id as int,
                base_node_id + count,
                old(self).allocated(),
            ),
    {
        let mut i: u32 = 0;
        assert(self@ =~= cleared(
            old(self)@,
            base_node_id as int,
            base_node_id + i,
            old(self).allocated(),
        ));
        assert(self.allocated() =~= old(self).allocated().difference(
            hierarchical_bitset::index_range(base_node_id as int, base_node_id + i),
        ));
        while i < count
            invariant
                self.wf(),
                old(self).wf(),
                i <= count,
                base_node_id + count <= CAPACITY,
                self.limit() == old(self).limit(),
                self.allocated() == old(self).allocated().difference(
                    hierarchical_bitset::index_range(base_node_id as int, base_node_id + i),
                ),
                self@ == cleared(
                    old(self)@,
                    base_node_id as int,
                    base_node_id + i,
                    old(self).allocated(),
                ),
            decreases count - i,
        {
            let node_id: u32 = base_node_id + i;
            let ghost prev = *self;
            let was_set: bool = self.allocation_set.free(node_id);
            assert(self@ =~= prev@);
            if was_set {
                self.clear(node_id);
            }
            i = i + 1;
            assert(self@ =~= cleared(
                old(self)@,
                base_node_id as int,
                base_node_id + i,
                old(self).allocated(),
            ));
            assert(self.allocated() =~= old(self).allocated().difference(
                hierarchical_bitset::index_range(base_node_id as int, base_node_id + i),
            ));
        }
    }

    /// Copies all that one node holds to another.
    pub fn copy_node(&mut self, from_id: u32, to_id: u32)
        requires
            old(self).wf(),
            old(self).allocated().contains(from_id as int),
            old(self).allocated().contains(to_id as int),
        ensures
            final(self).wf(),
            final(self).allocated() == old(self).allocated(),
            final(self).limit() == old(self).limit(),
            final(self)@ == old(self)@.update(to_id as int, old(self)@[from_id as int]),
    {
        let w0: u64 = self.get(from_id, 0);
        let w1: u64 = self.get(from_id, 1);
        let w2: u64 = self.get(from_id, 2);
        let w3: u64 = self.get(from_id, 3);
        self.put(to_id, 0, w0);
        self.put(to_id, 1, w1);
        self.put(to_id, 2, w2);
        self.put(to_id, 3, w3);
        assert(self@ =~= old(self)@.update(to_id as int, old(self)@[from_id as int]));
    }

    /// Sets a node's position.
    pub fn set_node_position(&mut self, node_id: u32, position: u64)
        requires
            old(self).wf(),
            node_id < old(self)@.len(),
        ensures
            final(self).wf(),
            final(self).allocated() == old(self).allocated(),
            final(self).limit() == old(self).limit(),
            final(self)@ == old(self)@.update(
                node_id as int,
                NodeRec { position, ..old(self)@[node_id as int] },
            ),
    {
        self.put(node_id, 0, position);
        assert(self@ =~= old(self)@.update(
            node_id as int,
            NodeRec { position, ..old(self)@[node_id as int] },
        ));
    }

    /// A node's position.
    pub fn node_position(&self, node_id: u32) -> (r: u64)
        requires
            node_id < self@.len(),
        ensures
            r == self@[node_id as int].position,
    {
        self.get(node_id, 0)
    }

    /// Whether a slot is in use.
    pub fn node_exists(&self, node_id: u32) -> (r: bool)
        requires
            self.wf(),
            node_id < CAPACITY,
        ensures
            r == self.allocated().contains(node_id as int),
    {
        self.allocation_set.is_set(node_id)
    }

    /// A node's geometry: -1 for none, -2 for empty, else its id.
    pub fn get_node_geometry(&self, node_id: u32) -> (r: i32)
        requires
            node_id < self@.len(),
        ensures
            r == self@[node_id as int].geometry,
    {
        proof {
            bits::lemma_mask_values();
        }
        let v: u64 = bits::get_field(self.get(node_id, 1), 0, 24);
        if v == GEOMETRY_ID_MASK as u64 {
            -1
        } else if v == GEOMETRY_ID_MASK as u64 - 1 {
            -2
        } else {
            v as i32
        }
    }

    /// Sets a node's geometry: -1 for none, -2 for empty, else an id.
    pub fn set_node_geometry(&mut self, node_id: u32, geometry_id: i32)
        requires
            old(self).wf(),
            node_id < old(self)@.len(),
            -2 <= geometry_id <= MAX_GEOMETRY_ID,
        ensures
            final(self).wf(),
            final(self).allocated() == old(self).allocated(),
            final(self).limit() == old(self).limit(),
            final(self)@ == old(self)@.update(
                node_id as int,
                NodeRec { geometry: geometry_id as int, ..old(self)@[node_id as int] },
            ),
    {
        let sentinel: u64 = if geometry_id == -1 {
            0xff_ffff
        } else if geometry_id == -2 {
            0xff_fffe
        } else {
            geometry_id as u64
        };
        let raw: u64 = self.get(node_id, 1);
        proof {
            bits::lemma_mask_values();
            bits::lemma_with_field(raw, 0, 24, sentinel);
        }
        self.put(node_id, 1, bits::set_field(raw, 0, 24, sentinel));
        assert(self@ =~= old(self)@.update(
            node_id as int,
            NodeRec { geometry: geometry_id as int, ..old(self)@[node_id as int] },
        ));
    }

    /// The id of a node's first child, or -1 if it has none.
    pub fn get_child_ptr(&self, node_id: u32) -> (r: i32)
        requires
            node_id < self@.len(),
        ensures
            r == self@[node_id as int].child_ptr,
    {
        proof {
            bits::lemma_mask_values();
        }
        let v: u64 = bits::get_field(self.get(node_id, 1), 24, 24);
        if v == NODE_ID_MASK as u64 {
            -1
        } else {
            v as i32
        }
    }

    /// Sets the id of a node's first child; -1 for none.
    pub fn set_child_ptr(&mut self, node_id: u32, ptr: i32)
        requires
            old(self).wf(),
            node_id < old(self)@.len(),
            -1 <= ptr < NODE_ID_MASK,
        ensures
            final(self).wf(),
            final(self).allocated() == old(self).allocated(),
            final(self).limit() == old(self).limit(),
            final(self)@ == old(self)@.update(
                node_id as int,
                NodeRec { child_ptr: ptr as int, ..old(self)@[node_id as int] },
            ),
    {
        let sentinel: u64 = if ptr == -1 {
            0xff_ffff
        } else {
            ptr as u64
        };
        let raw: u64 = self.get(node_id, 1);
        proof {
            bits::lemma_mask_values();
            bits::lemma_with_field(raw, 24, 24, sentinel);
        }
        self.put(node_id, 1, bits::set_field(raw, 24, 24, sentinel));
        assert(self@ =~= old(self)@.update(
            node_id as int,
            NodeRec { child_ptr: ptr as int, ..old(self)@[node_id as int] },
        ));
    }

    /// Sets the id of a node's request.
    pub fn set_node_request(&mut self, node_id: u32, request_id: u32)
        requires
            old(self).wf(),
            node_id < old(self)@.len(),
            request_id <= REQUEST_ID_MASK,
        ensures
            final(self).wf(),
            final(self).allocated() == old(self).allocated(),
            final(self).limit() == old(self).limit(),
            final(self)@ == old(self)@.update(
                node_id as int,
                NodeRec { request: request_id as int, ..old(self)@[node_id as int] },
            ),
    {
        let raw: u64 = self.get(node_id, 2);
        proof {
            bits::lemma_mask_values();
            bits::lemma_with_field(raw, 0, 19, request_id as u64);
        }
        self.put(node_id, 2, bits::set_field(raw, 0, 19, request_id as u64));
        assert(self@ =~= old(self)@.update(
            node_id as int,
            NodeRec { request: request_id as int, ..old(self)@[node_id as int] },
        ));
    }

    /// The id of a node's request.
    pub fn get_node_request(&self, node_id: u32) -> (r: u32)
        requires
            node_id < self@.len(),
        ensures
            r == self@[node_id as int].request,
    {
        proof {
            bits::lemma_mask_values();
        }
        let v: u64 = bits::get_field(self.get(node_id, 2), 0, 19);
        v as u32
    }

    /// Marks a request being worked on.
    pub fn mark_request_in_flight(&mut self, node_id: u32)
        requires
            old(self).wf(),
            node_id < old(self)@.len(),
        ensures
            final(self).wf(),
            final(self).allocated() == old(self).allocated(),
            final(self).limit() == old(self).limit(),
            final(self)@ == old(self)@.update(
                node_id as int,
                NodeRec { request_in_flight: true, ..old(self)@[node_id as int] },
            ),
    {
        let raw: u64 = self.get(node_id, 1);
        proof {
            bits::lemma_mask_values();
            bits::lemma_with_field(raw, 63, 1, 1);
        }
        self.put(node_id, 1, bits::set_field(raw, 63, 1, 1));
        assert(self@ =~= old(self)@.update(
            node_id as int,
            NodeRec { request_in_flight: true, ..old(self)@[node_id as int] },
        ));
    }

    /// Takes back the mark of a request being worked on.
    pub fn unmark_request_in_flight(&mut self, node_id: u32)
        requires
            old(self).wf(),
            node_id < old(self)@.len(),
        ensures
            final(self).wf(),
            final(self).allocated() == old(self).allocated(),
            final(self).limit() == old(self).limit(),
            final(self)@ == old(self)@.update(
                node_id as int,
                NodeRec { request_in_flight: false, ..old(self)@[node_id as int] },
            ),
    {
        let raw: u64 = self.get(node_id, 1);
        proof {
            bits::lemma_mask_values();
            bits::lemma_with_field(raw, 63, 1, 0);
        }
        self.put(node_id, 1, bits::set_field(raw, 63, 1, 0));
        assert(self@ =~= old(self)@.update(
            node_id as int,
            NodeRec { request_in_flight: false, ..old(self)@[node_id as int] },
        ));
    }

    /// Whether the node is marked for a request being worked on.
    pub fn is_node_request_in_flight(&self, node_id: u32) -> (r: bool)
        requires
            node_id < self@.len(),
        ensures
            r == self@[node_id as int].request_in_flight,
    {
        proof {
            bits::lemma_mask_values();
        }
        let v: u64 = bits::get_field(self.get(node_id, 1), 63, 1);
        v == 1
    }

    /// Records whether all children of a node are leaves.
    pub fn set_all_children_are_leaf(&mut self, node_id: u32, state: bool)
        requires
            old(self).wf(),
            node_id < old(self)@.len(),
        ensures
            final(self).wf(),
            final(self).allocated() == old(self).allocated(),
            final(self).limit() == old(self).limit(),
            final(self)@ == old(self)@.update(
                node_id as int,
                NodeRec { all_children_are_leaf: state, ..old(self)@[node_id as int] },
            ),
    {
        let v: u64 = if state {
            1
        } else {
            0
        };
        let raw: u64 = self.get(node_id, 2);
        proof {
            bits::lemma_mask_values();
            bits::lemma_with_field(raw, 19, 1, v);
        }
        self.put(node_id, 2, bits::set_field(raw, 19, 1, v));
        assert(self@ =~= old(self)@.update(
            node_id as int,
            NodeRec { all_children_are_leaf: state, ..old(self)@[node_id as int] },
        ));
    }

    /// Whether all children of a node are recorded as leaves.
    pub fn get_all_children_are_leaf(&self, node_id: u32) -> (r: bool)
        requires
            node_id < self@.len(),
        ensures
            r == self@[node_id as int].all_children_are_leaf,
    {
        proof {
            bits::lemma_mask_values();
        }
        let v: u64 = bits::get_field(self.get(node_id, 2), 19, 1);
        v == 1
    }

    /// Marks geometry being generated.
    pub fn mark_node_geometry_in_flight(&mut self, node_id: u32)
        requires
            old(self).wf(),
            node_id < old(self)@.len(),
        ensures
            final(self).wf(),
            final(self).allocated() == old(self).allocated(),
            final(self).limit() == old(self).limit(),
            final(self)@ == old(self)@.update(
                node_id as int,
                NodeRec { geometry_in_flight: true, ..old(self)@[node_id as int] },
            ),
    {
        let raw: u64 = self.get(node_id, 1);
        proof {
            bits::lemma_mask_values();
            bits::lemma_with_field(raw, 59, 1, 1);
        }
        self.put(node_id, 1, bits::set_field(raw, 59, 1, 1));
        assert(self@ =~= old(self)@.update(
            node_id as int,
            NodeRec { geometry_in_flight: true, ..old(self)@[node_id as int] },
        ));
    }

    /// Takes back the mark of geometry being generated.
    pub fn unmark_node_geometry_in_flight(&mut self, node_id: u32)
        requires
            old(self).wf(),
            node_id < old(self)@.len(),
        ensures
            final(self).wf(),
            final(self).allocated() == old(self).allocated(),
            final(self).limit() == old(self).limit(),
            final(self)@ == old(self)@.update(
                node_id as int,
                NodeRec { geometry_in_flight: false, ..old(self)@[node_id as int] },
            ),
    {
        let raw: u64 = self.get(node_id, 1);
        proof {
            bits::lemma_mask_values();
            bits::lemma_with_field(raw, 59, 1, 0);
        }
        self.put(node_id, 1, bits::set_field(raw, 59, 1, 0));
        assert(self@ =~= old(self)@.update(
            node_id as int,
            NodeRec { geometry_in_flight: false, ..old(self)@[node_id as int] },
        ));
    }

    /// Whether the node is marked for geometry being generated.
    pub fn is_node_geometry_in_flight(&self, node_id: u32) -> (r: bool)
        requires
            node_id < self@.len(),
        ensures
            r == self@[node_id as int].geometry_in_flight,
    {
        proof {
            bits::lemma_mask_values();
        }
        let v: u64 = bits::get_field(self.get(node_id, 1), 59, 1);
        v == 1
    }

    /// Records whether a node is dirty.
    pub fn set_dirty(&mut self, node_id: u32, dirty: bool)
        requires
            old(self).wf(),
            node_id < old(self)@.len(),
        ensures
            final(self).wf(),
            final(self).allocated() == old(self).allocated(),
            final(self).limit() == old(self).limit(),
            final(self)@ == old(self)@.update(
                node_id as int,
                NodeRec { dirty, ..old(self)@[node_id as int] },
            ),
    {
        let v: u64 = if dirty {
            1
        } else {
            0
        };
        let raw: u64 = self.get(node_id, 2);
        proof {
            bits::lemma_mask_values();
            bits::lemma_with_field(raw, 20, 1, v);
        }
        self.put(node_id, 2, bits::set_field(raw, 20, 1, v));
        assert(self@ =~= old(self)@.update(
            node_id as int,
            NodeRec { dirty, ..old(self)@[node_id as int] },
        ));
    }

    /// Whether a node is dirty.
    pub fn is_dirty(&self, node_id: u32) -> (r: bool)
        requires
            node_id < self@.len(),
        ensures
            r == self@[node_id as int].dirty,
    {
        proof {
            bits::lemma_mask_values();
        }
        let v: u64 = bits::get_field(self.get(node_id, 2), 20, 1);
        v == 1
    }

    /// What a node is.
    pub fn get_node_type(&self, node_id: u32) -> (r: NodeType)
        requires
            node_id < self@.len(),
        ensures
            r == self@[node_id as int].node_type,
    {
        proof {
            bits::lemma_mask_values();
        }
        let v: u64 = bits::get_field(self.get(node_id, 1), 61, 2);
        if v == 1 {
            NodeType::Leaf
        } else if v == 2 {
            NodeType::Inner
        } else if v == 3 {
            NodeType::Pending
        } else {
            NodeType::Unused
        }
    }

    /// Sets what a node is.
    pub fn set_node_type(&mut self, node_id: u32, node_type: NodeType)
        requires
            old(self).wf(),
            node_id < old(self)@.len(),
        ensures
            final(self).wf(),
            final(self).allocated() == old(self).allocated(),
            final(self).limit() == old(self).limit(),
            final(self)@ == old(self)@.update(
                node_id as int,
                NodeRec { node_type, ..old(self)@[node_id as int] },
            ),
    {
        let v: u64 = node_type.code();
        let raw: u64 = self.get(node_id, 1);
        proof {
            bits::lemma_mask_values();
            bits::lemma_with_field(raw, 61, 2, v);
        }
        self.put(node_id, 1, bits::set_field(raw, 61, 2, v));
        assert(self@ =~= old(self)@.update(
            node_id as int,
            NodeRec { node_type, ..old(self)@[node_id as int] },
        ));
    }

    /// Which of the eight children of a node exist, one bit each.
    pub fn get_node_child_existence(&self, node_id: u32) -> (r: u8)
        requires
            node_id < self@.len(),
        ensures
            r == self@[node_id as int].child_existence,
    {
        proof {
            bits::lemma_mask_values();
        }
        let v: u64 = bits::get_field(self.get(node_id, 1), 48, 8);
        v as u8
    }

    /// Sets which of the eight children of a node exist.
    pub fn set_node_child_existence(&mut self, node_id: u32, existence: u8)
        requires
            old(self).wf(),
            node_id < old(self)@.len(),
        ensures
            final(self).wf(),
            final(self).allocated() == old(self).allocated(),
            final(self).limit() == old(self).limit(),
            final(self)@ == old(self)@.update(
                node_id as int,
                NodeRec { child_existence: existence as int, ..old(self)@[node_id as int] },
            ),
    {
        let raw: u64 = self.get(node_id, 1);
        proof {
            bits::lemma_mask_values();
            bits::lemma_with_field(raw, 48, 8, existence as u64);
        }
        self.put(node_id, 1, bits::set_field(raw, 48, 8, existence as u64));
        assert(self@ =~= old(self)@.update(
            node_id as int,
            NodeRec { child_existence: existence as int, ..old(self)@[node_id as int] },
        ));
    }

    /// How many slots the child pointer covers.
    pub fn get_child_ptr_count(&self, node_id: u32) -> (r: u32)
        requires
            node_id < self@.len(),
        ensures
            r == self@[node_id as int].child_ptr_count,
    {
        proof {
            bits::lemma_mask_values();
        }
        let v: u64 = bits::get_field(self.get(node_id, 1), 56, 3);
        v as u32 + 1
    }

    /// Sets how many slots the child pointer covers.
    pub fn set_child_ptr_count(&mut self, node_id: u32, count: u32)
        requires
            old(self).wf(),
            node_id < old(self)@.len(),
            0 < count <= 8,
        ensures
            final(self).wf(),
            final(self).allocated() == old(self).allocated(),
            final(self).limit() == old(self).limit(),
            final(self)@ == old(self)@.update(
                node_id as int,
                NodeRec { child_ptr_count: count as int, ..old(self)@[node_id as int] },
            ),
    {
        let raw: u64 = self.get(node_id, 1);
        proof {
            bits::lemma_mask_values();
            bits::lemma_with_field(raw, 56, 3, (count - 1) as u64);
        }
        self.put(node_id, 1, bits::set_field(raw, 56, 3, (count - 1) as u64));
        assert(self@ =~= old(self)@.update(
            node_id as int,
            NodeRec { child_ptr_count: count as int, ..old(self)@[node_id as int] },
        ));
    }

    /// The two words that describe a node on the graphics processor; all ones
    /// for a slot that is not in use.
    pub fn write_node_compact(&self, node_id: u32) -> (r: (u64, u64))
        requires
            self.wf(),
            node_id < CAPACITY,
        ensures
            !self.allocated().contains(node_id as int) ==> r == (u64::MAX, u64::MAX),
            self.allocated().contains(node_id as int) ==> r == compact(self@[node_id as int]),
    {
        if !self.node_exists(node_id) {
            return (u64::MAX, u64::MAX);
        }
        proof {
            self.lemma_rec_bounds(node_id as int);
        }
        let pos: u64 = self.node_position(node_id);
        let mut flags: u64 = (self.get_child_ptr_count(node_id) as u64 - 1) * 4;
        if self.is_node_request_in_flight(node_id) {
            flags = flags + 1;
        }
        if self.get_all_children_are_leaf(node_id) {
            flags = flags + 32;
        }
        let geometry: i32 = self.get_node_geometry(node_id);
        let z: u64 = if geometry == -2 {
            0xff_fffe
        } else if geometry == -1 {
            0xff_ffff
        } else {
            geometry as u64
        };
        let child_ptr: i32 = self.get_child_ptr(node_id);
        let w: u64 = if child_ptr == -1 {
            0xff_ffff
        } else {
            child_ptr as u64
        };
        (pos, z + flags * 0x100_0000 + w * 0x1_0000_0000)
    }

    /// How many slots are in use.
    pub fn node_count(&self) -> (r: u32)
        requires
            self.wf(),
        ensures
            r == self.allocated().len(),
    {
        self.allocation_set.count()
    }

    /// The largest slot in use, or -1 if none is.
    pub fn end_node_id(&self) -> (r: i32)
        requires
            self.wf(),
        ensures
            hierarchical_bitset::is_top(self.allocated(), r as int),
            r < self@.len(),
            r < CAPACITY,
    {
        let r: i32 = self.allocation_set.max_index();
        proof {
            if r >= 0 {
                assert(self.allocation_set@.contains(r as int));
            }
        }
        r
    }

    /// The words of all slots up to the largest one in use.
    pub fn raw_data(&self) -> (r: &[u64])
        requires
            self.wf(),
        ensures
            exists|end: int|
                #![trigger hierarchical_bitset::is_top(self.allocated(), end)]
                hierarchical_bitset::is_top(self.allocated(), end) && r@.len() == 4 * (end + 1),
            r@.len() <= 4 * self@.len(),
            forall|i: int|
                0 <= i < r@.len() / 4 ==> #[trigger] self@[i] == decode(
                    r@[4 * i],
                    r@[4 * i + 1],
                    r@[4 * i + 2],
                    r@[4 * i + 3],
                ),
    {
        let end: i32 = self.end_node_id();
        let n: usize = ((end + 1) as usize) * 4;
        slice_subrange(self.data.as_slice(), 0, n)
    }
}

} // verus!

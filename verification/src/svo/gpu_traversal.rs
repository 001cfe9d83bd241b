//! What the graphics processor is given to walk the octree.

use crate::bits;
use crate::svo::node_manager::GpuNode;
use vstd::prelude::*;

verus! {

/// How many nodes one work group looks at.
pub const WORKGROUP_SIZE: u32 = 64;

/// How many visible nodes there is room for.
pub const MAX_VISIBLE_NODES: u32 = 16384;

/// How many work groups it takes to look at all nodes.
pub fn dispatch_groups(node_count: u32) -> (r: u32)
    requires
        node_count <= u32::MAX - 63,
    ensures
        r * 64 >= node_count,
        (r - 1) * 64 < node_count,
{
    (node_count + (WORKGROUP_SIZE - 1)) / WORKGROUP_SIZE
}

/// Byte `k` of a word, counted from the lowest.
pub open spec fn byte_of(w: u64, k: int) -> u64 {
    bits::field(w, (8 * k) as u64, 8)
}

/// The bytes are those of the words in turn, each from the lowest byte on or
/// each from the highest on.
pub open spec fn are_bytes_of(b: Seq<u8>, words: Seq<u64>, lowest_first: bool) -> bool {
    &&& b.len() == 8 * words.len()
    &&& forall|i: int, k: int|
        0 <= i < words.len() && 0 <= k < 8 ==> #[trigger] byte_of(words[i], k) == b[8 * i + (
        if lowest_first {
            k
        } else {
            7 - k
        })]
}

/// The bytes of some words as they lie in memory.
///
/// The bytes come from `bytemuck::cast_slice`, which looks at the same memory as
/// a slice of bytes: eight for each word, in the byte order of the machine. Which
/// order that is, is not said.
#[verifier::external_body]
fn cast_words(words: &Vec<u64>) -> (r: Vec<u8>)
    ensures
        are_bytes_of(r@, words@, true) || are_bytes_of(r@, words@, false),
{
    bytemuck::cast_slice::<u64, u8>(words).to_vec()
}

/// The words of some nodes: the position of each and then its data.
pub open spec fn node_words(nodes: Seq<GpuNode>) -> Seq<u64> {
    Seq::new(
        2 * nodes.len(),
        |i: int|
            if i % 2 == 0 {
                nodes[i / 2].position
            } else {
                nodes[i / 2].data
            },
    )
}

/// The bytes of some nodes as they are written to the graphics processor.
pub fn node_bytes(nodes: &Vec<GpuNode>) -> (r: Vec<u8>)
    ensures
        are_bytes_of(r@, node_words(nodes@), true) || are_bytes_of(r@, node_words(nodes@), false),
{
    let mut words: Vec<u64> = Vec::new();
    let mut i: usize = 0;
    while i < nodes.len()
        invariant
            i <= nodes@.len(),
            words@ =~= node_words(nodes@).take(2 * i),
        decreases nodes@.len() - i,
    {
        words.push(nodes[i].position);
        words.push(nodes[i].data);
        i = i + 1;
    }
    assert(words@ =~= node_words(nodes@));
    cast_words(&words)
}

/// The words of each node stand together: its position and then its data, in the order of the
/// nodes.
pub proof fn law_words_of_a_node(nodes: Seq<GpuNode>, i: int)
    requires
        0 <= i < nodes.len(),
    ensures
        node_words(nodes).len() == 2 * nodes.len(),
        node_words(nodes)[2 * i] == nodes[i].position,
        node_words(nodes)[2 * i + 1] == nodes[i].data,
{
}

} // verus!

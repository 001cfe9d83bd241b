//! Chunk storage with a palette: the blocks of a chunk as packed indices into a
//! list of the kinds of block that occur.

use crate::bits;
use crate::types::{BlockId, AIR, CHUNK_SIZE, CHUNK_VOLUME};
use std::collections::HashMap;
use vstd::prelude::*;
use vstd::std_specs::hash::*;

verus! {

broadcast use vstd::std_specs::hash::group_hash_axioms;

/// The number of bits that an index into a palette of this length takes.
pub open spec fn spec_bits_for_palette(len: int) -> int {
    if len <= 2 {
        1
    } else if len <= 4 {
        2
    } else if len <= 16 {
        4
    } else {
        8
    }
}

/// The number of bits that an index into a palette of this length takes.
fn bits_for_palette(len: usize) -> (r: u8)
    ensures
        r == spec_bits_for_palette(len as int),
{
    if len <= 2 {
        1
    } else if len <= 4 {
        2
    } else if len <= 16 {
        4
    } else {
        8
    }
}

/// A width that divides a word evenly.
spec fn width_ok(b: int) -> bool {
    b == 1 || b == 2 || b == 4 || b == 8
}

/// How many indices of `b` bits a word holds.
spec fn per_word(b: int) -> int {
    if b == 1 {
        64
    } else if b == 2 {
        32
    } else if b == 4 {
        16
    } else {
        8
    }
}

/// The index that is stored at place `i`, with `b` bits for each.
spec fn packed_at(p: Seq<u64>, i: int, b: int) -> u64 {
    bits::field(p[i / per_word(b)], offset(i, b) as u64, b as u64)
}

/// The bit at which place `i` starts in its word.
spec fn offset(i: int, b: int) -> int {
    (i % per_word(b)) * b
}

/// Places in the same word do not overlap.
proof fn lemma_offset(i: int, j: int, b: int)
    requires
        width_ok(b),
        0 <= i,
        0 <= j,
    ensures
        0 <= offset(i, b),
        offset(i, b) + b <= 64,
        0 <= i / per_word(b) <= i,
        i < CHUNK_VOLUME ==> i / per_word(b) < 512 * b,
        i != j && i / per_word(b) == j / per_word(b) ==> offset(i, b) + b <= offset(j, b) || offset(j, b)
            + b <= offset(i, b),
{
}

/// How many indices a word holds.
fn indices_per_u64(bits: u8) -> (r: usize)
    requires
        width_ok(bits as int),
    ensures
        r == per_word(bits as int),
        8 <= r <= 64,
{
    proof {
        let b = bits as int;
        if b == 1 {
            assert(64int / b == 64);
        } else if b == 2 {
            assert(64int / b == 32);
        } else if b == 4 {
            assert(64int / b == 16);
        } else {
            assert(64int / b == 8);
        }
    }
    64 / (bits as usize)
}

/// How many words the indices of a chunk take.
fn total_packed_u64s(bits: u8) -> (r: usize)
    requires
        width_ok(bits as int),
    ensures
        r == 512 * bits,
{
    let per: usize = indices_per_u64(bits);
    (CHUNK_VOLUME + per - 1) / per
}

/// Reads the index at place `idx`.
fn read_packed(packed: &Vec<u64>, idx: usize, bits: u8) -> (r: u8)
    requires
        width_ok(bits as int),
        idx < CHUNK_VOLUME,
        packed@.len() == 512 * bits,
    ensures
        r == packed_at(packed@, idx as int, bits as int),
{
    let per: usize = indices_per_u64(bits);
    proof {
        lemma_offset(idx as int, idx as int, bits as int);
        bits::lemma_mask_values();
    }
    let off: usize = (idx % per) * bits as usize;
    bits::get_field(packed[idx / per], off as u64, bits as u64) as u8
}

/// Writes the index at place `idx`.
fn write_packed(packed: &mut Vec<u64>, idx: usize, bits: u8, value: u8)
    requires
        width_ok(bits as int),
        idx < CHUNK_VOLUME,
        old(packed)@.len() == 512 * bits,
        value <= bits::low_mask(bits as u64),
    ensures
        final(packed)@.len() == old(packed)@.len(),
        forall|i: int|
            0 <= i < CHUNK_VOLUME ==> #[trigger] packed_at(final(packed)@, i, bits as int) == (if i
                == idx {
                value as u64
            } else {
                packed_at(old(packed)@, i, bits as int)
            }),
{
    let per: usize = indices_per_u64(bits);
    proof {
        lemma_offset(idx as int, idx as int, bits as int);
    }
    let off: usize = (idx % per) * bits as usize;
    let word: usize = idx / per;
    let raw: u64 = packed[word];
    packed.set(word, bits::set_field(raw, off as u64, bits as u64, value as u64));
    proof {
        bits::lemma_with_field(raw, off as u64, bits as u64, value as u64);
        assert forall|i: int| 0 <= i < CHUNK_VOLUME implies #[trigger] packed_at(
            packed@,
            i,
            bits as int,
        ) == (if i == idx {
            value as u64
        } else {
            packed_at(old(packed)@, i, bits as int)
        }) by {
            lemma_offset(i, idx as int, bits as int);
        }
    }
}

/// Stores the same indices with another width.
fn re_pack(packed: &Vec<u64>, old_bits: u8, new_bits: u8) -> (r: Vec<u64>)
    requires
        width_ok(old_bits as int),
        width_ok(new_bits as int),
        old_bits <= new_bits,
        packed@.len() == 512 * old_bits,
    ensures
        r@.len() == 512 * new_bits,
        forall|i: int|
            0 <= i < CHUNK_VOLUME ==> #[trigger] packed_at(r@, i, new_bits as int) == packed_at(
                packed@,
                i,
                old_bits as int,
            ),
{
    let n: usize = total_packed_u64s(new_bits);
    let mut out: Vec<u64> = vec![0u64; n];
    let mut i: usize = 0;
    while i < CHUNK_VOLUME
        invariant
            i <= CHUNK_VOLUME,
            width_ok(old_bits as int),
            width_ok(new_bits as int),
            old_bits <= new_bits,
            packed@.len() == 512 * old_bits,
            out@.len() == 512 * new_bits,
            forall|j: int|
                0 <= j < i ==> #[trigger] packed_at(out@, j, new_bits as int) == packed_at(
                    packed@,
                    j,
                    old_bits as int,
                ),
        decreases CHUNK_VOLUME - i,
    {
        let v: u8 = read_packed(packed, i, old_bits);
        proof {
            lemma_offset(i as int, i as int, old_bits as int);
            bits::lemma_field_bound(
                packed@[i as int / per_word(old_bits as int)],
                offset(i as int, old_bits as int) as u64,
                old_bits as u64,
            );
            bits::lemma_mask_values();
        }
        write_packed(&mut out, i, new_bits, v);
        i = i + 1;
    }
    out
}

/// A list of distinct block ids has at most 256 entries.
proof fn lemma_distinct_ids(s: Seq<u8>)
    requires
        s.no_duplicates(),
    ensures
        s.len() <= 256,
{
    let t = s.map_values(|x: u8| x as int);
    assert(t.no_duplicates());
    t.unique_seq_to_set();
    vstd::set_lib::lemma_int_range(0, 256);
    assert(t.to_set().subset_of(vstd::set_lib::set_int_range(0, 256)));
    vstd::set_lib::lemma_len_subset(t.to_set(), vstd::set_lib::set_int_range(0, 256));
}

/// The place of a block in a chunk.
pub open spec fn block_index(x: int, y: int, z: int) -> int {
    z * 1024 + y * 32 + x
}

/// Whether a block lies in a chunk.
pub open spec fn in_chunk(x: int, y: int, z: int) -> bool {
    0 <= x < 32 && 0 <= y < 32 && 0 <= z < 32
}

/// The palette that comes of meeting `blocks` in turn.
pub open spec fn palette_of(blocks: Seq<BlockId>) -> Seq<BlockId>
    decreases blocks.len(),
{
    if blocks.len() == 0 {
        seq![]
    } else {
        let rest = palette_of(blocks.drop_last());
        if rest.contains(blocks.last()) {
            rest
        } else {
            rest.push(blocks.last())
        }
    }
}

/// The palette after a block of kind `id` has been met.
pub open spec fn palette_with(palette: Seq<BlockId>, id: BlockId) -> Seq<BlockId> {
    if palette.contains(id) {
        palette
    } else {
        palette.push(id)
    }
}

/// The blocks of a chunk as packed indices into a palette.
#[derive(Clone)]
pub struct PalettedChunkData {
    palette: Vec<BlockId>,
    reverse_palette: HashMap<BlockId, u8>,
    bits_per_index: u8,
    packed: Vec<u64>,
}

impl View for PalettedChunkData {
    type V = Seq<BlockId>;

    closed spec fn view(&self) -> Seq<BlockId> {
        Seq::new(
            CHUNK_VOLUME as nat,
            |i: int| self.palette@[packed_at(self.packed@, i, self.bits_per_index as int) as int],
        )
    }
}

impl PalettedChunkData {
    /// The kinds of block that have occurred, in the order of their appearance.
    pub closed spec fn palette_spec(&self) -> Seq<BlockId> {
        self.palette@
    }

    /// The palette and its reverse agree.
    closed spec fn palette_wf(&self) -> bool {
        &&& self.palette@.no_duplicates()
        &&& 0 < self.palette@.len()
        &&& forall|id: u8| #[trigger]
            self.reverse_palette@.contains_key(id) <==> self.palette@.contains(id)
        &&& forall|k: int|
            0 <= k < self.palette@.len() ==> self.reverse_palette@.contains_key(
                #[trigger] self.palette@[k],
            ) && self.reverse_palette@[self.palette@[k]] == k
    }

    /// Every stored index is one of the palette's, and takes no more bits than
    /// the palette needs.
    pub closed spec fn wf(&self) -> bool {
        &&& self.palette_wf()
        &&& self.bits_per_index == spec_bits_for_palette(self.palette@.len() as int)
        &&& self.packed@.len() == 512 * self.bits_per_index
        &&& forall|i: int|
            0 <= i < CHUNK_VOLUME ==> #[trigger] packed_at(
                self.packed@,
                i,
                self.bits_per_index as int,
            ) < self.palette@.len()
    }

    /// What consistent chunk data guarantees.
    pub proof fn lemma_wf(&self)
        requires
            self.wf(),
        ensures
            self@.len() == CHUNK_VOLUME,
            0 < self.palette_spec().len() <= 256,
            self.palette_spec().no_duplicates(),
            forall|i: int|
                0 <= i < CHUNK_VOLUME ==> self.palette_spec().contains(#[trigger] self@[i]),
    {
        lemma_distinct_ids(self.palette@);
    }

    /// A chunk of air.
    pub fn new() -> (r: Self)
        ensures
            r.wf(),
            r@ == Seq::new(CHUNK_VOLUME as nat, |i: int| AIR),
            r.palette_spec() == seq![AIR],
    {
        let mut palette: Vec<BlockId> = Vec::new();
        palette.push(AIR);
        let mut reverse_palette: HashMap<BlockId, u8> = HashMap::new();
        reverse_palette.insert(AIR, 0);
        let n: usize = total_packed_u64s(1);
        let r = Self { palette, reverse_palette, bits_per_index: 1, packed: vec![0u64; n] };
        proof {
            assert(r.palette@ =~= seq![AIR]);
            assert(r.palette@[0] == AIR);
            assert forall|i: int| 0 <= i < CHUNK_VOLUME implies #[trigger] packed_at(
                r.packed@,
                i,
                1,
            ) == 0 by {
                lemma_offset(i, i, 1);
                lemma_zero_field(offset(i, 1) as u64, 1);
            }
            assert(r@ =~= Seq::new(CHUNK_VOLUME as nat, |i: int| AIR));
        }
        r
    }

    /// The block at a place; air outside the chunk.
    pub fn get(&self, x: usize, y: usize, z: usize) -> (r: BlockId)
        requires
            self.wf(),
        ensures
            r == if in_chunk(x as int, y as int, z as int) {
                self@[block_index(x as int, y as int, z as int)]
            } else {
                AIR
            },
    {
        if x >= CHUNK_SIZE || y >= CHUNK_SIZE || z >= CHUNK_SIZE {
            return AIR;
        }
        let idx: usize = z * CHUNK_SIZE * CHUNK_SIZE + y * CHUNK_SIZE + x;
        self.at(idx)
    }

    /// The block at an index.
    fn at(&self, idx: usize) -> (r: BlockId)
        requires
            self.wf(),
            idx < CHUNK_VOLUME,
        ensures
            r == self@[idx as int],
    {
        let palette_index: usize = read_packed(&self.packed, idx, self.bits_per_index) as usize;
        self.palette[palette_index]
    }

    /// The palette index of a kind of block, which is added if it is new.
    pub fn add_or_get_palette_index(&mut self, id: BlockId) -> (r: u8)
        requires
            old(self).wf(),
        ensures
            final(self).wf(),
            final(self)@ == old(self)@,
            final(self).palette_spec() == palette_with(old(self).palette_spec(), id),
            r < final(self).palette_spec().len(),
            final(self).palette_spec()[r as int] == id,
    {
        match self.reverse_palette.get(&id) {
            Some(index) => {
                let r: u8 = *index;
                proof {
                    let k = choose|k: int| 0 <= k < self.palette@.len() && self.palette@[k] == id;
                    assert(self.palette@[k] == id);
                }
                return r;
            },
            None => {},
        }
        proof {
            let grown = self.palette@.push(id);
            assert(grown.no_duplicates()) by {
                assert forall|i: int, j: int|
                    0 <= i < grown.len() && 0 <= j < grown.len() && i != j implies grown[i]
                    != grown[j] by {
                    if i < self.palette@.len() {
                        assert(self.palette@.contains(self.palette@[i]));
                    }
                    if j < self.palette@.len() {
                        assert(self.palette@.contains(self.palette@[j]));
                    }
                }
            }
            lemma_distinct_ids(grown);
        }
        let new_size: usize = self.palette.len() + 1;
        let new_bits: u8 = bits_for_palette(new_size);
        if new_bits > self.bits_per_index {
            self.packed = re_pack(&self.packed, self.bits_per_index, new_bits);
            self.bits_per_index = new_bits;
        }
        let index: u8 = self.palette.len() as u8;
        self.palette.push(id);
        self.reverse_palette.insert(id, index);
        proof {
            let p0 = old(self).palette@;
            let p1 = self.palette@;
            assert(p1 == p0.push(id));
            assert forall|v: u8| #[trigger] p1.contains(v) <==> p0.contains(v) || v == id by {
                if p0.contains(v) {
                    let k = choose|k: int| 0 <= k < p0.len() && p0[k] == v;
                    assert(p1[k] == v);
                }
                if p1.contains(v) && v != id {
                    let k = choose|k: int| 0 <= k < p1.len() && p1[k] == v;
                    assert(p0[k] == v);
                }
                assert(p1[p0.len() as int] == id);
            }
            assert forall|k: int| 0 <= k < p1.len() implies self.reverse_palette@.contains_key(
                #[trigger] p1[k],
            ) && self.reverse_palette@[p1[k]] == k by {
                if k < p0.len() {
                    assert(p0.contains(p0[k]));
                    assert(p1[k] == p0[k]);
                }
            }
            assert forall|i: int| 0 <= i < CHUNK_VOLUME implies #[trigger] packed_at(
                self.packed@,
                i,
                self.bits_per_index as int,
            ) == packed_at(old(self).packed@, i, old(self).bits_per_index as int) by {}
            assert(self@ =~= old(self)@);
        }
        index
    }

    /// Sets the block at a place; nothing happens outside the chunk.
    pub fn set(&mut self, x: usize, y: usize, z: usize, id: BlockId)
        requires
            old(self).wf(),
        ensures
            final(self).wf(),
            !in_chunk(x as int, y as int, z as int) ==> *final(self) == *old(self),
            in_chunk(x as int, y as int, z as int) ==> {
                &&& final(self)@ == old(self)@.update(
                    block_index(x as int, y as int, z as int),
                    id,
                )
                &&& final(self).palette_spec() == palette_with(old(self).palette_spec(), id)
            },
    {
        if x >= CHUNK_SIZE || y >= CHUNK_SIZE || z >= CHUNK_SIZE {
            return;
        }
        let idx: usize = z * CHUNK_SIZE * CHUNK_SIZE + y * CHUNK_SIZE + x;
        let palette_index: u8 = self.add_or_get_palette_index(id);
        let ghost mid = *self;
        proof {
            self.lemma_index_fits(palette_index as int);
        }
        write_packed(&mut self.packed, idx, self.bits_per_index, palette_index);
        assert(self@ =~= old(self)@.update(block_index(x as int, y as int, z as int), id));
    }

    /// An index into the palette fits the width in use.
    proof fn lemma_index_fits(&self, k: int)
        requires
            self.wf(),
            0 <= k < self.palette@.len(),
        ensures
            k <= bits::low_mask(self.bits_per_index as u64),
    {
        bits::lemma_mask_values();
        lemma_distinct_ids(self.palette@);
    }

    /// Fills the whole chunk with one kind of block, given by its palette index.
    pub fn fill_all(&mut self, palette_index: u8)
        requires
            old(self).wf(),
            palette_index < old(self).palette_spec().len(),
        ensures
            final(self).wf(),
            final(self).palette_spec() == old(self).palette_spec(),
            final(self)@ == Seq::new(
                CHUNK_VOLUME as nat,
                |i: int| old(self).palette_spec()[palette_index as int],
            ),
    {
        let bits: u8 = self.bits_per_index;
        let ghost b = bits as int;
        let per: usize = indices_per_u64(bits);
        let mut pattern: u64 = 0;
        let mut s: usize = 0;
        proof {
            self.lemma_index_fits(palette_index as int);
        }
        while s < per
            invariant
                s <= per,
                per == per_word(b),
                b == bits,
                width_ok(b),
                palette_index <= bits::low_mask(bits as u64),
                forall|k: int|
                    0 <= k < s ==> bits::field(pattern, #[trigger] offset(k, b) as u64, b as u64)
                        == palette_index,
            decreases per - s,
        {
            proof {
                lemma_offset(s as int, s as int, b);
                assert(s as int % per_word(b) == s) by {
                    assert(0 <= s < per_word(b));
                }
            }
            let ghost before = pattern;
            let off: u64 = (s * bits as usize) as u64;
            pattern = bits::set_field(pattern, off, bits as u64, palette_index as u64);
            proof {
                bits::lemma_with_field(before, off, bits as u64, palette_index as u64);
                assert forall|k: int| 0 <= k < s + 1 implies bits::field(
                    pattern,
                    #[trigger] offset(k, b) as u64,
                    b as u64,
                ) == palette_index by {
                    lemma_offset(k, s as int, b);
                    assert(k / per_word(b) == 0 && s as int / per_word(b) == 0) by {
                        assert(0 <= k < per_word(b));
                    }
                }
            }
            s = s + 1;
        }
        let n: usize = self.packed.len();
        self.packed = vec![pattern; n];
        proof {
            assert forall|i: int| 0 <= i < CHUNK_VOLUME implies #[trigger] packed_at(
                self.packed@,
                i,
                b,
            ) == palette_index by {
                lemma_offset(i, i, b);
                let k = i % per_word(b);
                assert(0 <= k < per_word(b) && offset(k, b) == offset(i, b)) by {
                }
            }
            assert(self@ =~= Seq::new(
                CHUNK_VOLUME as nat,
                |i: int| old(self).palette_spec()[palette_index as int],
            ));
        }
    }

    /// Another chunk with the same contents.
    pub fn duplicate(&self) -> (r: Self)
        requires
            self.wf(),
        ensures
            r.wf(),
            r@ == self@,
            r.palette_spec() == self.palette_spec(),
    {
        let palette: Vec<BlockId> = self.palette.clone();
        let reverse_palette: HashMap<BlockId, u8> = self.reverse_palette.clone();
        let packed: Vec<u64> = self.packed.clone();
        assert(palette@ =~= self.palette@);
        assert(packed@ =~= self.packed@);
        let r = Self { palette, reverse_palette, bits_per_index: self.bits_per_index, packed };
        assert(r@ =~= self@);
        r
    }

    /// The blocks in the order of their indices.
    pub fn to_blocks(&self) -> (r: Vec<BlockId>)
        requires
            self.wf(),
        ensures
            r@ == self@,
    {
        let mut blocks: Vec<BlockId> = Vec::new();
        let mut i: usize = 0;
        while i < CHUNK_VOLUME
            invariant
                i <= CHUNK_VOLUME,
                self.wf(),
                blocks@ =~= self@.take(i as int),
            decreases CHUNK_VOLUME - i,
        {
            blocks.push(self.at(i));
            i = i + 1;
        }
        assert(self@.take(i as int) =~= self@);
        blocks
    }

    /// How many kinds of block have occurred.
    pub fn palette_len(&self) -> (r: usize)
        ensures
            r == self.palette_spec().len(),
    {
        self.palette.len()
    }

    /// Whether every block is air.
    pub fn is_empty(&self) -> (r: bool)
        requires
            self.wf(),
        ensures
            r == (forall|i: int| 0 <= i < CHUNK_VOLUME ==> #[trigger] self@[i] == AIR),
    {
        if self.palette.len() == 1 && self.palette[0] == AIR {
            return true;
        }
        match self.reverse_palette.get(&AIR) {
            Some(air) => {
                let air_index: u8 = *air;
                proof {
                    let k = choose|k: int| 0 <= k < self.palette@.len() && self.palette@[k] == AIR;
                    assert(self.palette@[k] == AIR);
                    assert(air_index == k);
                }
                let mut i: usize = 0;
                while i < CHUNK_VOLUME
                    invariant
                        i <= CHUNK_VOLUME,
                        self.wf(),
                        air_index < self.palette@.len(),
                        self.palette@[air_index as int] == AIR,
                        forall|j: int| 0 <= j < i ==> #[trigger] self@[j] == AIR,
                    decreases CHUNK_VOLUME - i,
                {
                    if read_packed(&self.packed, i, self.bits_per_index) != air_index {
                        proof {
                            let k = packed_at(self.packed@, i as int, self.bits_per_index as int);
                            assert(self@[i as int] == self.palette@[k as int]);
                            assert(self.palette@[k as int] != self.palette@[air_index as int]);
                        }
                        return false;
                    }
                    i = i + 1;
                }
                true
            },
            None => {
                proof {
                    let k = packed_at(self.packed@, 0, self.bits_per_index as int) as int;
                    assert(self@[0] == self.palette@[k]);
                    assert(self.palette@.contains(self.palette@[k]));
                }
                false
            },
        }
    }

    /// Whether only one kind of block has occurred.
    pub fn is_uniform(&self) -> (r: bool)
        ensures
            r == (self.palette_spec().len() == 1),
    {
        self.palette.len() == 1
    }

    /// The only kind of block that has occurred, if there was no other.
    pub fn uniform_block(&self) -> (r: Option<BlockId>)
        ensures
            r == if self.palette_spec().len() == 1 {
                Some(self.palette_spec()[0])
            } else {
                None
            },
    {
        if self.is_uniform() {
            Some(self.palette[0])
        } else {
            None
        }
    }

    /// Whether a kind of block has occurred.
    pub fn palette_contains(&self, id: BlockId) -> (r: bool)
        requires
            self.wf(),
        ensures
            r == self.palette_spec().contains(id),
    {
        self.reverse_palette.contains_key(&id)
    }

    /// The number of words that the indices take.
    pub fn packed_len(&self) -> (r: usize)
        requires
            self.wf(),
        ensures
            r == 512 * spec_bits_for_palette(self.palette_spec().len() as int),
    {
        self.packed.len()
    }

    /// Builds a chunk from blocks in the order of their indices. If there are
    /// fewer than a chunk holds, the rest is filled with the first of them.
    pub fn from_blocks(blocks: &[BlockId]) -> (r: Self)
        requires
            0 < blocks@.len() <= CHUNK_VOLUME,
        ensures
            r.wf(),
            r.palette_spec() == palette_of(blocks@),
            r@ == Seq::new(
                CHUNK_VOLUME as nat,
                |i: int|
                    if i < blocks@.len() {
                        blocks@[i]
                    } else {
                        blocks@[0]
                    },
            ),
    {
        let mut palette: Vec<BlockId> = Vec::new();
        let mut reverse_palette: HashMap<BlockId, u8> = HashMap::new();
        let mut i: usize = 0;
        assert(blocks@.take(0) =~= seq![]);
        while i < blocks.len()
            invariant
                i <= blocks@.len(),
                palette@ == palette_of(blocks@.take(i as int)),
                palette@.no_duplicates(),
                i > 0 ==> palette@.len() > 0 && palette@[0] == blocks@[0],
                i == 0 ==> palette@.len() == 0,
                forall|id: u8| #[trigger]
                    reverse_palette@.contains_key(id) <==> palette@.contains(id),
                forall|k: int|
                    0 <= k < palette@.len() ==> reverse_palette@.contains_key(
                        #[trigger] palette@[k],
                    ) && reverse_palette@[palette@[k]] == k,
                forall|j: int| 0 <= j < i ==> palette@.contains(#[trigger] blocks@[j]),
            decreases blocks@.len() - i,
        {
            let id: BlockId = blocks[i];
            let ghost p0 = palette@;
            assert(blocks@.take(i + 1).drop_last() =~= blocks@.take(i as int));
            if !reverse_palette.contains_key(&id) {
                proof {
                    lemma_push_distinct(p0, id);
                }
                let index: u8 = palette.len() as u8;
                palette.push(id);
                reverse_palette.insert(id, index);
                proof {
                    let p1 = palette@;
                    assert forall|v: u8| #[trigger] p1.contains(v) <==> p0.contains(v) || v
                        == id by {
                        if p0.contains(v) {
                            let k = choose|k: int| 0 <= k < p0.len() && p0[k] == v;
                            assert(p1[k] == v);
                        }
                        if p1.contains(v) && v != id {
                            let k = choose|k: int| 0 <= k < p1.len() && p1[k] == v;
                            assert(p0[k] == v);
                        }
                        assert(p1[p0.len() as int] == id);
                    }
                    assert forall|k: int| 0 <= k < p1.len() implies reverse_palette@.contains_key(
                        #[trigger] p1[k],
                    ) && reverse_palette@[p1[k]] == k by {
                        if k < p0.len() {
                            assert(p0.contains(p0[k]));
                            assert(p1[k] == p0[k]);
                        }
                    }
                }
            }
            i = i + 1;
        }
        assert(blocks@.take(i as int) =~= blocks@);
        proof {
            lemma_distinct_ids(palette@);
            bits::lemma_mask_values();
        }
        let bits_per_index: u8 = bits_for_palette(palette.len());
        let n: usize = total_packed_u64s(bits_per_index);
        let mut packed: Vec<u64> = vec![0u64; n];
        let ghost b = bits_per_index as int;
        proof {
            assert forall|j: int| 0 <= j < CHUNK_VOLUME implies #[trigger] packed_at(
                packed@,
                j,
                b,
            ) == 0 by {
                lemma_offset(j, j, b);
                lemma_zero_field(offset(j, b) as u64, b as u64);
            }
        }
        let mut i: usize = 0;
        while i < blocks.len()
            invariant
                i <= blocks@.len(),
                0 < blocks@.len() <= CHUNK_VOLUME,
                b == bits_per_index,
                b == spec_bits_for_palette(palette@.len() as int),
                0 < palette@.len() <= 256,
                palette@.len() - 1 <= bits::low_mask(bits_per_index as u64),
                palette@.no_duplicates(),
                packed@.len() == 512 * bits_per_index,
                forall|k: int|
                    0 <= k < palette@.len() ==> reverse_palette@.contains_key(
                        #[trigger] palette@[k],
                    ) && reverse_palette@[palette@[k]] == k,
                forall|j: int|
                    0 <= j < blocks@.len() ==> palette@.contains(#[trigger] blocks@[j]),
                forall|j: int|
                    0 <= j < i ==> (#[trigger] packed_at(packed@, j, b)) < palette@.len()
                        && palette@[packed_at(packed@, j, b) as int] == blocks@[j],
                forall|j: int| i <= j < CHUNK_VOLUME ==> #[trigger] packed_at(packed@, j, b) == 0,
            decreases blocks@.len() - i,
        {
            let id: BlockId = blocks[i];
            proof {
                assert(palette@.contains(blocks@[i as int]));
                let k = choose|k: int| 0 <= k < palette@.len() && palette@[k] == id;
                assert(reverse_palette@.contains_key(palette@[k]));
            }
            match reverse_palette.get(&id) {
                Some(index) => {
                    write_packed(&mut packed, i, bits_per_index, *index);
                },
                None => {
                    assert(false);
                },
            }
            i = i + 1;
        }
        let r = Self { palette, reverse_palette, bits_per_index, packed };
        assert(r@ =~= Seq::new(
            CHUNK_VOLUME as nat,
            |i: int|
                if i < blocks@.len() {
                    blocks@[i]
                } else {
                    blocks@[0]
                },
        ));
        r
    }
}

/// A list of distinct ids stays distinct when a new one is added, and an index
/// for it fits a byte.
proof fn lemma_push_distinct(s: Seq<u8>, id: u8)
    requires
        s.no_duplicates(),
        !s.contains(id),
    ensures
        s.push(id).no_duplicates(),
        s.len() <= 255,
{
    let grown = s.push(id);
    assert forall|i: int, j: int|
        0 <= i < grown.len() && 0 <= j < grown.len() && i != j implies grown[i] != grown[j] by {
        if i < s.len() {
            assert(s.contains(s[i]));
        }
        if j < s.len() {
            assert(s.contains(s[j]));
        }
    }
    lemma_distinct_ids(grown);
}

/// The fields of zero are zero.
proof fn lemma_zero_field(s: u64, n: u64)
    requires
        s < 64,
        n < 64,
    ensures
        bits::field(0, s, n) == 0,
{
    let m = bits::low_mask(n);
    assert((0u64 >> s) & m == 0) by (bit_vector);
}

/// A palette holds the kinds of block that occur, each once, beginning with the first that is
/// met; and what is met later does not change the places of those met before.
pub proof fn law_palette_holds_what_occurs(blocks: Seq<BlockId>, more: Seq<BlockId>, id: BlockId)
    ensures
        palette_of(blocks).contains(id) <==> blocks.contains(id),
        palette_of(blocks).no_duplicates(),
        blocks.len() > 0 ==> palette_of(blocks).len() > 0 && palette_of(blocks)[0] == blocks[0],
        palette_of(blocks).len() <= palette_of(blocks + more).len(),
        palette_of(blocks + more).take(palette_of(blocks).len() as int) == palette_of(blocks),
    decreases blocks.len(), more.len(),
{
    if more.len() > 0 {
        law_palette_holds_what_occurs(blocks, more.drop_last(), id);
        assert((blocks + more).drop_last() =~= blocks + more.drop_last());
        let (a, b) = (palette_of(blocks + more.drop_last()), palette_of(blocks + more));
        let n = palette_of(blocks).len() as int;
        assert(b.take(n) =~= a.take(n));
    } else {
        assert(blocks + more =~= blocks);
        assert(palette_of(blocks).take(palette_of(blocks).len() as int) =~= palette_of(blocks));
        if blocks.len() > 0 {
            let short = blocks.drop_last();
            law_palette_holds_what_occurs(short, seq![], id);
            law_palette_holds_what_occurs(short, seq![], blocks.last());
            let (a, b) = (palette_of(short), palette_of(blocks));
            if short.contains(id) {
                let k = choose|k: int| 0 <= k < short.len() && short[k] == id;
                assert(blocks[k] == id);
            }
            if blocks.contains(id) && id != blocks.last() {
                let k = choose|k: int| 0 <= k < blocks.len() && blocks[k] == id;
                assert(short[k] == id);
            }
            assert(blocks[blocks.len() - 1] == blocks.last());
            if !a.contains(blocks.last()) {
                assert(b == a.push(blocks.last()));
                if a.contains(id) {
                    let k = choose|k: int| 0 <= k < a.len() && a[k] == id;
                    assert(b[k] == id);
                }
                if b.contains(id) && id != blocks.last() {
                    let k = choose|k: int| 0 <= k < b.len() && b[k] == id;
                    assert(a[k] == id);
                }
                assert(b[a.len() as int] == blocks.last());
            }
        }
    }
}

/// The bits of an index are enough for the palette, and half as many would not be.
pub proof fn law_bits_suffice(len: int)
    requires
        0 < len <= 256,
    ensures
        ({
            let b = spec_bits_for_palette(len);
            &&& b == 1 || b == 2 || b == 4 || b == 8
            &&& len <= vstd::arithmetic::power2::pow2(b as nat)
            &&& b > 1 ==> len > vstd::arithmetic::power2::pow2((b / 2) as nat)
        }),
{
    vstd::arithmetic::power2::lemma2_to64();
}

} // verus!

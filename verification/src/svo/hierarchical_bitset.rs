//! A four-level bit set that allocates the lowest free index quickly.
//!
//! The lowest level holds one bit per index. A bit of a higher level says that
//! the word below it is full, so a free index is found by following clear bits
//! downwards from the single word at the top.

use crate::bits;
use vstd::prelude::*;
use vstd::set_lib::*;

verus! {

/// The number of indices that four levels of 64-bit words address.
pub const CAPACITY: u32 = 0x100_0000;

/// Returned in place of an index when nothing could be allocated.
pub const SET_FULL: u32 = u32::MAX;

/// A set of indices below [`CAPACITY`], with a bound on how many it holds.
pub struct HierarchicalBitSet {
    limit: u32,
    count: u32,
    d: Vec<u64>,
    c: Vec<u64>,
    b: Vec<u64>,
    a: u64,
    end_id: i32,
}

/// The indices `r..r + n` lie below the capacity and none of them is in `s`.
pub open spec fn free_run(s: Set<int>, r: int, n: int) -> bool {
    &&& 0 <= r
    &&& r + n <= CAPACITY
    &&& forall|i: int| r <= i < r + n ==> !#[trigger] s.contains(i)
}

/// `r` starts the lowest free run of length `n`.
pub open spec fn lowest_free_run(s: Set<int>, r: int, n: int) -> bool {
    &&& free_run(s, r, n)
    &&& forall|q: int| 0 <= q < r ==> !#[trigger] free_run(s, q, n)
}

/// Some free run of length `n` exists.
pub open spec fn has_free_run(s: Set<int>, n: int) -> bool {
    exists|q: int| #[trigger] free_run(s, q, n)
}

/// The length of the run that a request for `count` indices looks for.
pub open spec fn run_len(count: u32) -> int {
    if count == 0 {
        1
    } else {
        count as int
    }
}

/// `m` is the largest member of `s`, or -1 if `s` is empty.
pub open spec fn is_top(s: Set<int>, m: int) -> bool {
    &&& m >= -1
    &&& m >= 0 ==> s.contains(m)
    &&& forall|i: int| #[trigger] s.contains(i) ==> 0 <= i <= m
}

/// The indices `lo..hi`.
pub open spec fn index_range(lo: int, hi: int) -> Set<int> {
    Set::new(|i: int| lo <= i < hi)
}

/// The lowest clear bit of `w` at or above `from`, or 64 if there is none.
fn next_clear(w: u64, from: usize) -> (r: usize)
    requires
        from < 64,
    ensures
        from <= r <= 64,
        r < 64 ==> !bits::bit(w, r as int),
        forall|j: int| from <= j < r ==> #[trigger] bits::bit(w, j),
{
    let mask: u64 = !w & (!0u64 << (from as u64));
    proof {
        bits::lemma_clear_from(w, from as u64);
        bits::lemma_trailing_zeros(mask);
    }
    let r: usize = mask.trailing_zeros() as usize;
    proof {
        assert forall|j: int| from <= j < r implies #[trigger] bits::bit(w, j) by {
            assert(!bits::bit(mask, j));
        }
        if r < 64 {
            assert(bits::bit(mask, r as int));
        }
    }
    r
}

impl View for HierarchicalBitSet {
    type V = Set<int>;

    closed spec fn view(&self) -> Set<int> {
        Set::new(|i: int| 0 <= i < CAPACITY && bits::bit(self.d@[i / 64], i % 64))
    }
}

impl HierarchicalBitSet {
    /// The levels agree with each other: a bit is set exactly when the word it
    /// stands for is full.
    closed spec fn levels_agree(&self) -> bool {
        &&& self.d@.len() == 262144
        &&& self.c@.len() == 4096
        &&& self.b@.len() == 64
        &&& forall|k: int|
            0 <= k < 262144 ==> (#[trigger] self.d@[k] == u64::MAX) == bits::bit(
                self.c@[k / 64],
                k % 64,
            )
        &&& forall|k: int|
            0 <= k < 4096 ==> (#[trigger] self.c@[k] == u64::MAX) == bits::bit(
                self.b@[k / 64],
                k % 64,
            )
        &&& forall|k: int|
            0 <= k < 64 ==> (#[trigger] self.b@[k] == u64::MAX) == bits::bit(self.a, k)
    }

    /// The bit set is consistent: its levels agree, its counters describe its
    /// members, and it holds no more than its limit.
    pub closed spec fn wf(&self) -> bool {
        &&& self.levels_agree()
        &&& self@.finite()
        &&& self.count == self@.len()
        &&& self.count <= self.limit <= CAPACITY
        &&& is_top(self@, self.end_id as int)
    }

    /// How many indices may be allocated at once.
    pub closed spec fn limit_spec(&self) -> int {
        self.limit as int
    }

    /// What a consistent bit set guarantees of its members.
    pub proof fn lemma_wf(&self)
        requires
            self.wf(),
        ensures
            self@.finite(),
            self@.len() <= self.limit_spec() <= CAPACITY,
            forall|i: int| #[trigger] self@.contains(i) ==> 0 <= i < CAPACITY,
    {
    }

    /// All indices under a full third-level word are members.
    proof fn lemma_c_full(&self, j: int)
        requires
            self.levels_agree(),
            0 <= j < 4096,
            self.c@[j] == u64::MAX,
        ensures
            forall|i: int| j * 4096 <= i < (j + 1) * 4096 ==> #[trigger] self@.contains(i),
    {
        bits::lemma_bit_constants();
        assert forall|i: int| j * 4096 <= i < (j + 1) * 4096 implies #[trigger] self@.contains(
            i,
        ) by {
            let k = i / 64;
            assert(k / 64 == j);
            assert(self.d@[k] == u64::MAX);
        }
    }

    /// All indices under a full second-level word are members.
    proof fn lemma_b_full(&self, j: int)
        requires
            self.levels_agree(),
            0 <= j < 64,
            self.b@[j] == u64::MAX,
        ensures
            forall|i: int| j * 262144 <= i < (j + 1) * 262144 ==> #[trigger] self@.contains(i),
    {
        bits::lemma_bit_constants();
        assert forall|i: int| j * 262144 <= i < (j + 1) * 262144 implies #[trigger] self@.contains(
            i,
        ) by {
            let k = i / 4096;
            assert(k / 64 == j);
            assert(self.c@[k] == u64::MAX);
            self.lemma_c_full(k);
        }
    }

    /// A full top word means that every index is a member.
    proof fn lemma_a_full(&self)
        requires
            self.levels_agree(),
            self.a == u64::MAX,
        ensures
            self@ == index_range(0, CAPACITY as int),
            self@.len() == CAPACITY,
    {
        bits::lemma_bit_constants();
        assert forall|i: int| 0 <= i < CAPACITY implies #[trigger] self@.contains(i) by {
            let k = i / 262144;
            assert(self.b@[k] == u64::MAX);
            self.lemma_b_full(k);
        }
        lemma_int_range(0, CAPACITY as int);
        assert(self@ =~= index_range(0, CAPACITY as int));
        assert(self@ =~= set_int_range(0, CAPACITY as int));
    }

    /// Creates an empty set that holds at most `limit` indices.
    pub fn new(limit: u32) -> (r: Self)
        requires
            limit <= CAPACITY,
        ensures
            r.wf(),
            r@ == Set::<int>::empty(),
            r.limit_spec() == limit,
    {
        let r = Self {
            limit,
            count: 0,
            d: vec![0u64; 262144],
            c: vec![0u64; 4096],
            b: vec![0u64; 64],
            a: 0,
            end_id: -1,
        };
        proof {
            bits::lemma_bit_constants();
            assert(r@ =~= Set::<int>::empty());
        }
        r
    }

    /// Creates an empty set that may hold every index below the capacity.
    pub fn default_capacity() -> (r: Self)
        ensures
            r.wf(),
            r@ == Set::<int>::empty(),
            r.limit_spec() == CAPACITY,
    {
        Self::new(CAPACITY)
    }

    /// All of `lo..hi` are members if the top word has a set bit for each
    /// first-level word over them.
    proof fn lemma_skip_b(&self, lo: int, hi: int)
        requires
            self.levels_agree(),
            0 <= lo,
            hi <= CAPACITY,
            forall|j: int|
                lo / 262144 <= j < 64 && j * 262144 < hi ==> #[trigger] bits::bit(self.a, j),
        ensures
            forall|i: int| lo <= i < hi ==> #[trigger] self@.contains(i),
    {
        assert forall|i: int| lo <= i < hi implies #[trigger] self@.contains(i) by {
            let k = i / 262144;
            assert(bits::bit(self.a, k));
            assert(self.b@[k] == u64::MAX);
            self.lemma_b_full(k);
        }
    }

    /// All of `lo..hi`, which lie under one first-level word, are members if
    /// that word has a set bit for each second-level word over them.
    proof fn lemma_skip_c(&self, a: int, lo: int, hi: int)
        requires
            self.levels_agree(),
            0 <= a < 64,
            a * 262144 <= lo,
            hi <= (a + 1) * 262144,
            forall|j: int|
                (lo / 4096) % 64 <= j < 64 && (a * 64 + j) * 4096 < hi ==> #[trigger] bits::bit(
                    self.b@[a],
                    j,
                ),
        ensures
            forall|i: int| lo <= i < hi ==> #[trigger] self@.contains(i),
    {
        assert forall|i: int| lo <= i < hi implies #[trigger] self@.contains(i) by {
            let k = i / 4096;
            assert(k / 64 == a);
            assert(bits::bit(self.b@[a], k % 64));
            assert(self.c@[k] == u64::MAX);
            self.lemma_c_full(k);
        }
    }

    /// All of `lo..hi`, which lie under one second-level word, are members if
    /// that word has a set bit for each third-level word over them.
    proof fn lemma_skip_d(&self, c: int, lo: int, hi: int)
        requires
            self.levels_agree(),
            0 <= c < 4096,
            c * 4096 <= lo,
            hi <= (c + 1) * 4096,
            forall|j: int|
                (lo / 64) % 64 <= j < 64 && (c * 64 + j) * 64 < hi ==> #[trigger] bits::bit(
                    self.c@[c],
                    j,
                ),
        ensures
            forall|i: int| lo <= i < hi ==> #[trigger] self@.contains(i),
    {
        bits::lemma_bit_constants();
        assert forall|i: int| lo <= i < hi implies #[trigger] self@.contains(i) by {
            let k = i / 64;
            assert(k / 64 == c);
            assert(bits::bit(self.c@[c], k % 64));
            assert(self.d@[k] == u64::MAX);
        }
    }

    /// All of `lo..hi`, which lie in one lowest-level word, are members if that
    /// word has a set bit for each of them.
    proof fn lemma_skip_bits(&self, d: int, lo: int, hi: int)
        requires
            self.levels_agree(),
            0 <= d < 262144,
            d * 64 <= lo,
            hi <= (d + 1) * 64,
            forall|j: int|
                lo % 64 <= j < 64 && d * 64 + j < hi ==> #[trigger] bits::bit(self.d@[d], j),
        ensures
            forall|i: int| lo <= i < hi ==> #[trigger] self@.contains(i),
    {
        assert forall|i: int| lo <= i < hi implies #[trigger] self@.contains(i) by {
            assert(i / 64 == d);
            assert(bits::bit(self.d@[d], i % 64));
        }
    }

    /// Sets the bit of `idx`, and the bits above it of words that become full.
    fn mark(&mut self, idx: usize)
        requires
            old(self).levels_agree(),
            idx < CAPACITY,
        ensures
            final(self).levels_agree(),
            final(self)@ == old(self)@.insert(idx as int),
            final(self).limit == old(self).limit,
            final(self).count == old(self).count,
            final(self).end_id == old(self).end_id,
    {
        let d_pos: usize = idx / 64;
        let d_bit: u64 = (idx % 64) as u64;
        let d_val: u64 = self.d[d_pos] | (1u64 << d_bit);
        proof {
            bits::lemma_bit_set(self.d@[d_pos as int], d_bit);
            bits::lemma_trailing_ones(d_val);
            bits::lemma_bit_constants();
        }
        self.d.set(d_pos, d_val);
        assert(self@ =~= old(self)@.insert(idx as int));
        if d_val == u64::MAX {
            let c_pos: usize = d_pos / 64;
            let c_bit: u64 = (d_pos % 64) as u64;
            let c_val: u64 = self.c[c_pos] | (1u64 << c_bit);
            proof {
                bits::lemma_bit_set(self.c@[c_pos as int], c_bit);
                bits::lemma_trailing_ones(c_val);
            }
            self.c.set(c_pos, c_val);
            if c_val == u64::MAX {
                let b_pos: usize = c_pos / 64;
                let b_bit: u64 = (c_pos % 64) as u64;
                let b_val: u64 = self.b[b_pos] | (1u64 << b_bit);
                proof {
                    bits::lemma_bit_set(self.b@[b_pos as int], b_bit);
                    bits::lemma_trailing_ones(b_val);
                }
                self.b.set(b_pos, b_val);
                if b_val == u64::MAX {
                    proof {
                        bits::lemma_bit_set(self.a, b_pos as u64);
                    }
                    self.a = self.a | (1u64 << (b_pos as u64));
                }
            }
        }
    }

    /// Clears the bit of `idx` and the bits above it.
    fn unmark(&mut self, idx: usize)
        requires
            old(self).levels_agree(),
            idx < CAPACITY,
        ensures
            final(self).levels_agree(),
            final(self)@ == old(self)@.remove(idx as int),
            final(self).limit == old(self).limit,
            final(self).count == old(self).count,
            final(self).end_id == old(self).end_id,
    {
        let d_pos: usize = idx / 64;
        let d_bit: u64 = (idx % 64) as u64;
        let d_val: u64 = self.d[d_pos] & !(1u64 << d_bit);
        let c_pos: usize = d_pos / 64;
        let c_bit: u64 = (d_pos % 64) as u64;
        let c_val: u64 = self.c[c_pos] & !(1u64 << c_bit);
        let b_pos: usize = c_pos / 64;
        let b_bit: u64 = (c_pos % 64) as u64;
        let b_val: u64 = self.b[b_pos] & !(1u64 << b_bit);
        let a_bit: u64 = b_pos as u64;
        proof {
            bits::lemma_bit_constants();
            bits::lemma_bit_clear(self.d@[d_pos as int], d_bit);
            bits::lemma_bit_clear(self.c@[c_pos as int], c_bit);
            bits::lemma_bit_clear(self.b@[b_pos as int], b_bit);
            bits::lemma_bit_clear(self.a, a_bit);
        }
        assert(!bits::bit(d_val, d_bit as int));
        assert(bits::bit(u64::MAX, d_bit as int));
        assert(!bits::bit(c_val, c_bit as int));
        assert(bits::bit(u64::MAX, c_bit as int));
        assert(!bits::bit(b_val, b_bit as int));
        assert(bits::bit(u64::MAX, b_bit as int));
        self.d.set(d_pos, d_val);
        self.c.set(c_pos, c_val);
        self.b.set(b_pos, b_val);
        self.a = self.a & !(1u64 << a_bit);
        assert(self@ =~= old(self)@.remove(idx as int));
    }

    /// Allocates the lowest free index, or returns [`SET_FULL`] if the limit is
    /// reached.
    pub fn allocate_next(&mut self) -> (r: u32)
        requires
            old(self).wf(),
        ensures
            final(self).wf(),
            final(self).limit_spec() == old(self).limit_spec(),
            r == SET_FULL <==> old(self)@.len() >= old(self).limit_spec(),
            r == SET_FULL ==> *final(self) == *old(self),
            r != SET_FULL ==> {
                &&& lowest_free_run(old(self)@, r as int, 1)
                &&& r <= old(self)@.len()
                &&& final(self)@ == old(self)@.insert(r as int)
            },
    {
        if self.a == u64::MAX {
            proof {
                self.lemma_a_full();
            }
            return SET_FULL;
        }
        if self.count + 1 > self.limit {
            return SET_FULL;
        }
        let a_idx: usize = self.a.trailing_ones() as usize;
        proof {
            bits::lemma_trailing_ones(self.a);
            self.lemma_skip_b(0, a_idx * 262144);
        }
        let b_idx: usize = self.b[a_idx].trailing_ones() as usize;
        proof {
            bits::lemma_trailing_ones(self.b@[a_idx as int]);
        }
        let c_word: usize = a_idx * 64 + b_idx;
        proof {
            self.lemma_skip_c(a_idx as int, a_idx * 262144, c_word * 4096);
        }
        let c_idx: usize = self.c[c_word].trailing_ones() as usize;
        proof {
            bits::lemma_trailing_ones(self.c@[c_word as int]);
        }
        let d_word: usize = c_word * 64 + c_idx;
        proof {
            self.lemma_skip_d(c_word as int, c_word * 4096, d_word * 64);
        }
        let d_idx: usize = self.d[d_word].trailing_ones() as usize;
        proof {
            bits::lemma_trailing_ones(self.d@[d_word as int]);
        }
        let idx: usize = d_word * 64 + d_idx;
        let ret: u32 = idx as u32;
        proof {
            assert forall|i: int| 0 <= i < idx implies #[trigger] self@.contains(i) by {
                if i >= d_word * 64 {
                    assert(i / 64 == d_word);
                }
            }
            assert(!self@.contains(idx as int));
            lemma_int_range(0, idx as int);
            lemma_len_subset(set_int_range(0, idx as int), self@);
            assert forall|q: int| 0 <= q < ret implies !#[trigger] free_run(self@, q, 1) by {
                assert(self@.contains(q));
            }
            assert(!self@.contains(self.end_id + 1));
        }
        self.mark(idx);
        self.count = self.count + 1;
        if self.end_id < 0 || ret == (self.end_id as u32) + 1 {
            self.end_id = ret as i32;
        }
        ret
    }

    /// Frees `idx` and says whether it was allocated.
    pub fn free(&mut self, idx: u32) -> (r: bool)
        requires
            old(self).wf(),
            idx < CAPACITY,
        ensures
            final(self).wf(),
            final(self).limit_spec() == old(self).limit_spec(),
            r == old(self)@.contains(idx as int),
            final(self)@ == old(self)@.remove(idx as int),
    {
        let was_set: bool = self.test(idx);
        if was_set {
            self.count = self.count - 1;
            if idx as i32 == self.end_id {
                self.end_id = self.end_id - 1;
                while self.end_id >= 0 && !self.test(self.end_id as u32)
                    invariant
                        self.levels_agree(),
                        self@ == old(self)@,
                        self.limit == old(self).limit,
                        self.count == old(self).count - 1,
                        -1 <= self.end_id < idx < CAPACITY,
                        forall|i: int| #[trigger] self@.contains(i) ==> 0 <= i <= idx,
                        forall|i: int| self.end_id < i < idx ==> !#[trigger] self@.contains(i),
                    decreases self.end_id + 1,
                {
                    self.end_id = self.end_id - 1;
                }
            }
        }
        self.unmark(idx as usize);
        was_set
    }

    /// Whether `idx` is allocated.
    pub fn is_set(&self, idx: u32) -> (r: bool)
        requires
            self.wf(),
            idx < CAPACITY,
        ensures
            r == self@.contains(idx as int),
    {
        self.test(idx)
    }

    /// Reads the lowest-level bit of `idx`.
    fn test(&self, idx: u32) -> (r: bool)
        requires
            self.levels_agree(),
            idx < CAPACITY,
        ensures
            r == self@.contains(idx as int),
    {
        let d_pos: usize = (idx / 64) as usize;
        let d_bit: u64 = (idx % 64) as u64;
        proof {
            bits::lemma_bit_test(self.d@[d_pos as int], d_bit);
        }
        (self.d[d_pos] & (1u64 << d_bit)) != 0
    }

    /// How many indices are allocated.
    pub fn count(&self) -> (r: u32)
        requires
            self.wf(),
        ensures
            r == self@.len(),
    {
        self.count
    }

    /// How many indices may be allocated at once.
    pub fn limit(&self) -> (r: u32)
        ensures
            r == self.limit_spec(),
    {
        self.limit
    }

    /// The largest allocated index, or -1 if nothing is allocated.
    pub fn max_index(&self) -> (r: i32)
        requires
            self.wf(),
        ensures
            is_top(self@, r as int),
            r < CAPACITY,
    {
        self.end_id
    }

    /// The lowest free index that is not below `start`, or [`SET_FULL`].
    #[verifier::rlimit(40)]
    fn find_next_free(&self, start: u32) -> (r: u32)
        requires
            self.levels_agree(),
        ensures
            r == SET_FULL || start <= r < CAPACITY,
            r != SET_FULL ==> !self@.contains(r as int),
            r != SET_FULL ==> forall|i: int| start <= i < r ==> #[trigger] self@.contains(i),
            r == SET_FULL ==> forall|i: int|
                start <= i < CAPACITY ==> #[trigger] self@.contains(i),
    {
        let mut idx: usize = start as usize;
        while idx < CAPACITY as usize
            invariant
                self.levels_agree(),
                start <= idx,
                forall|i: int| start <= i < idx && i < CAPACITY ==> #[trigger] self@.contains(i),
            decreases CAPACITY - idx,
        {
            let ghost before = idx;
            let a_idx: usize = next_clear(self.a, idx / 262144);
            if a_idx == 64 {
                proof {
                    self.lemma_skip_b(idx as int, CAPACITY as int);
                }
                return SET_FULL;
            }
            let base: usize = a_idx * 262144;
            proof {
                self.lemma_skip_b(idx as int, base as int);
            }
            if base > idx {
                idx = base;
            }
            let b_idx: usize = next_clear(self.b[a_idx], (idx / 4096) % 64);
            let c_word: usize = a_idx * 64 + b_idx;
            let base: usize = c_word * 4096;
            proof {
                self.lemma_skip_c(a_idx as int, idx as int, base as int);
            }
            if base > idx {
                idx = base;
            }
            if b_idx == 64 {
                continue;
            }
            let c_idx: usize = next_clear(self.c[c_word], (idx / 64) % 64);
            let d_word: usize = c_word * 64 + c_idx;
            let base: usize = d_word * 64;
            proof {
                self.lemma_skip_d(c_word as int, idx as int, base as int);
            }
            if base > idx {
                idx = base;
            }
            if c_idx == 64 {
                continue;
            }
            let d_idx: usize = next_clear(self.d[d_word], idx % 64);
            let found: usize = d_word * 64 + d_idx;
            proof {
                self.lemma_skip_bits(d_word as int, idx as int, found as int);
            }
            if d_idx == 64 {
                idx = found;
                continue;
            }
            proof {
                assert(found as int % 64 == d_idx && found as int / 64 == d_word);
            }
            return found as u32;
        }
        SET_FULL
    }

    /// Adds a free index that is at most one above the largest member.
    fn set(&mut self, idx: usize)
        requires
            old(self).wf(),
            idx < CAPACITY,
            idx <= old(self).end_id + 1,
            !old(self)@.contains(idx as int),
            old(self).count < old(self).limit,
        ensures
            final(self).wf(),
            final(self)@ == old(self)@.insert(idx as int),
            final(self).limit == old(self).limit,
            final(self).count == old(self).count + 1,
    {
        self.mark(idx);
        self.count = self.count + 1;
        if idx as i32 == self.end_id + 1 {
            self.end_id = idx as i32;
        }
    }

    /// The 64 bits from `i` upwards; those at or past `count` may be stale.
    fn window(&self, i: u32, count: u32) -> (r: u64)
        requires
            self.levels_agree(),
            count <= 64,
            i + count <= CAPACITY,
            i < CAPACITY,
        ensures
            forall|j: int| 0 <= j < count ==> bits::bit(r, j) == #[trigger] self@.contains(i + j),
    {
        let d_word: usize = (i / 64) as usize;
        let d_bit: u64 = (i % 64) as u64;
        let low: u64 = self.d[d_word] >> d_bit;
        proof {
            bits::lemma_bit_shr(self.d@[d_word as int], d_bit);
        }
        if 64 - d_bit < count as u64 {
            let up: u64 = 64 - d_bit;
            let high: u64 = self.d[d_word + 1] << up;
            proof {
                bits::lemma_bit_shl(self.d@[d_word + 1], up);
                bits::lemma_bit_and_or(low, high);
                assert forall|j: int| 0 <= j < count implies bits::bit(low | high, j)
                    == #[trigger] self@.contains(i + j) by {
                    if j < up {
                        assert((i + j) / 64 == d_word && (i + j) % 64 == j + d_bit);
                    } else {
                        assert((i + j) / 64 == d_word + 1 && (i + j) % 64 == j - up);
                    }
                }
            }
            low | high
        } else {
            proof {
                assert forall|j: int| 0 <= j < count implies bits::bit(low, j)
                    == #[trigger] self@.contains(i + j) by {
                    assert((i + j) / 64 == d_word && (i + j) % 64 == j + d_bit);
                }
            }
            low
        }
    }

    /// Allocates `count` consecutive indices at the lowest place where they are
    /// all free and returns the first, or [`SET_FULL`] if the limit does not
    /// allow them or there is no such place.
    ///
    /// A request for no index returns the lowest free one and allocates nothing.
    pub fn allocate_next_consecutive(&mut self, count: u32) -> (r: u32)
        requires
            old(self).wf(),
            count <= 64,
        ensures
            final(self).wf(),
            final(self).limit_spec() == old(self).limit_spec(),
            r == SET_FULL <==> {
                ||| old(self)@.len() + count > old(self).limit_spec()
                ||| !has_free_run(old(self)@, run_len(count))
            },
            r == SET_FULL ==> *final(self) == *old(self),
            r != SET_FULL ==> lowest_free_run(old(self)@, r as int, run_len(count)),
            r != SET_FULL ==> final(self)@ == old(self)@.union(index_range(r as int, r + count)),
    {
        let ghost n: int = run_len(count);
        if self.a == u64::MAX {
            proof {
                self.lemma_a_full();
                assert forall|q: int| !#[trigger] free_run(self@, q, n) by {
                    if 0 <= q < CAPACITY {
                        assert(self@.contains(q));
                    }
                }
            }
            return SET_FULL;
        }
        if self.count + count > self.limit {
            return SET_FULL;
        }
        let check_mask: u64 = if count == 64 {
            u64::MAX
        } else {
            proof {
                bits::lemma_low_mask(count as u64);
            }
            (1u64 << (count as u64)) - 1
        };
        proof {
            bits::lemma_low_mask(count as u64);
            bits::lemma_bit_constants();
            assert(check_mask == bits::low_mask(count as u64));
        }
        let mut i: u32 = self.find_next_free(0);
        proof {
            assert forall|q: int| 0 <= q < i implies !#[trigger] free_run(self@, q, n) by {
                if q < CAPACITY {
                    assert(self@.contains(q));
                }
            }
        }
        while i != SET_FULL && i + count <= CAPACITY
            invariant_except_break
                *self == *old(self),
            invariant
                self.wf(),
                count <= 64,
                n == run_len(count),
                check_mask == bits::low_mask(count as u64),
                forall|j: int| 0 <= j < 64 ==> #[trigger] bits::bit(check_mask, j) == (j < count),
                forall|j: int| !#[trigger] bits::bit(0u64, j),
                old(self).wf(),
                old(self).count + count <= old(self).limit,
                i != SET_FULL ==> i < CAPACITY && !old(self)@.contains(i as int),
                forall|q: int| 0 <= q < i ==> !#[trigger] free_run(old(self)@, q, n),
            ensures
                *self == *old(self),
                i == SET_FULL || i + count > CAPACITY,
            decreases u32::MAX - i,
        {
            let fused: u64 = self.window(i, count);
            let hit: u64 = fused & check_mask;
            proof {
                bits::lemma_bit_and_or(fused, check_mask);
                bits::lemma_trailing_zeros(hit);
                bits::lemma_trailing_zeros(fused);
            }
            if hit != 0 {
                let skip: u32 = fused.trailing_zeros();
                let ghost prev: int = i as int;
                proof {
                    let z = vstd::std_specs::bits::u64_trailing_zeros(hit) as int;
                    assert(bits::bit(hit, z));
                    assert(skip <= z);
                    assert(self@.contains(i + skip));
                    assert(skip != 0) by {
                        assert(i + skip != i);
                    }
                }
                i = self.find_next_free(i + skip);
                proof {
                    assert forall|q: int| 0 <= q < i implies !#[trigger] free_run(
                        self@,
                        q,
                        n,
                    ) by {
                        if prev <= q <= prev + skip {
                            assert(self@.contains(prev + skip));
                        } else if prev + skip < q < CAPACITY {
                            assert(self@.contains(q));
                        }
                    }
                }
                continue;
            }
            proof {
                assert forall|x: int| i <= x < i + n implies !#[trigger] self@.contains(x) by {
                    if count > 0 {
                        let j = x - i;
                        assert(!bits::bit(hit, j));
                        assert(bits::bit(check_mask, j));
                        assert(self@.contains(i + j) == bits::bit(fused, j));
                    }
                }
                assert(lowest_free_run(self@, i as int, n));
                let top = self.end_id as int;
                if top + 1 + n <= CAPACITY {
                    assert(free_run(self@, top + 1, n));
                }
            }
            let mut j: u32 = 0;
            while j < count
                invariant
                    self.wf(),
                    j <= count <= 64,
                    i + count <= CAPACITY,
                    self.limit == old(self).limit,
                    self.count == old(self).count + j,
                    old(self).count + count <= old(self).limit,
                    i <= self.end_id + 1,
                    forall|x: int| i <= x < i + count ==> !#[trigger] old(self)@.contains(x),
                    forall|x: int| #[trigger]
                        self@.contains(x) <==> old(self)@.contains(x) || i <= x < i + j,
                decreases count - j,
            {
                proof {
                    if j > 0 {
                        assert(self@.contains(i + j - 1));
                    }
                }
                let ghost before = self@;
                self.set((i + j) as usize);
                proof {
                    assert(self@.contains(i + j));
                }
                j = j + 1;
            }
            proof {
                assert(free_run(old(self)@, i as int, n));
                assert(self@ =~= old(self)@.union(index_range(i as int, i + count)));
            }
            return i;
        }
        proof {
            assert forall|q: int| !#[trigger] free_run(self@, q, n) by {
                if free_run(self@, q, n) {
                    assert(0 <= q < i);
                }
            }
        }
        SET_FULL
    }
}

} // verus!

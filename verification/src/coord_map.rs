//! Maps and sets keyed by chunk coordinates.
//!
//! A coordinate is packed into one integer, which is the key of a hash map.

use crate::types::ChunkCoord;
use std::collections::HashMap;
use vstd::prelude::*;
use vstd::std_specs::hash::*;

verus! {

broadcast use vstd::std_specs::hash::group_hash_axioms;

/// The integer that stands for a coordinate.
pub open spec fn spec_key(c: ChunkCoord) -> int {
    (c.cx + 0x8000_0000) * 0x1_0000_0000_0000_0000 + (c.cy + 0x8000_0000) * 0x1_0000_0000 + (c.cz
        + 0x8000_0000)
}

/// Different coordinates have different integers, which fit 96 bits.
pub proof fn lemma_key(a: ChunkCoord, b: ChunkCoord)
    ensures
        0 <= spec_key(a) <= u128::MAX,
        spec_key(a) == spec_key(b) ==> a == b,
{
    assert(spec_key(a) == spec_key(b) ==> a.cx == b.cx && a.cy == b.cy && a.cz == b.cz);
}

/// The integer that stands for a coordinate.
fn key(c: ChunkCoord) -> (r: u128)
    ensures
        r == spec_key(c),
{
    (c.cx as i64 + 0x8000_0000) as u128 * 0x1_0000_0000_0000_0000 + (c.cy as i64
        + 0x8000_0000) as u128 * 0x1_0000_0000 + (c.cz as i64 + 0x8000_0000) as u128
}

/// The coordinate that an integer stands for.
fn unkey(k: u128, Ghost(c): Ghost<ChunkCoord>) -> (r: ChunkCoord)
    requires
        k == spec_key(c),
    ensures
        r == c,
{
    proof {
        let q = (c.cx + 0x8000_0000) * 0x1_0000_0000 + (c.cy + 0x8000_0000);
        assert(k == q * 0x1_0000_0000 + (c.cz + 0x8000_0000));
        assert(k / 0x1_0000_0000 == q && k % 0x1_0000_0000 == c.cz + 0x8000_0000);
        assert(q / 0x1_0000_0000 == c.cx + 0x8000_0000 && q % 0x1_0000_0000 == c.cy
            + 0x8000_0000);
    }
    let z: u128 = k % 0x1_0000_0000;
    let rest: u128 = k / 0x1_0000_0000;
    let y: u128 = rest % 0x1_0000_0000;
    let x: u128 = rest / 0x1_0000_0000;
    ChunkCoord {
        cx: (x as i64 - 0x8000_0000) as i32,
        cy: (y as i64 - 0x8000_0000) as i32,
        cz: (z as i64 - 0x8000_0000) as i32,
    }
}

/// A map keyed by chunk coordinates.
pub struct CoordMap<V> {
    map: HashMap<u128, V>,
}

impl<V> View for CoordMap<V> {
    type V = Map<ChunkCoord, V>;

    closed spec fn view(&self) -> Map<ChunkCoord, V> {
        Map::new(
            |c: ChunkCoord| self.map@.contains_key(spec_key(c) as u128),
            |c: ChunkCoord| self.map@[spec_key(c) as u128],
        )
    }
}

impl<V> CoordMap<V> {
    /// Every key stands for a coordinate.
    pub closed spec fn wf(&self) -> bool {
        forall|k: u128| #[trigger] self.map@.contains_key(k) ==> is_key(k)
    }

    /// An empty map.
    pub fn new() -> (r: Self)
        ensures
            r.wf(),
            r@ == Map::<ChunkCoord, V>::empty(),
    {
        let r = Self { map: HashMap::new() };
        assert(r@ =~= Map::<ChunkCoord, V>::empty());
        r
    }

    /// Whether there is a value at a coordinate.
    pub fn contains_key(&self, c: &ChunkCoord) -> (r: bool)
        ensures
            r == self@.contains_key(*c),
    {
        proof {
            lemma_key(*c, *c);
        }
        self.map.contains_key(&key(*c))
    }

    /// The value at a coordinate.
    pub fn get(&self, c: &ChunkCoord) -> (r: Option<&V>)
        ensures
            r is Some <==> self@.contains_key(*c),
            r matches Some(v) ==> *v == self@[*c],
    {
        proof {
            lemma_key(*c, *c);
        }
        self.map.get(&key(*c))
    }

    /// Puts a value at a coordinate.
    pub fn insert(&mut self, c: ChunkCoord, v: V)
        requires
            old(self).wf(),
        ensures
            final(self).wf(),
            final(self)@ == old(self)@.insert(c, v),
    {
        let k: u128 = key(c);
        self.map.insert(k, v);
        proof {
            assert(is_key(k)) by {
                assert(k == spec_key(c));
            }
            assert forall|j: u128| #[trigger] self.map@.contains_key(j) implies is_key(j) by {
                if j != k {
                    assert(old(self).map@.contains_key(j));
                }
            }
            assert forall|d: ChunkCoord| (spec_key(d) as u128 == k) == (#[trigger] spec_key(d)
                == spec_key(c) && c == d) by {
                lemma_key(c, d);
                lemma_key(d, c);
            }
            assert(self@ =~= old(self)@.insert(c, v));
        }
    }

    /// Takes the value at a coordinate out of the map.
    pub fn remove(&mut self, c: &ChunkCoord) -> (r: Option<V>)
        requires
            old(self).wf(),
        ensures
            final(self).wf(),
            final(self)@ == old(self)@.remove(*c),
            r is Some <==> old(self)@.contains_key(*c),
            r matches Some(v) ==> v == old(self)@[*c],
    {
        let k: u128 = key(*c);
        let r: Option<V> = self.map.remove(&k);
        proof {
            assert forall|j: u128| #[trigger] self.map@.contains_key(j) implies is_key(j) by {
                assert(old(self).map@.contains_key(j));
            }
            assert forall|d: ChunkCoord| (spec_key(d) as u128 == k) == (#[trigger] spec_key(d)
                == spec_key(*c) && *c == d) by {
                lemma_key(*c, d);
                lemma_key(d, *c);
            }
            lemma_key(*c, *c);
            assert(self@ =~= old(self)@.remove(*c));
        }
        r
    }

    /// There are finitely many coordinates, as many as keys.
    pub proof fn lemma_finite(self)
        requires
            self.wf(),
        ensures
            self@.dom().finite(),
            self@.dom().len() == self.key_count(),
    {
        let f = |k: u128| choose|c: ChunkCoord| spec_key(c) == k;
        let keys = self.map@.dom();
        assert forall|a: u128, b: u128| keys.contains(a) && keys.contains(b) && f(a)
            == f(b) implies a == b by {
            assert(is_key(a) && is_key(b));
        }
        assert(self@.dom() =~= keys.map(f)) by {
            assert forall|c: ChunkCoord| self@.dom().contains(c) implies keys.map(f).contains(
                c,
            ) by {
                let k = spec_key(c) as u128;
                lemma_key(c, f(k));
                lemma_key(c, c);
                assert(is_key(k));
                assert(f(k) == c);
                assert(keys.contains(k));
            }
            assert forall|c: ChunkCoord| keys.map(f).contains(c) implies self@.dom().contains(
                c,
            ) by {
                let k = choose|k: u128| keys.contains(k) && f(k) == c;
                assert(is_key(k));
                lemma_key(c, c);
            }
        }
        vstd::set_lib::lemma_map_size(keys, self@.dom(), f);
    }

    /// How many keys there are.
    pub closed spec fn key_count(self) -> nat {
        self.map@.dom().len()
    }

    /// How many coordinates have a value.
    pub fn len(&self) -> (r: usize)
        requires
            self.wf(),
        ensures
            self@.dom().finite(),
            r == self@.dom().len(),
    {
        proof {
            self.lemma_finite();
        }
        self.map.len()
    }

    /// Whether no coordinate has a value.
    pub fn is_empty(&self) -> (r: bool)
        requires
            self.wf(),
        ensures
            r == (self@ == Map::<ChunkCoord, V>::empty()),
    {
        let n: usize = self.len();
        proof {
            if n == 0 {
                assert(self@.dom() =~= Set::<ChunkCoord>::empty());
                assert(self@ =~= Map::<ChunkCoord, V>::empty());
            } else if self@ == Map::<ChunkCoord, V>::empty() {
                assert(self@.dom() =~= Set::<ChunkCoord>::empty());
            }
        }
        n == 0
    }

    /// The coordinates that have a value, each once, in no particular order.
    pub fn coords(&self) -> (r: Vec<ChunkCoord>)
        requires
            self.wf(),
        ensures
            r@.no_duplicates(),
            forall|c: ChunkCoord| #[trigger] r@.contains(c) <==> self@.contains_key(c),
    {
        let mut r: Vec<ChunkCoord> = Vec::new();
        let ghost s = vstd::std_specs::iter::IteratorSpec::remaining(&self.map.keys());
        for k in iter: self.map.keys()
            invariant
                self.wf(),
                iter.seq() == s,
                s.no_duplicates(),
                s.unref().to_set() == self.map@.dom(),
                r@.len() == iter.index(),
                forall|i: int| 0 <= i < r@.len() ==> spec_key(#[trigger] r@[i]) == *s[i],
        {
            let ghost c = choose|c: ChunkCoord| spec_key(c) == *k;
            proof {
                assert(s.unref()[iter.index()] == *k);
                assert(s.unref().to_set().contains(*k));
                assert(self.map@.contains_key(*k));
                assert(is_key(*k));
            }
            r.push(unkey(*k, Ghost(c)));
        }
        proof {
            assert forall|i: int, j: int| 0 <= i < r@.len() && 0 <= j < r@.len() && i != j implies
                r@[i] != r@[j] by {
                assert(*s[i] == spec_key(r@[i]));
                assert(*s[j] == spec_key(r@[j]));
                assert(s[i] != s[j]);
            }
            assert forall|c: ChunkCoord| #[trigger] r@.contains(c) <==> self@.contains_key(c) by {
                lemma_key(c, c);
                if r@.contains(c) {
                    let i = choose|i: int| 0 <= i < r@.len() && r@[i] == c;
                    assert(s.unref()[i] == spec_key(r@[i]));
                    assert(s.unref().to_set().contains(spec_key(c) as u128));
                }
                if self@.contains_key(c) {
                    let k = spec_key(c) as u128;
                    assert(s.unref().to_set().contains(k));
                    let i = choose|i: int| 0 <= i < s.unref().len() && s.unref()[i] == k;
                    assert(spec_key(r@[i]) == *s[i]);
                    lemma_key(r@[i], c);
                }
            }
        }
        r
    }
}

/// The integer stands for some coordinate.
pub open spec fn is_key(k: u128) -> bool {
    exists|c: ChunkCoord| spec_key(c) == k
}

} // verus!

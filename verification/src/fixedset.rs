//! A fixed-capacity approximate membership set over 32-bit vector ids.
//!
//! Membership has no false negatives; a query may answer true for an id that
//! was never inserted exactly when an inserted id occupies the same slot.

use vstd::prelude::*;

verus! {

/// The slot an id hashes to in a set of `nbits` slots.
pub open spec fn slot_of(id: u32, nbits: int) -> int {
    (id as int) % nbits
}

/// A bitset of `64 * words.len()` slots; an id is hashed to one slot.
pub struct PerformantFixedSet {
    words: Vec<u64>,
    inserted: Ghost<Set<u32>>,
}

impl PerformantFixedSet {
    /// The ids that have been inserted.
    pub closed spec fn ids(&self) -> Set<u32> {
        self.inserted@
    }

    /// How many slots the set hashes into.
    pub closed spec fn num_bits(&self) -> int {
        self.words@.len() as int * 64
    }

    closed spec fn bit_set(&self, b: int) -> bool {
        (self.words@[b / 64] >> ((b % 64) as u64)) & 1u64 == 1u64
    }

    /// A slot is occupied exactly when some inserted id hashes to it.
    pub closed spec fn wf(&self) -> bool {
        &&& 1 <= self.words@.len() <= 65536
        &&& forall|b: int|
            0 <= b < self.num_bits() ==> (#[trigger] self.bit_set(b) <==> exists|j: u32|
                self.ids().contains(j) && slot_of(j, self.num_bits()) == b)
    }

    /// Whether some inserted id shares `id`'s slot: the exact condition under
    /// which a membership query answers true.
    pub open spec fn collides(&self, id: u32) -> bool {
        exists|j: u32|
            self.ids().contains(j) && slot_of(j, self.num_bits()) == slot_of(
                id,
                self.num_bits(),
            )
    }

    /// An empty set with `size` 64-bit words of slots.
    pub fn new(size: usize) -> (r: Self)
        requires
            1 <= size <= 65536,
        ensures
            r.wf(),
            r.ids() == Set::<u32>::empty(),
            r.num_bits() == size * 64,
    {
        let mut words: Vec<u64> = Vec::new();
        let mut k: usize = 0;
        while k < size
            invariant
                words@.len() == k,
                k <= size,
                forall|i: int| 0 <= i < k ==> words@[i] == 0u64,
            decreases size - k,
        {
            words.push(0);
            k = k + 1;
        }
        let r = PerformantFixedSet { words, inserted: Ghost(Set::empty()) };
        proof {
            assert forall|b: int| 0 <= b < r.num_bits() implies !r.bit_set(b) by {
                assert(forall|s: u64| (0u64 >> s) & 1u64 == 0u64) by (bit_vector);
            }
        }
        r
    }

    /// Marks `id`'s slot occupied; idempotent on the set of inserted ids.
    pub fn insert(&mut self, id: u32)
        requires
            old(self).wf(),
        ensures
            final(self).wf(),
            final(self).ids() == old(self).ids().insert(id),
            final(self).num_bits() == old(self).num_bits(),
    {
        let nbits = self.words.len() * 64;
        let slot = (id as usize) % nbits;
        let w = slot / 64;
        let s = (slot % 64) as u64;
        let word = self.words[w];
        self.words.set(w, word | (1u64 << s));
        proof {
            self.inserted = Ghost(self.inserted@.insert(id));
            let nb = self.num_bits();
            let sl = slot_of(id, nb);
            assert(sl == slot as int);
            assert(w as int == sl / 64 && s as int == sl % 64) by {
                vstd::arithmetic::div_mod::lemma_fundamental_div_mod(sl, 64);
            };
            assert(forall|x: u64, t: u64|
                t < 64 ==> ((x | (1u64 << t)) >> t) & 1u64 == 1u64) by (bit_vector);
            assert(forall|x: u64, t: u64, u: u64|
                t < 64 && u < 64 && t != u ==> ((x | (1u64 << t)) >> u) & 1u64 == (x >> u)
                    & 1u64) by (bit_vector);
            assert forall|b: int| 0 <= b < nb implies (#[trigger] self.bit_set(b)
                <==> exists|j: u32|
                self.ids().contains(j) && slot_of(j, nb) == b) by {
                vstd::arithmetic::div_mod::lemma_fundamental_div_mod(b, 64);
                vstd::arithmetic::div_mod::lemma_mod_bound(b, 64);
                if b == sl {
                    assert(self.bit_set(b));
                    assert(self.ids().contains(id) && slot_of(id, nb) == b);
                } else {
                    if b / 64 == w as int {
                        assert(b % 64 != s as int);
                    }
                    assert(self.bit_set(b) <==> old(self).bit_set(b));
                    assert forall|j: u32|
                        self.ids().contains(j) && slot_of(j, nb) == b implies old(
                        self,
                    ).ids().contains(j) by {
                        if j == id {
                            assert(slot_of(j, nb) == sl);
                        }
                    }
                }
            }
        }
    }

    /// Whether `id`'s slot is occupied: true for every inserted id, and
    /// otherwise true exactly when an inserted id collides with `id`.
    pub fn is_member(&self, id: u32) -> (r: bool)
        requires
            self.wf(),
        ensures
            r == self.collides(id),
            self.ids().contains(id) ==> r,
    {
        let nbits = self.words.len() * 64;
        let slot = (id as usize) % nbits;
        let w = slot / 64;
        let s = (slot % 64) as u64;
        proof {
            let nb = self.num_bits();
            let sl = slot_of(id, nb);
            vstd::arithmetic::div_mod::lemma_mod_bound(id as int, nb);
            vstd::arithmetic::div_mod::lemma_fundamental_div_mod(sl, 64);
            vstd::arithmetic::div_mod::lemma_mod_bound(sl, 64);
            assert(slot as int == sl);
            assert(w as int == sl / 64 && s as int == sl % 64);
        }
        let r = (self.words[w] >> s) & 1u64 == 1u64;
        proof {
            let nb = self.num_bits();
            let sl = slot_of(id, nb);
            assert(r == self.bit_set(sl));
            if self.ids().contains(id) {
                assert(self.collides(id));
            }
        }
        r
    }
}

} // verus!

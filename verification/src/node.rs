//! The radix-4 tree node: posting buckets keyed by quantized value,
//! acceleration filters over vector ids, and sixteen lazy child slots.

use crate::fixedset::PerformantFixedSet;
use crate::pagepool::Pagepool;
use crate::power4::{
    calculate_path, lemma_path_spec_valid, lemma_path_sum_nonneg, path_spec, path_sum, pow4,
    pow4_table,
};
use crate::weight::{lemma_quantize_bounds, spec_quantize, Weight};
use vstd::prelude::*;

verus! {

broadcast use vstd::seq_lib::lemma_seq_contains_after_push;

/// How many bit filters a quantization level needs: its base-2 logarithm.
pub open spec fn bits_of(quantization: int) -> int {
    if quantization == 16 {
        4
    } else if quantization == 32 {
        5
    } else {
        6
    }
}

/// The quantization levels the index accepts.
pub open spec fn valid_quantization(q: int) -> bool {
    q == 16 || q == 32 || q == 64
}

/// Bit `i` of a bucket key.
pub open spec fn bit_of(q: int, i: int) -> bool {
    ((q as u8) >> (i as u8)) & 1u8 == 1u8
}

/// `s` uses only bits that `m` has.
pub open spec fn submask(s: u8, m: u8) -> bool {
    s & m == s
}

/// Sixteen one-shot child slots; a slot, once filled, never changes.
pub struct LazyItemArray {
    pub slots: Vec<Option<Box<InvertedIndexSparseAnnNodeBasicTSHashmap>>>,
}

/// A node of the inverted index tree for one dimension.
pub struct InvertedIndexSparseAnnNodeBasicTSHashmap {
    pub dim_index: u32,
    pub implicit: bool,
    pub quantization: u8,
    pub data: Vec<Pagepool>,
    pub exclusive_key_fixed_sets: Vec<PerformantFixedSet>,
    pub bit_fixed_sets: Vec<PerformantFixedSet>,
    pub lazy_children: LazyItemArray,
}

impl InvertedIndexSparseAnnNodeBasicTSHashmap {
    pub open spec fn bits(&self) -> int {
        bits_of(self.quantization as int)
    }

    /// The id at position `k` of bucket `q` is in the exclusive filter for `q`
    /// and in the bit filters of `q`'s set bits.
    pub open spec fn entry_covered(&self, q: int, k: int) -> bool {
        let id = self.data@[q].ids()[k];
        &&& self.exclusive_key_fixed_sets@[q].ids().contains(id)
        &&& forall|i: int|
            0 <= i < self.bits() && bit_of(q, i) ==> (#[trigger] self.bit_fixed_sets@[i]).ids().contains(
                id,
            )
    }

    /// Whatever a bucket holds, the exclusive filter for that bucket and the
    /// bit filters of the key's set bits hold it too.
    pub open spec fn filters_cover(&self) -> bool {
        forall|q: int, k: int|
            0 <= q < self.data@.len() && 0 <= k < self.data@[q].ids().len()
                ==> #[trigger] self.entry_covered(q, k)
    }

    /// The node's own shape: one bucket and one exclusive filter per key,
    /// one bit filter per key bit, sixteen child slots, filters covering data.
    pub open spec fn local_wf(&self) -> bool {
        &&& valid_quantization(self.quantization as int)
        &&& self.data@.len() == self.quantization as int
        &&& (forall|q: int| 0 <= q < self.data@.len() ==> (#[trigger] self.data@[q]).wf())
        &&& self.exclusive_key_fixed_sets@.len() == self.quantization as int
        &&& (forall|q: int|
            0 <= q < self.exclusive_key_fixed_sets@.len() ==> (
            #[trigger] self.exclusive_key_fixed_sets@[q]).wf())
        &&& self.bit_fixed_sets@.len() == self.bits()
        &&& (forall|i: int|
            0 <= i < self.bit_fixed_sets@.len() ==> (#[trigger] self.bit_fixed_sets@[i]).wf())
        &&& self.lazy_children.slots@.len() == 16
        &&& self.filters_cover()
    }

    /// The whole subtree is well formed, and a child at slot `i` stands for
    /// the dimension `pow4(i)` above its parent, with the same quantization.
    pub open spec fn wf_node(&self) -> bool
        decreases self,
    {
        &&& self.local_wf()
        &&& forall|i: int|
            0 <= i < 16 ==> match #[trigger] self.lazy_children.slots@[i] {
                Some(c) => {
                    &&& c.dim_index as int == self.dim_index as int + pow4(i)
                    &&& c.quantization == self.quantization
                    &&& c.implicit == true
                    &&& c.wf_node()
                },
                None => true,
            }
    }

    /// A freshly created node: empty buckets, empty filters, no children.
    pub open spec fn is_empty_node(&self, dim_index: u32, implicit: bool, quantization: u8) -> bool {
        &&& self.dim_index == dim_index
        &&& self.implicit == implicit
        &&& self.quantization == quantization
        &&& (forall|q: int| 0 <= q < self.data@.len() ==> (#[trigger] self.data@[q]).ids() == Seq::<
            u32,
        >::empty())
        &&& (forall|q: int|
            0 <= q < self.exclusive_key_fixed_sets@.len() ==> (
            #[trigger] self.exclusive_key_fixed_sets@[q]).ids() == Set::<u32>::empty())
        &&& (forall|i: int|
            0 <= i < self.bit_fixed_sets@.len() ==> (#[trigger] self.bit_fixed_sets@[i]).ids()
                == Set::<u32>::empty())
        &&& (forall|i: int| 0 <= i < 16 ==> self.lazy_children.slots@[i] is None)
    }

    /// Builds an empty node for a dimension.
    pub fn new(dim_index: u32, implicit: bool, quantization: u8) -> (r: Self)
        requires
            valid_quantization(quantization as int),
        ensures
            r.wf_node(),
            r.is_empty_node(dim_index, implicit, quantization),
    {
        let qn = quantization as usize;
        let fixed_set_size: usize = 8;

        let mut data: Vec<Pagepool> = Vec::new();
        while data.len() < qn
            invariant
                data@.len() <= qn,
                forall|q: int|
                    0 <= q < data@.len() ==> (#[trigger] data@[q]).wf() && data@[q].ids() == Seq::<
                    u32,
                >::empty(),
            decreases qn - data@.len(),
        {
            data.push(Pagepool::new());
        }

        let mut exclusive_key_fixed_sets: Vec<PerformantFixedSet> = Vec::new();
        while exclusive_key_fixed_sets.len() < qn
            invariant
                exclusive_key_fixed_sets@.len() <= qn,
                forall|q: int|
                    0 <= q < exclusive_key_fixed_sets@.len() ==> (
                    #[trigger] exclusive_key_fixed_sets@[q]).wf()
                        && exclusive_key_fixed_sets@[q].ids() == Set::<u32>::empty(),
            decreases qn - exclusive_key_fixed_sets@.len(),
        {
            exclusive_key_fixed_sets.push(PerformantFixedSet::new(8));
        }

        let nbits: usize = if quantization == 16 {
            4
        } else if quantization == 32 {
            5
        } else {
            6
        };
        let bit_set_size = (qn / 2) * fixed_set_size;
        let mut bit_fixed_sets: Vec<PerformantFixedSet> = Vec::new();
        while bit_fixed_sets.len() < nbits
            invariant
                bit_set_size == (qn / 2) * 8,
                8 <= qn <= 64,
                bit_fixed_sets@.len() <= nbits,
                forall|i: int|
                    0 <= i < bit_fixed_sets@.len() ==> (#[trigger] bit_fixed_sets@[i]).wf()
                        && bit_fixed_sets@[i].ids() == Set::<u32>::empty(),
            decreases nbits - bit_fixed_sets@.len(),
        {
            bit_fixed_sets.push(PerformantFixedSet::new(bit_set_size));
        }

        let mut slots: Vec<Option<Box<InvertedIndexSparseAnnNodeBasicTSHashmap>>> = Vec::new();
        while slots.len() < 16
            invariant
                slots@.len() <= 16,
                forall|i: int| 0 <= i < slots@.len() ==> slots@[i] is None,
            decreases 16 - slots@.len(),
        {
            slots.push(None);
        }

        InvertedIndexSparseAnnNodeBasicTSHashmap {
            dim_index,
            implicit,
            quantization,
            data,
            exclusive_key_fixed_sets,
            bit_fixed_sets,
            lazy_children: LazyItemArray { slots },
        }
    }

    /// Maps a weight in [0, 1] to a bucket key in [0, Q): `floor(value * (Q - 1))`,
    /// clamped, with 0 at 0 and Q - 1 at 1.
    pub fn quantize(&self, value: &Weight) -> (q: u8)
        requires
            value.wf(),
            valid_quantization(self.quantization as int),
        ensures
            q as int == spec_quantize(value.num as int, value.den as int, self.quantization as int),
            q < self.quantization,
            value.num <= 0 ==> q == 0,
            value.num >= value.den ==> q as int == self.quantization - 1,
    {
        proof {
            lemma_quantize_bounds(
                value.num as int,
                value.den as int,
                self.quantization as int,
            );
        }
        if value.num <= 0 {
            0
        } else if value.num >= value.den {
            self.quantization - 1
        } else {
            let n = value.num as u64;
            let d = value.den as u64;
            let m = (self.quantization - 1) as u64;
            proof {
                assert(n * m < 0x1_0000_0000u64 * 64) by (nonlinear_arith)
                    requires
                        n < 0x1_0000_0000u64,
                        m < 64,
                ;
            }
            ((n * m) / d) as u8
        }
    }
}

impl LazyItemArray {
    /// The current occupant of slot `i`, if any.
    pub fn get(&self, i: usize) -> (r: Option<&InvertedIndexSparseAnnNodeBasicTSHashmap>)
        requires
            i < self.slots@.len(),
        ensures
            r is Some <==> self.slots@[i as int] is Some,
            r is Some ==> *r->Some_0 == *self.slots@[i as int]->Some_0,
    {
        match &self.slots[i] {
            Some(c) => Some(&**c),
            None => None,
        }
    }

    /// Installs a fresh empty node in slot `i` unless the slot is occupied:
    /// the first installation wins, and once a slot is filled, no call ever
    /// changes it again.
    pub fn get_or_insert(&mut self, i: usize, dim_index: u32, quantization: u8)
        requires
            i < old(self).slots@.len(),
            valid_quantization(quantization as int),
        ensures
            final(self).slots@.len() == old(self).slots@.len(),
            old(self).slots@[i as int] is Some ==> *final(self) == *old(self),
            final(self).slots@[i as int] is Some,
            old(self).slots@[i as int] is None ==> {
                let c = final(self).slots@[i as int]->Some_0;
                &&& c.is_empty_node(dim_index, true, quantization)
                &&& c.wf_node()
            },
            forall|j: int|
                0 <= j < old(self).slots@.len() && j != i ==> final(self).slots@[j] == old(
                    self,
                ).slots@[j],
    {
        if self.slots[i].is_none() {
            let node = InvertedIndexSparseAnnNodeBasicTSHashmap::new(dim_index, true, quantization);
            self.slots.set(i, Some(Box::new(node)));
        }
    }
}

/// A mutable borrow of one element of a vector.
pub(crate) fn elem_mut<T>(v: &mut Vec<T>, i: usize) -> (r: &mut T)
    requires
        i < old(v)@.len(),
    ensures
        *r == old(v)@[i as int],
        final(v)@ == old(v)@.update(i as int, *final(r)),
{
    &mut v[i]
}

/// The bucket `q` of a node, or the empty bucket where there is no node yet.
pub open spec fn old_bucket(o: Option<InvertedIndexSparseAnnNodeBasicTSHashmap>, q: int) -> Seq<
    u32,
> {
    match o {
        Some(a) => a.data@[q].ids(),
        None => Seq::empty(),
    }
}

/// The exclusive filter `q` of a node, or empty where there is no node yet.
pub open spec fn old_excl(o: Option<InvertedIndexSparseAnnNodeBasicTSHashmap>, q: int) -> Set<
    u32,
> {
    match o {
        Some(a) => a.exclusive_key_fixed_sets@[q].ids(),
        None => Set::empty(),
    }
}

/// The bit filter `i` of a node, or empty where there is no node yet.
pub open spec fn old_bits(o: Option<InvertedIndexSparseAnnNodeBasicTSHashmap>, i: int) -> Set<
    u32,
> {
    match o {
        Some(a) => a.bit_fixed_sets@[i].ids(),
        None => Set::empty(),
    }
}

/// The posting and filter state of `b` is that of `o` (or of a fresh node,
/// where `o` is absent) after one insert of `id` under bucket key `q`.
pub open spec fn local_inserted(
    o: Option<InvertedIndexSparseAnnNodeBasicTSHashmap>,
    b: InvertedIndexSparseAnnNodeBasicTSHashmap,
    q: int,
    id: u32,
) -> bool {
    &&& 0 <= q < b.data@.len()
    &&& b.data@[q].ids() == old_bucket(o, q).push(id)
    &&& (forall|k: int|
        0 <= k < b.data@.len() && k != q ==> (#[trigger] b.data@[k]).ids() == old_bucket(o, k))
    &&& b.exclusive_key_fixed_sets@[q].ids() == old_excl(o, q).insert(id)
    &&& (forall|k: int|
        0 <= k < b.exclusive_key_fixed_sets@.len() && k != q ==> (
        #[trigger] b.exclusive_key_fixed_sets@[k]).ids() == old_excl(o, k))
    &&& (forall|i: int|
        0 <= i < b.bit_fixed_sets@.len() ==> (#[trigger] b.bit_fixed_sets@[i]).ids() == if bit_of(
            q,
            i,
        ) {
            old_bits(o, i).insert(id)
        } else {
            old_bits(o, i)
        })
}

/// Posting buckets are append-only: an insert leaves every bucket's previous
/// contents as a prefix of its new contents, and every previously recorded
/// filter id still recorded.
pub proof fn lemma_insert_appends_only(
    o: InvertedIndexSparseAnnNodeBasicTSHashmap,
    b: InvertedIndexSparseAnnNodeBasicTSHashmap,
    q: int,
    id: u32,
)
    requires
        local_inserted(Some(o), b, q, id),
    ensures
        forall|k: int|
            0 <= k < b.data@.len() ==> o.data@[k].ids().is_prefix_of(
                (#[trigger] b.data@[k]).ids(),
            ),
        forall|k: int|
            0 <= k < b.exclusive_key_fixed_sets@.len() ==> o.exclusive_key_fixed_sets@[k].ids().subset_of(
                (#[trigger] b.exclusive_key_fixed_sets@[k]).ids(),
            ),
        forall|i: int|
            0 <= i < b.bit_fixed_sets@.len() ==> o.bit_fixed_sets@[i].ids().subset_of(
                (#[trigger] b.bit_fixed_sets@[i]).ids(),
            ),
{
    assert forall|k: int| 0 <= k < b.data@.len() implies o.data@[k].ids().is_prefix_of(
        (#[trigger] b.data@[k]).ids(),
    ) by {
        if k == q {
            assert(b.data@[k].ids() == o.data@[k].ids().push(id));
            assert(o.data@[k].ids().is_prefix_of(o.data@[k].ids().push(id)));
        } else {
            assert(b.data@[k].ids() == o.data@[k].ids());
            assert(o.data@[k].ids().is_prefix_of(o.data@[k].ids()));
        }
    }
}

impl InvertedIndexSparseAnnNodeBasicTSHashmap {
    /// Appends `vector_id` to the bucket of the quantized value of `value`,
    /// and records it in the exclusive filter of that bucket and in the bit
    /// filters of the bucket key's set bits.
    pub fn insert(&mut self, value: &Weight, vector_id: u32)
        requires
            old(self).local_wf(),
            value.wf(),
        ensures
            final(self).local_wf(),
            old(self).wf_node() ==> final(self).wf_node(),
            final(self).lazy_children == old(self).lazy_children,
            final(self).dim_index == old(self).dim_index,
            final(self).implicit == old(self).implicit,
            final(self).quantization == old(self).quantization,
            local_inserted(
                Some(*old(self)),
                *final(self),
                spec_quantize(
                    value.num as int,
                    value.den as int,
                    old(self).quantization as int,
                ),
                vector_id,
            ),
    {
        let q = self.quantize(value);
        let qi = q as usize;
        let pool = elem_mut(&mut self.data, qi);
        pool.push(vector_id);
        let eset = elem_mut(&mut self.exclusive_key_fixed_sets, qi);
        eset.insert(vector_id);

        let ghost mid = *self;
        let nbits: usize = if self.quantization == 16 {
            4
        } else if self.quantization == 32 {
            5
        } else {
            6
        };
        let mut i: usize = 0;
        while i < nbits
            invariant
                i <= nbits,
                q < 64,
                nbits == bits_of(mid.quantization as int),
                self.quantization == mid.quantization,
                self.dim_index == mid.dim_index,
                self.implicit == mid.implicit,
                self.data == mid.data,
                self.exclusive_key_fixed_sets == mid.exclusive_key_fixed_sets,
                self.lazy_children == mid.lazy_children,
                self.bit_fixed_sets@.len() == mid.bit_fixed_sets@.len(),
                mid.bit_fixed_sets@.len() == nbits,
                forall|j: int|
                    0 <= j < mid.bit_fixed_sets@.len() ==> (#[trigger] mid.bit_fixed_sets@[j]).wf(),
                forall|j: int|
                    0 <= j < i ==> (#[trigger] self.bit_fixed_sets@[j]).ids() == if bit_of(
                        q as int,
                        j,
                    ) {
                        mid.bit_fixed_sets@[j].ids().insert(vector_id)
                    } else {
                        mid.bit_fixed_sets@[j].ids()
                    },
                forall|j: int|
                    0 <= j < i ==> (#[trigger] self.bit_fixed_sets@[j]).wf()
                        && self.bit_fixed_sets@[j].num_bits() == mid.bit_fixed_sets@[j].num_bits(),
                forall|j: int|
                    i <= j < mid.bit_fixed_sets@.len() ==> #[trigger] self.bit_fixed_sets@[j]
                        == mid.bit_fixed_sets@[j],
            decreases nbits - i,
        {
            if (q >> (i as u8)) & 1u8 == 1u8 {
                let bset = elem_mut(&mut self.bit_fixed_sets, i);
                bset.insert(vector_id);
            }
            i = i + 1;
        }
        proof {
            let qint = spec_quantize(
                value.num as int,
                value.den as int,
                old(self).quantization as int,
            );
            assert(qint == q as int);
            lemma_insert_local_wf(*old(self), *self, q as int, vector_id);
        }
    }
}

/// After a local insert, the node keeps its shape and its filters keep
/// covering its buckets.
proof fn lemma_insert_local_wf(
    o: InvertedIndexSparseAnnNodeBasicTSHashmap,
    b: InvertedIndexSparseAnnNodeBasicTSHashmap,
    q: int,
    id: u32,
)
    requires
        o.local_wf(),
        local_inserted(Some(o), b, q, id),
        0 <= q < o.quantization as int,
        b.dim_index == o.dim_index,
        b.quantization == o.quantization,
        b.data@.len() == o.data@.len(),
        b.exclusive_key_fixed_sets@.len() == o.exclusive_key_fixed_sets@.len(),
        b.bit_fixed_sets@.len() == o.bit_fixed_sets@.len(),
        b.lazy_children == o.lazy_children,
        forall|k: int| 0 <= k < b.data@.len() ==> (#[trigger] b.data@[k]).wf(),
        forall|k: int|
            0 <= k < b.exclusive_key_fixed_sets@.len() ==> (
            #[trigger] b.exclusive_key_fixed_sets@[k]).wf(),
        forall|k: int|
            0 <= k < b.bit_fixed_sets@.len() ==> (#[trigger] b.bit_fixed_sets@[k]).wf(),
    ensures
        b.local_wf(),
        o.wf_node() ==> b.wf_node(),
{
    assert forall|k: int, pos: int|
        0 <= k < b.data@.len() && 0 <= pos < b.data@[k].ids().len() implies #[trigger] b.entry_covered(
        k,
        pos,
    ) by {
        if k == q {
            if pos < old_bucket(Some(o), q).len() {
                assert(o.entry_covered(k, pos));
                assert(b.data@[k].ids()[pos] == o.data@[k].ids()[pos]);
            } else {
                assert(b.data@[k].ids()[pos] == id);
            }
        } else {
            assert(b.data@[k].ids() == o.data@[k].ids());
            assert(o.entry_covered(k, pos));
        }
    }
    assert(b.local_wf());
    if o.wf_node() {
        assert forall|i: int| 0 <= i < 16 implies match #[trigger] b.lazy_children.slots@[i] {
            Some(c) => {
                &&& c.dim_index as int == b.dim_index as int + pow4(i)
                &&& c.quantization == b.quantization
                &&& c.implicit == true
                &&& c.wf_node()
            },
            None => true,
        } by {
            assert(b.lazy_children.slots@[i] == o.lazy_children.slots@[i]);
        }
    }
}

/// The candidate key assembled from the first `k` bit filters: bit `i` is set
/// exactly when bit filter `i` answers true for `id`.
pub open spec fn spec_search_prefix(
    n: InvertedIndexSparseAnnNodeBasicTSHashmap,
    id: u32,
    k: int,
) -> u8
    decreases k,
{
    if k <= 0 {
        0u8
    } else {
        let rest = spec_search_prefix(n, id, k - 1);
        if n.bit_fixed_sets@[k - 1].collides(id) {
            rest | (1u8 << ((k - 1) as u8))
        } else {
            rest
        }
    }
}

/// The candidate key over all of a node's bit filters.
pub open spec fn spec_search_idx(n: InvertedIndexSparseAnnNodeBasicTSHashmap, id: u32) -> u8 {
    spec_search_prefix(n, id, bits_of(n.quantization as int))
}

/// The assembled candidate is below `2^k` and its bits record exactly which
/// bit filters answered true.
pub proof fn lemma_search_prefix_bits(n: InvertedIndexSparseAnnNodeBasicTSHashmap, id: u32, k: int)
    requires
        0 <= k <= 6,
    ensures
        spec_search_prefix(n, id, k) < (1u8 << (k as u8)),
        forall|i: int|
            0 <= i < k ==> (bit_of(spec_search_prefix(n, id, k) as int, i)
                <==> n.bit_fixed_sets@[i].collides(id)),
    decreases k,
{
    if k == 0 {
        assert(1u8 << 0u8 == 1u8) by (bit_vector);
    } else {
        lemma_search_prefix_bits(n, id, k - 1);
        let rest = spec_search_prefix(n, id, k - 1);
        let cur = spec_search_prefix(n, id, k);
        let ku = (k - 1) as u8;
        assert(k as u8 == ku + 1);
        assert(rest < (1u8 << ku));
        assert(rest < (1u8 << ku) ==> ((rest | (1u8 << ku)) < (1u8 << (ku + 1)) && rest < (1u8 << (
        ku + 1)))) by (bit_vector)
            requires
                ku < 7,
        ;
        assert forall|i: int| 0 <= i < k implies (bit_of(cur as int, i)
            <==> n.bit_fixed_sets@[i].collides(id)) by {
            let iu = i as u8;
            if i < k - 1 {
                assert(bit_of(rest as int, i) <==> n.bit_fixed_sets@[i].collides(id));
            }
            if i == k - 1 {
                if n.bit_fixed_sets@[k - 1].collides(id) {
                    assert(cur == rest | (1u8 << ku));
                    assert(((rest | (1u8 << ku)) >> ku) & 1u8 == 1u8) by (bit_vector)
                        requires
                            ku < 8u8,
                    ;
                } else {
                    assert(cur == rest);
                    assert((rest >> ku) & 1u8 == 0u8) by (bit_vector)
                        requires
                            ku < 8u8,
                            rest < (1u8 << ku),
                    ;
                }
            } else {
                if n.bit_fixed_sets@[k - 1].collides(id) {
                    assert(cur == rest | (1u8 << ku));
                    assert(((rest | (1u8 << ku)) >> iu) & 1u8 == (rest >> iu) & 1u8)
                        by (bit_vector)
                        requires
                            iu < 8u8,
                            ku < 8u8,
                            iu != ku,
                    ;
                } else {
                    assert(cur == rest);
                }
            }
        }
    }
}

/// A key whose bits all pass their bit filters is a submask of the assembled
/// candidate; in particular, for a nonzero such key the candidate is nonzero.
pub proof fn lemma_submask_of_idx(q: u8, m: u8)
    requires
        forall|i: int| 0 <= i < 8 ==> (bit_of(q as int, i) ==> bit_of(m as int, i)),
    ensures
        submask(q, m),
        q != 0 ==> m != 0,
{
    assert((q >> 0u8) & 1u8 == 1u8 ==> (m >> 0u8) & 1u8 == 1u8) by {
        assert(bit_of(q as int, 0) ==> bit_of(m as int, 0));
    }
    assert((q >> 1u8) & 1u8 == 1u8 ==> (m >> 1u8) & 1u8 == 1u8) by {
        assert(bit_of(q as int, 1) ==> bit_of(m as int, 1));
    }
    assert((q >> 2u8) & 1u8 == 1u8 ==> (m >> 2u8) & 1u8 == 1u8) by {
        assert(bit_of(q as int, 2) ==> bit_of(m as int, 2));
    }
    assert((q >> 3u8) & 1u8 == 1u8 ==> (m >> 3u8) & 1u8 == 1u8) by {
        assert(bit_of(q as int, 3) ==> bit_of(m as int, 3));
    }
    assert((q >> 4u8) & 1u8 == 1u8 ==> (m >> 4u8) & 1u8 == 1u8) by {
        assert(bit_of(q as int, 4) ==> bit_of(m as int, 4));
    }
    assert((q >> 5u8) & 1u8 == 1u8 ==> (m >> 5u8) & 1u8 == 1u8) by {
        assert(bit_of(q as int, 5) ==> bit_of(m as int, 5));
    }
    assert((q >> 6u8) & 1u8 == 1u8 ==> (m >> 6u8) & 1u8 == 1u8) by {
        assert(bit_of(q as int, 6) ==> bit_of(m as int, 6));
    }
    assert((q >> 7u8) & 1u8 == 1u8 ==> (m >> 7u8) & 1u8 == 1u8) by {
        assert(bit_of(q as int, 7) ==> bit_of(m as int, 7));
    }
    assert(q & m == q && (q != 0 ==> m != 0)) by (bit_vector)
        requires
            ((q >> 0u8) & 1u8 == 1u8 ==> (m >> 0u8) & 1u8 == 1u8) && ((q >> 1u8) & 1u8 == 1u8 ==> (
            m >> 1u8) & 1u8 == 1u8) && ((q >> 2u8) & 1u8 == 1u8 ==> (m >> 2u8) & 1u8 == 1u8) && ((q
                >> 3u8) & 1u8 == 1u8 ==> (m >> 3u8) & 1u8 == 1u8) && ((q >> 4u8) & 1u8 == 1u8 ==> (
            m >> 4u8) & 1u8 == 1u8) && ((q >> 5u8) & 1u8 == 1u8 ==> (m >> 5u8) & 1u8 == 1u8) && ((q
                >> 6u8) & 1u8 == 1u8 ==> (m >> 6u8) & 1u8 == 1u8) && ((q >> 7u8) & 1u8 == 1u8 ==> (
            m >> 7u8) & 1u8 == 1u8),
    ;
}

impl InvertedIndexSparseAnnNodeBasicTSHashmap {
    /// Assembles a candidate bucket key for `vector_id` from the bit filters;
    /// none when no bit filter answers true.
    pub fn search_fixed_sets(&self, vector_id: u32) -> (r: Option<u8>)
        requires
            self.local_wf(),
        ensures
            r == (if spec_search_idx(*self, vector_id) == 0 {
                None
            } else {
                Some(spec_search_idx(*self, vector_id))
            }),
    {
        let nbits: usize = if self.quantization == 16 {
            4
        } else if self.quantization == 32 {
            5
        } else {
            6
        };
        let mut index: u8 = 0;
        let mut i: usize = 0;
        while i < nbits
            invariant
                i <= nbits,
                nbits == bits_of(self.quantization as int),
                self.local_wf(),
                index == spec_search_prefix(*self, vector_id, i as int),
            decreases nbits - i,
        {
            if self.bit_fixed_sets[i].is_member(vector_id) {
                index = index | (1u8 << (i as u8));
            }
            i = i + 1;
        }
        if index == 0 {
            None
        } else {
            Some(index)
        }
    }

    /// Finds which bucket key `vector_id` was inserted under, by the filters
    /// alone: assemble a candidate from the bit filters, then test it and all
    /// its nonzero submasks against the exclusive filters, largest first.
    /// The filters are approximate, so the answer can name a wrong key for a
    /// colliding id; it answers some key whenever the id sits in any nonzero
    /// bucket of this node.
    pub fn find_key_of_id(&self, vector_id: u32) -> (r: Option<u8>)
        requires
            self.local_wf(),
        ensures
            r is Some ==> 1 <= r->Some_0 && (r->Some_0 as int) < self.quantization as int
                && self.exclusive_key_fixed_sets@[r->Some_0 as int].collides(vector_id),
            r is Some ==> submask(r->Some_0, spec_search_idx(*self, vector_id)),
            r is Some ==> forall|s: u8|
                submask(s, spec_search_idx(*self, vector_id)) && s > r->Some_0
                    ==> !self.exclusive_key_fixed_sets@[s as int].collides(vector_id),
            r is None ==> forall|s: u8|
                s != 0 && submask(s, spec_search_idx(*self, vector_id))
                    ==> !self.exclusive_key_fixed_sets@[s as int].collides(vector_id),
            (exists|q: u8|
                1 <= q && (q as int) < self.data@.len() && self.data@[q as int].ids().contains(
                    vector_id,
                )) ==> r is Some,
    {
        proof {
            lemma_search_prefix_bits(*self, vector_id, bits_of(self.quantization as int));
            assert((1u8 << 4u8) == 16 && (1u8 << 5u8) == 32 && (1u8 << 6u8) == 64) by (bit_vector);
        }
        let ghost midx = spec_search_idx(*self, vector_id);
        let index = match self.search_fixed_sets(vector_id) {
            Some(v) => v,
            None => {
                proof {
                    assert(forall|s: u8| s & 0u8 == s ==> s == 0) by (bit_vector);
                    lemma_no_key_when_unfindable(*self, vector_id);
                }
                return None;
            },
        };
        if self.exclusive_key_fixed_sets[index as usize].is_member(vector_id) {
            proof {
                assert(index & index == index && (forall|s: u8| s & index == s ==> s <= index))
                    by (bit_vector);
            }
            return Some(index);
        }
        let alternate_keys = get_permutations(index);
        let ghost perms = alternate_keys@;
        let mut j = alternate_keys.len();
        while j > 0
            invariant
                j <= perms.len(),
                perms == alternate_keys@,
                self.local_wf(),
                index == midx,
                midx == spec_search_idx(*self, vector_id),
                index != 0,
                (index as int) < self.quantization as int,
                forall|b: u8| perms.contains(b) <==> (b != 0 && submask(b, index)),
                forall|t1: int, t2: int| 0 <= t1 < t2 < perms.len() ==> perms[t1] < perms[t2],
                forall|t: int|
                    j <= t < perms.len() ==> !self.exclusive_key_fixed_sets@[perms[t] as int].collides(
                        vector_id,
                    ),
            decreases j,
        {
            j = j - 1;
            let k = alternate_keys[j];
            proof {
                assert(perms.contains(k));
                assert(forall|s: u8, m: u8| s & m == s ==> s <= m) by (bit_vector);
            }
            if self.exclusive_key_fixed_sets[k as usize].is_member(vector_id) {
                proof {
                    assert forall|s: u8| submask(s, midx) && s > k implies !self.exclusive_key_fixed_sets@[s as int].collides(
                        vector_id,
                    ) by {
                        assert(s != 0);
                        assert(perms.contains(s));
                        let t = choose|t: int| 0 <= t < perms.len() && perms[t] == s;
                        assert(t > j);
                    }
                }
                return Some(k);
            }
        }
        proof {
            assert forall|s: u8| s != 0 && submask(s, midx) implies !self.exclusive_key_fixed_sets@[s as int].collides(
                vector_id,
            ) by {
                assert(perms.contains(s));
                let t = choose|t: int| 0 <= t < perms.len() && perms[t] == s;
            }
            lemma_no_key_when_unfindable(*self, vector_id);
        }
        None
    }
}

/// When no nonzero submask of the assembled candidate passes its exclusive
/// filter, no nonzero bucket of the node holds the id.
proof fn lemma_no_key_when_unfindable(n: InvertedIndexSparseAnnNodeBasicTSHashmap, id: u32)
    requires
        n.local_wf(),
        forall|s: u8|
            s != 0 && submask(s, spec_search_idx(n, id))
                ==> !n.exclusive_key_fixed_sets@[s as int].collides(id),
    ensures
        !(exists|q: u8| 1 <= q && (q as int) < n.data@.len() && n.data@[q as int].ids().contains(id)),
{
    let midx = spec_search_idx(n, id);
    let nb = bits_of(n.quantization as int);
    lemma_search_prefix_bits(n, id, nb);
    assert((1u8 << 4u8) == 16 && (1u8 << 5u8) == 32 && (1u8 << 6u8) == 64) by (bit_vector);
    if exists|q: u8|
        1 <= q && (q as int) < n.data@.len() && n.data@[q as int].ids().contains(id) {
        let q = choose|q: u8|
            1 <= q && (q as int) < n.data@.len() && n.data@[q as int].ids().contains(id);
        let pos = choose|pos: int|
            0 <= pos < n.data@[q as int].ids().len() && n.data@[q as int].ids()[pos] == id;
        assert(n.entry_covered(q as int, pos));
        assert(q < n.quantization);
        assert forall|i: int| 0 <= i < 8 && bit_of(q as int, i) implies bit_of(
            midx as int,
            i,
        ) by {
            if i < nb {
                assert(n.bit_fixed_sets@[i].ids().contains(id));
                assert(n.bit_fixed_sets@[i].collides(id));
            } else {
                let qq = q;
                let nbu = nb as u8;
                let iu = i as u8;
                assert(qq < (1u8 << nbu) && nbu <= iu && iu < 8 ==> (qq >> iu) & 1u8 == 0u8)
                    by (bit_vector);
            }
        }
        lemma_submask_of_idx(q, midx);
        assert(n.exclusive_key_fixed_sets@[q as int].ids().contains(id));
        assert(n.exclusive_key_fixed_sets@[q as int].collides(id));
        assert(false);
    }
}

/// The node a path of child slots leads to, if every slot on the way is
/// occupied.
pub open spec fn spec_find_at(n: InvertedIndexSparseAnnNodeBasicTSHashmap, p: Seq<usize>) -> Option<
    InvertedIndexSparseAnnNodeBasicTSHashmap,
>
    decreases p.len(),
{
    if p.len() == 0 {
        Some(n)
    } else if p[0] < 16 {
        match n.lazy_children.slots@[p[0] as int] {
            Some(c) => spec_find_at(*c, p.drop_first()),
            None => None,
        }
    } else {
        None
    }
}

/// Every node a path reaches inside a well-formed tree is well formed, keeps
/// the tree's quantization, and sits at the start dimension plus the path's
/// offset sum: the path reconstructed by decomposition lands on its dimension.
pub proof fn lemma_find_props(n: InvertedIndexSparseAnnNodeBasicTSHashmap, p: Seq<usize>)
    requires
        n.wf_node(),
        spec_find_at(n, p) is Some,
    ensures
        spec_find_at(n, p)->Some_0.wf_node(),
        spec_find_at(n, p)->Some_0.dim_index as int == n.dim_index as int + path_sum(p),
        spec_find_at(n, p)->Some_0.quantization == n.quantization,
    decreases p.len(),
{
    if p.len() > 0 {
        let c = n.lazy_children.slots@[p[0] as int]->Some_0;
        lemma_find_props(*c, p.drop_first());
    }
}

/// Two nodes hold the same postings, the same filter contents and the same
/// dimension: nothing an insert elsewhere would change.
pub open spec fn same_local(
    a: InvertedIndexSparseAnnNodeBasicTSHashmap,
    b: InvertedIndexSparseAnnNodeBasicTSHashmap,
) -> bool {
    &&& b.dim_index == a.dim_index
    &&& b.implicit == a.implicit
    &&& b.quantization == a.quantization
    &&& b.data@.len() == a.data@.len()
    &&& (forall|q: int| 0 <= q < a.data@.len() ==> (#[trigger] b.data@[q]).ids() == a.data@[q].ids())
    &&& b.exclusive_key_fixed_sets@.len() == a.exclusive_key_fixed_sets@.len()
    &&& (forall|q: int|
        0 <= q < a.exclusive_key_fixed_sets@.len() ==> (#[trigger] b.exclusive_key_fixed_sets@[q]).ids()
            == a.exclusive_key_fixed_sets@[q].ids() && b.exclusive_key_fixed_sets@[q].num_bits()
            == a.exclusive_key_fixed_sets@[q].num_bits())
    &&& b.bit_fixed_sets@.len() == a.bit_fixed_sets@.len()
    &&& (forall|i: int|
        0 <= i < a.bit_fixed_sets@.len() ==> (#[trigger] b.bit_fixed_sets@[i]).ids()
            == a.bit_fixed_sets@[i].ids() && b.bit_fixed_sets@[i].num_bits()
            == a.bit_fixed_sets@[i].num_bits())
}

/// The node holds no postings and its filters are empty.
pub open spec fn empty_local(b: InvertedIndexSparseAnnNodeBasicTSHashmap) -> bool {
    &&& (forall|q: int| 0 <= q < b.data@.len() ==> (#[trigger] b.data@[q]).ids() == Seq::<
        u32,
    >::empty())
    &&& (forall|q: int|
        0 <= q < b.exclusive_key_fixed_sets@.len() ==> (
        #[trigger] b.exclusive_key_fixed_sets@[q]).ids() == Set::<u32>::empty())
    &&& (forall|i: int|
        0 <= i < b.bit_fixed_sets@.len() ==> (#[trigger] b.bit_fixed_sets@[i]).ids() == Set::<
        u32,
    >::empty())
}

/// What an operation leaves of a node it did not target: either the place
/// still has no node, or the node is untouched, or it was created fresh on the
/// way down and is still empty.
pub open spec fn frame_rel(
    o: Option<InvertedIndexSparseAnnNodeBasicTSHashmap>,
    n: Option<InvertedIndexSparseAnnNodeBasicTSHashmap>,
) -> bool {
    match (o, n) {
        (Option::None, Option::None) => true,
        (Option::Some(a), Option::Some(b)) => same_local(a, b),
        (Option::None, Option::Some(b)) => b.implicit && empty_local(b),
        (Option::Some(_), Option::None) => false,
    }
}

pub proof fn lemma_frame_rel_refl(o: Option<InvertedIndexSparseAnnNodeBasicTSHashmap>)
    ensures
        frame_rel(o, o),
{
}

proof fn lemma_empty_transfers(
    a: InvertedIndexSparseAnnNodeBasicTSHashmap,
    b: InvertedIndexSparseAnnNodeBasicTSHashmap,
)
    requires
        same_local(a, b),
        empty_local(a),
    ensures
        empty_local(b),
{
}

proof fn lemma_inserted_from_empty(
    f: InvertedIndexSparseAnnNodeBasicTSHashmap,
    b: InvertedIndexSparseAnnNodeBasicTSHashmap,
    q: int,
    id: u32,
)
    requires
        empty_local(f),
        local_inserted(Some(f), b, q, id),
        f.data@.len() == b.data@.len(),
        f.exclusive_key_fixed_sets@.len() == b.exclusive_key_fixed_sets@.len(),
        f.bit_fixed_sets@.len() == b.bit_fixed_sets@.len(),
        0 <= q < f.exclusive_key_fixed_sets@.len(),
    ensures
        local_inserted(None, b, q, id),
{
    assert(old_bucket(Some(f), q) =~= old_bucket(None, q));
    assert forall|k: int| 0 <= k < b.data@.len() && k != q implies (#[trigger] b.data@[k]).ids()
        == old_bucket(None, k) by {
        assert(b.data@[k].ids() == old_bucket(Some(f), k));
        assert(old_bucket(Some(f), k) =~= old_bucket(None, k));
    }
    assert(old_excl(Some(f), q) =~= old_excl(None, q));
    assert(b.exclusive_key_fixed_sets@[q].ids() =~= old_excl(None, q).insert(id));
    assert forall|k: int|
        0 <= k < b.exclusive_key_fixed_sets@.len() && k != q implies (
    #[trigger] b.exclusive_key_fixed_sets@[k]).ids() == old_excl(None, k) by {
        assert(b.exclusive_key_fixed_sets@[k].ids() == old_excl(Some(f), k));
        assert(old_excl(Some(f), k) =~= old_excl(None, k));
    }
    assert forall|i: int| 0 <= i < b.bit_fixed_sets@.len() implies (
    #[trigger] b.bit_fixed_sets@[i]).ids() == if bit_of(q, i) {
        old_bits(None, i).insert(id)
    } else {
        old_bits(None, i)
    } by {
        assert(old_bits(Some(f), i) =~= old_bits(None, i));
        if bit_of(q, i) {
            assert(b.bit_fixed_sets@[i].ids() =~= old_bits(None, i).insert(id));
        }
    }
}

impl InvertedIndexSparseAnnNodeBasicTSHashmap {
    /// Inserts `vector_id` with `value` at the node that `path[pos..]` leads
    /// to below this node, creating each missing node on the way.
    pub(crate) fn insert_at_path(
        &mut self,
        path: &Vec<usize>,
        pos: usize,
        value: &Weight,
        vector_id: u32,
    )
        requires
            old(self).wf_node(),
            value.wf(),
            pos <= path@.len(),
            forall|k: int| pos <= k < path@.len() ==> #[trigger] path@[k] <= 7,
            old(self).dim_index as int + path_sum(path@.skip(pos as int)) < 0x1_0000_0000,
        ensures
            final(self).wf_node(),
            final(self).dim_index == old(self).dim_index,
            final(self).implicit == old(self).implicit,
            final(self).quantization == old(self).quantization,
            spec_find_at(*final(self), path@.skip(pos as int)) is Some,
            local_inserted(
                spec_find_at(*old(self), path@.skip(pos as int)),
                spec_find_at(*final(self), path@.skip(pos as int))->Some_0,
                spec_quantize(
                    value.num as int,
                    value.den as int,
                    old(self).quantization as int,
                ),
                vector_id,
            ),
            forall|p: Seq<usize>|
                p != path@.skip(pos as int) ==> frame_rel(
                    spec_find_at(*old(self), p),
                    #[trigger] spec_find_at(*final(self), p),
                ),
            forall|p: Seq<usize>|
                #[trigger] spec_find_at(*old(self), p) is Some ==> spec_find_at(
                    *final(self),
                    p,
                ) is Some,
        decreases path@.len() - pos,
    {
        proof {
            lemma_path_sum_nonneg(path@.skip(pos as int));
        }
        if pos == path.len() {
            proof {
                assert(path@.skip(pos as int) =~= Seq::<usize>::empty());
            }
            self.insert(value, vector_id);
            proof {
                let sp = path@.skip(pos as int);
                assert(spec_find_at(*self, sp) == Some(*self));
                assert forall|p: Seq<usize>| p != sp implies frame_rel(
                    spec_find_at(*old(self), p),
                    #[trigger] spec_find_at(*self, p),
                ) by {
                    if p.len() == 0 {
                        assert(p =~= sp);
                        assert(false);
                    }
                    lemma_find_unchanged_through_slots(*old(self), *self, p);
                    lemma_frame_rel_refl(spec_find_at(*old(self), p));
                }
                assert forall|p: Seq<usize>| #[trigger] spec_find_at(*old(self), p) is Some implies
                    spec_find_at(*self, p) is Some by {
                    if p.len() > 0 {
                        lemma_find_unchanged_through_slots(*old(self), *self, p);
                    }
                }
            }
        } else {
            let i = path[pos];
            proof {
                assert(path@.skip(pos as int)[0] == path@[pos as int]);
                assert(path@.skip(pos as int).drop_first() =~= path@.skip(pos as int + 1));
                lemma_path_sum_nonneg(path@.skip(pos as int + 1));
            }
            let step = pow4_table(i);
            let child_dim = self.dim_index + step;
            let quantization = self.quantization;
            self.lazy_children.get_or_insert(i, child_dim, quantization);
            let ghost mid = *self;
            proof {
                assert forall|j: int| 0 <= j < 16 implies match #[trigger] mid.lazy_children.slots@[j] {
                    Some(c) => {
                        &&& c.dim_index as int == mid.dim_index as int + pow4(j)
                        &&& c.quantization == mid.quantization
                        &&& c.implicit == true
                        &&& c.wf_node()
                    },
                    None => true,
                } by {
                    if j != i {
                        assert(mid.lazy_children.slots@[j] == old(self).lazy_children.slots@[j]);
                    } else if old(self).lazy_children.slots@[j] is Some {
                        assert(mid.lazy_children.slots@[j] == old(self).lazy_children.slots@[j]);
                    } else {
                        let f = mid.lazy_children.slots@[j]->Some_0;
                        assert(f.is_empty_node(child_dim, true, quantization));
                        assert(f.wf_node());
                    }
                }
                assert forall|k: int, pos2: int|
                    0 <= k < mid.data@.len() && 0 <= pos2 < mid.data@[k].ids().len() implies #[trigger] mid.entry_covered(
                    k,
                    pos2,
                ) by {
                    assert(old(self).entry_covered(k, pos2));
                }
                assert(mid.local_wf());
                assert(mid.wf_node());
            }
            let slot_ref = elem_mut(&mut self.lazy_children.slots, i);
            match slot_ref {
                Some(c) => {
                    proof {
                        assert((**c).wf_node());
                    }
                    c.insert_at_path(path, pos + 1, value, vector_id);
                },
                None => {
                    proof {
                        assert(false);
                    }
                },
            }
            proof {
                lemma_insert_step_composes(
                    *old(self),
                    mid,
                    *self,
                    path@,
                    pos as int,
                    i as int,
                    spec_quantize(
                        value.num as int,
                        value.den as int,
                        old(self).quantization as int,
                    ),
                    vector_id,
                );
            }
        }
    }
}

/// One step of the insert recursion: what the recursive call guarantees of the
/// child below slot `path[pos]` lifts to the parent, for the whole suffix path.
proof fn lemma_insert_step_composes(
    oldn: InvertedIndexSparseAnnNodeBasicTSHashmap,
    mid: InvertedIndexSparseAnnNodeBasicTSHashmap,
    newn: InvertedIndexSparseAnnNodeBasicTSHashmap,
    path: Seq<usize>,
    pos: int,
    i: int,
    q: int,
    id: u32,
)
    requires
        oldn.wf_node(),
        mid.wf_node(),
        0 <= pos < path.len(),
        i == path[pos] as int,
        0 <= i < 16,
        mid.dim_index == oldn.dim_index,
        mid.implicit == oldn.implicit,
        mid.quantization == oldn.quantization,
        mid.data == oldn.data,
        mid.exclusive_key_fixed_sets == oldn.exclusive_key_fixed_sets,
        mid.bit_fixed_sets == oldn.bit_fixed_sets,
        forall|j: int|
            0 <= j < 16 && j != i ==> mid.lazy_children.slots@[j] == oldn.lazy_children.slots@[j],
        mid.lazy_children.slots@[i] is Some,
        oldn.lazy_children.slots@[i] is Some ==> mid.lazy_children.slots@[i]
            == oldn.lazy_children.slots@[i],
        oldn.lazy_children.slots@[i] is None ==> {
            let f = *mid.lazy_children.slots@[i]->Some_0;
            &&& empty_local(f)
            &&& f.implicit
            &&& forall|j: int|
                0 <= j < f.lazy_children.slots@.len() ==> f.lazy_children.slots@[j] is None
        },
        newn.dim_index == mid.dim_index,
        newn.implicit == mid.implicit,
        newn.quantization == mid.quantization,
        newn.data == mid.data,
        newn.exclusive_key_fixed_sets == mid.exclusive_key_fixed_sets,
        newn.bit_fixed_sets == mid.bit_fixed_sets,
        newn.lazy_children.slots@ == mid.lazy_children.slots@.update(
            i,
            newn.lazy_children.slots@[i],
        ),
        newn.lazy_children.slots@[i] is Some,
        ({
            let cm = *mid.lazy_children.slots@[i]->Some_0;
            let cf = *newn.lazy_children.slots@[i]->Some_0;
            let spc = path.skip(pos + 1);
            &&& cf.wf_node()
            &&& cf.dim_index == cm.dim_index
            &&& cf.implicit == cm.implicit
            &&& cf.quantization == cm.quantization
            &&& spec_find_at(cf, spc) is Some
            &&& local_inserted(spec_find_at(cm, spc), spec_find_at(cf, spc)->Some_0, q, id)
            &&& (forall|p: Seq<usize>|
                p != spc ==> frame_rel(spec_find_at(cm, p), #[trigger] spec_find_at(cf, p)))
            &&& (forall|p: Seq<usize>|
                #[trigger] spec_find_at(cm, p) is Some ==> spec_find_at(cf, p) is Some)
        }),
    ensures
        newn.wf_node(),
        spec_find_at(newn, path.skip(pos)) is Some,
        local_inserted(
            spec_find_at(oldn, path.skip(pos)),
            spec_find_at(newn, path.skip(pos))->Some_0,
            q,
            id,
        ),
        forall|p: Seq<usize>|
            p != path.skip(pos) ==> frame_rel(
                spec_find_at(oldn, p),
                #[trigger] spec_find_at(newn, p),
            ),
        forall|p: Seq<usize>|
            #[trigger] spec_find_at(oldn, p) is Some ==> spec_find_at(newn, p) is Some,
{
    let sp = path.skip(pos);
    let spc = path.skip(pos + 1);
    let cm = *mid.lazy_children.slots@[i]->Some_0;
    let cf = *newn.lazy_children.slots@[i]->Some_0;
    assert(sp.len() > 0);
    assert(sp[0] == path[pos]);
    assert(sp.drop_first() =~= spc);
    assert(newn.lazy_children.slots@.len() == 16);
    assert(cm.wf_node() && cm.quantization == mid.quantization) by {
        assert(mid.lazy_children.slots@[i] is Some);
    }
    assert(cm.lazy_children.slots@.len() == 16);

    assert forall|j: int| 0 <= j < 16 implies match #[trigger] newn.lazy_children.slots@[j] {
        Some(c) => {
            &&& c.dim_index as int == newn.dim_index as int + pow4(j)
            &&& c.quantization == newn.quantization
            &&& c.implicit == true
            &&& c.wf_node()
        },
        None => true,
    } by {
        if j == i {
            assert(newn.lazy_children.slots@[i]->Some_0 == cf);
        } else {
            assert(newn.lazy_children.slots@[j] == mid.lazy_children.slots@[j]);
        }
    }
    assert forall|k: int, pos2: int|
        0 <= k < newn.data@.len() && 0 <= pos2 < newn.data@[k].ids().len() implies #[trigger] newn.entry_covered(
        k,
        pos2,
    ) by {
        assert(oldn.entry_covered(k, pos2));
    }
    assert(newn.local_wf());
    assert(newn.wf_node());

    assert(spec_find_at(newn, sp) == spec_find_at(cf, spc));
    if oldn.lazy_children.slots@[i] is Some {
        assert(cm == *oldn.lazy_children.slots@[i]->Some_0);
        assert(spec_find_at(oldn, sp) == spec_find_at(cm, spc));
    } else {
        assert(spec_find_at(oldn, sp) is None);
        if spc.len() == 0 {
            assert(spec_find_at(cm, spc) == Some(cm));
            lemma_find_props(cf, spc);
            lemma_inserted_from_empty(cm, spec_find_at(cf, spc)->Some_0, q, id);
        } else {
            if spc[0] < 16 {
                assert(cm.lazy_children.slots@[spc[0] as int] is None);
            }
            assert(spec_find_at(cm, spc) is None);
        }
    }

    assert forall|p: Seq<usize>| p != sp implies frame_rel(
        spec_find_at(oldn, p),
        #[trigger] spec_find_at(newn, p),
    ) by {
        if p.len() == 0 {
            assert(same_local(oldn, newn));
        } else if p[0] as int == i {
            let pc = p.drop_first();
            if pc == spc {
                assert(p[0] == sp[0]);
                assert forall|k2: int| 0 <= k2 < p.len() implies p[k2] == sp[k2] by {
                    if k2 > 0 {
                        assert(p[k2] == pc[k2 - 1]);
                        assert(sp[k2] == sp.drop_first()[k2 - 1]);
                    }
                }
                assert(p =~= sp);
            }
            assert(pc != spc);
            assert(spec_find_at(newn, p) == spec_find_at(cf, pc));
            assert(frame_rel(spec_find_at(cm, pc), spec_find_at(cf, pc)));
            if oldn.lazy_children.slots@[i] is Some {
                assert(spec_find_at(oldn, p) == spec_find_at(cm, pc));
            } else {
                assert(spec_find_at(oldn, p) is None);
                if pc.len() == 0 {
                    assert(spec_find_at(cm, pc) == Some(cm));
                    match spec_find_at(cf, pc) {
                        Some(b) => {
                            lemma_empty_transfers(cm, b);
                            assert(b.implicit == cm.implicit);
                        },
                        None => {
                            assert(false);
                        },
                    }
                } else {
                    if pc[0] < 16 {
                        assert(cm.lazy_children.slots@[pc[0] as int] is None);
                    }
                    assert(spec_find_at(cm, pc) is None);
                }
            }
        } else {
            if p[0] < 16 {
                assert(newn.lazy_children.slots@[p[0] as int] == oldn.lazy_children.slots@[p[0] as int]);
            }
            assert(spec_find_at(oldn, p) == spec_find_at(newn, p));
            lemma_frame_rel_refl(spec_find_at(oldn, p));
        }
    }

    assert forall|p: Seq<usize>| #[trigger] spec_find_at(oldn, p) is Some implies spec_find_at(
        newn,
        p,
    ) is Some by {
        if p.len() > 0 {
            if p[0] as int == i {
                let pc = p.drop_first();
                assert(oldn.lazy_children.slots@[i] is Some);
                assert(spec_find_at(oldn, p) == spec_find_at(cm, pc));
                assert(spec_find_at(newn, p) == spec_find_at(cf, pc));
            } else {
                if p[0] < 16 {
                    assert(newn.lazy_children.slots@[p[0] as int] == oldn.lazy_children.slots@[p[0] as int]);
                }
                assert(spec_find_at(oldn, p) == spec_find_at(newn, p));
            }
        }
    }
}

impl InvertedIndexSparseAnnNodeBasicTSHashmap {
    /// Finds or creates the node that `path[pos..]` leads to below this node.
    /// Creation only: every posting bucket and filter of the tree, existing or
    /// fresh, is left exactly as a node untouched by an insert.
    pub fn find_or_create_node(&mut self, path: &Vec<usize>, pos: usize)
        requires
            old(self).wf_node(),
            pos <= path@.len(),
            forall|k: int| pos <= k < path@.len() ==> #[trigger] path@[k] <= 7,
            old(self).dim_index as int + path_sum(path@.skip(pos as int)) < 0x1_0000_0000,
        ensures
            final(self).wf_node(),
            final(self).dim_index == old(self).dim_index,
            final(self).implicit == old(self).implicit,
            final(self).quantization == old(self).quantization,
            spec_find_at(*final(self), path@.skip(pos as int)) is Some,
            forall|p: Seq<usize>|
                frame_rel(spec_find_at(*old(self), p), #[trigger] spec_find_at(*final(self), p)),
            forall|p: Seq<usize>|
                #[trigger] spec_find_at(*old(self), p) is Some ==> spec_find_at(
                    *final(self),
                    p,
                ) is Some,
        decreases path@.len() - pos,
    {
        proof {
            lemma_path_sum_nonneg(path@.skip(pos as int));
        }
        if pos == path.len() {
            proof {
                assert(path@.skip(pos as int) =~= Seq::<usize>::empty());
                assert forall|p: Seq<usize>| frame_rel(
                    spec_find_at(*old(self), p),
                    #[trigger] spec_find_at(*self, p),
                ) by {
                    lemma_frame_rel_refl(spec_find_at(*old(self), p));
                }
            }
        } else {
            let i = path[pos];
            proof {
                assert(path@.skip(pos as int)[0] == path@[pos as int]);
                assert(path@.skip(pos as int).drop_first() =~= path@.skip(pos as int + 1));
                lemma_path_sum_nonneg(path@.skip(pos as int + 1));
            }
            let step = pow4_table(i);
            let child_dim = self.dim_index + step;
            let quantization = self.quantization;
            self.lazy_children.get_or_insert(i, child_dim, quantization);
            let ghost mid = *self;
            proof {
                assert forall|j: int| 0 <= j < 16 implies match #[trigger] mid.lazy_children.slots@[j] {
                    Some(c) => {
                        &&& c.dim_index as int == mid.dim_index as int + pow4(j)
                        &&& c.quantization == mid.quantization
                        &&& c.implicit == true
                        &&& c.wf_node()
                    },
                    None => true,
                } by {
                    if j != i {
                        assert(mid.lazy_children.slots@[j] == old(self).lazy_children.slots@[j]);
                    } else if old(self).lazy_children.slots@[j] is Some {
                        assert(mid.lazy_children.slots@[j] == old(self).lazy_children.slots@[j]);
                    } else {
                        let f = mid.lazy_children.slots@[j]->Some_0;
                        assert(f.is_empty_node(child_dim, true, quantization));
                        assert(f.wf_node());
                    }
                }
                assert forall|k: int, pos2: int|
                    0 <= k < mid.data@.len() && 0 <= pos2 < mid.data@[k].ids().len() implies #[trigger] mid.entry_covered(
                    k,
                    pos2,
                ) by {
                    assert(old(self).entry_covered(k, pos2));
                }
                assert(mid.local_wf());
                assert(mid.wf_node());
            }
            let slot_ref = elem_mut(&mut self.lazy_children.slots, i);
            match slot_ref {
                Some(c) => {
                    proof {
                        assert((**c).wf_node());
                    }
                    c.find_or_create_node(path, pos + 1);
                },
                None => {
                    proof {
                        assert(false);
                    }
                },
            }
            proof {
                lemma_create_step_composes(*old(self), mid, *self, path@, pos as int, i as int);
            }
        }
    }
}

/// One step of the creation recursion: what the recursive call guarantees of
/// the child below slot `path[pos]` lifts to the parent.
proof fn lemma_create_step_composes(
    oldn: InvertedIndexSparseAnnNodeBasicTSHashmap,
    mid: InvertedIndexSparseAnnNodeBasicTSHashmap,
    newn: InvertedIndexSparseAnnNodeBasicTSHashmap,
    path: Seq<usize>,
    pos: int,
    i: int,
)
    requires
        oldn.wf_node(),
        mid.wf_node(),
        0 <= pos < path.len(),
        i == path[pos] as int,
        0 <= i < 16,
        mid.dim_index == oldn.dim_index,
        mid.implicit == oldn.implicit,
        mid.quantization == oldn.quantization,
        mid.data == oldn.data,
        mid.exclusive_key_fixed_sets == oldn.exclusive_key_fixed_sets,
        mid.bit_fixed_sets == oldn.bit_fixed_sets,
        forall|j: int|
            0 <= j < 16 && j != i ==> mid.lazy_children.slots@[j] == oldn.lazy_children.slots@[j],
        mid.lazy_children.slots@[i] is Some,
        oldn.lazy_children.slots@[i] is Some ==> mid.lazy_children.slots@[i]
            == oldn.lazy_children.slots@[i],
        oldn.lazy_children.slots@[i] is None ==> {
            let f = *mid.lazy_children.slots@[i]->Some_0;
            &&& empty_local(f)
            &&& f.implicit
            &&& forall|j: int|
                0 <= j < f.lazy_children.slots@.len() ==> f.lazy_children.slots@[j] is None
        },
        newn.dim_index == mid.dim_index,
        newn.implicit == mid.implicit,
        newn.quantization == mid.quantization,
        newn.data == mid.data,
        newn.exclusive_key_fixed_sets == mid.exclusive_key_fixed_sets,
        newn.bit_fixed_sets == mid.bit_fixed_sets,
        newn.lazy_children.slots@ == mid.lazy_children.slots@.update(
            i,
            newn.lazy_children.slots@[i],
        ),
        newn.lazy_children.slots@[i] is Some,
        ({
            let cm = *mid.lazy_children.slots@[i]->Some_0;
            let cf = *newn.lazy_children.slots@[i]->Some_0;
            let spc = path.skip(pos + 1);
            &&& cf.wf_node()
            &&& cf.dim_index == cm.dim_index
            &&& cf.implicit == cm.implicit
            &&& cf.quantization == cm.quantization
            &&& spec_find_at(cf, spc) is Some
            &&& (forall|p: Seq<usize>|
                frame_rel(spec_find_at(cm, p), #[trigger] spec_find_at(cf, p)))
            &&& (forall|p: Seq<usize>|
                #[trigger] spec_find_at(cm, p) is Some ==> spec_find_at(cf, p) is Some)
        }),
    ensures
        newn.wf_node(),
        spec_find_at(newn, path.skip(pos)) is Some,
        forall|p: Seq<usize>|
            frame_rel(spec_find_at(oldn, p), #[trigger] spec_find_at(newn, p)),
        forall|p: Seq<usize>|
            #[trigger] spec_find_at(oldn, p) is Some ==> spec_find_at(newn, p) is Some,
{
    let sp = path.skip(pos);
    let spc = path.skip(pos + 1);
    let cm = *mid.lazy_children.slots@[i]->Some_0;
    let cf = *newn.lazy_children.slots@[i]->Some_0;
    assert(sp.len() > 0);
    assert(sp[0] == path[pos]);
    assert(sp.drop_first() =~= spc);
    assert(newn.lazy_children.slots@.len() == 16);
    assert(cm.wf_node() && cm.quantization == mid.quantization) by {
        assert(mid.lazy_children.slots@[i] is Some);
    }
    assert(cm.lazy_children.slots@.len() == 16);

    assert forall|j: int| 0 <= j < 16 implies match #[trigger] newn.lazy_children.slots@[j] {
        Some(c) => {
            &&& c.dim_index as int == newn.dim_index as int + pow4(j)
            &&& c.quantization == newn.quantization
            &&& c.implicit == true
            &&& c.wf_node()
        },
        None => true,
    } by {
        if j == i {
            assert(newn.lazy_children.slots@[i]->Some_0 == cf);
        } else {
            assert(newn.lazy_children.slots@[j] == mid.lazy_children.slots@[j]);
        }
    }
    assert forall|k: int, pos2: int|
        0 <= k < newn.data@.len() && 0 <= pos2 < newn.data@[k].ids().len() implies #[trigger] newn.entry_covered(
        k,
        pos2,
    ) by {
        assert(oldn.entry_covered(k, pos2));
    }
    assert(newn.local_wf());
    assert(newn.wf_node());

    assert(spec_find_at(newn, sp) == spec_find_at(cf, spc));

    assert forall|p: Seq<usize>| frame_rel(
        spec_find_at(oldn, p),
        #[trigger] spec_find_at(newn, p),
    ) by {
        if p.len() == 0 {
            assert(same_local(oldn, newn));
        } else if p[0] as int == i {
            let pc = p.drop_first();
            assert(spec_find_at(newn, p) == spec_find_at(cf, pc));
            assert(frame_rel(spec_find_at(cm, pc), spec_find_at(cf, pc)));
            if oldn.lazy_children.slots@[i] is Some {
                assert(spec_find_at(oldn, p) == spec_find_at(cm, pc));
            } else {
                assert(spec_find_at(oldn, p) is None);
                if pc.len() == 0 {
                    assert(spec_find_at(cm, pc) == Some(cm));
                    match spec_find_at(cf, pc) {
                        Some(b) => {
                            lemma_empty_transfers(cm, b);
                            assert(b.implicit == cm.implicit);
                        },
                        None => {
                            assert(false);
                        },
                    }
                } else {
                    if pc[0] < 16 {
                        assert(cm.lazy_children.slots@[pc[0] as int] is None);
                    }
                    assert(spec_find_at(cm, pc) is None);
                }
            }
        } else {
            if p[0] < 16 {
                assert(newn.lazy_children.slots@[p[0] as int] == oldn.lazy_children.slots@[p[0] as int]);
            }
            assert(spec_find_at(oldn, p) == spec_find_at(newn, p));
            lemma_frame_rel_refl(spec_find_at(oldn, p));
        }
    }

    assert forall|p: Seq<usize>| #[trigger] spec_find_at(oldn, p) is Some implies spec_find_at(
        newn,
        p,
    ) is Some by {
        if p.len() > 0 {
            if p[0] as int == i {
                let pc = p.drop_first();
                assert(oldn.lazy_children.slots@[i] is Some);
                assert(spec_find_at(oldn, p) == spec_find_at(cm, pc));
                assert(spec_find_at(newn, p) == spec_find_at(cf, pc));
            } else {
                if p[0] < 16 {
                    assert(newn.lazy_children.slots@[p[0] as int] == oldn.lazy_children.slots@[p[0] as int]);
                }
                assert(spec_find_at(oldn, p) == spec_find_at(newn, p));
            }
        }
    }
}

impl InvertedIndexSparseAnnNodeBasicTSHashmap {
    /// The node `path[pos..]` leads to below this node, if each slot on the
    /// way is occupied.
    pub fn find_at(&self, path: &Vec<usize>, pos: usize) -> (r: Option<&Self>)
        requires
            self.wf_node(),
            pos <= path@.len(),
            forall|k: int| pos <= k < path@.len() ==> #[trigger] path@[k] <= 7,
        ensures
            r is Some <==> spec_find_at(*self, path@.skip(pos as int)) is Some,
            r is Some ==> *r->Some_0 == spec_find_at(*self, path@.skip(pos as int))->Some_0,
        decreases path@.len() - pos,
    {
        if pos == path.len() {
            proof {
                assert(path@.skip(pos as int) =~= Seq::<usize>::empty());
            }
            Some(self)
        } else {
            proof {
                assert(path@.skip(pos as int)[0] == path@[pos as int]);
                assert(path@.skip(pos as int).drop_first() =~= path@.skip(pos as int + 1));
            }
            match self.lazy_children.get(path[pos]) {
                Some(c) => c.find_at(path, pos + 1),
                None => None,
            }
        }
    }

    /// Scans this node's buckets, smallest key first, for `vector_id` after
    /// walking the rest of the path: the exact verifier behind the
    /// filter-based search.
    pub fn get_value(&self, path: &Vec<usize>, pos: usize, vector_id: u32) -> (r: Option<u8>)
        requires
            self.wf_node(),
            pos <= path@.len(),
            forall|k: int| pos <= k < path@.len() ==> #[trigger] path@[k] <= 7,
        ensures
            match spec_find_at(*self, path@.skip(pos as int)) {
                Option::None => r is None,
                Option::Some(m) => {
                    &&& (r is None ==> forall|q: int|
                        0 <= q < m.data@.len() ==> !(#[trigger] m.data@[q]).ids().contains(
                            vector_id,
                        ))
                    &&& (r is Some ==> {
                        &&& 0 <= (r->Some_0 as int) < m.data@.len()
                        &&& m.data@[r->Some_0 as int].ids().contains(vector_id)
                        &&& forall|q: int|
                            0 <= q < r->Some_0 as int ==> !(#[trigger] m.data@[q]).ids().contains(
                                vector_id,
                            )
                    })
                },
            },
        decreases path@.len() - pos,
    {
        if pos < path.len() {
            proof {
                assert(path@.skip(pos as int)[0] == path@[pos as int]);
                assert(path@.skip(pos as int).drop_first() =~= path@.skip(pos as int + 1));
            }
            match self.lazy_children.get(path[pos]) {
                Some(c) => c.get_value(path, pos + 1, vector_id),
                None => None,
            }
        } else {
            proof {
                assert(path@.skip(pos as int) =~= Seq::<usize>::empty());
            }
            let mut q: usize = 0;
            while q < self.data.len()
                invariant
                    self.wf_node(),
                    q <= self.data@.len(),
                    spec_find_at(*self, path@.skip(pos as int)) == Some(*self),
                    forall|k: int|
                        0 <= k < q ==> !(#[trigger] self.data@[k]).ids().contains(vector_id),
                decreases self.data@.len() - q,
            {
                if self.data[q].contains(vector_id) {
                    proof {
                        assert(valid_quantization(self.quantization as int));
                        assert(q < 64);
                    }
                    return Some(q as u8);
                }
                q = q + 1;
            }
            None
        }
    }

    /// Walks from this node to `dim_index`, then scans the buckets there.
    pub fn get(&self, dim_index: u32, vector_id: u32) -> (r: Option<u8>)
        requires
            self.wf_node(),
            self.dim_index <= dim_index,
        ensures
            match spec_find_at(*self, path_spec(dim_index - self.dim_index)) {
                Option::None => r is None,
                Option::Some(m) => {
                    &&& (r is None ==> forall|q: int|
                        0 <= q < m.data@.len() ==> !(#[trigger] m.data@[q]).ids().contains(
                            vector_id,
                        ))
                    &&& (r is Some ==> {
                        &&& 0 <= (r->Some_0 as int) < m.data@.len()
                        &&& m.data@[r->Some_0 as int].ids().contains(vector_id)
                        &&& forall|q: int|
                            0 <= q < r->Some_0 as int ==> !(#[trigger] m.data@[q]).ids().contains(
                                vector_id,
                            )
                    })
                },
            },
    {
        let path = calculate_path(dim_index, self.dim_index);
        proof {
            lemma_path_spec_valid(dim_index - self.dim_index);
            assert(path@.skip(0) =~= path@);
        }
        self.get_value(&path, 0, vector_id)
    }
}

/// Whatever a bucket holds, the exclusive filter for that bucket key reports
/// membership for it: for every id in bucket `q` of a well-formed node, the
/// exclusive filter `q` holds the id, so a membership query answers true.
pub proof fn lemma_bucket_covered_by_filters(
    n: InvertedIndexSparseAnnNodeBasicTSHashmap,
    q: int,
    k: int,
    id: u32,
)
    requires
        n.local_wf(),
        0 <= q < n.data@.len(),
        0 <= k < n.data@[q].ids().len(),
        id == n.data@[q].ids()[k],
    ensures
        n.exclusive_key_fixed_sets@[q].ids().contains(id),
        n.exclusive_key_fixed_sets@[q].collides(id),
        forall|i: int|
            0 <= i < n.bits() && bit_of(q, i) ==> (#[trigger] n.bit_fixed_sets@[i]).ids().contains(
                id,
            ),
{
    assert(n.entry_covered(q, k));
}

/// When two nodes share their child slots, every nonempty path finds the same
/// node under both.
proof fn lemma_find_unchanged_through_slots(
    a: InvertedIndexSparseAnnNodeBasicTSHashmap,
    b: InvertedIndexSparseAnnNodeBasicTSHashmap,
    p: Seq<usize>,
)
    requires
        p.len() > 0,
        a.lazy_children == b.lazy_children,
    ensures
        spec_find_at(a, p) == spec_find_at(b, p),
{
}

/// All nonzero submasks of `num`, in ascending numeric order.
pub fn get_permutations(num: u8) -> (r: Vec<u8>)
    ensures
        forall|b: u8| #[trigger] r@.contains(b) <==> (b != 0 && submask(b, num)),
        forall|i: int, j: int| 0 <= i < j < r@.len() ==> r@[i] < r@[j],
{
    let mut result: Vec<u8> = Vec::new();
    let mut b: u16 = 1;
    while b <= num as u16
        invariant
            1 <= b <= num as u16 + 1,
            forall|x: u8| #[trigger] result@.contains(x) <==> (x != 0 && x < b && submask(x, num)),
            forall|i: int, j: int| 0 <= i < j < result@.len() ==> result@[i] < result@[j],
            forall|i: int| 0 <= i < result@.len() ==> (#[trigger] result@[i]) < b,
        decreases num as int + 1 - b as int,
    {
        let x = b as u8;
        proof {
            assert(x as u16 == b);
        }
        let ghost prev = result@;
        if x & num == x {
            result.push(x);
            proof {
                assert forall|y: u8| #[trigger] result@.contains(y) <==> (y != 0 && y < b + 1
                    && submask(y, num)) by {
                    assert(result@.contains(y) == prev.push(x).contains(y));
                    assert(prev.push(x).contains(y) <==> prev.contains(y) || y == x);
                }
            }
        } else {
            proof {
                assert forall|y: u8| #[trigger] result@.contains(y) <==> (y != 0 && y < b + 1
                    && submask(y, num)) by {
                    if y == x {
                        assert(!submask(x, num));
                    }
                }
            }
        }
        b = b + 1;
    }
    proof {
        assert forall|x: u8| result@.contains(x) <==> (x != 0 && submask(x, num)) by {
            assert(x & num == x ==> x <= num) by (bit_vector);
        }
    }
    result
}

} // verus!

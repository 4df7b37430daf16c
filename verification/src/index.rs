//! The index façade: the root of the dimension tree and the whole-index
//! operations over it.

use crate::node::{
    frame_rel, lemma_find_props, local_inserted, spec_find_at, valid_quantization,
    InvertedIndexSparseAnnNodeBasicTSHashmap,
};
use crate::power4::{
    calculate_path, lemma_path_spec_sum, lemma_path_spec_valid, path_spec,
};
use crate::weight::{lemma_quantize_bounds, spec_quantize, SparseVector, Weight};
use crate::InvertedIndexError;
use vstd::prelude::*;

verus! {

broadcast use vstd::seq_lib::lemma_seq_contains_after_push;

/// A sparse-vector inverted index over quantized weights.
pub struct InvertedIndexSparseAnnBasicTSHashmap {
    pub root: InvertedIndexSparseAnnNodeBasicTSHashmap,
}

impl InvertedIndexSparseAnnBasicTSHashmap {
    /// The tree below the root is well formed and the root is dimension 0.
    pub open spec fn wf(&self) -> bool {
        &&& self.root.wf_node()
        &&& self.root.dim_index == 0
        &&& self.root.implicit == false
    }

    /// The quantization level the index was built with.
    pub open spec fn quantization(&self) -> int {
        self.root.quantization as int
    }

    /// Creates an empty index; the quantization level must be 16, 32 or 64.
    pub fn new(quantization: u8) -> (r: Result<Self, InvertedIndexError>)
        ensures
            valid_quantization(quantization as int) <==> r is Ok,
            r is Ok ==> r->Ok_0.wf() && r->Ok_0.root.is_empty_node(0, false, quantization),
            r is Err ==> r->Err_0 == InvertedIndexError::InvalidQuantization,
    {
        if quantization == 16 || quantization == 32 || quantization == 64 {
            Ok(
                InvertedIndexSparseAnnBasicTSHashmap {
                    root: InvertedIndexSparseAnnNodeBasicTSHashmap::new(0, false, quantization),
                },
            )
        } else {
            Err(InvertedIndexError::InvalidQuantization)
        }
    }

    /// Inserts `vector_id` under the quantized `value` at the node for
    /// `dim_index`, creating the nodes on the way as needed. Exactly the
    /// target bucket gains the id, appended at its end; every other bucket
    /// and filter of the whole index is untouched.
    pub fn insert(&mut self, dim_index: u32, value: &Weight, vector_id: u32)
        requires
            old(self).wf(),
            value.wf(),
        ensures
            final(self).wf(),
            final(self).quantization() == old(self).quantization(),
            spec_find_at(final(self).root, path_spec(dim_index as int)) is Some,
            local_inserted(
                spec_find_at(old(self).root, path_spec(dim_index as int)),
                spec_find_at(final(self).root, path_spec(dim_index as int))->Some_0,
                spec_quantize(value.num as int, value.den as int, old(self).quantization()),
                vector_id,
            ),
            forall|p: Seq<usize>|
                p != path_spec(dim_index as int) ==> frame_rel(
                    spec_find_at(old(self).root, p),
                    #[trigger] spec_find_at(final(self).root, p),
                ),
            forall|p: Seq<usize>|
                #[trigger] spec_find_at(old(self).root, p) is Some ==> spec_find_at(
                    final(self).root,
                    p,
                ) is Some,
    {
        let path = calculate_path(dim_index, 0);
        proof {
            lemma_path_spec_valid(dim_index as int);
            lemma_path_spec_sum(dim_index as int);
            assert(path@.skip(0) =~= path@);
        }
        self.root.insert_at_path(&path, 0, value, vector_id);
    }

    /// The node standing for `dim_index`, if the tree has materialized it.
    /// A found node's dimension is exactly `dim_index`.
    pub fn find_node(&self, dim_index: u32) -> (r: Option<
        &InvertedIndexSparseAnnNodeBasicTSHashmap,
    >)
        requires
            self.wf(),
        ensures
            r is Some <==> spec_find_at(self.root, path_spec(dim_index as int)) is Some,
            r is Some ==> *r->Some_0 == spec_find_at(
                self.root,
                path_spec(dim_index as int),
            )->Some_0,
            r is Some ==> r->Some_0.dim_index == dim_index && r->Some_0.wf_node(),
    {
        let path = calculate_path(dim_index, 0);
        proof {
            lemma_path_spec_valid(dim_index as int);
            lemma_path_spec_sum(dim_index as int);
            assert(path@.skip(0) =~= path@);
            if spec_find_at(self.root, path_spec(dim_index as int)) is Some {
                lemma_find_props(self.root, path_spec(dim_index as int));
            }
        }
        self.root.find_at(&path, 0)
    }

    /// Looks `vector_id` up at `dim_index`'s node by the acceleration
    /// filters. The filters are approximate: the key returned may be wrong
    /// for a colliding id, but whenever the id sits in any nonzero bucket of
    /// that node, some key is returned.
    pub fn lookup(&self, dim_index: u32, vector_id: u32) -> (r: Option<u8>)
        requires
            self.wf(),
        ensures
            match spec_find_at(self.root, path_spec(dim_index as int)) {
                Option::None => r is None,
                Option::Some(m) => {
                    &&& (r is Some ==> 1 <= r->Some_0 && (r->Some_0 as int) < m.quantization as int
                        && m.exclusive_key_fixed_sets@[r->Some_0 as int].collides(vector_id))
                    &&& ((exists|q: u8|
                        1 <= q && (q as int) < m.data@.len() && m.data@[q as int].ids().contains(
                            vector_id,
                        )) ==> r is Some)
                },
            },
    {
        match self.find_node(dim_index) {
            Some(n) => n.find_key_of_id(vector_id),
            None => None,
        }
    }

    /// The exact, scan-based lookup: the smallest bucket key at `dim_index`'s
    /// node whose bucket holds `vector_id`.
    pub fn get(&self, dim_index: u32, vector_id: u32) -> (r: Option<u8>)
        requires
            self.wf(),
        ensures
            match spec_find_at(self.root, path_spec(dim_index as int)) {
                Option::None => r is None,
                Option::Some(m) => {
                    &&& (r is None ==> forall|q: int|
                        0 <= q < m.data@.len() ==> !(#[trigger] m.data@[q]).ids().contains(
                            vector_id,
                        ))
                    &&& (r is Some ==> {
                        &&& 0 <= (r->Some_0 as int) < m.data@.len()
                        &&& m.data@[r->Some_0 as int].ids().contains(vector_id)
                        &&& forall|q: int|
                            0 <= q < r->Some_0 as int ==> !(#[trigger] m.data@[q]).ids().contains(
                                vector_id,
                            )
                    })
                },
            },
    {
        self.root.get(dim_index, vector_id)
    }

    /// Adds a sparse vector: inserts its id at every entry with a nonzero
    /// weight, and skips the zero entries. A vector of zeros leaves the
    /// index untouched. Always succeeds.
    pub fn add_sparse_vector(&mut self, vector: &SparseVector) -> (r: Result<(), String>)
        requires
            old(self).wf(),
            vector.wf(),
        ensures
            final(self).wf(),
            final(self).quantization() == old(self).quantization(),
            r is Ok,
            forall|j: int|
                0 <= j < vector.entries@.len() && (#[trigger] vector.entries@[j]).1.num != 0 ==> {
                    let m = spec_find_at(
                        final(self).root,
                        path_spec(vector.entries@[j].0 as int),
                    );
                    let qj = spec_quantize(
                        vector.entries@[j].1.num as int,
                        vector.entries@[j].1.den as int,
                        old(self).quantization(),
                    );
                    &&& m is Some
                    &&& m->Some_0.data@[qj].ids().contains(vector.vector_id)
                },
            (forall|j: int|
                0 <= j < vector.entries@.len() ==> (#[trigger] vector.entries@[j]).1.num == 0)
                ==> *final(self) == *old(self),
    {
        let vector_id = vector.vector_id;
        let mut j: usize = 0;
        while j < vector.entries.len()
            invariant
                old(self).wf(),
                vector.wf(),
                self.wf(),
                j <= vector.entries@.len(),
                self.quantization() == old(self).quantization(),
                vector_id == vector.vector_id,
                forall|k: int|
                    0 <= k < j && (#[trigger] vector.entries@[k]).1.num != 0 ==> {
                        let m = spec_find_at(
                            self.root,
                            path_spec(vector.entries@[k].0 as int),
                        );
                        let qk = spec_quantize(
                            vector.entries@[k].1.num as int,
                            vector.entries@[k].1.den as int,
                            old(self).quantization(),
                        );
                        &&& m is Some
                        &&& m->Some_0.data@[qk].ids().contains(vector_id)
                    },
                (forall|k: int| 0 <= k < j ==> (#[trigger] vector.entries@[k]).1.num == 0)
                    ==> *self == *old(self),
            decreases vector.entries@.len() - j,
        {
            let ghost prev = *self;
            let dim_index = vector.entries[j].0;
            let w = &vector.entries[j].1;
            if w.num != 0 {
                self.insert(dim_index, w, vector_id);
                proof {
                    assert forall|k: int|
                        0 <= k < j + 1 && (#[trigger] vector.entries@[k]).1.num != 0 implies {
                        let m = spec_find_at(
                            self.root,
                            path_spec(vector.entries@[k].0 as int),
                        );
                        let qk = spec_quantize(
                            vector.entries@[k].1.num as int,
                            vector.entries@[k].1.den as int,
                            old(self).quantization(),
                        );
                        &&& m is Some
                        &&& m->Some_0.data@[qk].ids().contains(vector_id)
                    } by {
                        let pk = path_spec(vector.entries@[k].0 as int);
                        let pj = path_spec(dim_index as int);
                        let qk = spec_quantize(
                            vector.entries@[k].1.num as int,
                            vector.entries@[k].1.den as int,
                            old(self).quantization(),
                        );
                        let qj = spec_quantize(
                            w.num as int,
                            w.den as int,
                            old(self).quantization(),
                        );
                        lemma_quantize_bounds(
                            vector.entries@[k].1.num as int,
                            vector.entries@[k].1.den as int,
                            old(self).quantization(),
                        );
                        if k < j {
                            lemma_find_props(prev.root, pk);
                            let mprev = spec_find_at(prev.root, pk)->Some_0;
                            assert(spec_find_at(self.root, pk) is Some);
                            lemma_find_props(self.root, pk);
                            let mnew = spec_find_at(self.root, pk)->Some_0;
                            if pk == pj {
                                assert(mnew.data@[qj].ids() == mprev.data@[qj].ids().push(
                                    vector_id,
                                ));
                                if qk != qj {
                                    assert(mnew.data@[qk].ids() == mprev.data@[qk].ids());
                                }
                            } else {
                                assert(frame_rel(
                                    spec_find_at(prev.root, pk),
                                    spec_find_at(self.root, pk),
                                ));
                                assert(mnew.data@[qk].ids() == mprev.data@[qk].ids());
                            }
                        }
                    }
                }
            }
            j = j + 1;
        }
        Ok(())
    }
}

} // verus!

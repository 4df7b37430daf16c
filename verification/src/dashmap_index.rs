//! The DashMap-backed variant of the index: each node keeps one concurrent
//! map from vector id straight to its quantized value, instead of posting
//! buckets and filters.

use crate::power4::{
    calculate_path, lemma_path_spec_sum, lemma_path_spec_valid, lemma_path_sum_nonneg, path_spec,
    path_sum, pow4, pow4_table,
};
use crate::weight::{spec_quantize, SparseVector, Weight};
use vstd::prelude::*;

verus! {

#[verifier::external_type_specification]
#[verifier::external_body]
#[verifier::reject_recursive_types(K)]
#[verifier::reject_recursive_types(V)]
#[verifier::reject_recursive_types(S)]
pub struct ExDashMap<K, V, S>(dashmap::DashMap<K, V, S>);

/// A node's concurrent map from vector id to quantized value.
pub type IdKeyMap = dashmap::DashMap<u32, u8>;

/// What a map holds: the mathematical map from vector id to quantized value.
pub uninterp spec fn dash_contents(m: IdKeyMap) -> Map<u32, u8>;

/// The mapping of a node that holds nothing yet.
pub open spec fn empty_id_map() -> Map<u32, u8> {
    Map::empty()
}

/// Relies on dashmap::DashMap::new: a fresh map holds nothing.
#[verifier::external_body]
fn dash_new() -> (r: IdKeyMap)
    ensures
        dash_contents(r) == empty_id_map(),
{
    dashmap::DashMap::new()
}

/// Relies on dashmap::DashMap::insert: afterwards the map holds `v` under `k`
/// and is otherwise unchanged; any value previously under `k` is replaced.
#[verifier::external_body]
fn dash_insert(m: &mut IdKeyMap, k: u32, v: u8)
    ensures
        dash_contents(*final(m)) == dash_contents(*old(m)).insert(k, v),
{
    let _ = m.insert(k, v);
}

/// Relies on dashmap::DashMap::get: the value stored under `k`, if any.
#[verifier::external_body]
fn dash_get(m: &IdKeyMap, k: u32) -> (r: Option<u8>)
    ensures
        r == if dash_contents(*m).dom().contains(k) {
            Some(dash_contents(*m)[k])
        } else {
            None::<u8>
        },
{
    m.get(&k).map(|entry| *entry)
}

/// A node of the DashMap-backed tree; the quantization here is fixed at 64.
pub struct InvertedIndexSparseAnnNodeBasicDashMap {
    pub dim_index: u32,
    pub implicit: bool,
    pub data: IdKeyMap,
    pub lazy_children: Vec<Option<Box<InvertedIndexSparseAnnNodeBasicDashMap>>>,
}

impl InvertedIndexSparseAnnNodeBasicDashMap {
    /// The id-to-key mapping this node holds.
    pub open spec fn entries(&self) -> Map<u32, u8> {
        dash_contents(self.data)
    }

    /// Sixteen slots, each child standing `pow4(slot)` above its parent.
    pub open spec fn wf_node(&self) -> bool
        decreases self,
    {
        &&& self.lazy_children@.len() == 16
        &&& forall|i: int|
            0 <= i < 16 ==> match #[trigger] self.lazy_children@[i] {
                Some(c) => {
                    &&& c.dim_index as int == self.dim_index as int + pow4(i)
                    &&& c.implicit == true
                    &&& c.wf_node()
                },
                None => true,
            }
    }

    /// Builds an empty node for a dimension.
    pub fn new(dim_index: u32, implicit: bool) -> (r: Self)
        ensures
            r.wf_node(),
            r.dim_index == dim_index,
            r.implicit == implicit,
            r.entries() == empty_id_map(),
            forall|i: int| 0 <= i < 16 ==> r.lazy_children@[i] is None,
    {
        let mut lazy_children: Vec<Option<Box<InvertedIndexSparseAnnNodeBasicDashMap>>> =
            Vec::new();
        while lazy_children.len() < 16
            invariant
                lazy_children@.len() <= 16,
                forall|i: int| 0 <= i < lazy_children@.len() ==> lazy_children@[i] is None,
            decreases 16 - lazy_children@.len(),
        {
            lazy_children.push(None);
        }
        InvertedIndexSparseAnnNodeBasicDashMap { dim_index, implicit, data: dash_new(), lazy_children }
    }

    /// The quantizer of this variant: 64 buckets, fixed.
    pub fn quantize(value: &Weight) -> (q: u8)
        requires
            value.wf(),
        ensures
            q as int == spec_quantize(value.num as int, value.den as int, 64),
            q < 64,
    {
        proof {
            crate::weight::lemma_quantize_bounds(value.num as int, value.den as int, 64);
        }
        if value.num <= 0 {
            0
        } else if value.num >= value.den {
            63
        } else {
            let n = value.num as u64;
            let d = value.den as u64;
            proof {
                assert(n * 63 < 0x1_0000_0000u64 * 64) by (nonlinear_arith)
                    requires
                        n < 0x1_0000_0000u64,
                ;
            }
            ((n * 63) / d) as u8
        }
    }

    /// Records the quantized value of `value` for `vector_id` at this node.
    pub fn insert(&mut self, value: &Weight, vector_id: u32)
        requires
            old(self).wf_node(),
            value.wf(),
        ensures
            final(self).wf_node(),
            final(self).dim_index == old(self).dim_index,
            final(self).implicit == old(self).implicit,
            final(self).lazy_children == old(self).lazy_children,
            final(self).entries() == old(self).entries().insert(
                vector_id,
                (spec_quantize(value.num as int, value.den as int, 64)) as u8,
            ),
    {
        let quantized_value = Self::quantize(value);
        dash_insert(&mut self.data, vector_id, quantized_value);
        proof {
            assert forall|i: int| 0 <= i < 16 implies match #[trigger] self.lazy_children@[i] {
                Some(c) => {
                    &&& c.dim_index as int == self.dim_index as int + pow4(i)
                    &&& c.implicit == true
                    &&& c.wf_node()
                },
                None => true,
            } by {
                assert(self.lazy_children@[i] == old(self).lazy_children@[i]);
            }
        }
    }
}

/// The node a path of child slots leads to in this variant.
pub open spec fn dash_find_at(n: InvertedIndexSparseAnnNodeBasicDashMap, p: Seq<usize>) -> Option<
    InvertedIndexSparseAnnNodeBasicDashMap,
>
    decreases p.len(),
{
    if p.len() == 0 {
        Some(n)
    } else if p[0] < 16 {
        match n.lazy_children@[p[0] as int] {
            Some(c) => dash_find_at(*c, p.drop_first()),
            None => None,
        }
    } else {
        None
    }
}

/// The mapping at the node a path leads to; empty where there is no node.
pub open spec fn dash_entries_at(n: InvertedIndexSparseAnnNodeBasicDashMap, p: Seq<usize>) -> Map<
    u32,
    u8,
> {
    match dash_find_at(n, p) {
        Some(m) => m.entries(),
        None => Map::empty(),
    }
}

/// A found node sits at the start dimension plus the path's offset sum.
pub proof fn lemma_dash_find_props(n: InvertedIndexSparseAnnNodeBasicDashMap, p: Seq<usize>)
    requires
        n.wf_node(),
        dash_find_at(n, p) is Some,
    ensures
        dash_find_at(n, p)->Some_0.wf_node(),
        dash_find_at(n, p)->Some_0.dim_index as int == n.dim_index as int + path_sum(p),
    decreases p.len(),
{
    if p.len() > 0 {
        let c = n.lazy_children@[p[0] as int]->Some_0;
        lemma_dash_find_props(*c, p.drop_first());
    }
}

impl InvertedIndexSparseAnnNodeBasicDashMap {
    /// Finds or creates the node `path[pos..]` leads to and records the
    /// quantized value of `value` for `vector_id` there. Every id already
    /// recorded anywhere stays recorded.
    pub(crate) fn insert_at_path(
        &mut self,
        path: &Vec<usize>,
        pos: usize,
        value: &Weight,
        vector_id: u32,
    )
        requires
            old(self).wf_node(),
            value.wf(),
            pos <= path@.len(),
            forall|k: int| pos <= k < path@.len() ==> #[trigger] path@[k] <= 7,
            old(self).dim_index as int + path_sum(path@.skip(pos as int)) < 0x1_0000_0000,
        ensures
            final(self).wf_node(),
            final(self).dim_index == old(self).dim_index,
            final(self).implicit == old(self).implicit,
            dash_find_at(*final(self), path@.skip(pos as int)) is Some,
            dash_entries_at(*final(self), path@.skip(pos as int)) == dash_entries_at(
                *old(self),
                path@.skip(pos as int),
            ).insert(vector_id, (spec_quantize(value.num as int, value.den as int, 64)) as u8),
            forall|p: Seq<usize>, x: u32|
                #[trigger] dash_entries_at(*old(self), p).dom().contains(x) ==> dash_entries_at(
                    *final(self),
                    p,
                ).dom().contains(x),
        decreases path@.len() - pos,
    {
        proof {
            lemma_path_sum_nonneg(path@.skip(pos as int));
        }
        if pos == path.len() {
            proof {
                assert(path@.skip(pos as int) =~= Seq::<usize>::empty());
            }
            self.insert(value, vector_id);
            proof {
                assert forall|p: Seq<usize>, x: u32|
                    #[trigger] dash_entries_at(*old(self), p).dom().contains(x) implies dash_entries_at(
                    *self,
                    p,
                ).dom().contains(x) by {
                    if p.len() == 0 {
                        assert(dash_entries_at(*self, p) == old(self).entries().insert(
                            vector_id,
                            (spec_quantize(value.num as int, value.den as int, 64)) as u8,
                        ));
                    } else {
                        assert(dash_find_at(*old(self), p) == dash_find_at(*self, p));
                    }
                }
            }
        } else {
            let i = path[pos];
            proof {
                assert(path@.skip(pos as int)[0] == path@[pos as int]);
                assert(path@.skip(pos as int).drop_first() =~= path@.skip(pos as int + 1));
                lemma_path_sum_nonneg(path@.skip(pos as int + 1));
            }
            let step = pow4_table(i);
            let child_dim = self.dim_index + step;
            if self.lazy_children[i].is_none() {
                let fresh = Self::new(child_dim, true);
                self.lazy_children.set(i, Some(Box::new(fresh)));
            }
            let ghost mid = *self;
            proof {
                assert forall|j: int| 0 <= j < 16 implies match #[trigger] mid.lazy_children@[j] {
                    Some(c) => {
                        &&& c.dim_index as int == mid.dim_index as int + pow4(j)
                        &&& c.implicit == true
                        &&& c.wf_node()
                    },
                    None => true,
                } by {
                    if j != i {
                        assert(mid.lazy_children@[j] == old(self).lazy_children@[j]);
                    }
                }
                assert(mid.wf_node());
            }
            let slot_ref = crate::node::elem_mut(&mut self.lazy_children, i);
            match slot_ref {
                Some(c) => {
                    proof {
                        assert((**c).wf_node());
                    }
                    c.insert_at_path(path, pos + 1, value, vector_id);
                },
                None => {
                    proof {
                        assert(false);
                    }
                },
            }
            proof {
                let sp = path@.skip(pos as int);
                let spc = path@.skip(pos as int + 1);
                let cm = *mid.lazy_children@[i as int]->Some_0;
                let cf = *self.lazy_children@[i as int]->Some_0;
                assert(sp.drop_first() =~= spc);
                assert(sp[0] == path@[pos as int]);
                assert(dash_find_at(*self, sp) == dash_find_at(cf, spc));
                assert forall|j: int| 0 <= j < 16 implies match #[trigger] self.lazy_children@[j] {
                    Some(c) => {
                        &&& c.dim_index as int == self.dim_index as int + pow4(j)
                        &&& c.implicit == true
                        &&& c.wf_node()
                    },
                    None => true,
                } by {
                    if j != i {
                        assert(self.lazy_children@[j] == mid.lazy_children@[j]);
                    } else {
                        assert(self.lazy_children@[j]->Some_0 == self.lazy_children@[i as int]->Some_0);
                    }
                }
                assert(self.wf_node());
                if old(self).lazy_children@[i as int] is Some {
                    assert(cm == *old(self).lazy_children@[i as int]->Some_0);
                    assert(dash_find_at(*old(self), sp) == dash_find_at(cm, spc));
                } else {
                    assert(dash_find_at(*old(self), sp) is None);
                    if spc.len() == 0 {
                        assert(dash_entries_at(cm, spc) =~= dash_entries_at(*old(self), sp));
                    } else {
                        if spc[0] < 16 {
                            assert(cm.lazy_children@[spc[0] as int] is None);
                        }
                        assert(dash_find_at(cm, spc) is None);
                    }
                }
                assert(dash_entries_at(*self, sp) == dash_entries_at(*old(self), sp).insert(
                    vector_id,
                    (spec_quantize(value.num as int, value.den as int, 64)) as u8,
                ));
                assert forall|p: Seq<usize>, x: u32|
                    #[trigger] dash_entries_at(*old(self), p).dom().contains(x) implies dash_entries_at(
                    *self,
                    p,
                ).dom().contains(x) by {
                    if p.len() == 0 {
                        assert(dash_find_at(*old(self), p) == Some(*old(self)));
                        assert(old(self).entries() == mid.entries());
                        assert(dash_find_at(*self, p) == Some(*self));
                    } else if p[0] as int == i as int {
                        let pc = p.drop_first();
                        assert(old(self).lazy_children@[i as int] is Some);
                        assert(dash_find_at(*old(self), p) == dash_find_at(cm, pc));
                        assert(dash_find_at(*self, p) == dash_find_at(cf, pc));
                        assert(dash_entries_at(cm, pc).dom().contains(x));
                        assert(dash_entries_at(cf, pc).dom().contains(x));
                    } else {
                        if p[0] < 16 {
                            assert(self.lazy_children@[p[0] as int] == old(self).lazy_children@[p[0] as int]);
                        }
                        assert(dash_find_at(*old(self), p) == dash_find_at(*self, p));
                    }
                }
            }
        }
    }

    /// The quantized value recorded for `vector_id` at the node `path[pos..]`
    /// leads to, if the node exists and has the id.
    pub fn get_value(&self, path: &Vec<usize>, pos: usize, vector_id: u32) -> (r: Option<u8>)
        requires
            self.wf_node(),
            pos <= path@.len(),
            forall|k: int| pos <= k < path@.len() ==> #[trigger] path@[k] <= 7,
        ensures
            r == (if dash_entries_at(*self, path@.skip(pos as int)).dom().contains(vector_id) {
                Some(dash_entries_at(*self, path@.skip(pos as int))[vector_id])
            } else {
                None::<u8>
            }),
        decreases path@.len() - pos,
    {
        if pos < path.len() {
            proof {
                assert(path@.skip(pos as int)[0] == path@[pos as int]);
                assert(path@.skip(pos as int).drop_first() =~= path@.skip(pos as int + 1));
            }
            let i = path[pos];
            match &self.lazy_children[i] {
                Some(c) => c.get_value(path, pos + 1, vector_id),
                None => None,
            }
        } else {
            proof {
                assert(path@.skip(pos as int) =~= Seq::<usize>::empty());
            }
            dash_get(&self.data, vector_id)
        }
    }

    /// Walks from this node to `dim_index`, then reads the mapping there.
    pub fn get(&self, dim_index: u32, vector_id: u32) -> (r: Option<u8>)
        requires
            self.wf_node(),
            self.dim_index <= dim_index,
        ensures
            r == (if dash_entries_at(*self, path_spec(dim_index - self.dim_index)).dom().contains(
                vector_id,
            ) {
                Some(dash_entries_at(*self, path_spec(dim_index - self.dim_index))[vector_id])
            } else {
                None::<u8>
            }),
    {
        let path = calculate_path(dim_index, self.dim_index);
        proof {
            lemma_path_spec_valid(dim_index - self.dim_index);
            assert(path@.skip(0) =~= path@);
        }
        self.get_value(&path, 0, vector_id)
    }
}

/// The DashMap-backed index façade.
pub struct InvertedIndexSparseAnnBasicDashMap {
    pub root: InvertedIndexSparseAnnNodeBasicDashMap,
}

impl InvertedIndexSparseAnnBasicDashMap {
    pub open spec fn wf(&self) -> bool {
        &&& self.root.wf_node()
        &&& self.root.dim_index == 0
        &&& self.root.implicit == false
    }

    /// An empty index; only the root exists.
    pub fn new() -> (r: Self)
        ensures
            r.wf(),
            forall|p: Seq<usize>| dash_entries_at(r.root, p) == empty_id_map(),
    {
        let r = InvertedIndexSparseAnnBasicDashMap {
            root: InvertedIndexSparseAnnNodeBasicDashMap::new(0, false),
        };
        proof {
            assert forall|p: Seq<usize>| dash_entries_at(r.root, p) == empty_id_map() by {
                if p.len() > 0 {
                    if p[0] < 16 {
                        assert(r.root.lazy_children@[p[0] as int] is None);
                    }
                    assert(dash_find_at(r.root, p) is None);
                }
            }
        }
        r
    }

    /// Records the quantized value of `value` for `vector_id` at the node for
    /// `dim_index`, creating its path as needed.
    pub fn insert(&mut self, dim_index: u32, value: &Weight, vector_id: u32)
        requires
            old(self).wf(),
            value.wf(),
        ensures
            final(self).wf(),
            dash_entries_at(final(self).root, path_spec(dim_index as int)) == dash_entries_at(
                old(self).root,
                path_spec(dim_index as int),
            ).insert(vector_id, (spec_quantize(value.num as int, value.den as int, 64)) as u8),
            forall|p: Seq<usize>, x: u32|
                #[trigger] dash_entries_at(old(self).root, p).dom().contains(x)
                    ==> dash_entries_at(final(self).root, p).dom().contains(x),
    {
        let path = calculate_path(dim_index, 0);
        proof {
            lemma_path_spec_valid(dim_index as int);
            lemma_path_spec_sum(dim_index as int);
            assert(path@.skip(0) =~= path@);
        }
        self.root.insert_at_path(&path, 0, value, vector_id);
    }

    /// The node standing for `dim_index`, if the tree has materialized it.
    pub fn find_node(&self, dim_index: u32) -> (r: Option<
        &InvertedIndexSparseAnnNodeBasicDashMap,
    >)
        requires
            self.wf(),
        ensures
            r is Some <==> dash_find_at(self.root, path_spec(dim_index as int)) is Some,
            r is Some ==> *r->Some_0 == dash_find_at(
                self.root,
                path_spec(dim_index as int),
            )->Some_0,
            r is Some ==> r->Some_0.dim_index == dim_index,
    {
        let path = calculate_path(dim_index, 0);
        proof {
            lemma_path_spec_valid(dim_index as int);
            lemma_path_spec_sum(dim_index as int);
            assert(path@.skip(0) =~= path@);
            if dash_find_at(self.root, path_spec(dim_index as int)) is Some {
                lemma_dash_find_props(self.root, path_spec(dim_index as int));
            }
        }
        self.root.find_at(&path, 0)
    }

    /// The quantized value recorded for `vector_id` at `dim_index`'s node.
    pub fn get(&self, dim_index: u32, vector_id: u32) -> (r: Option<u8>)
        requires
            self.wf(),
        ensures
            r == (if dash_entries_at(self.root, path_spec(dim_index as int)).dom().contains(
                vector_id,
            ) {
                Some(dash_entries_at(self.root, path_spec(dim_index as int))[vector_id])
            } else {
                None::<u8>
            }),
    {
        self.root.get(dim_index, vector_id)
    }

    /// Adds a sparse vector: records its id at every nonzero entry, skipping
    /// the zero entries. Always succeeds.
    pub fn add_sparse_vector(&mut self, vector: &SparseVector) -> (r: Result<(), String>)
        requires
            old(self).wf(),
            vector.wf(),
        ensures
            final(self).wf(),
            r is Ok,
            forall|j: int|
                0 <= j < vector.entries@.len() && (#[trigger] vector.entries@[j]).1.num != 0
                    ==> dash_entries_at(
                    final(self).root,
                    path_spec(vector.entries@[j].0 as int),
                ).dom().contains(vector.vector_id),
    {
        let vector_id = vector.vector_id;
        let mut j: usize = 0;
        while j < vector.entries.len()
            invariant
                vector.wf(),
                self.wf(),
                j <= vector.entries@.len(),
                vector_id == vector.vector_id,
                forall|k: int|
                    0 <= k < j && (#[trigger] vector.entries@[k]).1.num != 0 ==> dash_entries_at(
                        self.root,
                        path_spec(vector.entries@[k].0 as int),
                    ).dom().contains(vector_id),
            decreases vector.entries@.len() - j,
        {
            let dim_index = vector.entries[j].0;
            let w = &vector.entries[j].1;
            if w.num != 0 {
                self.insert(dim_index, w, vector_id);
            }
            j = j + 1;
        }
        Ok(())
    }
}

impl InvertedIndexSparseAnnNodeBasicDashMap {
    /// The node `path[pos..]` leads to below this node, if each slot on the
    /// way is occupied.
    pub fn find_at(&self, path: &Vec<usize>, pos: usize) -> (r: Option<&Self>)
        requires
            self.wf_node(),
            pos <= path@.len(),
            forall|k: int| pos <= k < path@.len() ==> #[trigger] path@[k] <= 7,
        ensures
            r is Some <==> dash_find_at(*self, path@.skip(pos as int)) is Some,
            r is Some ==> *r->Some_0 == dash_find_at(*self, path@.skip(pos as int))->Some_0,
        decreases path@.len() - pos,
    {
        if pos == path.len() {
            proof {
                assert(path@.skip(pos as int) =~= Seq::<usize>::empty());
            }
            Some(self)
        } else {
            proof {
                assert(path@.skip(pos as int)[0] == path@[pos as int]);
                assert(path@.skip(pos as int).drop_first() =~= path@.skip(pos as int + 1));
            }
            match &self.lazy_children[path[pos]] {
                Some(c) => c.find_at(path, pos + 1),
                None => None,
            }
        }
    }
}

} // verus!

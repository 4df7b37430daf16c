use sparse_ann_index::dashmap_index::{
    InvertedIndexSparseAnnBasicDashMap, InvertedIndexSparseAnnNodeBasicDashMap,
};
use sparse_ann_index::weight::{SparseVector, Weight};

fn w(value: f32) -> Weight {
    const SCALE: i64 = 1 << 24;
    Weight { num: (value as f64 * SCALE as f64).round() as i64, den: SCALE }
}

#[test]
fn dashmap_variant_quantizes_like_the_core() {
    assert_eq!(InvertedIndexSparseAnnNodeBasicDashMap::quantize(&w(0.0)), 0);
    assert_eq!(InvertedIndexSparseAnnNodeBasicDashMap::quantize(&w(0.5)), 31);
    assert_eq!(InvertedIndexSparseAnnNodeBasicDashMap::quantize(&w(1.0)), 63);
    assert_eq!(InvertedIndexSparseAnnNodeBasicDashMap::quantize(&w(2.0)), 63);
    assert_eq!(InvertedIndexSparseAnnNodeBasicDashMap::quantize(&w(-1.0)), 0);
}

#[test]
fn dashmap_variant_records_ids_under_their_keys() {
    let mut index = InvertedIndexSparseAnnBasicDashMap::new();
    index.insert(0, &w(0.5), 42);
    assert_eq!(index.get(0, 42), Some(31));
    assert_eq!(index.get(0, 43), None);
    // a later insert for the same id overwrites its key
    index.insert(0, &w(1.0), 42);
    assert_eq!(index.get(0, 42), Some(63));
}

#[test]
fn dashmap_variant_builds_the_same_tree_shape() {
    let mut index = InvertedIndexSparseAnnBasicDashMap::new();
    index.insert(5, &w(1.0), 7);
    let node = index.find_node(5).expect("node at dim 5");
    assert_eq!(node.dim_index, 5);
    assert!(index.find_node(4).is_some());
    assert!(index.find_node(3).is_none());
    assert_eq!(index.get(5, 7), Some(63));
}

#[test]
fn dashmap_variant_skips_zero_entries() {
    let mut index = InvertedIndexSparseAnnBasicDashMap::new();
    let vector = SparseVector { vector_id: 9, entries: vec![(100, w(0.0)), (3, w(0.25))] };
    assert_eq!(index.add_sparse_vector(&vector), Ok(()));
    assert!(index.find_node(100).is_none());
    assert_eq!(index.get(3, 9), Some(15));
}

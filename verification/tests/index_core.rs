use sparse_ann_index::index::InvertedIndexSparseAnnBasicTSHashmap;
use sparse_ann_index::node::{get_permutations, InvertedIndexSparseAnnNodeBasicTSHashmap};
use sparse_ann_index::power4::{calculate_path, try_calculate_path};
use sparse_ann_index::weight::{SparseVector, Weight};
use sparse_ann_index::InvertedIndexError;

const SCALE: i64 = 1 << 24;

fn w(value: f32) -> Weight {
    Weight { num: (value as f64 * SCALE as f64).round() as i64, den: SCALE }
}

#[test]
fn path_of_zero_is_empty() {
    assert_eq!(calculate_path(0, 0), Vec::<usize>::new());
}

#[test]
fn path_of_one_is_slot_zero() {
    assert_eq!(calculate_path(1, 0), vec![0]);
}

#[test]
fn path_of_largest_offset_uses_every_power_once() {
    assert_eq!(calculate_path(21845, 0), vec![7, 6, 5, 4, 3, 2, 1, 0]);
}

#[test]
fn path_sums_back_to_its_target() {
    let powers: [u32; 8] = [1, 4, 16, 64, 256, 1024, 4096, 16384];
    for t in [0u32, 1, 5, 12345, 21845, 70000] {
        let sum: u32 = calculate_path(t, 0).iter().map(|&i| powers[i]).sum();
        assert_eq!(sum, t);
    }
}

#[test]
fn path_below_base_is_rejected() {
    assert_eq!(
        try_calculate_path(1, 5),
        Err(InvertedIndexError::InvalidDimensionDelta)
    );
    assert_eq!(try_calculate_path(5, 1), Ok(vec![1]));
}

#[test]
fn permutations_of_eleven_are_its_nonzero_submasks_ascending() {
    assert_eq!(
        get_permutations(0b1011),
        vec![0b0001, 0b0010, 0b0011, 0b1000, 0b1001, 0b1010, 0b1011]
    );
}

#[test]
fn bit_filter_count_follows_quantization() {
    for (q, bits) in [(16u8, 4usize), (32, 5), (64, 6)] {
        let index = InvertedIndexSparseAnnBasicTSHashmap::new(q).unwrap();
        assert_eq!(index.root.bit_fixed_sets.len(), bits);
        assert_eq!(index.root.exclusive_key_fixed_sets.len(), q as usize);
    }
}

#[test]
fn construction_rejects_other_quantizations() {
    for q in [0u8, 1, 8, 10, 63, 128, 255] {
        match InvertedIndexSparseAnnBasicTSHashmap::new(q) {
            Err(InvertedIndexError::InvalidQuantization) => {}
            _ => panic!("quantization {} must be rejected", q),
        }
    }
}

#[test]
fn quantize_boundaries() {
    let index = InvertedIndexSparseAnnBasicTSHashmap::new(64).unwrap();
    assert_eq!(index.root.quantize(&w(0.0)), 0);
    assert_eq!(index.root.quantize(&w(1.0)), 63);
    assert_eq!(index.root.quantize(&w(0.5)), 31);
    // inputs outside [0, 1] are clamped
    assert_eq!(index.root.quantize(&w(-3.5)), 0);
    assert_eq!(index.root.quantize(&w(7.25)), 63);
    let q16 = InvertedIndexSparseAnnBasicTSHashmap::new(16).unwrap();
    assert_eq!(q16.root.quantize(&w(0.75)), 11);
}

#[test]
fn insert_at_root_then_lookup() {
    let mut index = InvertedIndexSparseAnnBasicTSHashmap::new(64).unwrap();
    index.insert(0, &w(0.5), 42);
    assert_eq!(index.lookup(0, 42), Some(31));
    assert_eq!(index.get(0, 42), Some(31));
    assert_eq!(index.lookup(0, 43), None);
}

#[test]
fn insert_at_dim_five_builds_the_expected_tree() {
    let mut index = InvertedIndexSparseAnnBasicTSHashmap::new(64).unwrap();
    index.insert(5, &w(1.0), 7);
    // 5 = 4 + 1, so the root has a child at slot 1 (dim 4) and under it one
    // at slot 0 (dim 5).
    let mid = index.root.lazy_children.slots[1].as_ref().expect("child at slot 1");
    assert_eq!(mid.dim_index, 4);
    assert!(mid.implicit);
    let leaf = mid.lazy_children.slots[0].as_ref().expect("child at slot 0");
    assert_eq!(leaf.dim_index, 5);
    let found = index.find_node(5).expect("find_node(5)");
    assert_eq!(found.dim_index, 5);
    assert!(index.find_node(4).is_some());
    assert!(index.find_node(3).is_none());
    assert_eq!(index.lookup(5, 7), Some(63));
    assert_eq!(index.get(5, 7), Some(63));
}

#[test]
fn zero_valued_entry_is_skipped() {
    let mut index = InvertedIndexSparseAnnBasicTSHashmap::new(64).unwrap();
    let vector = SparseVector { vector_id: 99, entries: vec![(21845, w(0.0))] };
    assert_eq!(index.add_sparse_vector(&vector), Ok(()));
    assert!(index.find_node(21845).is_none());
    assert_eq!(index.lookup(21845, 99), None);
}

#[test]
fn thousand_ids_land_in_their_quantized_buckets() {
    let mut index = InvertedIndexSparseAnnBasicTSHashmap::new(64).unwrap();
    for i in 0u32..1000 {
        let vector = SparseVector {
            vector_id: i,
            entries: vec![(0, Weight { num: i as i64, den: 999 })],
        };
        assert_eq!(index.add_sparse_vector(&vector), Ok(()));
    }
    for i in 0u32..1000 {
        let q = (i as u64 * 63 / 999) as u8;
        if i == 0 {
            // the zero-valued entry was skipped
            assert_eq!(index.get(0, 0), None);
            assert_eq!(index.lookup(0, 0), None);
        } else {
            assert_eq!(index.get(0, i), Some(q));
            if q == 0 {
                // a key of zero sets no bits, so the filter search sees nothing
                assert_eq!(index.lookup(0, i), None);
            } else {
                assert_eq!(index.lookup(0, i), Some(q));
            }
        }
    }
}

#[test]
fn colliding_ids_can_fool_the_filters_but_not_the_scan() {
    let mut index = InvertedIndexSparseAnnBasicTSHashmap::new(16).unwrap();
    // key 1 for id 1; key 8 for id 4097, which shares the bit-filter slot of
    // id 1 (4096 slots) and its exclusive-filter slot (512 slots).
    index.insert(0, &Weight { num: 1, den: 10 }, 1);
    index.insert(0, &Weight { num: 17, den: 30 }, 4097);
    // the candidate for id 1 becomes 0b1001; its own filter is empty, and the
    // largest passing submask is 0b1000: a false key.
    assert_eq!(index.lookup(0, 1), Some(8));
    // the posting-bucket verifier answers the true key.
    assert_eq!(index.get(0, 1), Some(1));
    assert_eq!(index.get(0, 4097), Some(8));
}

#[test]
fn filters_after_one_insert_with_sixteen_buckets() {
    let mut index = InvertedIndexSparseAnnBasicTSHashmap::new(16).unwrap();
    index.insert(3, &w(0.75), 1);
    let node = index.find_node(3).expect("node at dim 3");
    // quantize(0.75, 16) = 11 = 0b1011
    assert!(node.bit_fixed_sets[0].is_member(1));
    assert!(node.bit_fixed_sets[1].is_member(1));
    assert!(!node.bit_fixed_sets[2].is_member(1));
    assert!(node.bit_fixed_sets[3].is_member(1));
    assert!(node.exclusive_key_fixed_sets[11].is_member(1));
    assert!(!node.exclusive_key_fixed_sets[10].is_member(1));
    assert_eq!(index.lookup(3, 1), Some(11));
}

#[test]
fn slot_install_is_first_writer_wins() {
    let mut node = InvertedIndexSparseAnnNodeBasicTSHashmap::new(0, false, 64);
    node.lazy_children.get_or_insert(2, 16, 64);
    let first_dim = node.lazy_children.slots[2].as_ref().unwrap().dim_index;
    assert_eq!(first_dim, 16);
    // a later call with another dimension never changes the slot
    node.lazy_children.get_or_insert(2, 999, 64);
    assert_eq!(node.lazy_children.slots[2].as_ref().unwrap().dim_index, 16);
}

#[test]
fn repeated_inserts_of_same_id_stay_visible() {
    let mut index = InvertedIndexSparseAnnBasicTSHashmap::new(64).unwrap();
    for _ in 0..3 {
        index.insert(9, &w(0.25), 5);
    }
    // floor(0.25 * 63) = 15
    assert_eq!(index.get(9, 5), Some(15));
    assert_eq!(index.lookup(9, 5), Some(15));
}

#[test]
fn multi_entry_vector_reaches_every_dimension() {
    let mut index = InvertedIndexSparseAnnBasicTSHashmap::new(64).unwrap();
    let vector = SparseVector {
        vector_id: 77,
        entries: vec![(1, w(0.5)), (20, w(1.0)), (300, w(0.0)), (21845, w(0.125))],
    };
    assert_eq!(index.add_sparse_vector(&vector), Ok(()));
    assert_eq!(index.get(1, 77), Some(31));
    assert_eq!(index.get(20, 77), Some(63));
    assert!(index.find_node(300).is_none());
    assert_eq!(index.get(21845, 77), Some(7));
}

#[test]
fn find_or_create_builds_nodes_without_postings() {
    let mut node = InvertedIndexSparseAnnNodeBasicTSHashmap::new(0, false, 64);
    let path = calculate_path(21, 0);
    assert_eq!(path, vec![2, 1, 0]);
    node.find_or_create_node(&path, 0);
    let a = node.lazy_children.slots[2].as_ref().expect("dim 16");
    assert_eq!(a.dim_index, 16);
    let b = a.lazy_children.slots[1].as_ref().expect("dim 20");
    assert_eq!(b.dim_index, 20);
    let c = b.lazy_children.slots[0].as_ref().expect("dim 21");
    assert_eq!(c.dim_index, 21);
    assert!(c.implicit);
    // creation alone stores nothing anywhere
    assert_eq!(c.get_value(&Vec::new(), 0, 1), None);
}

#[test]
fn search_fixed_sets_assembles_the_candidate() {
    let mut index = InvertedIndexSparseAnnBasicTSHashmap::new(64).unwrap();
    index.insert(0, &w(0.5), 42);
    // quantize(0.5, 64) = 31 = 0b011111
    assert_eq!(index.root.search_fixed_sets(42), Some(31));
    assert_eq!(index.root.search_fixed_sets(41), None);
    assert_eq!(index.root.find_key_of_id(42), Some(31));
}

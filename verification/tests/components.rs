use sparse_ann_index::fixedset::PerformantFixedSet;
use sparse_ann_index::pagepool::Pagepool;
use sparse_ann_index::power4::largest_power_of_4_below;

#[test]
fn largest_power_picks_the_greatest_fit() {
    assert_eq!(largest_power_of_4_below(1), (0, 1));
    assert_eq!(largest_power_of_4_below(3), (0, 1));
    assert_eq!(largest_power_of_4_below(4), (1, 4));
    assert_eq!(largest_power_of_4_below(1023), (4, 256));
    assert_eq!(largest_power_of_4_below(16384), (7, 16384));
    assert_eq!(largest_power_of_4_below(u32::MAX), (7, 16384));
}

#[test]
fn fixed_set_has_no_false_negatives() {
    let mut set = PerformantFixedSet::new(8);
    for id in [1u32, 2, 3, 500, 100_000] {
        set.insert(id);
    }
    for id in [1u32, 2, 3, 500, 100_000] {
        assert!(set.is_member(id));
    }
    // ids hashing to untouched slots answer false
    assert!(!set.is_member(7));
    assert!(!set.is_member(450));
}

#[test]
fn fixed_set_false_positive_on_colliding_slot() {
    let mut set = PerformantFixedSet::new(8);
    set.insert(1);
    // 8 words of 64 bits give 512 slots, so 513 shares the slot of 1
    assert!(set.is_member(513));
}

#[test]
fn fixed_set_insert_is_idempotent() {
    let mut set = PerformantFixedSet::new(8);
    set.insert(42);
    set.insert(42);
    assert!(set.is_member(42));
    assert!(!set.is_member(41));
}

#[test]
fn pagepool_keeps_every_appended_id() {
    let mut pool = Pagepool::new();
    for id in 0u32..100 {
        pool.push(id);
    }
    for id in 0u32..100 {
        assert!(pool.contains(id));
    }
    assert!(!pool.contains(100));
    assert!(!pool.contains(u32::MAX));
}

#[test]
fn pagepool_empty_contains_nothing() {
    let pool = Pagepool::new();
    assert!(!pool.contains(0));
}

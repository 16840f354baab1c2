use algokit::lfu::LFUCache;

#[test]
fn fill_then_hit_then_evict_least_frequent() {
    let mut cache = LFUCache::new(2);
    assert!(cache.put(10, 100));
    assert!(cache.put(20, 200));
    assert_eq!(cache.inspect(), vec![(10, 100, 1), (20, 200, 1)]);

    assert_eq!(cache.get(10), Some(100));
    assert_eq!(cache.inspect(), vec![(10, 100, 2), (20, 200, 1)]);

    // 30 takes the slot that 20 leaves
    assert!(cache.put(30, 300));
    assert_eq!(cache.inspect(), vec![(10, 100, 2), (30, 300, 1)]);
    assert_eq!(cache.get(20), None);
    assert_eq!(cache.inspect(), vec![(10, 100, 2), (30, 300, 1)]);
    assert_eq!(cache.get(10), Some(100));
    assert_eq!(cache.get(30), Some(300));
    assert_eq!(cache.inspect(), vec![(10, 100, 3), (30, 300, 2)]);
}

#[test]
fn tie_is_broken_by_least_recent_promotion() {
    let mut cache = LFUCache::new(2);
    cache.put(10, 100);
    cache.put(20, 200);
    assert_eq!(cache.get(10), Some(100));
    cache.put(30, 300);
    assert_eq!(cache.inspect(), vec![(10, 100, 2), (30, 300, 1)]);

    assert_eq!(cache.get(30), Some(300));
    assert_eq!(cache.inspect(), vec![(10, 100, 2), (30, 300, 2)]);

    // 40 takes the slot that 10 leaves
    assert!(cache.put(40, 400));
    assert_eq!(cache.inspect(), vec![(40, 400, 1), (30, 300, 2)]);
    assert_eq!(cache.get(10), None);
    assert_eq!(cache.get(30), Some(300));
    assert_eq!(cache.get(40), Some(400));
}

#[test]
fn full_run_of_the_two_scenarios() {
    let mut cache = LFUCache::new(2);
    cache.put(10, 100);
    cache.put(20, 200);
    assert_eq!(cache.get(10), Some(100));
    cache.put(30, 300);
    assert_eq!(cache.get(20), None);
    assert_eq!(cache.get(10), Some(100));
    assert_eq!(cache.get(30), Some(300));
    // 10 has count 3, 30 has count 2
    assert_eq!(cache.inspect(), vec![(10, 100, 3), (30, 300, 2)]);
    assert_eq!(cache.get(30), Some(300));
    // both have count 3; 30 was promoted last, so 10 leaves
    cache.put(40, 400);
    assert_eq!(cache.get(10), None);
    assert_eq!(cache.get(30), Some(300));
    assert_eq!(cache.get(40), Some(400));
}

#[test]
fn capacity_zero_stores_nothing() {
    let mut cache = LFUCache::new(0);
    assert!(!cache.put(1, 1));
    assert!(!cache.put(1, 2));
    assert_eq!(cache.get(1), None);
    assert_eq!(cache.inspect(), vec![]);
}

#[test]
fn the_number_of_entries_never_exceeds_the_capacity() {
    let mut cache = LFUCache::new(3);
    for k in 0..50 {
        assert!(cache.put(k, k * 10));
        assert!(cache.inspect().len() <= 3);
        if k % 3 == 0 {
            cache.get(k);
        }
        if k % 7 == 0 {
            cache.get(k - 1);
        }
    }
    assert_eq!(cache.inspect().len(), 3);
}

#[test]
fn put_then_get_returns_the_value() {
    let mut cache = LFUCache::new(1);
    for k in 0..5 {
        assert!(cache.put(k, -k));
        assert_eq!(cache.get(k), Some(-k));
    }
}

#[test]
fn update_overwrites_and_counts_as_an_access() {
    let mut cache = LFUCache::new(2);
    cache.put(1, 10);
    cache.put(2, 20);
    assert!(cache.put(1, 11));
    assert_eq!(cache.inspect(), vec![(1, 11, 2), (2, 20, 1)]);
    // 2 has the smaller count and leaves
    cache.put(3, 30);
    assert_eq!(cache.get(2), None);
    assert_eq!(cache.get(1), Some(11));
}

#[test]
fn every_hit_adds_exactly_one_to_the_count() {
    let mut cache = LFUCache::new(2);
    cache.put(7, 70);
    for expected in 2..10 {
        assert_eq!(cache.get(7), Some(70));
        assert_eq!(cache.inspect(), vec![(7, 70, expected)]);
    }
}

#[test]
fn a_miss_changes_nothing_however_often() {
    let mut cache = LFUCache::new(2);
    cache.put(1, 10);
    cache.put(2, 20);
    let before = cache.inspect();
    for _ in 0..3 {
        assert_eq!(cache.get(99), None);
        assert_eq!(cache.inspect(), before);
    }
}

#[test]
fn an_evicted_key_stays_missing_until_it_is_put_again() {
    let mut cache = LFUCache::new(1);
    cache.put(1, 10);
    cache.put(2, 20);
    assert_eq!(cache.get(1), None);
    assert_eq!(cache.get(1), None);
    cache.put(1, 12);
    assert_eq!(cache.get(1), Some(12));
    assert_eq!(cache.inspect(), vec![(1, 12, 2)]);
}

#[test]
fn among_equal_counts_the_oldest_leaves() {
    let mut cache = LFUCache::new(3);
    cache.put(1, 1);
    cache.put(2, 2);
    cache.put(3, 3);
    // all have count 1; 1 is the oldest
    cache.put(4, 4);
    assert_eq!(cache.inspect(), vec![(4, 4, 1), (2, 2, 1), (3, 3, 1)]);
    cache.put(5, 5);
    assert_eq!(cache.inspect(), vec![(4, 4, 1), (5, 5, 1), (3, 3, 1)]);
}

#[test]
fn eviction_from_the_middle_of_the_counts() {
    let mut cache = LFUCache::new(3);
    cache.put(1, 1);
    cache.put(2, 2);
    cache.put(3, 3);
    cache.get(1);
    cache.get(1);
    cache.get(2);
    cache.get(3);
    cache.get(3);
    // counts: 1 -> 3, 2 -> 2, 3 -> 3
    cache.put(4, 4);
    assert_eq!(cache.inspect(), vec![(1, 1, 3), (4, 4, 1), (3, 3, 3)]);
    // the new key has the smallest count and leaves next
    cache.put(5, 5);
    assert_eq!(cache.inspect(), vec![(1, 1, 3), (5, 5, 1), (3, 3, 3)]);
}

#[test]
fn a_freed_slot_is_used_again() {
    let mut cache = LFUCache::new(2);
    cache.put(1, 1);
    cache.put(2, 2);
    cache.put(3, 3);
    // storage order: the slot of key 1 now holds key 3
    assert_eq!(cache.inspect(), vec![(3, 3, 1), (2, 2, 1)]);
}

#[test]
fn clear_forgets_everything_and_keeps_the_capacity() {
    let mut cache = LFUCache::new(2);
    cache.put(1, 1);
    cache.get(1);
    cache.put(2, 2);
    cache.clear();
    assert_eq!(cache.inspect(), vec![]);
    assert_eq!(cache.get(1), None);
    assert!(cache.put(3, 3));
    assert!(cache.put(4, 4));
    assert!(cache.put(5, 5));
    assert_eq!(cache.inspect(), vec![(5, 5, 1), (4, 4, 1)]);
}

#[test]
fn detach_from_head_middle_and_tail_of_a_bucket() {
    let mut cache = LFUCache::new(4);
    for k in 1..=4 {
        cache.put(k, k);
    }
    // bucket of count 1, head first: 4 3 2 1
    cache.get(3); // from the middle
    cache.get(4); // from the head
    cache.get(1); // from the tail
    // count 1: 2; count 2, head first: 1 4 3
    cache.put(5, 5); // 2 leaves
    assert_eq!(cache.get(2), None);
    cache.put(6, 6); // 5 leaves: it is alone at count 1
    assert_eq!(cache.get(5), None);
    cache.put(7, 7); // 6 leaves
    assert_eq!(cache.inspect(), vec![(1, 1, 2), (7, 7, 1), (3, 3, 2), (4, 4, 2)]);
    cache.get(7);
    // count 2, head first: 7 1 4 3: the tail 3 leaves
    cache.put(8, 8);
    assert_eq!(cache.get(3), None);
    assert_eq!(cache.inspect(), vec![(1, 1, 2), (7, 7, 2), (8, 8, 1), (4, 4, 2)]);
}

#[test]
fn counts_far_from_the_limit_can_go_up() {
    let mut cache = LFUCache::new(1);
    assert!(cache.can_get(1));
    assert!(cache.can_put(1));
    cache.put(1, 1);
    assert!(cache.can_get(1));
    assert!(cache.can_put(1));
    assert!(cache.can_put(2));
    let mut none = LFUCache::new(0);
    assert!(none.can_put(1));
    assert!(!none.put(1, 1));
}

#[test]
fn only_a_victim_alone_at_its_count_needs_headroom() {
    // with counts far below the limit every put fits
    let mut cache = LFUCache::new(2);
    cache.put(1, 1);
    cache.put(2, 2);
    assert!(cache.can_put(3));
    cache.get(1);
    assert!(cache.can_put(3));
}

#[test]
fn a_key_keeps_its_slot_while_it_is_stored() {
    let mut cache = LFUCache::new(3);
    cache.put(5, 50);
    cache.put(6, 60);
    cache.put(7, 70);
    cache.get(7);
    cache.put(5, 51);
    cache.get(6);
    cache.get(6);
    assert_eq!(cache.inspect(), vec![(5, 51, 2), (6, 60, 3), (7, 70, 2)]);
    let first = cache.inspect();
    assert_eq!(cache.inspect(), first);
}

use lld_rust::lfu_cache::{DoublyLinkedList, LFUCache, LfuNode};
use lld_rust::lru_cache::LRUCache;
use lld_rust::lru_ttl_cache::LRUCache as TtlCache;

#[test]
fn lru_demo_sequence() {
    let mut cache = LRUCache::new(2);
    assert_eq!(cache.capacity(), 2);
    cache.put(1, 1);
    assert_eq!(cache.cache_state(), "[1:1]");
    cache.put(2, 2);
    assert_eq!(cache.cache_state(), "[2:2] [1:1]");
    assert_eq!(cache.get(1), 1);
    assert_eq!(cache.cache_state(), "[1:1] [2:2]");
    cache.put(3, 3);
    assert_eq!(cache.cache_state(), "[3:3] [1:1]");
    assert_eq!(cache.get(2), -1);
    cache.put(4, 4);
    assert_eq!(cache.cache_state(), "[4:4] [3:3]");
    assert_eq!(cache.get(1), -1);
    assert_eq!(cache.get(3), 3);
    assert_eq!(cache.get(4), 4);
    assert_eq!(cache.cache_state(), "[4:4] [3:3]");
}

#[test]
fn lru_cache_miss() {
    let mut c = LRUCache::new(2);
    assert_eq!(c.get(99), -1);
}

#[test]
fn lru_basic_eviction() {
    let mut c = LRUCache::new(2);
    c.put(1, 1);
    c.put(2, 2);
    c.put(3, 3);
    assert_eq!(c.get(1), -1);
    assert_eq!(c.get(2), 2);
    assert_eq!(c.get(3), 3);
}

#[test]
fn lru_get_refreshes_recency() {
    let mut c = LRUCache::new(2);
    c.put(1, 1);
    c.put(2, 2);
    c.get(1);
    c.put(3, 3);
    assert_eq!(c.get(1), 1);
    assert_eq!(c.get(2), -1);
    assert_eq!(c.get(3), 3);
}

#[test]
fn lru_update_existing_key() {
    let mut c = LRUCache::new(2);
    c.put(1, 10);
    c.put(1, 99);
    assert_eq!(c.get(1), 99);
    assert_eq!(c.cache_state(), "[1:99]");
}

#[test]
fn lru_capacity_one() {
    let mut c = LRUCache::new(1);
    c.put(1, 1);
    c.put(2, 2);
    assert_eq!(c.get(1), -1);
    assert_eq!(c.get(2), 2);
}

#[test]
fn lru_capacity_zero_never_evicts() {
    let mut c = LRUCache::new(0);
    c.put(1, 1);
    c.put(2, 2);
    assert_eq!(c.get(1), 1);
    assert_eq!(c.get(2), 2);
}

#[test]
fn lru_negative_values_render_with_sign() {
    let mut c = LRUCache::new(3);
    c.put(-5, -70);
    assert_eq!(c.cache_state(), "[-5:-70]");
    assert_eq!(c.get(-5), -70);
}

#[test]
fn lru_four_puts_into_three_keep_three() {
    let mut c = LRUCache::new(3);
    for i in 1..=4 {
        c.put(i, i * 10);
    }
    let present: Vec<i32> = (1..=4).filter(|&k| c.get(k) != -1).collect();
    assert_eq!(present, vec![2, 3, 4]);
}

#[test]
fn ttl_read_within_and_after_expiry() {
    let sec: u128 = 1_000_000_000;
    let mut cache = TtlCache::new(2, 3);
    cache.put_at(1, 10, 0);
    cache.put_at(2, 20, 0);
    assert_eq!(cache.cache_state_at(0), "[2:20:active] [1:10:active]");
    assert_eq!(cache.get_at(1, 2 * sec), 10);
    assert_eq!(cache.get_at(1, 4 * sec), -1);
    assert_eq!(cache.cache_state_at(4 * sec), "[2:20:expired]");
    cache.put_at(3, 30, 4 * sec);
    assert_eq!(cache.cache_state_at(4 * sec), "[3:30:active]");
}

#[test]
fn ttl_write_refreshes_expiry() {
    let sec: u128 = 1_000_000_000;
    let mut cache = TtlCache::new(2, 3);
    cache.put_at(1, 10, 0);
    cache.put_at(1, 11, 2 * sec);
    assert_eq!(cache.get_at(1, 4 * sec), 11);
    assert_eq!(cache.get_at(1, 6 * sec), -1);
}

#[test]
fn ttl_full_cache_evicts_least_recent_live_entry() {
    let sec: u128 = 1_000_000_000;
    let mut cache = TtlCache::new(2, 10);
    cache.put_at(1, 10, 0);
    cache.put_at(2, 20, sec);
    cache.put_at(3, 30, 2 * sec);
    assert_eq!(cache.get_at(1, 3 * sec), -1);
    assert_eq!(cache.get_at(2, 3 * sec), 20);
    assert_eq!(cache.get_at(3, 3 * sec), 30);
}

#[test]
fn ttl_is_expired_only_after_expiry_time() {
    let e = (1, 2, 100u128);
    assert!(!TtlCache::is_expired(&e, 100));
    assert!(TtlCache::is_expired(&e, 101));
}

#[test]
fn ttl_with_the_clock_reads_fresh_values() {
    let mut cache = TtlCache::new(2, 60);
    cache.put(1, 10);
    assert_eq!(cache.get(1), 10);
    assert_eq!(cache.get(2), -1);
    assert_eq!(cache.cache_state(), "[1:10:active]");
}

#[test]
fn lfu_demo_sequence() {
    let mut cache = LFUCache::new(2);
    cache.put(1, 1);
    cache.put(2, 2);
    assert_eq!(cache.get(1), 1);
    cache.put(3, 3);
    assert_eq!(cache.get(2), -1);
    assert_eq!(cache.get(3), 3);
    cache.put(4, 4);
    assert_eq!(cache.get(1), -1);
    assert_eq!(cache.get(3), 3);
    assert_eq!(cache.get(4), 4);
}

#[test]
fn lfu_state_lists_each_frequency() {
    let mut cache = LFUCache::new(2);
    cache.put(1, 1);
    assert_eq!(
        cache.cache_state(),
        "-------------------\nfreq 1 => [1:1:f=1]\nmin_freq => 1\n-------------------\n"
    );
    cache.put(2, 2);
    cache.get(1);
    assert_eq!(
        cache.cache_state(),
        "-------------------\nfreq 1 => [2:2:f=1]\nfreq 2 => [1:1:f=2]\nmin_freq => 1\n-------------------\n"
    );
}

#[test]
fn lfu_capacity_zero_holds_nothing() {
    let mut cache = LFUCache::new(0);
    cache.put(1, 1);
    assert_eq!(cache.get(1), -1);
}

#[test]
fn lfu_update_raises_frequency() {
    let mut cache = LFUCache::new(2);
    cache.put(1, 1);
    cache.put(2, 2);
    cache.put(1, 10);
    cache.put(3, 3);
    assert_eq!(cache.get(2), -1);
    assert_eq!(cache.get(1), 10);
    assert_eq!(cache.get(3), 3);
}

#[test]
fn lfu_list_links_and_unlinks() {
    let mut list = DoublyLinkedList::new();
    assert!(list.is_empty());
    assert_eq!(list.remove_tail(), None);
    list.insert_at_head(LfuNode { key: 1, value: 10, freq: 1 });
    list.insert_at_head(LfuNode { key: 2, value: 20, freq: 1 });
    list.insert_at_head(LfuNode { key: 3, value: 30, freq: 1 });
    assert_eq!(list.state(), "[3:30:f=1] [2:20:f=1] [1:10:f=1]");
    assert_eq!(list.remove_tail(), Some(LfuNode { key: 1, value: 10, freq: 1 }));
    assert_eq!(list.state(), "[3:30:f=1] [2:20:f=1]");
    list.insert_at_head(LfuNode { key: 4, value: -4, freq: 1 });
    assert_eq!(list.state(), "[4:-4:f=1] [3:30:f=1] [2:20:f=1]");
    assert_eq!(list.remove_tail(), Some(LfuNode { key: 2, value: 20, freq: 1 }));
    assert_eq!(list.remove_tail(), Some(LfuNode { key: 3, value: 30, freq: 1 }));
    assert_eq!(list.remove_tail(), Some(LfuNode { key: 4, value: -4, freq: 1 }));
    assert!(list.is_empty());
    assert_eq!(list.state(), "");
}

#[test]
fn lfu_nodes_move_between_frequency_lists() {
    let mut cache = LFUCache::new(3);
    cache.put(1, 1);
    cache.put(2, 2);
    cache.put(3, 3);
    assert_eq!(cache.get(2), 2);
    assert_eq!(cache.get(2), 2);
    assert_eq!(cache.get(1), 1);
    assert_eq!(
        cache.cache_state(),
        "-------------------\nfreq 1 => [3:3:f=1]\nfreq 2 => [1:1:f=2]\nfreq 3 => [2:2:f=3]\nmin_freq => 1\n-------------------\n"
    );
    cache.put(4, 4);
    assert_eq!(cache.get(3), -1);
    assert_eq!(
        cache.cache_state(),
        "-------------------\nfreq 1 => [4:4:f=1]\nfreq 2 => [1:1:f=2]\nfreq 3 => [2:2:f=3]\nmin_freq => 1\n-------------------\n"
    );
}

#[test]
fn ttl_expired_tail_makes_room_before_eviction() {
    let sec: u128 = 1_000_000_000;
    let mut cache = TtlCache::new(2, 3);
    cache.put_at(1, 10, 0);
    cache.put_at(2, 20, 2 * sec);
    // key 1 has expired at 4s, so it leaves and key 2 stays
    cache.put_at(3, 30, 4 * sec);
    assert_eq!(cache.cache_state_at(4 * sec), "[3:30:active] [2:20:active]");
    // nothing has expired at 5s: the least recent entry is evicted
    cache.put_at(4, 40, 5 * sec);
    assert_eq!(cache.cache_state_at(5 * sec), "[4:40:active] [3:30:active]");
}

#[test]
fn lru_many_operations_keep_order() {
    let mut cache = LRUCache::new(3);
    for round in 0..50 {
        cache.put(round % 7, round);
        if round % 3 == 0 {
            cache.get((round + 2) % 7);
        }
    }
    // the last three writes were of keys 5, 6 and 0 (rounds 47, 48, 49);
    // round 48 also read key 1, which was not held
    assert_eq!(cache.cache_state(), "[0:49] [6:48] [5:47]");
}

use evm_decoder::cache::{EventSignatureCache, DEFAULT_CAPACITY, MAX_CAPACITY, TIME_TO_LIVE_SECS};
use evm_decoder::decoder::{EventSignature, LogDecoder};
use std::sync::Arc;
use std::time::{Duration, Instant};

fn signature(hash: &str, event_name: &str) -> Arc<EventSignature> {
    Arc::new(EventSignature {
        signature_hash: hash.to_string(),
        event_name: event_name.to_string(),
        decoded_signature: format!("{}()", event_name),
        input_types: vec![],
        indexed_inputs: vec![],
        input_names: vec![],
        inputs: vec![],
    })
}

fn wait(duration: Duration) {
    let start = Instant::now();
    while start.elapsed() < duration {
        std::hint::spin_loop();
    }
}

#[test]
fn the_limits_are_what_they_are_said_to_be() {
    assert_eq!(TIME_TO_LIVE_SECS, 24 * 3600);
    assert_eq!(MAX_CAPACITY, 1 << 20);
    assert_eq!(DEFAULT_CAPACITY, 1024);
}

#[test]
fn a_cache_needs_room_for_one_entry_and_not_too_many() {
    assert!(EventSignatureCache::new(0).is_none());
    assert!(EventSignatureCache::new(1).is_some());
    assert!(EventSignatureCache::new(MAX_CAPACITY).is_some());
    assert!(EventSignatureCache::new(MAX_CAPACITY + 1).is_none());
    assert!(EventSignatureCache::new(usize::MAX).is_none());
    assert!(EventSignatureCache::with_time_to_live(1, 0).is_some());
    assert!(EventSignatureCache::with_time_to_live(1, TIME_TO_LIVE_SECS).is_some());
    assert!(EventSignatureCache::with_time_to_live(1, TIME_TO_LIVE_SECS + 1).is_none());
    assert!(EventSignatureCache::with_time_to_live(0, 1).is_none());
}

#[test]
fn what_was_put_in_is_found() {
    let mut cache = EventSignatureCache::new(8).unwrap();
    assert!(cache.lookup("0xaa").is_none());
    assert!(cache.insert("0xaa".to_string(), signature("0xaa", "A")).is_none());
    assert!(cache.insert("0xbb".to_string(), signature("0xbb", "B")).is_none());
    assert_eq!(cache.lookup("0xaa").unwrap().event_name, "A");
    assert_eq!(cache.lookup("0xbb").unwrap().event_name, "B");
    assert!(cache.lookup("0xcc").is_none());
    assert!(cache.lookup("0xAA").is_none());
}

#[test]
fn a_second_signature_under_one_hash_takes_the_place_of_the_first() {
    let mut cache = EventSignatureCache::new(8).unwrap();
    assert!(cache.insert("0xaa".to_string(), signature("0xaa", "A")).is_none());
    let replaced = cache.insert("0xaa".to_string(), signature("0xaa", "A2"));
    assert_eq!(replaced.unwrap().event_name, "A");
    assert_eq!(cache.lookup("0xaa").unwrap().event_name, "A2");
}

#[test]
fn the_least_recently_used_entry_leaves_a_full_cache() {
    let mut cache = EventSignatureCache::new(2).unwrap();
    cache.insert("0xaa".to_string(), signature("0xaa", "A"));
    cache.insert("0xbb".to_string(), signature("0xbb", "B"));
    // a lookup makes 0xaa the most recently used entry
    assert!(cache.lookup("0xaa").is_some());
    cache.insert("0xcc".to_string(), signature("0xcc", "C"));
    assert!(cache.lookup("0xbb").is_none());
    assert_eq!(cache.lookup("0xaa").unwrap().event_name, "A");
    assert_eq!(cache.lookup("0xcc").unwrap().event_name, "C");
    // now 0xaa is the least recently used one
    cache.insert("0xdd".to_string(), signature("0xdd", "D"));
    assert!(cache.lookup("0xaa").is_none());
    assert!(cache.lookup("0xcc").is_some());
    assert!(cache.lookup("0xdd").is_some());
}

#[test]
fn a_cache_for_one_entry_holds_the_last_one() {
    let mut cache = EventSignatureCache::new(1).unwrap();
    cache.insert("0xaa".to_string(), signature("0xaa", "A"));
    cache.insert("0xbb".to_string(), signature("0xbb", "B"));
    assert!(cache.lookup("0xaa").is_none());
    assert_eq!(cache.lookup("0xbb").unwrap().event_name, "B");
}

#[test]
fn an_entry_that_is_not_used_expires() {
    let mut cache = EventSignatureCache::with_time_to_live(8, 1).unwrap();
    cache.insert("0xaa".to_string(), signature("0xaa", "A"));
    assert!(cache.lookup("0xaa").is_some());
    wait(Duration::from_millis(1300));
    assert!(cache.lookup("0xaa").is_none());
    // it does not come back
    assert!(cache.lookup("0xaa").is_none());
    assert!(cache.insert("0xaa".to_string(), signature("0xaa", "A3")).is_none());
    assert_eq!(cache.lookup("0xaa").unwrap().event_name, "A3");
}

#[test]
fn a_lookup_renews_an_entry() {
    let mut cache = EventSignatureCache::with_time_to_live(8, 1).unwrap();
    cache.insert("0xaa".to_string(), signature("0xaa", "A"));
    cache.insert("0xbb".to_string(), signature("0xbb", "B"));
    wait(Duration::from_millis(600));
    assert!(cache.lookup("0xaa").is_some());
    wait(Duration::from_millis(600));
    // 0xbb was last used 1.2 s ago, 0xaa 0.6 s ago
    assert!(cache.lookup("0xbb").is_none());
    assert!(cache.lookup("0xaa").is_some());
}

#[test]
fn a_sweep_removes_what_has_expired() {
    let mut cache = EventSignatureCache::with_time_to_live(2, 1).unwrap();
    cache.insert("0xaa".to_string(), signature("0xaa", "A"));
    cache.sweep();
    assert!(cache.lookup("0xaa").is_some());
    wait(Duration::from_millis(1300));
    cache.sweep();
    // there is room for two again: neither of these pushes the other out
    cache.insert("0xbb".to_string(), signature("0xbb", "B"));
    cache.insert("0xcc".to_string(), signature("0xcc", "C"));
    assert!(cache.lookup("0xaa").is_none());
    assert!(cache.lookup("0xbb").is_some());
    assert!(cache.lookup("0xcc").is_some());
}

#[test]
fn a_decoder_owns_its_cache() {
    let mut decoder = LogDecoder::new();
    assert!(decoder.cache_mut().lookup("0xaa").is_none());
    decoder.cache_mut().insert("0xaa".to_string(), signature("0xaa", "A"));
    assert_eq!(decoder.cache_mut().lookup("0xaa").unwrap().event_name, "A");

    let mut cache = EventSignatureCache::new(4).unwrap();
    cache.insert("0xbb".to_string(), signature("0xbb", "B"));
    let mut decoder = LogDecoder::with_cache(cache);
    assert_eq!(decoder.cache_mut().lookup("0xbb").unwrap().event_name, "B");
    assert!(decoder.cache_mut().lookup("0xaa").is_none());
}

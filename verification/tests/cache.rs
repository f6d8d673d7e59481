use eventsrv::cache::SnapshotCache;
use eventsrv::envelope::{encode, Envelope};

fn publish(cache: &mut SnapshotCache, member: &[u8], service: &[u8], ts: u64, payload: &[u8]) -> Vec<u8> {
    let e = Envelope {
        member_id: member.to_vec(),
        service: service.to_vec(),
        timestamp: ts,
        payload: payload.to_vec(),
    };
    let bytes = encode(&e);
    cache.upsert(&e, &bytes);
    bytes
}

#[test]
fn cache_overwrite_same_service() {
    let mut cache = SnapshotCache::new();
    publish(&mut cache, b"m1", b"redis", 1, b"a");
    let second = publish(&mut cache, b"m2", b"redis", 2, b"b");
    assert_eq!(cache.service_len(), 1);
    let (member, bytes) = cache.lookup_service(&b"redis".to_vec()).unwrap();
    assert_eq!(member, b"m2".to_vec());
    assert_eq!(bytes, second);
}

#[test]
fn dual_key_update() {
    let mut cache = SnapshotCache::new();
    let bytes = publish(&mut cache, b"m1", b"redis", 1, b"a");
    assert_eq!(cache.service_len(), 1);
    assert_eq!(cache.member_len(), 1);
    let (member, sb) = cache.lookup_service(&b"redis".to_vec()).unwrap();
    assert_eq!(member, b"m1".to_vec());
    assert_eq!(sb, bytes);
    let (service, mb) = cache.lookup_member(&b"m1".to_vec()).unwrap();
    assert_eq!(service, b"redis".to_vec());
    assert_eq!(mb, bytes);
}

#[test]
fn empty_service_updates_only_member_cache() {
    let mut cache = SnapshotCache::new();
    let bytes = publish(&mut cache, b"m1", b"", 1, b"a");
    assert_eq!(cache.service_len(), 0);
    assert_eq!(cache.member_len(), 1);
    let (service, mb) = cache.lookup_member(&b"m1".to_vec()).unwrap();
    assert_eq!(service, Vec::<u8>::new());
    assert_eq!(mb, bytes);
}

#[test]
fn lookup_misses() {
    let mut cache = SnapshotCache::new();
    publish(&mut cache, b"m1", b"redis", 1, b"a");
    assert!(cache.lookup_service(&b"mysql".to_vec()).is_none());
    assert!(cache.lookup_member(&b"m2".to_vec()).is_none());
}

#[test]
fn snapshot_dedup_bound() {
    // Three publishes from two members across two services: the snapshot
    // stays within S + M = 4 messages and carries each member's most recent
    // bytes.
    let mut cache = SnapshotCache::new();
    publish(&mut cache, b"m1", b"s1", 1, b"a");
    let m2_latest = publish(&mut cache, b"m2", b"s1", 2, b"b");
    let m1_latest = publish(&mut cache, b"m1", b"s2", 3, b"c");
    let snap = cache.snapshot();
    assert!(snap.len() <= 4);
    assert!(snap.contains(&m1_latest));
    assert!(snap.contains(&m2_latest));
    // Here the two service slots cover both members, so nothing is added.
    assert_eq!(snap.len(), 2);
}

#[test]
fn snapshot_single_service_member_sent_once() {
    let mut cache = SnapshotCache::new();
    let only = publish(&mut cache, b"m1", b"redis", 1, b"a");
    publish(&mut cache, b"m2", b"mysql", 2, b"b");
    let snap = cache.snapshot();
    let count = snap.iter().filter(|m| **m == only).count();
    assert_eq!(count, 1);
}

#[test]
fn snapshot_recovers_hidden_member() {
    // m1's service slot is overwritten by m2, so the member pass must
    // recover m1's latest bytes.
    let mut cache = SnapshotCache::new();
    publish(&mut cache, b"m1", b"redis", 1, b"a");
    let m2 = publish(&mut cache, b"m2", b"redis", 2, b"b");
    let m1 = cache.lookup_member(&b"m1".to_vec()).unwrap().1;
    let snap = cache.snapshot();
    assert_eq!(snap.len(), 2);
    assert!(snap.contains(&m1));
    assert!(snap.contains(&m2));
}

#[test]
fn snapshot_of_empty_cache_is_empty() {
    let cache = SnapshotCache::new();
    assert_eq!(cache.snapshot().len(), 0);
}

#[test]
fn snapshot_can_miss_latest_of_covered_member() {
    // m1 is still the latest publisher of s1, so the service pass covers it
    // and the member pass skips it — even though m1's most recent publish
    // (to s2) was itself overwritten in the service index by m2. The dedup
    // algorithm sends one message per member it covers, not necessarily the
    // member's very latest bytes.
    let mut cache = SnapshotCache::new();
    let a = publish(&mut cache, b"m1", b"s1", 1, b"a");
    let b = publish(&mut cache, b"m1", b"s2", 2, b"b");
    let c = publish(&mut cache, b"m2", b"s2", 3, b"c");
    let snap = cache.snapshot();
    assert_eq!(snap.len(), 2);
    assert!(snap.contains(&a));
    assert!(snap.contains(&c));
    assert!(!snap.contains(&b));
}

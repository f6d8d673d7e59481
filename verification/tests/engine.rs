use eventsrv::engine::{Engine, InboundAction, SUBSCRIBE_ACTION};
use eventsrv::envelope::{encode, DecodeError, Envelope};

fn wire(member: &[u8], service: &[u8], ts: u64, payload: &[u8]) -> Vec<u8> {
    encode(&Envelope {
        member_id: member.to_vec(),
        service: service.to_vec(),
        timestamp: ts,
        payload: payload.to_vec(),
    })
}

fn subscribe_record() -> Vec<u8> {
    vec![SUBSCRIBE_ACTION, b'*']
}

#[test]
fn rebroadcast_fidelity() {
    // A valid envelope comes back byte-identical for rebroadcast.
    let mut engine = Engine::new();
    let bytes = wire(b"m1", b"redis", 1, b"a");
    match engine.handle_inbound(bytes.clone()) {
        InboundAction::Rebroadcast(out) => assert_eq!(out, bytes),
        _ => panic!("a valid envelope must be rebroadcast"),
    }
}

#[test]
fn malformed_input_is_discarded() {
    // Malformed bytes do not tear anything down and reach no cache and no
    // snapshot.
    let mut engine = Engine::new();
    match engine.handle_inbound(b"garbage".to_vec()) {
        InboundAction::DiscardMalformed(er) => assert_eq!(er, DecodeError::HeaderTruncated),
        _ => panic!("malformed bytes must be discarded"),
    }
    assert_eq!(engine.service_len(), 0);
    assert_eq!(engine.member_len(), 0);
    let snap = engine.handle_control(&subscribe_record()).unwrap();
    assert_eq!(snap.len(), 0);
}

#[test]
fn missing_service_is_discarded_but_not_malformed() {
    let mut engine = Engine::new();
    let bytes = wire(b"m1", b"", 1, b"a");
    match engine.handle_inbound(bytes) {
        InboundAction::DiscardMissingService => {}
        _ => panic!("an envelope without a service must be discarded"),
    }
    // The engine drops such a message before the cache sees it.
    assert_eq!(engine.service_len(), 0);
    assert_eq!(engine.member_len(), 0);
}

#[test]
fn unsubscribe_and_empty_records_are_ignored() {
    let mut engine = Engine::new();
    engine.handle_inbound(wire(b"m1", b"redis", 1, b"a"));
    assert!(engine.handle_control(&vec![0u8, b'*']).is_none());
    assert!(engine.handle_control(&Vec::new()).is_none());
}

#[test]
fn end_to_end_two_members_two_services() {
    // Publish from two members to two services, then subscribe: exactly two
    // messages, each present exactly once, in either order.
    let mut engine = Engine::new();
    let a = wire(b"m1", b"redis", 1, b"a");
    let b = wire(b"m2", b"mysql", 2, b"b");
    engine.handle_inbound(a.clone());
    engine.handle_inbound(b.clone());
    let snap = engine.handle_control(&subscribe_record()).unwrap();
    assert_eq!(snap.len(), 2);
    assert_eq!(snap.iter().filter(|m| **m == a).count(), 1);
    assert_eq!(snap.iter().filter(|m| **m == b).count(), 1);
}

#[test]
fn end_to_end_one_member_two_services() {
    // One member publishing to two services: both service slots are sent and
    // the member slot is suppressed, so exactly two messages.
    let mut engine = Engine::new();
    let a = wire(b"m1", b"redis", 1, b"");
    let b = wire(b"m1", b"mysql", 2, b"");
    engine.handle_inbound(a.clone());
    engine.handle_inbound(b.clone());
    let snap = engine.handle_control(&subscribe_record()).unwrap();
    assert_eq!(snap.len(), 2);
    assert_eq!(snap.iter().filter(|m| **m == a).count(), 1);
    assert_eq!(snap.iter().filter(|m| **m == b).count(), 1);
}

#[test]
fn engine_lookups_reflect_publishes() {
    let mut engine = Engine::new();
    let bytes = wire(b"m1", b"redis", 7, b"x");
    engine.handle_inbound(bytes.clone());
    let (member, sb) = engine.lookup_service(&b"redis".to_vec()).unwrap();
    assert_eq!(member, b"m1".to_vec());
    assert_eq!(sb, bytes);
    let (service, mb) = engine.lookup_member(&b"m1".to_vec()).unwrap();
    assert_eq!(service, b"redis".to_vec());
    assert_eq!(mb, bytes);
}

#[test]
fn snapshot_after_overwrite_carries_latest_bytes() {
    let mut engine = Engine::new();
    engine.handle_inbound(wire(b"m1", b"redis", 1, b"old"));
    let newer = wire(b"m2", b"redis", 2, b"new");
    engine.handle_inbound(newer.clone());
    let snap = engine.handle_control(&subscribe_record()).unwrap();
    // The service slot holds the second publish; the first member's latest
    // bytes come back through the member pass.
    assert!(snap.contains(&newer));
    assert_eq!(snap.len(), 2);
}

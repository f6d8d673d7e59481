//! The cache and snapshot laws: what holds of every publish sequence and of
//! every snapshot a well-formed cache can produce.
use vstd::prelude::*;
use crate::cache::{apply_upsert, encountered, find_entry, has_key, lemma_upsert_entries_props,
    lemma_apply_upsert_wf, member_entry_ok, member_extra_bytes, service_bytes, snapshot_spec,
    unique_keys, wf_cache, CacheModel, EntryModel};
use crate::envelope::{spec_decode, DecodeError, EnvelopeModel};

verus! {

/// The cache a process starts with: both indexes empty.
pub open spec fn empty_cache() -> CacheModel {
    CacheModel { services: Seq::empty(), members: Seq::empty() }
}

/// One publish as the dispatch engine accepts it: a decodable envelope and
/// its exact wire bytes.
pub struct PublishModel {
    pub env: EnvelopeModel,
    pub bytes: Seq<u8>,
}

pub open spec fn publish_ok(p: PublishModel) -> bool {
    spec_decode(p.bytes) == Ok::<EnvelopeModel, DecodeError>(p.env)
}

/// The cache after a sequence of publishes.
pub open spec fn apply_publishes(c: CacheModel, t: Seq<PublishModel>) -> CacheModel
    decreases t.len(),
{
    if t.len() == 0 {
        c
    } else {
        apply_upsert(apply_publishes(c, t.drop_last()), t.last().env, t.last().bytes)
    }
}

/// The distinct services a publish sequence names.
pub open spec fn services_of(t: Seq<PublishModel>) -> Set<Seq<u8>> {
    t.map_values(|p: PublishModel| p.env.service).to_set()
}

/// The distinct members a publish sequence names.
pub open spec fn members_of(t: Seq<PublishModel>) -> Set<Seq<u8>> {
    t.map_values(|p: PublishModel| p.env.member_id).to_set()
}

/// Whether `b` is the wire form of an envelope published by `m`.
pub open spec fn bytes_from_member(b: Seq<u8>, m: Seq<u8>) -> bool {
    spec_decode(b) matches Ok(env) && env.member_id == m
}

/// Cache overwrite: publishing two envelopes naming the same service leaves
/// exactly one service slot for it — keys stay unique — and that slot holds
/// the second envelope's bytes and publisher.
pub proof fn lemma_cache_overwrite(
    c: CacheModel,
    e1: EnvelopeModel,
    b1: Seq<u8>,
    e2: EnvelopeModel,
    b2: Seq<u8>,
)
    requires
        wf_cache(c),
        spec_decode(b1) == Ok::<EnvelopeModel, DecodeError>(e1),
        spec_decode(b2) == Ok::<EnvelopeModel, DecodeError>(e2),
        e1.service == e2.service,
        e1.service.len() > 0,
    ensures
        ({
            let c2 = apply_upsert(apply_upsert(c, e1, b1), e2, b2);
            &&& wf_cache(c2)
            &&& find_entry(c2.services, e2.service) == Some(
                EntryModel { key: e2.service, other: e2.member_id, bytes: b2 },
            )
            &&& c2.services.len() == apply_upsert(c, e1, b1).services.len()
        }),
{
    let c1 = apply_upsert(c, e1, b1);
    lemma_apply_upsert_wf(c, e1, b1);
    lemma_apply_upsert_wf(c1, e2, b2);
    lemma_upsert_entries_props(c.services, e1.service, e1.member_id, b1);
    lemma_upsert_entries_props(c1.services, e2.service, e2.member_id, b2);
    assert(has_key(c1.services, e2.service));
}

/// Dual-key update: one publish with a non-empty service updates both
/// indexes to the new bytes; one with an empty service updates only the
/// member index and leaves the service index untouched.
pub proof fn lemma_dual_key_update(c: CacheModel, e: EnvelopeModel, b: Seq<u8>)
    requires
        wf_cache(c),
        spec_decode(b) == Ok::<EnvelopeModel, DecodeError>(e),
    ensures
        find_entry(apply_upsert(c, e, b).members, e.member_id) == Some(
            EntryModel { key: e.member_id, other: e.service, bytes: b },
        ),
        e.service.len() > 0 ==> find_entry(apply_upsert(c, e, b).services, e.service) == Some(
            EntryModel { key: e.service, other: e.member_id, bytes: b },
        ),
        e.service.len() == 0 ==> apply_upsert(c, e, b).services == c.services,
{
    lemma_upsert_entries_props(c.members, e.member_id, e.service, b);
    if e.service.len() > 0 {
        lemma_upsert_entries_props(c.services, e.service, e.member_id, b);
    }
}

/// The member pass of a snapshot adds at most one message per member slot.
pub proof fn lemma_member_extra_len(svc: Seq<EntryModel>, mem: Seq<EntryModel>)
    ensures
        member_extra_bytes(svc, mem).len() <= mem.len(),
    decreases mem.len(),
{
    if mem.len() > 0 {
        lemma_member_extra_len(svc, mem.drop_last());
    }
}

/// Every message of the member pass is the bytes of a member slot whose
/// member the service pass did not cover, and, conversely, the bytes of
/// every such slot appear in the member pass.
pub proof fn lemma_member_extra_elems(svc: Seq<EntryModel>, mem: Seq<EntryModel>)
    ensures
        forall|k: int|
            0 <= k < member_extra_bytes(svc, mem).len() ==> exists|i: int|
                0 <= i < mem.len() && !encountered(svc, mem[i].key) && #[trigger] member_extra_bytes(
                    svc,
                    mem,
                )[k] == mem[i].bytes,
        forall|i: int|
            0 <= i < mem.len() && !encountered(svc, #[trigger] mem[i].key)
                ==> member_extra_bytes(svc, mem).contains(mem[i].bytes),
    decreases mem.len(),
{
    if mem.len() > 0 {
        let rest = member_extra_bytes(svc, mem.drop_last());
        lemma_member_extra_elems(svc, mem.drop_last());
        assert forall|k: int|
            0 <= k < member_extra_bytes(svc, mem).len() implies exists|i: int|
            0 <= i < mem.len() && !encountered(svc, mem[i].key) && #[trigger] member_extra_bytes(
                svc,
                mem,
            )[k] == mem[i].bytes by {
            if k < rest.len() {
                let i = choose|i: int|
                    0 <= i < mem.drop_last().len() && !encountered(svc, mem.drop_last()[i].key)
                        && rest[k] == mem.drop_last()[i].bytes;
                assert(mem.drop_last()[i] == mem[i]);
                assert(member_extra_bytes(svc, mem)[k] == rest[k]);
                assert(!encountered(svc, mem[i].key) && member_extra_bytes(svc, mem)[k]
                    == mem[i].bytes);
            } else {
                assert(!encountered(svc, mem.last().key));
                assert(member_extra_bytes(svc, mem)[k] == mem.last().bytes);
                assert(mem[mem.len() - 1] == mem.last());
            }
        }
        assert forall|i: int|
            0 <= i < mem.len() && !encountered(svc, #[trigger] mem[i].key) implies
            member_extra_bytes(svc, mem).contains(mem[i].bytes) by {
            if i < mem.len() - 1 {
                assert(mem.drop_last()[i] == mem[i]);
                assert(rest.contains(mem[i].bytes));
                let k = choose|k: int| 0 <= k < rest.len() && rest[k] == mem[i].bytes;
                assert(member_extra_bytes(svc, mem)[k] == mem[i].bytes);
            } else {
                let last_at = member_extra_bytes(svc, mem).len() - 1;
                assert(member_extra_bytes(svc, mem)[last_at] == mem.last().bytes);
            }
        }
    }
}

/// Snapshot dedup bound, cache side: a snapshot never exceeds one message
/// per service slot plus one per member slot.
pub proof fn lemma_snapshot_bound(c: CacheModel)
    ensures
        snapshot_spec(c).len() <= c.services.len() + c.members.len(),
{
    lemma_member_extra_len(c.services, c.members);
}

/// Snapshot dedup bound, publish side: after any sequence of publishes into
/// a fresh cache, a snapshot carries at most one message per distinct
/// service named plus one per distinct member named.
pub proof fn lemma_snapshot_dedup_bound(t: Seq<PublishModel>)
    requires
        forall|i: int| 0 <= i < t.len() ==> publish_ok(#[trigger] t[i]),
    ensures
        ({
            let c = apply_publishes(empty_cache(), t);
            &&& wf_cache(c)
            &&& snapshot_spec(c).len() <= services_of(t).len() + members_of(t).len()
        }),
{
    let c = apply_publishes(empty_cache(), t);
    lemma_publish_keys(t);
    lemma_snapshot_bound(c);
    lemma_key_count(c.services, services_of(t));
    lemma_key_count(c.members, members_of(t));
}

/// A run of publishes keeps the cache well-formed, and every cached key was
/// actually named by some publish.
proof fn lemma_publish_keys(t: Seq<PublishModel>)
    requires
        forall|i: int| 0 <= i < t.len() ==> publish_ok(#[trigger] t[i]),
    ensures
        ({
            let c = apply_publishes(empty_cache(), t);
            &&& wf_cache(c)
            &&& forall|k: Seq<u8>| has_key(c.services, k) ==> #[trigger] services_of(t).contains(k)
            &&& forall|k: Seq<u8>| has_key(c.members, k) ==> #[trigger] members_of(t).contains(k)
        }),
    decreases t.len(),
{
    let c = apply_publishes(empty_cache(), t);
    if t.len() == 0 {
        assert(forall|k: Seq<u8>| !has_key(c.services, k));
        assert(forall|k: Seq<u8>| !has_key(c.members, k));
    } else {
        let prev = apply_publishes(empty_cache(), t.drop_last());
        let p = t.last();
        lemma_publish_keys(t.drop_last());
        lemma_apply_upsert_wf(prev, p.env, p.bytes);
        lemma_upsert_entries_props(prev.members, p.env.member_id, p.env.service, p.bytes);
        if p.env.service.len() > 0 {
            lemma_upsert_entries_props(prev.services, p.env.service, p.env.member_id, p.bytes);
        }
        assert forall|k: Seq<u8>| has_key(c.services, k) implies #[trigger] services_of(t).contains(
            k,
        ) by {
            let ms = t.map_values(|q: PublishModel| q.env.service);
            let msp = t.drop_last().map_values(|q: PublishModel| q.env.service);
            let w = choose|i: int| 0 <= i < c.services.len() && c.services[i].key == k;
            if c.services[w] == (EntryModel {
                key: p.env.service,
                other: p.env.member_id,
                bytes: p.bytes,
            }) {
                assert(ms[t.len() - 1] == k);
                assert(ms.contains(k));
            } else {
                assert(has_key(prev.services, k));
                assert(services_of(t.drop_last()).contains(k));
                assert(msp.contains(k));
                let i = msp.index_of(k);
                assert(0 <= i < msp.len() && msp[i] == k);
                assert(ms[i] == k);
                assert(ms.contains(k));
            }
        }
        assert forall|k: Seq<u8>| has_key(c.members, k) implies #[trigger] members_of(t).contains(
            k,
        ) by {
            let ms = t.map_values(|q: PublishModel| q.env.member_id);
            let msp = t.drop_last().map_values(|q: PublishModel| q.env.member_id);
            let w = choose|i: int| 0 <= i < c.members.len() && c.members[i].key == k;
            if c.members[w] == (EntryModel {
                key: p.env.member_id,
                other: p.env.service,
                bytes: p.bytes,
            }) {
                assert(ms[t.len() - 1] == k);
                assert(ms.contains(k));
            } else {
                assert(has_key(prev.members, k));
                assert(members_of(t.drop_last()).contains(k));
                assert(msp.contains(k));
                let i = msp.index_of(k);
                assert(0 <= i < msp.len() && msp[i] == k);
                assert(ms[i] == k);
                assert(ms.contains(k));
            }
        }
    }
}

/// An index with unique keys, each of which lies in a finite set, has no
/// more slots than the set has elements.
proof fn lemma_key_count(s: Seq<EntryModel>, ks: Set<Seq<u8>>)
    requires
        unique_keys(s),
        ks.finite(),
        forall|k: Seq<u8>| has_key(s, k) ==> #[trigger] ks.contains(k),
    ensures
        s.len() <= ks.len(),
{
    let keys = s.map_values(|e: EntryModel| e.key);
    assert(keys.no_duplicates());
    keys.unique_seq_to_set();
    assert(keys.to_set().subset_of(ks)) by {
        assert forall|k: Seq<u8>| keys.to_set().contains(k) implies ks.contains(k) by {
            let i = choose|i: int| 0 <= i < keys.len() && keys[i] == k;
            assert(s[i].key == k);
            assert(has_key(s, k));
        }
    }
    vstd::seq_lib::seq_to_set_is_finite(keys);
    vstd::set_lib::lemma_len_subset(keys.to_set(), ks);
}

/// Snapshot member presence: for every member with a cached envelope, the
/// snapshot carries some message that member published; and when the service
/// pass does not cover the member, it carries that member's latest bytes.
pub proof fn lemma_snapshot_member_presence(c: CacheModel)
    requires
        wf_cache(c),
    ensures
        forall|i: int|
            0 <= i < c.members.len() && !encountered(c.services, #[trigger] c.members[i].key)
                ==> snapshot_spec(c).contains(c.members[i].bytes),
        forall|i: int|
            #![trigger c.members[i]]
            0 <= i < c.members.len() ==> exists|k: int|
                0 <= k < snapshot_spec(c).len() && bytes_from_member(
                    #[trigger] snapshot_spec(c)[k],
                    c.members[i].key,
                ),
{
    let snap = snapshot_spec(c);
    lemma_member_extra_elems(c.services, c.members);
    assert forall|i: int|
        0 <= i < c.members.len() && !encountered(c.services, #[trigger] c.members[i].key) implies
        snap.contains(c.members[i].bytes) by {
        let extra = member_extra_bytes(c.services, c.members);
        assert(extra.contains(c.members[i].bytes));
        let k = choose|k: int| 0 <= k < extra.len() && extra[k] == c.members[i].bytes;
        assert(snap[service_bytes(c.services).len() + k] == c.members[i].bytes);
    }
    assert forall|i: int| #![trigger c.members[i]] 0 <= i < c.members.len() implies exists|k: int|
        0 <= k < snap.len() && bytes_from_member(#[trigger] snap[k], c.members[i].key) by {
        if encountered(c.services, c.members[i].key) {
            let j = choose|j: int|
                0 <= j < c.services.len() && c.services[j].other == c.members[i].key;
            assert(snap[j] == c.services[j].bytes);
            assert(bytes_from_member(snap[j], c.members[i].key));
        } else {
            assert(snap.contains(c.members[i].bytes));
            let k2 = choose|k2: int| 0 <= k2 < snap.len() && snap[k2] == c.members[i].bytes;
            assert(member_entry_ok(c.members[i]));
            assert(bytes_from_member(snap[k2], c.members[i].key));
        }
    }
}

/// Snapshot member latest bytes: when every member the service pass covers
/// is covered by a slot holding that member's own latest bytes, the snapshot
/// carries the latest bytes of every cached member. (Without that premise a
/// member can be covered only by an older publish of its own, and its latest
/// bytes then stay out of the snapshot.)
pub proof fn lemma_snapshot_member_latest(c: CacheModel)
    requires
        wf_cache(c),
        forall|i: int|
            0 <= i < c.members.len() && encountered(c.services, #[trigger] c.members[i].key)
                ==> exists|j: int|
                0 <= j < c.services.len() && #[trigger] c.services[j].other == c.members[i].key
                    && c.services[j].bytes == c.members[i].bytes,
    ensures
        forall|i: int|
            0 <= i < c.members.len() ==> snapshot_spec(c).contains(#[trigger] c.members[i].bytes),
{
    let snap = snapshot_spec(c);
    lemma_snapshot_member_presence(c);
    assert forall|i: int| 0 <= i < c.members.len() implies snap.contains(
        #[trigger] c.members[i].bytes,
    ) by {
        if encountered(c.services, c.members[i].key) {
            let j = choose|j: int|
                0 <= j < c.services.len() && #[trigger] c.services[j].other == c.members[i].key
                    && c.services[j].bytes == c.members[i].bytes;
            assert(snap[j] == c.services[j].bytes);
        }
    }
}

/// No duplicate sends: all messages of one snapshot are pairwise distinct;
/// in particular a member that published to exactly one service, and is
/// still that service's latest publisher, is sent exactly once.
pub proof fn lemma_snapshot_distinct(c: CacheModel)
    requires
        wf_cache(c),
    ensures
        forall|k1: int, k2: int|
            0 <= k1 < k2 < snapshot_spec(c).len() ==> snapshot_spec(c)[k1] != snapshot_spec(c)[k2],
{
    let snap = snapshot_spec(c);
    let sb = service_bytes(c.services);
    let extra = member_extra_bytes(c.services, c.members);
    lemma_member_extra_elems(c.services, c.members);
    lemma_member_extra_distinct(c.services, c.members);
    assert forall|k1: int, k2: int| 0 <= k1 < k2 < snap.len() implies snap[k1] != snap[k2] by {
        if k2 < sb.len() {
            assert(snap[k1] == c.services[k1].bytes && snap[k2] == c.services[k2].bytes);
            if c.services[k1].bytes == c.services[k2].bytes {
                assert(c.services[k1].key == c.services[k2].key);
            }
        } else if k1 >= sb.len() {
            assert(snap[k1] == extra[k1 - sb.len()] && snap[k2] == extra[k2 - sb.len()]);
        } else {
            assert(snap[k1] == c.services[k1].bytes);
            assert(snap[k2] == extra[k2 - sb.len()]);
            let i = choose|i: int|
                0 <= i < c.members.len() && !encountered(c.services, c.members[i].key) && extra[k2
                    - sb.len()] == c.members[i].bytes;
            if c.services[k1].bytes == c.members[i].bytes {
                assert(c.services[k1].other == c.members[i].key);
                assert(encountered(c.services, c.members[i].key));
            }
        }
    }
}

/// The messages of the member pass are pairwise distinct: distinct member
/// slots hold bytes naming distinct members.
proof fn lemma_member_extra_distinct(svc: Seq<EntryModel>, mem: Seq<EntryModel>)
    requires
        unique_keys(mem),
        forall|i: int| 0 <= i < mem.len() ==> member_entry_ok(#[trigger] mem[i]),
    ensures
        forall|k1: int, k2: int|
            0 <= k1 < k2 < member_extra_bytes(svc, mem).len() ==> member_extra_bytes(svc, mem)[k1]
                != member_extra_bytes(svc, mem)[k2],
    decreases mem.len(),
{
    if mem.len() > 0 {
        let rest = member_extra_bytes(svc, mem.drop_last());
        let whole = member_extra_bytes(svc, mem);
        lemma_member_extra_distinct(svc, mem.drop_last());
        lemma_member_extra_elems(svc, mem.drop_last());
        assert forall|k1: int, k2: int| 0 <= k1 < k2 < whole.len() implies whole[k1]
            != whole[k2] by {
            if k2 < rest.len() {
                assert(whole[k1] == rest[k1] && whole[k2] == rest[k2]);
            } else {
                assert(!encountered(svc, mem.last().key));
                assert(whole[k2] == mem.last().bytes);
                assert(whole[k1] == rest[k1]);
                let i = choose|i: int|
                    0 <= i < mem.drop_last().len() && !encountered(svc, mem.drop_last()[i].key)
                        && rest[k1] == mem.drop_last()[i].bytes;
                assert(mem.drop_last()[i] == mem[i]);
                if mem[i].bytes == mem.last().bytes {
                    assert(member_entry_ok(mem[i]) && member_entry_ok(mem.last()));
                    assert(mem[i].key == mem.last().key);
                    assert(mem[mem.len() - 1] == mem.last());
                }
            }
        }
    }
}

/// Single-service member sent exactly once: a member whose latest publish
/// went to service `s`, and which is still the latest publisher of `s` and
/// of no other service, has its bytes in the snapshot exactly once.
pub proof fn lemma_single_service_member_once(c: CacheModel, m: Seq<u8>, s: Seq<u8>, b: Seq<u8>)
    requires
        wf_cache(c),
        find_entry(c.members, m) == Some(EntryModel { key: m, other: s, bytes: b }),
        find_entry(c.services, s) == Some(EntryModel { key: s, other: m, bytes: b }),
        forall|j: int|
            0 <= j < c.services.len() && #[trigger] c.services[j].other == m ==> c.services[j].key
                == s,
    ensures
        exists|k: int| 0 <= k < snapshot_spec(c).len() && #[trigger] snapshot_spec(c)[k] == b,
        forall|k1: int, k2: int|
            0 <= k1 < k2 < snapshot_spec(c).len() ==> !(snapshot_spec(c)[k1] == b
                && snapshot_spec(c)[k2] == b),
{
    let snap = snapshot_spec(c);
    lemma_snapshot_distinct(c);
    assert(has_key(c.services, s));
    let j = choose|j: int| 0 <= j < c.services.len() && c.services[j].key == s;
    assert(c.services[j] == EntryModel { key: s, other: m, bytes: b });
    assert(snap[j] == service_bytes(c.services)[j]);
}

} // verus!

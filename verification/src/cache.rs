//! The snapshot cache: two independent indexes over the most recently seen
//! raw message bytes, one keyed by logical-service name and one keyed by
//! publisher identity, with the deduplicated snapshot assembly used when a
//! new subscriber attaches.
use vstd::prelude::*;
use crate::codec::{bytes_eq, clone_bytes};
use crate::envelope::{DecodeError, Envelope, EnvelopeModel, spec_decode};

verus! {

/// One cache slot: the raw bytes of the most recent envelope for `key`,
/// tagged with the counterpart identity `other`.
pub struct Entry {
    pub key: Vec<u8>,
    pub other: Vec<u8>,
    pub bytes: Vec<u8>,
}

/// The mathematical model of a cache slot.
pub struct EntryModel {
    pub key: Seq<u8>,
    pub other: Seq<u8>,
    pub bytes: Seq<u8>,
}

impl View for Entry {
    type V = EntryModel;

    open spec fn view(&self) -> EntryModel {
        EntryModel { key: self.key@, other: self.other@, bytes: self.bytes@ }
    }
}

pub open spec fn entries_view(s: Seq<Entry>) -> Seq<EntryModel> {
    s.map_values(|e: Entry| e@)
}

/// Whether some slot carries `k`.
pub open spec fn has_key(s: Seq<EntryModel>, k: Seq<u8>) -> bool {
    exists|i: int| 0 <= i < s.len() && s[i].key == k
}

/// The position of the slot carrying `k` (meaningful when keys are unique).
pub open spec fn key_index(s: Seq<EntryModel>, k: Seq<u8>) -> int {
    choose|i: int| 0 <= i < s.len() && s[i].key == k
}

/// The slot carrying `k`, if any.
pub open spec fn find_entry(s: Seq<EntryModel>, k: Seq<u8>) -> Option<EntryModel> {
    if has_key(s, k) {
        Some(s[key_index(s, k)])
    } else {
        None
    }
}

/// At most one slot per distinct key.
pub open spec fn unique_keys(s: Seq<EntryModel>) -> bool {
    forall|i: int, j: int| 0 <= i < j < s.len() ==> s[i].key != s[j].key
}

/// Replaces the slot carrying `k`, or appends one if no slot carries it.
pub open spec fn upsert_entries(
    s: Seq<EntryModel>,
    k: Seq<u8>,
    other: Seq<u8>,
    bytes: Seq<u8>,
) -> Seq<EntryModel> {
    let e = EntryModel { key: k, other, bytes };
    if has_key(s, k) {
        s.update(key_index(s, k), e)
    } else {
        s.push(e)
    }
}

/// A service slot holds the wire form of an envelope naming that very
/// service, tagged with that envelope's publisher; service names are
/// non-empty, since empty-service envelopes are never cached here.
pub open spec fn service_entry_ok(e: EntryModel) -> bool {
    &&& e.key.len() > 0
    &&& spec_decode(e.bytes) matches Ok(env) && env.service == e.key && env.member_id == e.other
}

/// A member slot holds the wire form of an envelope published by that very
/// member, tagged with that envelope's service.
pub open spec fn member_entry_ok(e: EntryModel) -> bool {
    spec_decode(e.bytes) matches Ok(env) && env.member_id == e.key && env.service == e.other
}

/// The mathematical model of the whole cache.
pub struct CacheModel {
    pub services: Seq<EntryModel>,
    pub members: Seq<EntryModel>,
}

/// Cache well-formedness: both indexes have unique keys and every slot holds
/// a decodable envelope bound to its own key.
pub open spec fn wf_cache(c: CacheModel) -> bool {
    &&& unique_keys(c.services)
    &&& unique_keys(c.members)
    &&& forall|i: int| 0 <= i < c.services.len() ==> service_entry_ok(#[trigger] c.services[i])
    &&& forall|i: int| 0 <= i < c.members.len() ==> member_entry_ok(#[trigger] c.members[i])
}

/// What one publish does to the cache model: the member index always takes
/// the new bytes; the service index does so only for a non-empty service.
pub open spec fn apply_upsert(c: CacheModel, e: EnvelopeModel, b: Seq<u8>) -> CacheModel {
    CacheModel {
        services: if e.service.len() == 0 {
            c.services
        } else {
            upsert_entries(c.services, e.service, e.member_id, b)
        },
        members: upsert_entries(c.members, e.member_id, e.service, b),
    }
}

/// Whether the service index already names `m` as a latest publisher.
pub open spec fn encountered(svc: Seq<EntryModel>, m: Seq<u8>) -> bool {
    exists|i: int| 0 <= i < svc.len() && svc[i].other == m
}

/// The bytes of every service slot, in index order.
pub open spec fn service_bytes(svc: Seq<EntryModel>) -> Seq<Seq<u8>> {
    svc.map_values(|e: EntryModel| e.bytes)
}

/// The bytes of every member slot whose member the service pass did not
/// already cover, in index order.
pub open spec fn member_extra_bytes(svc: Seq<EntryModel>, mem: Seq<EntryModel>) -> Seq<Seq<u8>>
    decreases mem.len(),
{
    if mem.len() == 0 {
        Seq::empty()
    } else {
        let rest = member_extra_bytes(svc, mem.drop_last());
        if encountered(svc, mem.last().key) {
            rest
        } else {
            rest.push(mem.last().bytes)
        }
    }
}

/// The full snapshot: all service slots, then the member slots the service
/// pass missed.
pub open spec fn snapshot_spec(c: CacheModel) -> Seq<Seq<u8>> {
    service_bytes(c.services) + member_extra_bytes(c.services, c.members)
}

/// The views of a sequence of byte vectors.
pub open spec fn views_of(s: Seq<Vec<u8>>) -> Seq<Seq<u8>> {
    s.map_values(|v: Vec<u8>| v@)
}

/// The snapshot cache itself: the most recent raw envelope per service and
/// per member.
pub struct SnapshotCache {
    services: Vec<Entry>,
    members: Vec<Entry>,
}

impl View for SnapshotCache {
    type V = CacheModel;

    closed spec fn view(&self) -> CacheModel {
        CacheModel {
            services: entries_view(self.services@),
            members: entries_view(self.members@),
        }
    }
}

/// Appends a copy of `b` to a vector of messages.
fn push_view(out: &mut Vec<Vec<u8>>, b: &Vec<u8>)
    ensures
        views_of(final(out)@) == views_of(old(out)@).push(b@),
{
    let c = clone_bytes(b);
    out.push(c);
    proof {
        assert(views_of(out@) =~= views_of(old(out)@).push(b@));
    }
}

/// Replaces or appends the slot for `key` in one index.
fn upsert_into(list: &mut Vec<Entry>, key: &Vec<u8>, other: &Vec<u8>, bytes: &Vec<u8>)
    requires
        unique_keys(entries_view(old(list)@)),
    ensures
        entries_view(final(list)@) == upsert_entries(
            entries_view(old(list)@),
            key@,
            other@,
            bytes@,
        ),
{
    let ghost orig: Seq<EntryModel> = entries_view(list@);
    let n: usize = list.len();
    let mut i: usize = 0;
    while i < n
        invariant
            i <= n,
            n == list@.len(),
            entries_view(list@) == orig,
            unique_keys(orig),
            forall|j: int| 0 <= j < i ==> orig[j].key != key@,
        decreases n - i,
    {
        if bytes_eq(&list[i].key, key) {
            let e = Entry { key: clone_bytes(key), other: clone_bytes(other), bytes: clone_bytes(bytes) };
            proof {
                assert(orig[i as int].key == key@);
                assert(has_key(orig, key@));
                let w = key_index(orig, key@);
                assert(0 <= w < orig.len() && orig[w].key == key@);
                assert(w == i as int);
            }
            list.set(i, e);
            proof {
                assert(entries_view(list@) =~= upsert_entries(orig, key@, other@, bytes@));
            }
            return;
        }
        i = i + 1;
    }
    proof {
        assert(!has_key(orig, key@));
    }
    let e = Entry { key: clone_bytes(key), other: clone_bytes(other), bytes: clone_bytes(bytes) };
    list.push(e);
    proof {
        assert(entries_view(list@) =~= upsert_entries(orig, key@, other@, bytes@));
    }
}

/// The slots of an upserted index are the new slot and untouched old slots:
/// the key now maps to the new slot, every other key maps as before, keys
/// stay unique, and the index grows only when the key is new.
pub proof fn lemma_upsert_entries_props(s: Seq<EntryModel>, k: Seq<u8>, o: Seq<u8>, b: Seq<u8>)
    requires
        unique_keys(s),
    ensures
        unique_keys(upsert_entries(s, k, o, b)),
        find_entry(upsert_entries(s, k, o, b), k) == Some(EntryModel { key: k, other: o, bytes: b }),
        forall|k2: Seq<u8>| k2 != k ==> #[trigger] find_entry(upsert_entries(s, k, o, b), k2)
            == find_entry(s, k2),
        upsert_entries(s, k, o, b).len() == if has_key(s, k) {
            s.len()
        } else {
            s.len() + 1
        },
        forall|j: int|
            0 <= j < upsert_entries(s, k, o, b).len() ==> (#[trigger] upsert_entries(s, k, o, b)[j]
                == EntryModel { key: k, other: o, bytes: b } || (0 <= j < s.len()
                && upsert_entries(s, k, o, b)[j] == s[j])),
{
    let e = EntryModel { key: k, other: o, bytes: b };
    let r = upsert_entries(s, k, o, b);
    if has_key(s, k) {
        let w = key_index(s, k);
        assert(0 <= w < s.len() && s[w].key == k);
        assert(unique_keys(r)) by {
            assert(forall|i: int, j: int| 0 <= i < j < r.len() ==> r[i].key != r[j].key) by {
                assert(forall|i: int| 0 <= i < r.len() && i != w ==> r[i] == s[i]);
            }
        }
        assert(r[w].key == k);
        assert(has_key(r, k));
        let w2 = key_index(r, k);
        assert(0 <= w2 < r.len() && r[w2].key == k);
        assert(w2 == w);
        assert forall|k2: Seq<u8>| k2 != k implies #[trigger] find_entry(r, k2) == find_entry(
            s,
            k2,
        ) by {
            if has_key(s, k2) {
                let v = key_index(s, k2);
                assert(0 <= v < s.len() && s[v].key == k2);
                assert(v != w);
                assert(r[v].key == k2);
                assert(has_key(r, k2));
                let v2 = key_index(r, k2);
                assert(0 <= v2 < r.len() && r[v2].key == k2);
                assert(v2 != w);
                assert(s[v2].key == k2);
                assert(v2 == v);
            } else {
                assert(!has_key(r, k2)) by {
                    if has_key(r, k2) {
                        let v2 = key_index(r, k2);
                        assert(0 <= v2 < r.len() && r[v2].key == k2);
                        assert(v2 != w);
                        assert(s[v2].key == k2);
                    }
                }
            }
        }
    } else {
        assert(forall|i: int| 0 <= i < s.len() ==> s[i].key != k);
        assert(r == s.push(e));
        assert(r[s.len() as int] == e);
        assert(has_key(r, k));
        let w2 = key_index(r, k);
        assert(0 <= w2 < r.len() && r[w2].key == k);
        assert(w2 == s.len() as int);
        assert forall|k2: Seq<u8>| k2 != k implies #[trigger] find_entry(r, k2) == find_entry(
            s,
            k2,
        ) by {
            if has_key(s, k2) {
                let v = key_index(s, k2);
                assert(0 <= v < s.len() && s[v].key == k2);
                assert(r[v].key == k2);
                assert(has_key(r, k2));
                let v2 = key_index(r, k2);
                assert(0 <= v2 < r.len() && r[v2].key == k2);
                assert(v2 != s.len() as int);
                assert(v2 == v);
            } else {
                assert(!has_key(r, k2)) by {
                    if has_key(r, k2) {
                        let v2 = key_index(r, k2);
                        assert(0 <= v2 < r.len() && r[v2].key == k2);
                        assert(v2 != s.len() as int);
                        assert(s[v2].key == k2);
                    }
                }
            }
        }
    }
}

/// One publish keeps the cache well-formed.
pub proof fn lemma_apply_upsert_wf(c: CacheModel, e: EnvelopeModel, b: Seq<u8>)
    requires
        wf_cache(c),
        spec_decode(b) == Ok::<EnvelopeModel, DecodeError>(e),
    ensures
        wf_cache(apply_upsert(c, e, b)),
{
    let c2 = apply_upsert(c, e, b);
    lemma_upsert_entries_props(c.members, e.member_id, e.service, b);
    assert(member_entry_ok(EntryModel { key: e.member_id, other: e.service, bytes: b }));
    if e.service.len() > 0 {
        lemma_upsert_entries_props(c.services, e.service, e.member_id, b);
        assert(service_entry_ok(EntryModel { key: e.service, other: e.member_id, bytes: b }));
    }
}

impl SnapshotCache {
    /// A fresh, empty cache: no service slot and no member slot.
    pub fn new() -> (r: SnapshotCache)
        ensures
            r@.services == Seq::<EntryModel>::empty(),
            r@.members == Seq::<EntryModel>::empty(),
            wf_cache(r@),
    {
        let r = SnapshotCache { services: Vec::new(), members: Vec::new() };
        proof {
            assert(r@.services =~= Seq::<EntryModel>::empty());
            assert(r@.members =~= Seq::<EntryModel>::empty());
        }
        r
    }

    /// Records `bytes` as the most recent envelope of `env`'s publisher, and,
    /// when the service name is non-empty, as the most recent envelope of
    /// that service; an empty service name leaves the service index alone.
    pub fn upsert(&mut self, env: &Envelope, bytes: &Vec<u8>)
        requires
            wf_cache(old(self)@),
            spec_decode(bytes@) == Ok::<EnvelopeModel, DecodeError>(env@),
        ensures
            final(self)@ == apply_upsert(old(self)@, env@, bytes@),
            wf_cache(final(self)@),
    {
        proof {
            lemma_apply_upsert_wf(self@, env@, bytes@);
        }
        if env.service.len() > 0 {
            upsert_into(&mut self.services, &env.service, &env.member_id, bytes);
        }
        upsert_into(&mut self.members, &env.member_id, &env.service, bytes);
    }

    /// The number of distinct services with a cached envelope.
    pub fn service_len(&self) -> (r: usize)
        ensures
            r == self@.services.len(),
    {
        self.services.len()
    }

    /// The number of distinct members with a cached envelope.
    pub fn member_len(&self) -> (r: usize)
        ensures
            r == self@.members.len(),
    {
        self.members.len()
    }

    /// The last publisher and cached bytes for a service, if any.
    pub fn lookup_service(&self, service: &Vec<u8>) -> (r: Option<(Vec<u8>, Vec<u8>)>)
        requires
            wf_cache(self@),
        ensures
            match find_entry(self@.services, service@) {
                Some(e) => r matches Some(p) && p.0@ == e.other && p.1@ == e.bytes,
                None => r is None,
            },
    {
        self.lookup_in(true, service)
    }

    /// The last service and cached bytes for a member, if any.
    pub fn lookup_member(&self, member: &Vec<u8>) -> (r: Option<(Vec<u8>, Vec<u8>)>)
        requires
            wf_cache(self@),
        ensures
            match find_entry(self@.members, member@) {
                Some(e) => r matches Some(p) && p.0@ == e.other && p.1@ == e.bytes,
                None => r is None,
            },
    {
        self.lookup_in(false, member)
    }

    /// Looks a key up in one of the two indexes.
    fn lookup_in(&self, in_services: bool, key: &Vec<u8>) -> (r: Option<(Vec<u8>, Vec<u8>)>)
        requires
            wf_cache(self@),
        ensures
            ({
                let s = if in_services {
                    self@.services
                } else {
                    self@.members
                };
                match find_entry(s, key@) {
                    Some(e) => r matches Some(p) && p.0@ == e.other && p.1@ == e.bytes,
                    None => r is None,
                }
            }),
    {
        let list: &Vec<Entry> = if in_services {
            &self.services
        } else {
            &self.members
        };
        let ghost s = entries_view(list@);
        let n: usize = list.len();
        let mut i: usize = 0;
        while i < n
            invariant
                i <= n,
                n == list@.len(),
                s == entries_view(list@),
                unique_keys(s),
                forall|j: int| 0 <= j < i ==> s[j].key != key@,
            decreases n - i,
        {
            if bytes_eq(&list[i].key, key) {
                proof {
                    assert(s[i as int].key == key@);
                    assert(has_key(s, key@));
                    let w = key_index(s, key@);
                    assert(0 <= w < s.len() && s[w].key == key@);
                    assert(w == i as int);
                }
                return Some((clone_bytes(&list[i].other), clone_bytes(&list[i].bytes)));
            }
            i = i + 1;
        }
        proof {
            assert(!has_key(s, key@));
        }
        None
    }

    /// Whether the service index already names `m` as a latest publisher.
    fn member_covered(&self, m: &Vec<u8>) -> (r: bool)
        ensures
            r == encountered(self@.services, m@),
    {
        let n: usize = self.services.len();
        let mut i: usize = 0;
        while i < n
            invariant
                i <= n,
                n == self.services@.len(),
                forall|j: int| 0 <= j < i ==> entries_view(self.services@)[j].other != m@,
            decreases n - i,
        {
            if bytes_eq(&self.services[i].other, m) {
                proof {
                    assert(entries_view(self.services@)[i as int].other == m@);
                }
                return true;
            }
            i = i + 1;
        }
        proof {
            assert(!encountered(self@.services, m@));
        }
        false
    }

    /// Assembles the deduplicated snapshot for a new subscriber: the bytes of
    /// every service slot, then the bytes of every member slot whose member
    /// the service pass did not already cover.
    pub fn snapshot(&self) -> (r: Vec<Vec<u8>>)
        requires
            wf_cache(self@),
        ensures
            views_of(r@) == snapshot_spec(self@),
    {
        let ghost sv = entries_view(self.services@);
        let ghost mv = entries_view(self.members@);
        let mut out: Vec<Vec<u8>> = Vec::new();
        proof {
            assert(views_of(out@) =~= service_bytes(sv.take(0)));
        }
        let n: usize = self.services.len();
        let mut i: usize = 0;
        while i < n
            invariant
                i <= n,
                n == self.services@.len(),
                sv == entries_view(self.services@),
                views_of(out@) == service_bytes(sv.take(i as int)),
            decreases n - i,
        {
            let ghost prev = views_of(out@);
            push_view(&mut out, &self.services[i].bytes);
            i = i + 1;
            proof {
                assert(prev.push(sv[i - 1].bytes) =~= service_bytes(sv.take(i as int)));
            }
        }
        proof {
            assert(sv.take(n as int) =~= sv);
        }
        let m: usize = self.members.len();
        let mut j: usize = 0;
        proof {
            assert(member_extra_bytes(sv, mv.take(0)) =~= Seq::<Seq<u8>>::empty());
            assert(views_of(out@) =~= service_bytes(sv) + member_extra_bytes(sv, mv.take(0)));
        }
        while j < m
            invariant
                j <= m,
                m == self.members@.len(),
                sv == entries_view(self.services@),
                mv == entries_view(self.members@),
                views_of(out@) == service_bytes(sv) + member_extra_bytes(sv, mv.take(j as int)),
            decreases m - j,
        {
            let ghost before = mv.take(j as int);
            let ghost prev = views_of(out@);
            let covered = self.member_covered(&self.members[j].key);
            if !covered {
                push_view(&mut out, &self.members[j].bytes);
            }
            j = j + 1;
            proof {
                let after = mv.take(j as int);
                assert(after.drop_last() =~= before);
                assert(after.last() == mv[j - 1]);
                if covered {
                    assert(member_extra_bytes(sv, after) == member_extra_bytes(sv, before));
                } else {
                    assert(member_extra_bytes(sv, after) == member_extra_bytes(sv, before).push(
                        mv[j - 1].bytes,
                    ));
                    assert(prev.push(mv[j - 1].bytes) =~= service_bytes(sv) + member_extra_bytes(
                        sv,
                        after,
                    ));
                }
            }
        }
        proof {
            assert(mv.take(m as int) =~= mv);
        }
        out
    }
}

} // verus!

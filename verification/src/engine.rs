//! The dispatch engine: the decision rules of the event loop. Transport
//! readiness and raw byte transfer live outside; the engine is handed one
//! inbound message or one subscription control record at a time and says
//! what to cache and what to send.
use vstd::prelude::*;
use crate::cache::{apply_upsert, snapshot_spec, views_of, wf_cache, CacheModel, SnapshotCache};
use crate::envelope::{decode, spec_decode, DecodeError, EnvelopeModel};

verus! {

/// What to do with one inbound message.
pub enum InboundAction {
    /// The message decoded and names a service: it was cached and its exact
    /// bytes are to be rebroadcast to all subscribers.
    Rebroadcast(Vec<u8>),
    /// The message did not decode: it is discarded, to be logged only.
    DiscardMalformed(DecodeError),
    /// The message decoded but names no service: it cannot be deduplicated
    /// against future snapshots, so it is discarded, to be logged only.
    DiscardMissingService,
}

/// The subscription control record action code for a new subscription.
pub const SUBSCRIBE_ACTION: u8 = 1;

/// Whether a control record announces a new subscriber: a non-empty record
/// whose first byte is the subscribe action code (the rest names the topic).
pub open spec fn is_subscribe_record(r: Seq<u8>) -> bool {
    r.len() > 0 && r[0] == SUBSCRIBE_ACTION
}

/// The dispatch engine: owns the snapshot cache and decides, per event, what
/// is cached and what is sent.
pub struct Engine {
    cache: SnapshotCache,
}

impl View for Engine {
    type V = CacheModel;

    closed spec fn view(&self) -> CacheModel {
        self.cache@
    }
}

impl Engine {
    /// A fresh engine with an empty snapshot cache.
    pub fn new() -> (r: Engine)
        ensures
            r@.services.len() == 0,
            r@.members.len() == 0,
            wf_cache(r@),
    {
        Engine { cache: SnapshotCache::new() }
    }

    /// Handles one message from the inbound channel: a malformed message is
    /// discarded untouched; a decoded message without a service name is
    /// discarded untouched; any other message updates both cache indexes and
    /// is handed back, byte-identical, for rebroadcast.
    pub fn handle_inbound(&mut self, bytes: Vec<u8>) -> (r: InboundAction)
        requires
            wf_cache(old(self)@),
        ensures
            wf_cache(final(self)@),
            match spec_decode(bytes@) {
                Err(er) => r == InboundAction::DiscardMalformed(er) && final(self)@ == old(self)@,
                Ok(env) => if env.service.len() == 0 {
                    r == InboundAction::DiscardMissingService && final(self)@ == old(self)@
                } else {
                    (r matches InboundAction::Rebroadcast(out) && out@ == bytes@) && final(self)@
                        == apply_upsert(old(self)@, env, bytes@)
                },
            },
    {
        match decode(&bytes) {
            Err(er) => InboundAction::DiscardMalformed(er),
            Ok(env) => {
                if env.service.len() == 0 {
                    InboundAction::DiscardMissingService
                } else {
                    self.cache.upsert(&env, &bytes);
                    InboundAction::Rebroadcast(bytes)
                }
            },
        }
    }

    /// Handles one control record from the outbound channel: a subscribe
    /// record yields the snapshot to send, in order; anything else (an
    /// unsubscribe, or an empty record) is ignored.
    pub fn handle_control(&self, record: &Vec<u8>) -> (r: Option<Vec<Vec<u8>>>)
        requires
            wf_cache(self@),
        ensures
            if is_subscribe_record(record@) {
                r matches Some(msgs) && views_of(msgs@) == snapshot_spec(self@)
            } else {
                r is None
            },
    {
        if record.len() > 0 && record[0] == SUBSCRIBE_ACTION {
            Some(self.cache.snapshot())
        } else {
            None
        }
    }

    /// The number of distinct services with a cached envelope.
    pub fn service_len(&self) -> (r: usize)
        ensures
            r == self@.services.len(),
    {
        self.cache.service_len()
    }

    /// The number of distinct members with a cached envelope.
    pub fn member_len(&self) -> (r: usize)
        ensures
            r == self@.members.len(),
    {
        self.cache.member_len()
    }

    /// The last publisher and cached bytes for a service, if any.
    pub fn lookup_service(&self, service: &Vec<u8>) -> (r: Option<(Vec<u8>, Vec<u8>)>)
        requires
            wf_cache(self@),
        ensures
            match crate::cache::find_entry(self@.services, service@) {
                Some(e) => r matches Some(p) && p.0@ == e.other && p.1@ == e.bytes,
                None => r is None,
            },
    {
        self.cache.lookup_service(service)
    }

    /// The last service and cached bytes for a member, if any.
    pub fn lookup_member(&self, member: &Vec<u8>) -> (r: Option<(Vec<u8>, Vec<u8>)>)
        requires
            wf_cache(self@),
        ensures
            match crate::cache::find_entry(self@.members, member@) {
                Some(e) => r matches Some(p) && p.0@ == e.other && p.1@ == e.bytes,
                None => r is None,
            },
    {
        self.cache.lookup_member(member)
    }
}

} // verus!

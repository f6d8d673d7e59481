//! Event-bus proxy core: an envelope codec, a two-keyed snapshot cache, and
//! the dispatch rules that drive decode, cache update, rebroadcast and
//! snapshot delivery for newly attached subscribers.
#![verifier::loop_isolation(false)]

pub mod cache;
pub mod codec;
pub mod engine;
pub mod envelope;
pub mod laws;
pub mod svc;

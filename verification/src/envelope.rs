//! The values that cross the channel: inbound envelopes as producers write
//! them, the reply metadata kept while a turn runs, outbound envelopes and
//! receipts.

use vstd::prelude::*;

verus! {

/// An inbound envelope as a producer wrote it; every field may be missing.
#[derive(Debug, Clone, PartialEq, Eq)]
pub struct InboundEnvelope {
    pub id: Option<String>,
    pub from: Option<String>,
    pub to: Option<String>,
    pub kind: Option<String>,
    pub thread: Option<String>,
    pub swarm: Option<String>,
    pub text: Option<String>,
    pub ts: Option<String>,
}

/// Metadata of a submitted inbound envelope that awaits its terminal reply.
#[derive(Debug, Clone, PartialEq, Eq)]
pub struct PendingReply {
    pub in_reply_to: Option<String>,
    pub to: Option<String>,
    pub thread: Option<String>,
    pub swarm: Option<String>,
}

/// A channel envelope (version 1 of the on-disk shape).
#[derive(Debug, Clone, PartialEq, Eq)]
pub struct Envelope {
    pub id: Option<String>,
    pub from: String,
    pub to: Option<String>,
    pub kind: Option<String>,
    pub in_reply_to: Option<String>,
    pub thread: Option<String>,
    pub swarm: Option<String>,
    pub idempotency_key: Option<String>,
    pub requires_ack: Option<bool>,
    pub text: String,
    pub ts: String,
}

/// The receipt written for every consumed inbound envelope.
#[derive(Debug, Clone, PartialEq, Eq)]
pub struct Receipt {
    pub from: String,
    pub status: String,
    pub source: String,
    pub ts: String,
}

/// A copy of an optional string.
pub fn clone_opt(o: &Option<String>) -> (r: Option<String>)
    ensures
        r == *o,
{
    match o {
        Some(s) => Some(s.clone()),
        None => None,
    }
}

} // verus!

//! Terminal outcomes of turns: the reply envelope that answers an inbound
//! envelope, the channel state that says where replies go, the receipt of a
//! consumed envelope, and the retry rule of atomic envelope writes.

use vstd::prelude::*;
use crate::envelope::{Envelope, InboundEnvelope, PendingReply, Receipt, clone_opt};
use crate::inbound::{InboundOutcome, ReceiptStatus, inbound_outcome_matches, outcome_status, status_name, status_text, view_or};
use crate::filename::{file_name_view, receipt_source, receipt_file_name, receipt_source_name, format_receipt_file_name};
use crate::listing::copy_bytes;
use crate::outside::now_rfc3339;
use crate::format::rfc3339_utc_time;
use crate::text::string_of;

verus! {

/// The channel configuration that replies need: the outbox directory.
pub struct ChannelState {
    pub outbox_dir: Vec<u8>,
}

/// Holds the channel state once it is installed; it is installed at most once.
pub struct ChannelStateCell {
    state: Option<ChannelState>,
}

impl ChannelStateCell {
    /// The installed state, if any.
    pub closed spec fn state(&self) -> Option<ChannelState> {
        self.state
    }

    /// The outbox directory of the installed state, if any.
    pub open spec fn outbox(&self) -> Option<Seq<u8>> {
        match self.state() {
            Some(s) => Some(s.outbox_dir@),
            None => None,
        }
    }

    /// A cell with no state: the channel is not configured.
    pub fn new() -> (c: Self)
        ensures
            c.state() is None,
    {
        ChannelStateCell { state: None }
    }
}

/// Installs the channel state with `outbox_dir`; a state that is already
/// installed stays as it is (`OnceLock::set`).
pub fn install_state(cell: &mut ChannelStateCell, outbox_dir: Vec<u8>)
    ensures
        old(cell).state() is Some ==> final(cell).state() == old(cell).state(),
        old(cell).state() is None ==> final(cell).state() == Some(ChannelState { outbox_dir }),
{
    if cell.state.is_none() {
        cell.state = Some(ChannelState { outbox_dir });
    }
}

/// Applies `f` once to the installed state and returns what it returns; the
/// state afterwards is what `f` leaves in it, so later calls see the change.
/// `None`, with no call, when no state is installed.
pub fn with_state<R, F: FnOnce(&mut ChannelState) -> R>(cell: &mut ChannelStateCell, f: F) -> (r: Option<R>)
    requires
        old(cell).state() matches Some(s) ==> forall|m: &mut ChannelState| *m == s ==> #[trigger] f.requires((m,)),
    ensures
        old(cell).state() is None ==> r is None && final(cell).state() is None,
        old(cell).state() is Some ==> r is Some,
        old(cell).state() matches Some(s) ==> exists|m: &mut ChannelState|
            *m == s && final(cell).state() == Some(*final(m)) && #[trigger] f.ensures((m,), r->0),
{
    match cell.state.take() {
        Some(mut st) => {
            let ghost before = st;
            let v = f(&mut st);
            let ghost used = choose|m: &mut ChannelState|
                *m == before && *final(m) == st && #[trigger] f.ensures((m,), v);
            cell.state = Some(st);
            let r = Some(v);
            assert(f.ensures((used,), r->0));
            r
        },
        None => None,
    }
}

/// The reply metadata, if any, as a value.
pub open spec fn pending_value(pending: Option<&PendingReply>) -> Option<PendingReply> {
    match pending {
        Some(p) => Some(*p),
        None => None,
    }
}

/// `e` is the terminal envelope of kind `kind` with text `text` that answers
/// `pending`: it comes from `codex`, goes back to the inbound sender, answers
/// the inbound id, keeps thread and swarm, and carries no id, idempotency key
/// or acknowledgement request. Without reply metadata those fields are empty.
pub open spec fn is_reply(e: Envelope, pending: Option<PendingReply>, kind: Seq<char>, text: Seq<char>) -> bool {
    &&& e.id is None
    &&& e.from@ == "codex"@
    &&& e.kind matches Some(k) && k@ == kind
    &&& e.text@ == text
    &&& e.idempotency_key is None
    &&& e.requires_ack is None
    &&& match pending {
        Some(p) => e.to == p.to && e.in_reply_to == p.in_reply_to && e.thread == p.thread && e.swarm == p.swarm,
        None => e.to is None && e.in_reply_to is None && e.thread is None && e.swarm is None,
    }
}

/// Builds the terminal envelope for `pending` with timestamp `ts`.
pub fn build_reply_envelope(pending: Option<&PendingReply>, kind: &str, text: &str, ts: String) -> (e: Envelope)
    ensures
        is_reply(e, pending_value(pending), kind@, text@),
        e.ts == ts,
{
    let (to, in_reply_to, thread, swarm) = match pending {
        Some(p) => (clone_opt(&p.to), clone_opt(&p.in_reply_to), clone_opt(&p.thread), clone_opt(&p.swarm)),
        None => (None, None, None, None),
    };
    Envelope {
        id: None,
        from: string_of("codex"),
        to,
        kind: Some(string_of(kind)),
        in_reply_to,
        thread,
        swarm,
        idempotency_key: None,
        requires_ack: None,
        text: string_of(text),
        ts,
    }
}

/// The terminal envelope for `pending`, stamped with the current time.
pub fn emit_reply_envelope(pending: Option<&PendingReply>, kind: &str, text: &str) -> (e: Envelope)
    ensures
        is_reply(e, pending_value(pending), kind@, text@),
        rfc3339_utc_time(e.ts@),
{
    build_reply_envelope(pending, kind, text, now_rfc3339())
}

/// A terminal envelope and the outbox it is to be written to.
#[derive(Debug, Clone, PartialEq, Eq)]
pub struct TerminalEnvelope {
    pub outbox_dir: Vec<u8>,
    pub envelope: Envelope,
}

/// `t` is the terminal envelope of kind `kind` and text `text` for `pending`,
/// stamped with an RFC 3339 time and addressed to the outbox of `cell`.
pub open spec fn is_terminal_for(
    t: Option<TerminalEnvelope>,
    cell: ChannelStateCell,
    pending: PendingReply,
    kind: Seq<char>,
    text: Seq<char>,
) -> bool {
    match cell.outbox() {
        None => t is None,
        Some(dir) => t matches Some(t) && t.outbox_dir@ == dir && is_reply(t.envelope, Some(pending), kind, text)
            && rfc3339_utc_time(t.envelope.ts@),
    }
}

/// A copy of the outbox directory of a state.
fn outbox_of(s: &mut ChannelState) -> (d: Vec<u8>)
    ensures
        d@ == old(s).outbox_dir@,
        *final(s) == *old(s),
{
    copy_bytes(&s.outbox_dir)
}

/// The one terminal envelope of a turn, when the channel is configured;
/// nothing when it is not.
pub fn emit_terminal(cell: &mut ChannelStateCell, kind: &str, pending: PendingReply, text: String) -> (t: Option<TerminalEnvelope>)
    ensures
        final(cell).state() == old(cell).state(),
        is_terminal_for(t, *old(cell), pending, kind@, text@),
{
    let dir = with_state(cell, outbox_of);
    match dir {
        None => None,
        Some(outbox_dir) => {
            let envelope = emit_reply_envelope(Some(&pending), kind, text.as_str());
            Some(TerminalEnvelope { outbox_dir, envelope })
        },
    }
}

/// A completed turn: a `reply` with the last agent message, or an empty
/// reply when the turn ended without one.
pub fn record_turn_complete(cell: &mut ChannelStateCell, pending: PendingReply, last_agent_message: Option<String>) -> (t: Option<TerminalEnvelope>)
    ensures
        final(cell).state() == old(cell).state(),
        is_terminal_for(t, *old(cell), pending, "reply"@, view_or(last_agent_message, Seq::empty())),
{
    let text = match last_agent_message {
        Some(m) => m,
        None => String::new(),
    };
    emit_terminal(cell, "reply", pending, text)
}

/// A turn that failed: an `error` with the message.
pub fn record_turn_error(cell: &mut ChannelStateCell, pending: PendingReply, message: String) -> (t: Option<TerminalEnvelope>)
    ensures
        final(cell).state() == old(cell).state(),
        is_terminal_for(t, *old(cell), pending, "error"@, message@),
{
    emit_terminal(cell, "error", pending, message)
}

/// A turn that was cancelled: a `cancel` with the reason.
pub fn record_turn_aborted(cell: &mut ChannelStateCell, pending: PendingReply, reason: &str) -> (t: Option<TerminalEnvelope>)
    ensures
        final(cell).state() == old(cell).state(),
        is_terminal_for(t, *old(cell), pending, "cancel"@, reason@),
{
    emit_terminal(cell, "cancel", pending, string_of(reason))
}

/// A submission that the session refused: an `error` with the reason.
pub fn record_submission_rejected(cell: &mut ChannelStateCell, pending: PendingReply, reason: &str) -> (t: Option<TerminalEnvelope>)
    ensures
        final(cell).state() == old(cell).state(),
        is_terminal_for(t, *old(cell), pending, "error"@, reason@),
{
    emit_terminal(cell, "error", pending, string_of(reason))
}

/// A receipt and the file name it is written under.
#[derive(Debug, Clone, PartialEq, Eq)]
pub struct ReceiptFile {
    pub file_name: String,
    pub receipt: Receipt,
}

/// `r` is the receipt with status `status` for the envelope file `file_name`:
/// from `codex`, naming the envelope as its source, written under
/// `{source}.receipt.json`.
pub open spec fn is_receipt_for(r: ReceiptFile, file_name: Option<Seq<u8>>, status: ReceiptStatus) -> bool {
    &&& r.receipt.from@ == "codex"@
    &&& r.receipt.status@ == status_name(status)
    &&& r.receipt.source@ == receipt_source(file_name)
    &&& r.file_name@ == receipt_file_name(receipt_source(file_name))
}

/// Builds the receipt with timestamp `ts`.
pub fn build_receipt(file_name: Option<&Vec<u8>>, status: ReceiptStatus, ts: String) -> (r: ReceiptFile)
    ensures
        is_receipt_for(r, file_name_view(file_name), status),
        r.receipt.ts == ts,
{
    let source = receipt_source_name(file_name);
    let name = format_receipt_file_name(source.as_str());
    ReceiptFile {
        file_name: name,
        receipt: Receipt { from: string_of("codex"), status: string_of(status_text(status)), source, ts },
    }
}

/// The receipt for a consumed envelope, stamped with the current time.
pub fn write_receipt(file_name: Option<&Vec<u8>>, status: ReceiptStatus) -> (r: ReceiptFile)
    ensures
        is_receipt_for(r, file_name_view(file_name), status),
        rfc3339_utc_time(r.receipt.ts@),
{
    build_receipt(file_name, status, now_rfc3339())
}

/// At most this many file names are tried when an envelope is written.
pub const MAX_WRITE_ATTEMPTS: u32 = 8;

/// How hard-linking the temporary file to its final name went.
#[derive(Debug, Clone, Copy, PartialEq, Eq)]
pub enum LinkOutcome {
    Linked,
    AlreadyExists,
    Failed,
}

/// What an atomic write does next.
#[derive(Debug, Clone, Copy, PartialEq, Eq)]
pub enum WriteStep {
    /// The envelope is in place under its final name.
    Done,
    /// Try again with a fresh name, as attempt number `0`.
    Retry(u32),
    /// Every name was taken: report the last collision.
    Exhausted,
    /// Report the link error.
    Fail,
}

/// The next step of an atomic write after attempt `attempt` ended with `outcome`.
pub open spec fn write_step(attempt: u32, outcome: LinkOutcome) -> WriteStep {
    match outcome {
        LinkOutcome::Linked => WriteStep::Done,
        LinkOutcome::Failed => WriteStep::Fail,
        LinkOutcome::AlreadyExists => if attempt + 1 < MAX_WRITE_ATTEMPTS {
            WriteStep::Retry((attempt + 1) as u32)
        } else {
            WriteStep::Exhausted
        },
    }
}

/// Decides the next step of an atomic write: a name collision is retried
/// with a fresh name until the attempts run out; any other link error ends
/// the write.
pub fn next_write_step(attempt: u32, outcome: LinkOutcome) -> (s: WriteStep)
    requires
        attempt < MAX_WRITE_ATTEMPTS,
    ensures
        s == write_step(attempt, outcome),
{
    match outcome {
        LinkOutcome::Linked => WriteStep::Done,
        LinkOutcome::Failed => WriteStep::Fail,
        LinkOutcome::AlreadyExists => if attempt + 1 < MAX_WRITE_ATTEMPTS {
            WriteStep::Retry(attempt + 1)
        } else {
            WriteStep::Exhausted
        },
    }
}

/// A terminal envelope answers the inbound envelope it was submitted for:
/// it comes from `codex`, goes to the inbound `from`, names the inbound `id`
/// as the envelope it answers, and keeps the inbound `thread` and `swarm`.
pub proof fn lemma_reply_answers_inbound(
    inbound: InboundEnvelope,
    outcome: InboundOutcome,
    t: Option<TerminalEnvelope>,
    cell: ChannelStateCell,
    kind: Seq<char>,
    text: Seq<char>,
)
    requires
        inbound_outcome_matches(inbound, outcome),
        outcome matches InboundOutcome::Submitted { pending, .. } && is_terminal_for(t, cell, pending, kind, text),
        cell.outbox() is Some,
    ensures
        t matches Some(t) && {
            &&& t.envelope.from@ == "codex"@
            &&& t.envelope.to == inbound.from
            &&& t.envelope.in_reply_to == inbound.id
            &&& t.envelope.thread == inbound.thread
            &&& t.envelope.swarm == inbound.swarm
            &&& t.envelope.kind matches Some(k) && k@ == kind
            &&& t.envelope.text@ == text
        },
{
}

/// An envelope is submitted exactly when its receipt says `submitted`.
pub proof fn lemma_submitted_exactly_when_receipt_says_so(inbound: InboundEnvelope, outcome: InboundOutcome)
    requires
        inbound_outcome_matches(inbound, outcome),
    ensures
        (outcome is Submitted) <==> outcome_status(outcome) == ReceiptStatus::Submitted,
        outcome is Skipped ==> outcome_status(outcome) != ReceiptStatus::RejectedEnvelopeTooLarge,
{
}

} // verus!

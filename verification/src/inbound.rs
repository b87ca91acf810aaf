//! What consuming one inbound envelope decides: whether it is rejected or
//! ignored, which receipt it gets, the turn text that is submitted and the
//! metadata that the terminal reply will need.

use vstd::prelude::*;
use crate::envelope::{InboundEnvelope, PendingReply, clone_opt};
use crate::text::{trim, trim_bounds, chars_of, push_chars, push_str, string_of, utf8_len, utf8_len_exceeds};

verus! {

/// Inbound envelope files larger than this many bytes are rejected unread.
pub const MAX_INBOUND_ENVELOPE_BYTES: u64 = 65536;

/// Trimmed inbound texts longer than this many UTF-8 bytes are rejected.
pub const MAX_INBOUND_TEXT_BYTES: usize = 49152;

/// The status that a receipt reports for a consumed envelope.
#[derive(Debug, Clone, Copy, PartialEq, Eq)]
pub enum ReceiptStatus {
    RejectedEnvelopeTooLarge,
    IgnoredEmptyText,
    RejectedTextTooLarge,
    Submitted,
}

/// The text of a receipt status as it appears in the receipt.
pub open spec fn status_name(s: ReceiptStatus) -> Seq<char> {
    match s {
        ReceiptStatus::RejectedEnvelopeTooLarge => "rejected_envelope_too_large"@,
        ReceiptStatus::IgnoredEmptyText => "ignored_empty_text"@,
        ReceiptStatus::RejectedTextTooLarge => "rejected_text_too_large"@,
        ReceiptStatus::Submitted => "submitted"@,
    }
}

/// Returns the text of a receipt status.
pub fn status_text(s: ReceiptStatus) -> (r: &'static str)
    ensures
        r@ == status_name(s),
{
    match s {
        ReceiptStatus::RejectedEnvelopeTooLarge => "rejected_envelope_too_large",
        ReceiptStatus::IgnoredEmptyText => "ignored_empty_text",
        ReceiptStatus::RejectedTextTooLarge => "rejected_text_too_large",
        ReceiptStatus::Submitted => "submitted",
    }
}

/// Whether an envelope file of `size` bytes is rejected before it is read.
pub fn envelope_too_large(size: u64) -> (b: bool)
    ensures
        b == (size > MAX_INBOUND_ENVELOPE_BYTES),
{
    size > MAX_INBOUND_ENVELOPE_BYTES
}

/// What consuming an envelope that was read and parsed leads to.
#[derive(Debug, Clone, PartialEq, Eq)]
pub enum InboundOutcome {
    /// Not submitted; the receipt reports the status.
    Skipped(ReceiptStatus),
    /// Submitted as a user turn with this text; the reply will use `pending`.
    Submitted { rendered: String, pending: PendingReply },
}

/// The receipt status of an outcome.
pub open spec fn outcome_status(o: InboundOutcome) -> ReceiptStatus {
    match o {
        InboundOutcome::Skipped(s) => s,
        InboundOutcome::Submitted { .. } => ReceiptStatus::Submitted,
    }
}

/// Returns the receipt status of an outcome.
pub fn receipt_status(o: &InboundOutcome) -> (s: ReceiptStatus)
    ensures
        s == outcome_status(*o),
{
    match o {
        InboundOutcome::Skipped(s) => *s,
        InboundOutcome::Submitted { .. } => ReceiptStatus::Submitted,
    }
}

/// The view of an optional string, or `default` when it is missing.
pub open spec fn view_or(o: Option<String>, default: Seq<char>) -> Seq<char> {
    match o {
        Some(s) => s@,
        None => default,
    }
}

/// The trimmed text of an envelope; a missing text counts as empty.
pub open spec fn trimmed_text(e: InboundEnvelope) -> Seq<char> {
    trim(view_or(e.text, Seq::empty()))
}

/// The user turn submitted for an envelope.
pub open spec fn rendered_turn(e: InboundEnvelope) -> Seq<char> {
    "channel envelope\nfrom: "@ + view_or(e.from, "external"@) + "\nts: "@ + view_or(e.ts, "unknown"@)
        + "\n\n"@ + trimmed_text(e)
}

/// The reply metadata kept for an envelope: the reply goes back to its `from`,
/// answers its `id`, and keeps its `thread` and `swarm`.
pub open spec fn pending_for(e: InboundEnvelope) -> PendingReply {
    PendingReply { in_reply_to: e.id, to: e.from, thread: e.thread, swarm: e.swarm }
}

/// What consuming a parsed envelope leads to.
pub open spec fn inbound_outcome_matches(e: InboundEnvelope, o: InboundOutcome) -> bool {
    if trimmed_text(e).len() == 0 {
        o == InboundOutcome::Skipped(ReceiptStatus::IgnoredEmptyText)
    } else if utf8_len(trimmed_text(e)) > MAX_INBOUND_TEXT_BYTES {
        o == InboundOutcome::Skipped(ReceiptStatus::RejectedTextTooLarge)
    } else {
        o matches InboundOutcome::Submitted { rendered, pending } && rendered@ == rendered_turn(e)
            && pending == pending_for(e)
    }
}

fn str_or<'a>(o: &'a Option<String>, default: &'a str) -> (r: &'a str)
    ensures
        r@ == view_or(*o, default@),
{
    match o {
        Some(s) => s.as_str(),
        None => default,
    }
}

/// Decides what becomes of an envelope that was read and parsed: an empty
/// text is ignored, a text over the limit is rejected, anything else is
/// submitted as a rendered user turn.
pub fn consume_envelope(envelope: &InboundEnvelope) -> (r: InboundOutcome)
    ensures
        inbound_outcome_matches(*envelope, r),
{
    let cs = match &envelope.text {
        Some(t) => chars_of(t.as_str()),
        None => Vec::new(),
    };
    assert(cs@ == view_or(envelope.text, Seq::empty()));
    let (i, j) = trim_bounds(&cs);
    if i == j {
        return InboundOutcome::Skipped(ReceiptStatus::IgnoredEmptyText);
    }
    if utf8_len_exceeds(&cs, i, j, MAX_INBOUND_TEXT_BYTES as u64) {
        return InboundOutcome::Skipped(ReceiptStatus::RejectedTextTooLarge);
    }
    let pending = PendingReply {
        in_reply_to: clone_opt(&envelope.id),
        to: clone_opt(&envelope.from),
        thread: clone_opt(&envelope.thread),
        swarm: clone_opt(&envelope.swarm),
    };
    let mut rendered = string_of("channel envelope\nfrom: ");
    push_str(&mut rendered, str_or(&envelope.from, "external"));
    push_str(&mut rendered, "\nts: ");
    push_str(&mut rendered, str_or(&envelope.ts, "unknown"));
    push_str(&mut rendered, "\n\n");
    push_chars(&mut rendered, &cs, i, j);
    assert(rendered@ =~= rendered_turn(*envelope));
    InboundOutcome::Submitted { rendered, pending }
}

proof fn lemma_middle_determined(p: Seq<char>, x: Seq<char>, y: Seq<char>, q: Seq<char>)
    ensures
        (p + x + q == p + y + q) <==> x == y,
{
    if p + x + q == p + y + q {
        assert((p + x + q).len() == (p + y + q).len());
        assert(x.len() == y.len());
        assert(x =~= (p + x + q).subrange(p.len() as int, p.len() + x.len() as int));
        assert(y =~= (p + y + q).subrange(p.len() as int, p.len() + y.len() as int));
    }
}

/// A submitted turn shows the envelope's metadata and text: it starts with
/// the header `channel envelope`, then `from: ` and the sender (`external`
/// when missing), then `ts: ` and the envelope's timestamp (`unknown` when
/// missing), then a blank line and the trimmed text, which ends the turn.
pub proof fn lemma_rendered_turn_shows_envelope(e: InboundEnvelope, o: InboundOutcome)
    requires
        inbound_outcome_matches(e, o),
        o is Submitted,
    ensures
        ({
            let r = o->rendered@;
            let from = view_or(e.from, "external"@);
            let head = "channel envelope\nfrom: "@ + from + "\nts: "@;
            &&& r.take(head.len() as int) == head
            &&& e.ts matches Some(t) ==> r.subrange(head.len() as int, head.len() + t@.len() as int) == t@
            &&& r.skip(r.len() - trimmed_text(e).len()) == trimmed_text(e)
            &&& trimmed_text(e).len() > 0
        }),
{
    let r = o->rendered@;
    let from = view_or(e.from, "external"@);
    let head = "channel envelope\nfrom: "@ + from + "\nts: "@;
    let ts = view_or(e.ts, "unknown"@);
    let tail = "\n\n"@ + trimmed_text(e);
    assert(r =~= head + ts + tail);
    assert(r.take(head.len() as int) =~= head);
    assert(r.subrange(head.len() as int, head.len() + ts.len() as int) =~= ts);
    assert(r.skip(r.len() - trimmed_text(e).len()) =~= trimmed_text(e));
}

/// Two envelopes with the same sender and text are rendered alike exactly
/// when they carry the same timestamp (a missing one reads `unknown`): the
/// turn keeps the timestamp it was sent with.
pub proof fn lemma_rendered_turn_keeps_ts(e1: InboundEnvelope, o1: InboundOutcome, e2: InboundEnvelope, o2: InboundOutcome)
    requires
        inbound_outcome_matches(e1, o1),
        inbound_outcome_matches(e2, o2),
        o1 is Submitted,
        o2 is Submitted,
        view_or(e1.from, "external"@) == view_or(e2.from, "external"@),
        trimmed_text(e1) == trimmed_text(e2),
    ensures
        (o1->rendered@ == o2->rendered@) <==> view_or(e1.ts, "unknown"@) == view_or(e2.ts, "unknown"@),
{
    let p = "channel envelope\nfrom: "@ + view_or(e1.from, "external"@) + "\nts: "@;
    let q = "\n\n"@ + trimmed_text(e1);
    let t1 = view_or(e1.ts, "unknown"@);
    let t2 = view_or(e2.ts, "unknown"@);
    assert(o1->rendered@ =~= p + t1 + q);
    assert(o2->rendered@ =~= p + t2 + q);
    lemma_middle_determined(p, t1, t2, q);
}

/// Two envelopes with the same timestamp and text are rendered alike exactly
/// when they name the same sender (a missing one reads `external`).
pub proof fn lemma_rendered_turn_keeps_from(e1: InboundEnvelope, o1: InboundOutcome, e2: InboundEnvelope, o2: InboundOutcome)
    requires
        inbound_outcome_matches(e1, o1),
        inbound_outcome_matches(e2, o2),
        o1 is Submitted,
        o2 is Submitted,
        view_or(e1.ts, "unknown"@) == view_or(e2.ts, "unknown"@),
        trimmed_text(e1) == trimmed_text(e2),
    ensures
        (o1->rendered@ == o2->rendered@) <==> view_or(e1.from, "external"@) == view_or(e2.from, "external"@),
{
    let p = "channel envelope\nfrom: "@;
    let q = "\nts: "@ + view_or(e1.ts, "unknown"@) + "\n\n"@ + trimmed_text(e1);
    let f1 = view_or(e1.from, "external"@);
    let f2 = view_or(e2.from, "external"@);
    assert(o1->rendered@ =~= p + f1 + q);
    assert(o2->rendered@ =~= p + f2 + q);
    lemma_middle_determined(p, f1, f2, q);
}

/// Two envelopes with the same sender and timestamp are rendered alike
/// exactly when their trimmed texts are equal.
pub proof fn lemma_rendered_turn_keeps_text(e1: InboundEnvelope, o1: InboundOutcome, e2: InboundEnvelope, o2: InboundOutcome)
    requires
        inbound_outcome_matches(e1, o1),
        inbound_outcome_matches(e2, o2),
        o1 is Submitted,
        o2 is Submitted,
        view_or(e1.from, "external"@) == view_or(e2.from, "external"@),
        view_or(e1.ts, "unknown"@) == view_or(e2.ts, "unknown"@),
    ensures
        (o1->rendered@ == o2->rendered@) <==> trimmed_text(e1) == trimmed_text(e2),
{
    let p = "channel envelope\nfrom: "@ + view_or(e1.from, "external"@) + "\nts: "@ + view_or(e1.ts, "unknown"@)
        + "\n\n"@;
    let q = Seq::<char>::empty();
    let x1 = trimmed_text(e1);
    let x2 = trimmed_text(e2);
    assert(o1->rendered@ =~= p + x1 + q);
    assert(o2->rendered@ =~= p + x2 + q);
    lemma_middle_determined(p, x1, x2, q);
}

} // verus!

use std::path::PathBuf;

use codex_channel::envelope::{InboundEnvelope, PendingReply};
use codex_channel::filename::{
    format_envelope_file_name, format_receipt_file_name, format_temp_file_name, is_json_name,
    receipt_source_name, FilenameSequence, build_filename,
};
use codex_channel::format::{push_digits, push_signed_zero_padded, push_zero_padded};
use codex_channel::inbound::{
    consume_envelope, envelope_too_large, receipt_status, status_text, InboundOutcome, ReceiptStatus,
    MAX_INBOUND_TEXT_BYTES,
};
use codex_channel::listing::{envelope_paths, path_less_eq, DirEntryInfo, EnvelopePath};
use codex_channel::outbound::{
    build_receipt, build_reply_envelope, install_state, next_write_step, record_submission_rejected,
    record_turn_aborted, record_turn_complete, record_turn_error, write_receipt, ChannelStateCell,
    LinkOutcome, WriteStep, MAX_WRITE_ATTEMPTS,
};
use codex_channel::text::{trimmed, white_space};
use codex_channel::watch::SeenEnvelopes;

fn text_envelope(text: Option<&str>) -> InboundEnvelope {
    InboundEnvelope {
        id: None,
        from: None,
        to: None,
        kind: None,
        thread: None,
        swarm: None,
        text: text.map(str::to_owned),
        ts: None,
    }
}

fn pending() -> PendingReply {
    PendingReply {
        in_reply_to: Some("m7".into()),
        to: Some("agent3".into()),
        thread: Some("t".into()),
        swarm: None,
    }
}

#[test]
fn rendered_turn_uses_defaults_and_trims() {
    let outcome = consume_envelope(&text_envelope(Some("\u{3000} hi there \n\t")));
    match outcome {
        InboundOutcome::Submitted { rendered, pending } => {
            assert_eq!(rendered, "channel envelope\nfrom: external\nts: unknown\n\nhi there");
            assert_eq!(pending.to, None);
            assert_eq!(pending.in_reply_to, None);
        }
        other => panic!("unexpected {other:?}"),
    }
}

#[test]
fn empty_or_missing_text_is_ignored() {
    assert_eq!(
        consume_envelope(&text_envelope(Some(" \t\r\n\u{a0}\u{2028}"))),
        InboundOutcome::Skipped(ReceiptStatus::IgnoredEmptyText)
    );
    assert_eq!(
        consume_envelope(&text_envelope(None)),
        InboundOutcome::Skipped(ReceiptStatus::IgnoredEmptyText)
    );
    assert_eq!(
        consume_envelope(&text_envelope(Some(""))),
        InboundOutcome::Skipped(ReceiptStatus::IgnoredEmptyText)
    );
}

#[test]
fn text_limit_counts_utf8_bytes_of_trimmed_text() {
    let at_limit = format!("  {}  ", "a".repeat(MAX_INBOUND_TEXT_BYTES));
    assert!(matches!(consume_envelope(&text_envelope(Some(&at_limit))), InboundOutcome::Submitted { .. }));
    let over = "a".repeat(MAX_INBOUND_TEXT_BYTES + 1);
    assert_eq!(
        consume_envelope(&text_envelope(Some(&over))),
        InboundOutcome::Skipped(ReceiptStatus::RejectedTextTooLarge)
    );
    let two_byte_at_limit = "é".repeat(MAX_INBOUND_TEXT_BYTES / 2);
    assert!(matches!(
        consume_envelope(&text_envelope(Some(&two_byte_at_limit))),
        InboundOutcome::Submitted { .. }
    ));
    let two_byte_over = "é".repeat(MAX_INBOUND_TEXT_BYTES / 2 + 1);
    assert_eq!(
        consume_envelope(&text_envelope(Some(&two_byte_over))),
        InboundOutcome::Skipped(ReceiptStatus::RejectedTextTooLarge)
    );
    let four_byte_over = format!("{}a", "😀".repeat(MAX_INBOUND_TEXT_BYTES / 4));
    assert_eq!(
        consume_envelope(&text_envelope(Some(&four_byte_over))),
        InboundOutcome::Skipped(ReceiptStatus::RejectedTextTooLarge)
    );
}

#[test]
fn envelope_size_limit_is_64_kib() {
    assert!(!envelope_too_large(0));
    assert!(!envelope_too_large(65536));
    assert!(envelope_too_large(65537));
}

#[test]
fn receipt_statuses_have_stable_names() {
    assert_eq!(status_text(ReceiptStatus::RejectedEnvelopeTooLarge), "rejected_envelope_too_large");
    assert_eq!(status_text(ReceiptStatus::IgnoredEmptyText), "ignored_empty_text");
    assert_eq!(status_text(ReceiptStatus::RejectedTextTooLarge), "rejected_text_too_large");
    assert_eq!(status_text(ReceiptStatus::Submitted), "submitted");
    assert_eq!(receipt_status(&InboundOutcome::Skipped(ReceiptStatus::IgnoredEmptyText)), ReceiptStatus::IgnoredEmptyText);
}

#[test]
fn trimming_matches_str_trim() {
    for s in ["", "  ", " a ", "\u{85}x\u{3000}", "a b", "\u{200b}x\u{200b}", "\u{1680}\u{2000}z\u{205f}"] {
        assert_eq!(trimmed(s), s.trim());
    }
    for c in ['\t', '\n', '\u{b}', '\u{c}', '\r', ' ', '\u{85}', '\u{a0}', '\u{1680}', '\u{2000}', '\u{200a}', '\u{2028}', '\u{2029}', '\u{202f}', '\u{205f}', '\u{3000}', 'a', '\u{200b}', '\u{180e}'] {
        assert_eq!(white_space(c), c.is_whitespace(), "{c:?}");
    }
}

#[test]
fn file_name_fields_are_zero_padded() {
    assert_eq!(
        format_envelope_file_name(1, 42, 0xab, 3, "codex"),
        "00000000000000000001-0000000042-000000ab-0000000003-from-codex.json"
    );
    assert_eq!(
        format_envelope_file_name(-5, 0, u32::MAX, u64::MAX, "a"),
        format!("{:020}-{:010}-{:08x}-{:010}-from-a.json", -5i64, 0u32, u32::MAX, u64::MAX)
    );
    assert_eq!(
        format_envelope_file_name(i64::MIN, u32::MAX, 0, 12345678901, "x-y"),
        format!("{:020}-{:010}-{:08x}-{:010}-from-x-y.json", i64::MIN, u32::MAX, 0u32, 12345678901u64)
    );
    let mut out = String::new();
    push_digits(&mut out, 255, 16);
    push_zero_padded(&mut out, 7, 10, 3);
    push_signed_zero_padded(&mut out, -7, 4);
    assert_eq!(out, "ff007-007");
}

#[test]
fn file_names_sort_by_time() {
    let earlier = format_envelope_file_name(1_700_000_000_000_000_000, 99, 0xffff_ffff, 9, "zz");
    let later = format_envelope_file_name(1_700_000_000_000_000_001, 1, 0, 0, "aa");
    assert!(earlier < later);
    let much_later = format_envelope_file_name(i64::MAX, 0, 0, 0, "a");
    assert!(later < much_later);
}

#[test]
fn filename_sequence_counts_up() {
    let mut seq = FilenameSequence::new();
    let first = build_filename("codex", 1, &mut seq);
    let second = build_filename("codex", 1, &mut seq);
    assert_eq!(first.split('-').nth(3), Some("0000000000"));
    assert_eq!(second.split('-').nth(3), Some("0000000001"));
    assert_eq!(seq.take(), 2);
    assert_ne!(first, second);
    assert!(first.as_bytes()[0].is_ascii_digit());
}

#[test]
fn temp_and_receipt_names() {
    assert_eq!(format_temp_file_name("x.json", 3), ".x.json.3.tmp");
    assert_eq!(format_temp_file_name("n", 0), ".n.0.tmp");
    assert_eq!(format_receipt_file_name("a.json"), "a.json.receipt.json");
    assert_eq!(receipt_source_name(Some(&b"ok.json".to_vec())), "ok.json");
    assert_eq!(receipt_source_name(Some(&vec![0xff, 0xfe, b'.'])), "envelope.json");
    let r = build_receipt(Some(&b"in.json".to_vec()), ReceiptStatus::RejectedEnvelopeTooLarge, "T".into());
    assert_eq!(r.file_name, "in.json.receipt.json");
    assert_eq!(r.receipt.from, "codex");
    assert_eq!(r.receipt.status, "rejected_envelope_too_large");
    assert_eq!(r.receipt.source, "in.json");
    assert_eq!(r.receipt.ts, "T");
    let w = write_receipt(Some(&vec![0x80]), ReceiptStatus::IgnoredEmptyText);
    assert_eq!(w.file_name, "envelope.json.receipt.json");
    assert_eq!(w.receipt.status, "ignored_empty_text");
    assert_eq!(receipt_source_name(None), "envelope.json");
    assert!(chrono::DateTime::parse_from_rfc3339(&w.receipt.ts).is_ok());
}

#[test]
fn json_extension_follows_path_extension() {
    for name in ["a.json", "..json", "x.y.json", ".json", "json", "a.JSON", "a.json.tmp", ".a.json.0.tmp", "a.jsonx"] {
        let expected = std::path::Path::new(name).extension().is_some_and(|e| e == "json");
        assert_eq!(is_json_name(&name.as_bytes().to_vec()), expected, "{name}");
    }
}

fn entry(name: &str, is_file: bool) -> DirEntryInfo {
    DirEntryInfo { name: name.as_bytes().to_vec(), is_file }
}

fn as_path(p: &EnvelopePath) -> PathBuf {
    let base = PathBuf::from("/chan");
    let dir = if p.in_inbox { base.join("inbox") } else { base };
    dir.join(String::from_utf8(p.name.clone()).unwrap())
}

#[test]
fn envelope_paths_sort_like_paths() {
    let channel = vec![
        entry("inbox", false),
        entry("z.json", true),
        entry("inbox.json", true),
        entry("ino.json", true),
        entry("notes.txt", true),
        entry("dir.json", false),
        entry(".json", true),
        entry("a.json", true),
    ];
    let inbox = vec![entry("b.json", true), entry(".tmp.json.1.tmp", true), entry("a.json", true), entry("m.json", true)];
    let paths = envelope_paths(&channel, &inbox);
    let got: Vec<PathBuf> = paths.iter().map(as_path).collect();
    let mut expected: Vec<PathBuf> = vec![
        PathBuf::from("/chan/z.json"),
        PathBuf::from("/chan/inbox.json"),
        PathBuf::from("/chan/ino.json"),
        PathBuf::from("/chan/a.json"),
        PathBuf::from("/chan/inbox/b.json"),
        PathBuf::from("/chan/inbox/a.json"),
        PathBuf::from("/chan/inbox/m.json"),
    ];
    expected.sort();
    assert_eq!(got, expected);
    assert_eq!(got[0], PathBuf::from("/chan/a.json"));
    assert_eq!(got[1], PathBuf::from("/chan/inbox/a.json"));
    assert_eq!(got[4], PathBuf::from("/chan/inbox.json"));
    assert_eq!(got.last().unwrap(), &PathBuf::from("/chan/z.json"));
    for w in paths.windows(2) {
        assert!(path_less_eq(&w[0], &w[1]));
    }
}

#[test]
fn watcher_hands_each_path_on_once() {
    let mut seen = SeenEnvelopes::new();
    let a = EnvelopePath { in_inbox: true, name: b"a.json".to_vec() };
    let b = EnvelopePath { in_inbox: false, name: b"a.json".to_vec() };
    let first = seen.select_unseen(&vec![a.clone(), b.clone(), a.clone()]);
    assert_eq!(first, vec![a.clone(), b.clone()]);
    let second = seen.select_unseen(&vec![b.clone(), a.clone()]);
    assert!(second.is_empty());
    assert!(seen.contains(&a));
    let c = EnvelopePath { in_inbox: true, name: b"c.json".to_vec() };
    assert!(!seen.contains(&c));
    assert!(seen.insert(&c));
    assert!(!seen.insert(&c));
}

#[test]
fn terminal_envelopes_need_an_installed_channel() {
    let mut cell = ChannelStateCell::new();
    assert!(record_turn_complete(&mut cell, pending(), Some("done".into())).is_none());
    assert!(record_turn_error(&mut cell, pending(), "bad".into()).is_none());
    assert!(record_turn_aborted(&mut cell, pending(), "stop").is_none());
    assert!(record_submission_rejected(&mut cell, pending(), "no").is_none());
}

#[test]
fn terminal_envelopes_carry_outcome_kind() {
    let mut cell = ChannelStateCell::new();
    install_state(&mut cell, b"/chan/outbox".to_vec());
    install_state(&mut cell, b"/other/outbox".to_vec());
    let done = record_turn_complete(&mut cell, pending(), Some("done".into())).unwrap();
    assert!(chrono::DateTime::parse_from_rfc3339(&done.envelope.ts).is_ok());
    assert_eq!(done.outbox_dir, b"/chan/outbox".to_vec());
    assert_eq!(done.envelope.kind.as_deref(), Some("reply"));
    assert_eq!(done.envelope.text, "done");
    assert_eq!(done.envelope.to.as_deref(), Some("agent3"));
    assert_eq!(done.envelope.in_reply_to.as_deref(), Some("m7"));
    assert_eq!(done.envelope.thread.as_deref(), Some("t"));
    assert_eq!(done.envelope.swarm, None);
    assert_eq!(done.envelope.id, None);
    let silent = record_turn_complete(&mut cell, pending(), None).unwrap();
    assert_eq!(silent.envelope.kind.as_deref(), Some("reply"));
    assert_eq!(silent.envelope.text, "");
    let err = record_turn_error(&mut cell, pending(), "bad".into()).unwrap();
    assert_eq!((err.envelope.kind.as_deref(), err.envelope.text.as_str()), (Some("error"), "bad"));
    let cancel = record_turn_aborted(&mut cell, pending(), "stop").unwrap();
    assert_eq!((cancel.envelope.kind.as_deref(), cancel.envelope.text.as_str()), (Some("cancel"), "stop"));
    let rejected = record_submission_rejected(&mut cell, pending(), "no").unwrap();
    assert_eq!((rejected.envelope.kind.as_deref(), rejected.envelope.text.as_str()), (Some("error"), "no"));
}

#[test]
fn reply_envelope_keeps_given_timestamp() {
    let e = build_reply_envelope(None, "cancel", "why", "2026-01-01T00:00:00Z".into());
    assert_eq!(e.ts, "2026-01-01T00:00:00Z");
    assert_eq!(e.idempotency_key, None);
    assert_eq!(e.requires_ack, None);
    assert_eq!(e.swarm, None);
}

#[test]
fn atomic_write_retries_only_collisions() {
    assert_eq!(MAX_WRITE_ATTEMPTS, 8);
    assert_eq!(next_write_step(0, LinkOutcome::Linked), WriteStep::Done);
    assert_eq!(next_write_step(0, LinkOutcome::Failed), WriteStep::Fail);
    assert_eq!(next_write_step(0, LinkOutcome::AlreadyExists), WriteStep::Retry(1));
    assert_eq!(next_write_step(6, LinkOutcome::AlreadyExists), WriteStep::Retry(7));
    assert_eq!(next_write_step(7, LinkOutcome::AlreadyExists), WriteStep::Exhausted);
    let mut attempt = 0;
    let mut tries = 1;
    while let WriteStep::Retry(next) = next_write_step(attempt, LinkOutcome::AlreadyExists) {
        attempt = next;
        tries += 1;
    }
    assert_eq!(tries, 8);
}

use codex_channel::envelope::{InboundEnvelope, PendingReply};
use codex_channel::filename::{build_filename, FilenameSequence};
use codex_channel::inbound::{consume_envelope, receipt_status, InboundOutcome, ReceiptStatus};
use codex_channel::outbound::{emit_reply_envelope, write_receipt};

fn s(v: &str) -> Option<String> {
    Some(v.to_owned())
}

fn inbound(id: &str, from: &str, thread: Option<String>, swarm: Option<String>, text: &str, ts: &str) -> InboundEnvelope {
    InboundEnvelope {
        id: s(id),
        from: s(from),
        to: s("codex"),
        kind: None,
        thread,
        swarm,
        text: s(text),
        ts: s(ts),
    }
}

fn submitted(outcome: InboundOutcome) -> (String, PendingReply) {
    match outcome {
        InboundOutcome::Submitted { rendered, pending } => (rendered, pending),
        other => panic!("expected a submitted envelope, got {other:?}"),
    }
}

#[test]
fn consume_envelope_extracts_pending_metadata() {
    let env = inbound("msg-42", "agent0", s("thread-1"), s("swarm-1"), "hello codex", "2026-04-17T15:00:00Z");
    let (rendered, pending) = submitted(consume_envelope(&env));
    assert!(rendered.contains("hello codex"));
    assert!(rendered.contains("from: agent0"));
    assert_eq!(pending.in_reply_to.as_deref(), Some("msg-42"));
    assert_eq!(pending.to.as_deref(), Some("agent0"));
    assert_eq!(pending.thread.as_deref(), Some("thread-1"));
    assert_eq!(pending.swarm.as_deref(), Some("swarm-1"));
}

#[test]
fn emit_reply_envelope_writes_canonical_shape() {
    let pending = PendingReply {
        in_reply_to: Some("msg-42".into()),
        to: Some("agent0".into()),
        thread: Some("thread-1".into()),
        swarm: Some("swarm-1".into()),
    };
    let env = emit_reply_envelope(Some(&pending), "reply", "hi back");
    assert_eq!(env.from, "codex");
    assert_eq!(env.to.as_deref(), Some("agent0"));
    assert_eq!(env.kind.as_deref(), Some("reply"));
    assert_eq!(env.in_reply_to.as_deref(), Some("msg-42"));
    assert_eq!(env.thread.as_deref(), Some("thread-1"));
    assert_eq!(env.swarm.as_deref(), Some("swarm-1"));
    assert_eq!(env.text, "hi back");
    assert!(chrono::DateTime::parse_from_rfc3339(&env.ts).is_ok());
}

#[test]
fn round_trip_inbox_to_reply() {
    let env = inbound("msg-99", "agent0", s("t-7"), None, "ping", "2026-04-17T15:30:00Z");
    let (_rendered, pending) = submitted(consume_envelope(&env));
    let reply = emit_reply_envelope(Some(&pending), "reply", "pong");
    assert_eq!(reply.from, "codex");
    assert_eq!(reply.to.as_deref(), Some("agent0"));
    assert_eq!(reply.in_reply_to.as_deref(), Some("msg-99"));
    assert_eq!(reply.thread.as_deref(), Some("t-7"));
    assert_eq!(reply.kind.as_deref(), Some("reply"));
    assert_eq!(reply.text, "pong");
}

#[test]
fn emit_error_and_cancel_kinds() {
    let pending = PendingReply {
        in_reply_to: Some("m1".into()),
        to: Some("agent0".into()),
        thread: None,
        swarm: None,
    };
    let env = emit_reply_envelope(Some(&pending), "error", "boom");
    assert_eq!(env.kind.as_deref(), Some("error"));
    assert_eq!(env.text, "boom");
}

#[test]
fn emit_reply_without_pending_still_writes() {
    let env = emit_reply_envelope(None, "reply", "solo");
    assert_eq!(env.from, "codex");
    assert_eq!(env.to, None);
    assert_eq!(env.in_reply_to, None);
    assert_eq!(env.thread, None);
    assert_eq!(env.text, "solo");
}

#[test]
fn build_filename_shape_is_stable() {
    let mut seq = FilenameSequence::new();
    let n = build_filename("codex", 4242, &mut seq);
    assert!(n.ends_with("-from-codex.json"));
    let parts: Vec<&str> = n.splitn(5, '-').collect();
    assert_eq!(parts.len(), 5);
    assert_eq!(parts[0].len(), 20);
    assert_eq!(parts[1].len(), 10);
    assert_eq!(parts[2].len(), 8);
}

fn valid_agent_id(id: &str) -> bool {
    match id.strip_prefix("agent") {
        Some(suffix) => {
            !suffix.is_empty() && suffix.chars().all(|c| c.is_ascii_lowercase() || c.is_ascii_digit())
        }
        None => false,
    }
}

fn filename_shape_ok(name: &str) -> bool {
    let Some(stem) = name.strip_suffix(".json") else {
        return false;
    };
    let parts: Vec<&str> = stem.splitn(5, '-').collect();
    if parts.len() != 5 {
        return false;
    }
    parts[0].len() == 20
        && parts[1].len() == 10
        && parts[2].len() == 8
        && parts[3].len() == 10
        && parts[4].starts_with("from-")
}

#[test]
fn round_trip_reply_matches_inbound_metadata() {
    let mut seq = FilenameSequence::new();
    let inbound_name = build_filename("agent0", 7, &mut seq);
    assert!(filename_shape_ok(&inbound_name), "inbound filename did not match envelope v1 shape");
    let mut env = inbound(
        "msg-round-1",
        "agent0",
        s("thread-roundtrip"),
        s("swarm-roundtrip"),
        "hello codex",
        "2026-04-17T16:00:00Z",
    );
    env.kind = s("brief");
    assert!(valid_agent_id(env.from.as_deref().unwrap()));
    let outcome = consume_envelope(&env);
    assert_eq!(receipt_status(&outcome), ReceiptStatus::Submitted);
    let receipt = write_receipt(Some(&inbound_name.clone().into_bytes()), receipt_status(&outcome));
    assert_eq!(receipt.receipt.from, "codex");
    assert_eq!(receipt.receipt.status, "submitted");
    assert_eq!(receipt.file_name, format!("{inbound_name}.receipt.json"));
    assert!(receipt.file_name.ends_with(".receipt.json"));
    let (rendered, pending) = submitted(outcome);
    let text = format!("echo: {}", rendered.rsplit("\n\n").next().unwrap());
    let reply = emit_reply_envelope(Some(&pending), "reply", &text);
    assert_eq!(reply.from, "codex");
    assert_eq!(reply.to.as_deref(), Some("agent0"));
    assert_eq!(reply.kind.as_deref(), Some("reply"));
    assert_eq!(reply.in_reply_to.as_deref(), Some("msg-round-1"));
    assert_eq!(reply.thread.as_deref(), Some("thread-roundtrip"));
    assert_eq!(reply.swarm.as_deref(), Some("swarm-roundtrip"));
    assert_eq!(reply.text, "echo: hello codex");
    assert!(chrono::DateTime::parse_from_rfc3339(&reply.ts).is_ok(), "reply ts must be RFC3339");
}

#[test]
fn reply_filename_follows_envelope_v1_shape() {
    let mut seq = FilenameSequence::new();
    let name = build_filename("codex", 99, &mut seq);
    assert!(filename_shape_ok(&name), "reply filename {name} did not match envelope v1 shape");
    assert!(name.contains("-from-codex.json"), "reply filename {name} did not encode `from` as `codex`");
}

#[test]
fn many_inbound_preserves_one_reply_per_turn() {
    let mut seen_in_reply_to = Vec::new();
    for i in 0..5 {
        let env = inbound(
            &format!("msg-n-{i}"),
            "agent0",
            s("thread-roundtrip"),
            s("swarm-roundtrip"),
            &format!("turn {i}"),
            "2026-04-17T16:00:00Z",
        );
        let (rendered, pending) = submitted(consume_envelope(&env));
        let text = format!("ack: {}", rendered.rsplit("\n\n").next().unwrap());
        let reply = emit_reply_envelope(Some(&pending), "reply", &text);
        assert_eq!(reply.from, "codex");
        assert_eq!(reply.kind.as_deref(), Some("reply"));
        assert!(reply.text.starts_with("ack: turn "));
        seen_in_reply_to.push(reply.in_reply_to.expect("in_reply_to must be set"));
    }
    seen_in_reply_to.sort();
    assert_eq!(
        seen_in_reply_to,
        vec![
            "msg-n-0".to_owned(),
            "msg-n-1".to_owned(),
            "msg-n-2".to_owned(),
            "msg-n-3".to_owned(),
            "msg-n-4".to_owned(),
        ]
    );
}

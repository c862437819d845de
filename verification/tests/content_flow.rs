use rill::content::ledger::{EventId, EventKind, SemanticEvent, SemanticLedger};
use rill::content::policy::{redact_export, RetentionPolicy, RetentionTier};
use rill::content::range::{recover_range, HotRing, RangeError, SourceRange};
use rill::content::timeline::{ContentKind, ContentTimeline};
use rill::content::FlowSession;
use rill::kernel::ring::ByteRing;

#[test]
fn t_content_monotonic_offsets() {
    let mut ring = ByteRing::new(4);
    ring.append(b"abcd");
    ring.append(b"ef");
    assert_eq!(ring.end_offset(), 6, "end must keep counting past capacity");
    assert_eq!(ring.retained_base(), 2, "eviction must advance the absolute base, not restart at 0");
    assert!(ring.deltas_after(0).is_err(), "readers must see the old base is gone");
    assert_eq!(ring.deltas_after(2).expect("tail"), b"cdef");
}

#[test]
fn t_content_range_requires_state() {
    let mut ring = HotRing::new(64);
    let full = b"\x1b[31mred";
    ring.append(full);
    let mid = SourceRange {
        generation: 1,
        start: 1,
        end: full.len() as u64,
        checkpoint_id: None,
    };
    assert_eq!(
        recover_range(&ring, mid),
        Err(RangeError::NeedsCheckpoint),
        "a slice beginning at CSI parameters must not render without a checkpoint"
    );
    let ok = SourceRange {
        generation: 1,
        start: 0,
        end: full.len() as u64,
        checkpoint_id: Some(1),
    };
    assert_eq!(recover_range(&ring, ok).expect("from origin"), full);
}

#[test]
fn t_content_survives_ring_eviction() {
    let mut flow = FlowSession::new(8);
    flow.submit_command(b"echo hi").expect("submit");
    flow.ingest_pty_bytes(b"hi\n").expect("out");
    let before = flow
        .timeline
        .items()
        .iter()
        .find(|i| i.kind == ContentKind::TerminalOutput)
        .expect("output item")
        .payload
        .clone();
    flow.evict_hot_ring_to(2);
    assert!(
        flow.ring.deltas_after(0).is_none() || flow.ring.retained_base() > 0,
        "hot ring must have forgotten the prefix"
    );
    let after = flow
        .timeline
        .items()
        .iter()
        .find(|i| i.kind == ContentKind::TerminalOutput)
        .expect("output item after eviction")
        .payload
        .clone();
    assert_eq!(after, before, "timeline must keep materialized bytes instead of rereading the moving ring");
}

#[test]
fn t_content_no_prompt_heuristic() {
    let mut flow = FlowSession::new(64);
    flow.ingest_pty_bytes(b"$ cargo test --workspace\n").expect("ingest");
    let kinds: Vec<_> = flow.timeline.items().iter().map(|i| i.kind).collect();
    assert!(
        kinds.iter().all(|k| *k != ContentKind::TerminalInput),
        "prompt-shaped PTY bytes must remain unstructured, got {kinds:?}"
    );
    let id = flow.submit_command(b"cargo test --workspace").expect("mark");
    assert_eq!(flow.timeline.get(id).map(|i| i.kind), Some(ContentKind::TerminalInput));
}

#[test]
fn t_content_source_authority() {
    let mut flow = FlowSession::new(64);
    flow.ingest_pty_bytes(b"$ make\n  12 tests passed\n").expect("ingest");
    for item in flow.timeline.items() {
        assert_ne!(item.kind, ContentKind::TerminalInput, "scraping cells must not create a command item");
        let text = String::from_utf8_lossy(&item.payload);
        assert!(!text.contains("PASS_COUNT=12"), "regex must not invent a test-pass field");
    }
}

#[test]
fn t_transcript_event_idempotency() {
    let mut ledger = SemanticLedger::new();
    let ev = SemanticEvent {
        id: EventId(7),
        kind: EventKind::TerminalInput,
        sequence: 0,
        payload: b"ls".to_vec(),
        range: None,
    };
    ledger.append(ev.clone()).expect("first");
    ledger.append(ev).expect("idempotent");
    assert_eq!(ledger.len(), 1);
    let conflict = SemanticEvent {
        id: EventId(7),
        kind: EventKind::TerminalInput,
        sequence: 0,
        payload: b"pwd".to_vec(),
        range: None,
    };
    assert!(ledger.append(conflict).is_err());
}

#[test]
fn t_transcript_byte_event_order() {
    let mut flow = FlowSession::new(64);
    let start = flow.ring.end_offset();
    flow.submit_command(b"printf x").expect("in");
    flow.ingest_pty_bytes(b"x").expect("out");
    let out = flow
        .timeline
        .items()
        .iter()
        .find(|i| i.kind == ContentKind::TerminalOutput)
        .expect("out item");
    let range = out.range.expect("range");
    assert!(range.start >= start, "output range must not precede the bytes that produced it");
    assert_eq!(range.end, flow.ring.end_offset());
}

#[test]
fn t_content_truncation_visible() {
    let mut flow = FlowSession::new(32);
    let id = flow.submit_command(b"cat huge").expect("in");
    flow.timeline.mark_truncated(id, b"evicted source range").expect("tombstone");
    let item = flow.timeline.get(id).expect("item");
    assert!(item.truncated || item.kind == ContentKind::Discontinuity);
}

#[test]
fn t_content_retention_restrictive_wins() {
    let policy = RetentionPolicy::new(RetentionTier::Disabled, RetentionTier::BoundedDurable);
    assert_eq!(policy.resolved(), RetentionTier::Disabled);
    assert!(!policy.allows_durable_capture());
}

#[test]
fn t_content_redaction_derived() {
    let src = b"token=sekrit";
    let (export, h1) = redact_export(src, b"sekrit");
    let (_, h2) = redact_export(src, b"sekrit");
    assert_eq!(h1, h2, "canonical hash must be stable");
    assert_ne!(export, src, "derived sink must be transformed");
    assert_eq!(src, b"token=sekrit", "caller source must stay intact");
}

#[test]
fn t_content_retention_disabled() {
    let policy = RetentionPolicy::new(RetentionTier::Disabled, RetentionTier::Disabled);
    assert!(!policy.allows_durable_capture());
}

#[test]
fn t_block_content_identity() {
    let mut flow = FlowSession::new(32);
    let input = flow.submit_command(b"echo").expect("in");
    let out = flow.ingest_pty_bytes(b"echo\n").expect("out");
    let block = flow.timeline.block_for_input(input);
    assert!(block.items.contains(&input));
    assert!(block.items.contains(&out));
}

#[test]
fn t_composer_draft_local() {
    let mut flow = FlowSession::new(16);
    flow.set_draft("SECRET_CANARY_9f3a".into());
    assert!(flow.ledger.is_empty(), "draft must not become a Session/ledger record");
    assert_eq!(flow.draft(), "SECRET_CANARY_9f3a");
}

#[test]
fn t_content_bounded_recovery() {
    let mut flow = FlowSession::new(32);
    for i in 0..200 {
        let _ = flow.ingest_pty_bytes(&[b'x', i as u8]);
    }
    assert!(flow.timeline.items().len() <= 256, "item count must stay bounded");
    assert!(flow.ring.len() <= 32, "hot ring must stay at cap");
}

#[test]
fn redaction_masks_the_first_occurrence_only() {
    let (export, _) = redact_export(b"a=xy b=xy", b"xy");
    assert_eq!(export, b"a=** b=xy");
    let (unchanged, _) = redact_export(b"abc", b"");
    assert_eq!(unchanged, b"abc");
    let (unchanged, _) = redact_export(b"ab", b"abc");
    assert_eq!(unchanged, b"ab");
}

#[test]
fn digest_depends_on_the_canonical_bytes() {
    let (_, a) = redact_export(b"token=1", b"1");
    let (_, b) = redact_export(b"token=2", b"2");
    assert_ne!(a, b);
    let (_, empty) = redact_export(b"", b"x");
    assert_eq!(empty, [0u8; 32]);
}

#[test]
fn ledger_numbers_events_and_moves_the_id_counter() {
    let mut ledger = SemanticLedger::new();
    assert_eq!(ledger.next_id_raw(), 0);
    assert_eq!(ledger.next_id_raw(), 1);
    let ev = SemanticEvent { id: EventId(10), kind: EventKind::Lifecycle, sequence: 0, payload: vec![], range: None };
    assert_eq!(ledger.append(ev).expect("append"), EventId(10));
    assert_eq!(ledger.get(EventId(10)).expect("stored").sequence, 1);
    assert_eq!(ledger.next_id_raw(), 11);
    assert!(ledger.get(EventId(3)).is_none());
}

#[test]
fn hash_order_is_the_fnv_mix_of_the_ledger() {
    let ledger = SemanticLedger::new();
    assert_eq!(ledger.hash_order(), 0xcbf29ce484222325);
    let mut one = SemanticLedger::new();
    let ev = SemanticEvent { id: EventId(1), kind: EventKind::Lifecycle, sequence: 5, payload: vec![1, 2], range: None };
    one.append(ev).expect("append");
    let mut h: u64 = 0xcbf29ce484222325;
    h ^= 1;
    h = h.wrapping_mul(0x100000001b3);
    h ^= 5;
    h = h.wrapping_mul(0x100000001b3);
    h ^= 2;
    assert_eq!(one.hash_order(), h);
}

#[test]
fn recover_range_refuses_evicted_and_truncated_ranges() {
    let mut ring = HotRing::new(4);
    ring.append(b"abcdef");
    let evicted = SourceRange { generation: 1, start: 0, end: 2, checkpoint_id: Some(1) };
    assert_eq!(recover_range(&ring, evicted), Err(RangeError::Evicted));
    let past_end = SourceRange { generation: 1, start: 3, end: 9, checkpoint_id: Some(1) };
    assert_eq!(recover_range(&ring, past_end), Err(RangeError::Truncated));
    let plain = SourceRange { generation: 1, start: 2, end: 4, checkpoint_id: None };
    assert_eq!(recover_range(&ring, plain).expect("plain"), b"cd");
}

#[test]
fn visible_window_is_clamped_to_the_timeline() {
    let mut flow = FlowSession::new(64);
    flow.submit_command(b"a").expect("a");
    flow.submit_command(b"b").expect("b");
    flow.submit_command(b"c").expect("c");
    assert_eq!(flow.timeline.visible_window(1, 10).len(), 2);
    assert_eq!(flow.timeline.visible_window(5, 1).len(), 0);
    assert_eq!(flow.timeline.visible_window(0, 2)[1].payload, b"b");
}

#[test]
fn block_ends_at_the_next_input() {
    let mut flow = FlowSession::new(64);
    let first = flow.submit_command(b"one").expect("one");
    let out1 = flow.ingest_pty_bytes(b"1").expect("out1");
    let second = flow.submit_command(b"two").expect("two");
    let out2 = flow.ingest_pty_bytes(b"2").expect("out2");
    assert_eq!(flow.timeline.block_for_input(first).items, vec![first, out1]);
    assert_eq!(flow.timeline.block_for_input(second).items, vec![second, out2]);
    assert_eq!(flow.timeline.last_input().expect("input").id, second);
}

#[test]
fn output_before_any_command_is_unstructured_and_not_held_open() {
    let mut flow = FlowSession::new(64);
    let a = flow.ingest_pty_bytes(b"boot").expect("a");
    let b = flow.ingest_pty_bytes(b"more").expect("b");
    assert_ne!(a, b);
    assert_eq!(flow.timeline.get(a).expect("a").kind, ContentKind::Unstructured);
    assert!(flow.ingest_pty_bytes(b"").is_err());
}

#[test]
fn output_after_a_command_extends_one_item() {
    let mut flow = FlowSession::new(64);
    flow.submit_command(b"ls").expect("ls");
    let a = flow.ingest_pty_bytes(b"ab").expect("a");
    let b = flow.ingest_pty_bytes(b"cd").expect("b");
    assert_eq!(a, b);
    let item = flow.timeline.get(a).expect("item");
    assert_eq!(item.payload, b"abcd");
    assert_eq!(item.range.expect("range").end, 4);
    flow.close_open_output();
    let c = flow.ingest_pty_bytes(b"ef").expect("c");
    assert_ne!(c, a);
}

#[test]
fn checkpoint_marks_advance_the_range_checkpoint() {
    let mut flow = FlowSession::new(64);
    flow.mark_checkpoint();
    let id = flow.submit_command(b"x").expect("x");
    assert_eq!(flow.timeline.get(id).expect("x").range.expect("range").checkpoint_id, Some(2));
    flow.set_draft("draft".into());
    flow.clear_draft();
    assert_eq!(flow.draft(), "");
}

#[test]
fn content_kind_follows_the_event_kind() {
    assert_eq!(ContentKind::from(EventKind::ToolCall), ContentKind::Other);
    assert_eq!(ContentKind::from(EventKind::TerminalOutput), ContentKind::TerminalOutput);
    let mut t = ContentTimeline::new();
    let ev = SemanticEvent { id: EventId(1), kind: EventKind::Discontinuity, sequence: 1, payload: vec![], range: None };
    let id = t.append_from_event(&ev, EventId(1)).expect("append");
    assert_eq!(t.get(id).expect("item").kind, ContentKind::Discontinuity);
}

#[test]
fn evicting_the_hot_ring_keeps_offsets_and_item_ranges() {
    let mut flow = FlowSession::new(4);
    flow.ingest_pty_bytes(b"abcdef").expect("first");
    assert_eq!(flow.ring.end_offset(), 6);
    assert_eq!(flow.ring.retained_base(), 2);
    flow.evict_hot_ring_to(2);
    assert_eq!(flow.ring.end_offset(), 6, "eviction must not renumber");
    assert_eq!(flow.ring.retained_base(), 4);
    assert_eq!(flow.ring.snapshot(), b"ef".to_vec());
    assert_eq!(flow.ring.deltas_after(4), Some(b"ef".to_vec()));
    assert_eq!(flow.ring.deltas_after(3), None);
    flow.ingest_pty_bytes(b"g").expect("second");
    assert_eq!(flow.ring.end_offset(), 7);
    assert_eq!(flow.ring.snapshot(), b"fg".to_vec());
    let range = flow.timeline.items()[0].range.expect("range");
    assert_eq!(range.start, 0);
    assert_eq!(range.end, 6);
}

#[test]
fn a_hot_ring_shrunk_above_its_length_keeps_everything() {
    let mut ring = HotRing::new(8);
    ring.append(b"xyz");
    ring.shrink_to(0);
    assert_eq!(ring.snapshot(), b"z".to_vec());
    assert_eq!(ring.end_offset(), 3);
    assert_eq!(ring.retained_base(), 2);
    let mut ring = HotRing::new(8);
    ring.append(b"xyz");
    ring.shrink_to(5);
    assert_eq!(ring.snapshot(), b"xyz".to_vec());
    assert_eq!(ring.retained_base(), 0);
}

#[test]
fn the_next_ledger_id_is_fresh_and_appends_read_back() {
    let mut ledger = SemanticLedger::new();
    let ev = SemanticEvent {
        id: EventId(41),
        kind: EventKind::Lifecycle,
        sequence: 0,
        payload: b"x".to_vec(),
        range: None,
    };
    assert_eq!(ledger.append(ev.clone()), Ok(EventId(41)));
    let stored = ledger.get(EventId(41)).expect("stored");
    assert_eq!(stored.sequence, 1);
    assert_eq!(stored.payload, b"x".to_vec());
    assert!(ledger.get(EventId(40)).is_none());
    let next = ledger.next_id_raw();
    assert_eq!(next, 42, "the counter moves past every stored id");
    assert_eq!(ledger.next_id_raw(), 43);
    let fresh = SemanticEvent { id: EventId(next), ..ev };
    assert_eq!(ledger.append(fresh), Ok(EventId(42)));
    assert_eq!(ledger.len(), 2);
}

#[test]
fn flow_accessors_show_the_session_parts_and_ingest_always_lands() {
    let mut flow = FlowSession::new(16);
    assert_eq!(flow.generation(), 1);
    flow.submit_command(b"ls").expect("submit");
    for chunk in [&b"$ make\n"[..], b"a", b"b"] {
        let id = flow.ingest_pty_bytes(chunk).expect("ingest");
        assert!(flow.timeline().get(id).is_some());
    }
    assert_eq!(flow.ring().end_offset(), 9);
    assert_eq!(flow.ledger().len(), 4);
    let inputs = flow
        .timeline()
        .items()
        .iter()
        .filter(|i| i.kind == ContentKind::TerminalInput)
        .count();
    assert_eq!(inputs, 1, "a prompt-shaped chunk made no command");
}

#[test]
fn a_session_stays_well_formed_through_every_mutator() {
    let mut flow = FlowSession::new(4);
    flow.set_draft("draft".to_string());
    let input = flow.submit_command(b"make").expect("submit");
    let out = flow.ingest_pty_bytes(b"building").expect("output");
    flow.mark_checkpoint();
    flow.evict_hot_ring_to(2);
    assert_eq!(flow.ingest_pty_bytes(b"!").expect("more"), out, "output still open after eviction");
    flow.close_open_output();
    flow.clear_draft();
    let next = flow.ingest_pty_bytes(b"x").expect("after close");
    assert_ne!(next, out);
    assert_ne!(next, input);
    assert!(flow.timeline().get(next).is_some());
}

use rill::attach::Frame;
use rill::kernel::checkpoint::{StoredCheckpoint, CHECKPOINT_FORMAT_VERSION};
use rill::kernel::content::{
    CaptureOutcome, ContentError, ContentEvent, ContentKind, ContentTimeline, DurableTranscript,
    EventAvailability, RedactionRule, ReplayState, RetentionMode, RetentionPolicy, ScreenMode, SourceRange,
};
use rill::kernel::error::Error;
use rill::kernel::journal::{reconcile_execution, TerminalOutcome};
use rill::kernel::pty::Winsize;
use rill::kernel::ring::ByteRing;
use rill::kernel::session::SessionCore;
use rill::kernel::transcript::{
    EventId, EventPayload, EventProvenance, SemanticEvent, TranscriptError, TranscriptLedger,
};

#[test]
fn t_bytes_ring_stores_raw_invalid_utf8() {
    let mut ring = ByteRing::new(64);
    let fixture: &[u8] = &[0x41, 0xc3, 0x28, 0xa0, 0xa1, 0xe2, 0x28, 0xa1, 0xf0, 0x90, 0x28, 0xbc, 0xff, 0xfe, 0x80, 0x42];
    ring.append(fixture);
    let got = ring.snapshot();
    assert_eq!(got, fixture, "ring must keep original bytes, not UTF-8 replacement");
    assert!(!got.windows(3).any(|w| w == [0xef, 0xbf, 0xbd]));
}

#[test]
fn bounded_ring_keeps_tail() {
    let mut ring = ByteRing::new(4);
    ring.append(b"abcdef");
    assert_eq!(ring.snapshot(), b"cdef");
    assert_eq!(ring.retained_base(), 2);
    assert_eq!(ring.end_offset(), 6);
    assert!(ring.deltas_after(0).is_err());
    assert_eq!(ring.deltas_after(2).expect("tail"), b"cdef");
}

#[test]
fn t_bytes_ring_keeps_the_tail_and_never_transcodes() {
    let mut ring = ByteRing::new(4);
    ring.append(b"abcdef");
    assert_eq!(ring.snapshot(), b"cdef");

    let mut ring = ByteRing::new(64);
    let raw: &[u8] = &[0xff, 0xfe, 0x80, 0x41];
    ring.append(raw);
    assert_eq!(ring.snapshot(), raw);
}

#[test]
fn ring_offsets_survive_many_small_appends() {
    let mut ring = ByteRing::new(3);
    for b in b"abcdefg" {
        ring.append(&[*b]);
    }
    assert_eq!(ring.end_offset(), 7);
    assert_eq!(ring.retained_base(), 4);
    assert_eq!(ring.snapshot(), b"efg");
    assert_eq!(ring.deltas_after(5).expect("after 5"), b"fg");
    assert_eq!(ring.deltas_after(7).expect("at end"), b"");
    assert!(ring.deltas_after(8).is_err());
}

#[test]
fn zero_capacity_ring_keeps_one_byte() {
    let mut ring = ByteRing::new(0);
    ring.append(b"xyz");
    assert_eq!(ring.cap(), 1);
    assert_eq!(ring.snapshot(), b"z");
}

#[test]
fn t_content_retention_policy_restrictive_wins() {
    let parent = RetentionPolicy::disabled();
    let child = RetentionPolicy::memory_only(1024);
    let resolved = child.restrictive_wins(parent.clone());
    assert_eq!(resolved.mode, RetentionMode::Disabled);
    assert_eq!(resolved, parent);
}

#[test]
fn t_content_timeline_rejects_duplicate_event_id() {
    let mut timeline = ContentTimeline::new();
    let first = ContentEvent::new("evt-1", ContentKind::TerminalOutput, 1, None, None);
    let dup = ContentEvent::new("evt-1", ContentKind::TerminalOutput, 2, None, None);

    timeline.append(first).expect("first event should append");
    let err = timeline.append(dup).expect_err("duplicate event id should fail");
    assert!(matches!(err, ContentError::DuplicateEventId(_)));
    assert_eq!(timeline.len(), 1);
}

#[test]
fn t_content_timeline_rejects_out_of_order_sequence() {
    let mut timeline = ContentTimeline::new();
    timeline
        .append(ContentEvent::new("evt-1", ContentKind::TerminalOutput, 10, None, None))
        .expect("first event should append");
    let err = timeline
        .append(ContentEvent::new("evt-2", ContentKind::TerminalOutput, 9, None, None))
        .expect_err("sequence must remain monotonic");
    assert!(matches!(err, ContentError::OutOfOrderSequence { .. }));
}

#[test]
fn t_content_policy_disabled_rejects_capture() {
    let policy = RetentionPolicy::disabled();
    let mut timeline = ContentTimeline::new();
    let event = ContentEvent::new("evt-1", ContentKind::TerminalOutput, 1, None, None);
    assert!(!policy.allows_capture());
    let err = timeline
        .append_with_policy(&policy, event)
        .expect_err("disabled capture must fail closed");
    assert!(matches!(err, ContentError::CaptureDisabled));
}

#[test]
fn t_content_timeline_tracks_discontinuity_markers() {
    let mut timeline = ContentTimeline::new();
    timeline
        .append(ContentEvent::new("evt-gap", ContentKind::Discontinuity, 1, None, Some((100, 200))))
        .expect("discontinuity marker should append");
    assert!(timeline.has_discontinuity());
}

#[test]
fn t_content_policy_byte_limit_is_enforced() {
    let policy = RetentionPolicy::memory_only(12);
    let mut timeline = ContentTimeline::new();
    let first = ContentEvent::new("evt-1", ContentKind::TerminalOutput, 1, None, Some((0, 8)));
    let second = ContentEvent::new("evt-2", ContentKind::TerminalOutput, 2, None, Some((8, 16)));

    timeline.append_with_policy(&policy, first).expect("first item should fit");
    let err = timeline
        .append_with_policy(&policy, second)
        .expect_err("second item should exceed the byte limit");
    assert!(matches!(err, ContentError::RetentionLimitExceeded { .. }));
}

#[test]
fn t_content_timeline_supports_discontinuity_helper() {
    let mut timeline = ContentTimeline::new();
    timeline
        .append_discontinuity("gap-1", 1, 40, 50)
        .expect("discontinuity helper should append");
    assert!(timeline.has_discontinuity());
    assert_eq!(timeline.bytes_used(), 10);
}

#[test]
fn t_content_timeline_marks_truncation_explicitly() {
    let mut timeline = ContentTimeline::new();
    timeline
        .append_truncation("trunc-1", 3, 220, 320)
        .expect("truncation should be visible");
    assert!(timeline.has_truncation());
    let event = &timeline.events()[0];
    assert_eq!(event.availability, EventAvailability::Truncated);
    assert_eq!(event.kind, ContentKind::Truncation);
}

fn output_event(id: &str, sequence: u64, range: (u64, u64)) -> SemanticEvent {
    SemanticEvent::new(
        EventId::new(id).expect("valid event id"),
        sequence,
        1,
        EventProvenance::Pty,
        EventPayload::TerminalOutput { range },
    )
    .expect("valid event")
}

#[test]
fn t_transcript_event_append_is_idempotent_and_conflicts_fail_closed() {
    let mut ledger = TranscriptLedger::new();
    let event = output_event("event-1", 1, (0, 8));
    ledger.append(event.clone()).expect("first append");
    ledger.append(event).expect("identical replay");
    assert_eq!(ledger.len(), 1);

    let conflict = output_event("event-1", 2, (8, 16));
    let err = ledger.append(conflict).expect_err("conflicting reuse must fail");
    assert!(matches!(err, TranscriptError::ConflictingEventId(_)));
    assert_eq!(ledger.len(), 1);
}

#[test]
fn t_transcript_terminal_ranges_follow_byte_order_and_generation() {
    let mut ledger = TranscriptLedger::new();
    ledger.append(output_event("event-1", 1, (10, 20))).expect("first range");

    let overlap = output_event("event-2", 2, (19, 30));
    assert!(matches!(
        ledger.append(overlap),
        Err(TranscriptError::OverlappingTerminalRange { .. })
    ));

    let wrong_generation = SemanticEvent::new(
        EventId::new("event-3").expect("valid id"),
        2,
        2,
        EventProvenance::Pty,
        EventPayload::TerminalOutput { range: (20, 30) },
    )
    .expect("valid event");
    assert!(matches!(
        ledger.append(wrong_generation),
        Err(TranscriptError::GenerationMismatch { .. })
    ));
}

#[test]
fn t_content_source_authority_rejects_command_claim_from_pty() {
    let err = SemanticEvent::new(
        EventId::new("event-command").expect("valid id"),
        1,
        1,
        EventProvenance::Pty,
        EventPayload::CommandSubmitted { command: "cargo test".to_owned() },
    )
    .expect_err("PTY bytes cannot claim a command boundary");
    assert!(matches!(err, TranscriptError::UnauthorizedProvenance { .. }));
}

#[test]
fn t_content_range_requires_compatible_state() {
    let source = SourceRange::new(7, 40, 80, Some("checkpoint-1")).expect("valid source");
    assert!(source.validate_replay(&ReplayState::StreamOrigin).is_err());
    assert!(source
        .validate_replay(&ReplayState::checkpoint("checkpoint-1", 7, 40))
        .is_ok());
    assert!(source
        .validate_replay(&ReplayState::checkpoint("checkpoint-1", 8, 40))
        .is_err());
}

#[test]
fn t_content_materialized_output_survives_ring_eviction() {
    let mut ring = ByteRing::new(4);
    ring.append(b"old!");
    let source = SourceRange::new(1, 0, 4, None).expect("valid source");
    let mut timeline = ContentTimeline::new();
    timeline
        .append(ContentEvent::materialized_terminal_output("item-1", 1, source, "old!"))
        .expect("append materialized item");

    ring.append(b"new!");
    assert_eq!(ring.snapshot(), b"new!");
    assert_eq!(timeline.events()[0].materialized_text(), Some("old!"));
}

#[test]
fn t_content_prompt_shape_does_not_create_command_boundary() {
    let source = SourceRange::new(1, 0, 14, None).expect("valid source");
    let event = ContentEvent::materialized_terminal_output("item-1", 1, source, "$ cargo test ");
    assert_eq!(event.kind, ContentKind::TerminalOutput);
    assert!(!event.is_command_boundary());
}

#[test]
fn alternate_screen_refuses_terminal_materialization() {
    let mut timeline = ContentTimeline::new();
    timeline.set_screen_mode(ScreenMode::Alternate);
    assert!(!timeline.accepts_terminal_materialization());
    let source = SourceRange::new(1, 0, 4, None).expect("source");
    assert!(timeline
        .append(ContentEvent::materialized_terminal_output("alt-item", 1, source, "tui!"))
        .is_err());
    assert!(timeline.is_empty());
    timeline.set_screen_mode(ScreenMode::Primary);
    assert!(timeline.accepts_terminal_materialization());
}

#[test]
fn t_content_retention_disabled_writes_nothing_durable() {
    let mut durable = DurableTranscript::disabled();
    let event = ContentEvent::new("item-1", ContentKind::Unstructured, 1, None, None);
    assert_eq!(durable.capture(event), CaptureOutcome::Disabled);
    assert!(durable.is_empty());

    let mut live = ContentTimeline::new();
    live.append(ContentEvent::new("live-1", ContentKind::Unstructured, 1, None, None))
        .expect("live projection remains available");
    assert_eq!(live.len(), 1);
}

#[test]
fn t_content_redaction_is_a_derived_sink() {
    let source = SourceRange::new(1, 0, 12, None).expect("valid source");
    let event = ContentEvent::materialized_terminal_output("item-1", 1, source, "token=secret");
    let rule = RedactionRule::literal("secret", "[redacted]", "rule-v1");
    let export = event.redacted_export(&[rule]);

    assert_eq!(event.materialized_text(), Some("token=secret"));
    assert_eq!(export.text, "token=[redacted]");
    assert_eq!(export.rule_versions, vec!["rule-v1"]);
}

#[test]
fn t_content_transcript_bound_fails_closed_with_cursor() {
    let mut ledger = TranscriptLedger::with_max_events(1);
    let first = SemanticEvent::new(
        EventId::new("event-1").expect("id"),
        1,
        1,
        EventProvenance::Runtime,
        EventPayload::Unstructured { range: (0, 4) },
    )
    .expect("event");
    let second = SemanticEvent::new(
        EventId::new("event-2").expect("id"),
        2,
        1,
        EventProvenance::Runtime,
        EventPayload::Unstructured { range: (4, 8) },
    )
    .expect("event");
    ledger.append(first).expect("within bound");
    assert!(matches!(
        ledger.append(second),
        Err(TranscriptError::CapacityExceeded { recovery_cursor: 1, .. })
    ));
    assert_eq!(ledger.len(), 1);
    assert_eq!(ledger.events()[0].payload.terminal_range(), Some((0, 4)));
}

#[test]
fn t_runtime_host_shutdown_journal_is_honest() {
    let recorded = Some(4242u32);
    let got = reconcile_execution(recorded, false, true);
    assert_eq!(got, TerminalOutcome::HostTerminated);
    assert!(!matches!(got, TerminalOutcome::Running { .. }), "journal claimed a live pid");
}

#[test]
fn live_worker_keeps_its_recorded_pid() {
    assert_eq!(reconcile_execution(Some(7), true, false), TerminalOutcome::Running { child_pid: 7 });
    assert_eq!(reconcile_execution(Some(7), false, false), TerminalOutcome::Missing);
    assert_eq!(reconcile_execution(None, false, false), TerminalOutcome::HostTerminated);
}

#[test]
fn t_runtime_update_compat_refuses_unknown_format() {
    let mut session = SessionCore::new(Winsize::default());
    let bad = StoredCheckpoint {
        format_version: CHECKPOINT_FORMAT_VERSION.saturating_add(9),
        ending_offset: 0,
        hash: 0,
        blob: vec![1, 2, 3],
    };
    let err = session.install_checkpoint(bad).expect_err("incompatible format");
    assert!(matches!(err, Error::IncompatibleCheckpoint));
}

#[test]
fn recovery_without_a_checkpoint_is_refused() {
    let session = SessionCore::new(Winsize::default());
    assert!(matches!(session.recovery(), Err(Error::NoCheckpoint)));
}

#[test]
fn resync_is_owed_once_per_writer_attach_not_per_keystroke() {
    let mut core = SessionCore::new(Winsize::default());
    core.on_frame(Frame::attach(1, None)).expect("attach");
    core.on_frame(Frame::Credit(64)).expect("credit");
    let budget = core.read_budget();
    assert_eq!(budget, 64);
    core.deliver(b"hi".to_vec());
    assert_eq!(core.take_resync_history(), Some(b"hi".to_vec()));
    assert_eq!(core.resync_count(), 1);
    for _ in 0..10 {
        core.on_frame(Frame::Data(b"k".to_vec())).expect("keystroke");
        while let Some(buf) = core.next_input() {
            core.input_written(buf.len());
        }
    }
    assert_eq!(core.take_resync_history(), None);
    assert_eq!(core.resync_count(), 1);
}

#[test]
fn a_disabled_transcript_stays_empty_across_captures() {
    let mut t = DurableTranscript::disabled();
    for k in 0..5u64 {
        let e = ContentEvent::new("evt", ContentKind::TerminalOutput, k + 1, None, None);
        assert_eq!(t.capture(e), CaptureOutcome::Disabled);
    }
    assert!(t.is_empty());
}

#[test]
fn only_a_session_with_credit_and_a_live_child_wants_reading() {
    let mut core = SessionCore::new(Winsize::default());
    assert!(!core.wants_read());
    core.on_frame(Frame::Credit(8)).expect("credit");
    assert!(core.wants_read());
    core.observe_exit(0);
    assert!(!core.wants_read());
}

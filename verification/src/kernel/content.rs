//! Content timeline records: source ranges, retention policy, events, the
//! live timeline and the durable transcript.

use vstd::prelude::*;
use crate::text::{
    chars_of, contains_chars, contains_text, owned, replace_chars, replace_text, same_text,
    string_from_chars,
};

verus! {

#[derive(Clone, Debug, PartialEq, Eq)]
pub struct SourceRange {
    pub generation: u64,
    pub start: u64,
    pub end: u64,
    pub checkpoint_id: Option<String>,
}

pub struct SourceRangeView {
    pub generation: u64,
    pub start: u64,
    pub end: u64,
    pub checkpoint_id: Option<Seq<char>>,
}

pub open spec fn opt_text(o: Option<String>) -> Option<Seq<char>> {
    match o {
        Some(s) => Some(s@),
        None => None,
    }
}

pub open spec fn opt_str(o: Option<&str>) -> Option<Seq<char>> {
    match o {
        Some(s) => Some(s@),
        None => None,
    }
}

impl View for SourceRange {
    type V = SourceRangeView;

    open spec fn view(&self) -> SourceRangeView {
        SourceRangeView {
            generation: self.generation,
            start: self.start,
            end: self.end,
            checkpoint_id: opt_text(self.checkpoint_id),
        }
    }
}

fn owned_opt(o: Option<&str>) -> (r: Option<String>)
    ensures
        opt_text(r) == opt_str(o),
{
    match o {
        Some(s) => Some(owned(s)),
        None => None,
    }
}

#[derive(Clone, Debug, PartialEq, Eq)]
pub enum ReplayState {
    StreamOrigin,
    Checkpoint { checkpoint_id: String, generation: u64, ending_offset: u64 },
}

impl ReplayState {
    pub fn checkpoint(checkpoint_id: &str, generation: u64, ending_offset: u64) -> (r: ReplayState)
        ensures
            r matches ReplayState::Checkpoint { checkpoint_id: id, generation: g, ending_offset: e }
                && id@ == checkpoint_id@ && g == generation && e == ending_offset,
    {
        ReplayState::Checkpoint { checkpoint_id: owned(checkpoint_id), generation, ending_offset }
    }
}

/// Whether a range can be replayed from a state: from the stream origin
/// only when it starts at 0; from a checkpoint only when it names that
/// checkpoint, in the same generation, and starts where it ends.
pub open spec fn replay_ok(r: SourceRangeView, state: ReplayState) -> bool {
    match state {
        ReplayState::StreamOrigin => r.start == 0,
        ReplayState::Checkpoint { checkpoint_id, generation, ending_offset } => r.checkpoint_id
            == Some(checkpoint_id@) && r.generation == generation && r.start == ending_offset,
    }
}

impl SourceRange {
    /// A non-empty range `[start, end)`; an empty or reversed one is refused.
    pub fn new(generation: u64, start: u64, end: u64, checkpoint_id: Option<&str>) -> (r: Result<
        SourceRange,
        ContentError,
    >)
        ensures
            start < end ==> (r matches Ok(x) && x@ == (SourceRangeView {
                generation,
                start,
                end,
                checkpoint_id: opt_str(checkpoint_id),
            })),
            start >= end ==> (r matches Err(ContentError::InvalidSourceRange { start: s, end: e })
                && s == start && e == end),
    {
        if start >= end {
            return Err(ContentError::InvalidSourceRange { start, end });
        }
        Ok(SourceRange { generation, start, end, checkpoint_id: owned_opt(checkpoint_id) })
    }

    pub fn validate_replay(&self, state: &ReplayState) -> (r: Result<(), ContentError>)
        ensures
            replay_ok(self@, *state) ==> r is Ok,
            !replay_ok(self@, *state) ==> (match state {
                ReplayState::StreamOrigin => r matches Err(ContentError::ReplayStateRequired),
                ReplayState::Checkpoint { .. } => r matches Err(
                    ContentError::IncompatibleReplayState,
                ),
            }),
    {
        match state {
            ReplayState::StreamOrigin => {
                if self.start == 0 {
                    Ok(())
                } else {
                    Err(ContentError::ReplayStateRequired)
                }
            },
            ReplayState::Checkpoint { checkpoint_id, generation, ending_offset } => {
                let same_id = match &self.checkpoint_id {
                    Some(id) => same_text(id.as_str(), checkpoint_id.as_str()),
                    None => false,
                };
                if same_id && self.generation == *generation && self.start == *ending_offset {
                    Ok(())
                } else {
                    Err(ContentError::IncompatibleReplayState)
                }
            },
        }
    }
}

#[derive(Clone, Copy, Debug, PartialEq, Eq, Structural)]
pub enum RetentionMode {
    Disabled,
    MemoryOnly,
    Durable,
}

/// How restrictive a mode is: lower keeps less.
pub open spec fn mode_rank(m: RetentionMode) -> int {
    match m {
        RetentionMode::Disabled => 0,
        RetentionMode::MemoryOnly => 1,
        RetentionMode::Durable => 2,
    }
}

#[derive(Clone, Copy, Debug, PartialEq, Eq, Structural)]
pub struct RetentionPolicy {
    pub mode: RetentionMode,
    pub limit_bytes: Option<u64>,
}

/// A byte limit, `None` meaning unlimited.
pub open spec fn limit_or_max(l: Option<u64>) -> u64 {
    match l {
        Some(x) => x,
        None => u64::MAX,
    }
}

/// The policy that applies where two do: the more restrictive mode, and
/// for two of the same capturing mode the smaller limit.
pub open spec fn restrictive_spec(a: RetentionPolicy, b: RetentionPolicy) -> RetentionPolicy {
    match (a.mode, b.mode) {
        (RetentionMode::Disabled, _) => a,
        (_, RetentionMode::Disabled) => b,
        (RetentionMode::MemoryOnly, RetentionMode::Durable) => a,
        (RetentionMode::Durable, RetentionMode::MemoryOnly) => b,
        _ => RetentionPolicy {
            mode: a.mode,
            limit_bytes: Some(
                if limit_or_max(a.limit_bytes) <= limit_or_max(b.limit_bytes) {
                    limit_or_max(a.limit_bytes)
                } else {
                    limit_or_max(b.limit_bytes)
                },
            ),
        },
    }
}

impl RetentionPolicy {
    pub fn disabled() -> (p: RetentionPolicy)
        ensures
            p == (RetentionPolicy { mode: RetentionMode::Disabled, limit_bytes: None }),
    {
        RetentionPolicy { mode: RetentionMode::Disabled, limit_bytes: None }
    }

    pub fn memory_only(limit_bytes: u64) -> (p: RetentionPolicy)
        ensures
            p == (RetentionPolicy { mode: RetentionMode::MemoryOnly, limit_bytes: Some(limit_bytes) }),
    {
        RetentionPolicy { mode: RetentionMode::MemoryOnly, limit_bytes: Some(limit_bytes) }
    }

    pub fn durable(limit_bytes: Option<u64>) -> (p: RetentionPolicy)
        ensures
            p == (RetentionPolicy { mode: RetentionMode::Durable, limit_bytes }),
    {
        RetentionPolicy { mode: RetentionMode::Durable, limit_bytes }
    }

    pub fn allows_capture(&self) -> (b: bool)
        ensures
            b <==> self.mode != RetentionMode::Disabled,
    {
        match self.mode {
            RetentionMode::Disabled => false,
            _ => true,
        }
    }

    /// The most restrictive of two policies; a child cannot widen a parent.
    pub fn restrictive_wins(self, other: RetentionPolicy) -> (p: RetentionPolicy)
        ensures
            p == restrictive_spec(self, other),
    {
        match (self.mode, other.mode) {
            (RetentionMode::Disabled, _) => self,
            (_, RetentionMode::Disabled) => other,
            (RetentionMode::MemoryOnly, RetentionMode::Durable) => self,
            (RetentionMode::Durable, RetentionMode::MemoryOnly) => other,
            _ => {
                let a = match self.limit_bytes {
                    Some(x) => x,
                    None => u64::MAX,
                };
                let b = match other.limit_bytes {
                    Some(x) => x,
                    None => u64::MAX,
                };
                let cap = if a <= b {
                    a
                } else {
                    b
                };
                RetentionPolicy { mode: self.mode, limit_bytes: Some(cap) }
            },
        }
    }
}

/// Restrictive wins: the resolved mode is the more restrictive of the two
/// whichever side each comes from, so it captures only where both do, and a
/// resolved byte limit is no larger than either side's.
pub proof fn lemma_restrictive_wins(a: RetentionPolicy, b: RetentionPolicy)
    ensures
        mode_rank(restrictive_spec(a, b).mode) == if mode_rank(a.mode) <= mode_rank(b.mode) {
            mode_rank(a.mode)
        } else {
            mode_rank(b.mode)
        },
        restrictive_spec(a, b).mode == restrictive_spec(b, a).mode,
        restrictive_spec(a, b).mode != RetentionMode::Disabled ==> a.mode
            != RetentionMode::Disabled && b.mode != RetentionMode::Disabled,
        a.mode == b.mode && a.mode != RetentionMode::Disabled ==> limit_or_max(
            restrictive_spec(a, b).limit_bytes,
        ) <= limit_or_max(a.limit_bytes) && limit_or_max(restrictive_spec(a, b).limit_bytes)
            <= limit_or_max(b.limit_bytes),
{
}

#[derive(Clone, Copy, Debug, PartialEq, Eq, Structural)]
pub enum ContentKind {
    TerminalInput,
    TerminalOutput,
    BackgroundOutput,
    AgentMessage,
    ToolCall,
    ToolResult,
    Approval,
    Question,
    DiffResult,
    LifecycleEvent,
    Discontinuity,
    Truncation,
    Unstructured,
}

#[derive(Clone, Copy, Debug, PartialEq, Eq, Structural)]
pub enum EventAvailability {
    Available,
    Truncated,
    Unavailable,
}

#[derive(Clone, Copy, Debug, PartialEq, Eq, Structural)]
pub enum ScreenMode {
    Primary,
    Alternate,
}

impl Default for ScreenMode {
    fn default() -> (m: ScreenMode)
        ensures
            m == ScreenMode::Primary,
    {
        ScreenMode::Primary
    }
}

#[derive(Clone, Debug, PartialEq, Eq)]
pub struct ContentEvent {
    pub event_id: String,
    pub kind: ContentKind,
    pub sequence: u64,
    pub parent_event_id: Option<String>,
    pub source_range: Option<(u64, u64)>,
    pub availability: EventAvailability,
    source: Option<SourceRange>,
    materialized_text: Option<String>,
}

pub struct EventView {
    pub event_id: Seq<char>,
    pub kind: ContentKind,
    pub sequence: u64,
    pub parent_event_id: Option<Seq<char>>,
    pub source_range: Option<(u64, u64)>,
    pub availability: EventAvailability,
    pub source: Option<SourceRangeView>,
    pub materialized_text: Option<Seq<char>>,
}

pub open spec fn opt_range(o: Option<SourceRange>) -> Option<SourceRangeView> {
    match o {
        Some(r) => Some(r@),
        None => None,
    }
}

impl View for ContentEvent {
    type V = EventView;

    closed spec fn view(&self) -> EventView {
        EventView {
            event_id: self.event_id@,
            kind: self.kind,
            sequence: self.sequence,
            parent_event_id: opt_text(self.parent_event_id),
            source_range: self.source_range,
            availability: self.availability,
            source: opt_range(self.source),
            materialized_text: opt_text(self.materialized_text),
        }
    }
}

/// The UTF-8 length of a string's chars, as `str::len` reports it.
pub open spec fn utf8_len(s: Seq<char>) -> usize {
    vstd::utf8::encode_utf8(s).len() as usize
}

/// The bytes an event is charged against a retention limit: the length of
/// its source range (at least one), or its id's length plus 16.
pub open spec fn size_hint_spec(e: EventView) -> u64 {
    match e.source_range {
        Some((start, end)) => if end <= start {
            1
        } else {
            (end - start) as u64
        },
        None => crate::kernel::session::sat_u64(utf8_len(e.event_id) + 16int),
    }
}

impl ContentEvent {
    pub fn new(
        event_id: &str,
        kind: ContentKind,
        sequence: u64,
        parent_event_id: Option<&str>,
        source_range: Option<(u64, u64)>,
    ) -> (e: ContentEvent)
        ensures
            e@ == (EventView {
                event_id: event_id@,
                kind,
                sequence,
                parent_event_id: opt_str(parent_event_id),
                source_range,
                availability: EventAvailability::Available,
                source: None,
                materialized_text: None,
            }),
    {
        ContentEvent {
            event_id: owned(event_id),
            kind,
            sequence,
            parent_event_id: owned_opt(parent_event_id),
            source_range,
            availability: EventAvailability::Available,
            source: None,
            materialized_text: None,
        }
    }

    /// Terminal output materialized as text from a source range.
    pub fn materialized_terminal_output(
        event_id: &str,
        sequence: u64,
        source: SourceRange,
        text: &str,
    ) -> (e: ContentEvent)
        ensures
            e@ == (EventView {
                event_id: event_id@,
                kind: ContentKind::TerminalOutput,
                sequence,
                parent_event_id: None,
                source_range: Some((source.start, source.end)),
                availability: EventAvailability::Available,
                source: Some(source@),
                materialized_text: Some(text@),
            }),
    {
        let range = (source.start, source.end);
        ContentEvent {
            event_id: owned(event_id),
            kind: ContentKind::TerminalOutput,
            sequence,
            parent_event_id: None,
            source_range: Some(range),
            availability: EventAvailability::Available,
            source: Some(source),
            materialized_text: Some(owned(text)),
        }
    }

    /// An explicit marker for removed source: a truncation, not a gap.
    pub fn truncated(event_id: &str, sequence: u64, range: (u64, u64)) -> (e: ContentEvent)
        ensures
            e@ == (EventView {
                event_id: event_id@,
                kind: ContentKind::Truncation,
                sequence,
                parent_event_id: None,
                source_range: Some(range),
                availability: EventAvailability::Truncated,
                source: None,
                materialized_text: None,
            }),
    {
        ContentEvent {
            event_id: owned(event_id),
            kind: ContentKind::Truncation,
            sequence,
            parent_event_id: None,
            source_range: Some(range),
            availability: EventAvailability::Truncated,
            source: None,
            materialized_text: None,
        }
    }

    pub fn materialized_text(&self) -> (t: Option<&str>)
        ensures
            opt_str(t) == self@.materialized_text,
    {
        match &self.materialized_text {
            Some(s) => Some(s.as_str()),
            None => None,
        }
    }

    /// Command boundaries come only from explicit marks, never from text
    /// that looks like a prompt.
    pub fn is_command_boundary(&self) -> (b: bool)
        ensures
            !b,
    {
        false
    }

    pub fn size_hint(&self) -> (n: u64)
        ensures
            n == size_hint_spec(self@),
    {
        match self.source_range {
            Some((start, end)) => {
                let d = end.saturating_sub(start);
                if d < 1 {
                    1
                } else {
                    d
                }
            },
            None => (self.event_id.as_str().len() as u64).saturating_add(16),
        }
    }
}

#[derive(Debug, Clone, PartialEq, Eq)]
pub enum ContentError {
    DuplicateEventId(String),
    OutOfOrderSequence { event_id: String, expected_after: u64, got: u64 },
    CaptureDisabled,
    RetentionLimitExceeded { limit: u64, attempted: u64 },
    InvalidSourceRange { start: u64, end: u64 },
    ReplayStateRequired,
    IncompatibleReplayState,
    AlternateScreenNotMaterialized,
}

#[derive(Clone, Debug, PartialEq, Eq)]
pub struct ContentTimeline {
    events: Vec<ContentEvent>,
    last_sequence: Option<u64>,
    bytes_used: u64,
    screen_mode: ScreenMode,
}

pub struct TimelineView {
    pub events: Seq<EventView>,
    pub last_sequence: Option<u64>,
    pub bytes_used: u64,
    pub screen_mode: ScreenMode,
}

pub open spec fn events_view(v: Seq<ContentEvent>) -> Seq<EventView> {
    v.map_values(|e: ContentEvent| e@)
}

impl View for ContentTimeline {
    type V = TimelineView;

    closed spec fn view(&self) -> TimelineView {
        TimelineView {
            events: events_view(self.events@),
            last_sequence: self.last_sequence,
            bytes_used: self.bytes_used,
            screen_mode: self.screen_mode,
        }
    }
}

/// Some event of the timeline carries this id.
pub open spec fn has_id(t: TimelineView, id: Seq<char>) -> bool {
    exists|i: int| 0 <= i < t.events.len() && t.events[i].event_id == id
}

/// What `append` would refuse `e` for, checked in this order: terminal
/// output while the alternate screen is up, a reused id, a sequence that
/// does not move past the last one.
pub open spec fn append_refusal(t: TimelineView, e: EventView) -> Option<int> {
    if e.kind == ContentKind::TerminalOutput && t.screen_mode != ScreenMode::Primary {
        Some(0)
    } else if has_id(t, e.event_id) {
        Some(1)
    } else if t.last_sequence is Some && e.sequence <= t.last_sequence->Some_0 {
        Some(2)
    } else {
        None
    }
}

/// The timeline after accepting `e`.
pub open spec fn appended(t: TimelineView, e: EventView) -> TimelineView {
    TimelineView {
        events: t.events.push(e),
        last_sequence: Some(e.sequence),
        bytes_used: crate::kernel::session::sat_u64(t.bytes_used + size_hint_spec(e)),
        screen_mode: t.screen_mode,
    }
}

/// Every id appears once, sequences strictly increase, and the last
/// sequence is the last event's.
pub open spec fn timeline_wf(t: TimelineView) -> bool {
    &&& forall|i: int, j: int|
        0 <= i < j < t.events.len() ==> t.events[i].event_id != t.events[j].event_id
            && t.events[i].sequence < t.events[j].sequence
    &&& t.events.len() == 0 <==> t.last_sequence is None
    &&& t.events.len() > 0 ==> t.last_sequence == Some(t.events.last().sequence)
}

impl Default for ContentTimeline {
    fn default() -> (t: ContentTimeline)
        ensures
            t@.events.len() == 0,
            t@.last_sequence is None,
            t@.bytes_used == 0,
            t@.screen_mode == ScreenMode::Primary,
    {
        ContentTimeline::new()
    }
}

impl ContentTimeline {
    pub fn new() -> (t: ContentTimeline)
        ensures
            t@.events.len() == 0,
            t@.last_sequence is None,
            t@.bytes_used == 0,
            t@.screen_mode == ScreenMode::Primary,
            timeline_wf(t@),
    {
        let t = ContentTimeline {
            events: Vec::new(),
            last_sequence: None,
            bytes_used: 0,
            screen_mode: ScreenMode::Primary,
        };
        assert(t@.events =~= Seq::<EventView>::empty());
        t
    }

    fn contains_id(&self, id: &String) -> (b: bool)
        ensures
            b == has_id(self@, id@),
    {
        let n = self.events.len();
        let mut i: usize = 0;
        while i < n
            invariant
                i <= n,
                n == self.events@.len(),
                forall|k: int| 0 <= k < i ==> self@.events[k].event_id != id@,
            decreases n - i,
        {
            assert(self@.events[i as int] == self.events@[i as int]@);
            if self.events[i].event_id == *id {
                return true;
            }
            i = i + 1;
        }
        false
    }

    /// Appends `event` unless it is terminal output while the alternate
    /// screen is up, reuses an id, or does not move the sequence forward.
    pub fn append(&mut self, event: ContentEvent) -> (r: Result<(), ContentError>)
        ensures
            match append_refusal(old(self)@, event@) {
                None => r is Ok && final(self)@ == appended(old(self)@, event@),
                Some(k) => final(self)@ == old(self)@ && (if k == 0 {
                    r matches Err(ContentError::AlternateScreenNotMaterialized)
                } else if k == 1 {
                    r matches Err(ContentError::DuplicateEventId(id)) && id@ == event@.event_id
                } else {
                    r matches Err(
                        ContentError::OutOfOrderSequence { event_id, expected_after, got },
                    ) && event_id@ == event@.event_id && Some(expected_after)
                        == old(self)@.last_sequence && got == event@.sequence
                }),
            },
            timeline_wf(old(self)@) ==> timeline_wf(final(self)@),
    {
        if event.kind == ContentKind::TerminalOutput && !self.accepts_terminal_materialization() {
            return Err(ContentError::AlternateScreenNotMaterialized);
        }
        if self.contains_id(&event.event_id) {
            return Err(ContentError::DuplicateEventId(event.event_id.clone()));
        }
        if let Some(last) = self.last_sequence {
            if event.sequence <= last {
                return Err(
                    ContentError::OutOfOrderSequence {
                        event_id: event.event_id.clone(),
                        expected_after: last,
                        got: event.sequence,
                    },
                );
            }
        }
        let ghost before = self@;
        let hint = event.size_hint();
        self.last_sequence = Some(event.sequence);
        self.bytes_used = self.bytes_used.saturating_add(hint);
        let ghost ev = event@;
        self.events.push(event);
        assert(self@.events =~= before.events.push(ev));
        Ok(())
    }

    /// Appends under a retention policy: refused while capture is disabled
    /// or when the bytes charged would exceed the policy's limit.
    pub fn append_with_policy(&mut self, policy: &RetentionPolicy, event: ContentEvent) -> (r:
        Result<(), ContentError>)
        ensures
            policy.mode == RetentionMode::Disabled ==> (r matches Err(ContentError::CaptureDisabled)
                && final(self)@ == old(self)@),
            policy.mode != RetentionMode::Disabled && policy.limit_bytes is Some
                && crate::kernel::session::sat_u64(old(self)@.bytes_used + size_hint_spec(event@))
                > policy.limit_bytes->Some_0 ==> (r matches Err(
                ContentError::RetentionLimitExceeded { limit, attempted },
            ) && limit == policy.limit_bytes->Some_0 && attempted == crate::kernel::session::sat_u64(
                old(self)@.bytes_used + size_hint_spec(event@),
            ) && final(self)@ == old(self)@),
            policy.mode != RetentionMode::Disabled && (policy.limit_bytes is None
                || crate::kernel::session::sat_u64(old(self)@.bytes_used + size_hint_spec(event@))
                <= policy.limit_bytes->Some_0) ==> match append_refusal(old(self)@, event@) {
                None => r is Ok && final(self)@ == appended(old(self)@, event@),
                Some(_) => r is Err && final(self)@ == old(self)@,
            },
            timeline_wf(old(self)@) ==> timeline_wf(final(self)@),
    {
        if !policy.allows_capture() {
            return Err(ContentError::CaptureDisabled);
        }
        if let Some(limit) = policy.limit_bytes {
            let attempted = self.bytes_used.saturating_add(event.size_hint());
            if attempted > limit {
                return Err(ContentError::RetentionLimitExceeded { limit, attempted });
            }
        }
        self.append(event)
    }

    /// A discontinuity marker over `[start, end)`.
    pub fn append_discontinuity(&mut self, event_id: &str, sequence: u64, start: u64, end: u64) -> (r:
        Result<(), ContentError>)
        ensures
            ({
                let e = EventView {
                    event_id: event_id@,
                    kind: ContentKind::Discontinuity,
                    sequence,
                    parent_event_id: None,
                    source_range: Some((start, end)),
                    availability: EventAvailability::Available,
                    source: None,
                    materialized_text: None,
                };
                match append_refusal(old(self)@, e) {
                    None => r is Ok && final(self)@ == appended(old(self)@, e),
                    Some(_) => r is Err && final(self)@ == old(self)@,
                }
            }),
            timeline_wf(old(self)@) ==> timeline_wf(final(self)@),
    {
        self.append(ContentEvent::new(event_id, ContentKind::Discontinuity, sequence, None, Some((start, end))))
    }

    /// A truncation marker over `[start, end)`: removed source is shown as
    /// unavailable, not silently skipped.
    pub fn append_truncation(&mut self, event_id: &str, sequence: u64, start: u64, end: u64) -> (r:
        Result<(), ContentError>)
        ensures
            ({
                let e = EventView {
                    event_id: event_id@,
                    kind: ContentKind::Truncation,
                    sequence,
                    parent_event_id: None,
                    source_range: Some((start, end)),
                    availability: EventAvailability::Truncated,
                    source: None,
                    materialized_text: None,
                };
                match append_refusal(old(self)@, e) {
                    None => r is Ok && final(self)@ == appended(old(self)@, e),
                    Some(_) => r is Err && final(self)@ == old(self)@,
                }
            }),
            timeline_wf(old(self)@) ==> timeline_wf(final(self)@),
    {
        self.append(ContentEvent::truncated(event_id, sequence, (start, end)))
    }

    pub fn len(&self) -> (n: usize)
        ensures
            n == self@.events.len(),
    {
        self.events.len()
    }

    pub fn is_empty(&self) -> (b: bool)
        ensures
            b <==> self@.events.len() == 0,
    {
        self.events.len() == 0
    }

    pub fn events(&self) -> (s: &[ContentEvent])
        ensures
            events_view(s@) == self@.events,
    {
        self.events.as_slice()
    }

    pub fn bytes_used(&self) -> (n: u64)
        ensures
            n == self@.bytes_used,
    {
        self.bytes_used
    }

    fn has_kind(&self, kind: ContentKind) -> (b: bool)
        ensures
            b <==> exists|i: int| 0 <= i < self@.events.len() && self@.events[i].kind == kind,
    {
        let n = self.events.len();
        let mut i: usize = 0;
        while i < n
            invariant
                i <= n,
                n == self.events@.len(),
                forall|k: int| 0 <= k < i ==> self@.events[k].kind != kind,
            decreases n - i,
        {
            assert(self@.events[i as int] == self.events@[i as int]@);
            if self.events[i].kind == kind {
                return true;
            }
            i = i + 1;
        }
        false
    }

    pub fn has_discontinuity(&self) -> (b: bool)
        ensures
            b <==> exists|i: int|
                0 <= i < self@.events.len() && self@.events[i].kind == ContentKind::Discontinuity,
    {
        self.has_kind(ContentKind::Discontinuity)
    }

    pub fn has_truncation(&self) -> (b: bool)
        ensures
            b <==> exists|i: int|
                0 <= i < self@.events.len() && self@.events[i].kind == ContentKind::Truncation,
    {
        self.has_kind(ContentKind::Truncation)
    }

    pub fn set_screen_mode(&mut self, mode: ScreenMode)
        ensures
            final(self)@ == (TimelineView { screen_mode: mode, ..old(self)@ }),
    {
        self.screen_mode = mode;
    }

    /// The alternate screen is a mutable grid, not timeline content.
    pub fn accepts_terminal_materialization(&self) -> (b: bool)
        ensures
            b <==> self@.screen_mode == ScreenMode::Primary,
    {
        match self.screen_mode {
            ScreenMode::Primary => true,
            ScreenMode::Alternate => false,
        }
    }
}

#[derive(Clone, Debug, PartialEq, Eq)]
pub struct RedactionRule {
    literal: String,
    replacement: String,
    version: String,
}

/// A redaction rule as a value: what is replaced, by what, and the rule's
/// version.
pub struct RuleView {
    pub literal: Seq<char>,
    pub replacement: Seq<char>,
    pub version: Seq<char>,
}

impl View for RedactionRule {
    type V = RuleView;

    closed spec fn view(&self) -> RuleView {
        RuleView { literal: self.literal@, replacement: self.replacement@, version: self.version@ }
    }
}

impl RedactionRule {
    pub fn literal(literal: &str, replacement: &str, version: &str) -> (r: RedactionRule)
        ensures
            r@ == (RuleView { literal: literal@, replacement: replacement@, version: version@ }),
    {
        RedactionRule {
            literal: owned(literal),
            replacement: owned(replacement),
            version: owned(version),
        }
    }
}

#[derive(Clone, Debug, PartialEq, Eq)]
pub struct RedactedExport {
    pub text: String,
    pub rule_versions: Vec<String>,
}

pub open spec fn texts_view(v: Seq<String>) -> Seq<Seq<char>> {
    v.map_values(|s: String| s@)
}

pub open spec fn rules_view(v: Seq<RedactionRule>) -> Seq<RuleView> {
    v.map_values(|r: RedactionRule| r@)
}

/// Applying the rules in order to `text`: each rule whose literal occurs
/// replaces every occurrence and contributes its version.
pub open spec fn redact_spec(text: Seq<char>, rules: Seq<RuleView>) -> (Seq<char>, Seq<Seq<char>>)
    decreases rules.len(),
{
    if rules.len() == 0 {
        (text, Seq::empty())
    } else {
        let (t, vs) = redact_spec(text, rules.drop_last());
        let r = rules.last();
        if contains_text(t, r.literal) {
            (replace_text(t, r.literal, r.replacement), vs.push(r.version))
        } else {
            (t, vs)
        }
    }
}

impl ContentEvent {
    /// A derived, redacted copy of the materialized text. The event itself
    /// is left as it was: redaction is a sink, not an edit.
    pub fn redacted_export(&self, rules: &[RedactionRule]) -> (x: RedactedExport)
        ensures
            ({
                let source = match self@.materialized_text {
                    Some(t) => t,
                    None => Seq::<char>::empty(),
                };
                let (t, vs) = redact_spec(source, rules_view(rules@));
                x.text@ == t && texts_view(x.rule_versions@) == vs
            }),
    {
        let mut text: Vec<char> = match &self.materialized_text {
            Some(t) => chars_of(t.as_str()),
            None => Vec::new(),
        };
        let mut versions: Vec<String> = Vec::new();
        let n = rules.len();
        let mut i: usize = 0;
        let ghost source = text@;
        proof {
            assert(rules_view(rules@).subrange(0, 0) =~= Seq::<RuleView>::empty());
            assert(texts_view(versions@) =~= Seq::<Seq<char>>::empty());
        }
        while i < n
            invariant
                i <= n,
                n == rules@.len(),
                (text@, texts_view(versions@)) == redact_spec(
                    source,
                    rules_view(rules@).subrange(0, i as int),
                ),
            decreases n - i,
        {
            let rule = &rules[i];
            let literal = chars_of(rule.literal.as_str());
            proof {
                let pre = rules_view(rules@).subrange(0, i + 1);
                assert(pre.drop_last() =~= rules_view(rules@).subrange(0, i as int));
                assert(pre.last() == rule@);
            }
            if contains_chars(&text, &literal) {
                let replacement = chars_of(rule.replacement.as_str());
                text = replace_chars(&text, &literal, &replacement);
                let ghost before = versions@;
                versions.push(rule.version.clone());
                assert(texts_view(versions@) =~= texts_view(before).push(rule@.version));
            }
            i = i + 1;
        }
        assert(rules_view(rules@).subrange(0, n as int) =~= rules_view(rules@));
        RedactedExport { text: string_from_chars(text), rule_versions: versions }
    }
}

#[derive(Clone, Copy, Debug, PartialEq, Eq, Structural)]
pub enum CaptureOutcome {
    Disabled,
    Captured,
    LimitExceeded,
}

/// What capturing `e` does: nothing under a disabled policy, nothing when
/// the bytes charged would pass the policy's limit, else the event is kept
/// and its size charged (saturating).
pub open spec fn captured(t: TranscriptView, e: EventView) -> (TranscriptView, CaptureOutcome) {
    let attempted = crate::kernel::session::sat_u64(t.bytes_used + size_hint_spec(e));
    if t.policy.mode == RetentionMode::Disabled {
        (t, CaptureOutcome::Disabled)
    } else if t.policy.limit_bytes is Some && attempted > t.policy.limit_bytes->Some_0 {
        (t, CaptureOutcome::LimitExceeded)
    } else {
        (TranscriptView { policy: t.policy, events: t.events.push(e), bytes_used: attempted }, CaptureOutcome::Captured)
    }
}

/// Capturing `es` one after another: the transcript after them all, and
/// each capture's outcome in order.
pub open spec fn captured_all(t: TranscriptView, es: Seq<EventView>) -> (TranscriptView, Seq<CaptureOutcome>)
    decreases es.len(),
{
    if es.len() == 0 {
        (t, Seq::empty())
    } else {
        let (u, o) = captured(t, es[0]);
        let (w, os) = captured_all(u, es.drop_first());
        (w, seq![o] + os)
    }
}

#[derive(Clone, Debug, PartialEq, Eq)]
pub struct DurableTranscript {
    policy: RetentionPolicy,
    events: Vec<ContentEvent>,
    bytes_used: u64,
}

pub struct TranscriptView {
    pub policy: RetentionPolicy,
    pub events: Seq<EventView>,
    pub bytes_used: u64,
}

impl View for DurableTranscript {
    type V = TranscriptView;

    closed spec fn view(&self) -> TranscriptView {
        TranscriptView {
            policy: self.policy,
            events: events_view(self.events@),
            bytes_used: self.bytes_used,
        }
    }
}

impl DurableTranscript {
    /// A transcript that captures nothing.
    pub fn disabled() -> (t: DurableTranscript)
        ensures
            t@.policy == (RetentionPolicy { mode: RetentionMode::Disabled, limit_bytes: None }),
            t@.events.len() == 0,
            t@.bytes_used == 0,
    {
        let t = DurableTranscript {
            policy: RetentionPolicy::disabled(),
            events: Vec::new(),
            bytes_used: 0,
        };
        assert(t@.events =~= Seq::<EventView>::empty());
        t
    }

    /// Captures `event` if the policy allows capture and the bytes charged
    /// stay within its limit; otherwise writes nothing.
    pub fn capture(&mut self, event: ContentEvent) -> (o: CaptureOutcome)
        ensures
            (final(self)@, o) == captured(old(self)@, event@),
    {
        if !self.policy.allows_capture() {
            return CaptureOutcome::Disabled;
        }
        let attempted = self.bytes_used.saturating_add(event.size_hint());
        if let Some(limit) = self.policy.limit_bytes {
            if attempted > limit {
                return CaptureOutcome::LimitExceeded;
            }
        }
        self.bytes_used = attempted;
        let ghost before = self.events@;
        let ghost ev = event@;
        self.events.push(event);
        assert(events_view(self.events@) =~= events_view(before).push(ev));
        CaptureOutcome::Captured
    }

    pub fn is_empty(&self) -> (b: bool)
        ensures
            b <==> self@.events.len() == 0,
    {
        self.events.len() == 0
    }
}

/// Appending never breaks the timeline's order: ids stay unique and
/// sequences strictly increasing, whatever is appended and whatever is
/// refused.
pub proof fn lemma_append_keeps_order(t: TimelineView, e: EventView)
    requires
        timeline_wf(t),
        append_refusal(t, e) is None,
    ensures
        timeline_wf(appended(t, e)),
        appended(t, e).events.len() == t.events.len() + 1,
{
    let u = appended(t, e);
    assert forall|i: int, j: int| 0 <= i < j < u.events.len() implies u.events[i].event_id
        != u.events[j].event_id && u.events[i].sequence < u.events[j].sequence by {
        if j == t.events.len() {
            assert(u.events[i] == t.events[i]);
            if i < t.events.len() - 1 {
                assert(t.events[i].sequence < t.events.last().sequence);
            }
        }
    }
}

/// A disabled retention policy writes nothing durable: however many
/// events are captured, each capture answers `Disabled` and the transcript
/// stays exactly as it was, so one made by `disabled` stays empty.
pub proof fn lemma_disabled_captures_nothing(t: TranscriptView, es: Seq<EventView>)
    requires
        t.policy.mode == RetentionMode::Disabled,
    ensures
        captured_all(t, es).0 == t,
        captured_all(t, es).1.len() == es.len(),
        forall|i: int| 0 <= i < es.len() ==> #[trigger] captured_all(t, es).1[i] == CaptureOutcome::Disabled,
    decreases es.len(),
{
    if es.len() > 0 {
        lemma_disabled_captures_nothing(t, es.drop_first());
        let os = captured_all(t, es).1;
        let rest = captured_all(t, es.drop_first()).1;
        assert(os == seq![CaptureOutcome::Disabled] + rest);
        assert forall|i: int| 0 <= i < es.len() implies #[trigger] os[i] == CaptureOutcome::Disabled by {
            if i > 0 {
                assert(os[i] == rest[i - 1]);
            }
        }
    }
}

} // verus!

//! The authoritative semantic transcript: provenance-checked events in
//! sequence order, idempotent by event id, bounded in length.

use vstd::prelude::*;
use crate::text::{owned, same_text};

verus! {

#[derive(Clone, Debug, PartialEq, Eq, Hash)]
pub struct EventId(String);

impl View for EventId {
    type V = Seq<char>;

    closed spec fn view(&self) -> Seq<char> {
        self.0@
    }
}

impl EventId {
    /// A non-empty event id; the empty string is refused.
    pub fn new(value: &str) -> (r: Result<EventId, TranscriptError>)
        ensures
            value@.len() == 0 ==> r matches Err(TranscriptError::EmptyEventId),
            value@.len() > 0 ==> (r matches Ok(id) && id@ == value@),
    {
        if value.is_empty() {
            return Err(TranscriptError::EmptyEventId);
        }
        Ok(EventId(owned(value)))
    }

    pub fn as_str(&self) -> (s: &str)
        ensures
            s@ == self@,
    {
        self.0.as_str()
    }

    fn same(&self, other: &EventId) -> (b: bool)
        ensures
            b == (self@ == other@),
    {
        same_text(self.0.as_str(), other.0.as_str())
    }

    fn copy(&self) -> (c: EventId)
        ensures
            c@ == self@,
    {
        EventId(owned(self.0.as_str()))
    }
}

#[derive(Clone, Copy, Debug, PartialEq, Eq, Structural)]
pub enum EventProvenance {
    Pty,
    StructuredInput,
    ShellMark,
    Process,
    ToolAdapter,
    Runtime,
}

#[derive(Debug, PartialEq, Eq)]
pub enum EventPayload {
    TerminalOutput { range: (u64, u64) },
    CommandSubmitted { command: String },
    ProcessExited { status: i32 },
    Unstructured { range: (u64, u64) },
    Discontinuity { range: (u64, u64) },
}

pub enum PayloadView {
    TerminalOutput { range: (u64, u64) },
    CommandSubmitted { command: Seq<char> },
    ProcessExited { status: i32 },
    Unstructured { range: (u64, u64) },
    Discontinuity { range: (u64, u64) },
}

impl View for EventPayload {
    type V = PayloadView;

    open spec fn view(&self) -> PayloadView {
        match self {
            EventPayload::TerminalOutput { range } => PayloadView::TerminalOutput { range: *range },
            EventPayload::CommandSubmitted { command } => PayloadView::CommandSubmitted {
                command: command@,
            },
            EventPayload::ProcessExited { status } => PayloadView::ProcessExited { status: *status },
            EventPayload::Unstructured { range } => PayloadView::Unstructured { range: *range },
            EventPayload::Discontinuity { range } => PayloadView::Discontinuity { range: *range },
        }
    }
}

/// The terminal byte range a payload covers, for the payloads that cover one.
pub open spec fn terminal_range_of(p: PayloadView) -> Option<(u64, u64)> {
    match p {
        PayloadView::TerminalOutput { range } => Some(range),
        PayloadView::Unstructured { range } => Some(range),
        PayloadView::Discontinuity { range } => Some(range),
        _ => None,
    }
}

impl Clone for EventPayload {
    fn clone(&self) -> (c: EventPayload)
        ensures
            c@ == self@,
    {
        match self {
            EventPayload::TerminalOutput { range } => EventPayload::TerminalOutput { range: *range },
            EventPayload::CommandSubmitted { command } => EventPayload::CommandSubmitted {
                command: owned(command.as_str()),
            },
            EventPayload::ProcessExited { status } => EventPayload::ProcessExited { status: *status },
            EventPayload::Unstructured { range } => EventPayload::Unstructured { range: *range },
            EventPayload::Discontinuity { range } => EventPayload::Discontinuity { range: *range },
        }
    }
}

impl EventPayload {
    pub fn terminal_range(&self) -> (r: Option<(u64, u64)>)
        ensures
            r == terminal_range_of(self@),
    {
        match self {
            EventPayload::TerminalOutput { range } => Some(*range),
            EventPayload::Unstructured { range } => Some(*range),
            EventPayload::Discontinuity { range } => Some(*range),
            EventPayload::CommandSubmitted { .. } => None,
            EventPayload::ProcessExited { .. } => None,
        }
    }

    fn same(&self, other: &EventPayload) -> (b: bool)
        ensures
            b == (self@ == other@),
    {
        match (self, other) {
            (EventPayload::TerminalOutput { range: a }, EventPayload::TerminalOutput { range: b }) => a.0
                == b.0 && a.1 == b.1,
            (
                EventPayload::CommandSubmitted { command: a },
                EventPayload::CommandSubmitted { command: b },
            ) => same_text(a.as_str(), b.as_str()),
            (EventPayload::ProcessExited { status: a }, EventPayload::ProcessExited { status: b }) => *a
                == *b,
            (EventPayload::Unstructured { range: a }, EventPayload::Unstructured { range: b }) => a.0
                == b.0 && a.1 == b.1,
            (EventPayload::Discontinuity { range: a }, EventPayload::Discontinuity { range: b }) => a.0
                == b.0 && a.1 == b.1,
            _ => false,
        }
    }
}

#[derive(Clone, Debug, PartialEq, Eq)]
pub struct SemanticEvent {
    pub event_id: EventId,
    pub sequence: u64,
    pub execution_generation: u64,
    pub provenance: EventProvenance,
    pub payload: EventPayload,
}

pub struct SemanticEventView {
    pub event_id: Seq<char>,
    pub sequence: u64,
    pub execution_generation: u64,
    pub provenance: EventProvenance,
    pub payload: PayloadView,
}

impl View for SemanticEvent {
    type V = SemanticEventView;

    open spec fn view(&self) -> SemanticEventView {
        SemanticEventView {
            event_id: self.event_id@,
            sequence: self.sequence,
            execution_generation: self.execution_generation,
            provenance: self.provenance,
            payload: self.payload@,
        }
    }
}

/// Which refusal `SemanticEvent::new` gives: an empty or reversed terminal
/// range; a command claim from anything but structured input or a shell
/// mark; a process exit from anything but the process.
pub open spec fn event_refusal(provenance: EventProvenance, payload: PayloadView) -> Option<int> {
    match terminal_range_of(payload) {
        Some(r) if r.0 >= r.1 => Some(0),
        _ => if payload is CommandSubmitted && !(provenance == EventProvenance::StructuredInput
            || provenance == EventProvenance::ShellMark) {
            Some(1)
        } else if payload is ProcessExited && provenance != EventProvenance::Process {
            Some(2)
        } else {
            None
        },
    }
}

impl SemanticEvent {
    pub fn new(
        event_id: EventId,
        sequence: u64,
        execution_generation: u64,
        provenance: EventProvenance,
        payload: EventPayload,
    ) -> (r: Result<SemanticEvent, TranscriptError>)
        ensures
            match event_refusal(provenance, payload@) {
                None => r matches Ok(e) && e@ == (SemanticEventView {
                    event_id: event_id@,
                    sequence,
                    execution_generation,
                    provenance,
                    payload: payload@,
                }),
                Some(k) => if k == 0 {
                    r matches Err(TranscriptError::InvalidTerminalRange { start, end }) && (start,
                    end) == terminal_range_of(payload@)->Some_0
                } else {
                    r matches Err(TranscriptError::UnauthorizedProvenance { provenance: p, .. })
                        && p == provenance
                },
            },
    {
        if let Some((start, end)) = payload.terminal_range() {
            if start >= end {
                return Err(TranscriptError::InvalidTerminalRange { start, end });
            }
        }
        let is_command = match &payload {
            EventPayload::CommandSubmitted { .. } => true,
            _ => false,
        };
        let is_exit = match &payload {
            EventPayload::ProcessExited { .. } => true,
            _ => false,
        };
        if is_command && !(provenance == EventProvenance::StructuredInput || provenance
            == EventProvenance::ShellMark) {
            return Err(
                TranscriptError::UnauthorizedProvenance { provenance, payload: "command submitted" },
            );
        }
        if is_exit && provenance != EventProvenance::Process {
            return Err(
                TranscriptError::UnauthorizedProvenance { provenance, payload: "process exited" },
            );
        }
        Ok(SemanticEvent { event_id, sequence, execution_generation, provenance, payload })
    }

    fn same(&self, other: &SemanticEvent) -> (b: bool)
        ensures
            b == (self@ == other@),
    {
        self.event_id.same(&other.event_id) && self.sequence == other.sequence
            && self.execution_generation == other.execution_generation && self.provenance
            == other.provenance && self.payload.same(&other.payload)
    }
}

#[derive(Clone, Debug, PartialEq, Eq)]
pub enum TranscriptError {
    EmptyEventId,
    ConflictingEventId(EventId),
    OutOfOrderSequence { expected_after: u64, got: u64 },
    GenerationMismatch { expected: u64, got: u64 },
    InvalidTerminalRange { start: u64, end: u64 },
    OverlappingTerminalRange { previous_end: u64, next_start: u64 },
    UnauthorizedProvenance { provenance: EventProvenance, payload: &'static str },
    CapacityExceeded { max_events: usize, recovery_cursor: u64 },
}

#[derive(Clone, Debug, PartialEq, Eq)]
pub struct TranscriptLedger {
    events: Vec<SemanticEvent>,
    last_sequence: Option<u64>,
    execution_generation: Option<u64>,
    last_terminal_end: Option<u64>,
    max_events: usize,
}

pub struct LedgerView {
    pub events: Seq<SemanticEventView>,
    pub last_sequence: Option<u64>,
    pub execution_generation: Option<u64>,
    pub last_terminal_end: Option<u64>,
    pub max_events: usize,
}

pub open spec fn sem_events_view(v: Seq<SemanticEvent>) -> Seq<SemanticEventView> {
    v.map_values(|e: SemanticEvent| e@)
}

impl View for TranscriptLedger {
    type V = LedgerView;

    closed spec fn view(&self) -> LedgerView {
        LedgerView {
            events: sem_events_view(self.events@),
            last_sequence: self.last_sequence,
            execution_generation: self.execution_generation,
            last_terminal_end: self.last_terminal_end,
            max_events: self.max_events,
        }
    }
}

/// `i` is the first position holding an event with this id.
pub open spec fn first_with_id(l: LedgerView, id: Seq<char>, i: int) -> bool {
    &&& 0 <= i < l.events.len()
    &&& l.events[i].event_id == id
    &&& forall|j: int| 0 <= j < i ==> l.events[j].event_id != id
}

pub open spec fn ledger_has_id(l: LedgerView, id: Seq<char>) -> bool {
    exists|i: int| 0 <= i < l.events.len() && l.events[i].event_id == id
}

/// The refusal for a new id, checked in this order: capacity, sequence,
/// then for terminal ranges the execution generation and overlap with the
/// previous range.
pub open spec fn ledger_refusal(l: LedgerView, e: SemanticEventView) -> Option<int> {
    if l.events.len() >= l.max_events {
        Some(0)
    } else if l.last_sequence is Some && e.sequence <= l.last_sequence->Some_0 {
        Some(1)
    } else {
        match terminal_range_of(e.payload) {
            Some(r) => if l.execution_generation is Some && e.execution_generation
                != l.execution_generation->Some_0 {
                Some(2)
            } else if l.last_terminal_end is Some && r.0 < l.last_terminal_end->Some_0 {
                Some(3)
            } else {
                None
            },
            None => None,
        }
    }
}

/// The ledger after accepting a new event.
pub open spec fn ledger_appended(l: LedgerView, e: SemanticEventView) -> LedgerView {
    match terminal_range_of(e.payload) {
        Some(r) => LedgerView {
            events: l.events.push(e),
            last_sequence: Some(e.sequence),
            execution_generation: Some(e.execution_generation),
            last_terminal_end: Some(r.1),
            max_events: l.max_events,
        },
        None => LedgerView {
            events: l.events.push(e),
            last_sequence: Some(e.sequence),
            ..l
        },
    }
}

/// The ledger's standing order: within its bound, one event per id,
/// strictly increasing sequences, the sequence tracker agreeing with the
/// last event, and every terminal range from the one execution generation
/// the ledger tracks.
pub open spec fn ledger_wf(l: LedgerView) -> bool {
    &&& l.max_events >= 1
    &&& l.events.len() <= l.max_events
    &&& forall|i: int, j: int|
        0 <= i < j < l.events.len() ==> l.events[i].event_id != l.events[j].event_id
            && l.events[i].sequence < l.events[j].sequence
    &&& (l.events.len() == 0 <==> l.last_sequence is None)
    &&& l.events.len() > 0 ==> l.last_sequence == Some(l.events.last().sequence)
    &&& forall|i: int|
        0 <= i < l.events.len() && terminal_range_of(l.events[i].payload) is Some ==> l.execution_generation
            == Some(l.events[i].execution_generation) && l.last_terminal_end is Some
}

impl TranscriptLedger {
    pub fn new() -> (l: TranscriptLedger)
        ensures
            l@.events.len() == 0,
            l@.last_sequence is None,
            l@.execution_generation is None,
            l@.last_terminal_end is None,
            l@.max_events == 4096,
            ledger_wf(l@),
    {
        TranscriptLedger::with_max_events(4096)
    }

    /// An empty ledger holding at most `max_events` events (at least one).
    pub fn with_max_events(max_events: usize) -> (l: TranscriptLedger)
        ensures
            l@.events.len() == 0,
            l@.last_sequence is None,
            l@.execution_generation is None,
            l@.last_terminal_end is None,
            l@.max_events == if max_events == 0 {
                1
            } else {
                max_events
            },
            ledger_wf(l@),
    {
        let l = TranscriptLedger {
            events: Vec::new(),
            last_sequence: None,
            execution_generation: None,
            last_terminal_end: None,
            max_events: if max_events == 0 {
                1
            } else {
                max_events
            },
        };
        assert(l@.events =~= Seq::<SemanticEventView>::empty());
        l
    }

    fn find(&self, id: &EventId) -> (r: Option<usize>)
        ensures
            match r {
                Some(i) => first_with_id(self@, id@, i as int),
                None => !ledger_has_id(self@, id@),
            },
    {
        let n = self.events.len();
        let mut i: usize = 0;
        while i < n
            invariant
                i <= n,
                n == self.events@.len(),
                forall|j: int| 0 <= j < i ==> self@.events[j].event_id != id@,
            decreases n - i,
        {
            assert(self@.events[i as int] == self.events@[i as int]@);
            if self.events[i].event_id.same(id) {
                return Some(i);
            }
            i = i + 1;
        }
        None
    }

    /// Appends `event`. Replaying an event already held is a no-op;
    /// reusing its id for anything else fails closed. A new event is refused
    /// beyond the bound (with the sequence to recover from), out of
    /// sequence order, or, for terminal ranges, from another execution
    /// generation or overlapping the previous range.
    pub fn append(&mut self, event: SemanticEvent) -> (r: Result<(), TranscriptError>)
        ensures
            ledger_has_id(old(self)@, event@.event_id) ==> final(self)@ == old(self)@ && (forall|
                i: int,
            | first_with_id(old(self)@, event@.event_id, i) ==> (old(self)@.events[i] == event@
                <==> r is Ok) && (old(self)@.events[i] != event@ ==> (r matches Err(
                TranscriptError::ConflictingEventId(id),
            ) && id@ == event@.event_id))),
            !ledger_has_id(old(self)@, event@.event_id) ==> match ledger_refusal(
                old(self)@,
                event@,
            ) {
                None => r is Ok && final(self)@ == ledger_appended(old(self)@, event@),
                Some(k) => final(self)@ == old(self)@ && (if k == 0 {
                    r matches Err(TranscriptError::CapacityExceeded { max_events, recovery_cursor })
                        && max_events == old(self)@.max_events && recovery_cursor == (match old(
                        self,
                    )@.last_sequence {
                        Some(s) => s,
                        None => 0,
                    })
                } else if k == 1 {
                    r matches Err(TranscriptError::OutOfOrderSequence { expected_after, got })
                        && Some(expected_after) == old(self)@.last_sequence && got == event@.sequence
                } else if k == 2 {
                    r matches Err(TranscriptError::GenerationMismatch { expected, got }) && Some(
                        expected,
                    ) == old(self)@.execution_generation && got == event@.execution_generation
                } else {
                    r matches Err(TranscriptError::OverlappingTerminalRange { previous_end, next_start })
                        && Some(previous_end) == old(self)@.last_terminal_end && next_start
                        == terminal_range_of(event@.payload)->Some_0.0
                }),
            },
            ledger_wf(old(self)@) ==> ledger_wf(final(self)@),
    {
        if let Some(index) = self.find(&event.event_id) {
            if self.events[index].same(&event) {
                return Ok(());
            }
            return Err(TranscriptError::ConflictingEventId(event.event_id.copy()));
        }
        if self.events.len() >= self.max_events {
            return Err(
                TranscriptError::CapacityExceeded {
                    max_events: self.max_events,
                    recovery_cursor: match self.last_sequence {
                        Some(s) => s,
                        None => 0,
                    },
                },
            );
        }
        if let Some(last) = self.last_sequence {
            if event.sequence <= last {
                return Err(TranscriptError::OutOfOrderSequence { expected_after: last, got: event.sequence });
            }
        }
        let range = event.payload.terminal_range();
        if let Some((start, _)) = range {
            if let Some(generation) = self.execution_generation {
                if event.execution_generation != generation {
                    return Err(
                        TranscriptError::GenerationMismatch {
                            expected: generation,
                            got: event.execution_generation,
                        },
                    );
                }
            }
            if let Some(previous_end) = self.last_terminal_end {
                if start < previous_end {
                    return Err(
                        TranscriptError::OverlappingTerminalRange { previous_end, next_start: start },
                    );
                }
            }
        }
        if let Some((_, end)) = range {
            self.execution_generation = Some(event.execution_generation);
            self.last_terminal_end = Some(end);
        }
        self.last_sequence = Some(event.sequence);
        let ghost before = self.events@;
        let ghost ev = event@;
        self.events.push(event);
        proof {
            assert(sem_events_view(self.events@) =~= sem_events_view(before).push(ev));
            let o = old(self)@;
            let u = self@;
            if ledger_wf(o) {
                assert forall|i: int, j: int| 0 <= i < j < u.events.len() implies u.events[i].event_id
                    != u.events[j].event_id && u.events[i].sequence < u.events[j].sequence by {
                    if j == o.events.len() {
                        assert(u.events[i] == o.events[i]);
                        assert(o.events[i].event_id != ev.event_id);
                        if i < o.events.len() - 1 {
                            assert(o.events[i].sequence < o.events.last().sequence);
                        }
                    }
                }
                assert forall|i: int|
                    0 <= i < u.events.len() && terminal_range_of(u.events[i].payload)
                        is Some implies u.execution_generation == Some(
                    u.events[i].execution_generation,
                ) && u.last_terminal_end is Some by {
                    if i < o.events.len() {
                        assert(u.events[i] == o.events[i]);
                    }
                }
            }
        }
        Ok(())
    }

    pub fn len(&self) -> (n: usize)
        ensures
            n == self@.events.len(),
    {
        self.events.len()
    }

    pub fn is_empty(&self) -> (b: bool)
        ensures
            b <==> self@.events.len() == 0,
    {
        self.events.len() == 0
    }

    pub fn events(&self) -> (s: &[SemanticEvent])
        ensures
            sem_events_view(s@) == self@.events,
    {
        self.events.as_slice()
    }
}

/// Replaying an event the ledger already holds changes nothing and is
/// accepted: appends are idempotent by event id.
pub proof fn lemma_replay_is_idempotent(l: LedgerView, i: int)
    requires
        ledger_wf(l),
        0 <= i < l.events.len(),
    ensures
        first_with_id(l, l.events[i].event_id, i),
        ledger_has_id(l, l.events[i].event_id),
{
}

} // verus!

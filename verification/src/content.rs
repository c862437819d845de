//! The content timeline and the semantic event ledger behind it, with a
//! host-side flow session tying them to the hot byte ring. Command
//! boundaries come only from explicit submissions, never from the shape of
//! terminal output.

pub mod ledger;
pub mod policy;
pub mod range;
pub mod timeline;

use vstd::prelude::*;
use crate::kernel::ring::{RingView, ring_appended, ring_shrunk};
use crate::content::ledger::{EventId, EventKind, EventView, LedgerView, SemanticEvent, SemanticLedger, appended, sat_inc, copy_bytes};
use crate::content::range::{HotRing, SourceRange};
use crate::content::timeline::{ContentKind, ContentItemId, ContentTimeline, TimelineError, TimelineView, item_of, first_item, last_input_at, extended};

verus! {

/// Default hot-ring capacity of a flow session.
pub const DEFAULT_RING_CAP: usize = 65536;

/// A flow session as a value.
pub struct FlowView {
    pub ledger: LedgerView,
    pub timeline: TimelineView,
    pub ring: RingView,
    pub generation: u64,
    pub draft: Seq<char>,
    pub open_output: Option<ContentItemId>,
    pub checkpoint_id: u64,
}

/// What a structured submission of `command` does: a terminal-input event
/// under the next event id, whose range is the ring's end at that moment,
/// then the item it becomes. It closes the open output and clears the
/// draft. A ledger conflict leaves the timeline as it was.
pub open spec fn submitted(f: FlowView, command: Seq<u8>) -> (FlowView, Result<ContentItemId, TimelineError>) {
    let start = f.ring.end as u64;
    let ev = EventView {
        id: EventId(f.ledger.next),
        kind: EventKind::TerminalInput,
        sequence: 0,
        payload: command,
        range: Some(SourceRange { generation: f.generation, start, end: start, checkpoint_id: Some(f.checkpoint_id) }),
    };
    let l1 = LedgerView { next: sat_inc(f.ledger.next), ..f.ledger };
    let (l2, res) = appended(l1, ev);
    match res {
        Err(_) => (FlowView { ledger: l2, ..f }, Err(TimelineError::Empty)),
        Ok(eid) => {
            let item = ContentItemId(f.timeline.next);
            (
                FlowView {
                    ledger: l2,
                    timeline: TimelineView {
                        items: f.timeline.items.push(item_of(item, ev, eid)),
                        next: sat_inc(f.timeline.next),
                    },
                    open_output: None,
                    draft: Seq::empty(),
                    ..f
                },
                Ok(item),
            )
        },
    }
}

/// What taking in PTY `bytes` does: they go to the hot ring and become an
/// event over the offsets they took there, terminal output once an input
/// item exists and unstructured before. Output after a submission is
/// appended to the open output item; otherwise it becomes a new item,
/// which stays open when it is terminal output. Empty input is refused.
pub open spec fn ingested(f: FlowView, bytes: Seq<u8>) -> (FlowView, Result<ContentItemId, TimelineError>) {
    if bytes.len() == 0 {
        (f, Err(TimelineError::Empty))
    } else {
        let ring = ring_appended(f.ring, bytes);
        let range = SourceRange {
            generation: f.generation,
            start: f.ring.end as u64,
            end: ring.end as u64,
            checkpoint_id: Some(f.checkpoint_id),
        };
        let kind = if last_input_at(f.timeline.items) is Some {
            EventKind::TerminalOutput
        } else {
            EventKind::Unstructured
        };
        let ev = EventView { id: EventId(f.ledger.next), kind, sequence: 0, payload: bytes, range: Some(range) };
        let l1 = LedgerView { next: sat_inc(f.ledger.next), ..f.ledger };
        match f.open_output {
            Some(id) => match first_item(f.timeline.items, id) {
                None => (FlowView { ring, ledger: l1, ..f }, Err(TimelineError::MissingItem)),
                Some(i) => (
                    FlowView {
                        ring,
                        ledger: appended(l1, ev).0,
                        timeline: TimelineView {
                            items: f.timeline.items.update(i, extended(f.timeline.items[i], bytes, range)),
                            ..f.timeline
                        },
                        ..f
                    },
                    Ok(id),
                ),
            },
            None => {
                let (l2, res) = appended(l1, ev);
                match res {
                    Err(_) => (FlowView { ring, ledger: l2, ..f }, Err(TimelineError::Empty)),
                    Ok(eid) => {
                        let item = ContentItemId(f.timeline.next);
                        (
                            FlowView {
                                ring,
                                ledger: l2,
                                timeline: TimelineView {
                                    items: f.timeline.items.push(item_of(item, ev, eid)),
                                    next: sat_inc(f.timeline.next),
                                },
                                open_output: if kind == EventKind::TerminalOutput {
                                    Some(item)
                                } else {
                                    None
                                },
                                ..f
                            },
                            Ok(item),
                        )
                    },
                }
            },
        }
    }
}

/// Host-side flow session: ledger, timeline, hot ring, and a composer
/// draft that is never recorded.
pub struct FlowSession {
    pub ledger: SemanticLedger,
    pub timeline: ContentTimeline,
    pub ring: HotRing,
    pub generation: u64,
    draft: String,
    open_output: Option<ContentItemId>,
    checkpoint_id: u64,
}

impl FlowSession {
    pub closed spec fn view(&self) -> FlowView {
        FlowView {
            ledger: self.ledger.view(),
            timeline: self.timeline.view(),
            ring: self.ring.view(),
            generation: self.generation,
            draft: self.draft@,
            open_output: self.open_output,
            checkpoint_id: self.checkpoint_id,
        }
    }

    pub fn new(ring_cap: usize) -> (f: Self)
        ensures
            f.view() == (FlowView {
                ledger: LedgerView { events: Seq::empty(), next: 0 },
                timeline: TimelineView { items: Seq::empty(), next: 0 },
                ring: RingView {
                    data: Seq::empty(),
                    cap: if ring_cap == 0 {
                        1
                    } else {
                        ring_cap as nat
                    },
                    retained_base: 0,
                    end: 0,
                },
                generation: 1,
                draft: Seq::empty(),
                open_output: None,
                checkpoint_id: 1,
            }),
            flow_wf(f.view()),
    {
        FlowSession {
            ledger: SemanticLedger::new(),
            timeline: ContentTimeline::new(),
            ring: HotRing::new(ring_cap),
            generation: 1,
            draft: String::new(),
            open_output: None,
            checkpoint_id: 1,
        }
    }

    /// The semantic ledger.
    pub fn ledger(&self) -> (r: &SemanticLedger)
        ensures
            r.view() == self.view().ledger,
    {
        &self.ledger
    }

    /// The content timeline.
    pub fn timeline(&self) -> (r: &ContentTimeline)
        ensures
            r.view() == self.view().timeline,
    {
        &self.timeline
    }

    /// The hot byte ring.
    pub fn ring(&self) -> (r: &HotRing)
        ensures
            r.view() == self.view().ring,
    {
        &self.ring
    }

    /// The terminal generation the session's ranges name.
    pub fn generation(&self) -> (g: u64)
        ensures
            g == self.view().generation,
    {
        self.generation
    }

    /// Unsent composer text. Never written to the ledger or the ring.
    pub fn draft(&self) -> (s: &str)
        ensures
            s@ == self.view().draft,
    {
        self.draft.as_str()
    }

    pub fn set_draft(&mut self, text: String)
        ensures
            final(self).view() == (FlowView { draft: text@, ..old(self).view() }),
            flow_wf(old(self).view()) ==> flow_wf(final(self).view()),
    {
        self.draft = text;
    }

    pub fn clear_draft(&mut self)
        ensures
            final(self).view() == (FlowView { draft: Seq::empty(), ..old(self).view() }),
            flow_wf(old(self).view()) ==> flow_wf(final(self).view()),
    {
        self.draft = String::new();
    }

    /// Explicit structured submission: the accepted bytes are the command
    /// boundary.
    pub fn submit_command(&mut self, command: &[u8]) -> (r: Result<ContentItemId, TimelineError>)
        ensures
            (final(self).view(), r) == submitted(old(self).view(), command@),
            flow_wf(old(self).view()) ==> flow_wf(final(self).view()),
            flow_wf(old(self).view()) && old(self).view().ledger.next < u64::MAX && old(self).view().timeline.next
                < u64::MAX ==> (r matches Ok(id) && first_item(final(self).view().timeline.items, id) is Some),
    {
        proof {
            if flow_wf(self.view()) {
                lemma_submit_keeps_wf(self.view(), command@);
            }
            if flow_wf(self.view()) && self.view().ledger.next < u64::MAX && self.view().timeline.next < u64::MAX {
                lemma_submit_succeeds(self.view(), command@);
            }
        }
        let start = self.ring.end_offset();
        let id = self.ledger.next_id_raw();
        let ev = SemanticEvent {
            id: EventId(id),
            kind: EventKind::TerminalInput,
            sequence: 0,
            payload: copy_bytes(command),
            range: Some(SourceRange { generation: self.generation, start, end: start, checkpoint_id: Some(self.checkpoint_id) }),
        };
        let event_id = match self.ledger.append(ev.copy()) {
            Ok(e) => e,
            Err(e) => {
                return Err(TimelineError::from(e));
            },
        };
        let item = match self.timeline.append_from_event(&ev, event_id) {
            Ok(i) => i,
            Err(e) => {
                return Err(e);
            },
        };
        self.open_output = None;
        self.draft = String::new();
        Ok(item)
    }

    /// PTY bytes after a submission attach to that command's output.
    /// Unmarked bytes stay an honest terminal region, even when they look
    /// like a prompt.
    pub fn ingest_pty_bytes(&mut self, bytes: &[u8]) -> (r: Result<ContentItemId, TimelineError>)
        ensures
            (final(self).view(), r) == ingested(old(self).view(), bytes@),
            flow_wf(old(self).view()) ==> flow_wf(final(self).view()),
            flow_wf(old(self).view()) && old(self).view().ledger.next < u64::MAX && old(self).view().timeline.next
                < u64::MAX && bytes@.len() > 0 ==> (r matches Ok(id) && first_item(final(self).view().timeline.items, id)
                is Some),
    {
        proof {
            if flow_wf(self.view()) {
                lemma_ingest_keeps_wf(self.view(), bytes@);
            }
            if flow_wf(self.view()) && self.view().ledger.next < u64::MAX && self.view().timeline.next < u64::MAX
                && bytes@.len() > 0 {
                lemma_ingest_succeeds(self.view(), bytes@);
            }
        }
        if bytes.len() == 0 {
            return Err(TimelineError::Empty);
        }
        let start = self.ring.end_offset();
        self.ring.append(bytes);
        let end = self.ring.end_offset();
        let range = SourceRange { generation: self.generation, start, end, checkpoint_id: Some(self.checkpoint_id) };
        let kind = if self.timeline.last_input().is_some() {
            EventKind::TerminalOutput
        } else {
            EventKind::Unstructured
        };
        let id = self.ledger.next_id_raw();
        let ev = SemanticEvent { id: EventId(id), kind, sequence: 0, payload: copy_bytes(bytes), range: Some(range) };
        match self.open_output {
            Some(open) => {
                match self.timeline.extend_output(open, bytes, range) {
                    Ok(()) => {},
                    Err(e) => {
                        return Err(e);
                    },
                }
                let _ = self.ledger.append(ev);
                return Ok(open);
            },
            None => {},
        }
        let event_id = match self.ledger.append(ev.copy()) {
            Ok(e) => e,
            Err(e) => {
                return Err(TimelineError::from(e));
            },
        };
        let item = match self.timeline.append_from_event(&ev, event_id) {
            Ok(i) => i,
            Err(e) => {
                return Err(e);
            },
        };
        match kind {
            EventKind::TerminalOutput => {
                self.open_output = Some(item);
            },
            _ => {},
        }
        Ok(item)
    }

    pub fn close_open_output(&mut self)
        ensures
            final(self).view() == (FlowView { open_output: None, ..old(self).view() }),
            flow_wf(old(self).view()) ==> flow_wf(final(self).view()),
    {
        self.open_output = None;
    }

    /// Move to the next checkpoint id; the counter saturates at `u64::MAX`.
    pub fn mark_checkpoint(&mut self)
        ensures
            final(self).view() == (FlowView { checkpoint_id: sat_inc(old(self).view().checkpoint_id), ..old(self).view() }),
            flow_wf(old(self).view()) ==> flow_wf(final(self).view()),
    {
        self.checkpoint_id = self.checkpoint_id.saturating_add(1);
    }

    /// Shrink the hot ring to `cap`: the oldest bytes that no longer fit are
    /// forgotten, and nothing is renumbered, so the ranges of materialized
    /// items keep naming the same bytes. The items are untouched.
    pub fn evict_hot_ring_to(&mut self, cap: usize)
        ensures
            final(self).view() == (FlowView { ring: ring_shrunk(old(self).view().ring, cap as nat), ..old(self).view() }),
            flow_wf(old(self).view()) ==> flow_wf(final(self).view()),
    {
        self.ring.shrink_to(cap);
    }
}

impl Default for FlowSession {
    fn default() -> (f: Self)
        ensures
            f.view().ring.cap == DEFAULT_RING_CAP,
            f.view().ledger.events.len() == 0,
            f.view().timeline.items.len() == 0,
            flow_wf(f.view()),
    {
        FlowSession::new(DEFAULT_RING_CAP)
    }
}


/// Output never fabricates a command: after taking in PTY bytes, every
/// input item was already an input item at the same place.
pub proof fn lemma_ingest_makes_no_input(f: FlowView, bytes: Seq<u8>)
    ensures
        ({
            let g = ingested(f, bytes).0;
            forall|i: int|
                0 <= i < g.timeline.items.len() && #[trigger] g.timeline.items[i].kind == ContentKind::TerminalInput
                    ==> i < f.timeline.items.len() && f.timeline.items[i].kind == ContentKind::TerminalInput
        }),
{
    let g = ingested(f, bytes).0;
    if bytes.len() > 0 {
        match f.open_output {
            Some(open) => {
                crate::content::timeline::lemma_first_item_range(f.timeline.items, open, 0);
            },
            None => {},
        }
        assert forall|i: int|
            0 <= i < g.timeline.items.len() && #[trigger] g.timeline.items[i].kind == ContentKind::TerminalInput
                implies i < f.timeline.items.len() && f.timeline.items[i].kind == ContentKind::TerminalInput by {
            if i < f.timeline.items.len() {
                assert(g.timeline.items[i].kind == f.timeline.items[i].kind);
            }
        }
    }
}

/// A structured submission is the one way to an input item: when it is
/// accepted, the item it names is the newest, an input, carrying the
/// command.
pub proof fn lemma_submit_makes_input(f: FlowView, command: Seq<u8>)
    ensures
        ({
            let (g, r) = submitted(f, command);
            r matches Ok(id) ==> {
                &&& g.timeline.items.len() == f.timeline.items.len() + 1
                &&& g.timeline.items.last().id == id
                &&& g.timeline.items.last().kind == ContentKind::TerminalInput
                &&& g.timeline.items.last().payload == command
            }
        }),
{
}

/// Output events follow the byte order of the ring: the item that takes in
/// PTY bytes ends its range at the ring's new end.
pub proof fn lemma_output_range_ends_at_ring_end(f: FlowView, bytes: Seq<u8>)
    requires
        f.timeline.items.len() < u64::MAX,
    ensures
        ({
            let (g, r) = ingested(f, bytes);
            r matches Ok(id) ==> exists|i: int|
                0 <= i < g.timeline.items.len() && g.timeline.items[i].id == id && (#[trigger] g.timeline.items[i].range
                    matches Some(rg) && rg.end == g.ring.end as u64)
        }),
{
    let (g, r) = ingested(f, bytes);
    if let Ok(id) = r {
        match f.open_output {
            Some(open) => {
                let i = first_item(f.timeline.items, open)->0;
                crate::content::timeline::lemma_first_item_range(f.timeline.items, open, 0);
                assert(g.timeline.items[i].id == id);
                assert(g.timeline.items[i].range matches Some(rg) && rg.end == g.ring.end as u64);
            },
            None => {
                let i = f.timeline.items.len() as int;
                assert(g.timeline.items[i].id == id);
                assert(g.timeline.items[i].range matches Some(rg) && rg.end == g.ring.end as u64);
            },
        }
    }
}

/// A flow session whose ids are fresh: the ledger's and the timeline's
/// ids lie below their counters, and an open output item is in the
/// timeline. A session made by `new` holds this.
pub open spec fn flow_wf(f: FlowView) -> bool {
    &&& crate::content::ledger::ids_below_next(f.ledger)
    &&& crate::content::timeline::item_ids_below_next(f.timeline)
    &&& (f.open_output matches Some(id) ==> first_item(f.timeline.items, id) is Some)
}

/// Taking in PTY bytes succeeds on every non-empty input of a session
/// with fresh ids whose counters have not saturated; the id it answers
/// names an item of the timeline, and the session's ids stay fresh.
pub proof fn lemma_ingest_succeeds(f: FlowView, bytes: Seq<u8>)
    requires
        flow_wf(f),
        f.ledger.next < u64::MAX,
        f.timeline.next < u64::MAX,
        bytes.len() > 0,
    ensures
        ({
            let (g, r) = ingested(f, bytes);
            &&& r matches Ok(id) && first_item(g.timeline.items, id) is Some
            &&& flow_wf(g)
        }),
{
    let ring = ring_appended(f.ring, bytes);
    let range = SourceRange {
        generation: f.generation,
        start: f.ring.end as u64,
        end: ring.end as u64,
        checkpoint_id: Some(f.checkpoint_id),
    };
    let kind = if last_input_at(f.timeline.items) is Some {
        EventKind::TerminalOutput
    } else {
        EventKind::Unstructured
    };
    let ev = EventView { id: EventId(f.ledger.next), kind, sequence: 0, payload: bytes, range: Some(range) };
    let l1 = LedgerView { next: sat_inc(f.ledger.next), ..f.ledger };
    crate::content::ledger::lemma_next_id_is_fresh(f.ledger, ev);
    assert(crate::content::ledger::ids_below_next(l1));
    crate::content::ledger::lemma_appended_keeps_ids_below_next(l1, ev);
    match f.open_output {
        Some(id) => {
            let i = first_item(f.timeline.items, id)->Some_0;
            crate::content::timeline::lemma_first_item_range(f.timeline.items, id, 0);
            crate::content::timeline::lemma_update_keeps_ids(
                f.timeline,
                i,
                extended(f.timeline.items[i], bytes, range),
                id,
            );
        },
        None => {
            crate::content::timeline::lemma_append_item_is_fresh(f.timeline, ev, ev.id);
        },
    }
}

/// A structured submission succeeds in a session with fresh ids whose
/// counters have not saturated; the item it answers is in the timeline and
/// the session's ids stay fresh.
pub proof fn lemma_submit_succeeds(f: FlowView, command: Seq<u8>)
    requires
        flow_wf(f),
        f.ledger.next < u64::MAX,
        f.timeline.next < u64::MAX,
    ensures
        ({
            let (g, r) = submitted(f, command);
            &&& r matches Ok(id) && first_item(g.timeline.items, id) is Some
            &&& flow_wf(g)
        }),
{
    let start = f.ring.end as u64;
    let ev = EventView {
        id: EventId(f.ledger.next),
        kind: EventKind::TerminalInput,
        sequence: 0,
        payload: command,
        range: Some(SourceRange { generation: f.generation, start, end: start, checkpoint_id: Some(f.checkpoint_id) }),
    };
    let l1 = LedgerView { next: sat_inc(f.ledger.next), ..f.ledger };
    crate::content::ledger::lemma_next_id_is_fresh(f.ledger, ev);
    crate::content::ledger::lemma_appended_keeps_ids_below_next(l1, ev);
    crate::content::timeline::lemma_append_item_is_fresh(f.timeline, ev, ev.id);
}

/// Taking in PTY bytes keeps a session's ids fresh, whatever the input and
/// even at saturated counters.
pub proof fn lemma_ingest_keeps_wf(f: FlowView, bytes: Seq<u8>)
    requires
        flow_wf(f),
    ensures
        flow_wf(ingested(f, bytes).0),
{
    if bytes.len() > 0 {
        let ring = ring_appended(f.ring, bytes);
        let range = SourceRange {
            generation: f.generation,
            start: f.ring.end as u64,
            end: ring.end as u64,
            checkpoint_id: Some(f.checkpoint_id),
        };
        let kind = if last_input_at(f.timeline.items) is Some {
            EventKind::TerminalOutput
        } else {
            EventKind::Unstructured
        };
        let ev = EventView { id: EventId(f.ledger.next), kind, sequence: 0, payload: bytes, range: Some(range) };
        let l1 = LedgerView { next: sat_inc(f.ledger.next), ..f.ledger };
        assert(crate::content::ledger::ids_below_next(l1));
        crate::content::ledger::lemma_appended_keeps_ids_below_next(l1, ev);
        match f.open_output {
            Some(id) => {
                let i = first_item(f.timeline.items, id)->Some_0;
                crate::content::timeline::lemma_first_item_range(f.timeline.items, id, 0);
                crate::content::timeline::lemma_update_keeps_ids(
                    f.timeline,
                    i,
                    extended(f.timeline.items[i], bytes, range),
                    id,
                );
            },
            None => {
                crate::content::timeline::lemma_push_keeps_ids(f.timeline, item_of(ContentItemId(f.timeline.next), ev, ev.id));
            },
        }
    }
}

/// A structured submission keeps a session's ids fresh, even at saturated
/// counters.
pub proof fn lemma_submit_keeps_wf(f: FlowView, command: Seq<u8>)
    requires
        flow_wf(f),
    ensures
        flow_wf(submitted(f, command).0),
{
    let start = f.ring.end as u64;
    let ev = EventView {
        id: EventId(f.ledger.next),
        kind: EventKind::TerminalInput,
        sequence: 0,
        payload: command,
        range: Some(SourceRange { generation: f.generation, start, end: start, checkpoint_id: Some(f.checkpoint_id) }),
    };
    let l1 = LedgerView { next: sat_inc(f.ledger.next), ..f.ledger };
    assert(crate::content::ledger::ids_below_next(l1));
    crate::content::ledger::lemma_appended_keeps_ids_below_next(l1, ev);
    crate::content::timeline::lemma_push_keeps_ids(f.timeline, item_of(ContentItemId(f.timeline.next), ev, ev.id));
    match f.open_output {
        Some(id) => {
            crate::content::timeline::lemma_first_item_push_stays(f.timeline.items, item_of(ContentItemId(f.timeline.next), ev, ev.id), id);
        },
        None => {},
    }
}

} // verus!

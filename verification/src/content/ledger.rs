//! The semantic event ledger: events keyed by a stable id, appended once.

use vstd::prelude::*;
use crate::content::range::SourceRange;

verus! {

#[derive(Clone, Copy, Debug, PartialEq, Eq, Structural, Hash)]
pub struct EventId(pub u64);

#[derive(Clone, Copy, Debug, PartialEq, Eq, Structural)]
pub enum EventKind {
    TerminalInput,
    TerminalOutput,
    BackgroundOutput,
    AgentMessage,
    ToolCall,
    ToolResult,
    Approval,
    Question,
    DiffResult,
    Lifecycle,
    Discontinuity,
    Unstructured,
}

#[derive(Clone, Debug, PartialEq, Eq)]
pub struct SemanticEvent {
    pub id: EventId,
    pub kind: EventKind,
    pub sequence: u64,
    pub payload: Vec<u8>,
    pub range: Option<SourceRange>,
}

/// An event as a value.
pub struct EventView {
    pub id: EventId,
    pub kind: EventKind,
    pub sequence: u64,
    pub payload: Seq<u8>,
    pub range: Option<SourceRange>,
}

impl SemanticEvent {
    pub open spec fn view(&self) -> EventView {
        EventView {
            id: self.id,
            kind: self.kind,
            sequence: self.sequence,
            payload: self.payload@,
            range: self.range,
        }
    }

    /// A copy of the event.
    pub fn copy(&self) -> (r: SemanticEvent)
        ensures
            r.view() == self.view(),
    {
        SemanticEvent {
            id: self.id,
            kind: self.kind,
            sequence: self.sequence,
            payload: copy_bytes(&self.payload),
            range: self.range,
        }
    }
}

pub(crate) fn copy_bytes(v: &[u8]) -> (r: Vec<u8>)
    ensures
        r@ == v@,
{
    let mut r: Vec<u8> = Vec::new();
    let mut i: usize = 0;
    while i < v.len()
        invariant
            i <= v@.len(),
            r@ == v@.subrange(0, i as int),
        decreases v@.len() - i,
    {
        r.push(v[i]);
        i = i + 1;
    }
    assert(r@ =~= v@);
    r
}

pub(crate) fn same_bytes(a: &[u8], b: &[u8]) -> (r: bool)
    ensures
        r == (a@ == b@),
{
    if a.len() != b.len() {
        return false;
    }
    let mut i: usize = 0;
    while i < a.len()
        invariant
            a@.len() == b@.len(),
            i <= a@.len(),
            forall|j: int| 0 <= j < i ==> a@[j] == b@[j],
        decreases a@.len() - i,
    {
        if a[i] != b[i] {
            return false;
        }
        i = i + 1;
    }
    assert(a@ =~= b@);
    true
}

pub open spec fn events_view(v: Seq<SemanticEvent>) -> Seq<EventView> {
    v.map_values(|e: SemanticEvent| e.view())
}

#[derive(Debug, PartialEq, Eq, Structural)]
pub enum TranscriptError {
    /// An event id reused with a different payload.
    Conflict,
}

impl TranscriptError {
    pub fn message(&self) -> (s: String)
        ensures
            s@ == "event id reused with a different payload"@,
    {
        String::from_str("event id reused with a different payload")
    }
}

/// The ledger as a value.
pub struct LedgerView {
    pub events: Seq<EventView>,
    pub next: u64,
}

/// The position of the first event of `ev` from `k` on with id `id`.
pub open spec fn first_with_id_from(ev: Seq<EventView>, id: EventId, k: int) -> Option<int>
    decreases ev.len() - k,
{
    if k < 0 || k >= ev.len() {
        None
    } else if ev[k].id == id {
        Some(k)
    } else {
        first_with_id_from(ev, id, k + 1)
    }
}

/// The position of the first event of `ev` with id `id`.
pub open spec fn first_with_id(ev: Seq<EventView>, id: EventId) -> Option<int> {
    first_with_id_from(ev, id, 0)
}

proof fn lemma_first_with_id_range(ev: Seq<EventView>, id: EventId, k: int)
    requires
        0 <= k,
    ensures
        first_with_id_from(ev, id, k) matches Some(i) ==> k <= i < ev.len() && ev[i].id == id && forall|j: int| k <= j < i ==> ev[j].id != id,
        first_with_id_from(ev, id, k) is None ==> forall|j: int| k <= j < ev.len() ==> ev[j].id != id,
    decreases ev.len() - k,
{
    if k < ev.len() && ev[k].id != id {
        lemma_first_with_id_range(ev, id, k + 1);
    }
}

/// `a + 1`, saturated at `u64::MAX`.
pub open spec fn sat_inc(a: u64) -> u64 {
    if a == u64::MAX {
        a
    } else {
        (a + 1) as u64
    }
}

/// What appending `e` does: an event with the same id and the same kind
/// and payload leaves the ledger as it is and answers that id; one with a
/// different kind or payload is a conflict; a new id is stored, numbered
/// after the events so far when its sequence is 0, and moves the id counter
/// past it.
pub open spec fn appended(l: LedgerView, e: EventView) -> (LedgerView, Result<EventId, TranscriptError>) {
    match first_with_id(l.events, e.id) {
        Some(i) => if l.events[i].payload != e.payload || l.events[i].kind != e.kind {
            (l, Err(TranscriptError::Conflict))
        } else {
            (l, Ok(e.id))
        },
        None => {
            let stored = EventView {
                sequence: if e.sequence == 0 {
                    if l.events.len() < u64::MAX {
                        (l.events.len() + 1) as u64
                    } else {
                        u64::MAX
                    }
                } else {
                    e.sequence
                },
                ..e
            };
            (
                LedgerView {
                    events: l.events.push(stored),
                    next: if e.id.0 >= l.next {
                        sat_inc(e.id.0)
                    } else {
                        l.next
                    },
                },
                Ok(e.id),
            )
        },
    }
}

/// The FNV-style order hash over `ev`, starting from `h`.
pub open spec fn order_hash(ev: Seq<EventView>, h: u64) -> u64
    decreases ev.len(),
{
    if ev.len() == 0 {
        h
    } else {
        let e = ev.last();
        let h0 = order_hash(ev.drop_last(), h);
        let h1 = (h0 ^ e.id.0).wrapping_mul(0x100000001b3u64);
        let h2 = (h1 ^ e.sequence).wrapping_mul(0x100000001b3u64);
        h2 ^ (e.payload.len() as u64)
    }
}

/// Every stored id lies below the id counter, unless the counter has
/// saturated at `u64::MAX`: the ids the counter hands out are fresh.
pub open spec fn ids_below_next(l: LedgerView) -> bool {
    forall|i: int| 0 <= i < l.events.len() ==> #[trigger] l.events[i].id.0 < l.next || l.next == u64::MAX
}

pub struct SemanticLedger {
    events: Vec<SemanticEvent>,
    next: u64,
}

impl SemanticLedger {
    pub closed spec fn view(&self) -> LedgerView {
        LedgerView { events: events_view(self.events@), next: self.next }
    }

    #[verifier::type_invariant]
    closed spec fn inv(&self) -> bool {
        ids_below_next(self.view())
    }

    pub fn new() -> (l: Self)
        ensures
            l.view().events == Seq::<EventView>::empty(),
            l.view().next == 0,
    {
        let l = SemanticLedger { events: Vec::new(), next: 0 };
        assert(l.view().events =~= Seq::<EventView>::empty());
        l
    }

    /// Hand out the next event id; the counter saturates at `u64::MAX`.
    pub fn next_id_raw(&mut self) -> (id: u64)
        ensures
            id == old(self).view().next,
            final(self).view() == (LedgerView { next: sat_inc(old(self).view().next), ..old(self).view() }),
            forall|i: int|
                0 <= i < old(self).view().events.len() ==> #[trigger] old(self).view().events[i].id.0 < id || id
                    == u64::MAX,
    {
        proof {
            use_type_invariant(&*self);
        }
        let id = self.next;
        self.next = self.next.saturating_add(1);
        id
    }

    /// Where the first event with id `id` sits.
    fn find(&self, id: EventId) -> (r: Option<usize>)
        ensures
            match r {
                Some(i) => first_with_id(self.view().events, id) == Some(i as int) && i < self.view().events.len(),
                None => first_with_id(self.view().events, id) is None,
            },
    {
        let ghost ev = self.view().events;
        let mut i: usize = 0;
        while i < self.events.len()
            invariant
                ev == self.view().events,
                i <= self.events@.len(),
                first_with_id(ev, id) == first_with_id_from(ev, id, i as int),
            decreases self.events@.len() - i,
        {
            if self.events[i].id.0 == id.0 {
                return Some(i);
            }
            i = i + 1;
        }
        None
    }

    /// Append `event`. Idempotent for the same id with the same kind and
    /// payload; a reused id with a different kind or payload fails closed.
    pub fn append(&mut self, event: SemanticEvent) -> (r: Result<EventId, TranscriptError>)
        ensures
            (final(self).view(), r) == appended(old(self).view(), event.view()),
    {
        proof {
            use_type_invariant(&*self);
        }
        let mut event = event;
        match self.find(event.id) {
            Some(i) => {
                if !same_bytes(self.events[i].payload.as_slice(), event.payload.as_slice()) || self.events[i].kind != event.kind {
                    return Err(TranscriptError::Conflict);
                }
                return Ok(event.id);
            },
            None => {},
        }
        let ghost e0 = event.view();
        if event.sequence == 0 {
            let n = self.events.len() as u64;
            event.sequence = n.saturating_add(1);
        }
        let id = event.id;
        let ghost ev_stored = event.view();
        let mut taken = SemanticLedger::new();
        std::mem::swap(self, &mut taken);
        let SemanticLedger { events, next: old_next } = taken;
        let mut events = events;
        let ghost before = events@;
        events.push(event);
        proof {
            assert(events_view(events@) =~= events_view(before).push(ev_stored));
        }
        let next = if id.0 >= old_next {
            id.0.saturating_add(1)
        } else {
            old_next
        };
        proof {
            let ev = events_view(events@);
            assert forall|i: int| 0 <= i < ev.len() implies #[trigger] ev[i].id.0 < next || next == u64::MAX by {
                if i < ev.len() - 1 {
                    assert(ev[i] == events_view(before)[i]);
                }
            }
        }
        *self = SemanticLedger { events, next };
        Ok(id)
    }

    /// The first event with id `id`.
    pub fn get(&self, id: EventId) -> (r: Option<&SemanticEvent>)
        ensures
            match first_with_id(self.view().events, id) {
                Some(i) => r matches Some(e) && e.view() == self.view().events[i],
                None => r is None,
            },
    {
        match self.find(id) {
            Some(i) => Some(&self.events[i]),
            None => None,
        }
    }

    pub fn len(&self) -> (n: usize)
        ensures
            n == self.view().events.len(),
    {
        self.events.len()
    }

    pub fn is_empty(&self) -> (b: bool)
        ensures
            b == (self.view().events.len() == 0),
    {
        self.events.len() == 0
    }

    /// The events, oldest first.
    pub fn iter(&self) -> (r: &[SemanticEvent])
        ensures
            events_view(r@) == self.view().events,
    {
        self.events.as_slice()
    }

    /// A hash of the ids, sequences and payload lengths in ledger order.
    pub fn hash_order(&self) -> (h: u64)
        ensures
            h == order_hash(self.view().events, 0xcbf29ce484222325u64),
    {
        let mut h: u64 = 0xcbf29ce484222325;
        let mut i: usize = 0;
        while i < self.events.len()
            invariant
                i <= self.events@.len(),
                h == order_hash(events_view(self.events@).subrange(0, i as int), 0xcbf29ce484222325u64),
            decreases self.events@.len() - i,
        {
            let e = &self.events[i];
            proof {
                let pre = events_view(self.events@).subrange(0, i + 1);
                assert(pre.drop_last() =~= events_view(self.events@).subrange(0, i as int));
                assert(pre.last() == e.view());
            }
            h = h ^ e.id.0;
            h = h.wrapping_mul(0x100000001b3);
            h = h ^ e.sequence;
            h = h.wrapping_mul(0x100000001b3);
            h = h ^ (e.payload.len() as u64);
            i = i + 1;
        }
        assert(events_view(self.events@).subrange(0, self.events@.len() as int) =~= events_view(self.events@));
        h
    }
}

impl Default for SemanticLedger {
    fn default() -> (l: Self)
        ensures
            l.view().events == Seq::<EventView>::empty(),
            l.view().next == 0,
    {
        SemanticLedger::new()
    }
}

/// Appending the same event twice is one append: the second answers the
/// same id and changes nothing.
pub proof fn lemma_append_idempotent(l: LedgerView, e: EventView)
    requires
        appended(l, e).1 is Ok,
    ensures
        appended(appended(l, e).0, e) == appended(l, e),
{
    let l1 = appended(l, e).0;
    lemma_first_with_id_range(l.events, e.id, 0);
    match first_with_id(l.events, e.id) {
        Some(i) => {},
        None => {
            let n = l.events.len() as int;
            lemma_first_with_id_from_push(l.events, l1.events[n], e.id, 0);
        },
    }
}

proof fn lemma_first_with_id_from_push(ev: Seq<EventView>, x: EventView, id: EventId, k: int)
    requires
        0 <= k <= ev.len(),
        x.id == id,
        forall|j: int| k <= j < ev.len() ==> ev[j].id != id,
    ensures
        first_with_id_from(ev.push(x), id, k) == Some(ev.len() as int),
    decreases ev.len() - k,
{
    if k < ev.len() {
        lemma_first_with_id_from_push(ev, x, id, k + 1);
    }
}

/// Reading back what was appended: once a new id is appended, a lookup
/// of that id finds the stored event (numbered after the events before it
/// when its sequence was 0), and a lookup of any other id finds what it
/// found before.
pub proof fn lemma_get_after_append(l: LedgerView, e: EventView, x: EventId)
    requires
        first_with_id(l.events, e.id) is None,
    ensures
        ({
            let l1 = appended(l, e).0;
            &&& first_with_id(l1.events, e.id) == Some(l.events.len() as int)
            &&& l1.events[l.events.len() as int] == (EventView {
                sequence: if e.sequence == 0 && l.events.len() < u64::MAX {
                    (l.events.len() + 1) as u64
                } else if e.sequence == 0 {
                    u64::MAX
                } else {
                    e.sequence
                },
                ..e
            })
            &&& x != e.id ==> first_with_id(l1.events, x) == first_with_id(l.events, x)
        }),
{
    let l1 = appended(l, e).0;
    let n = l.events.len() as int;
    lemma_first_with_id_range(l.events, e.id, 0);
    lemma_first_with_id_from_push(l.events, l1.events[n], e.id, 0);
    if x != e.id {
        lemma_first_with_id_from_push_other(l.events, l1.events[n], x, 0);
    }
}

proof fn lemma_first_with_id_from_push_other(ev: Seq<EventView>, y: EventView, id: EventId, k: int)
    requires
        0 <= k <= ev.len(),
        y.id != id,
    ensures
        first_with_id_from(ev.push(y), id, k) == first_with_id_from(ev, id, k),
    decreases ev.len() - k,
{
    if k < ev.len() {
        lemma_first_with_id_from_push_other(ev, y, id, k + 1);
        assert(ev.push(y)[k] == ev[k]);
    } else {
        assert(first_with_id_from(ev.push(y), id, k + 1) is None);
    }
}

/// The id counter's next id is fresh: while it has not saturated, no
/// stored event carries it, so appending an event under it is a new
/// append, never a conflict.
pub proof fn lemma_next_id_is_fresh(l: LedgerView, e: EventView)
    requires
        ids_below_next(l),
        l.next < u64::MAX,
        e.id == EventId(l.next),
    ensures
        first_with_id(l.events, e.id) is None,
        appended(l, e).1 == Ok::<EventId, TranscriptError>(e.id),
        ids_below_next(appended(l, e).0),
{
    lemma_first_with_id_range(l.events, e.id, 0);
    if first_with_id(l.events, e.id) is Some {
        let i = first_with_id(l.events, e.id)->Some_0;
        assert(l.events[i].id.0 < l.next);
    }
    lemma_appended_keeps_ids_below_next(l, e);
}

/// Appending keeps every stored id below the id counter.
pub proof fn lemma_appended_keeps_ids_below_next(l: LedgerView, e: EventView)
    requires
        ids_below_next(l),
    ensures
        ids_below_next(appended(l, e).0),
{
    let l1 = appended(l, e).0;
    if first_with_id(l.events, e.id) is None {
        assert forall|i: int| 0 <= i < l1.events.len() implies #[trigger] l1.events[i].id.0 < l1.next || l1.next == u64::MAX by {
            if i < l.events.len() {
                assert(l1.events[i] == l.events[i]);
            }
        }
    }
}

} // verus!

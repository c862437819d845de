//! The content timeline: items derived from ledger events, with stable ids,
//! and blocks that group them.

use vstd::prelude::*;
use crate::content::ledger::{EventId, EventKind, SemanticEvent, TranscriptError, copy_bytes};
use crate::content::range::SourceRange;

verus! {

#[derive(Clone, Copy, Debug, PartialEq, Eq, Structural, Hash)]
pub struct ContentItemId(pub u64);

#[derive(Clone, Copy, Debug, PartialEq, Eq, Structural)]
pub enum ContentKind {
    TerminalInput,
    TerminalOutput,
    Unstructured,
    Discontinuity,
    Other,
}

/// The timeline kind of an event kind.
pub open spec fn content_kind(k: EventKind) -> ContentKind {
    match k {
        EventKind::TerminalInput => ContentKind::TerminalInput,
        EventKind::TerminalOutput => ContentKind::TerminalOutput,
        EventKind::Unstructured => ContentKind::Unstructured,
        EventKind::Discontinuity => ContentKind::Discontinuity,
        _ => ContentKind::Other,
    }
}

impl From<EventKind> for ContentKind {
    fn from(k: EventKind) -> (r: Self) {
        match k {
            EventKind::TerminalInput => ContentKind::TerminalInput,
            EventKind::TerminalOutput => ContentKind::TerminalOutput,
            EventKind::Unstructured => ContentKind::Unstructured,
            EventKind::Discontinuity => ContentKind::Discontinuity,
            _ => ContentKind::Other,
        }
    }
}

impl vstd::std_specs::convert::FromSpecImpl<EventKind> for ContentKind {
    open spec fn obeys_from_spec() -> bool {
        true
    }

    open spec fn from_spec(k: EventKind) -> ContentKind {
        content_kind(k)
    }
}

#[derive(Clone, Debug, PartialEq, Eq)]
pub struct ContentItem {
    pub id: ContentItemId,
    pub event_id: EventId,
    pub kind: ContentKind,
    pub payload: Vec<u8>,
    pub range: Option<SourceRange>,
    pub truncated: bool,
}

/// A content item as a value.
pub struct ItemView {
    pub id: ContentItemId,
    pub event_id: EventId,
    pub kind: ContentKind,
    pub payload: Seq<u8>,
    pub range: Option<SourceRange>,
    pub truncated: bool,
}

impl ContentItem {
    pub open spec fn view(&self) -> ItemView {
        ItemView {
            id: self.id,
            event_id: self.event_id,
            kind: self.kind,
            payload: self.payload@,
            range: self.range,
            truncated: self.truncated,
        }
    }
}

pub open spec fn items_view(v: Seq<ContentItem>) -> Seq<ItemView> {
    v.map_values(|i: ContentItem| i.view())
}

/// A derived grouping over stable item ids, not over offsets.
#[derive(Clone, Debug, PartialEq, Eq)]
pub struct FlowBlock {
    pub items: Vec<ContentItemId>,
}

#[derive(Clone, Copy, Debug, PartialEq, Eq, Structural)]
pub enum TimelineError {
    Empty,
    MissingItem,
}

impl TimelineError {
    pub fn message(&self) -> (s: String)
        ensures
            s@ == match self {
                TimelineError::Empty => "empty content"@,
                TimelineError::MissingItem => "content item missing"@,
            },
    {
        match self {
            TimelineError::Empty => String::from_str("empty content"),
            TimelineError::MissingItem => String::from_str("content item missing"),
        }
    }
}

impl From<TranscriptError> for TimelineError {
    fn from(e: TranscriptError) -> (r: Self) {
        TimelineError::Empty
    }
}

impl vstd::std_specs::convert::FromSpecImpl<TranscriptError> for TimelineError {
    open spec fn obeys_from_spec() -> bool {
        true
    }

    open spec fn from_spec(e: TranscriptError) -> TimelineError {
        TimelineError::Empty
    }
}

/// The timeline as a value.
pub struct TimelineView {
    pub items: Seq<ItemView>,
    pub next: u64,
}

/// The position of the first item from `k` on with id `id`.
pub open spec fn first_item_from(items: Seq<ItemView>, id: ContentItemId, k: int) -> Option<int>
    decreases items.len() - k,
{
    if k < 0 || k >= items.len() {
        None
    } else if items[k].id == id {
        Some(k)
    } else {
        first_item_from(items, id, k + 1)
    }
}

/// The position of the first item with id `id`.
pub open spec fn first_item(items: Seq<ItemView>, id: ContentItemId) -> Option<int> {
    first_item_from(items, id, 0)
}

/// A position the item search from `k` finds lies at or after `k`, inside
/// the items, and holds an item with that id.
pub proof fn lemma_first_item_range(items: Seq<ItemView>, id: ContentItemId, k: int)
    requires
        0 <= k,
    ensures
        first_item_from(items, id, k) matches Some(i) ==> k <= i < items.len() && items[i].id == id,
    decreases items.len() - k,
{
    if k < items.len() && items[k].id != id {
        lemma_first_item_range(items, id, k + 1);
    }
}

/// Every item id lies below the id counter, unless the counter has
/// saturated at `u64::MAX`. A timeline made by `new` holds this, and
/// appending, extending and marking items keep it.
pub open spec fn item_ids_below_next(t: TimelineView) -> bool {
    forall|i: int| 0 <= i < t.items.len() ==> #[trigger] t.items[i].id.0 < t.next || t.next == u64::MAX
}

proof fn lemma_first_item_from_push(items: Seq<ItemView>, x: ItemView, k: int)
    requires
        0 <= k <= items.len(),
        forall|j: int| k <= j < items.len() ==> items[j].id != x.id,
    ensures
        first_item_from(items.push(x), x.id, k) == Some(items.len() as int),
    decreases items.len() - k,
{
    if k < items.len() {
        lemma_first_item_from_push(items, x, k + 1);
        assert(items.push(x)[k] == items[k]);
    }
}

proof fn lemma_first_item_from_update(items: Seq<ItemView>, i: int, x: ItemView, id: ContentItemId, k: int)
    requires
        0 <= i < items.len(),
        0 <= k,
        x.id == items[i].id,
    ensures
        first_item_from(items.update(i, x), id, k) == first_item_from(items, id, k),
    decreases items.len() - k,
{
    if k < items.len() {
        lemma_first_item_from_update(items, i, x, id, k + 1);
    }
}

/// Item ids are fresh: while the counter has not saturated, the id the
/// next append hands out is held by no earlier item, a lookup of it finds
/// the appended item, and the ids stay below the counter.
pub proof fn lemma_append_item_is_fresh(t: TimelineView, ev: crate::content::ledger::EventView, eid: EventId)
    requires
        item_ids_below_next(t),
        t.next < u64::MAX,
    ensures
        ({
            let id = ContentItemId(t.next);
            let u = TimelineView { items: t.items.push(item_of(id, ev, eid)), next: crate::content::ledger::sat_inc(t.next) };
            &&& forall|i: int| 0 <= i < t.items.len() ==> #[trigger] t.items[i].id != id
            &&& first_item(u.items, id) == Some(t.items.len() as int)
            &&& item_ids_below_next(u)
        }),
{
    let id = ContentItemId(t.next);
    let u = TimelineView { items: t.items.push(item_of(id, ev, eid)), next: crate::content::ledger::sat_inc(t.next) };
    assert forall|i: int| 0 <= i < t.items.len() implies #[trigger] t.items[i].id != id by {
        assert(t.items[i].id.0 < t.next);
    }
    lemma_first_item_from_push(t.items, item_of(id, ev, eid), 0);
    assert forall|i: int| 0 <= i < u.items.len() implies #[trigger] u.items[i].id.0 < u.next || u.next == u64::MAX by {
        if i < t.items.len() {
            assert(u.items[i] == t.items[i]);
        }
    }
}

/// Pushing the item that carries the counter's id keeps the ids below the
/// counter, finds that item on lookup, and keeps every earlier lookup that
/// found something.
pub proof fn lemma_push_keeps_ids(t: TimelineView, x: ItemView)
    requires
        item_ids_below_next(t),
        x.id == ContentItemId(t.next),
    ensures
        item_ids_below_next(TimelineView { items: t.items.push(x), next: crate::content::ledger::sat_inc(t.next) }),
        first_item(t.items.push(x), x.id) is Some,
        forall|id: ContentItemId| #[trigger] first_item(t.items, id) is Some ==> first_item(t.items.push(x), id) is Some,
{
    let u = t.items.push(x);
    let n = crate::content::ledger::sat_inc(t.next);
    assert forall|i: int| 0 <= i < u.len() implies #[trigger] u[i].id.0 < n || n == u64::MAX by {
        if i < t.items.len() {
            assert(u[i] == t.items[i]);
        }
    }
    lemma_first_item_push_found(t.items, x, 0);
    assert forall|id: ContentItemId| #[trigger] first_item(t.items, id) is Some implies first_item(u, id) is Some by {
        lemma_first_item_push_stays(t.items, x, id);
    }
}

proof fn lemma_first_item_push_found(items: Seq<ItemView>, x: ItemView, k: int)
    requires
        0 <= k <= items.len(),
    ensures
        first_item_from(items.push(x), x.id, k) is Some,
    decreases items.len() - k,
{
    if k < items.len() {
        assert(items.push(x)[k] == items[k]);
        if items[k].id != x.id {
            lemma_first_item_push_found(items, x, k + 1);
        }
    } else {
        assert(items.push(x)[k] == x);
    }
}

proof fn lemma_first_item_from_push_stays(items: Seq<ItemView>, x: ItemView, id: ContentItemId, k: int)
    requires
        0 <= k,
        first_item_from(items, id, k) is Some,
    ensures
        first_item_from(items.push(x), id, k) == first_item_from(items, id, k),
    decreases items.len() - k,
{
    if k < items.len() {
        assert(items.push(x)[k] == items[k]);
        if items[k].id != id {
            lemma_first_item_from_push_stays(items, x, id, k + 1);
        }
    }
}

/// An item a lookup found is still found after another item is pushed.
pub proof fn lemma_first_item_push_stays(items: Seq<ItemView>, x: ItemView, id: ContentItemId)
    ensures
        first_item(items, id) is Some ==> first_item(items.push(x), id) == first_item(items, id),
{
    if first_item(items, id) is Some {
        lemma_first_item_from_push_stays(items, x, id, 0);
    }
}

/// Changing an item in place without touching its id keeps the ids below
/// the counter and every lookup as it was: what extending output and
/// marking an item truncated do.
pub proof fn lemma_update_keeps_ids(t: TimelineView, i: int, x: ItemView, id: ContentItemId)
    requires
        0 <= i < t.items.len(),
        x.id == t.items[i].id,
    ensures
        item_ids_below_next(t) ==> item_ids_below_next(TimelineView { items: t.items.update(i, x), ..t }),
        first_item(t.items.update(i, x), id) == first_item(t.items, id),
{
    lemma_first_item_from_update(t.items, i, x, id, 0);
    let u = t.items.update(i, x);
    if item_ids_below_next(t) {
        assert forall|j: int| 0 <= j < u.len() implies #[trigger] u[j].id.0 < t.next || t.next == u64::MAX by {
            assert(u[j].id == t.items[j].id);
        }
    }
}

/// The position of the last input item among the first `k`.
pub open spec fn last_input_before(items: Seq<ItemView>, k: int) -> Option<int>
    decreases k,
{
    if k <= 0 {
        None
    } else if items[k - 1].kind == ContentKind::TerminalInput {
        Some(k - 1)
    } else {
        last_input_before(items, k - 1)
    }
}

/// The position of the last input item.
pub open spec fn last_input_at(items: Seq<ItemView>) -> Option<int> {
    last_input_before(items, items.len() as int)
}

/// The item an event becomes.
pub open spec fn item_of(id: ContentItemId, event: crate::content::ledger::EventView, event_id: EventId) -> ItemView {
    ItemView {
        id,
        event_id,
        kind: content_kind(event.kind),
        payload: event.payload,
        range: event.range,
        truncated: false,
    }
}

/// The ids of the items after position `from` up to the next input item.
pub open spec fn block_rest(items: Seq<ItemView>, from: int) -> Seq<ContentItemId>
    decreases items.len() - from,
{
    if from >= items.len() || from < 0 || items[from].kind == ContentKind::TerminalInput {
        Seq::empty()
    } else {
        seq![items[from].id] + block_rest(items, from + 1)
    }
}

/// The block an input item opens: the input, then the items after it up
/// to the next input.
pub open spec fn block_of(items: Seq<ItemView>, input: ContentItemId) -> Seq<ContentItemId> {
    match first_item(items, input) {
        None => seq![input],
        Some(i) => seq![input] + block_rest(items, i + 1),
    }
}

/// Item `i` after output `bytes` over `range` is appended to it.
pub open spec fn extended(it: ItemView, bytes: Seq<u8>, range: SourceRange) -> ItemView {
    ItemView {
        payload: it.payload + bytes,
        range: match it.range {
            Some(r) => Some(SourceRange { end: range.end, ..r }),
            None => Some(range),
        },
        ..it
    }
}

/// Item `i` after it is marked truncated: a discontinuity carrying the
/// reason, unless it already was one.
pub open spec fn truncated_item(it: ItemView, reason: Seq<u8>) -> ItemView {
    if it.kind != ContentKind::Discontinuity {
        ItemView { truncated: true, kind: ContentKind::Discontinuity, payload: reason, ..it }
    } else {
        ItemView { truncated: true, ..it }
    }
}

pub struct ContentTimeline {
    items: Vec<ContentItem>,
    next: u64,
}

impl ContentTimeline {
    pub closed spec fn view(&self) -> TimelineView {
        TimelineView { items: items_view(self.items@), next: self.next }
    }

    pub fn new() -> (t: Self)
        ensures
            t.view().items == Seq::<ItemView>::empty(),
            t.view().next == 0,
    {
        let t = ContentTimeline { items: Vec::new(), next: 0 };
        assert(t.view().items =~= Seq::<ItemView>::empty());
        t
    }

    fn find(&self, id: ContentItemId) -> (r: Option<usize>)
        ensures
            match r {
                Some(i) => first_item(self.view().items, id) == Some(i as int) && i < self.view().items.len(),
                None => first_item(self.view().items, id) is None,
            },
    {
        let ghost its = self.view().items;
        let mut i: usize = 0;
        while i < self.items.len()
            invariant
                its == self.view().items,
                i <= self.items@.len(),
                first_item(its, id) == first_item_from(its, id, i as int),
            decreases self.items@.len() - i,
        {
            if self.items[i].id.0 == id.0 {
                return Some(i);
            }
            i = i + 1;
        }
        None
    }

    /// Append the item `event` becomes, under the next item id; the id
    /// counter saturates at `u64::MAX`.
    pub fn append_from_event(&mut self, event: &SemanticEvent, event_id: EventId) -> (r: Result<ContentItemId, TimelineError>)
        ensures
            r == Ok::<ContentItemId, TimelineError>(ContentItemId(old(self).view().next)),
            final(self).view() == (TimelineView {
                items: old(self).view().items.push(item_of(ContentItemId(old(self).view().next), event.view(), event_id)),
                next: crate::content::ledger::sat_inc(old(self).view().next),
            }),
    {
        let id = ContentItemId(self.next);
        self.next = self.next.saturating_add(1);
        let ghost before = self.items@;
        let item = ContentItem {
            id,
            event_id,
            kind: ContentKind::from(event.kind),
            payload: copy_bytes(event.payload.as_slice()),
            range: event.range,
            truncated: false,
        };
        self.items.push(item);
        proof {
            assert(items_view(self.items@) =~= items_view(before).push(item.view()));
        }
        Ok(id)
    }

    /// Append `bytes` to the output item `id` and stretch its range to
    /// `range.end` (or give it `range`).
    pub fn extend_output(&mut self, id: ContentItemId, bytes: &[u8], range: SourceRange) -> (r: Result<(), TimelineError>)
        ensures
            match first_item(old(self).view().items, id) {
                None => r == Err::<(), TimelineError>(TimelineError::MissingItem) && final(self).view() == old(self).view(),
                Some(i) => r is Ok && final(self).view() == (TimelineView {
                    items: old(self).view().items.update(i, extended(old(self).view().items[i], bytes@, range)),
                    ..old(self).view()
                }),
            },
    {
        let i = match self.find(id) {
            None => {
                return Err(TimelineError::MissingItem);
            },
            Some(i) => i,
        };
        let ghost before = self.items@;
        let mut payload = copy_bytes(self.items[i].payload.as_slice());
        let mut k: usize = 0;
        let ghost p0 = payload@;
        while k < bytes.len()
            invariant
                k <= bytes@.len(),
                payload@ == p0 + bytes@.subrange(0, k as int),
            decreases bytes@.len() - k,
        {
            payload.push(bytes[k]);
            k = k + 1;
        }
        assert(bytes@.subrange(0, bytes@.len() as int) =~= bytes@);
        let new_range = match self.items[i].range {
            Some(r) => Some(SourceRange { end: range.end, ..r }),
            None => Some(range),
        };
        let item = &mut self.items[i];
        item.payload = payload;
        item.range = new_range;
        proof {
            assert(items_view(self.items@) =~= items_view(before).update(i as int, extended(items_view(before)[i as int], bytes@, range)));
        }
        Ok(())
    }

    /// Mark item `id` truncated: it becomes an explicit discontinuity
    /// carrying `reason`.
    pub fn mark_truncated(&mut self, id: ContentItemId, reason: &[u8]) -> (r: Result<(), TimelineError>)
        ensures
            match first_item(old(self).view().items, id) {
                None => r == Err::<(), TimelineError>(TimelineError::MissingItem) && final(self).view() == old(self).view(),
                Some(i) => r is Ok && final(self).view() == (TimelineView {
                    items: old(self).view().items.update(i, truncated_item(old(self).view().items[i], reason@)),
                    ..old(self).view()
                }),
            },
    {
        let i = match self.find(id) {
            None => {
                return Err(TimelineError::MissingItem);
            },
            Some(i) => i,
        };
        let ghost before = self.items@;
        let item = &mut self.items[i];
        item.truncated = true;
        if item.kind != ContentKind::Discontinuity {
            item.kind = ContentKind::Discontinuity;
            item.payload = copy_bytes(reason);
        }
        proof {
            assert(items_view(self.items@) =~= items_view(before).update(i as int, truncated_item(items_view(before)[i as int], reason@)));
        }
        Ok(())
    }

    /// The first item with id `id`.
    pub fn get(&self, id: ContentItemId) -> (r: Option<&ContentItem>)
        ensures
            match first_item(self.view().items, id) {
                Some(i) => r matches Some(it) && it.view() == self.view().items[i],
                None => r is None,
            },
    {
        match self.find(id) {
            Some(i) => Some(&self.items[i]),
            None => None,
        }
    }

    /// The items, oldest first.
    pub fn items(&self) -> (r: &[ContentItem])
        ensures
            items_view(r@) == self.view().items,
    {
        self.items.as_slice()
    }

    /// The items, oldest first, for in-place edits.
    pub fn items_mut(&mut self) -> (r: &mut [ContentItem])
        ensures
            items_view(r@) == old(self).view().items,
            final(self).view() == (TimelineView { items: items_view(final(r)@), ..old(self).view() }),
    {
        self.items.as_mut_slice()
    }

    /// The newest input item.
    pub fn last_input(&self) -> (r: Option<&ContentItem>)
        ensures
            match last_input_at(self.view().items) {
                Some(i) => r matches Some(it) && it.view() == self.view().items[i],
                None => r is None,
            },
    {
        let ghost its = self.view().items;
        let mut i: usize = self.items.len();
        while i > 0
            invariant
                its == self.view().items,
                i <= self.items@.len(),
                last_input_at(its) == last_input_before(its, i as int),
            decreases i,
        {
            if self.items[i - 1].kind == ContentKind::TerminalInput {
                return Some(&self.items[i - 1]);
            }
            i = i - 1;
        }
        None
    }

    /// The block input item `input` opens: block identity is the set of
    /// item ids, not ring offsets.
    pub fn block_for_input(&self, input: ContentItemId) -> (b: FlowBlock)
        ensures
            b.items@ == block_of(self.view().items, input),
    {
        let mut items: Vec<ContentItemId> = Vec::new();
        items.push(input);
        match self.find(input) {
            None => {
                assert(items@ =~= seq![input]);
            },
            Some(idx) => {
                let ghost its = self.view().items;
                let _n = self.items.len();
                let mut k = idx + 1;
                let ghost head = items@;
                proof {
                    assert(head =~= seq![input]);
                }
                while k < self.items.len()
                    invariant
                        its == self.view().items,
                        idx < its.len(),
                        idx + 1 <= k <= its.len(),
                        head == seq![input],
                        forall|j: int| idx + 1 <= j < k ==> its[j].kind != ContentKind::TerminalInput,
                        head + block_rest(its, idx + 1) == items@ + block_rest(its, k as int),
                    ensures
                        k <= its.len(),
                        head + block_rest(its, idx + 1) == items@ + block_rest(its, k as int),
                        k == its.len() || its[k as int].kind == ContentKind::TerminalInput,
                    decreases its.len() - k,
                {
                    if self.items[k].kind == ContentKind::TerminalInput {
                        break;
                    }
                    let ghost before = items@;
                    items.push(self.items[k].id);
                    proof {
                        assert(block_rest(its, k as int) == seq![its[k as int].id] + block_rest(its, k + 1));
                        assert(before + (seq![its[k as int].id] + block_rest(its, k + 1)) =~= items@ + block_rest(its, k + 1));
                    }
                    k = k + 1;
                }
                proof {
                    assert(block_rest(its, k as int) =~= Seq::<ContentItemId>::empty());
                    assert(items@ + Seq::<ContentItemId>::empty() =~= items@);
                }
            },
        }
        FlowBlock { items }
    }

    /// At most `limit` items starting at position `start`, both clamped to
    /// the timeline.
    pub fn visible_window(&self, start: usize, limit: usize) -> (r: &[ContentItem])
        ensures
            ({
                let n = self.view().items.len();
                let s = if start <= n { start as int } else { n as int };
                let e = if s + limit <= n { s + limit } else { n as int };
                items_view(r@) == self.view().items.subrange(s, e)
            }),
    {
        let n = self.items.len();
        let s = if start <= n {
            start
        } else {
            n
        };
        let e = if limit <= n - s {
            s + limit
        } else {
            n
        };
        let r = vstd::slice::slice_subrange(self.items.as_slice(), s, e);
        proof {
            assert forall|j: int| 0 <= j < r@.len() implies items_view(r@)[j] == self.view().items.subrange(s as int, e as int)[j] by {
                assert(r@[j] == self.items@[s + j]);
            }
            assert(items_view(r@) =~= self.view().items.subrange(s as int, e as int));
        }
        r
    }
}

impl Default for ContentTimeline {
    fn default() -> (t: Self)
        ensures
            t.view().items == Seq::<ItemView>::empty(),
            t.view().next == 0,
    {
        ContentTimeline::new()
    }
}

} // verus!

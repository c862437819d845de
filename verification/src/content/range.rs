//! Source ranges over the hot byte ring, and recovering the bytes of one.

use vstd::prelude::*;
use crate::kernel::ring::{ByteRing, RingView, ring_appended, ring_after, ring_shrunk, ring_wf};

verus! {

/// Absolute ring offsets `start..end` of one generation, with the
/// checkpoint they can be replayed from, if any.
#[derive(Clone, Copy, Debug, PartialEq, Eq, Structural)]
pub struct SourceRange {
    pub generation: u64,
    pub start: u64,
    pub end: u64,
    pub checkpoint_id: Option<u64>,
}

#[derive(Clone, Copy, Debug, PartialEq, Eq, Structural)]
pub enum RangeError {
    Evicted,
    NeedsCheckpoint,
    Truncated,
}

impl RangeError {
    pub fn message(&self) -> (s: String)
        ensures
            s@ == match self {
                RangeError::Evicted => "source range evicted from the hot ring"@,
                RangeError::NeedsCheckpoint => "range starts mid-sequence and needs a compatible checkpoint"@,
                RangeError::Truncated => "source range truncated"@,
            },
    {
        match self {
            RangeError::Evicted => String::from_str("source range evicted from the hot ring"),
            RangeError::NeedsCheckpoint => String::from_str(
                "range starts mid-sequence and needs a compatible checkpoint",
            ),
            RangeError::Truncated => String::from_str("source range truncated"),
        }
    }
}

/// Bounded hot bytes for offset correlation: the newest bytes up to a
/// capacity, at absolute offsets that eviction never renumbers.
pub struct HotRing {
    ring: ByteRing,
}

impl HotRing {
    pub closed spec fn view(&self) -> RingView {
        self.ring@
    }

    /// An empty ring keeping at most `cap` bytes (at least one).
    pub fn new(cap: usize) -> (r: Self)
        ensures
            r.view() == (RingView {
                data: Seq::empty(),
                cap: if cap == 0 {
                    1
                } else {
                    cap as nat
                },
                retained_base: 0,
                end: 0,
            }),
    {
        HotRing { ring: ByteRing::new(cap) }
    }

    pub fn retained_base(&self) -> (b: u64)
        ensures
            b == self.view().retained_base,
            ring_wf(self.view()),
    {
        self.ring.retained_base()
    }

    pub fn end_offset(&self) -> (e: u64)
        ensures
            e == self.view().end,
            ring_wf(self.view()),
    {
        self.ring.end_offset()
    }

    /// How many bytes the ring holds: never more than its capacity.
    pub fn len(&self) -> (n: usize)
        ensures
            n == self.view().data.len(),
            n <= self.view().cap,
            ring_wf(self.view()),
    {
        self.ring.len()
    }

    pub fn snapshot(&self) -> (out: Vec<u8>)
        ensures
            out@ == self.view().data,
            ring_wf(self.view()),
    {
        self.ring.snapshot()
    }

    pub fn append(&mut self, bytes: &[u8])
        ensures
            final(self).view() == ring_appended(old(self).view(), bytes@),
            ring_wf(final(self).view()),
    {
        self.ring.append(bytes);
    }

    /// Lower the capacity to `cap` (at least one), forgetting the oldest
    /// bytes that no longer fit. Offsets are kept: the end stays where it
    /// was and every byte still held keeps its offset.
    pub fn shrink_to(&mut self, cap: usize)
        ensures
            final(self).view() == ring_shrunk(old(self).view(), cap as nat),
            ring_wf(final(self).view()),
    {
        self.ring.shrink_to(cap);
    }

    /// The retained bytes after absolute offset `start`, when `start` lies
    /// between the base and the end.
    pub fn deltas_after(&self, start: u64) -> (r: Option<Vec<u8>>)
        ensures
            match ring_after(self.view(), start as nat) {
                Some(s) => r matches Some(v) && v@ == s,
                None => r is None,
            },
    {
        match self.ring.deltas_after(start) {
            Ok(v) => Some(v),
            Err(_) => None,
        }
    }
}

/// A slice that begins at CSI parameters or a final byte, and holds an
/// escape or a digit: what is left of an escape sequence cut at its start.
pub open spec fn mid_sequence(b: Seq<u8>) -> bool {
    &&& b.len() > 0
    &&& (b[0] == 91 || b[0] == 59 || (48 <= b[0] <= 57) || b[0] == 109 || b[0] == 72)
    &&& exists|i: int| 0 <= i < b.len() && (b[i] == 0x1b || (48 <= #[trigger] b[i] <= 57))
}

/// Whether `bytes` starts in the middle of an escape sequence.
fn starts_mid_sequence(bytes: &[u8]) -> (r: bool)
    ensures
        r == mid_sequence(bytes@),
{
    if bytes.len() == 0 {
        return false;
    }
    let b0 = bytes[0];
    if !(b0 == 91 || b0 == 59 || (48 <= b0 && b0 <= 57) || b0 == 109 || b0 == 72) {
        return false;
    }
    let mut i: usize = 0;
    while i < bytes.len()
        invariant
            i <= bytes@.len(),
            bytes@.len() > 0,
            bytes@[0] == b0,
            b0 == 91 || b0 == 59 || (48 <= b0 && b0 <= 57) || b0 == 109 || b0 == 72,
            forall|j: int| 0 <= j < i ==> !(bytes@[j] == 0x1b || (48 <= #[trigger] bytes@[j] <= 57)),
        decreases bytes@.len() - i,
    {
        let b = bytes[i];
        if b == 0x1b || (48 <= b && b <= 57) {
            return true;
        }
        i = i + 1;
    }
    false
}

/// The bytes of `r` recovered from a ring in state `v`: refused when the
/// start is no longer (or not yet) held, when fewer bytes are held than
/// the range spans, and when the slice starts mid-sequence without a
/// checkpoint to replay from.
pub open spec fn recovered(v: RingView, r: SourceRange) -> Result<Seq<u8>, RangeError> {
    if r.start < v.retained_base {
        Err(RangeError::Evicted)
    } else {
        match ring_after(v, r.start as nat) {
            None => Err(RangeError::Evicted),
            Some(bytes) => {
                let take = (if r.end >= r.start {
                    (r.end - r.start) as u64
                } else {
                    0u64
                }) as usize;
                if take > bytes.len() {
                    Err(RangeError::Truncated)
                } else {
                    let slice = bytes.subrange(0, take as int);
                    if r.checkpoint_id is None && mid_sequence(slice) {
                        Err(RangeError::NeedsCheckpoint)
                    } else {
                        Ok(slice)
                    }
                }
            },
        }
    }
}

/// Reconstruct the bytes of a range from the hot ring.
pub fn recover_range(ring: &HotRing, range: SourceRange) -> (r: Result<Vec<u8>, RangeError>)
    ensures
        match recovered(ring.view(), range) {
            Ok(s) => r matches Ok(v) && v@ == s,
            Err(e) => r == Err::<Vec<u8>, RangeError>(e),
        },
{
    if range.start < ring.retained_base() {
        return Err(RangeError::Evicted);
    }
    let bytes = match ring.deltas_after(range.start) {
        None => {
            return Err(RangeError::Evicted);
        },
        Some(b) => b,
    };
    let take = range.end.saturating_sub(range.start) as usize;
    if take > bytes.len() {
        return Err(RangeError::Truncated);
    }
    let mut slice: Vec<u8> = Vec::new();
    let mut i: usize = 0;
    while i < take
        invariant
            take <= bytes@.len(),
            i <= take,
            slice@ == bytes@.subrange(0, i as int),
        decreases take - i,
    {
        slice.push(bytes[i]);
        i = i + 1;
    }
    if range.checkpoint_id.is_none() && starts_mid_sequence(slice.as_slice()) {
        return Err(RangeError::NeedsCheckpoint);
    }
    Ok(slice)
}

} // verus!

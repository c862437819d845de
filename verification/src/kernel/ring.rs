//! Bounded byte history. Overwrites the oldest bytes when full; offsets are
//! absolute and never renumbered by eviction.

use vstd::prelude::*;
use std::collections::VecDeque;
use crate::kernel::error::Error;

verus! {

/// A ring as a value: the retained bytes, the capacity, the absolute offset
/// of the first retained byte and the offset one past the last byte ever
/// appended.
pub struct RingView {
    pub data: Seq<u8>,
    pub cap: nat,
    pub retained_base: nat,
    pub end: nat,
}

/// `a + b`, saturated at `u64::MAX`.
pub open spec fn sat_add_u64(a: nat, b: nat) -> nat {
    if a + b > u64::MAX {
        u64::MAX as nat
    } else {
        a + b
    }
}

/// The number of bytes a ring of capacity `cap` keeps out of `n`.
pub open spec fn kept(n: nat, cap: nat) -> nat {
    if n <= cap {
        n
    } else {
        cap
    }
}

/// The ring after appending `bytes`: the newest `cap` bytes stay, the end
/// offset counts every byte (saturating at `u64::MAX`), and the base is
/// the end less what stays.
pub open spec fn ring_appended(v: RingView, bytes: Seq<u8>) -> RingView {
    if bytes.len() == 0 {
        v
    } else {
        let all = v.data + bytes;
        let keep = kept(all.len(), v.cap);
        let end = sat_add_u64(v.end, bytes.len());
        RingView {
            data: all.subrange(all.len() - keep, all.len() as int),
            cap: v.cap,
            retained_base: (end - keep) as nat,
            end,
        }
    }
}

/// The ring after its capacity becomes `cap` (at least one): the newest
/// bytes that fit stay, at the offsets they had; the end is unchanged and
/// the base is the end less what stays.
pub open spec fn ring_shrunk(v: RingView, cap: nat) -> RingView {
    let c = if cap == 0 {
        1
    } else {
        cap
    };
    let keep = kept(v.data.len(), c);
    RingView {
        data: v.data.subrange(v.data.len() - keep, v.data.len() as int),
        cap: c,
        retained_base: (v.end - keep) as nat,
        end: v.end,
    }
}

/// The well-formed ring values.
pub open spec fn ring_wf(v: RingView) -> bool {
    &&& 1 <= v.cap <= u64::MAX
    &&& v.data.len() <= v.cap
    &&& v.retained_base + v.data.len() == v.end
    &&& v.end <= u64::MAX
}

/// The retained bytes strictly after absolute offset `start`, when `start`
/// lies between the base and the end.
pub open spec fn ring_after(v: RingView, start: nat) -> Option<Seq<u8>> {
    if start < v.retained_base || start > v.end {
        None
    } else {
        Some(v.data.subrange(start - v.retained_base, v.data.len() as int))
    }
}

pub struct ByteRing {
    data: VecDeque<u8>,
    cap: usize,
    /// Absolute offset of `data[0]`.
    retained_base: u64,
    /// Next offset to assign (exclusive end).
    end: u64,
}

impl View for ByteRing {
    type V = RingView;

    closed spec fn view(&self) -> RingView {
        RingView {
            data: self.data@,
            cap: self.cap as nat,
            retained_base: self.retained_base as nat,
            end: self.end as nat,
        }
    }
}

impl ByteRing {
    #[verifier::type_invariant]
    closed spec fn inv(&self) -> bool {
        ring_wf(self@)
    }

    /// An empty ring keeping at most `cap` bytes (at least one).
    pub fn new(cap: usize) -> (r: ByteRing)
        ensures
            r@ == (RingView {
                data: Seq::empty(),
                cap: if cap == 0 {
                    1
                } else {
                    cap as nat
                },
                retained_base: 0,
                end: 0,
            }),
    {
        ByteRing {
            data: VecDeque::new(),
            cap: if cap == 0 {
                1
            } else {
                cap
            },
            retained_base: 0,
            end: 0,
        }
    }

    pub fn retained_base(&self) -> (b: u64)
        ensures
            b == self@.retained_base,
            ring_wf(self@),
    {
        proof {
            use_type_invariant(self);
        }
        self.retained_base
    }

    pub fn end_offset(&self) -> (e: u64)
        ensures
            e == self@.end,
            ring_wf(self@),
    {
        proof {
            use_type_invariant(self);
        }
        self.end
    }

    pub fn append(&mut self, bytes: &[u8])
        ensures
            final(self)@ == ring_appended(old(self)@, bytes@),
            ring_wf(final(self)@),
    {
        proof {
            use_type_invariant(&*self);
        }
        let n = bytes.len();
        if n == 0 {
            return ;
        }
        let mut taken = ByteRing::new(1);
        std::mem::swap(self, &mut taken);
        let ByteRing { data, cap, retained_base, end } = taken;
        let ghost all = data@ + bytes@;
        let new_end = end.saturating_add(n as u64);
        if n >= cap {
            let mut fresh: VecDeque<u8> = VecDeque::new();
            let mut i = n - cap;
            while i < n
                invariant
                    cap <= n,
                    n - cap <= i <= n,
                    n == bytes@.len(),
                    fresh@ == bytes@.subrange(n - cap, i as int),
                decreases n - i,
            {
                fresh.push_back(bytes[i]);
                i = i + 1;
                assert(fresh@ =~= bytes@.subrange(n - cap, i as int));
            }
            assert(all.subrange(all.len() - cap, all.len() as int) =~= fresh@);
            *self = ByteRing { data: fresh, cap, retained_base: new_end - cap as u64, end: new_end };
            return ;
        }
        let mut data = data;
        let len = data.len();
        let room = cap - n;
        if len > room {
            let overflow = len - room;
            let ghost start = data@;
            let mut k: usize = 0;
            while k < overflow
                invariant
                    k <= overflow,
                    overflow <= len,
                    len == start.len(),
                    data@ == start.subrange(k as int, len as int),
                decreases overflow - k,
            {
                data.pop_front();
                k = k + 1;
                assert(data@ =~= start.subrange(k as int, len as int));
            }
        }
        let ghost mid = data@;
        let mut i: usize = 0;
        while i < n
            invariant
                i <= n,
                n == bytes@.len(),
                data@ == mid + bytes@.subrange(0, i as int),
            decreases n - i,
        {
            data.push_back(bytes[i]);
            i = i + 1;
            assert(data@ =~= mid + bytes@.subrange(0, i as int));
        }
        assert(data@ =~= all.subrange(all.len() - kept(all.len(), cap as nat), all.len() as int));
        let kept_len = data.len() as u64;
        *self = ByteRing { data, cap, retained_base: new_end - kept_len, end: new_end };
    }

    /// Lower the capacity to `cap` (at least one), dropping the oldest bytes
    /// that no longer fit. Offsets are kept: the end stays where it was.
    pub fn shrink_to(&mut self, cap: usize)
        ensures
            final(self)@ == ring_shrunk(old(self)@, cap as nat),
            ring_wf(final(self)@),
    {
        proof {
            use_type_invariant(&*self);
        }
        let c: usize = if cap == 0 {
            1
        } else {
            cap
        };
        let mut taken = ByteRing::new(1);
        std::mem::swap(self, &mut taken);
        let ByteRing { data, cap: _, retained_base, end } = taken;
        let mut data = data;
        let len = data.len();
        let ghost start = data@;
        if len > c {
            let overflow = len - c;
            let mut k: usize = 0;
            while k < overflow
                invariant
                    k <= overflow,
                    overflow <= len,
                    len == start.len(),
                    data@ == start.subrange(k as int, len as int),
                decreases overflow - k,
            {
                data.pop_front();
                k = k + 1;
                assert(data@ =~= start.subrange(k as int, len as int));
            }
        } else {
            assert(data@ =~= start.subrange(0, len as int));
        }
        let kept_len = data.len() as u64;
        *self = ByteRing { data, cap: c, retained_base: end - kept_len, end };
    }

    /// Bytes strictly after `start`, if `start` is still retained.
    pub fn deltas_after(&self, start: u64) -> (r: Result<Vec<u8>, Error>)
        ensures
            match ring_after(self@, start as nat) {
                Some(s) => r matches Ok(v) && v@ == s,
                None => r == Err::<Vec<u8>, Error>(Error::CheckpointEvicted),
            },
    {
        proof {
            use_type_invariant(self);
        }
        if start < self.retained_base {
            return Err(Error::CheckpointEvicted);
        }
        if start > self.end {
            return Err(Error::CheckpointEvicted);
        }
        let skip = (start - self.retained_base) as usize;
        Ok(self.copy_from(skip))
    }

    fn copy_from(&self, skip: usize) -> (out: Vec<u8>)
        requires
            skip <= self@.data.len(),
        ensures
            out@ == self@.data.subrange(skip as int, self@.data.len() as int),
    {
        let len = self.data.len();
        let mut out: Vec<u8> = Vec::new();
        let mut i = skip;
        while i < len
            invariant
                skip <= i <= len,
                len == self.data@.len(),
                out@ == self.data@.subrange(skip as int, i as int),
            decreases len - i,
        {
            out.push(self.data[i]);
            i = i + 1;
            assert(out@ =~= self.data@.subrange(skip as int, i as int));
        }
        out
    }

    pub fn snapshot(&self) -> (out: Vec<u8>)
        ensures
            out@ == self@.data,
            ring_wf(self@),
    {
        proof {
            use_type_invariant(self);
        }
        let out = self.copy_from(0);
        assert(out@ =~= self@.data);
        out
    }

    pub fn len(&self) -> (n: usize)
        ensures
            n == self@.data.len(),
            ring_wf(self@),
    {
        proof {
            use_type_invariant(self);
        }
        self.data.len()
    }

    pub fn is_empty(&self) -> (b: bool)
        ensures
            b <==> self@.data.len() == 0,
    {
        self.data.len() == 0
    }

    pub fn cap(&self) -> (c: usize)
        ensures
            c == self@.cap,
    {
        self.cap
    }
}

/// Appending keeps a ring well formed.
pub proof fn lemma_ring_appended_wf(v: RingView, bytes: Seq<u8>)
    requires
        ring_wf(v),
    ensures
        ring_wf(ring_appended(v, bytes)),
{
}

/// Eviction never renumbers: a byte that stays retained across an append
/// keeps its absolute offset, and each appended byte sits at the offset the
/// end had reached when it arrived.
pub proof fn lemma_ring_offsets_stable(v: RingView, bytes: Seq<u8>, k: nat)
    requires
        ring_wf(v),
        v.end + bytes.len() <= u64::MAX,
        ring_appended(v, bytes).retained_base <= k < v.end + bytes.len(),
    ensures
        ({
            let w = ring_appended(v, bytes);
            &&& w.end == v.end + bytes.len()
            &&& k < v.end ==> v.retained_base <= k && w.data[k - w.retained_base] == v.data[k
                - v.retained_base]
            &&& k >= v.end ==> w.data[k - w.retained_base] == bytes[k - v.end]
        }),
{
}

/// Shrinking never renumbers: the end stays, and every byte still held sits
/// at the offset it had.
pub proof fn lemma_ring_shrink_keeps_offsets(v: RingView, cap: nat, k: nat)
    requires
        ring_wf(v),
        cap <= u64::MAX,
        ring_shrunk(v, cap).retained_base <= k < v.end,
    ensures
        ({
            let w = ring_shrunk(v, cap);
            &&& ring_wf(w)
            &&& w.end == v.end
            &&& v.retained_base <= k
            &&& w.data[k - w.retained_base] == v.data[k - v.retained_base]
        }),
{
    let w = ring_shrunk(v, cap);
    let keep = w.data.len();
    assert(w.data[k - w.retained_base] == v.data[v.data.len() - keep + (k - w.retained_base)]);
}

/// Appending never moves the base back, as long as the end does not
/// saturate.
pub proof fn lemma_ring_base_monotonic(v: RingView, bytes: Seq<u8>)
    requires
        ring_wf(v),
        v.end + bytes.len() <= u64::MAX,
    ensures
        ring_appended(v, bytes).retained_base >= v.retained_base,
        ring_wf(ring_appended(v, bytes)),
{
}

/// What was appended since offset `start` is what a reader asking for the
/// bytes after `start` gets back, as long as the ring still holds them.
pub proof fn lemma_ring_after_append(v: RingView, bytes: Seq<u8>)
    requires
        ring_wf(v),
        v.end + bytes.len() <= u64::MAX,
        bytes.len() <= v.cap,
    ensures
        ring_after(ring_appended(v, bytes), v.end) == Some(bytes),
{
    let w = ring_appended(v, bytes);
    if bytes.len() > 0 {
        let all = v.data + bytes;
        assert(w.data.subrange(v.end - w.retained_base, w.data.len() as int) =~= bytes);
    }
}

} // verus!

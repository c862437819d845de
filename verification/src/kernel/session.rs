//! One session's attach state machine: byte history, credit, the writer
//! seat, queued frames, pending input and the exit status.
//!
//! The PTY is driven by the caller. Each operation here decides what the
//! session state becomes and, where the PTY must act, says what it must do
//! next (`FrameEffect`, `read_budget`, `next_input`); the caller performs the
//! descriptor work and reports back (`deliver`, `input_written`,
//! `winsize_applied`, `observe_exit`).

use vstd::prelude::*;
use std::collections::VecDeque;
use crate::attach::{Frame, FrameView, RefuseReason, frames_view};
use crate::kernel::checkpoint::{StoredCheckpoint, CheckpointView};
use crate::kernel::error::Error;
use crate::kernel::pty::Winsize;
use crate::kernel::ring::{ByteRing, RingView, ring_appended, ring_after, ring_wf};

verus! {

/// Byte history kept per session.
pub const RING_CAP: usize = 4 * 1024 * 1024;

/// Largest single PTY read.
pub const READ_BUF: usize = 64 * 1024;

/// Journal entries kept; the oldest is dropped beyond this.
pub const JOURNAL_CAP: usize = 4096;

/// Ordered record of what the kernel did, so ordering can be asserted by
/// sequence number instead of by timing.
#[derive(Clone, Copy, Debug, PartialEq, Eq, Structural)]
pub enum IoEvent {
    PtyWrite(usize),
    PtyRead(usize),
    Winsize(Winsize),
    ChildExit(i32),
}

/// Where the last input stands: downstream of the PTY write, not of a
/// copied input buffer.
#[derive(Clone, Copy, Debug, PartialEq, Eq, Structural)]
pub enum InputDelivery {
    Pending,
    Dispatched,
    Unknown,
}

/// Verified kernel identity for one leaf. One local kernel only.
#[derive(Clone, Copy, Debug, PartialEq, Eq, Structural)]
pub enum HostIdentity {
    Local,
}

impl HostIdentity {
    /// The identity as the cold identity socket sends it.
    pub fn as_wire(self) -> (b: Vec<u8>)
        ensures
            b@ == seq![0x6cu8, 0x6f, 0x63, 0x61, 0x6c, 0x0a],
    {
        match self {
            HostIdentity::Local => vec![0x6cu8, 0x6f, 0x63, 0x61, 0x6c, 0x0a],
        }
    }

    pub fn as_str(self) -> (s: &'static str)
        ensures
            s@ == "local"@,
    {
        match self {
            HostIdentity::Local => "local",
        }
    }
}

/// What the PTY must do after a frame was applied.
#[derive(Clone, Copy, Debug, PartialEq, Eq, Structural)]
pub enum FrameEffect {
    /// Nothing.
    Done,
    /// Write every pending input buffer (`next_input`, then
    /// `input_written` after each write).
    FlushInput,
    /// Write every pending input buffer first, then `set_size`, apply the
    /// size to the PTY, then `winsize_applied`. Input queued before a resize
    /// reaches the child before the new geometry does.
    Resize(Winsize),
}

/// A session as a value.
pub struct SessionView {
    pub ring: RingView,
    pub attach_generation: Option<u64>,
    pub credit: u64,
    pub outbound: Seq<FrameView>,
    pub pending_input: Seq<Seq<u8>>,
    pub child_exit: Option<i32>,
    pub exit_delivered: bool,
    pub resync_pending: bool,
    pub resync_count: u32,
    pub stalled_reads: u64,
    pub bytes_delivered: u64,
    pub journal: Seq<(u64, IoEvent)>,
    pub seq: u64,
    pub size: Winsize,
    pub last_delivery: InputDelivery,
    pub observers: u32,
    pub terminated: bool,
    pub checkpoint: Option<CheckpointView>,
}

pub open spec fn sat_u64(x: int) -> u64 {
    if x > u64::MAX {
        u64::MAX
    } else {
        x as u64
    }
}

pub open spec fn sat_u32(x: int) -> u32 {
    if x > u32::MAX {
        u32::MAX
    } else {
        x as u32
    }
}

/// Someone receives output: the writer or at least one observer.
pub open spec fn has_listeners(v: SessionView) -> bool {
    v.attach_generation is Some || v.observers > 0
}

/// The session after journaling `e` under the next sequence number.
pub open spec fn recorded(v: SessionView, e: IoEvent) -> SessionView {
    let seq: u64 = if v.seq == u64::MAX {
        0
    } else {
        (v.seq + 1) as u64
    };
    let kept = if v.journal.len() >= JOURNAL_CAP {
        v.journal.drop_first()
    } else {
        v.journal
    };
    SessionView { seq, journal: kept.push((seq, e)), ..v }
}

/// Applying one inbound frame.
pub open spec fn on_frame_spec(v: SessionView, f: FrameView) -> (
    SessionView,
    Result<FrameEffect, Error>,
) {
    match f {
        FrameView::Attach { generation, observe, .. } => if observe {
            (SessionView { observers: sat_u32(v.observers + 1), ..v }, Ok(FrameEffect::Done))
        } else if v.attach_generation is Some {
            (
                SessionView {
                    outbound: v.outbound.push(
                        FrameView::Refused { reason: RefuseReason::AlreadyAttached },
                    ),
                    ..v
                },
                Ok(FrameEffect::Done),
            )
        } else {
            let w = SessionView {
                attach_generation: Some(generation),
                resync_pending: true,
                ..v
            };
            match v.child_exit {
                Some(status) => (
                    SessionView {
                        outbound: w.outbound.push(FrameView::Exit { status }),
                        exit_delivered: true,
                        ..w
                    },
                    Ok(FrameEffect::Done),
                ),
                None => (w, Ok(FrameEffect::Done)),
            }
        },
        FrameView::Credit(n) => (
            SessionView { credit: sat_u64(v.credit + n), ..v },
            Ok(FrameEffect::Done),
        ),
        FrameView::Resize { cols, rows, px_w, px_h } => (
            v,
            Ok(FrameEffect::Resize(Winsize { cols, rows, px_w, px_h })),
        ),
        FrameView::Data(b) => if v.child_exit is Some {
            (v, Err(Error::Dead))
        } else {
            (
                SessionView {
                    last_delivery: InputDelivery::Pending,
                    pending_input: v.pending_input.push(b),
                    ..v
                },
                Ok(FrameEffect::FlushInput),
            )
        },
        _ => (v, Ok(FrameEffect::Done)),
    }
}

/// Bytes read from the PTY: history, credit, counters, journal, and a DATA
/// frame when someone listens.
pub open spec fn delivered(v: SessionView, bytes: Seq<u8>) -> SessionView {
    let w = recorded(
        SessionView {
            ring: ring_appended(v.ring, bytes),
            credit: (v.credit - bytes.len()) as u64,
            bytes_delivered: sat_u64(v.bytes_delivered + bytes.len()),
            ..v
        },
        IoEvent::PtyRead(bytes.len() as usize),
    );
    if has_listeners(v) {
        SessionView { outbound: w.outbound.push(FrameView::Data(bytes)), ..w }
    } else {
        w
    }
}

/// The child observed dead with `status`. The status is kept; it is queued
/// as an EXIT frame only if someone listens, and replayed on the next
/// writer attach otherwise.
pub open spec fn exited(v: SessionView, status: i32) -> SessionView {
    let w = recorded(SessionView { child_exit: Some(status), ..v }, IoEvent::ChildExit(status));
    if has_listeners(v) {
        SessionView { outbound: w.outbound.push(FrameView::Exit { status }), exit_delivered: true, ..w }
    } else {
        w
    }
}

/// The frames of `s` that are not DATA, in order.
pub open spec fn control_frames(s: Seq<FrameView>) -> Seq<FrameView> {
    s.filter(|f: FrameView| !(f is Data))
}

proof fn lemma_control_frames_step(s: Seq<FrameView>, i: int)
    requires
        0 <= i < s.len(),
    ensures
        control_frames(s.subrange(0, i + 1)) == if s[i] is Data {
            control_frames(s.subrange(0, i))
        } else {
            control_frames(s.subrange(0, i)).push(s[i])
        },
{
    reveal(Seq::filter);
    assert(s.subrange(0, i + 1).drop_last() =~= s.subrange(0, i));
}

/// Detaching: the writer seat and credit go, unsent input is abandoned
/// (delivery becomes unknown), queued DATA is dropped, every control frame
/// stays queued.
pub open spec fn detached(v: SessionView) -> SessionView {
    let w = SessionView {
        attach_generation: None,
        credit: 0,
        outbound: control_frames(v.outbound),
        ..v
    };
    if v.pending_input.len() > 0 {
        SessionView { last_delivery: InputDelivery::Unknown, pending_input: Seq::empty(), ..w }
    } else {
        w
    }
}

pub struct SessionCore {
    ring: ByteRing,
    attach_generation: Option<u64>,
    credit: u64,
    outbound: VecDeque<Frame>,
    pending_input: VecDeque<Vec<u8>>,
    child_exit: Option<i32>,
    exit_delivered: bool,
    resync_pending: bool,
    resync_count: u32,
    stalled_reads: u64,
    bytes_delivered: u64,
    journal: VecDeque<(u64, IoEvent)>,
    seq: u64,
    size: Winsize,
    last_delivery: InputDelivery,
    observers: u32,
    terminated: bool,
    checkpoint: Option<StoredCheckpoint>,
}

pub open spec fn pending_view(q: Seq<Vec<u8>>) -> Seq<Seq<u8>> {
    q.map_values(|b: Vec<u8>| b@)
}

pub open spec fn checkpoint_view(c: Option<StoredCheckpoint>) -> Option<CheckpointView> {
    match c {
        Some(x) => Some(x@),
        None => None,
    }
}

impl View for SessionCore {
    type V = SessionView;

    closed spec fn view(&self) -> SessionView {
        SessionView {
            ring: self.ring@,
            attach_generation: self.attach_generation,
            credit: self.credit,
            outbound: frames_view(self.outbound@),
            pending_input: pending_view(self.pending_input@),
            child_exit: self.child_exit,
            exit_delivered: self.exit_delivered,
            resync_pending: self.resync_pending,
            resync_count: self.resync_count,
            stalled_reads: self.stalled_reads,
            bytes_delivered: self.bytes_delivered,
            journal: self.journal@,
            seq: self.seq,
            size: self.size,
            last_delivery: self.last_delivery,
            observers: self.observers,
            terminated: self.terminated,
            checkpoint: checkpoint_view(self.checkpoint),
        }
    }
}

impl SessionCore {
    /// A fresh session of the given size: empty history, no writer, no
    /// credit, input delivery unknown.
    pub fn new(size: Winsize) -> (s: SessionCore)
        ensures
            s@.ring == (RingView {
                data: Seq::empty(),
                cap: RING_CAP as nat,
                retained_base: 0,
                end: 0,
            }),
            s@.attach_generation is None,
            s@.credit == 0,
            s@.outbound.len() == 0,
            s@.pending_input.len() == 0,
            s@.child_exit is None,
            !s@.exit_delivered,
            !s@.resync_pending,
            s@.resync_count == 0,
            s@.stalled_reads == 0,
            s@.bytes_delivered == 0,
            s@.journal.len() == 0,
            s@.seq == 0,
            s@.size == size,
            s@.last_delivery == InputDelivery::Unknown,
            s@.observers == 0,
            !s@.terminated,
            s@.checkpoint is None,
    {
        let s = SessionCore {
            ring: ByteRing::new(RING_CAP),
            attach_generation: None,
            credit: 0,
            outbound: VecDeque::new(),
            pending_input: VecDeque::new(),
            child_exit: None,
            exit_delivered: false,
            resync_pending: false,
            resync_count: 0,
            stalled_reads: 0,
            bytes_delivered: 0,
            journal: VecDeque::new(),
            seq: 0,
            size,
            last_delivery: InputDelivery::Unknown,
            observers: 0,
            terminated: false,
            checkpoint: None,
        };
        assert(frames_view(s.outbound@) =~= Seq::<FrameView>::empty());
        assert(pending_view(s.pending_input@) =~= Seq::<Seq<u8>>::empty());
        s
    }

    pub fn host_identity(&self) -> (h: HostIdentity)
        ensures
            h == HostIdentity::Local,
    {
        HostIdentity::Local
    }

    /// Whether the PTY may be read now: credit remains and the child is
    /// alive. Only such sessions are polled for output.
    pub fn wants_read(&self) -> (b: bool)
        ensures
            b <==> self@.credit > 0 && self@.child_exit is None,
    {
        self.credit > 0 && self.child_exit.is_none()
    }

    pub fn attached(&self) -> (b: bool)
        ensures
            b <==> self@.attach_generation is Some,
    {
        self.attach_generation.is_some()
    }

    pub fn child_alive(&self) -> (b: bool)
        ensures
            b <==> self@.child_exit is None,
    {
        self.child_exit.is_none()
    }

    pub fn exit_status(&self) -> (s: Option<i32>)
        ensures
            s == self@.child_exit,
    {
        self.child_exit
    }

    pub fn history(&self) -> (h: Vec<u8>)
        ensures
            h@ == self@.ring.data,
    {
        self.ring.snapshot()
    }

    pub fn end_offset(&self) -> (e: u64)
        ensures
            e == self@.ring.end,
    {
        self.ring.end_offset()
    }

    pub fn retained_base(&self) -> (b: u64)
        ensures
            b == self@.ring.retained_base,
    {
        self.ring.retained_base()
    }

    pub fn credit(&self) -> (c: u64)
        ensures
            c == self@.credit,
    {
        self.credit
    }

    /// Times a PTY read was skipped because credit was exhausted.
    pub fn stalled_reads(&self) -> (n: u64)
        ensures
            n == self@.stalled_reads,
    {
        self.stalled_reads
    }

    pub fn bytes_delivered(&self) -> (n: u64)
        ensures
            n == self@.bytes_delivered,
    {
        self.bytes_delivered
    }

    /// One per writer attach, whatever the number of keystrokes.
    pub fn resync_count(&self) -> (n: u32)
        ensures
            n == self@.resync_count,
    {
        self.resync_count
    }

    pub fn io_journal(&self) -> (j: Vec<(u64, IoEvent)>)
        ensures
            j@ == self@.journal,
    {
        let len = self.journal.len();
        let mut out: Vec<(u64, IoEvent)> = Vec::new();
        let mut i: usize = 0;
        while i < len
            invariant
                i <= len,
                len == self.journal@.len(),
                out@ == self.journal@.subrange(0, i as int),
            decreases len - i,
        {
            out.push(self.journal[i]);
            i = i + 1;
            assert(out@ =~= self.journal@.subrange(0, i as int));
        }
        assert(out@ =~= self.journal@);
        out
    }

    pub fn last_delivery(&self) -> (d: InputDelivery)
        ensures
            d == self@.last_delivery,
    {
        self.last_delivery
    }

    pub fn size(&self) -> (w: Winsize)
        ensures
            w == self@.size,
    {
        self.size
    }

    pub fn is_terminated(&self) -> (b: bool)
        ensures
            b == self@.terminated,
    {
        self.terminated
    }

    /// Marks the session terminated; true when it was not already, that is
    /// when the caller must now tear the PTY down.
    pub fn mark_terminated(&mut self) -> (first: bool)
        ensures
            first == !old(self)@.terminated,
            final(self)@ == (SessionView { terminated: true, ..old(self)@ }),
    {
        let first = !self.terminated;
        self.terminated = true;
        first
    }

    pub fn release_observer(&mut self)
        ensures
            final(self)@ == (SessionView {
                observers: if old(self)@.observers == 0 {
                    0
                } else {
                    (old(self)@.observers - 1) as u32
                },
                ..old(self)@
            }),
    {
        self.observers = self.observers.saturating_sub(1);
    }

    pub fn enqueue_outbound(&mut self, frame: Frame)
        ensures
            final(self)@ == (SessionView {
                outbound: old(self)@.outbound.push(frame@),
                ..old(self)@
            }),
    {
        let ghost before = self.outbound@;
        self.outbound.push_back(frame);
        assert(frames_view(self.outbound@) =~= frames_view(before).push(frame@));
    }

    pub fn pop_outbound(&mut self) -> (f: Option<Frame>)
        ensures
            old(self)@.outbound.len() == 0 ==> f is None && final(self)@ == old(self)@,
            old(self)@.outbound.len() > 0 ==> (f matches Some(x) && x@ == old(self)@.outbound[0]
                && final(self)@ == (SessionView {
                outbound: old(self)@.outbound.drop_first(),
                ..old(self)@
            })),
    {
        let ghost before = self.outbound@;
        let f = self.outbound.pop_front();
        proof {
            if before.len() > 0 {
                assert(frames_view(self.outbound@) =~= frames_view(before).drop_first());
            }
        }
        f
    }

    fn record(&mut self, event: IoEvent)
        ensures
            final(self)@ == recorded(old(self)@, event),
    {
        self.seq = self.seq.wrapping_add(1);
        let ghost before = self.journal@;
        if self.journal.len() >= JOURNAL_CAP {
            self.journal.pop_front();
        }
        let seq = self.seq;
        self.journal.push_back((seq, event));
        proof {
            let kept = if before.len() >= JOURNAL_CAP {
                before.drop_first()
            } else {
                before
            };
            assert(self.journal@ =~= kept.push((seq, event)));
        }
    }

    /// Install a host-captured VT checkpoint; an incompatible format is
    /// refused and nothing changes.
    pub fn install_checkpoint(&mut self, rec: StoredCheckpoint) -> (r: Result<(), Error>)
        ensures
            rec.format_version == crate::kernel::checkpoint::CHECKPOINT_FORMAT_VERSION ==> r is Ok
                && final(self)@ == (SessionView { checkpoint: Some(rec@), ..old(self)@ }),
            rec.format_version != crate::kernel::checkpoint::CHECKPOINT_FORMAT_VERSION ==> r
                == Err::<(), Error>(Error::IncompatibleCheckpoint) && final(self)@ == old(self)@,
    {
        rec.check_compatible()?;
        self.checkpoint = Some(rec);
        Ok(())
    }

    /// Recovery export: the last checkpoint and the retained bytes after it.
    pub fn recovery(&self) -> (r: Result<(StoredCheckpoint, Vec<u8>), Error>)
        ensures
            match self@.checkpoint {
                None => r == Err::<(StoredCheckpoint, Vec<u8>), Error>(Error::NoCheckpoint),
                Some(cp) => match ring_after(self@.ring, cp.ending_offset as nat) {
                    None => r == Err::<(StoredCheckpoint, Vec<u8>), Error>(
                        Error::CheckpointEvicted,
                    ),
                    Some(d) => r matches Ok(x) && x.0@ == cp && x.1@ == d,
                },
            },
    {
        match &self.checkpoint {
            None => Err(Error::NoCheckpoint),
            Some(cp) => {
                let deltas = self.ring.deltas_after(cp.ending_offset)?;
                Ok((cp.copy(), deltas))
            },
        }
    }

    /// The history snapshot owed to a freshly attached writer, once.
    pub fn take_resync_history(&mut self) -> (h: Option<Vec<u8>>)
        ensures
            !old(self)@.resync_pending ==> h is None && final(self)@ == old(self)@,
            old(self)@.resync_pending ==> (h matches Some(b) && b@ == old(self)@.ring.data
                && final(self)@ == (SessionView {
                resync_pending: false,
                resync_count: sat_u32(old(self)@.resync_count + 1),
                ..old(self)@
            })),
    {
        if !self.resync_pending {
            return None;
        }
        self.resync_pending = false;
        self.resync_count = self.resync_count.saturating_add(1);
        Some(self.ring.snapshot())
    }

    /// Apply one inbound attach frame. Total; never panics.
    pub fn on_frame(&mut self, frame: Frame) -> (r: Result<FrameEffect, Error>)
        ensures
            (final(self)@, r) == on_frame_spec(old(self)@, frame@),
    {
        match frame {
            Frame::Attach { generation, session_id: _, protocol: _, observe } => {
                if observe {
                    self.observers = self.observers.saturating_add(1);
                    return Ok(FrameEffect::Done);
                }
                if self.attach_generation.is_some() {
                    self.enqueue_outbound(Frame::Refused { reason: RefuseReason::AlreadyAttached });
                    return Ok(FrameEffect::Done);
                }
                self.attach_generation = Some(generation);
                self.resync_pending = true;
                // Replay a death the previous client never learned about.
                if let Some(status) = self.child_exit {
                    self.enqueue_outbound(Frame::Exit { status });
                    self.exit_delivered = true;
                }
                Ok(FrameEffect::Done)
            },
            Frame::Credit(n) => {
                self.credit = self.credit.saturating_add(n as u64);
                Ok(FrameEffect::Done)
            },
            Frame::Resize { cols, rows, px_w, px_h } => {
                Ok(FrameEffect::Resize(Winsize { cols, rows, px_w, px_h }))
            },
            Frame::Data(bytes) => {
                if self.child_exit.is_some() {
                    return Err(Error::Dead);
                }
                self.last_delivery = InputDelivery::Pending;
                let ghost before = self.pending_input@;
                let ghost b = bytes@;
                self.pending_input.push_back(bytes);
                assert(pending_view(self.pending_input@) =~= pending_view(before).push(b));
                Ok(FrameEffect::FlushInput)
            },
            Frame::Exit { .. } => Ok(FrameEffect::Done),
            Frame::Refused { .. } => Ok(FrameEffect::Done),
            Frame::Checkpoint { .. } => Ok(FrameEffect::Done),
            Frame::Delta { .. } => Ok(FrameEffect::Done),
            Frame::ResyncRequest => Ok(FrameEffect::Done),
        }
    }

    /// The next input buffer to write to the PTY, in arrival order.
    pub fn next_input(&mut self) -> (b: Option<Vec<u8>>)
        ensures
            old(self)@.pending_input.len() == 0 ==> b is None && final(self)@ == old(self)@,
            old(self)@.pending_input.len() > 0 ==> (b matches Some(x) && x@
                == old(self)@.pending_input[0] && final(self)@ == (SessionView {
                pending_input: old(self)@.pending_input.drop_first(),
                ..old(self)@
            })),
    {
        let ghost before = self.pending_input@;
        let b = self.pending_input.pop_front();
        proof {
            if before.len() > 0 {
                assert(pending_view(self.pending_input@) =~= pending_view(before).drop_first());
            }
        }
        b
    }

    /// A buffer of `len` bytes reached the PTY.
    pub fn input_written(&mut self, len: usize)
        ensures
            final(self)@ == (SessionView {
                last_delivery: InputDelivery::Dispatched,
                ..recorded(old(self)@, IoEvent::PtyWrite(len))
            }),
    {
        self.record(IoEvent::PtyWrite(len));
        self.last_delivery = InputDelivery::Dispatched;
    }

    /// The geometry a resize frame named becomes the session's size.
    pub fn set_size(&mut self, size: Winsize)
        ensures
            final(self)@ == (SessionView { size, ..old(self)@ }),
    {
        self.size = size;
    }

    /// The PTY now has the session's size.
    pub fn winsize_applied(&mut self)
        ensures
            final(self)@ == recorded(old(self)@, IoEvent::Winsize(old(self)@.size)),
    {
        let size = self.size;
        self.record(IoEvent::Winsize(size));
    }

    /// How many bytes the PTY may be read for: none while credit is
    /// exhausted (counted as a stalled read), else the credit up to
    /// `READ_BUF`. The kernel stops reading rather than dropping bytes.
    pub fn read_budget(&mut self) -> (n: usize)
        ensures
            old(self)@.credit == 0 ==> n == 0 && final(self)@ == (SessionView {
                stalled_reads: sat_u64(old(self)@.stalled_reads + 1),
                ..old(self)@
            }),
            old(self)@.credit > 0 ==> final(self)@ == old(self)@ && n == (if old(self)@.credit
                < READ_BUF {
                old(self)@.credit as usize
            } else {
                READ_BUF
            }),
    {
        if self.credit == 0 {
            self.stalled_reads = self.stalled_reads.saturating_add(1);
            return 0;
        }
        if self.credit < READ_BUF as u64 {
            self.credit as usize
        } else {
            READ_BUF
        }
    }

    /// Bytes read from the PTY within the read budget.
    pub fn deliver(&mut self, bytes: Vec<u8>)
        requires
            0 < bytes@.len() <= old(self)@.credit,
        ensures
            final(self)@ == delivered(old(self)@, bytes@),
    {
        let n = bytes.len();
        let ghost b = bytes@;
        let listening = self.attach_generation.is_some() || self.observers > 0;
        self.ring.append(bytes.as_slice());
        self.credit = self.credit - n as u64;
        self.bytes_delivered = self.bytes_delivered.saturating_add(n as u64);
        self.record(IoEvent::PtyRead(n));
        if listening {
            self.enqueue_outbound(Frame::Data(bytes));
        }
    }

    /// The child was observed to exit with `status`. True on the first
    /// observation; later ones change nothing.
    pub fn observe_exit(&mut self, status: i32) -> (first: bool)
        ensures
            first <==> old(self)@.child_exit is None,
            first ==> final(self)@ == exited(old(self)@, status),
            !first ==> final(self)@ == old(self)@,
    {
        if self.child_exit.is_some() {
            return false;
        }
        let listening = self.attach_generation.is_some() || self.observers > 0;
        self.child_exit = Some(status);
        self.record(IoEvent::ChildExit(status));
        if listening {
            self.enqueue_outbound(Frame::Exit { status });
            self.exit_delivered = true;
        }
        true
    }

    /// Detach must not destroy a pending EXIT: only DATA is dropped, since a
    /// reattaching client resyncs from history instead.
    pub fn detach(&mut self)
        ensures
            final(self)@ == detached(old(self)@),
    {
        self.attach_generation = None;
        self.credit = 0;
        if self.pending_input.len() > 0 {
            self.last_delivery = InputDelivery::Unknown;
            self.pending_input = VecDeque::new();
            assert(pending_view(self.pending_input@) =~= Seq::<Seq<u8>>::empty());
        }
        let mut queue: VecDeque<Frame> = VecDeque::new();
        std::mem::swap(&mut self.outbound, &mut queue);
        let ghost src = frames_view(queue@);
        let mut kept: VecDeque<Frame> = VecDeque::new();
        let n_exec = queue.len();
        let ghost n = n_exec as nat;
        let mut i: usize = 0;
        proof {
            reveal(Seq::filter);
            assert(src.subrange(0, n as int) =~= src);
            assert(control_frames(src.subrange(0, 0)) =~= Seq::<FrameView>::empty());
            assert(frames_view(kept@) =~= Seq::<FrameView>::empty());
        }
        while queue.len() > 0
            invariant
                i + queue@.len() == n,
                n == n_exec,
                src.len() == n,
                frames_view(queue@) == src.subrange(i as int, n as int),
                frames_view(kept@) == control_frames(src.subrange(0, i as int)),
            decreases queue@.len(),
        {
            let ghost rest = queue@;
            let f = queue.pop_front().unwrap();
            proof {
                assert(frames_view(rest)[0] == rest[0]@);
                assert(src.subrange(i as int, n as int)[0] == src[i as int]);
                assert(f@ == src[i as int]);
                assert forall|j: int| 0 <= j < queue@.len() implies frames_view(
                    queue@,
                )[j] == src.subrange(i + 1, n as int)[j] by {
                    assert(queue@[j] == rest[j + 1]);
                    assert(frames_view(rest)[j + 1] == rest[j + 1]@);
                    assert(src.subrange(i as int, n as int)[j + 1] == src[i + 1 + j]);
                }
                assert(frames_view(queue@) =~= src.subrange(i + 1, n as int));
                lemma_control_frames_step(src, i as int);
            }
            let is_data = match &f {
                Frame::Data(_) => true,
                _ => false,
            };
            let ghost kept_before = kept@;
            if !is_data {
                kept.push_back(f);
                assert(frames_view(kept@) =~= frames_view(kept_before).push(src[i as int]));
            }
            i = i + 1;
        }
        assert(src.subrange(0, n as int) =~= src);
        self.outbound = kept;
    }
}

/// A child that dies while nobody is attached is not lost: its status is
/// kept without queuing anything, and the next writer attach queues the
/// EXIT frame.
pub proof fn lemma_exit_replayed_on_reattach(v: SessionView, status: i32, generation: u64, protocol: u8)
    requires
        v.attach_generation is None,
        v.observers == 0,
        v.child_exit is None,
    ensures
        ({
            let w = exited(v, status);
            let attach = FrameView::Attach { generation, session_id: None, protocol, observe: false };
            let u = on_frame_spec(w, attach).0;
            &&& w.outbound == v.outbound
            &&& u.outbound == v.outbound.push(FrameView::Exit { status })
            &&& u.attach_generation == Some(generation)
        }),
{
}

/// Detaching drops only DATA: every control frame queued before it, an EXIT
/// among them, is still queued after it, in order.
pub proof fn lemma_detach_keeps_control_frames(v: SessionView, i: int)
    requires
        0 <= i < v.outbound.len(),
        !(v.outbound[i] is Data),
    ensures
        detached(v).outbound.contains(v.outbound[i]),
        detached(v).attach_generation is None,
        detached(v).credit == 0,
{
    v.outbound.lemma_filter_contains(|f: FrameView| !(f is Data), i);
}

/// A second writer is refused: the seat keeps its first holder and the
/// client is told why.
pub proof fn lemma_second_writer_refused(v: SessionView, generation: u64, protocol: u8, session_id: Option<u64>)
    requires
        v.attach_generation is Some,
    ensures
        ({
            let attach = FrameView::Attach { generation, session_id, protocol, observe: false };
            let u = on_frame_spec(v, attach).0;
            &&& u.attach_generation == v.attach_generation
            &&& u.outbound == v.outbound.push(
                FrameView::Refused { reason: RefuseReason::AlreadyAttached },
            )
        }),
{
}

/// Resync is a cold path: only a writer attach that takes an empty seat
/// asks for a history resync. Every other frame, keystrokes among them,
/// leaves the pending resync and the resync count as they were.
pub proof fn lemma_resync_only_on_attach(v: SessionView, f: FrameView)
    ensures
        on_frame_spec(v, f).0.resync_count == v.resync_count,
        on_frame_spec(v, f).0.resync_pending != v.resync_pending ==> ((f matches FrameView::Attach {
            observe,
            ..
        } && !observe) && v.attach_generation is None && !v.resync_pending),
{
}

/// Backpressure: a delivery consumes exactly its length in credit, so the
/// bytes read never exceed the credit granted.
pub proof fn lemma_delivery_consumes_credit(v: SessionView, bytes: Seq<u8>)
    requires
        0 < bytes.len() <= v.credit,
        ring_wf(v.ring),
    ensures
        delivered(v, bytes).credit + bytes.len() == v.credit,
        ring_wf(delivered(v, bytes).ring),
{
}

/// Credit accumulates: a CREDIT frame adds its grant to the credit already
/// outstanding, saturating at `u64::MAX`, and touches nothing else. Two
/// grants in a row add up; a later grant never replaces an earlier one.
pub proof fn lemma_credit_accumulates(v: SessionView, a: u32, b: u32)
    ensures
        ({
            let (w, r) = on_frame_spec(v, FrameView::Credit(a));
            &&& r == Ok::<FrameEffect, Error>(FrameEffect::Done)
            &&& v.credit + a <= u64::MAX ==> w.credit == v.credit + a
            &&& v.credit + a > u64::MAX ==> w.credit == u64::MAX
            &&& w.credit >= v.credit
            &&& w.credit >= a
            &&& (SessionView { credit: v.credit, ..w }) == v
        }),
        ({
            let w2 = on_frame_spec(on_frame_spec(v, FrameView::Credit(a)).0, FrameView::Credit(b)).0;
            &&& v.credit + a + b <= u64::MAX ==> w2.credit == v.credit + a + b
            &&& v.credit + a + b > u64::MAX ==> w2.credit == u64::MAX
        }),
{
}

/// Whoever listens gets the output: when a writer holds the seat or any
/// observer is attached, the delivered bytes are queued as one DATA frame
/// after what was already queued; with nobody listening nothing is queued.
/// Either way the bytes join the history and consume their credit.
pub proof fn lemma_listeners_receive_output(v: SessionView, bytes: Seq<u8>)
    requires
        0 < bytes.len() <= v.credit,
    ensures
        (v.attach_generation is Some || v.observers > 0) ==> delivered(v, bytes).outbound == v.outbound.push(
            FrameView::Data(bytes),
        ),
        (v.attach_generation is None && v.observers == 0) ==> delivered(v, bytes).outbound == v.outbound,
        delivered(v, bytes).ring == ring_appended(v.ring, bytes),
        delivered(v, bytes).credit + bytes.len() == v.credit,
{
}

} // verus!

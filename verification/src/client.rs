//! The attach client's decisions: what it queues for the kernel, what it
//! does with each frame it receives, its credit and its warm-path audit.
//! The socket and the emulator are the caller's: it writes the queued
//! bytes, feeds the emulator the data it is handed, and reports what was
//! written and fed.

use vstd::prelude::*;
use std::collections::VecDeque;
use crate::attach::{Decoder, Frame, FrameView, frame_bytes, payload_of, drain, frames_view, MAX_FRAME};
use crate::host::Error;

verus! {

/// Initial credit window: the client replenishes as it feeds, so the kernel
/// can apply backpressure.
pub const CREDIT_WINDOW: u32 = 262144;

/// The client as a value.
pub struct ClientView {
    pub pending: Seq<u8>,
    pub alive: bool,
    pub exit_status: Option<i32>,
    pub outbox: Seq<u8>,
    pub outstanding_credit: u64,
    pub warm_path_violations: u32,
    pub auditing: bool,
}

/// `a + 1`, saturated at `u32::MAX`.
pub open spec fn bump(a: u32) -> u32 {
    if a == u32::MAX {
        a
    } else {
        (a + 1) as u32
    }
}

/// `c` after queueing `f`: a frame other than data or credit counts against
/// the warm path while auditing; its wire bytes join the outbox unless the
/// frame is too large to encode.
pub open spec fn sent(c: ClientView, f: FrameView) -> (ClientView, Result<(), Error>) {
    let c1 = if c.auditing && !(f is Data || f is Credit) {
        ClientView { warm_path_violations: bump(c.warm_path_violations), ..c }
    } else {
        c
    };
    if payload_of(f).len() > MAX_FRAME {
        (c1, Err(Error::Attach(crate::attach::Error::TooLarge(payload_of(f).len() as usize))))
    } else {
        (ClientView { outbox: c1.outbox + frame_bytes(f), ..c1 }, Ok(()))
    }
}

/// `c` after granting `n` more credit: the outstanding credit grows
/// (saturating) and a credit frame is queued.
pub open spec fn granted(c: ClientView, n: u32) -> (ClientView, Result<(), Error>) {
    let total = c.outstanding_credit + n;
    let c1 = ClientView {
        outstanding_credit: if total > u64::MAX { u64::MAX } else { total as u64 },
        ..c
    };
    sent(c1, FrameView::Credit(n))
}

/// What one received frame does: data is handed to the emulator; an exit
/// marks the pane dead with its status; anything else counts against the
/// warm path while auditing, and a refusal is an error.
pub open spec fn received(c: ClientView, f: FrameView) -> (ClientView, Result<Option<Seq<u8>>, Error>) {
    match f {
        FrameView::Data(b) => (c, Ok(Some(b))),
        FrameView::Exit { status } => (
            ClientView {
                alive: false,
                exit_status: Some(status),
                warm_path_violations: if c.auditing { bump(c.warm_path_violations) } else { c.warm_path_violations },
                ..c
            },
            Ok(None),
        ),
        _ => {
            let c1 = ClientView {
                warm_path_violations: if c.auditing { bump(c.warm_path_violations) } else { c.warm_path_violations },
                ..c
            };
            if f is Refused {
                (c1, Err(Error::Refused))
            } else {
                (c1, Ok(None))
            }
        },
    }
}

/// A client that has not yet spoken.
pub open spec fn fresh_client() -> ClientView {
    ClientView {
        pending: Seq::empty(),
        alive: true,
        exit_status: None,
        outbox: Seq::empty(),
        outstanding_credit: 0,
        warm_path_violations: 0,
        auditing: false,
    }
}

/// The frame that attaches the daemon's default leaf.
pub open spec fn default_attach() -> FrameView {
    FrameView::Attach { generation: 1, session_id: None, protocol: crate::attach::PROTOCOL_VERSION, observe: false }
}

pub struct ClientCore {
    decoder: Decoder,
    alive: bool,
    exit_status: Option<i32>,
    outbox: VecDeque<u8>,
    outstanding_credit: u64,
    warm_path_violations: u32,
    auditing: bool,
}

impl ClientCore {
    pub closed spec fn view(&self) -> ClientView {
        ClientView {
            pending: self.decoder@,
            alive: self.alive,
            exit_status: self.exit_status,
            outbox: self.outbox@,
            outstanding_credit: self.outstanding_credit,
            warm_path_violations: self.warm_path_violations,
            auditing: self.auditing,
        }
    }

    /// A client that has not yet spoken.
    pub fn new() -> (c: Self)
        ensures
            c.view() == fresh_client(),
    {
        ClientCore {
            decoder: Decoder::new(),
            alive: true,
            exit_status: None,
            outbox: VecDeque::new(),
            outstanding_credit: 0,
            warm_path_violations: 0,
            auditing: false,
        }
    }

    /// A client as it connects: the default-leaf attach queued, then the
    /// initial credit window granted.
    pub fn connecting() -> (r: Result<ClientCore, Error>)
        ensures
            r matches Ok(c) && c.view() == granted(sent(fresh_client(), default_attach()).0, CREDIT_WINDOW).0,
    {
        let mut c = ClientCore::new();
        let f = Frame::attach(1, None);
        proof {
            crate::wire::lemma_le_bytes_len(1, 8);
            crate::wire::lemma_le_bytes_len(CREDIT_WINDOW as nat, 4);
            assert(payload_of(default_attach()).len() <= MAX_FRAME);
            assert(payload_of(FrameView::Credit(CREDIT_WINDOW)).len() <= MAX_FRAME);
        }
        match c.send(f) {
            Ok(()) => {},
            Err(e) => {
                return Err(e);
            },
        }
        match c.grant_credit(CREDIT_WINDOW) {
            Ok(()) => {},
            Err(e) => {
                return Err(e);
            },
        }
        Ok(c)
    }

    pub fn alive(&self) -> (b: bool)
        ensures
            b == self.view().alive,
    {
        self.alive
    }

    pub fn exit_status(&self) -> (s: Option<i32>)
        ensures
            s == self.view().exit_status,
    {
        self.exit_status
    }

    pub fn outstanding_credit(&self) -> (n: u64)
        ensures
            n == self.view().outstanding_credit,
    {
        self.outstanding_credit
    }

    pub fn begin_warm_path_audit(&mut self)
        ensures
            final(self).view() == (ClientView { warm_path_violations: 0, auditing: true, ..old(self).view() }),
    {
        self.warm_path_violations = 0;
        self.auditing = true;
    }

    pub fn end_warm_path_audit(&mut self) -> (n: u32)
        ensures
            n == old(self).view().warm_path_violations,
            final(self).view() == (ClientView { auditing: false, ..old(self).view() }),
    {
        self.auditing = false;
        self.warm_path_violations
    }

    pub fn warm_path_violations(&self) -> (n: u32)
        ensures
            n == self.view().warm_path_violations,
    {
        self.warm_path_violations
    }

    /// Queue `frame` for the kernel.
    pub fn send(&mut self, frame: Frame) -> (r: Result<(), Error>)
        ensures
            (final(self).view(), r) == sent(old(self).view(), frame@),
    {
        if self.auditing && !frame.is_warm_path() {
            self.warm_path_violations = self.warm_path_violations.saturating_add(1);
        }
        let bytes = match frame.encode() {
            Ok(b) => b,
            Err(e) => {
                return Err(Error::Attach(e));
            },
        };
        let ghost start = self.outbox@;
        let ghost v0 = self.view();
        let mut i: usize = 0;
        while i < bytes.len()
            invariant
                i <= bytes@.len(),
                self.outbox@ == start + bytes@.subrange(0, i as int),
                self.view() == (ClientView { outbox: self.outbox@, ..v0 }),
            decreases bytes@.len() - i,
        {
            self.outbox.push_back(bytes[i]);
            i = i + 1;
            assert(self.outbox@ =~= start + bytes@.subrange(0, i as int));
        }
        assert(bytes@.subrange(0, bytes@.len() as int) =~= bytes@);
        Ok(())
    }

    /// Grant the kernel `n` more bytes of credit.
    pub fn grant_credit(&mut self, n: u32) -> (r: Result<(), Error>)
        ensures
            (final(self).view(), r) == granted(old(self).view(), n),
    {
        self.outstanding_credit = self.outstanding_credit.saturating_add(n as u64);
        self.send(Frame::Credit(n))
    }

    /// Queue keystrokes; a dead pane refuses them.
    pub fn send_input(&mut self, bytes: &[u8]) -> (r: Result<(), Error>)
        ensures
            !old(self).view().alive ==> r == Err::<(), Error>(Error::Dead) && final(self).view() == old(self).view(),
            old(self).view().alive ==> (final(self).view(), r) == sent(old(self).view(), FrameView::Data(bytes@)),
    {
        if !self.alive {
            return Err(Error::Dead);
        }
        self.send(Frame::Data(crate::content::ledger::copy_bytes(bytes)))
    }

    /// Buffer bytes read from the socket and decode every complete frame.
    pub fn decode(&mut self, bytes: &[u8]) -> (r: Result<Vec<Frame>, Error>)
        ensures
            final(self).view() == (ClientView { pending: drain(old(self).view().pending + bytes@).1, ..old(self).view() }),
            match drain(old(self).view().pending + bytes@).0 {
                Ok(fs) => r matches Ok(v) && frames_view(v@) == fs,
                Err(e) => r == Err::<Vec<Frame>, Error>(Error::Attach(e)),
            },
    {
        match self.decoder.push(bytes) {
            Ok(v) => Ok(v),
            Err(e) => Err(Error::Attach(e)),
        }
    }

    /// Act on one received frame. Data comes back for the emulator.
    pub fn on_frame(&mut self, frame: Frame) -> (r: Result<Option<Vec<u8>>, Error>)
        ensures
            final(self).view() == received(old(self).view(), frame@).0,
            match received(old(self).view(), frame@).1 {
                Ok(Some(b)) => r matches Ok(Some(v)) && v@ == b,
                Ok(None) => r matches Ok(None),
                Err(e) => r == Err::<Option<Vec<u8>>, Error>(e),
            },
    {
        match frame {
            Frame::Data(bytes) => Ok(Some(bytes)),
            Frame::Exit { status } => {
                self.alive = false;
                self.exit_status = Some(status);
                if self.auditing {
                    self.warm_path_violations = self.warm_path_violations.saturating_add(1);
                }
                Ok(None)
            },
            other => {
                if self.auditing {
                    self.warm_path_violations = self.warm_path_violations.saturating_add(1);
                }
                match other {
                    Frame::Refused { .. } => Err(Error::Refused),
                    _ => Ok(None),
                }
            },
        }
    }

    /// After a pump: replenish exactly the credit the emulator consumed.
    pub fn finish_pump(&mut self, fed: usize) -> (r: Result<(), Error>)
        ensures
            fed == 0 ==> r is Ok && final(self).view() == old(self).view(),
            fed > 0 ==> (final(self).view(), r) == granted(
                old(self).view(),
                if fed > u32::MAX { u32::MAX } else { fed as u32 },
            ),
    {
        if fed == 0 {
            return Ok(());
        }
        let give: u32 = if fed > u32::MAX as usize {
            u32::MAX
        } else {
            fed as u32
        };
        self.grant_credit(give)
    }

    /// The bytes still to be written to the socket.
    pub fn outbox(&self) -> (b: Vec<u8>)
        ensures
            b@ == self.view().outbox,
    {
        let mut b: Vec<u8> = Vec::new();
        let mut i: usize = 0;
        while i < self.outbox.len()
            invariant
                i <= self.outbox@.len(),
                b@ == self.outbox@.subrange(0, i as int),
            decreases self.outbox@.len() - i,
        {
            b.push(self.outbox[i]);
            i = i + 1;
        }
        assert(b@ =~= self.outbox@);
        b
    }

    /// The socket took the first `n` queued bytes.
    pub fn written(&mut self, n: usize)
        requires
            n <= old(self).view().outbox.len(),
        ensures
            final(self).view() == (ClientView { outbox: old(self).view().outbox.skip(n as int), ..old(self).view() }),
    {
        let ghost start = self.outbox@;
        let ghost v0 = self.view();
        let mut k: usize = 0;
        while k < n
            invariant
                k <= n,
                n <= start.len(),
                self.outbox@ == start.skip(k as int),
                self.view() == (ClientView { outbox: self.outbox@, ..v0 }),
            decreases n - k,
        {
            self.outbox.pop_front();
            k = k + 1;
            assert(self.outbox@ =~= start.skip(k as int));
        }
    }
}

/// The cell size for a resize: the pixel size over the cell count, a zero
/// count taken as one.
pub fn cell_size(cols: u16, rows: u16, px_w: u16, px_h: u16) -> (r: (u32, u32))
    ensures
        r.0 == (px_w as u32) / (if cols == 0 { 1u32 } else { cols as u32 }),
        r.1 == (px_h as u32) / (if rows == 0 { 1u32 } else { rows as u32 }),
{
    let c: u32 = if cols == 0 { 1 } else { cols as u32 };
    let r: u32 = if rows == 0 { 1 } else { rows as u32 };
    ((px_w as u32) / c, (px_h as u32) / r)
}

/// Once the pane has reported its exit, keystrokes are refused: whatever
/// frame is received next, and however many, the pane stays dead.
pub proof fn lemma_exit_is_final(c: ClientView, status: i32, f: FrameView)
    ensures
        !received(c, FrameView::Exit { status }).0.alive,
        received(c, FrameView::Exit { status }).0.exit_status == Some(status),
        !c.alive ==> !received(c, f).0.alive,
{
}

/// Warm-path frames never count as violations: queueing data or credit
/// leaves the audit counter as it was.
pub proof fn lemma_warm_frames_are_free(c: ClientView, f: FrameView)
    requires
        f is Data || f is Credit,
    ensures
        sent(c, f).0.warm_path_violations == c.warm_path_violations,
{
}

} // verus!

//! Framed attach codec for a byte stream.
//!
//! Layout: one tag byte, the payload length as a little-endian `u32`, then
//! the payload. Not JSON, not cells.

use vstd::prelude::*;
use crate::text::{decimal, decimal_chars, string_from_chars};
use crate::wire::{
    le_bytes, le_value, lemma_le_bytes_len, lemma_le_bytes_of_value, lemma_le_value_bound, lemma_le_value_of_bytes,
    lemma_pow256_values, pow256, push_le, read_le,
};

verus! {

pub const MAX_FRAME: usize = 4 * 1024 * 1024;

/// Attach protocol this tree speaks. 8- and 16-byte attach payloads imply it.
pub const PROTOCOL_VERSION: u8 = 1;

/// Independent client credit, checkpoints and deltas.
pub const PROTOCOL_2: u8 = 2;

/// `flags` bit 0 of an 18-byte attach payload: observe, not a second writer.
pub const ATTACH_FLAG_OBSERVE: u8 = 1;

/// The read-only companion socket for cold kernel identity queries: the
/// attach socket's full name with `.identity` appended.
pub fn cold_identity_socket_path(attach_socket: &str) -> (path: String)
    ensures
        path@ == attach_socket@ + ".identity"@,
{
    let mut path = String::from_str(attach_socket);
    path.append(".identity");
    path
}

/// Cold container-tree projection for chrome: the attach socket's full name
/// with `.nav` appended.
pub fn cold_nav_socket_path(attach_socket: &str) -> (path: String)
    ensures
        path@ == attach_socket@ + ".nav"@,
{
    let mut path = String::from_str(attach_socket);
    path.append(".nav");
    path
}

/// Cold content snapshot socket: the attach socket's full name with
/// `.content` appended.
pub fn cold_content_socket_path(attach_socket: &str) -> (path: String)
    ensures
        path@ == attach_socket@ + ".content"@,
{
    let mut path = String::from_str(attach_socket);
    path.append(".content");
    path
}

/// What `Path::file_name` gives for path `p`, as text.
pub uninterp spec fn path_file_name(p: Seq<char>) -> Option<Seq<char>>;

/// What `Path::with_file_name` gives for path `p` and file name `name`.
pub uninterp spec fn path_with_file_name(p: Seq<char>, name: Seq<char>) -> Seq<char>;

/// What `Path::with_extension` gives for path `p` and extension `ext`.
pub uninterp spec fn path_with_extension(p: Seq<char>, ext: Seq<char>) -> Seq<char>;

/// `Path::file_name` of `p`: its final component, unless the path ends in
/// `..` or has none. A name taken from UTF-8 text converts back losslessly.
#[verifier::external_body]
fn file_name_of(p: &str) -> (r: Option<String>)
    ensures
        match r {
            Some(n) => path_file_name(p@) == Some(n@),
            None => path_file_name(p@) is None,
        },
{
    std::path::Path::new(p).file_name().map(|n| n.to_string_lossy().into_owned())
}

/// `Path::with_file_name`: `p` with its file name replaced by `name`.
#[verifier::external_body]
fn with_file_name_of(p: &str, name: &str) -> (r: String)
    ensures
        r@ == path_with_file_name(p@, name@),
{
    std::path::Path::new(p).with_file_name(name).to_string_lossy().into_owned()
}

/// `Path::with_extension`: `p` with its extension set to `ext`. It panics
/// on an extension holding a path separator, so none is admitted.
#[verifier::external_body]
fn with_extension_of(p: &str, ext: &str) -> (r: String)
    requires
        forall|i: int| 0 <= i < ext@.len() ==> ext@[i] != '/',
    ensures
        r@ == path_with_extension(p@, ext@),
{
    std::path::Path::new(p).with_extension(ext).to_string_lossy().into_owned()
}

/// The worker listener's file name for an attach socket named `name`:
/// the name with `.worker` appended.
pub fn worker_file_name(name: &str) -> (r: String)
    ensures
        r@ == name@ + ".worker"@,
{
    let mut n = String::from_str(name);
    n.append(".worker");
    n
}

/// The internal worker listener: a sibling of the attach socket named
/// after it with `.worker` appended.
pub fn worker_socket_path(attach_socket: &str) -> (path: String)
    ensures
        path@ == match path_file_name(attach_socket@) {
            Some(n) => path_with_file_name(attach_socket@, n + ".worker"@),
            None => path_with_extension(attach_socket@, "worker"@),
        },
{
    match file_name_of(attach_socket) {
        Some(name) => {
            let n = worker_file_name(name.as_str());
            with_file_name_of(attach_socket, n.as_str())
        },
        None => {
            proof {
                reveal_strlit("worker");
            }
            with_extension_of(attach_socket, "worker")
        },
    }
}

#[derive(Clone, Copy, Debug, PartialEq, Eq, Structural)]
pub enum Tag {
    Data,
    Credit,
    Resize,
    Exit,
    Attach,
    Refused,
    /// Cold checkpoint blob. Not warm-path.
    Checkpoint,
    /// Ordered bytes strictly after a checkpoint offset.
    Delta,
    /// Client requests a new checkpoint after a hash mismatch.
    ResyncRequest,
}

/// The wire byte of each tag.
pub open spec fn tag_byte(t: Tag) -> u8 {
    match t {
        Tag::Data => 1,
        Tag::Credit => 2,
        Tag::Resize => 3,
        Tag::Exit => 4,
        Tag::Attach => 5,
        Tag::Refused => 6,
        Tag::Checkpoint => 7,
        Tag::Delta => 8,
        Tag::ResyncRequest => 9,
    }
}

/// The tag a wire byte names, if any.
pub open spec fn tag_of_byte(v: u8) -> Option<Tag> {
    if v == 1 {
        Some(Tag::Data)
    } else if v == 2 {
        Some(Tag::Credit)
    } else if v == 3 {
        Some(Tag::Resize)
    } else if v == 4 {
        Some(Tag::Exit)
    } else if v == 5 {
        Some(Tag::Attach)
    } else if v == 6 {
        Some(Tag::Refused)
    } else if v == 7 {
        Some(Tag::Checkpoint)
    } else if v == 8 {
        Some(Tag::Delta)
    } else if v == 9 {
        Some(Tag::ResyncRequest)
    } else {
        None
    }
}

impl Tag {
    pub fn from_u8(v: u8) -> (r: Result<Tag, Error>)
        ensures
            match tag_of_byte(v) {
                Some(t) => r == Ok::<Tag, Error>(t),
                None => r == Err::<Tag, Error>(Error::UnknownTag(v)),
            },
    {
        match v {
            1 => Ok(Tag::Data),
            2 => Ok(Tag::Credit),
            3 => Ok(Tag::Resize),
            4 => Ok(Tag::Exit),
            5 => Ok(Tag::Attach),
            6 => Ok(Tag::Refused),
            7 => Ok(Tag::Checkpoint),
            8 => Ok(Tag::Delta),
            9 => Ok(Tag::ResyncRequest),
            other => Err(Error::UnknownTag(other)),
        }
    }

    /// The wire byte of this tag.
    pub fn as_u8(self) -> (b: u8)
        ensures
            b == tag_byte(self),
    {
        match self {
            Tag::Data => 1,
            Tag::Credit => 2,
            Tag::Resize => 3,
            Tag::Exit => 4,
            Tag::Attach => 5,
            Tag::Refused => 6,
            Tag::Checkpoint => 7,
            Tag::Delta => 8,
            Tag::ResyncRequest => 9,
        }
    }
}

#[derive(Clone, Copy, Debug, PartialEq, Eq, Structural)]
pub enum RefuseReason {
    AlreadyAttached,
    Invalid,
    ProtocolMismatch,
}

/// The wire byte of each refusal reason.
pub open spec fn reason_byte(r: RefuseReason) -> u8 {
    match r {
        RefuseReason::AlreadyAttached => 1,
        RefuseReason::Invalid => 2,
        RefuseReason::ProtocolMismatch => 3,
    }
}

/// The refusal reason a wire byte names, if any.
pub open spec fn reason_of_byte(v: u8) -> Option<RefuseReason> {
    if v == 1 {
        Some(RefuseReason::AlreadyAttached)
    } else if v == 2 {
        Some(RefuseReason::Invalid)
    } else if v == 3 {
        Some(RefuseReason::ProtocolMismatch)
    } else {
        None
    }
}

impl RefuseReason {
    pub fn from_u8(v: u8) -> (r: Result<RefuseReason, Error>)
        ensures
            match reason_of_byte(v) {
                Some(x) => r == Ok::<RefuseReason, Error>(x),
                None => r == Err::<RefuseReason, Error>(Error::UnknownRefuse(v)),
            },
    {
        match v {
            1 => Ok(RefuseReason::AlreadyAttached),
            2 => Ok(RefuseReason::Invalid),
            3 => Ok(RefuseReason::ProtocolMismatch),
            other => Err(Error::UnknownRefuse(other)),
        }
    }

    /// The wire byte of this reason.
    pub fn as_u8(self) -> (b: u8)
        ensures
            b == reason_byte(self),
    {
        match self {
            RefuseReason::AlreadyAttached => 1,
            RefuseReason::Invalid => 2,
            RefuseReason::ProtocolMismatch => 3,
        }
    }
}

/// Codec errors. Socket errors are the caller's, not the codec's.
#[derive(Clone, Copy, Debug, PartialEq, Eq, Structural)]
pub enum Error {
    UnknownTag(u8),
    UnknownRefuse(u8),
    Truncated,
    TooLarge(usize),
}

/// The human-readable text of an attach error, with the offending tag,
/// reason byte or length in decimal.
pub open spec fn error_text(e: Error) -> Seq<char> {
    match e {
        Error::UnknownTag(t) => "unknown attach tag "@ + decimal(t as nat),
        Error::UnknownRefuse(r) => "unknown refuse reason "@ + decimal(r as nat),
        Error::Truncated => "truncated attach frame"@,
        Error::TooLarge(n) => "attach frame too large ("@ + decimal(n as nat) + " bytes)"@,
    }
}

/// `prefix` followed by `n` in decimal.
fn with_number(prefix: &str, n: u64) -> (s: String)
    ensures
        s@ == prefix@ + decimal(n as nat),
{
    let mut s = String::from_str(prefix);
    let digits = string_from_chars(decimal_chars(n));
    s.append(digits.as_str());
    s
}

impl Error {
    /// Human-readable form of the error.
    pub fn message(&self) -> (s: String)
        ensures
            s@ == error_text(*self),
    {
        match self {
            Error::UnknownTag(t) => with_number("unknown attach tag ", *t as u64),
            Error::UnknownRefuse(r) => with_number("unknown refuse reason ", *r as u64),
            Error::Truncated => String::from_str("truncated attach frame"),
            Error::TooLarge(n) => {
                let mut s = with_number("attach frame too large (", *n as u64);
                s.append(" bytes)");
                s
            },
        }
    }
}

#[derive(Clone, Debug, PartialEq, Eq)]
pub enum Frame {
    Data(Vec<u8>),
    Credit(u32),
    Resize { cols: u16, rows: u16, px_w: u16, px_h: u16 },
    Exit { status: i32 },
    Attach {
        generation: u64,
        /// `None` is the 8-byte payload: attach the daemon's default leaf.
        /// `Some` is a kernel session id.
        session_id: Option<u64>,
        /// 8- and 16-byte payloads imply `PROTOCOL_VERSION`.
        protocol: u8,
        /// Observe rather than claim the writer seat.
        observe: bool,
    },
    Refused { reason: RefuseReason },
    Checkpoint { ending_offset: u64, hash: u64, blob: Vec<u8> },
    Delta { start_offset: u64, bytes: Vec<u8> },
    ResyncRequest,
}

/// A frame as a mathematical value: byte vectors become sequences.
pub enum FrameView {
    Data(Seq<u8>),
    Credit(u32),
    Resize { cols: u16, rows: u16, px_w: u16, px_h: u16 },
    Exit { status: i32 },
    Attach { generation: u64, session_id: Option<u64>, protocol: u8, observe: bool },
    Refused { reason: RefuseReason },
    Checkpoint { ending_offset: u64, hash: u64, blob: Seq<u8> },
    Delta { start_offset: u64, bytes: Seq<u8> },
    ResyncRequest,
}

impl View for Frame {
    type V = FrameView;

    open spec fn view(&self) -> FrameView {
        match self {
            Frame::Data(b) => FrameView::Data(b@),
            Frame::Credit(n) => FrameView::Credit(*n),
            Frame::Resize { cols, rows, px_w, px_h } => FrameView::Resize {
                cols: *cols,
                rows: *rows,
                px_w: *px_w,
                px_h: *px_h,
            },
            Frame::Exit { status } => FrameView::Exit { status: *status },
            Frame::Attach { generation, session_id, protocol, observe } => FrameView::Attach {
                generation: *generation,
                session_id: *session_id,
                protocol: *protocol,
                observe: *observe,
            },
            Frame::Refused { reason } => FrameView::Refused { reason: *reason },
            Frame::Checkpoint { ending_offset, hash, blob } => FrameView::Checkpoint {
                ending_offset: *ending_offset,
                hash: *hash,
                blob: blob@,
            },
            Frame::Delta { start_offset, bytes } => FrameView::Delta {
                start_offset: *start_offset,
                bytes: bytes@,
            },
            Frame::ResyncRequest => FrameView::ResyncRequest,
        }
    }
}

/// The frames of a vector, as values.
pub open spec fn frames_view(v: Seq<Frame>) -> Seq<FrameView> {
    v.map_values(|f: Frame| f@)
}

pub open spec fn tag_of(f: FrameView) -> Tag {
    match f {
        FrameView::Data(_) => Tag::Data,
        FrameView::Credit(_) => Tag::Credit,
        FrameView::Resize { .. } => Tag::Resize,
        FrameView::Exit { .. } => Tag::Exit,
        FrameView::Attach { .. } => Tag::Attach,
        FrameView::Refused { .. } => Tag::Refused,
        FrameView::Checkpoint { .. } => Tag::Checkpoint,
        FrameView::Delta { .. } => Tag::Delta,
        FrameView::ResyncRequest => Tag::ResyncRequest,
    }
}

/// An attach payload carries the protocol and flags bytes when it differs
/// from the protocol-1 writer default.
pub open spec fn attach_extra(protocol: u8, observe: bool) -> bool {
    protocol != PROTOCOL_VERSION || observe
}

pub open spec fn flags_byte(observe: bool) -> u8 {
    if observe {
        ATTACH_FLAG_OBSERVE
    } else {
        0
    }
}

/// The payload each frame is written as.
pub open spec fn payload_of(f: FrameView) -> Seq<u8> {
    match f {
        FrameView::Data(b) => b,
        FrameView::Credit(n) => le_bytes(n as nat, 4),
        FrameView::Resize { cols, rows, px_w, px_h } => le_bytes(cols as nat, 2) + le_bytes(
            rows as nat,
            2,
        ) + le_bytes(px_w as nat, 2) + le_bytes(px_h as nat, 2),
        FrameView::Exit { status } => le_bytes(i32_bits(status), 4),
        FrameView::Attach { generation, session_id, protocol, observe } => {
            let tail = if attach_extra(protocol, observe) {
                seq![protocol, flags_byte(observe)]
            } else {
                Seq::empty()
            };
            match session_id {
                Some(id) => le_bytes(generation as nat, 8) + le_bytes(id as nat, 8) + tail,
                None => if attach_extra(protocol, observe) {
                    le_bytes(generation as nat, 8) + le_bytes(0, 8) + tail
                } else {
                    le_bytes(generation as nat, 8)
                },
            }
        },
        FrameView::Refused { reason } => seq![reason_byte(reason)],
        FrameView::Checkpoint { ending_offset, hash, blob } => le_bytes(ending_offset as nat, 8)
            + le_bytes(hash as nat, 8) + blob,
        FrameView::Delta { start_offset, bytes } => le_bytes(start_offset as nat, 8) + bytes,
        FrameView::ResyncRequest => Seq::empty(),
    }
}

/// The bytes a frame is written as: tag, length, payload.
pub open spec fn frame_bytes(f: FrameView) -> Seq<u8> {
    seq![tag_byte(tag_of(f))] + le_bytes(payload_of(f).len(), 4) + payload_of(f)
}

/// What `Frame::decode` yields for a tag and a payload.
pub open spec fn decode_spec(tag: Tag, p: Seq<u8>) -> Result<FrameView, Error> {
    match tag {
        Tag::Data => Ok(FrameView::Data(p)),
        Tag::Credit => if p.len() != 4 {
            Err(Error::Truncated)
        } else {
            Ok(FrameView::Credit(le_value(p) as u32))
        },
        Tag::Resize => if p.len() != 8 {
            Err(Error::Truncated)
        } else {
            Ok(
                FrameView::Resize {
                    cols: le_value(p.subrange(0, 2)) as u16,
                    rows: le_value(p.subrange(2, 4)) as u16,
                    px_w: le_value(p.subrange(4, 6)) as u16,
                    px_h: le_value(p.subrange(6, 8)) as u16,
                },
            )
        },
        Tag::Exit => if p.len() != 4 {
            Err(Error::Truncated)
        } else {
            Ok(FrameView::Exit { status: i32_of_bits(le_value(p)) })
        },
        Tag::Attach => if p.len() == 8 {
            Ok(
                FrameView::Attach {
                    generation: le_value(p) as u64,
                    session_id: None,
                    protocol: PROTOCOL_VERSION,
                    observe: false,
                },
            )
        } else if p.len() == 16 {
            Ok(
                FrameView::Attach {
                    generation: le_value(p.subrange(0, 8)) as u64,
                    session_id: Some(le_value(p.subrange(8, 16)) as u64),
                    protocol: PROTOCOL_VERSION,
                    observe: false,
                },
            )
        } else if p.len() == 18 {
            let raw_id = le_value(p.subrange(8, 16)) as u64;
            Ok(
                FrameView::Attach {
                    generation: le_value(p.subrange(0, 8)) as u64,
                    session_id: if raw_id == 0 {
                        None
                    } else {
                        Some(raw_id)
                    },
                    protocol: p[16],
                    observe: p[17] % 2 == 1,
                },
            )
        } else {
            Err(Error::Truncated)
        },
        Tag::Refused => if p.len() != 1 {
            Err(Error::Truncated)
        } else {
            match reason_of_byte(p[0]) {
                Some(r) => Ok(FrameView::Refused { reason: r }),
                None => Err(Error::UnknownRefuse(p[0])),
            }
        },
        Tag::Checkpoint => if p.len() < 16 {
            Err(Error::Truncated)
        } else {
            Ok(
                FrameView::Checkpoint {
                    ending_offset: le_value(p.subrange(0, 8)) as u64,
                    hash: le_value(p.subrange(8, 16)) as u64,
                    blob: p.subrange(16, p.len() as int),
                },
            )
        },
        Tag::Delta => if p.len() < 8 {
            Err(Error::Truncated)
        } else {
            Ok(
                FrameView::Delta {
                    start_offset: le_value(p.subrange(0, 8)) as u64,
                    bytes: p.subrange(8, p.len() as int),
                },
            )
        },
        Tag::ResyncRequest => if p.len() != 0 {
            Err(Error::Truncated)
        } else {
            Ok(FrameView::ResyncRequest)
        },
    }
}

/// Frames whose encoding decodes to themselves. The one exception is an
/// attach that names session 0 in the 18-byte form: the wire reserves 0 for
/// "the default leaf", so it reads back as `None`.
pub open spec fn round_trips(f: FrameView) -> bool {
    match f {
        FrameView::Attach { session_id, protocol, observe, .. } => !(session_id == Some(0u64)
            && attach_extra(protocol, observe)),
        _ => true,
    }
}

/// Prefix the frames `fs` to a drain outcome.
pub open spec fn prepend(fs: Seq<FrameView>, d: (Result<Seq<FrameView>, Error>, Seq<u8>)) -> (
    Result<Seq<FrameView>, Error>,
    Seq<u8>,
) {
    match d.0 {
        Ok(rest) => (Ok(fs + rest), d.1),
        Err(e) => (Err(e), d.1),
    }
}

/// Decoding a buffered byte stream: the frames it holds, or the first error,
/// and the bytes left buffered afterwards.
pub open spec fn drain(buf: Seq<u8>) -> (Result<Seq<FrameView>, Error>, Seq<u8>)
    decreases buf.len(),
{
    if buf.len() < 5 {
        (Ok(Seq::empty()), buf)
    } else {
        match tag_of_byte(buf[0]) {
            None => (Err(Error::UnknownTag(buf[0])), buf),
            Some(tag) => {
                let len = le_value(buf.subrange(1, 5)) as int;
                if len > MAX_FRAME {
                    (Err(Error::TooLarge(len as usize)), buf)
                } else if buf.len() < 5 + len {
                    (Ok(Seq::empty()), buf)
                } else {
                    let rest = buf.subrange(5 + len, buf.len() as int);
                    match decode_spec(tag, buf.subrange(5, 5 + len)) {
                        Err(e) => (Err(e), rest),
                        Ok(f) => prepend(seq![f], drain(rest)),
                    }
                }
            },
        }
    }
}

/// The two's-complement bits of a 32-bit signed value.
pub open spec fn i32_bits(v: i32) -> nat {
    if v >= 0 {
        v as nat
    } else {
        (v + 0x1_0000_0000) as nat
    }
}

/// The 32-bit signed value of two's-complement bits.
pub open spec fn i32_of_bits(b: nat) -> i32 {
    if b < 0x8000_0000 {
        b as i32
    } else {
        (b - 0x1_0000_0000) as i32
    }
}

fn i32_to_u32(v: i32) -> (b: u32)
    ensures
        b as nat == i32_bits(v),
{
    if v >= 0 {
        v as u32
    } else {
        let shifted: u32 = (v + 0x7fff_ffff + 1) as u32;
        shifted + 0x8000_0000
    }
}

fn u32_to_i32(b: u32) -> (v: i32)
    ensures
        v == i32_of_bits(b as nat),
{
    if b < 0x8000_0000 {
        b as i32
    } else {
        let low: i32 = (b - 0x8000_0000) as i32;
        low - 0x7fff_ffff - 1
    }
}

fn copy_range(src: &[u8], start: usize, end: usize) -> (out: Vec<u8>)
    requires
        start <= end <= src@.len(),
    ensures
        out@ == src@.subrange(start as int, end as int),
{
    let mut out = Vec::new();
    out.extend_from_slice(&src[start..end]);
    out
}

proof fn lemma_le_bytes_small(v: nat, n: nat)
    requires
        v < pow256(n),
    ensures
        le_bytes(v, n).len() == n,
        le_value(le_bytes(v, n)) == v,
{
    lemma_le_bytes_len(v, n);
    lemma_le_value_of_bytes(v, n);
}

impl Frame {
    pub fn tag(&self) -> (t: Tag)
        ensures
            t == tag_of(self@),
    {
        match self {
            Frame::Data(_) => Tag::Data,
            Frame::Credit(_) => Tag::Credit,
            Frame::Resize { .. } => Tag::Resize,
            Frame::Exit { .. } => Tag::Exit,
            Frame::Attach { .. } => Tag::Attach,
            Frame::Refused { .. } => Tag::Refused,
            Frame::Checkpoint { .. } => Tag::Checkpoint,
            Frame::Delta { .. } => Tag::Delta,
            Frame::ResyncRequest => Tag::ResyncRequest,
        }
    }

    /// Frames permitted on the warm path: only DATA and CREDIT.
    pub fn is_warm_path(&self) -> (b: bool)
        ensures
            b <==> (self@ is Data || self@ is Credit),
    {
        match self {
            Frame::Data(_) => true,
            Frame::Credit(_) => true,
            _ => false,
        }
    }

    pub fn protocol_supported(protocol: u8) -> (b: bool)
        ensures
            b <==> (protocol == PROTOCOL_VERSION || protocol == PROTOCOL_2),
    {
        protocol == PROTOCOL_VERSION || protocol == PROTOCOL_2
    }

    /// Protocol-1 writer attach, to the default leaf or a named one.
    pub fn attach(generation: u64, session_id: Option<u64>) -> (f: Frame)
        ensures
            f@ == (FrameView::Attach {
                generation,
                session_id,
                protocol: PROTOCOL_VERSION,
                observe: false,
            }),
    {
        Frame::Attach { generation, session_id, protocol: PROTOCOL_VERSION, observe: false }
    }

    fn payload(&self) -> (p: Vec<u8>)
        ensures
            p@ == payload_of(self@),
    {
        let mut p: Vec<u8> = Vec::new();
        match self {
            Frame::Data(b) => {
                p.extend_from_slice(b.as_slice());
            },
            Frame::Credit(n) => {
                push_le(&mut p, *n as u64, 4);
            },
            Frame::Resize { cols, rows, px_w, px_h } => {
                push_le(&mut p, *cols as u64, 2);
                push_le(&mut p, *rows as u64, 2);
                push_le(&mut p, *px_w as u64, 2);
                push_le(&mut p, *px_h as u64, 2);
            },
            Frame::Exit { status } => {
                push_le(&mut p, i32_to_u32(*status) as u64, 4);
            },
            Frame::Attach { generation, session_id, protocol, observe } => {
                push_le(&mut p, *generation, 8);
                let extra = *protocol != PROTOCOL_VERSION || *observe;
                let flags: u8 = if *observe {
                    ATTACH_FLAG_OBSERVE
                } else {
                    0
                };
                match session_id {
                    Some(id) => {
                        push_le(&mut p, *id, 8);
                        if extra {
                            p.push(*protocol);
                            p.push(flags);
                        }
                    },
                    None => {
                        if extra {
                            push_le(&mut p, 0, 8);
                            p.push(*protocol);
                            p.push(flags);
                        }
                    },
                }
                proof {
                    assert(p@ =~= payload_of(self@));
                }
            },
            Frame::Refused { reason } => {
                p.push(reason.as_u8());
                assert(p@ =~= payload_of(self@));
            },
            Frame::Checkpoint { ending_offset, hash, blob } => {
                push_le(&mut p, *ending_offset, 8);
                push_le(&mut p, *hash, 8);
                p.extend_from_slice(blob.as_slice());
            },
            Frame::Delta { start_offset, bytes } => {
                push_le(&mut p, *start_offset, 8);
                p.extend_from_slice(bytes.as_slice());
            },
            Frame::ResyncRequest => {},
        }
        assert(p@ =~= payload_of(self@));
        p
    }

    /// The frame's wire bytes, or `TooLarge` with the payload length when
    /// the payload exceeds `MAX_FRAME`.
    pub fn encode(&self) -> (r: Result<Vec<u8>, Error>)
        ensures
            match r {
                Ok(b) => payload_of(self@).len() <= MAX_FRAME && b@ == frame_bytes(self@),
                Err(e) => payload_of(self@).len() > MAX_FRAME && e == Error::TooLarge(
                    payload_of(self@).len() as usize,
                ),
            },
    {
        let payload = self.payload();
        if payload.len() > MAX_FRAME {
            return Err(Error::TooLarge(payload.len()));
        }
        let mut out: Vec<u8> = Vec::new();
        out.push(self.tag().as_u8());
        push_le(&mut out, payload.len() as u64, 4);
        out.extend_from_slice(payload.as_slice());
        assert(out@ =~= frame_bytes(self@));
        Ok(out)
    }

    /// The frame a tag and payload describe.
    pub fn decode(tag: Tag, payload: &[u8]) -> (r: Result<Frame, Error>)
        ensures
            match r {
                Ok(f) => decode_spec(tag, payload@) == Ok::<FrameView, Error>(f@),
                Err(e) => decode_spec(tag, payload@) == Err::<FrameView, Error>(e),
            },
    {
        proof {
            lemma_pow256_values();
            lemma_le_value_bound(payload@);
        }
        let n = payload.len();
        match tag {
            Tag::Data => {
                let b = copy_range(payload, 0, n);
                assert(b@ =~= payload@);
                Ok(Frame::Data(b))
            },
            Tag::Credit => {
                if n != 4 {
                    return Err(Error::Truncated);
                }
                let v = read_le(payload, 0, 4);
                assert(payload@.subrange(0, 4) =~= payload@);
                Ok(Frame::Credit(v as u32))
            },
            Tag::Resize => {
                if n != 8 {
                    return Err(Error::Truncated);
                }
                proof {
                    lemma_le_value_bound(payload@.subrange(0, 2));
                    lemma_le_value_bound(payload@.subrange(2, 4));
                    lemma_le_value_bound(payload@.subrange(4, 6));
                    lemma_le_value_bound(payload@.subrange(6, 8));
                }
                let cols = read_le(payload, 0, 2) as u16;
                let rows = read_le(payload, 2, 2) as u16;
                let px_w = read_le(payload, 4, 2) as u16;
                let px_h = read_le(payload, 6, 2) as u16;
                Ok(Frame::Resize { cols, rows, px_w, px_h })
            },
            Tag::Exit => {
                if n != 4 {
                    return Err(Error::Truncated);
                }
                let v = read_le(payload, 0, 4);
                assert(payload@.subrange(0, 4) =~= payload@);
                Ok(Frame::Exit { status: u32_to_i32(v as u32) })
            },
            Tag::Attach => {
                if n == 8 {
                    let g = read_le(payload, 0, 8);
                    assert(payload@.subrange(0, 8) =~= payload@);
                    Ok(
                        Frame::Attach {
                            generation: g,
                            session_id: None,
                            protocol: PROTOCOL_VERSION,
                            observe: false,
                        },
                    )
                } else if n == 16 {
                    let g = read_le(payload, 0, 8);
                    let id = read_le(payload, 8, 8);
                    Ok(
                        Frame::Attach {
                            generation: g,
                            session_id: Some(id),
                            protocol: PROTOCOL_VERSION,
                            observe: false,
                        },
                    )
                } else if n == 18 {
                    let g = read_le(payload, 0, 8);
                    let raw_id = read_le(payload, 8, 8);
                    let protocol = payload[16];
                    let observe = payload[17] % 2 == 1;
                    Ok(
                        Frame::Attach {
                            generation: g,
                            session_id: if raw_id == 0 {
                                None
                            } else {
                                Some(raw_id)
                            },
                            protocol,
                            observe,
                        },
                    )
                } else {
                    Err(Error::Truncated)
                }
            },
            Tag::Refused => {
                if n != 1 {
                    return Err(Error::Truncated);
                }
                match RefuseReason::from_u8(payload[0]) {
                    Ok(reason) => Ok(Frame::Refused { reason }),
                    Err(e) => Err(e),
                }
            },
            Tag::Checkpoint => {
                if n < 16 {
                    return Err(Error::Truncated);
                }
                let ending_offset = read_le(payload, 0, 8);
                let hash = read_le(payload, 8, 8);
                let blob = copy_range(payload, 16, n);
                Ok(Frame::Checkpoint { ending_offset, hash, blob })
            },
            Tag::Delta => {
                if n < 8 {
                    return Err(Error::Truncated);
                }
                let start_offset = read_le(payload, 0, 8);
                let bytes = copy_range(payload, 8, n);
                Ok(Frame::Delta { start_offset, bytes })
            },
            Tag::ResyncRequest => {
                if n != 0 {
                    return Err(Error::Truncated);
                }
                Ok(Frame::ResyncRequest)
            },
        }
    }
}

/// Incremental decoder for a byte stream.
pub struct Decoder {
    buf: Vec<u8>,
}

impl View for Decoder {
    type V = Seq<u8>;

    /// The bytes received but not yet decoded.
    closed spec fn view(&self) -> Seq<u8> {
        self.buf@
    }
}

impl Decoder {
    pub fn new() -> (d: Decoder)
        ensures
            d@ == Seq::<u8>::empty(),
    {
        Decoder { buf: Vec::new() }
    }

    /// Buffers `bytes` and decodes every complete frame now buffered.
    ///
    /// The result and the bytes left buffered are `drain` of everything
    /// buffered: the frames in order, or the first error. An error keeps the
    /// bytes from the failing frame on (an unknown tag or an oversized
    /// length) or after it (a payload that does not decode); frames decoded
    /// before it in the same call are dropped with the error.
    #[verifier::rlimit(40)]
    pub fn push(&mut self, bytes: &[u8]) -> (r: Result<Vec<Frame>, Error>)
        ensures
            final(self)@ == drain(old(self)@ + bytes@).1,
            match drain(old(self)@ + bytes@).0 {
                Ok(fs) => r matches Ok(v) && frames_view(v@) == fs,
                Err(e) => r == Err::<Vec<Frame>, Error>(e),
            },
    {
        self.buf.extend_from_slice(bytes);
        let ghost whole = self.buf@;
        assert(whole == old(self)@ + bytes@);
        let len = self.buf.len();
        let mut frames: Vec<Frame> = Vec::new();
        let mut pos: usize = 0;
        proof {
            lemma_pow256_values();
            assert(whole.subrange(0, len as int) =~= whole);
            assert(frames_view(frames@) =~= Seq::<FrameView>::empty());
            assert(prepend(Seq::empty(), drain(whole)) =~= drain(whole));
        }
        loop
            invariant
                self.buf@ == whole,
                whole == old(self)@ + bytes@,
                len == whole.len(),
                pos <= len,
                pow256(4) == 0x1_0000_0000,
                drain(whole) == prepend(
                    frames_view(frames@),
                    drain(whole.subrange(pos as int, len as int)),
                ),
            ensures
                pos <= len,
                drain(whole) == prepend(
                    frames_view(frames@),
                    drain(whole.subrange(pos as int, len as int)),
                ),
                drain(whole.subrange(pos as int, len as int)) == (
                    Ok::<Seq<FrameView>, Error>(Seq::empty()),
                    whole.subrange(pos as int, len as int),
                ),
            decreases len - pos,
        {
            let ghost cur = whole.subrange(pos as int, len as int);
            if len - pos < 5 {
                break ;
            }
            assert(cur[0] == whole[pos as int]);
            let tag_byte_read = self.buf[pos];
            let tag_r = Tag::from_u8(tag_byte_read);
            if tag_r.is_err() {
                proof {
                    lemma_drain_unknown_tag(cur);
                }
                let rest = copy_range(self.buf.as_slice(), pos, len);
                self.buf = rest;
                return Err(Error::UnknownTag(tag_byte_read));
            }
            let tag = tag_r.unwrap();
            let declared = read_le(self.buf.as_slice(), pos + 1, 4);
            proof {
                assert(cur.subrange(1, 5) =~= whole.subrange(pos + 1, pos + 5));
                lemma_le_value_bound(whole.subrange(pos + 1, pos + 5));
            }
            let flen = declared as usize;
            if flen > MAX_FRAME {
                assert(drain(cur).1 == cur);
                assert(prepend(frames_view(frames@), drain(cur)).1 == cur);
                let rest = copy_range(self.buf.as_slice(), pos, len);
                self.buf = rest;
                return Err(Error::TooLarge(flen));
            }
            if len - pos < 5 + flen {
                if len - pos > MAX_FRAME + 5 {
                    let rest = copy_range(self.buf.as_slice(), pos, len);
                    self.buf = rest;
                    return Err(Error::TooLarge(len - pos));
                }
                assert(drain(cur) == (Ok::<Seq<FrameView>, Error>(Seq::empty()), cur));
                break ;
            }
            let end = pos + 5 + flen;
            proof {
                assert(cur.subrange(5 + flen, cur.len() as int) =~= whole.subrange(
                    end as int,
                    len as int,
                ));
                assert(cur.subrange(5, 5 + flen) =~= whole.subrange(pos + 5, end as int));
            }
            match Frame::decode(tag, &self.buf[pos + 5..end]) {
                Err(e) => {
                    let rest = copy_range(self.buf.as_slice(), end, len);
                    self.buf = rest;
                    return Err(e);
                },
                Ok(f) => {
                    let ghost before = frames_view(frames@);
                    frames.push(f);
                    proof {
                        assert(frames_view(frames@) =~= before + seq![f@]);
                        let d = drain(whole.subrange(end as int, len as int));
                        match d.0 {
                            Ok(x) => {
                                assert(before + (seq![f@] + x) =~= (before + seq![f@]) + x);
                            },
                            Err(_) => {},
                        }
                    }
                    pos = end;
                },
            }
        }
        proof {
            assert(frames_view(frames@) + Seq::<FrameView>::empty() =~= frames_view(frames@));
        }
        let rest = copy_range(self.buf.as_slice(), pos, len);
        self.buf = rest;
        Ok(frames)
    }
}

proof fn lemma_drain_unknown_tag(cur: Seq<u8>)
    requires
        cur.len() >= 5,
        tag_of_byte(cur[0]) is None,
    ensures
        drain(cur) == (Err::<Seq<FrameView>, Error>(Error::UnknownTag(cur[0])), cur),
{
}

/// The payload of a frame that round-trips decodes back to that frame.
pub proof fn lemma_decode_payload(f: FrameView)
    requires
        round_trips(f),
    ensures
        decode_spec(tag_of(f), payload_of(f)) == Ok::<FrameView, Error>(f),
{
    lemma_pow256_values();
    match f {
        FrameView::Data(b) => {},
        FrameView::Credit(n) => {
            lemma_le_bytes_small(n as nat, 4);
        },
        FrameView::Resize { cols, rows, px_w, px_h } => {
            lemma_le_bytes_small(cols as nat, 2);
            lemma_le_bytes_small(rows as nat, 2);
            lemma_le_bytes_small(px_w as nat, 2);
            lemma_le_bytes_small(px_h as nat, 2);
            let p = payload_of(f);
            assert(p.subrange(0, 2) =~= le_bytes(cols as nat, 2));
            assert(p.subrange(2, 4) =~= le_bytes(rows as nat, 2));
            assert(p.subrange(4, 6) =~= le_bytes(px_w as nat, 2));
            assert(p.subrange(6, 8) =~= le_bytes(px_h as nat, 2));
        },
        FrameView::Exit { status } => {
            lemma_le_bytes_small(i32_bits(status), 4);
        },
        FrameView::Attach { generation, session_id, protocol, observe } => {
            lemma_le_bytes_small(generation as nat, 8);
            let p = payload_of(f);
            match session_id {
                Some(id) => {
                    lemma_le_bytes_small(id as nat, 8);
                    assert(p.subrange(0, 8) =~= le_bytes(generation as nat, 8));
                    assert(p.subrange(8, 16) =~= le_bytes(id as nat, 8));
                },
                None => {
                    if attach_extra(protocol, observe) {
                        lemma_le_bytes_small(0, 8);
                        assert(p.subrange(0, 8) =~= le_bytes(generation as nat, 8));
                        assert(p.subrange(8, 16) =~= le_bytes(0, 8));
                    }
                },
            }
        },
        FrameView::Refused { reason } => {},
        FrameView::Checkpoint { ending_offset, hash, blob } => {
            lemma_le_bytes_small(ending_offset as nat, 8);
            lemma_le_bytes_small(hash as nat, 8);
            let p = payload_of(f);
            assert(p.subrange(0, 8) =~= le_bytes(ending_offset as nat, 8));
            assert(p.subrange(8, 16) =~= le_bytes(hash as nat, 8));
            assert(p.subrange(16, p.len() as int) =~= blob);
        },
        FrameView::Delta { start_offset, bytes } => {
            lemma_le_bytes_small(start_offset as nat, 8);
            let p = payload_of(f);
            assert(p.subrange(0, 8) =~= le_bytes(start_offset as nat, 8));
            assert(p.subrange(8, p.len() as int) =~= bytes);
        },
        FrameView::ResyncRequest => {},
    }
}

/// A frame that round-trips, once encoded, decodes as exactly that frame with
/// nothing left over.
pub proof fn lemma_encoded_frame_decodes(f: FrameView)
    requires
        round_trips(f),
        payload_of(f).len() <= MAX_FRAME,
    ensures
        drain(frame_bytes(f)) == (Ok::<Seq<FrameView>, Error>(seq![f]), Seq::<u8>::empty()),
{
    lemma_pow256_values();
    let p = payload_of(f);
    let b = frame_bytes(f);
    lemma_le_bytes_small(p.len(), 4);
    assert(b.subrange(1, 5) =~= le_bytes(p.len(), 4));
    assert(b.subrange(5, 5 + p.len() as int) =~= p);
    lemma_decode_payload(f);
    let rest = b.subrange(5 + p.len() as int, b.len() as int);
    assert(rest =~= Seq::<u8>::empty());
    assert(drain(rest) == (Ok::<Seq<FrameView>, Error>(Seq::empty()), rest));
    assert(seq![f] + Seq::<FrameView>::empty() =~= seq![f]);
}

/// Decoding `x + y` gives the frames that `x` alone yields, followed by what
/// decoding the leftover of `x` with `y` appended yields.
pub proof fn lemma_drain_append(x: Seq<u8>, y: Seq<u8>)
    requires
        drain(x).0 is Ok,
    ensures
        drain(x + y) == prepend(drain(x).0->Ok_0, drain(drain(x).1 + y)),
    decreases x.len(),
{
    let xy = x + y;
    if x.len() < 5 {
        assert(drain(x).1 == x);
        match drain(xy).0 {
            Ok(fs) => assert(Seq::<FrameView>::empty() + fs =~= fs),
            Err(e) => {},
        }
    } else {
        assert(xy[0] == x[0]);
        assert(xy.subrange(1, 5) =~= x.subrange(1, 5));
        let tag = tag_of_byte(x[0])->Some_0;
        let len = le_value(x.subrange(1, 5)) as int;
        if x.len() < 5 + len {
            match drain(xy).0 {
                Ok(fs) => assert(Seq::<FrameView>::empty() + fs =~= fs),
                Err(e) => {},
            }
        } else {
            let rest = x.subrange(5 + len, x.len() as int);
            assert(xy.subrange(5, 5 + len) =~= x.subrange(5, 5 + len));
            assert(xy.subrange(5 + len, xy.len() as int) =~= rest + y);
            let f = decode_spec(tag, x.subrange(5, 5 + len))->Ok_0;
            lemma_drain_append(rest, y);
            let fr = drain(rest).0->Ok_0;
            match drain(drain(rest).1 + y).0 {
                Ok(fs) => assert(seq![f] + (fr + fs) =~= (seq![f] + fr) + fs),
                Err(e) => {},
            }
        }
    }
}

/// Pushing a stream in two pieces yields what pushing it whole yields: if
/// the first push succeeds, the second push's outcome and leftover are those
/// of one push of everything, less the frames the first push returned.
pub proof fn lemma_push_in_pieces(s: Seq<u8>, a: Seq<u8>, b: Seq<u8>)
    requires
        drain(s + a).0 is Ok,
    ensures
        drain(s + a + b) == prepend(drain(s + a).0->Ok_0, drain(drain(s + a).1 + b)),
{
    lemma_drain_append(s + a, b);
}


/// The bytes of `cs`, one chunk after another.
pub open spec fn flatten_chunks(cs: Seq<Seq<u8>>) -> Seq<u8>
    decreases cs.len(),
{
    if cs.len() == 0 {
        Seq::empty()
    } else {
        cs[0] + flatten_chunks(cs.drop_first())
    }
}

/// Pushing `cs` one chunk after another into a decoder holding `p`: the
/// frames the pushes returned, in order, and what stays buffered; the
/// first failing push ends it with its error.
pub open spec fn drain_chunks(p: Seq<u8>, cs: Seq<Seq<u8>>) -> (Result<Seq<FrameView>, Error>, Seq<u8>)
    decreases cs.len(),
{
    if cs.len() == 0 {
        (Ok(Seq::empty()), p)
    } else {
        let d = drain(p + cs[0]);
        match d.0 {
            Ok(fs) => prepend(fs, drain_chunks(d.1, cs.drop_first())),
            Err(e) => (Err(e), d.1),
        }
    }
}

/// The encodings of `fs`, one after another.
pub open spec fn frames_bytes(fs: Seq<FrameView>) -> Seq<u8>
    decreases fs.len(),
{
    if fs.len() == 0 {
        Seq::empty()
    } else {
        frame_bytes(fs[0]) + frames_bytes(fs.drop_first())
    }
}

/// A buffer that decodes without error decodes without error when cut
/// short.
pub proof fn lemma_drain_prefix_ok(x: Seq<u8>, y: Seq<u8>)
    requires
        drain(x + y).0 is Ok,
    ensures
        drain(x).0 is Ok,
    decreases x.len(),
{
    let xy = x + y;
    if x.len() >= 5 {
        assert(xy[0] == x[0]);
        assert(xy.subrange(1, 5) =~= x.subrange(1, 5));
        let len = le_value(x.subrange(1, 5)) as int;
        if tag_of_byte(x[0]) is Some && len <= MAX_FRAME && x.len() >= 5 + len {
            let rest = x.subrange(5 + len, x.len() as int);
            assert(xy.subrange(5, 5 + len) =~= x.subrange(5, 5 + len));
            assert(xy.subrange(5 + len, xy.len() as int) =~= rest + y);
            lemma_drain_prefix_ok(rest, y);
        }
    }
}

/// What a successful decode leaves buffered holds no complete frame:
/// decoding it again yields nothing and keeps it.
pub proof fn lemma_drain_leftover_settled(b: Seq<u8>)
    requires
        drain(b).0 is Ok,
    ensures
        drain(drain(b).1) == (Ok::<Seq<FrameView>, Error>(Seq::empty()), drain(b).1),
    decreases b.len(),
{
    if b.len() >= 5 {
        let len = le_value(b.subrange(1, 5)) as int;
        if tag_of_byte(b[0]) is Some && len <= MAX_FRAME && b.len() >= 5 + len {
            let rest = b.subrange(5 + len, b.len() as int);
            lemma_drain_leftover_settled(rest);
        }
    }
}

/// Pushing chunks one after another into a decoder whose buffer holds no
/// complete frame yields what one push of all of them would: the same
/// frames in the same order and the same leftover, whatever the cut
/// points, as long as the whole stream decodes without error.
pub proof fn lemma_push_chunks(p: Seq<u8>, cs: Seq<Seq<u8>>)
    requires
        drain(p) == (Ok::<Seq<FrameView>, Error>(Seq::empty()), p),
        drain(p + flatten_chunks(cs)).0 is Ok,
    ensures
        drain_chunks(p, cs) == drain(p + flatten_chunks(cs)),
    decreases cs.len(),
{
    if cs.len() == 0 {
        assert(p + flatten_chunks(cs) =~= p);
    } else {
        let x = p + cs[0];
        let y = flatten_chunks(cs.drop_first());
        assert(p + flatten_chunks(cs) =~= x + y);
        lemma_drain_prefix_ok(x, y);
        lemma_drain_append(x, y);
        lemma_drain_leftover_settled(x);
        let d = drain(x);
        lemma_push_chunks(d.1, cs.drop_first());
    }
}

/// Frames that round-trip, encoded one after another, decode as exactly
/// those frames in order with nothing left over.
pub proof fn lemma_encoded_frames_decode(fs: Seq<FrameView>)
    requires
        forall|i: int| 0 <= i < fs.len() ==> round_trips(#[trigger] fs[i]) && payload_of(fs[i]).len() <= MAX_FRAME,
    ensures
        drain(frames_bytes(fs)) == (Ok::<Seq<FrameView>, Error>(fs), Seq::<u8>::empty()),
    decreases fs.len(),
{
    if fs.len() == 0 {
        assert(drain(frames_bytes(fs)) == (Ok::<Seq<FrameView>, Error>(Seq::empty()), Seq::<u8>::empty()));
        assert(fs =~= Seq::<FrameView>::empty());
    } else {
        let rest = fs.drop_first();
        assert(forall|i: int| 0 <= i < rest.len() ==> rest[i] == fs[i + 1]);
        lemma_encoded_frame_decodes(fs[0]);
        lemma_encoded_frames_decode(rest);
        lemma_drain_append(frame_bytes(fs[0]), frames_bytes(rest));
        assert(Seq::<u8>::empty() + frames_bytes(rest) =~= frames_bytes(rest));
        assert(seq![fs[0]] + rest =~= fs);
    }
}

/// Every split point reassembles: the encodings of frames that round-trip,
/// cut into any chunks and pushed one after another into a new decoder,
/// come back as exactly those frames, in order, none lost or repeated, and
/// nothing stays buffered.
pub proof fn lemma_every_split_reassembles(fs: Seq<FrameView>, cs: Seq<Seq<u8>>)
    requires
        forall|i: int| 0 <= i < fs.len() ==> round_trips(#[trigger] fs[i]) && payload_of(fs[i]).len() <= MAX_FRAME,
        flatten_chunks(cs) == frames_bytes(fs),
    ensures
        drain_chunks(Seq::empty(), cs) == (Ok::<Seq<FrameView>, Error>(fs), Seq::<u8>::empty()),
{
    lemma_encoded_frames_decode(fs);
    assert(Seq::<u8>::empty() + flatten_chunks(cs) =~= flatten_chunks(cs));
    lemma_push_chunks(Seq::empty(), cs);
}

} // verus!

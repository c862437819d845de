//! Host side of the cold sockets: the content request and the content
//! snapshot reply, the navigation line, and the keys and paste framing the
//! host writes on a leaf's behalf. Sockets, timeouts and the window are the
//! caller's.

use vstd::prelude::*;
use vstd::utf8::{valid_utf8, decode_utf8};
use crate::wire::{be_value, be_bytes, push_be, read_be};
use crate::attach;
use crate::text::{string_from_chars, chars_of, char_is_space, parse_u64_chars, parse_u64, words, scan_words, pieces, scan_pieces, starts_with};

verus! {

/// Largest content reply the host reads.
pub const RESPONSE_MAX: usize = 1048576;

/// Largest composer text one content request may carry.
pub const SUBMIT_TEXT_MAX: usize = 65536;

/// Most items one content snapshot may hold.
pub const SNAPSHOT_ITEMS_MAX: u32 = 64;

/// Host decision errors. Descriptor errors are the caller's.
#[derive(Clone, Copy, Debug, PartialEq, Eq, Structural)]
pub enum Error {
    Attach(attach::Error),
    Dead,
    Refused,
    InvalidHostIdentity,
    InvalidContent,
}

impl Error {
    /// Human-readable form of the error.
    pub fn message(&self) -> (s: String)
        ensures
            s@ == match self {
                Error::Attach(e) => attach::error_text(*e),
                Error::Dead => "pane is dead"@,
                Error::Refused => "attach refused"@,
                Error::InvalidHostIdentity => "invalid cold kernel host identity"@,
                Error::InvalidContent => "invalid cold content response"@,
            },
    {
        match self {
            Error::Attach(e) => e.message(),
            Error::Dead => String::from_str("pane is dead"),
            Error::Refused => String::from_str("attach refused"),
            Error::InvalidHostIdentity => String::from_str("invalid cold kernel host identity"),
            Error::InvalidContent => String::from_str("invalid cold content response"),
        }
    }
}

/// The six bytes the kernel's cold identity socket sends for its one
/// local kernel.
pub open spec fn local_identity_wire() -> Seq<u8> {
    seq![0x6cu8, 0x6f, 0x63, 0x61, 0x6c, 0x0a]
}

/// The host identity label a cold identity reply names: `local` for the
/// local kernel's reply, refused otherwise.
pub fn host_identity_from(reply: &[u8]) -> (r: Result<String, Error>)
    ensures
        reply@ == local_identity_wire() ==> (r matches Ok(s) && s@ == "local"@),
        reply@ != local_identity_wire() ==> r == Err::<String, Error>(Error::InvalidHostIdentity),
{
    let wire = crate::kernel::session::HostIdentity::Local.as_wire();
    if reply.len() != wire.len() {
        return Err(Error::InvalidHostIdentity);
    }
    let mut i: usize = 0;
    while i < reply.len()
        invariant
            i <= reply@.len(),
            reply@.len() == wire@.len(),
            wire@ == local_identity_wire(),
            reply@.subrange(0, i as int) == wire@.subrange(0, i as int),
        decreases reply@.len() - i,
    {
        if reply[i] != wire[i] {
            assert(reply@[i as int] != local_identity_wire()[i as int]);
            return Err(Error::InvalidHostIdentity);
        }
        assert(reply@.subrange(0, i + 1) =~= reply@.subrange(0, i as int).push(reply@[i as int]));
        assert(wire@.subrange(0, i + 1) =~= wire@.subrange(0, i as int).push(wire@[i as int]));
        i = i + 1;
    }
    assert(reply@ =~= reply@.subrange(0, reply@.len() as int));
    assert(wire@ =~= wire@.subrange(0, wire@.len() as int));
    Ok(String::from_str("local"))
}

/// One authoritative content item, as the kernel's content socket sends it.
#[derive(Clone, Debug, PartialEq, Eq)]
pub struct ContentItem {
    pub kind: u8,
    pub sequence: u64,
    pub event_id: String,
    pub text: String,
}

/// A content item as a value.
pub struct ContentItemView {
    pub kind: u8,
    pub sequence: u64,
    pub event_id: Seq<char>,
    pub text: Seq<char>,
}

impl ContentItem {
    pub open spec fn view(&self) -> ContentItemView {
        ContentItemView { kind: self.kind, sequence: self.sequence, event_id: self.event_id@, text: self.text@ }
    }
}

pub open spec fn items_view(v: Seq<ContentItem>) -> Seq<ContentItemView> {
    v.map_values(|c: ContentItem| c.view())
}

/// The snapshot magic, `RLC1`.
pub open spec fn magic() -> Seq<u8> {
    seq![82u8, 76u8, 67u8, 49u8]
}

/// The big-endian field of `n` bytes at `at`.
pub open spec fn field(b: Seq<u8>, at: nat, n: nat) -> nat {
    be_value(b.subrange(at as int, (at + n) as int))
}

/// The item whose 15-byte header starts at `at` (kind, sequence, id length,
/// text length, then the id and the text, both UTF-8, the id not empty),
/// and the offset just past it.
pub open spec fn item_at(b: Seq<u8>, at: nat) -> Option<(ContentItemView, nat)> {
    let header_end = at + 15;
    if header_end > b.len() {
        None
    } else {
        let id_end = header_end + field(b, at + 9, 2);
        let text_end = id_end + field(b, at + 11, 4);
        if text_end > b.len() {
            None
        } else {
            let id = b.subrange(header_end as int, id_end as int);
            let text = b.subrange(id_end as int, text_end as int);
            if !valid_utf8(id) || !valid_utf8(text) || decode_utf8(id).len() == 0 {
                None
            } else {
                Some(
                    (
                        ContentItemView {
                            kind: b[at as int],
                            sequence: field(b, at + 1, 8) as u64,
                            event_id: decode_utf8(id),
                            text: decode_utf8(text),
                        },
                        text_end as nat,
                    ),
                )
            }
        }
    }
}

/// The first `n` items after the 9-byte snapshot header, and the offset
/// just past them.
pub open spec fn first_items(b: Seq<u8>, n: nat) -> Option<(Seq<ContentItemView>, nat)>
    decreases n,
{
    if n == 0 {
        Some((Seq::empty(), 9))
    } else {
        match first_items(b, (n - 1) as nat) {
            None => None,
            Some((items, at)) => match item_at(b, at) {
                None => None,
                Some((it, next)) => Some((items.push(it), next)),
            },
        }
    }
}

/// What a content snapshot holds: `RLC1`, a zero status byte, a big-endian
/// item count of at most 64, then exactly that many items and nothing after.
pub open spec fn snapshot_items(b: Seq<u8>) -> Option<Seq<ContentItemView>> {
    if b.len() < 9 || b.subrange(0, 4) != magic() || b[4] != 0 {
        None
    } else {
        let count = field(b, 5, 4);
        if count > SNAPSHOT_ITEMS_MAX {
            None
        } else {
            match first_items(b, count) {
                None => None,
                Some((items, end)) => if end == b.len() {
                    Some(items)
                } else {
                    None
                },
            }
        }
    }
}

/// `std::str::from_utf8` on `bytes`, owned: the text they encode, or `None`
/// where they are not UTF-8.
#[verifier::external_body]
fn utf8_text(bytes: &[u8]) -> (r: Option<String>)
    ensures
        r is Some <==> valid_utf8(bytes@),
        r matches Some(s) ==> s@ == decode_utf8(bytes@),
{
    match std::str::from_utf8(bytes) {
        Ok(s) => Some(s.to_owned()),
        Err(_) => None,
    }
}

/// The bytes `b[from..to]`.
fn copy_range(b: &[u8], from: usize, to: usize) -> (r: Vec<u8>)
    requires
        from <= to <= b@.len(),
    ensures
        r@ == b@.subrange(from as int, to as int),
{
    let mut r: Vec<u8> = Vec::new();
    let mut i: usize = from;
    while i < to
        invariant
            from <= i <= to,
            to <= b@.len(),
            r@ == b@.subrange(from as int, i as int),
        decreases to - i,
    {
        r.push(b[i]);
        i = i + 1;
    }
    r
}

/// Parse one item whose header starts at `at`.
fn parse_item(b: &[u8], at: usize) -> (r: Option<(ContentItem, usize)>)
    ensures
        match r {
            None => item_at(b@, at as nat) is None,
            Some((it, next)) => item_at(b@, at as nat) == Some((it.view(), next as nat)),
        },
{
    if at > b.len() || b.len() - at < 15 {
        return None;
    }
    let header_end = at + 15;
    let kind = b[at];
    let sequence = read_be(b, at + 1, 8);
    let id_len = read_be(b, at + 9, 2);
    let text_len = read_be(b, at + 11, 4);
    proof {
        crate::wire::lemma_be_value_bound(b@.subrange(at + 9, at + 11));
        crate::wire::lemma_be_value_bound(b@.subrange(at + 11, at + 15));
        crate::wire::lemma_pow256_values();
    }
    let room = b.len() - header_end;
    if id_len > room as u64 || text_len > (room as u64) - id_len {
        return None;
    }
    let id_end = header_end + id_len as usize;
    let text_end = id_end + text_len as usize;
    let id_bytes = copy_range(b, header_end, id_end);
    let text_bytes = copy_range(b, id_end, text_end);
    let event_id = match utf8_text(id_bytes.as_slice()) {
        None => {
            return None;
        },
        Some(s) => s,
    };
    let text = match utf8_text(text_bytes.as_slice()) {
        None => {
            return None;
        },
        Some(s) => s,
    };
    if event_id.as_str().unicode_len() == 0 {
        return None;
    }
    Some((ContentItem { kind, sequence, event_id, text }, text_end))
}

/// Parse a content snapshot reply.
pub fn parse_content_snapshot(bytes: &[u8]) -> (r: Result<Vec<ContentItem>, Error>)
    ensures
        r is Ok <==> snapshot_items(bytes@) is Some,
        r matches Ok(v) ==> snapshot_items(bytes@) == Some(items_view(v@)),
        r is Err ==> r == Err::<Vec<ContentItem>, Error>(Error::InvalidContent),
{
    if bytes.len() < 9 || bytes[0] != 82 || bytes[1] != 76 || bytes[2] != 67 || bytes[3] != 49 || bytes[4] != 0 {
        proof {
            if bytes@.len() >= 9 && bytes@.subrange(0, 4) == magic() {
                assert(bytes@.subrange(0, 4)[0] == bytes@[0]);
                assert(bytes@.subrange(0, 4)[1] == bytes@[1]);
                assert(bytes@.subrange(0, 4)[2] == bytes@[2]);
                assert(bytes@.subrange(0, 4)[3] == bytes@[3]);
            }
        }
        return Err(Error::InvalidContent);
    }
    proof {
        assert(bytes@.subrange(0, 4) =~= magic());
    }
    let count = read_be(bytes, 5, 4);
    if count > SNAPSHOT_ITEMS_MAX as u64 {
        return Err(Error::InvalidContent);
    }
    let mut cursor: usize = 9;
    let mut items: Vec<ContentItem> = Vec::new();
    let mut k: u64 = 0;
    proof {
        assert(items_view(items@) =~= Seq::<ContentItemView>::empty());
    }
    while k < count
        invariant
            k <= count,
            count == field(bytes@, 5, 4),
            first_items(bytes@, k as nat) == Some((items_view(items@), cursor as nat)),
        decreases count - k,
    {
        match parse_item(bytes, cursor) {
            None => {
                proof {
                    lemma_first_items_stuck(bytes@, k as nat, count as nat);
                }
                return Err(Error::InvalidContent);
            },
            Some((it, next)) => {
                let ghost before = items@;
                items.push(it);
                proof {
                    assert(items_view(items@) =~= items_view(before).push(it.view()));
                }
                cursor = next;
            },
        }
        k = k + 1;
    }
    if cursor != bytes.len() {
        return Err(Error::InvalidContent);
    }
    Ok(items)
}

proof fn lemma_first_items_stuck(b: Seq<u8>, k: nat, n: nat)
    requires
        k < n,
        first_items(b, k) matches Some((_, at)) && item_at(b, at) is None,
    ensures
        first_items(b, n) is None,
    decreases n - k,
{
    if k + 1 < n {
        lemma_first_items_none_grows(b, k + 1, n);
    }
}

proof fn lemma_first_items_none_grows(b: Seq<u8>, k: nat, n: nat)
    requires
        k <= n,
        first_items(b, k) is None,
    ensures
        first_items(b, n) is None,
    decreases n - k,
{
    if k < n {
        lemma_first_items_none_grows(b, k + 1, n);
    }
}

/// The request a composer submit sends: `RLC1`, the submit tag 2, the
/// execution id and the text length big-endian, then the text.
pub open spec fn submit_request(execution: u64, text: Seq<u8>) -> Seq<u8> {
    magic().push(2u8) + be_bytes(execution as nat, 8) + be_bytes(text.len(), 4) + text
}

/// Frame a composer submit. Text over `SUBMIT_TEXT_MAX` bytes is refused.
pub fn content_request(execution: u64, text: &[u8]) -> (r: Result<Vec<u8>, Error>)
    ensures
        r is Err <==> text@.len() > SUBMIT_TEXT_MAX,
        r is Err ==> r == Err::<Vec<u8>, Error>(Error::InvalidContent),
        r matches Ok(v) ==> v@ == submit_request(execution, text@),
{
    if text.len() > SUBMIT_TEXT_MAX {
        return Err(Error::InvalidContent);
    }
    let mut out: Vec<u8> = Vec::new();
    out.push(82);
    out.push(76);
    out.push(67);
    out.push(49);
    out.push(2);
    push_be(&mut out, execution, 8);
    push_be(&mut out, text.len() as u64, 4);
    let ghost head = out@;
    let mut i: usize = 0;
    while i < text.len()
        invariant
            i <= text@.len(),
            out@ == head + text@.subrange(0, i as int),
        decreases text@.len() - i,
    {
        out.push(text[i]);
        i = i + 1;
    }
    assert(text@.subrange(0, text@.len() as int) =~= text@);
    assert(out@ =~= submit_request(execution, text@));
    Ok(out)
}

/// Read a content reply: refused over `RESPONSE_MAX` bytes, parsed
/// otherwise.
pub fn content_reply(response: &[u8]) -> (r: Result<Vec<ContentItem>, Error>)
    ensures
        response@.len() > RESPONSE_MAX ==> r == Err::<Vec<ContentItem>, Error>(Error::InvalidContent),
        response@.len() <= RESPONSE_MAX ==> (r is Ok <==> snapshot_items(response@) is Some),
        r matches Ok(v) ==> snapshot_items(response@) == Some(items_view(v@)),
        r is Err ==> r == Err::<Vec<ContentItem>, Error>(Error::InvalidContent),
{
    if response.len() > RESPONSE_MAX {
        return Err(Error::InvalidContent);
    }
    parse_content_snapshot(response)
}


/// The workspace row the kernel's navigation socket reports.
#[derive(Clone, Debug, PartialEq, Eq)]
pub struct NavSnapshot {
    pub workspace_id: u64,
    pub tabs: Vec<u64>,
    pub leaves: Vec<u64>,
}

/// What the words of a navigation line have set so far.
pub struct NavState {
    pub ws: Option<u64>,
    pub tabs: Seq<u64>,
    pub leaves: Seq<u64>,
}

/// The ids that parse among `ps`, in order; the others are skipped.
pub open spec fn ids_of(ps: Seq<Seq<char>>) -> Seq<u64>
    decreases ps.len(),
{
    if ps.len() == 0 {
        Seq::empty()
    } else {
        let prev = ids_of(ps.drop_last());
        match parse_u64(ps.last()) {
            Some(v) => prev.push(v),
            None => prev,
        }
    }
}

/// A comma-separated id list: empty for empty text, else the pieces that
/// parse as `u64`.
pub open spec fn id_list(s: Seq<char>) -> Seq<u64> {
    if s.len() == 0 {
        Seq::empty()
    } else {
        ids_of(pieces(s, ','))
    }
}

pub open spec fn ws_key() -> Seq<char> {
    seq!['w', 's', '=']
}

pub open spec fn tabs_key() -> Seq<char> {
    seq!['t', 'a', 'b', 's', '=']
}

pub open spec fn leaves_key() -> Seq<char> {
    seq!['l', 'e', 'a', 'v', 'e', 's', '=']
}

/// One word of a navigation line: `ws=` sets the workspace id (to nothing
/// when it does not parse), `tabs=` and `leaves=` replace their lists.
pub open spec fn nav_step(st: NavState, w: Seq<char>) -> NavState {
    let st1 = if starts_with(w, ws_key()) {
        NavState { ws: parse_u64(w.subrange(3, w.len() as int)), ..st }
    } else {
        st
    };
    let st2 = if starts_with(w, tabs_key()) {
        NavState { tabs: id_list(w.subrange(5, w.len() as int)), ..st1 }
    } else {
        st1
    };
    if starts_with(w, leaves_key()) {
        NavState { leaves: id_list(w.subrange(7, w.len() as int)), ..st2 }
    } else {
        st2
    }
}

pub open spec fn nav_fold(ws: Seq<Seq<char>>) -> NavState
    decreases ws.len(),
{
    if ws.len() == 0 {
        NavState { ws: None, tabs: Seq::empty(), leaves: Seq::empty() }
    } else {
        nav_step(nav_fold(ws.drop_last()), ws.last())
    }
}

/// What a navigation line says: its words read left to right, and a
/// snapshot only where a workspace id stands.
pub open spec fn nav_line(s: Seq<char>) -> Option<NavState> {
    let st = nav_fold(words(s));
    if st.ws is Some {
        Some(st)
    } else {
        None
    }
}

fn key_ws() -> (p: Vec<char>)
    ensures
        p@ == ws_key(),
{
    let mut p: Vec<char> = Vec::new();
    p.push('w');
    p.push('s');
    p.push('=');
    assert(p@ =~= ws_key());
    p
}

fn key_tabs() -> (p: Vec<char>)
    ensures
        p@ == tabs_key(),
{
    let mut p: Vec<char> = Vec::new();
    p.push('t');
    p.push('a');
    p.push('b');
    p.push('s');
    p.push('=');
    assert(p@ =~= tabs_key());
    p
}

fn key_leaves() -> (p: Vec<char>)
    ensures
        p@ == leaves_key(),
{
    let mut p: Vec<char> = Vec::new();
    p.push('l');
    p.push('e');
    p.push('a');
    p.push('v');
    p.push('e');
    p.push('s');
    p.push('=');
    assert(p@ =~= leaves_key());
    p
}

fn has_prefix(w: &Vec<char>, p: &Vec<char>) -> (r: bool)
    ensures
        r == starts_with(w@, p@),
{
    if p.len() > w.len() {
        return false;
    }
    let mut i: usize = 0;
    while i < p.len()
        invariant
            p@.len() <= w@.len(),
            i <= p@.len(),
            forall|j: int| 0 <= j < i ==> w@[j] == p@[j],
        decreases p@.len() - i,
    {
        if w[i] != p[i] {
            assert(w@.subrange(0, p@.len() as int)[i as int] != p@[i as int]);
            return false;
        }
        i = i + 1;
    }
    assert(w@.subrange(0, p@.len() as int) =~= p@);
    true
}

/// The id list in `w[from..]`.
fn parse_id_list(w: &Vec<char>, from: usize) -> (r: Vec<u64>)
    requires
        from <= w@.len(),
    ensures
        r@ == id_list(w@.subrange(from as int, w@.len() as int)),
{
    let ghost sub = w@.subrange(from as int, w@.len() as int);
    let mut r: Vec<u64> = Vec::new();
    if from == w.len() {
        return r;
    }
    let mut cur: Vec<char> = Vec::new();
    let mut i: usize = from;
    while i < w.len()
        invariant
            from <= i <= w@.len(),
            sub == w@.subrange(from as int, w@.len() as int),
            r@ == ids_of(scan_pieces(sub, ',', (i - from) as nat).0),
            cur@ == scan_pieces(sub, ',', (i - from) as nat).1,
        decreases w@.len() - i,
    {
        let c = w[i];
        assert(sub[i - from] == c);
        if c == ',' {
            let ghost done = scan_pieces(sub, ',', (i - from) as nat).0;
            assert(cur@.subrange(0, cur@.len() as int) =~= cur@);
            match parse_u64_chars(&cur, 0) {
                Some(v) => r.push(v),
                None => {},
            }
            proof {
                assert(done.push(cur@).drop_last() =~= done);
            }
            cur = Vec::new();
        } else {
            cur.push(c);
        }
        i = i + 1;
    }
    proof {
        let done = scan_pieces(sub, ',', sub.len()).0;
        assert(done.push(cur@).drop_last() =~= done);
        assert(cur@.subrange(0, cur@.len() as int) =~= cur@);
    }
    match parse_u64_chars(&cur, 0) {
        Some(v) => r.push(v),
        None => {},
    }
    r
}

/// Apply one word of a navigation line.
fn nav_word(ws: &mut Option<u64>, tabs: &mut Vec<u64>, leaves: &mut Vec<u64>, w: &Vec<char>)
    ensures
        (NavState { ws: *final(ws), tabs: final(tabs)@, leaves: final(leaves)@ }) == nav_step(
            NavState { ws: *old(ws), tabs: old(tabs)@, leaves: old(leaves)@ },
            w@,
        ),
{
    if has_prefix(w, &key_ws()) {
        *ws = parse_u64_chars(w, 3);
    }
    if has_prefix(w, &key_tabs()) {
        *tabs = parse_id_list(w, 5);
    }
    if has_prefix(w, &key_leaves()) {
        *leaves = parse_id_list(w, 7);
    }
}

/// Parse the navigation socket's line: white-space separated words, of
/// which `ws=`, `tabs=` and `leaves=` count. `None` when no workspace id
/// stands in it.
pub fn parse_nav_line(line: &str) -> (r: Option<NavSnapshot>)
    ensures
        r is Some <==> nav_line(line@) is Some,
        r matches Some(n) ==> nav_line(line@) == Some(NavState { ws: Some(n.workspace_id), tabs: n.tabs@, leaves: n.leaves@ }),
{
    let chars = chars_of(line);
    let mut ws: Option<u64> = None;
    let mut tabs: Vec<u64> = Vec::new();
    let mut leaves: Vec<u64> = Vec::new();
    let mut cur: Vec<char> = Vec::new();
    let mut i: usize = 0;
    proof {
        assert(nav_fold(Seq::<Seq<char>>::empty()) == NavState { ws: None, tabs: tabs@, leaves: leaves@ });
    }
    while i < chars.len()
        invariant
            i <= chars@.len(),
            chars@ == line@,
            (NavState { ws, tabs: tabs@, leaves: leaves@ }) == nav_fold(scan_words(line@, i as nat).0),
            cur@ == scan_words(line@, i as nat).1,
        decreases chars@.len() - i,
    {
        let c = chars[i];
        if char_is_space(c) {
            if cur.len() > 0 {
                let ghost done = scan_words(line@, i as nat).0;
                nav_word(&mut ws, &mut tabs, &mut leaves, &cur);
                proof {
                    assert(done.push(cur@).drop_last() =~= done);
                }
                cur = Vec::new();
            }
        } else {
            cur.push(c);
        }
        i = i + 1;
    }
    if cur.len() > 0 {
        let ghost done = scan_words(line@, i as nat).0;
        nav_word(&mut ws, &mut tabs, &mut leaves, &cur);
        proof {
            assert(done.push(cur@).drop_last() =~= done);
        }
    }
    match ws {
        Some(id) => Some(NavSnapshot { workspace_id: id, tabs, leaves }),
        None => None,
    }
}


/// The cursor key sequence for arrow `letter`: `ESC O letter` in
/// application cursor mode (DECCKM), `ESC [ letter` otherwise.
pub fn encode_arrow(application_cursor_keys: bool, letter: u8) -> (r: [u8; 3])
    ensures
        r@ == seq![0x1bu8, if application_cursor_keys { 79u8 } else { 91u8 }, letter],
{
    let r = if application_cursor_keys {
        [0x1b, 79, letter]
    } else {
        [0x1b, 91, letter]
    };
    assert(r@ =~= seq![0x1bu8, if application_cursor_keys { 79u8 } else { 91u8 }, letter]);
    r
}

/// `ESC [ 200 ~`, which opens a bracketed paste.
pub open spec fn paste_open() -> Seq<u8> {
    seq![0x1bu8, 91u8, 50u8, 48u8, 48u8, 126u8]
}

/// `ESC [ 201 ~`, which closes a bracketed paste.
pub open spec fn paste_close() -> Seq<u8> {
    seq![0x1bu8, 91u8, 50u8, 48u8, 49u8, 126u8]
}

fn push_all(out: &mut Vec<u8>, bytes: &[u8])
    ensures
        final(out)@ == old(out)@ + bytes@,
{
    let ghost start = out@;
    let mut i: usize = 0;
    while i < bytes.len()
        invariant
            i <= bytes@.len(),
            out@ == start + bytes@.subrange(0, i as int),
        decreases bytes@.len() - i,
    {
        out.push(bytes[i]);
        i = i + 1;
    }
    assert(bytes@.subrange(0, bytes@.len() as int) =~= bytes@);
}

/// The bytes a paste of `body` writes: framed by the bracketed-paste
/// markers when the terminal asked for them, unchanged otherwise.
pub fn wrap_paste(bracketed: bool, body: &[u8]) -> (r: Vec<u8>)
    ensures
        r@ == if bracketed {
            paste_open() + body@ + paste_close()
        } else {
            body@
        },
{
    let mut out: Vec<u8> = Vec::new();
    if !bracketed {
        push_all(&mut out, body);
        assert(out@ =~= body@);
        return out;
    }
    out.push(0x1b);
    out.push(91);
    out.push(50);
    out.push(48);
    out.push(48);
    out.push(126);
    assert(out@ =~= paste_open());
    push_all(&mut out, body);
    out.push(0x1b);
    out.push(91);
    out.push(50);
    out.push(48);
    out.push(49);
    out.push(126);
    assert(out@ =~= paste_open() + body@ + paste_close());
    out
}


/// `l` without one trailing `\r`.
pub open spec fn strip_cr(l: Seq<char>) -> Seq<char> {
    if l.len() > 0 && l.last() == '\r' {
        l.drop_last()
    } else {
        l
    }
}

/// `str::lines` as far as a search needs it: the newline-terminated lines
/// without a trailing `\r`, then the unterminated rest.
pub open spec fn reply_lines(s: Seq<char>) -> Seq<Seq<char>> {
    let (done, cur) = scan_pieces(s, '\n', s.len());
    done.map_values(|l: Seq<char>| strip_cr(l)).push(cur)
}

/// The first of `lines` that contains `tabs=`.
pub open spec fn first_with_tabs(lines: Seq<Seq<char>>) -> Option<Seq<char>>
    decreases lines.len(),
{
    if lines.len() == 0 {
        None
    } else {
        match first_with_tabs(lines.drop_last()) {
            Some(l) => Some(l),
            None => if crate::text::contains_text(lines.last(), tabs_key()) {
                Some(lines.last())
            } else {
                None
            },
        }
    }
}

/// The line of a NEW_TAB reply that carries the tab list: the first line
/// containing `tabs=`, else the whole reply trimmed.
pub open spec fn nav_reply_line(reply: Seq<char>) -> Seq<char> {
    match first_with_tabs(reply_lines(reply)) {
        Some(l) => l,
        None => crate::text::trim(reply),
    }
}

/// Pick the line of a NEW_TAB reply to parse.
pub fn nav_reply_pick(reply: &str) -> (r: String)
    ensures
        r@ == nav_reply_line(reply@),
{
    let chars = chars_of(reply);
    let key = key_tabs();
    let mut start: usize = 0;
    let mut found: Option<Vec<char>> = None;
    let mut i: usize = 0;
    while i < chars.len()
        invariant
            chars@ == reply@,
            key@ == tabs_key(),
            start <= i <= chars@.len(),
            reply@.subrange(start as int, i as int) == scan_pieces(reply@, '\n', i as nat).1,
            match found {
                Some(l) => first_with_tabs(scan_pieces(reply@, '\n', i as nat).0.map_values(|l: Seq<char>| strip_cr(l))) == Some(l@),
                None => first_with_tabs(scan_pieces(reply@, '\n', i as nat).0.map_values(|l: Seq<char>| strip_cr(l))) is None,
            },
        decreases chars@.len() - i,
    {
        if chars[i] == '\n' {
            let ghost done = scan_pieces(reply@, '\n', i as nat).0;
            let ghost cur = scan_pieces(reply@, '\n', i as nat).1;
            if found.is_none() {
                let mut line = crate::text::slice_chars(&chars, start, i);
                if line.len() > 0 && line[line.len() - 1] == '\r' {
                    line.pop();
                    proof {
                        assert(line@ =~= strip_cr(cur));
                    }
                }
                if crate::text::contains_chars(&line, &key) {
                    found = Some(line);
                }
            }
            proof {
                assert(done.push(cur).map_values(|l: Seq<char>| strip_cr(l)) =~= done.map_values(
                    |l: Seq<char>| strip_cr(l),
                ).push(strip_cr(cur)));
                assert(done.push(cur).map_values(|l: Seq<char>| strip_cr(l)).drop_last() =~= done.map_values(
                    |l: Seq<char>| strip_cr(l),
                ));
                assert(reply@.subrange((i + 1) as int, (i + 1) as int) =~= Seq::<char>::empty());
            }
            start = i + 1;
        } else {
            proof {
                assert(reply@.subrange(start as int, i + 1) =~= scan_pieces(reply@, '\n', i as nat).1.push(reply@[i as int]));
            }
        }
        i = i + 1;
    }
    let ghost done = scan_pieces(reply@, '\n', reply@.len()).0;
    let ghost cur = scan_pieces(reply@, '\n', reply@.len()).1;
    proof {
        assert(reply_lines(reply@).drop_last() =~= done.map_values(|l: Seq<char>| strip_cr(l)));
        assert(reply_lines(reply@).last() == cur);
        assert(first_with_tabs(reply_lines(reply@)) == match first_with_tabs(done.map_values(|l: Seq<char>| strip_cr(l))) {
            Some(l) => Some(l),
            None => if crate::text::contains_text(cur, tabs_key()) {
                Some(cur)
            } else {
                None
            },
        });
        assert(reply@.subrange(start as int, reply@.len() as int) == cur);
    }
    match found {
        Some(l) => {
            proof {
                assert(i == reply@.len());
                assert(first_with_tabs(done.map_values(|l: Seq<char>| strip_cr(l))) == Some(l@));
                assert(nav_reply_line(reply@) == l@);
            }
            string_from_chars(l)
        },
        None => {
            let last = crate::text::slice_chars(&chars, start, chars.len());
            assert(chars@.subrange(0, chars@.len() as int) =~= reply@);
            if crate::text::contains_chars(&last, &key) {
                string_from_chars(last)
            } else {
                string_from_chars(crate::text::trim_chars(&chars, 0, chars.len()))
            }
        },
    }
}

/// Where the attach socket lives by default: under `RILL_RUNTIME_DIR` when
/// set; else, on macOS, under Application Support in the home directory;
/// elsewhere under `XDG_RUNTIME_DIR/rill` when set, else under
/// `.local/share/rill/run` in the home directory (`/var/empty` without one).
pub open spec fn default_attach_socket(runtime_dir: Option<Seq<char>>, home: Option<Seq<char>>, xdg: Option<Seq<char>>, macos: bool) -> Seq<char> {
    let h = match home {
        Some(h) => h,
        None => "/var/empty"@,
    };
    match runtime_dir {
        Some(d) => crate::look::joined(d, "attach.sock"@),
        None => if macos {
            crate::look::joined(h, "Library/Application Support/RILL/run/attach.sock"@)
        } else {
            match xdg {
                Some(x) => crate::look::joined(x, "rill/attach.sock"@),
                None => crate::look::joined(h, ".local/share/rill/run/attach.sock"@),
            }
        },
    }
}

pub open spec fn opt_view(o: Option<&str>) -> Option<Seq<char>> {
    match o {
        Some(s) => Some(s@),
        None => None,
    }
}

/// The default attach socket for the given environment values.
pub fn default_attach_socket_for(runtime_dir: Option<&str>, home: Option<&str>, xdg: Option<&str>, macos: bool) -> (r: String)
    ensures
        r@ == default_attach_socket(opt_view(runtime_dir), opt_view(home), opt_view(xdg), macos),
{
    let h = match home {
        Some(h) => h,
        None => "/var/empty",
    };
    match runtime_dir {
        Some(d) => crate::look::join_path(d, "attach.sock"),
        None => if macos {
            crate::look::join_path(h, "Library/Application Support/RILL/run/attach.sock")
        } else {
            match xdg {
                Some(x) => crate::look::join_path(x, "rill/attach.sock"),
                None => crate::look::join_path(h, ".local/share/rill/run/attach.sock"),
            }
        },
    }
}

/// `items` are read back to back from `b`: offsets `ends` start at the
/// 9-byte header's end, and item `i` is the item whose header sits at
/// `ends[i]`, ending at `ends[i + 1]`.
pub open spec fn items_chained(b: Seq<u8>, items: Seq<ContentItemView>, ends: Seq<nat>) -> bool {
    &&& ends.len() == items.len() + 1
    &&& ends[0] == 9
    &&& forall|i: int| 0 <= i < items.len() ==> item_at(b, #[trigger] ends[i]) == Some((items[i], ends[i + 1]))
}

proof fn lemma_first_items_chain(b: Seq<u8>, n: nat) -> (ends: Seq<nat>)
    requires
        first_items(b, n) is Some,
    ensures
        items_chained(b, first_items(b, n)->Some_0.0, ends),
        ends.last() == first_items(b, n)->Some_0.1,
    decreases n,
{
    if n == 0 {
        seq![9nat]
    } else {
        let prev = lemma_first_items_chain(b, (n - 1) as nat);
        let (items, at) = first_items(b, (n - 1) as nat)->Some_0;
        let (it, next) = item_at(b, at)->Some_0;
        let ends = prev.push(next);
        let all = items.push(it);
        assert forall|i: int| 0 <= i < all.len() implies item_at(b, #[trigger] ends[i]) == Some((all[i], ends[i + 1])) by {
            if i < items.len() {
                assert(ends[i] == prev[i]);
                assert(ends[i + 1] == prev[i + 1]);
                assert(all[i] == items[i]);
            } else {
                assert(ends[i] == prev.last());
            }
        }
        ends
    }
}

/// A content snapshot's items come back in the order the reply carries
/// them: the first is the item right after the 9-byte header, each next
/// one is the item that starts where the one before ended, the last one
/// ends the reply, and there are as many as the header's count says.
pub proof fn lemma_snapshot_items_in_reply_order(b: Seq<u8>)
    requires
        snapshot_items(b) is Some,
    ensures
        ({
            let items = snapshot_items(b)->Some_0;
            &&& items.len() == field(b, 5, 4)
            &&& exists|ends: Seq<nat>| items_chained(b, items, ends) && ends.last() == b.len()
        }),
{
    let count = field(b, 5, 4);
    let ends = lemma_first_items_chain(b, count);
    lemma_first_items_len(b, count);
    let items = snapshot_items(b)->Some_0;
    assert(items_chained(b, items, ends) && ends.last() == b.len());
}

proof fn lemma_first_items_len(b: Seq<u8>, n: nat)
    requires
        first_items(b, n) is Some,
    ensures
        first_items(b, n)->Some_0.0.len() == n,
    decreases n,
{
    if n > 0 {
        lemma_first_items_len(b, (n - 1) as nat);
    }
}

} // verus!

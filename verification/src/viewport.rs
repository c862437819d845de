//! Host viewport over the live grid plus the rows that scrolled off it. The
//! emulator keeps no history of its own; the host keeps a bounded one.

use vstd::prelude::*;
use crate::chip0::PodCell;

verus! {

/// Most scrolled-off rows the host keeps.
pub const MAX_HISTORY_ROWS: usize = 10000;

/// A live grid snapshot as the host receives it: the cells row-major, the
/// cursor, the damaged rows and the default colours.
#[derive(Clone, Debug)]
pub struct LiveGrid {
    pub cols: u16,
    pub rows: u16,
    pub cursor_col: u16,
    pub cursor_row: u16,
    pub cursor_visible: bool,
    pub full_damage: bool,
    pub damage_row0: u16,
    pub damage_row1: u16,
    pub default_fg: u32,
    pub default_bg: u32,
    pub grapheme_truncated: u32,
    pub replies_dropped: u32,
    pub cells: Vec<PodCell>,
}

/// A live grid as a value.
pub struct GridView {
    pub cols: u16,
    pub rows: u16,
    pub cursor_col: u16,
    pub cursor_row: u16,
    pub cursor_visible: bool,
    pub full_damage: bool,
    pub damage_row0: u16,
    pub damage_row1: u16,
    pub default_fg: u32,
    pub default_bg: u32,
    pub grapheme_truncated: u32,
    pub replies_dropped: u32,
    pub cells: Seq<PodCell>,
}

impl LiveGrid {
    pub open spec fn view(&self) -> GridView {
        GridView {
            cols: self.cols,
            rows: self.rows,
            cursor_col: self.cursor_col,
            cursor_row: self.cursor_row,
            cursor_visible: self.cursor_visible,
            full_damage: self.full_damage,
            damage_row0: self.damage_row0,
            damage_row1: self.damage_row1,
            default_fg: self.default_fg,
            default_bg: self.default_bg,
            grapheme_truncated: self.grapheme_truncated,
            replies_dropped: self.replies_dropped,
            cells: self.cells@,
        }
    }
}

pub open spec fn rows_view(v: Seq<Vec<PodCell>>) -> Seq<Seq<PodCell>> {
    v.map_values(|r: Vec<PodCell>| r@)
}

/// The history after taking in `rows`, one at a time: each is appended,
/// and when that puts the history over `MAX_HISTORY_ROWS` the oldest row
/// goes.
pub open spec fn ingested(h: Seq<Seq<PodCell>>, rows: Seq<Seq<PodCell>>) -> Seq<Seq<PodCell>>
    decreases rows.len(),
{
    if rows.len() == 0 {
        h
    } else {
        let h1 = ingested(h, rows.drop_last()).push(rows.last());
        if h1.len() > MAX_HISTORY_ROWS {
            h1.drop_first()
        } else {
            h1
        }
    }
}

/// Take the rows that scrolled off the live grid into the history.
pub fn ingest_scrolled(history: &mut Vec<Vec<PodCell>>, rows: Vec<Vec<PodCell>>)
    ensures
        rows_view(final(history)@) == ingested(rows_view(old(history)@), rows_view(rows@)),
{
    let ghost all = rows_view(rows@);
    let ghost h0 = rows_view(history@);
    let mut rest = rows;
    let mut k: usize = 0;
    let n = rest.len();
    proof {
        assert(all.subrange(0, 0) =~= Seq::<Seq<PodCell>>::empty());
        assert(rows_view(rest@) =~= all.subrange(0, 0 + (n - 0) as int));
    }
    while rest.len() > 0
        invariant
            k + rest@.len() == n,
            n == all.len(),
            rows_view(rest@) == all.subrange(k as int, n as int),
            rows_view(history@) == ingested(h0, all.subrange(0, k as int)),
        decreases rest@.len(),
    {
        let ghost before = rest@;
        let row = rest.remove(0);
        let ghost hb = history@;
        history.push(row);
        if history.len() > MAX_HISTORY_ROWS {
            let _oldest = history.remove(0);
        }
        proof {
            assert(rest@ =~= before.subrange(1, before.len() as int));
            assert(rows_view(rest@) =~= all.subrange(k + 1, n as int)) by {
                assert forall|j: int| 0 <= j < rest@.len() implies rows_view(rest@)[j] == all.subrange(
                    k + 1,
                    n as int,
                )[j] by {
                    assert(rest@[j] == before[j + 1]);
                    assert(rows_view(before)[j + 1] == all.subrange(k as int, n as int)[j + 1]);
                }
            }
            assert(row@ == all[k as int]) by {
                assert(rows_view(before)[0] == all.subrange(k as int, n as int)[0]);
            }
            let pre = all.subrange(0, k + 1);
            assert(pre.drop_last() =~= all.subrange(0, k as int));
            assert(pre.last() == row@);
            assert(rows_view(hb.push(row)) =~= rows_view(hb).push(row@));
            if hb.push(row).len() > MAX_HISTORY_ROWS {
                assert(rows_view(history@) =~= rows_view(hb.push(row)).drop_first());
            }
        }
        k = k + 1;
    }
    assert(all.subrange(0, n as int) =~= all);
}

/// The wheel offset, capped at the history length (taken, as the offset
/// is, as a `u32`).
pub open spec fn clamped(history_len: usize, offset: u32) -> u32 {
    let max = history_len as u32;
    if offset <= max {
        offset
    } else {
        max
    }
}

/// Cap a wheel offset at the number of history rows.
pub fn clamp_offset(history_len: usize, live_rows: u16, offset: u32) -> (r: u32)
    ensures
        r == clamped(history_len, offset),
{
    let max = history_len as u32;
    let _ = live_rows;
    if offset <= max {
        offset
    } else {
        max
    }
}

/// Typing returns the presenter to the live tail: whatever the wheel
/// offset was, the offset after input is zero.
pub fn follow_live_after_input(offset: u32) -> (r: u32)
    ensures
        r == 0,
{
    let _ = offset;
    0
}

/// The complete rows among the first `r` rows of a live grid's cells.
pub open spec fn live_rows(cells: Seq<PodCell>, cols: nat, r: nat) -> Seq<Seq<PodCell>>
    decreases r,
{
    if r == 0 {
        Seq::empty()
    } else {
        let prev = live_rows(cells, cols, (r - 1) as nat);
        let start = (r - 1) * cols;
        if start + cols <= cells.len() {
            prev.push(cells.subrange(start, start + cols))
        } else {
            prev
        }
    }
}

pub open spec fn blank_cells(n: nat, blank: PodCell) -> Seq<PodCell> {
    Seq::new(n, |_i: int| blank)
}

/// Row `i` of `st` cut or padded with `blank` to `cols` cells; all blank
/// where `st` has no such row.
pub open spec fn shown_row(st: Seq<Seq<PodCell>>, i: int, cols: nat, blank: PodCell) -> Seq<PodCell> {
    if 0 <= i < st.len() {
        let row = st[i];
        if row.len() >= cols {
            row.subrange(0, cols as int)
        } else {
            row + blank_cells((cols - row.len()) as nat, blank)
        }
    } else {
        blank_cells(cols, blank)
    }
}

/// Rows `start .. start + k` of `st`, each shown as `shown_row` does, one
/// after the other.
pub open spec fn shown_rows(st: Seq<Seq<PodCell>>, start: int, k: nat, cols: nat, blank: PodCell) -> Seq<PodCell>
    decreases k,
{
    if k == 0 {
        Seq::empty()
    } else {
        shown_rows(st, start, (k - 1) as nat, cols, blank) + shown_row(st, start + k - 1, cols, blank)
    }
}

pub open spec fn sat_sub(a: int, b: int) -> int {
    if a >= b {
        a - b
    } else {
        0
    }
}

/// The grid the host paints for wheel offset `offset`: the live grid itself
/// at offset 0 or with no history; otherwise `rows` rows of history
/// followed by the live rows, ending the clamped offset above the live
/// tail, with the cursor hidden and every row damaged.
pub open spec fn composed(history: Seq<Seq<PodCell>>, live: GridView, offset: u32) -> GridView {
    if offset == 0 || history.len() == 0 {
        live
    } else {
        let st = history + live_rows(live.cells, live.cols as nat, live.rows as nat);
        let end = sat_sub(st.len() as int, clamped(history.len() as usize, offset) as int);
        let start = sat_sub(end, live.rows as int);
        let blank = PodCell { codepoint: 32, fg: live.default_fg, bg: live.default_bg, attrs: 0, _pad: 0 };
        GridView {
            cursor_visible: offset == 0 && live.cursor_visible,
            full_damage: true,
            damage_row0: 0,
            damage_row1: sat_sub(live.rows as int, 1) as u16,
            cells: shown_rows(st, start, live.rows as nat, live.cols as nat, blank),
            ..live
        }
    }
}

/// `k` shown rows of `cols` cells hold exactly `k * cols` cells, each row
/// cut or padded to the width.
pub proof fn lemma_shown_rows_len(st: Seq<Seq<PodCell>>, start: int, k: nat, cols: nat, blank: PodCell)
    ensures
        shown_rows(st, start, k, cols, blank).len() == k * cols,
    decreases k,
{
    if k > 0 {
        lemma_shown_rows_len(st, start, (k - 1) as nat, cols, blank);
        let i = start + k - 1;
        if 0 <= i < st.len() {
            let row = st[i];
            if row.len() < cols {
                assert((row + blank_cells((cols - row.len()) as nat, blank)).len() == cols);
            }
        }
        assert(shown_row(st, i, cols, blank).len() == cols);
        let km1 = (k - 1) as nat;
        assert(shown_rows(st, start, k, cols, blank) == shown_rows(st, start, km1, cols, blank) + shown_row(st, i, cols, blank));
        assert(km1 * cols + cols == k * cols) by (nonlinear_arith)
            requires
                km1 == k - 1,
        ;
    } else {
        assert(k * cols == 0) by (nonlinear_arith)
            requires
                k == 0,
        ;
    }
}

proof fn lemma_live_rows_len(cells: Seq<PodCell>, cols: nat, r: nat)
    ensures
        live_rows(cells, cols, r).len() <= r,
        forall|j: int| #![trigger live_rows(cells, cols, r)[j]] 0 <= j < live_rows(cells, cols, r).len() ==> live_rows(cells, cols, r)[j].len() == cols,
    decreases r,
{
    if r > 0 {
        lemma_live_rows_len(cells, cols, (r - 1) as nat);
    }
}

/// Append the cells of `row`, cut or padded with `blank` to `cols`.
fn push_row(out: &mut Vec<PodCell>, row: &[PodCell], cols: usize, blank: PodCell)
    ensures
        final(out)@ == old(out)@ + (if row@.len() >= cols {
            row@.subrange(0, cols as int)
        } else {
            row@ + blank_cells((cols - row@.len()) as nat, blank)
        }),
{
    let ghost start = out@;
    let take = if row.len() >= cols {
        cols
    } else {
        row.len()
    };
    let mut i: usize = 0;
    while i < take
        invariant
            take <= row@.len(),
            take <= cols,
            i <= take,
            out@ == start + row@.subrange(0, i as int),
        decreases take - i,
    {
        out.push(row[i]);
        i = i + 1;
    }
    let ghost mid = out@;
    let mut j: usize = take;
    while j < cols
        invariant
            take <= j <= cols,
            out@ == mid + blank_cells((j - take) as nat, blank),
        decreases cols - j,
    {
        out.push(blank);
        proof {
            assert(blank_cells((j + 1 - take) as nat, blank) =~= blank_cells((j - take) as nat, blank).push(blank));
        }
        j = j + 1;
    }
    proof {
        if row@.len() >= cols {
            assert(blank_cells(0, blank) =~= Seq::<PodCell>::empty());
            assert(out@ =~= start + row@.subrange(0, cols as int));
        } else {
            assert(row@.subrange(0, take as int) =~= row@);
            assert(out@ =~= start + (row@ + blank_cells((cols - row@.len()) as nat, blank)));
        }
    }
}

/// Paint `live.rows` rows of cells ending `offset` rows above the live
/// tail.
pub fn compose_viewport(history: &Vec<Vec<PodCell>>, live: &LiveGrid, offset: u32) -> (r: LiveGrid)
    requires
        history@.len() + 0x30000 <= usize::MAX,
    ensures
        r.view() == composed(rows_view(history@), live.view(), offset),
{
    if offset == 0 || history.len() == 0 {
        let cells = copy_cells(&live.cells);
        return LiveGrid {
            cols: live.cols,
            rows: live.rows,
            cursor_col: live.cursor_col,
            cursor_row: live.cursor_row,
            cursor_visible: live.cursor_visible,
            full_damage: live.full_damage,
            damage_row0: live.damage_row0,
            damage_row1: live.damage_row1,
            default_fg: live.default_fg,
            default_bg: live.default_bg,
            grapheme_truncated: live.grapheme_truncated,
            replies_dropped: live.replies_dropped,
            cells,
        };
    }
    let ghost hv = rows_view(history@);
    let cols = live.cols as usize;
    let rows = live.rows as usize;
    // Where each complete live row starts in `live.cells`.
    let mut starts: Vec<usize> = Vec::new();
    let mut r: usize = 0;
    while r < rows
        invariant
            rows == live.rows,
            cols == live.cols,
            r <= rows,
            starts@.len() == live_rows(live.cells@, cols as nat, r as nat).len(),
            forall|j: int|
                #![trigger starts@[j]]
                0 <= j < starts@.len() ==> starts@[j] + cols <= live.cells@.len() && live_rows(
                    live.cells@,
                    cols as nat,
                    r as nat,
                )[j] == live.cells@.subrange(starts@[j] as int, starts@[j] + cols),
        decreases rows - r,
    {
        proof {
            assert((r as int) * (cols as int) <= 65535 * 65535) by (nonlinear_arith)
                requires
                    r <= 65535,
                    cols <= 65535,
            ;
        }
        let start = r * cols;
        if start + cols <= live.cells.len() {
            starts.push(start);
        }
        proof {
            assert((r + 1 - 1) * cols == r * cols);
        }
        r = r + 1;
    }
    let ghost lr = live_rows(live.cells@, cols as nat, rows as nat);
    let ghost st = hv + lr;
    proof {
        lemma_live_rows_len(live.cells@, cols as nat, rows as nat);
    }
    let hlen = history.len();
    let total = hlen + starts.len();
    let off = clamp_offset(hlen, live.rows, offset) as usize;
    let end = if total >= off {
        total - off
    } else {
        0
    };
    let first = if end >= rows {
        end - rows
    } else {
        0
    };
    proof {
        assert(off == clamped(hlen, offset));
        assert(end == sat_sub(total as int, off as int));
        assert(first == sat_sub(end as int, rows as int));
        assert(hv.len() == hlen);
    }
    let blank = PodCell { codepoint: 32, fg: live.default_fg, bg: live.default_bg, attrs: 0, _pad: 0 };
    let mut cells: Vec<PodCell> = Vec::new();
    let mut k: usize = 0;
    proof {
        assert(st.len() == total);
    }
    while k < rows
        invariant
            rows == live.rows,
            cols == live.cols,
            k <= rows,
            st == hv + lr,
            hv == rows_view(history@),
            hlen == history@.len(),
            total == st.len(),
            starts@.len() == lr.len(),
            first <= end <= total,
            total <= hlen + 65535,
            hlen + 0x30000 <= usize::MAX,
            first + rows <= total + 65535,
            forall|j: int|
                #![trigger starts@[j]]
                0 <= j < starts@.len() ==> starts@[j] + cols <= live.cells@.len() && lr[j]
                    == live.cells@.subrange(starts@[j] as int, starts@[j] + cols),
            cells@ == shown_rows(st, first as int, k as nat, cols as nat, blank),
        decreases rows - k,
    {
        let i = first + k;
        proof {
            assert(shown_rows(st, first as int, (k + 1) as nat, cols as nat, blank) == shown_rows(st, first as int, k as nat, cols as nat, blank) + shown_row(st, first + k, cols as nat, blank));
        }
        let ghost before = cells@;
        if i < hlen {
            push_row(&mut cells, history[i].as_slice(), cols, blank);
            proof {
                assert(st[i as int] == history@[i as int]@);
            }
        } else if i - hlen < starts.len() {
            let idx = i - hlen;
            let s = starts[idx];
            assert(starts@[idx as int] == s);
            assert(s + cols <= live.cells@.len());
            let _clen = live.cells.len();
            let row = copy_range_cells(&live.cells, s, s + cols);
            push_row(&mut cells, row.as_slice(), cols, blank);
            proof {
                assert(st[i as int] == lr[i - hlen]);
            }
        } else {
            let empty: Vec<PodCell> = Vec::new();
            push_row(&mut cells, empty.as_slice(), cols, blank);
            proof {
                assert(Seq::<PodCell>::empty() + blank_cells(cols as nat, blank) =~= blank_cells(cols as nat, blank));
            }
        }
        k = k + 1;
    }
    let damage_row1 = if live.rows >= 1 {
        live.rows - 1
    } else {
        0
    };
    LiveGrid {
        cols: live.cols,
        rows: live.rows,
        cursor_col: live.cursor_col,
        cursor_row: live.cursor_row,
        cursor_visible: offset == 0 && live.cursor_visible,
        full_damage: true,
        damage_row0: 0,
        damage_row1,
        default_fg: live.default_fg,
        default_bg: live.default_bg,
        grapheme_truncated: live.grapheme_truncated,
        replies_dropped: live.replies_dropped,
        cells,
    }
}

fn copy_cells(v: &Vec<PodCell>) -> (r: Vec<PodCell>)
    ensures
        r@ == v@,
{
    let mut r: Vec<PodCell> = Vec::new();
    let mut i: usize = 0;
    while i < v.len()
        invariant
            i <= v@.len(),
            r@ == v@.subrange(0, i as int),
        decreases v@.len() - i,
    {
        r.push(v[i]);
        i = i + 1;
    }
    assert(r@ =~= v@);
    r
}

fn copy_range_cells(v: &Vec<PodCell>, from: usize, to: usize) -> (r: Vec<PodCell>)
    requires
        from <= to <= v@.len(),
    ensures
        r@ == v@.subrange(from as int, to as int),
{
    let mut r: Vec<PodCell> = Vec::new();
    let mut i: usize = from;
    while i < to
        invariant
            from <= i <= to,
            to <= v@.len(),
            r@ == v@.subrange(from as int, i as int),
        decreases to - i,
    {
        r.push(v[i]);
        i = i + 1;
    }
    r
}


/// A snapshot that would be skipped for empty damage must repaint every
/// row once the host viewport has moved.
pub fn mark_full_if_viewport_jumped(grid: &mut LiveGrid, jumped: bool)
    ensures
        final(grid).view() == (GridView { full_damage: old(grid).full_damage || jumped, ..old(grid).view() }),
{
    if jumped {
        grid.full_damage = true;
    }
}

} // verus!

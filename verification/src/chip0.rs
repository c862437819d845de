//! Plain cells and grids as the display emulator hands them out, and the
//! framing of a headless resync. The emulator itself sits behind the
//! caller's adapter.

use vstd::prelude::*;

verus! {

/// One screen cell, flat and sixteen bytes.
#[derive(Clone, Copy, Debug, PartialEq, Eq, Structural)]
pub struct PodCell {
    pub codepoint: u32,
    pub fg: u32,
    pub bg: u32,
    pub attrs: u16,
    pub _pad: u16,
}

/// A grid snapshot: `cols * rows` cells, row-major.
#[derive(Clone, Debug)]
pub struct PodGrid {
    pub cols: u16,
    pub rows: u16,
    pub cursor_col: u16,
    pub cursor_row: u16,
    pub cursor_visible: bool,
    pub full_damage: bool,
    pub damage_row0: u16,
    pub damage_row1: u16,
    /// Clusters this snapshot could not materialise and rendered as a space.
    pub grapheme_truncated: u32,
    pub cells: Vec<PodCell>,
}

impl PodGrid {
    /// The cell at column `col` of row `row`, where the cell list reaches
    /// that far.
    pub fn cell(&self, col: u16, row: u16) -> (r: Option<&PodCell>)
        ensures
            r is Some <==> row * self.cols + col < self.cells@.len(),
            r matches Some(c) ==> *c == self.cells@[row * self.cols + col],
    {
        proof {
            assert((row as int) * (self.cols as int) <= 65535 * 65535) by (nonlinear_arith)
                requires
                    row <= 65535,
                    self.cols <= 65535,
            ;
        }
        let i = (row as usize) * (self.cols as usize) + (col as usize);
        if i < self.cells.len() {
            Some(&self.cells[i])
        } else {
            None
        }
    }
}

/// `ESC [ 2 J ESC [ H`: clear the screen and home the cursor.
pub open spec fn clear_and_home() -> Seq<u8> {
    seq![0x1bu8, 91u8, 50u8, 74u8, 0x1bu8, 91u8, 72u8]
}

/// The bytes of a headless resync: clear and home, then the emulator's
/// repaint of the screen it rebuilt from history.
pub fn resync_frame(repaint: &[u8]) -> (r: Vec<u8>)
    ensures
        r@ == clear_and_home() + repaint@,
{
    let mut out: Vec<u8> = Vec::new();
    out.push(0x1b);
    out.push(91);
    out.push(50);
    out.push(74);
    out.push(0x1b);
    out.push(91);
    out.push(72);
    let ghost head = out@;
    let mut i: usize = 0;
    while i < repaint.len()
        invariant
            i <= repaint@.len(),
            out@ == head + repaint@.subrange(0, i as int),
        decreases repaint@.len() - i,
    {
        out.push(repaint[i]);
        i = i + 1;
    }
    assert(repaint@.subrange(0, repaint@.len() as int) =~= repaint@);
    assert(out@ =~= clear_and_home() + repaint@);
    out
}

} // verus!

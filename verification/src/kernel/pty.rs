//! Terminal geometry and line discipline, as plain values. Opening the PTY
//! and every descriptor operation are the caller's.

use vstd::prelude::*;

verus! {

#[derive(Clone, Copy, Debug, PartialEq, Eq, Structural)]
pub struct Winsize {
    pub cols: u16,
    pub rows: u16,
    pub px_w: u16,
    pub px_h: u16,
}

impl Default for Winsize {
    /// 80x24 cells of 8x16 pixels.
    fn default() -> (w: Winsize)
        ensures
            w == (Winsize { cols: 80, rows: 24, px_w: 640, px_h: 384 }),
    {
        Winsize { cols: 80, rows: 24, px_w: 80 * 8, px_h: 24 * 16 }
    }
}

/// Line-discipline mode for the slave.
#[derive(Clone, Copy, Debug, PartialEq, Eq, Structural)]
pub enum Discipline {
    /// Normal interactive terminal.
    Interactive,
    /// Signal, canonical, echo, output-processing, flow-control and strip
    /// bits cleared, so the line discipline cannot rewrite the byte stream.
    Raw,
}

} // verus!

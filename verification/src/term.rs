//! Trusted boundary to the terminal-state engine (the `avt` crate). The
//! engine interprets raw escape-sequence bytes and maintains the
//! character grid; this library only feeds it output and reads the grid
//! back as plain values.
use vstd::prelude::*;

use avt::Vt as AvtVt;

use crate::color::{Rgb, TermColor};
use crate::timeline::TermCell;

verus! {

#[verifier::external_type_specification]
#[verifier::external_body]
pub struct ExAvtVt(AvtVt);

/// Relies on avt::Vt::builder().size(..).scrollback_limit(0).build():
/// constructs a terminal-state engine with the given grid dimensions
/// and no scrollback retention. The engine panics on an empty grid
/// (its terminal setup computes `rows - 1`, and printing to a
/// zero-column line indexes an empty cell vector), so both dimensions
/// must be at least one.
#[verifier::external_body]
pub(crate) fn vt_new(cols: usize, rows: usize) -> AvtVt
    requires
        cols >= 1,
        rows >= 1,
{
    avt::Vt::builder().size(cols, rows).scrollback_limit(0).build()
}

/// Relies on avt::Vt::feed_str: interprets raw terminal output and
/// returns the indices of the rows whose visible content changed. What
/// changes depends on the engine's internal state, so nothing more is
/// assumed of the result. Feeding panics only on an engine with an
/// empty grid, which `vt_new` - the crate's sole way to build one -
/// excludes.
#[verifier::external_body]
pub(crate) fn vt_feed(vt: &mut AvtVt, data: &Vec<char>) -> Vec<usize> {
    let text: String = data.iter().collect();
    vt.feed_str(&text).lines
}

/// Relies on avt::Vt::lines, avt::Line::cells, avt::Cell::char and
/// avt::Pen::foreground/background: reads the engine's current grid,
/// one row of cells per terminal row, mapping each cell to its
/// character and optional colors.
#[verifier::external_body]
pub(crate) fn vt_grid(vt: &AvtVt) -> Vec<Vec<TermCell>> {
    let cv = |c: avt::Color| match c {
        avt::Color::Indexed(i) => TermColor::Indexed(i),
        avt::Color::RGB(v) => TermColor::Rgb(Rgb { r: v.r, g: v.g, b: v.b }),
    };
    vt.lines()
        .map(|line| line.cells().iter()
            .map(|cell| TermCell {
                ch: cell.char(),
                fg: cell.pen().foreground().map(cv),
                bg: cell.pen().background().map(cv),
            })
            .collect())
        .collect()
}

} // verus!

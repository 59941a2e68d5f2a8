//! Report-sheet inputs.
//!
//! The core prepares the data a report sheet shows; the surrounding
//! application owns the workbook and does the cell-by-cell writing.

use vstd::prelude::*;
use crate::dtos::CategoryTotals;

verus! {

/// The input of one totals sheet: a borrowed per-category totals table.
pub struct TotalsSheet<'a>(pub &'a CategoryTotals);

impl<'a> TotalsSheet<'a> {
    /// The table the sheet shows.
    pub fn totals(&self) -> (r: &'a CategoryTotals)
        ensures
            r == self.0,
    {
        self.0
    }
}

} // verus!

//! Inventory tally: a ledger of scanned items with running quantities and times of last
//! scan, and a text report that lists the most recently scanned items first.

use vstd::prelude::*;

pub mod decimal;
pub mod history;
pub mod ledger;
pub mod report;

verus! {

} // verus!

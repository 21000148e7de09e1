//! A holder for a finite-state-automaton transition table.
//!
//! The scanner that drives such tables lives outside this library; the
//! table type itself is shared so that a driver can build its tables
//! once and pass them by reference.

use vstd::prelude::*;

verus! {

/// A transition table: one row per state, one column per input class.
pub type ValidTable = Vec<Vec<i32>>;

/// A borrowed transition table.
pub struct Fsa<'a> {
    pub table: &'a ValidTable,
}

impl<'a> Fsa<'a> {
    /// Wraps a table for hand-off to a scanner.
    pub fn define_table(table: &'a ValidTable) -> (f: Fsa<'a>)
        ensures
            f.table == table,
    {
        Fsa { table }
    }
}

} // verus!

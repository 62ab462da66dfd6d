//! Formatting values into vectors of strings which represent tables.
pub mod grid_formatting;
pub mod string_grid;

use vstd::prelude::*;

verus! {

/// A value that can be drawn as a table of box-drawing characters.
pub trait StringTable {
    /// What the value must satisfy to be drawn.
    spec fn renderable(&self) -> bool;

    /// The lines of the table, top to bottom.
    fn to_table(&self) -> (r: Vec<String>)
        requires
            self.renderable(),
    ;
}

} // verus!

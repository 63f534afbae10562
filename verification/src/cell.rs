use vstd::prelude::*;

verus! {

/// One cell of a puzzle line or grid.
///
/// `Empty` is the undetermined state; `True` marks a filled cell and `False`
/// a crossed-out one.  Once a cell leaves `Empty` the solver never assigns it
/// a different value again.
#[derive(Clone, Copy, Debug, PartialEq, Eq, Structural)]
pub enum Cell {
    Empty,
    True,
    False,
}

} // verus!

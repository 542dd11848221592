//! What the widgets show, as far as it is decided by a rule.

use vstd::prelude::*;

verus! {

/// The glyph drawn at the left of a row in the navigation rail.
#[derive(Clone, Copy, PartialEq, Eq, Debug, Structural)]
pub enum Icon {
    Folder,
    Wave,
    Bars,
    List,
}

/// The segment that a one-of-several picker changes to: the one clicked, unless it is the one
/// that is selected already.
pub fn segment_change(selected: usize, clicked: Option<usize>) -> (r: Option<usize>)
    ensures
        r == if clicked == Some(selected) {
            None
        } else {
            clicked
        },
{
    match clicked {
        Some(i) => if i == selected {
            None
        } else {
            Some(i)
        },
        None => None,
    }
}

} // verus!

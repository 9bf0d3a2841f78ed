//! Defaults of the persisted view settings that are not numeric: which grid
//! planes and axes are shown on first launch.

use vstd::prelude::*;

verus! {

/// The XY grid plane is shown by default.
pub fn default_show_grid_xy() -> (r: bool)
    ensures
        r,
{
    true
}

/// The XZ grid plane is hidden by default.
pub fn default_show_grid_xz() -> (r: bool)
    ensures
        !r,
{
    false
}

/// The YZ grid plane is hidden by default.
pub fn default_show_grid_yz() -> (r: bool)
    ensures
        !r,
{
    false
}

/// The axes are shown by default.
pub fn default_show_axes() -> (r: bool)
    ensures
        r,
{
    true
}

} // verus!

//! Default values used when a field is left out of a declarative input.

use vstd::prelude::*;

verus! {

/// The default for boolean knobs that are on unless switched off.
pub fn default_true() -> (r: bool)
    ensures
        r,
{
    true
}

/// The default interchange format tag.
pub fn default_xyz() -> (r: String)
    ensures
        r@ == "xyz"@,
{
    let s = "xyz";
    String::from_str(s)
}

} // verus!

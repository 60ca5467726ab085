pub mod index;
pub mod laws;
pub mod parse;
pub mod quotes;
pub mod range;
pub mod scan;

use vstd::prelude::*;

verus! {

/// Reports the library's version string.
pub fn version() -> (r: &'static str)
    ensures
        r@ == "1.0.0"@,
{
    "1.0.0"
}


} // verus!

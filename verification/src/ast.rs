pub mod expr;
pub mod types;

use vstd::prelude::*;

verus! {

/// The key of an interned name.
pub type StringId = lasso::Spur;

} // verus!

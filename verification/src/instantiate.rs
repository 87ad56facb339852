use crate::types::{Use, Value};
use crate::vec_index::TyConDefInd;
use vstd::prelude::*;

verus! {

/// What a polymorphic type variable is replaced with: a type constructor, or
/// a pair of value and use types.
#[derive(Debug, Clone, Copy)]
pub enum ConOrTypes {
    Con(TyConDefInd),
    Types((Value, Use)),
}

} // verus!

use crate::ast::StringId;
use crate::kinds::KindVar;
use crate::typeck::ValueBinding;
use crate::types::{ComparisonKey, Use, Value};
use crate::vec_index::TyConDefInd;
use vstd::prelude::*;

verus! {

/// The kinds of the rigid placeholder types of one comparison, by name.
pub struct PlaceholderKinds {
    pub key: ComparisonKey,
    pub m: Vec<(StringId, KindVar)>,
}

impl PlaceholderKinds {
    /// No placeholders yet, for the comparison `key`.
    pub fn new(key: ComparisonKey) -> (r: Self)
        ensures
            r.key == key,
            r.m@.len() == 0,
    {
        PlaceholderKinds { key, m: Vec::new() }
    }
}

/// The substitutions of a target type: for each name, its value and use
/// types and its kind; and the kinds of the placeholders made for it.
pub struct ParsedTypeSubstitutions {
    pub subs: Vec<(StringId, ((Value, Use), KindVar))>,
    pub placeholder_kinds: Option<PlaceholderKinds>,
}

/// The bindings a module or a group of definitions makes, names already
/// checked for duplicates: values, and type constructors.
pub struct ParsedBindings {
    pub vars: Vec<(StringId, ValueBinding)>,
    pub types: Vec<(StringId, TyConDefInd)>,
}

} // verus!

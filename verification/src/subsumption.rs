use crate::ast::expr::CoerceSubHoleSrc;
use crate::parse_types::ParsedTypeSubstitutions;
use crate::spans::Span;
use crate::spines::SpineConstructor;
use crate::type_core::ScopeLvl;
use crate::types::{ConstructorAppParams, Use};
use std::rc::Rc;
use vstd::prelude::*;

verus! {

/// The kind of type on the right side of a subsumption check.
#[derive(Debug, Clone, Copy, PartialEq, Eq, Structural)]
pub enum SubsumptionCategory {
    Func,
    Record,
}

/// A pending check that a value is subsumed by a function or record target
/// type: the target, its category, its spine and parameters, and the
/// substitutions written for it.
pub struct SubsumptionCheck {
    pub scopelvl: ScopeLvl,
    pub target_type_span: Span,
    pub sub_hole_src: CoerceSubHoleSrc,
    pub rhs: Use,
    pub rhs_cat: SubsumptionCategory,
    pub rhs_spine: Option<Rc<SpineConstructor>>,
    pub rhs_params: ConstructorAppParams<Use>,
    pub subs: ParsedTypeSubstitutions,
}

/// A pending check that a function value is instantiated to fit a use.
#[derive(Debug, Clone, Copy)]
pub struct FuncInstantiationCheck {
    pub scopelvl: ScopeLvl,
    pub lhs_expr_span: Span,
    pub rhs: Use,
}

} // verus!

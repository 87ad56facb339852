use crate::coercion::UnwrapCoercionCallback;
use crate::spans::Span;
use crate::type_core::ScopeLvl;
use crate::type_errors::HoleSrc;
use crate::types::{ConstructorAppParams, Value};
use vstd::prelude::*;

verus! {

/// Unification of the constructor node of a type: what to do with the
/// coerced type, the parameters found on the value side, the value the
/// parameters were found on, and where new holes come from.
pub struct UnifyConstructors {
    pub cb: UnwrapCoercionCallback,
    pub params: ConstructorAppParams<Value>,
    pub lhs_with_params: Value,
    pub hole_src: HoleSrc,
    pub scopelvl: ScopeLvl,
}

/// Unification of the kind of a type: what to do with the coerced type, where
/// new holes come from, and the span of the target.
pub struct UnifyKinds {
    pub cb: UnwrapCoercionCallback,
    pub hole_src: HoleSrc,
    pub scopelvl: ScopeLvl,
    pub span: Span,
}

/// What a lazy use node runs when the first value reaches it.
pub enum UnificationCallback {
    K(UnifyKinds),
    C(UnifyConstructors),
}

} // verus!

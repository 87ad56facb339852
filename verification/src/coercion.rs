use crate::ast::StringId;
use crate::spans::{ice, ice_message, PartView, Span, SpannedError, ICE};
use crate::templates::RcParsedType;
use crate::introspect_types::{u_dissect_spec, v_dissect_spec, DissectedType};
use crate::spines::SpineContents;
use crate::type_core::TypeCheckerCore;
use crate::subsumption::{FuncInstantiationCheck, SubsumptionCategory, SubsumptionCheck};
use crate::types::{ConstructorAppParams, Polarity, Use, Value};
use crate::text::concat2;
use vstd::prelude::*;

verus! {

/// The category of the target type of a coercion.
#[derive(Debug, Clone, Copy, PartialEq, Eq, Structural)]
pub enum CoercionTargetCategory {
    Never,
    Func,
    Record,
    Variant,
    Other,
}

/// The category of coercion target that a type of shape `dt` has: that of
/// the spine for a spine constructor, never only without parameters.
pub open spec fn category_of(dt: DissectedType, has_params: bool) -> CoercionTargetCategory {
    match dt {
        DissectedType::Never => if has_params {
            CoercionTargetCategory::Other
        } else {
            CoercionTargetCategory::Never
        },
        DissectedType::Func => CoercionTargetCategory::Func,
        DissectedType::Record => CoercionTargetCategory::Record,
        DissectedType::Variant => CoercionTargetCategory::Variant,
        DissectedType::Any | DissectedType::Hole(_) | DissectedType::Unknown => CoercionTargetCategory::Other,
        DissectedType::Constructor(data) => match data.spine {
            Some(spine) => match spine.template {
                SpineContents::Func(_) => CoercionTargetCategory::Func,
                SpineContents::Record(_) => CoercionTargetCategory::Record,
            },
            None => CoercionTargetCategory::Other,
        },
    }
}

/// A coercion target's category follows the head of the type: a function is a
/// function target, a record a record target, a variant a variant target, a
/// spine constructor has the category of its template, never is a never target
/// only without parameters, and anything else is no valid target.
pub proof fn law_category_follows_head(dt: DissectedType, has_params: bool)
    ensures
        dt is Func ==> category_of(dt, has_params) == CoercionTargetCategory::Func,
        dt is Record ==> category_of(dt, has_params) == CoercionTargetCategory::Record,
        dt is Variant ==> category_of(dt, has_params) == CoercionTargetCategory::Variant,
        dt is Never && !has_params ==> category_of(dt, has_params) == CoercionTargetCategory::Never,
        dt is Never && has_params ==> category_of(dt, has_params) == CoercionTargetCategory::Other,
        dt is Any || dt is Hole || dt is Unknown ==> category_of(dt, has_params) == CoercionTargetCategory::Other,
        dt matches DissectedType::Constructor(data) && data.spine is None ==> category_of(dt, has_params)
            == CoercionTargetCategory::Other,
        dt matches DissectedType::Constructor(data) && data.spine matches Some(sp) && sp.template is Func ==> category_of(
            dt,
            has_params,
        ) == CoercionTargetCategory::Func,
        dt matches DissectedType::Constructor(data) && data.spine matches Some(sp) && sp.template is Record ==> category_of(
            dt,
            has_params,
        ) == CoercionTargetCategory::Record,
{
}

impl CoercionTargetCategory {
    /// The category of a type of shape `dt`, applied to parameters or not.
    pub fn new(dt: DissectedType, has_params: bool) -> (r: Self)
        ensures
            r == category_of(dt, has_params),
            dt is Func ==> r == CoercionTargetCategory::Func,
            dt is Record ==> r == CoercionTargetCategory::Record,
            dt is Variant ==> r == CoercionTargetCategory::Variant,
    {
        match dt {
            DissectedType::Never => {
                if has_params {
                    CoercionTargetCategory::Other
                } else {
                    CoercionTargetCategory::Never
                }
            },
            DissectedType::Func => CoercionTargetCategory::Func,
            DissectedType::Record => CoercionTargetCategory::Record,
            DissectedType::Variant => CoercionTargetCategory::Variant,
            DissectedType::Any | DissectedType::Hole(_) | DissectedType::Unknown => CoercionTargetCategory::Other,
            DissectedType::Constructor(data) => {
                if let Some(spine) = data.spine {
                    spine.get_category()
                } else {
                    CoercionTargetCategory::Other
                }
            },
        }
    }

    /// The category of the value type `ty`; an error where it cannot be dissected.
    pub fn parse_v(core: &TypeCheckerCore, ty: Value) -> (r: Result<Self, ICE>)
        ensures
            match v_dissect_spec(core.nodes(), ty) {
                Ok((dt, p)) => r == Ok::<_, ICE>(category_of(dt, p is Some)),
                Err(_) => r is Err,
            },
    {
        match core.v_dissect_sub(ty) {
            Ok((dt, params)) => Ok(Self::new(dt, params.is_some())),
            Err(e) => Err(e),
        }
    }

    /// The category of the use type `ty`; an error where it cannot be dissected.
    pub fn parse_u(core: &TypeCheckerCore, ty: Use) -> (r: Result<Self, ICE>)
        ensures
            match u_dissect_spec(core.nodes(), ty) {
                Ok((dt, p)) => r == Ok::<_, ICE>(category_of(dt, p is Some)),
                Err(_) => r is Err,
            },
    {
        match core.u_dissect_sub(ty) {
            Ok((dt, params)) => Ok(Self::new(dt, params.is_some())),
            Err(e) => Err(e),
        }
    }
}

/// Why a coercion definition is invalid.
#[derive(Debug, Clone, Copy, PartialEq, Eq, Structural)]
pub enum InvalidCoercionError {
    ICE(ICE),
    NotAFunction,
    InvalidInputType,
    InputNotGeneral,
    VarNotUnique,
    InvalidUnwrapOutputType,
    InvalidWrapOutputType,
}

impl InvalidCoercionError {
    /// The explanation of the error in the report.
    pub open spec fn reason(self) -> Seq<char> {
        match self {
            InvalidCoercionError::ICE(_) => Seq::empty(),
            InvalidCoercionError::NotAFunction => "Not a pure identity function."@,
            InvalidCoercionError::InvalidInputType => "Input type does not match specified type."@,
            InvalidCoercionError::InputNotGeneral => "Input type does not handle all possible parameter types."@,
            InvalidCoercionError::VarNotUnique => "Coercion parameters are not uniquely determined by input type."@,
            InvalidCoercionError::InvalidUnwrapOutputType =>
                "Output type of unwrap coercion must be a function, record, variant, or never."@,
            InvalidCoercionError::InvalidWrapOutputType =>
                "Output type of wrap coercion must be a function or record."@,
        }
    }

    /// The report of the error at the coercion definition `span`.
    pub fn spanned(self, span: Span) -> (r: SpannedError)
        ensures
            self is ICE ==> r@ == seq![PartView::Text(ice_message())],
            !(self is ICE) ==> r@ == seq![
                PartView::At("TypeError: Invalid implicit coercion definition. "@ + self.reason(), span),
            ],
    {
        let s = match self {
            InvalidCoercionError::ICE(e) => {
                return SpannedError::from_ice(e);
            },
            InvalidCoercionError::NotAFunction => "Not a pure identity function.",
            InvalidCoercionError::InvalidInputType => "Input type does not match specified type.",
            InvalidCoercionError::InputNotGeneral => "Input type does not handle all possible parameter types.",
            InvalidCoercionError::VarNotUnique => "Coercion parameters are not uniquely determined by input type.",
            InvalidCoercionError::InvalidUnwrapOutputType =>
                "Output type of unwrap coercion must be a function, record, variant, or never.",
            InvalidCoercionError::InvalidWrapOutputType =>
                "Output type of wrap coercion must be a function or record.",
        };
        let msg = concat2("TypeError: Invalid implicit coercion definition. ", s);
        SpannedError::new1(msg.as_str(), span)
    }
}

impl From<ICE> for InvalidCoercionError {
    fn from(e: ICE) -> (r: Self) {
        InvalidCoercionError::ICE(e)
    }
}

impl vstd::std_specs::convert::FromSpecImpl<ICE> for InvalidCoercionError {
    open spec fn obeys_from_spec() -> bool {
        true
    }

    open spec fn from_spec(v: ICE) -> Self {
        InvalidCoercionError::ICE(v)
    }
}

/// The error for an internal compiler error met while checking a coercion.
pub fn ice2() -> (r: InvalidCoercionError)
    ensures
        r == InvalidCoercionError::ICE(ICE),
{
    InvalidCoercionError::ICE(ice())
}


/// What is done with a value once its unwrap coercion, if any, is applied.
pub enum InnerCallback {
    Sub(SubsumptionCheck),
    Func(FuncInstantiationCheck),
    Record(Use),
    Variant(Use),
}

impl InnerCallback {
    /// The category of type the callback expects.
    pub fn get_category(&self) -> (r: CoercionTargetCategory)
        ensures
            r == match self {
                InnerCallback::Sub(s) => match s.rhs_cat {
                    SubsumptionCategory::Func => CoercionTargetCategory::Func,
                    SubsumptionCategory::Record => CoercionTargetCategory::Record,
                },
                InnerCallback::Func(_) => CoercionTargetCategory::Func,
                InnerCallback::Record(_) => CoercionTargetCategory::Record,
                InnerCallback::Variant(_) => CoercionTargetCategory::Variant,
            },
    {
        match self {
            InnerCallback::Sub(s) => match s.rhs_cat {
                SubsumptionCategory::Func => CoercionTargetCategory::Func,
                SubsumptionCategory::Record => CoercionTargetCategory::Record,
            },
            InnerCallback::Func(_) => CoercionTargetCategory::Func,
            InnerCallback::Record(_) => CoercionTargetCategory::Record,
            InnerCallback::Variant(_) => CoercionTargetCategory::Variant,
        }
    }
}

/// Applies the unwrap coercion of the value's constructor, if it has one
/// of the expected category, and then runs the inner callback.
pub struct UnwrapCoercionCallback {
    pub cb: InnerCallback,
}

/// A coercion through a spine: the names of the parameters of the target type
/// (covariant and contravariant) for each spine parameter, the target tree, and
/// the spine's parameters.
pub struct SpineCoercion {
    pub param_mapping: Vec<(Option<StringId>, Option<StringId>)>,
    pub tree: RcParsedType,
    pub spine_params: ConstructorAppParams<Value>,
}

/// How a coercion makes its target type: through a spine, or as a type of its own.
pub enum CoercionType<P: Polarity> {
    Spine(SpineCoercion),
    Direct(P),
}

/// An implicit coercion of a type constructor, and the category of its target type.
pub struct Coercion<P: Polarity> {
    pub coercion: CoercionType<P>,
    pub target_category: CoercionTargetCategory,
}
} // verus!

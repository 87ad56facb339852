use crate::ast::StringId;
use crate::spans::{Span, Spanned};
use crate::type_errors::HoleSrc;
use vstd::prelude::*;

verus! {

/// The type of a literal.
#[derive(Debug, Clone, Copy, PartialEq, Eq, Structural)]
pub enum Literal {
    Bool,
    Float,
    Int,
    Str,
}

/// A binary operator.
#[derive(Debug, Clone, Copy, PartialEq, Eq, Structural)]
pub enum Op {
    Add,
    Sub,
    Mult,
    Div,
    Rem,
    Lt,
    Lte,
    Gt,
    Gte,
    Eq,
    Neq,
    BoolAnd,
    BoolOr,
}

/// A literal expression: its type and its source text.
#[derive(Debug)]
pub struct LiteralExpr {
    pub lit_type: Literal,
    pub value: Spanned<String>,
}

/// Where the hole for a missing substitution of a coercion goes.
#[derive(Debug, Clone, Copy, PartialEq, Eq, Structural)]
pub enum CoerceSubHoleSrc {
    /// After an existing list of substitutions.
    Append(Span),
    /// Where there is no list of substitutions yet.
    Empty(Span),
}

impl CoerceSubHoleSrc {
    /// The source of the hole for the substitution of `name`.
    pub fn get(&self, name: StringId) -> (r: HoleSrc)
        ensures
            match self {
                CoerceSubHoleSrc::Append(span) => r == HoleSrc::AddSubstitutionToEnd(*span, name),
                CoerceSubHoleSrc::Empty(span) => r == HoleSrc::AddSubstitutions(*span, name),
            },
    {
        match self {
            CoerceSubHoleSrc::Append(span) => HoleSrc::AddSubstitutionToEnd(*span, name),
            CoerceSubHoleSrc::Empty(span) => HoleSrc::AddSubstitutions(*span, name),
        }
    }
}

} // verus!

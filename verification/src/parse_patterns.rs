use crate::ast::StringId;
use crate::print_patterns::{good_component, PathComponent};
use crate::spans::{PartView, Span, SpannedError};
use crate::strings::key_valid;
use crate::types::{Use, Value};
use vstd::prelude::*;

verus! {

/// The coercion hints gathered for one position of a merged pattern tree.
pub struct CoercionHintAccumulator {
    pub explicit_no_coercion: bool,
    pub out: Option<Value>,
    pub inputs: Vec<Use>,
}

impl CoercionHintAccumulator {
    /// No hints yet.
    pub fn new() -> (r: Self)
        ensures
            !r.explicit_no_coercion,
            r.out is None,
            r.inputs@.len() == 0,
    {
        CoercionHintAccumulator { explicit_no_coercion: false, out: None, inputs: Vec::new() }
    }
}

/// Identifies a variant node of a merged pattern tree.
pub type DecisionKey = usize;

/// A record pattern: its fields, in the order they were first met.
pub struct RecordNode {
    pub span: Span,
    pub fields: Vec<(StringId, (Span, PatternNode))>,
}

/// A variant pattern: the cases it matches, in the order they were first met.
pub struct VariantNode {
    pub span: Span,
    pub key: DecisionKey,
    pub cases: Vec<(StringId, PatternNode)>,
}

/// What a position of a merged pattern tree requires of the input.
pub enum PatternNodeSub {
    Leaf,
    R(RecordNode),
    V(VariantNode),
}

/// A node of the tree made by merging all the patterns of a match.
pub struct PatternNode {
    pub sub: PatternNodeSub,
}

/// Every name in the pattern tree is interned, and no field is named `_4294967295`.
pub open spec fn pattern_ok(strings: Seq<Seq<char>>, p: PatternNode) -> bool
    decreases p,
{
    match p.sub {
        PatternNodeSub::Leaf => true,
        PatternNodeSub::R(r) => forall|i: int|
            0 <= i < r.fields@.len() ==> good_component(strings, PathComponent::Field((#[trigger] r.fields@[i]).0))
                && pattern_ok(strings, r.fields@[i].1.1),
        PatternNodeSub::V(v) => forall|i: int|
            0 <= i < v.cases@.len() ==> key_valid(strings, (#[trigger] v.cases@[i]).0) && pattern_ok(
                strings,
                v.cases@[i].1,
            ),
    }
}

/// The report of a position that some patterns take as a record and others as a variant.
pub open spec fn inconsistent_pattern_report(rspan: Span, vspan: Span) -> Seq<PartView> {
    seq![
        PartView::At(
            "SyntaxError: Inconsistent match patterns. The input is required to be a record here:"@,
            rspan,
        ),
        PartView::At("Note: But it is also required to be a variant here:"@, vspan),
    ]
}

pub fn inconsistent_pattern_error(rspan: Span, vspan: Span) -> (r: SpannedError)
    ensures
        r@ == inconsistent_pattern_report(rspan, vspan),
{
    SpannedError::new2(
        "SyntaxError: Inconsistent match patterns. The input is required to be a record here:",
        rspan,
        "Note: But it is also required to be a variant here:",
        vspan,
    )
}

} // verus!

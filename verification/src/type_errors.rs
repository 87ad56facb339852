use crate::ast::StringId;
use crate::exhaustiveness::MissingPattern;
use crate::spans::{PartView, Span, SpannedError};
use crate::type_core::ScopeLvl;
use crate::types::{DottedName, Value};
use crate::strings::{interned, key_text, key_valid, resolve};
use crate::text::{concat2, concat3};
use crate::types::Use;
use vstd::prelude::*;

verus! {

/// Where an inference hole comes from, and so which hint fixes an error at it.
#[derive(Debug, Clone, Copy)]
pub enum HoleSrc {
    /// An explicit `_` in a type annotation.
    Explicit(Span),
    /// `: _` may be added after the span.
    OptAscribe(Span),
    /// Like `OptAscribe`, with a higher priority.
    FuncArgAscribe(Span),
    /// `:: _` may be added after the span.
    ReturnTypeAscribe(Span),
    /// `[_]` may be added after the span.
    IdentityAscribe(Span),
    /// The expression may be wrapped in a type annotation.
    CheckedExpr(Span),
    /// `_ ` may be added before the span.
    AddPatternCoerceHint(Span, Use),
    /// `with [name=_]` may be added after the span.
    AddSubstitutions(Span, StringId),
    /// `; name=_` may be added after the span.
    AddSubstitutionToEnd(Span, StringId),
    /// The span may be wrapped as `(span :> _ -> _ with [name=_])`.
    AddFuncCoerce(Span, StringId),
    /// The span may be wrapped as `(let name: _ = name; span)`.
    LetRebind(Span, StringId),
}

impl HoleSrc {
    /// How strongly the hint of this source is preferred among those of an error.
    pub open spec fn priority_spec(self) -> nat {
        match self {
            HoleSrc::Explicit(..) => 100,
            HoleSrc::ReturnTypeAscribe(..) | HoleSrc::FuncArgAscribe(..) => 95,
            HoleSrc::OptAscribe(..) => 85,
            HoleSrc::AddPatternCoerceHint(..) | HoleSrc::IdentityAscribe(..) | HoleSrc::AddSubstitutionToEnd(
                ..,
            ) => 70,
            HoleSrc::AddSubstitutions(..) => 21,
            HoleSrc::CheckedExpr(..) => 20,
            HoleSrc::AddFuncCoerce(..) => 10,
            HoleSrc::LetRebind(..) => 0,
        }
    }

    /// Used to select which hint to display for type errors.
    pub fn priority(&self) -> (r: usize)
        ensures
            r == self.priority_spec(),
    {
        match self {
            HoleSrc::Explicit(..) => 100,
            HoleSrc::ReturnTypeAscribe(..) | HoleSrc::FuncArgAscribe(..) => 95,
            HoleSrc::OptAscribe(..) => 85,
            HoleSrc::AddPatternCoerceHint(..) | HoleSrc::IdentityAscribe(..) | HoleSrc::AddSubstitutionToEnd(
                ..,
            ) => 70,
            HoleSrc::AddSubstitutions(..) => 21,
            HoleSrc::CheckedExpr(..) => 20,
            HoleSrc::AddFuncCoerce(..) => 10,
            HoleSrc::LetRebind(..) => 0,
        }
    }

    /// Whether the names this source mentions are interned in `strings`.
    pub open spec fn names_valid(self, strings: Seq<Seq<char>>) -> bool {
        match self {
            HoleSrc::AddSubstitutions(_, name) | HoleSrc::AddSubstitutionToEnd(_, name) | HoleSrc::AddFuncCoerce(
                _,
                name,
            ) | HoleSrc::LetRebind(_, name) => key_valid(strings, name),
            _ => true,
        }
    }

    /// The hint that this source adds to an error report.
    pub open spec fn hint(self, strings: Seq<Seq<char>>) -> PartView {
        match self {
            HoleSrc::Explicit(span) => PartView::At(Seq::empty(), span),
            HoleSrc::FuncArgAscribe(span) | HoleSrc::OptAscribe(span) => PartView::Insert(
                ""@,
                span,
                ": _"@,
            ),
            HoleSrc::ReturnTypeAscribe(span) => PartView::Insert(""@, span, " :: _"@),
            HoleSrc::IdentityAscribe(span) => PartView::Insert(""@, span, "[_]"@),
            HoleSrc::CheckedExpr(span) => PartView::Insert("("@, span, ": _)"@),
            HoleSrc::AddPatternCoerceHint(span, _) => PartView::Insert("_ "@, span, ""@),
            HoleSrc::AddSubstitutions(span, name) => PartView::Insert(
                ""@,
                span,
                " with ["@ + key_text(strings, name) + "=_]"@,
            ),
            HoleSrc::AddSubstitutionToEnd(span, name) => PartView::Insert(
                ""@,
                span,
                "; "@ + key_text(strings, name) + "=_"@,
            ),
            HoleSrc::AddFuncCoerce(span, name) => PartView::Insert(
                "("@,
                span,
                " :> _ -> _ with ["@ + key_text(strings, name) + "=_])"@,
            ),
            HoleSrc::LetRebind(span, name) => PartView::Insert(
                "(let "@ + key_text(strings, name) + ": _ = "@ + key_text(strings, name) + "; "@,
                span,
                ")"@,
            ),
        }
    }

    /// Adds the hint of this source to `e`.
    pub fn add_to_error(&self, e: &mut SpannedError, strings: &lasso::Rodeo)
        requires
            self.names_valid(interned(*strings)),
        ensures
            final(e)@ == old(e)@.push(self.hint(interned(*strings))),
    {
        match self {
            HoleSrc::Explicit(span) => e.push_span(*span),
            HoleSrc::FuncArgAscribe(span) | HoleSrc::OptAscribe(span) => e.push_insert("", *span, ": _"),
            HoleSrc::ReturnTypeAscribe(span) => e.push_insert("", *span, " :: _"),
            HoleSrc::IdentityAscribe(span) => e.push_insert("", *span, "[_]"),
            HoleSrc::CheckedExpr(span) => e.push_insert("(", *span, ": _)"),
            HoleSrc::AddPatternCoerceHint(span, ..) => e.push_insert("_ ", *span, ""),
            HoleSrc::AddSubstitutions(span, name) => {
                let s = concat3(" with [", resolve(strings, name), "=_]");
                e.push_insert("", *span, s.as_str());
            },
            HoleSrc::AddSubstitutionToEnd(span, name) => {
                let s = concat3("; ", resolve(strings, name), "=_");
                e.push_insert("", *span, s.as_str());
            },
            HoleSrc::AddFuncCoerce(span, name) => {
                let s = concat3(" :> _ -> _ with [", resolve(strings, name), "=_])");
                e.push_insert("(", *span, s.as_str());
            },
            HoleSrc::LetRebind(span, name) => {
                let name = resolve(strings, name);
                let mut s = concat3("(let ", name, ": _ = ");
                s.append(name);
                s.append("; ");
                e.push_insert(s.as_str(), *span, ")");
            },
        }
    }
}

/// What kind of type a name in a message stands for.
#[derive(Debug, Clone, Copy, PartialEq, Eq, Structural)]
pub enum TyOrigin {
    Builtin,
    Custom(Span),
    Polymorphic,
}

/// What a value is said to be in a type error: `be a ...` or `have type ...`.
#[derive(Debug)]
pub enum TMsg {
    BeA(String),
    HaveTy(String, Option<TyOrigin>),
}

/// The mathematical content of a `TMsg`.
pub enum TMsgView {
    BeA(Seq<char>),
    HaveTy(Seq<char>, Option<TyOrigin>),
}

impl View for TMsg {
    type V = TMsgView;

    open spec fn view(&self) -> TMsgView {
        match self {
            TMsg::BeA(s) => TMsgView::BeA(s@),
            TMsg::HaveTy(s, o) => TMsgView::HaveTy(s@, *o),
        }
    }
}

impl TMsgView {
    /// The message as it is printed.
    pub open spec fn text(self) -> Seq<char> {
        match self {
            TMsgView::BeA(s) => "be a "@ + s,
            TMsgView::HaveTy(s, _) => "have type "@ + s,
        }
    }

    /// The note on where the type comes from, if the message names one.
    pub open spec fn origin_note(self) -> Option<PartView> {
        match self {
            TMsgView::HaveTy(s, Some(origin)) => Some(
                match origin {
                    TyOrigin::Builtin => PartView::Text("Note: "@ + s + " is a builtin type."@),
                    TyOrigin::Custom(span) => PartView::At("Note: "@ + s + " is the type defined here:"@, span),
                    TyOrigin::Polymorphic => PartView::Text("Note: "@ + s + " is a polymorphic type variable."@),
                },
            ),
            _ => None,
        }
    }
}

impl TMsg {
    pub fn print(&self) -> (r: String)
        ensures
            r@ == self@.text(),
    {
        match self {
            TMsg::BeA(s) => concat2("be a ", s.as_str()),
            TMsg::HaveTy(s, _) => concat2("have type ", s.as_str()),
        }
    }

    /// Adds the note on where the type comes from, if the message names one.
    pub fn add_origin(&self, e: &mut SpannedError)
        ensures
            self@.origin_note() is None ==> final(e)@ == old(e)@,
            self@.origin_note() is Some ==> final(e)@ == old(e)@.push(self@.origin_note()->0),
    {
        if let TMsg::HaveTy(s, Some(origin)) = self {
            match origin {
                TyOrigin::Builtin => {
                    let m = concat3("Note: ", s.as_str(), " is a builtin type.");
                    e.push_str(m.as_str());
                },
                TyOrigin::Custom(span) => {
                    let m = concat3("Note: ", s.as_str(), " is the type defined here:");
                    e.push(m.as_str(), *span);
                },
                TyOrigin::Polymorphic => {
                    let m = concat3("Note: ", s.as_str(), " is a polymorphic type variable.");
                    e.push_str(m.as_str());
                },
            }
        }
    }
}

pub fn be_a(s: &str) -> (r: TMsg)
    ensures
        r@ == TMsgView::BeA(s@),
{
    TMsg::BeA(s.to_owned())
}

pub fn have_ty(s: &str) -> (r: TMsg)
    ensures
        r@ == TMsgView::HaveTy(s@, None),
{
    TMsg::HaveTy(s.to_owned(), None)
}

/// A message about a value together with the span it is about, and the kind
/// of expression that asked for it, if any.
pub struct TMsgSpan {
    pub msg: TMsg,
    pub span: Span,
    pub extra: Option<String>,
}

impl TMsgSpan {
    /// The line that `print` adds, after the words `first`.
    pub open spec fn line(self, first: Seq<char>) -> Seq<char> {
        let extra = match self.extra {
            Some(s) => " by the "@ + s@ + " expression"@,
            None => Seq::empty(),
        };
        first + " "@ + self.msg@.text() + extra + " here:"@
    }

    /// Adds the message, pointing at its span, and its note on the origin of the type.
    pub fn print(&self, e: &mut SpannedError, first: &str)
        ensures
            self.msg@.origin_note() is None ==> final(e)@ == old(e)@.push(
                PartView::At(self.line(first@), self.span),
            ),
            self.msg@.origin_note() is Some ==> final(e)@ == old(e)@.push(
                PartView::At(self.line(first@), self.span),
            ).push(self.msg@.origin_note()->0),
    {
        let extra = match &self.extra {
            Some(s) => concat3(" by the ", s.as_str(), " expression"),
            None => String::new(),
        };
        let mut msg = concat3(first, " ", self.msg.print().as_str());
        msg.append(extra.as_str());
        msg.append(" here:");
        proof {
            assert(msg@ =~= self.line(first@));
        }
        e.push(msg.as_str(), self.span);
        self.msg.add_origin(e);
    }
}


/// A type error found when checking one flow edge, before it is explained in
/// terms of the whole program.
pub enum PartialTypeError {
    E(SpannedError),
    /// The record at the first span lacks the field that the second span needs.
    MissingField(Span, Span, StringId),
    /// The field is immutable at the first span and written at the second.
    ImmutableField(Span, Span, StringId),
    /// The variant at the first span is not handled by the match at the second.
    UnhandledVariant(Span, Span, StringId, Option<MissingPattern>),
    /// An abstract type, defined at the first span, escapes its scope.
    TypeEscape(DottedName, Span, Span, Span, ScopeLvl),
    /// The type unified with the value conflicts with it.
    UnificationConflict(Value),
    TypeConflict,
}

impl From<SpannedError> for PartialTypeError {
    fn from(err: SpannedError) -> (r: Self) {
        PartialTypeError::E(err)
    }
}

impl vstd::std_specs::convert::FromSpecImpl<SpannedError> for PartialTypeError {
    open spec fn obeys_from_spec() -> bool {
        true
    }

    open spec fn from_spec(v: SpannedError) -> Self {
        PartialTypeError::E(v)
    }
}


/// Detects names defined twice among names of one sort.
pub struct DupNameChecker {
    seen: Vec<(StringId, Span)>,
    err_type: &'static str,
}

impl DupNameChecker {
    /// The span last recorded for each name.
    pub closed spec fn seen(&self) -> Map<nat, Span> {
        crate::prune_unused_poly_vars::spans_map(self.seen@)
    }

    /// The sort of names checked, as error messages name it.
    pub closed spec fn sort(&self) -> Seq<char> {
        self.err_type@
    }

    /// The internal consistency of the checker: one entry per name.
    pub closed spec fn wf(&self) -> bool {
        crate::prune_unused_poly_vars::unique_keys(self.seen@)
    }

    /// A checker for names of the sort `err_type`, none seen yet.
    pub fn new(err_type: &'static str) -> (r: Self)
        ensures
            r.wf(),
            r.seen() == Map::<nat, Span>::empty(),
            r.sort() == err_type@,
    {
        DupNameChecker { seen: Vec::new(), err_type }
    }

    /// Records `name`, defined at `span`; a name seen before is an error that
    /// points at both definitions. Either way the name's span becomes `span`.
    pub fn add(&mut self, name: StringId, span: Span) -> (r: Result<(), SpannedError>)
        requires
            old(self).wf(),
        ensures
            final(self).wf(),
            final(self).sort() == old(self).sort(),
            final(self).seen() == old(self).seen().insert(crate::strings::key_index(name), span),
            r is Err <==> old(self).seen().contains_key(crate::strings::key_index(name)),
            r matches Err(e) ==> e@ == seq![
                PartView::At("SyntaxError: Repeated "@ + old(self).sort() + " name."@, span),
                PartView::At("Note: Conflicts with previous definition here:"@, old(self).seen()[crate::strings::key_index(name)]),
            ],
    {
        let old_span = crate::prune_unused_poly_vars::map_get(&self.seen, name);
        crate::prune_unused_poly_vars::map_insert(&mut self.seen, name, span);
        match old_span {
            Some(o) => {
                let msg = concat3("SyntaxError: Repeated ", self.err_type, " name.");
                let e = SpannedError::new2(msg.as_str(), span, "Note: Conflicts with previous definition here:", o);
                proof {
                    reveal_strlit("SyntaxError: Repeated ");
                    reveal_strlit(" name.");
                }
                Err(e)
            },
            None => Ok(()),
        }
    }
}
} // verus!

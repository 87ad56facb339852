use crate::ast::StringId;
use crate::spans::{Span, Spanned};
use crate::strings::{interned, intern, key_text, key_valid, resolve};
use crate::text::{concat2, str_eq};
use vstd::prelude::*;

verus! {

/// How a type constructor's parameter may vary.
#[derive(Debug, Clone, Copy, PartialEq, Eq, Structural)]
pub enum Variance {
    Covariant,
    Contravariant,
    Invariant,
}

impl Variance {
    /// The variance seen from the other side of a function arrow.
    pub open spec fn flipped(self) -> Variance {
        match self {
            Variance::Covariant => Variance::Contravariant,
            Variance::Contravariant => Variance::Covariant,
            Variance::Invariant => Variance::Invariant,
        }
    }

    /// The name of the variance in messages.
    pub open spec fn display(self) -> Seq<char> {
        match self {
            Variance::Covariant => "covariant"@,
            Variance::Contravariant => "contravariant"@,
            Variance::Invariant => "invariant"@,
        }
    }

    pub fn flip(&self) -> (r: Self)
        ensures
            r == self.flipped(),
    {
        match self {
            Variance::Covariant => Variance::Contravariant,
            Variance::Contravariant => Variance::Covariant,
            Variance::Invariant => Variance::Invariant,
        }
    }

    pub fn to_display(&self) -> (r: &'static str)
        ensures
            r@ == self.display(),
    {
        match self {
            Variance::Covariant => "covariant",
            Variance::Contravariant => "contravariant",
            Variance::Invariant => "invariant",
        }
    }
}

/// A parameter of a type constructor's kind: its variance and its own kind.
#[derive(Debug)]
pub struct SVKind {
    pub variance: Spanned<Variance>,
    pub kind: SKind,
}

/// The kind of a type: `Star` for a proper type, `Arrow` for a type constructor
/// with the given parameters.
#[derive(Debug)]
pub enum Kind {
    Star,
    Arrow(Vec<SVKind>),
}

pub type SKind = Spanned<Kind>;

impl Kind {
    pub fn new(params: Vec<SVKind>) -> (r: Self)
        ensures
            r@.params() == params_view(params@),
            params@.len() == 0 <==> r is Star,
            (forall|i: int| 0 <= i < params@.len() ==> (#[trigger] params@[i]).kind.0@.wf()) ==> r@.wf(),
    {
        if params.len() == 0 {
            Kind::Star
        } else {
            Kind::Arrow(params)
        }
    }

    pub fn params(&self) -> (r: &[SVKind])
        ensures
            params_view(r@) == self@.params(),
            *self is Arrow ==> r@ == self->Arrow_0@,
            *self is Star ==> r@.len() == 0,
    {
        match self {
            Kind::Star => &[],
            Kind::Arrow(kinds) => kinds.as_slice(),
        }
    }
}

impl SVKind {
    pub fn new(variance: Spanned<Variance>, kind: Option<SKind>) -> (r: Self)
        ensures
            r.variance == variance,
            kind is Some ==> r.kind == kind->0,
            kind is None ==> r.kind == (Kind::Star, variance.1),
    {
        let kind = match kind {
            Some(k) => k,
            None => (Kind::Star, variance.1),
        };
        SVKind { variance, kind }
    }

    /// A parameter without annotations of its own, where the variance and the
    /// kind both take the span of the surrounding expression.
    pub fn new_implicit(var: Variance, kind: Kind, span: Span) -> (r: Self)
        ensures
            r.variance == (var, span),
            r.kind == (kind, span),
    {
        Self::new((var, span), Some((kind, span)))
    }
}

/// The mathematical content of a parameter: its variance and its kind, each with its span.
pub struct ParamView {
    pub variance: Spanned<Variance>,
    pub kind: KindView,
    pub span: Span,
}

/// The mathematical content of a kind.
pub enum KindView {
    Star,
    Arrow(Seq<ParamView>),
}

impl View for Kind {
    type V = KindView;

    open spec fn view(&self) -> KindView
        decreases self,
    {
        match self {
            Kind::Star => KindView::Star,
            Kind::Arrow(ps) => KindView::Arrow(
                Seq::new(
                    ps@.len(),
                    |i: int|
                        if 0 <= i < ps@.len() {
                            ParamView {
                                variance: ps@[i].variance,
                                kind: ps@[i].kind.0.view(),
                                span: ps@[i].kind.1,
                            }
                        } else {
                            ParamView { variance: ps@[0].variance, kind: KindView::Star, span: ps@[0].kind.1 }
                        },
                ),
            ),
        }
    }
}

impl SVKind {
    /// The mathematical content of the parameter.
    pub open spec fn param_view(self) -> ParamView {
        ParamView { variance: self.variance, kind: self.kind.0@, span: self.kind.1 }
    }
}

/// The views of a list of parameters, in order.
pub open spec fn params_view(ps: Seq<SVKind>) -> Seq<ParamView> {
    ps.map_values(|p: SVKind| p.param_view())
}

impl KindView {
    /// A well formed kind: the parameter list of an `Arrow` is never empty.
    pub open spec fn wf(self) -> bool
        decreases self,
    {
        match self {
            KindView::Star => true,
            KindView::Arrow(ps) => ps.len() > 0 && forall|i: int|
                0 <= i < ps.len() ==> (#[trigger] ps[i]).kind.wf(),
        }
    }

    /// The parameters of the kind; none for `Star`.
    pub open spec fn params(self) -> Seq<ParamView> {
        match self {
            KindView::Star => Seq::empty(),
            KindView::Arrow(ps) => ps,
        }
    }
}

impl Clone for Kind {
    fn clone(&self) -> (r: Self)
        ensures
            r@ == self@,
        decreases self,
    {
        match self {
            Kind::Star => Kind::Star,
            Kind::Arrow(ps) => {
                let mut out: Vec<SVKind> = Vec::new();
                let mut i: usize = 0;
                while i < ps.len()
                    invariant
                        *self is Arrow,
                        self->Arrow_0 == *ps,
                        i <= ps@.len(),
                        out@.len() == i,
                        forall|j: int| 0 <= j < i ==> (#[trigger] out@[j]).param_view() == ps@[j].param_view(),
                    decreases ps@.len() - i,
                {
                    proof {
                        broadcast use vstd::std_specs::vec::axiom_vec_index_decreases;

                        assert(decreases_to!(*ps => ps[i as int]));
                        assert(decreases_to!(*self => self->Arrow_0));
                    }
                    let p = ps[i].clone();
                    out.push(p);
                    i = i + 1;
                }
                let r = Kind::Arrow(out);
                proof {
                    assert(r@->Arrow_0 =~= self@->Arrow_0);
                }
                r
            },
        }
    }
}

impl Clone for SVKind {
    fn clone(&self) -> (r: Self)
        ensures
            r.param_view() == self.param_view(),
        decreases self,
    {
        SVKind { variance: self.variance, kind: (self.kind.0.clone(), self.kind.1) }
    }
}

/// A path naming a type: `foo.bar` and the like.
#[derive(Debug)]
pub enum PathType {
    Top,
    Bot,
    Hole,
    Placeholder(StringId),
    Single(StringId),
    ModMember(Spanned<StringId>, Spanned<StringId>),
    VarPair(Spanned<StringId>, Spanned<StringId>),
}

impl PathType {
    /// The path made of the single name `name`: `any` and `never` name the top
    /// and bottom types.
    pub fn new_single(strings: &lasso::Rodeo, name: StringId) -> (r: Self)
        requires
            key_valid(interned(*strings), name),
        ensures
            key_text(interned(*strings), name) == "any"@ ==> r is Top,
            key_text(interned(*strings), name) == "never"@ ==> r is Bot,
            key_text(interned(*strings), name) != "any"@ && key_text(interned(*strings), name) != "never"@ ==> r
                == PathType::Single(name),
    {
        let text = resolve(strings, &name);
        proof {
            reveal_strlit("any");
            reveal_strlit("never");
            assert("any"@.len() != "never"@.len());
        }
        if str_eq(text, "any") {
            PathType::Top
        } else if str_eq(text, "never") {
            PathType::Bot
        } else {
            PathType::Single(name)
        }
    }
}

/// A type parameter: its name, its kind, the alias it is known by, and, once
/// set, the name of its paired write type.
#[derive(Debug)]
pub struct TypeParam {
    pub name: Spanned<StringId>,
    pub kind: SKind,
    pub alias: Spanned<StringId>,
    pub pair_name: Option<StringId>,
}

impl TypeParam {
    pub fn new(name: Spanned<StringId>, kind: Option<SKind>, alias: Option<Spanned<StringId>>) -> (r: Self)
        ensures
            r.name == name,
            kind is Some ==> r.kind.0@ == (kind->0).0@ && r.kind.1 == (kind->0).1,
            kind is None ==> r.kind.0@ == KindView::Star && r.kind.1 == name.1,
            alias is Some ==> r.alias == alias->0,
            alias is None ==> r.alias == name,
            r.pair_name is None,
    {
        let kind = match kind {
            Some(k) => k,
            None => (Kind::Star, name.1),
        };
        let alias = match alias {
            Some(a) => a,
            None => name,
        };
        TypeParam { name, kind, alias, pair_name: None }
    }

    /// Names the paired write type after the parameter, with a `$` appended.
    pub fn set_pair(&mut self, strings: &mut lasso::Rodeo)
        requires
            key_valid(interned(*old(strings)), old(self).name.0),
            interned(*old(strings)).len() < u32::MAX,
        ensures
            final(self).name == old(self).name,
            final(self).kind == old(self).kind,
            final(self).alias == old(self).alias,
            final(self).pair_name is Some,
            key_valid(interned(*final(strings)), final(self).pair_name->0),
            key_text(interned(*final(strings)), final(self).pair_name->0) == key_text(
                interned(*old(strings)),
                old(self).name.0,
            ) + "$"@,
            interned(*old(strings)).is_prefix_of(interned(*final(strings))),
    {
        self.pair_name = Some(append_dollar(strings, self.name.0));
    }
}

/// The key of the name `name` with a `$` appended, interned if need be.
fn append_dollar(strings: &mut lasso::Rodeo, name: StringId) -> (r: StringId)
    requires
        key_valid(interned(*old(strings)), name),
        interned(*old(strings)).len() < u32::MAX,
    ensures
        key_valid(interned(*final(strings)), r),
        key_text(interned(*final(strings)), r) == key_text(interned(*old(strings)), name) + "$"@,
        interned(*old(strings)).is_prefix_of(interned(*final(strings))),
{
    let s = concat2(resolve(strings, &name), "$");
    let r = intern(strings, s.as_str());
    proof {
        if !interned(*old(strings)).contains(s@) {
            assert(interned(*old(strings)) =~= interned(*final(strings)).subrange(0, interned(*old(strings)).len() as int));
        }
    }
    r
}

} // verus!

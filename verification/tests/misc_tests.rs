use onesubml::ast::expr::CoerceSubHoleSrc;
use onesubml::ast::types::{Kind, Variance};
use onesubml::short_str::ShortStr;
use onesubml::spans::Span;
use onesubml::strings::{intern, new_interner};
use onesubml::templates::{NamePair, SourceLoc, WalkMutContext};
use onesubml::type_core::{no_holes, ScopeLvl, TypeEdge};
use onesubml::type_errors::HoleSrc;
use onesubml::typeck::ValueBinding;
use onesubml::types::{bot, top, Value};
use onesubml::vec_index::TypeNodeInd;

#[test]
fn short_strings() {
    assert_eq!(ShortStr::new("+").unwrap().as_str(), "+");
    assert_eq!(ShortStr::new("<=.").unwrap().as_str(), "<=.");
    assert_eq!(ShortStr::new("").unwrap().as_str(), "");
    assert!(ShortStr::new("abcd").is_none());
    assert_eq!(ShortStr::new("é").unwrap().as_str(), "é");
    assert!(ShortStr::new("éé").is_none());
}

#[test]
fn variances() {
    assert_eq!(Variance::Covariant.flip(), Variance::Contravariant);
    assert_eq!(Variance::Contravariant.flip(), Variance::Covariant);
    assert_eq!(Variance::Invariant.flip(), Variance::Invariant);
    assert_eq!(Variance::Covariant.to_display(), "covariant");
    assert_eq!(Variance::Contravariant.to_display(), "contravariant");
    assert_eq!(Variance::Invariant.to_display(), "invariant");
}

#[test]
fn scope_levels() {
    let mut s = ScopeLvl::min_level();
    assert_eq!(s, ScopeLvl(0));
    s.inc();
    assert_eq!(s, ScopeLvl(1));
    assert_eq!(s.incremented(), ScopeLvl(2));
    assert_eq!(no_holes(), ScopeLvl(u32::MAX));
    assert_eq!(TypeEdge::root(Span(3)).scopelvl, no_holes());
}

#[test]
fn top_and_bottom() {
    assert_eq!(bot().0, TypeNodeInd::max());
    assert_eq!(top().0, TypeNodeInd::max());
    assert_eq!(TypeNodeInd::max().i(), u32::MAX as usize - 1);
}

#[test]
fn name_pairs() {
    let mut strings = new_interner();
    let a = intern(&mut strings, "a");
    let b = intern(&mut strings, "b");
    assert_eq!(NamePair::Single(a).get(true), a);
    assert_eq!(NamePair::Pair(a, b).get(false), a);
    assert_eq!(NamePair::Pair(a, b).get(true), b);
    assert_eq!(NamePair::Pair(a, b).flip().get(false), b);
}

#[test]
fn walk_contexts() {
    let k = Kind::Star;
    let k2 = Kind::Star;
    let c = WalkMutContext { variance: Variance::Covariant, kind: &k, top_rec_var: SourceLoc(3) };
    assert_eq!(c.flip().variance, Variance::Contravariant);
    assert_eq!(c.to_invariant().variance, Variance::Invariant);
    let d = c.with_kind(&k2);
    assert!(std::ptr::eq(d.kind, &k2));
    assert_eq!(d.top_rec_var, SourceLoc(3));
    assert_eq!(d.variance, Variance::Covariant);
}

#[test]
fn coerce_sub_holes() {
    let mut strings = new_interner();
    let n = intern(&mut strings, "n");
    assert!(matches!(CoerceSubHoleSrc::Append(Span(1)).get(n), HoleSrc::AddSubstitutionToEnd(Span(1), k) if k == n));
    assert!(matches!(CoerceSubHoleSrc::Empty(Span(2)).get(n), HoleSrc::AddSubstitutions(Span(2), k) if k == n));
}

#[test]
fn value_bindings() {
    let v = Value(TypeNodeInd::new(4));
    let b = ValueBinding::new(v, Span(9));
    assert_eq!(b.val, v);
    assert_eq!(b.span, Span(9));
    assert!(!b.is_mod);
}

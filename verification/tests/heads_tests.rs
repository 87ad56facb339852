use onesubml::ast::types::{Kind, SVKind, Variance};
use onesubml::spans::{ErrorPart, Span};
use onesubml::strings::{intern, new_interner};
use onesubml::type_core::{ScopeLvl, TypeEdge};
use onesubml::type_errors::PartialTypeError;
use onesubml::types::{
    check_heads, ComparisonKey, ConstructorAppData, ConstructorAppParams, ConstructorData, DottedName,
    EphemeralPolyType, FuncProperties, TyConArena, TyConDef, UCaseData, UTypeHead, UnifiedSource, Use, UseSrc,
    VTypeHead, Value,
};
use onesubml::vec_index::TypeNodeInd;

fn v(i: usize) -> Value {
    Value(TypeNodeInd::new(i))
}

fn u(i: usize) -> Use {
    Use(TypeNodeInd::new(i))
}

fn edge() -> TypeEdge {
    TypeEdge::root(Span(99))
}

fn ends(out: &[(Value, Use, TypeEdge)]) -> Vec<(usize, usize)> {
    out.iter().map(|(a, b, _)| (a.0.i(), b.0.i())).collect()
}

fn run(arena: &TyConArena, lhs: VTypeHead, rhs: UTypeHead, src: UseSrc) -> (Result<(), PartialTypeError>, Vec<(usize, usize)>) {
    let mut out = Vec::new();
    let r = check_heads(arena, v(100), &(lhs, Span(1)), u(200), &(rhs, Span(2), src), edge(), &mut out);
    (r, ends(&out))
}

fn messages(e: &PartialTypeError) -> Vec<(String, usize)> {
    match e {
        PartialTypeError::E(s) => s
            .parts
            .iter()
            .map(|p| match p {
                ErrorPart::At(m, sp) => (m.clone(), sp.0),
                _ => (String::new(), 0),
            })
            .collect(),
        _ => Vec::new(),
    }
}

#[test]
fn functions_flip_their_arguments() {
    let arena = TyConArena::new();
    let lhs = VTypeHead::VFunc { arg: u(1), ret: v(2), prop: FuncProperties { is_identity: false } };
    let rhs = UTypeHead::UFunc { arg: v(3), ret: u(4), prop: FuncProperties { is_identity: false } };
    let (r, out) = run(&arena, lhs, rhs, UseSrc::NoSrc);
    assert!(r.is_ok());
    assert_eq!(out, vec![(3, 1), (2, 4)]);
}

#[test]
fn identity_functions_are_required() {
    let arena = TyConArena::new();
    let lhs = VTypeHead::VFunc { arg: u(1), ret: v(2), prop: FuncProperties { is_identity: false } };
    let rhs = UTypeHead::UFunc { arg: v(3), ret: u(4), prop: FuncProperties { is_identity: true } };
    let (r, out) = run(&arena, lhs, rhs, UseSrc::NoSrc);
    assert!(out.is_empty());
    let e = r.unwrap_err();
    assert_eq!(
        messages(&e),
        vec![
            ("TypeError: Function is required to be a pure identity function here:".to_string(), 2),
            ("Note: But it may be a regular function here:".to_string(), 1),
        ]
    );
}

#[test]
fn record_fields() {
    let mut strings = new_interner();
    let a = intern(&mut strings, "a");
    let b = intern(&mut strings, "b");
    let arena = TyConArena::new();
    let obj = || VTypeHead::VObj {
        fields: vec![(a, (v(1), Some(u(2)), Span(10))), (b, (v(3), None, Span(11)))],
        aliases: Vec::new(),
    };
    let read = UTypeHead::UObj { fields: vec![(b, (u(5), None, Span(20))), (a, (u(6), Some(v(7)), Span(21)))] };
    let (r, out) = run(&arena, obj(), read, UseSrc::NoSrc);
    assert!(r.is_ok());
    assert_eq!(out, vec![(3, 5), (1, 6), (7, 2)]);
    let write_b = UTypeHead::UObj { fields: vec![(a, (u(6), None, Span(21))), (b, (u(5), Some(v(8)), Span(22)))] };
    let (r, out) = run(&arena, obj(), write_b, UseSrc::NoSrc);
    assert_eq!(out, vec![(1, 6), (3, 5)]);
    assert!(matches!(r, Err(PartialTypeError::ImmutableField(Span(11), Span(22), n)) if n == b));
    let c = intern(&mut strings, "c");
    let missing = UTypeHead::UObj { fields: vec![(c, (u(6), None, Span(23)))] };
    let (r, out) = run(&arena, obj(), missing, UseSrc::NoSrc);
    assert!(out.is_empty());
    assert!(matches!(r, Err(PartialTypeError::MissingField(Span(1), Span(23), n)) if n == c));
}

#[test]
fn variants() {
    let mut strings = new_interner();
    let a = intern(&mut strings, "A");
    let b = intern(&mut strings, "B");
    let arena = TyConArena::new();
    let case_a = || VTypeHead::VCase { case: (a, v(1)) };
    let mut d = UCaseData::new(vec![(a, u(2))]);
    d.case_wildcards.push((a, u(3)));
    let (r, out) = run(&arena, case_a(), UTypeHead::UCase(d), UseSrc::NoSrc);
    assert!(r.is_ok());
    assert_eq!(out, vec![(1, 2), (100, 3)]);
    let mut d = UCaseData::new(vec![(b, u(2))]);
    d.wildcard = Some(u(4));
    let (r, out) = run(&arena, case_a(), UTypeHead::UCase(d), UseSrc::NoSrc);
    assert!(r.is_ok());
    assert_eq!(out, vec![(100, 4)]);
    let (r, out) = run(&arena, case_a(), UTypeHead::UCase(UCaseData::new(vec![(b, u(2))])), UseSrc::NoSrc);
    assert!(out.is_empty());
    assert!(matches!(r, Err(PartialTypeError::UnhandledVariant(Span(1), Span(2), n, None)) if n == a));
}

#[test]
fn unions_and_intersections() {
    let arena = TyConArena::new();
    let (r, out) = run(&arena, VTypeHead::VTop, UTypeHead::UIntersection(vec![u(1), u(2)]), UseSrc::NoSrc);
    assert!(r.is_ok());
    assert_eq!(out, vec![(100, 1), (100, 2)]);
    let (r, out) = run(&arena, VTypeHead::VCaseUnion(vec![v(3), v(4)]), UTypeHead::UBot, UseSrc::NoSrc);
    assert!(r.is_ok());
    assert_eq!(out, vec![(3, 200), (4, 200)]);
    let (r, out) = run(&arena, VTypeHead::VTop, UTypeHead::UBot, UseSrc::NoSrc);
    assert!(out.is_empty());
    assert!(matches!(r, Err(PartialTypeError::TypeConflict)));
    let (r, _) = run(&arena, VTypeHead::VTop, UTypeHead::UBot, UseSrc::Unification(UnifiedSource(v(7))));
    assert!(matches!(r, Err(PartialTypeError::UnificationConflict(x)) if x.0.i() == 7));
}

#[test]
fn type_constructors() {
    let mut strings = new_interner();
    let t = intern(&mut strings, "T");
    let mut arena = TyConArena::new();
    let builtin = arena.add(TyConDef::Builtin(t));
    let custom = arena.add_custom(None, t, Span(5), ScopeLvl(3), Kind::Star);
    assert_eq!(builtin.i(), 0);
    assert_eq!(custom.i(), 1);
    let con = |i| VTypeHead::VTypeConstructor(ConstructorData::new(i));
    let ucon = |i| UTypeHead::UTypeConstructor(ConstructorData::new(i));
    let (r, _) = run(&arena, con(builtin), ucon(builtin), UseSrc::NoSrc);
    assert!(r.is_ok());
    let (r, _) = run(&arena, con(builtin), ucon(custom), UseSrc::NoSrc);
    assert!(matches!(r, Err(PartialTypeError::TypeConflict)));
    // The root edge is above every scope, so nothing escapes.
    let (r, _) = run(&arena, con(custom), ucon(custom), UseSrc::NoSrc);
    assert!(r.is_ok());
    let mut out = Vec::new();
    let low = TypeEdge { scopelvl: ScopeLvl(1), ..edge() };
    let r = check_heads(&arena, v(100), &(con(custom), Span(1)), u(200), &(ucon(custom), Span(2), UseSrc::NoSrc), low, &mut out);
    assert!(matches!(r, Err(PartialTypeError::TypeEscape(DottedName::Single(n), Span(5), Span(1), Span(2), ScopeLvl(1))) if n == t));
    let filtered = UTypeHead::UFilterOutConstructors(u(9));
    let (r, _) = run(&arena, con(custom), filtered, UseSrc::Unification(UnifiedSource(v(8))));
    assert!(matches!(r, Err(PartialTypeError::UnificationConflict(x)) if x.0.i() == 8));
    let (r, out) = run(&arena, VTypeHead::VTop, UTypeHead::UFilterOutConstructors(u(9)), UseSrc::NoSrc);
    assert!(r.is_ok());
    assert_eq!(out, vec![(100, 9)]);
}

#[test]
fn constructor_applications() {
    let arena = TyConArena::new();
    let kind = || Kind::Arrow(vec![SVKind::new_implicit(Variance::Invariant, Kind::Star, Span(0))]);
    let lhs = VTypeHead::VConstructorApplication(ConstructorAppData {
        tycon: v(1),
        kind: (kind(), Span(0)),
        params: ConstructorAppParams::new(vec![(Some(v(2)), Some(u(3)))]),
    });
    let rhs = UTypeHead::UConstructorApplication(ConstructorAppData {
        tycon: u(4),
        kind: (kind(), Span(0)),
        params: ConstructorAppParams::new(vec![(Some(u(5)), Some(v(6)))]),
    });
    let (r, out) = run(&arena, lhs, rhs, UseSrc::NoSrc);
    assert!(r.is_ok());
    assert_eq!(out, vec![(2, 5), (6, 3), (1, 4)]);
}

#[test]
fn ephemeral_poly_types() {
    let mut strings = new_interner();
    let t = intern(&mut strings, "T");
    let s = intern(&mut strings, "S");
    let arena = TyConArena::new();
    let p = |name, key| EphemeralPolyType { key: ComparisonKey(Span(key)), name };
    let (r, _) = run(&arena, VTypeHead::VEphemeralPoly(p(t, 1)), UTypeHead::UEphemeralPoly(p(t, 1)), UseSrc::NoSrc);
    assert!(r.is_ok());
    let (r, _) = run(&arena, VTypeHead::VEphemeralPoly(p(t, 1)), UTypeHead::UEphemeralPoly(p(t, 2)), UseSrc::NoSrc);
    assert_eq!(
        messages(&r.unwrap_err()),
        vec![
            ("TypeError: Polymorphic type variable escapes its scope. Type originates here:".to_string(), 1),
            ("Note: And is used here after escaping its scope.".to_string(), 2),
        ]
    );
    let (r, _) = run(&arena, VTypeHead::VEphemeralPoly(p(t, 1)), UTypeHead::UEphemeralPoly(p(s, 1)), UseSrc::NoSrc);
    assert!(matches!(r, Err(PartialTypeError::TypeConflict)));
}

#[test]
fn arena_and_names() {
    let mut strings = new_interner();
    let m = intern(&mut strings, "M");
    let t = intern(&mut strings, "T");
    let mut arena = TyConArena::new();
    let a = arena.add_custom(Some(m), t, Span(3), ScopeLvl(0), Kind::Star);
    match arena.get(a) {
        TyConDef::Custom(d) => assert_eq!(d.name.to_str(&strings), "M.T"),
        _ => panic!("not a custom constructor"),
    }
    assert_eq!(DottedName::Single(t).to_str(&strings), "T");
    let k = Kind::Arrow(vec![SVKind::new_implicit(Variance::Covariant, Kind::Star, Span(0))]);
    let p1 = arena.add_polymorphic("[T]. T -> T".to_string(), &k);
    let p2 = arena.add_polymorphic("[T]. T -> T".to_string(), &Kind::Star);
    let p3 = arena.add_polymorphic("{type T}".to_string(), &Kind::Star);
    assert_eq!(p1, p2);
    assert_ne!(p1, p3);
    assert_eq!(arena.get_spine_key(p3).map(|s| s.as_str()), Some("{type T}"));
    assert_eq!(arena.get_spine_key(a), None);
    assert!(matches!(arena.get(p1).kind(), Kind::Arrow(_)));
    assert_eq!(arena.get(a).span(), Some(Span(3)));
    assert_eq!(arena.get(p1).span(), None);
}

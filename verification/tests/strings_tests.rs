use onesubml::ast::types::{PathType, TypeParam};
use onesubml::spans::{ErrorPart, Span, SpannedError};
use onesubml::strings::{intern, new_interner, resolve};
use onesubml::tuples::{get_tuple_name, is_partial_tuple_record, is_tuple_name, tuple_name};
use onesubml::type_errors::HoleSrc;

#[test]
fn tuple_names_are_interned() {
    let mut strings = new_interner();
    assert!(get_tuple_name(&strings, 3).is_none());
    let k = tuple_name(&mut strings, 3);
    assert_eq!(resolve(&strings, &k), "_3");
    assert_eq!(get_tuple_name(&strings, 3), Some(k));
    assert_eq!(tuple_name(&mut strings, 3), k);
    let k12 = tuple_name(&mut strings, 12);
    assert_eq!(resolve(&strings, &k12), "_12");
}

#[test]
fn tuple_name_parsing_matches_std() {
    let mut strings = new_interner();
    let samples = [
        "_0", "_7", "_42", "_007", "_+5", "_-5", "_", "_+", "a", "", "_4294967295", "_4294967296", "_1x", "__1",
        "_99999999999999999999", "_ 1", "x_1",
    ];
    for s in samples {
        let k = intern(&mut strings, s);
        let expected = s.strip_prefix('_').and_then(|t| t.parse::<u32>().ok());
        assert_eq!(is_tuple_name(&strings, k), expected, "{}", s);
    }
}

#[test]
fn partial_tuple_records() {
    let mut strings = new_interner();
    let f0 = tuple_name(&mut strings, 0);
    let f1 = tuple_name(&mut strings, 1);
    let f5 = tuple_name(&mut strings, 5);
    let name = intern(&mut strings, "name");
    assert_eq!(is_partial_tuple_record(&strings, &[f0, f1]), Some(2));
    assert_eq!(is_partial_tuple_record(&strings, &[f1]), Some(2));
    assert_eq!(is_partial_tuple_record(&strings, &[f0]), None);
    assert_eq!(is_partial_tuple_record(&strings, &[]), None);
    assert_eq!(is_partial_tuple_record(&strings, &[f0, name]), None);
    assert_eq!(is_partial_tuple_record(&strings, &[f5, f1]), Some(6));
    assert_eq!(is_partial_tuple_record(&strings, &[f5]), None);
}

#[test]
fn single_name_paths() {
    let mut strings = new_interner();
    let any = intern(&mut strings, "any");
    let never = intern(&mut strings, "never");
    let int = intern(&mut strings, "int");
    assert!(matches!(PathType::new_single(&strings, any), PathType::Top));
    assert!(matches!(PathType::new_single(&strings, never), PathType::Bot));
    assert!(matches!(PathType::new_single(&strings, int), PathType::Single(k) if k == int));
}

#[test]
fn type_param_pair_name() {
    let mut strings = new_interner();
    let t = intern(&mut strings, "t");
    let mut p = TypeParam::new((t, Span(1)), None, None);
    assert!(p.pair_name.is_none());
    assert_eq!(p.alias.0, t);
    p.set_pair(&mut strings);
    assert_eq!(resolve(&strings, &p.pair_name.unwrap()), "t$");
}

fn insert_of(e: &SpannedError) -> (String, usize, String) {
    match e.parts.last().unwrap() {
        ErrorPart::Insert(a, s, b) => (a.clone(), s.0, b.clone()),
        other => panic!("unexpected {:?}", other),
    }
}

#[test]
fn hole_hints() {
    let mut strings = new_interner();
    let x = intern(&mut strings, "x");
    let mut e = SpannedError::new();
    HoleSrc::LetRebind(Span(4), x).add_to_error(&mut e, &strings);
    assert_eq!(insert_of(&e), ("(let x: _ = x; ".to_string(), 4, ")".to_string()));
    HoleSrc::AddFuncCoerce(Span(5), x).add_to_error(&mut e, &strings);
    assert_eq!(insert_of(&e), ("(".to_string(), 5, " :> _ -> _ with [x=_])".to_string()));
    HoleSrc::AddSubstitutions(Span(6), x).add_to_error(&mut e, &strings);
    assert_eq!(insert_of(&e), ("".to_string(), 6, " with [x=_]".to_string()));
    HoleSrc::AddSubstitutionToEnd(Span(6), x).add_to_error(&mut e, &strings);
    assert_eq!(insert_of(&e), ("".to_string(), 6, "; x=_".to_string()));
    HoleSrc::CheckedExpr(Span(2)).add_to_error(&mut e, &strings);
    assert_eq!(insert_of(&e), ("(".to_string(), 2, ": _)".to_string()));
    HoleSrc::OptAscribe(Span(2)).add_to_error(&mut e, &strings);
    assert_eq!(insert_of(&e), ("".to_string(), 2, ": _".to_string()));
    HoleSrc::Explicit(Span(8)).add_to_error(&mut e, &strings);
    assert!(matches!(e.parts.last().unwrap(), ErrorPart::At(m, Span(8)) if m.is_empty()));
    assert_eq!(e.parts.len(), 7);
}

#[test]
fn hole_priorities() {
    let mut strings = new_interner();
    let x = intern(&mut strings, "x");
    assert_eq!(HoleSrc::Explicit(Span(0)).priority(), 100);
    assert_eq!(HoleSrc::FuncArgAscribe(Span(0)).priority(), 95);
    assert_eq!(HoleSrc::OptAscribe(Span(0)).priority(), 85);
    assert_eq!(HoleSrc::IdentityAscribe(Span(0)).priority(), 70);
    assert_eq!(HoleSrc::AddSubstitutions(Span(0), x).priority(), 21);
    assert_eq!(HoleSrc::CheckedExpr(Span(0)).priority(), 20);
    assert_eq!(HoleSrc::AddFuncCoerce(Span(0), x).priority(), 10);
    assert_eq!(HoleSrc::LetRebind(Span(0), x).priority(), 0);
}

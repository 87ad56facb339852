use onesubml::ast::types::{Kind, SVKind, Variance};
use onesubml::kinds::{check_kinds, kinds_are_equal, print_kind, KindVar, KindVarStore};
use onesubml::spans::{ErrorPart, Span, SpannedError};

fn star() -> Kind {
    Kind::Star
}

fn arrow_at(params: Vec<(Variance, Kind)>, span: usize) -> Kind {
    Kind::new(params.into_iter().map(|(v, k)| SVKind::new_implicit(v, k, Span(span))).collect())
}

fn arrow(params: Vec<(Variance, Kind)>) -> Kind {
    arrow_at(params, 0)
}

fn lines(e: &SpannedError) -> Vec<String> {
    e.parts
        .iter()
        .map(|p| match p {
            ErrorPart::Text(s) => s.clone(),
            ErrorPart::At(s, span) => format!("{}@{}", s, span.0),
            ErrorPart::Insert(a, span, b) => format!("{}<{}>{}", a, span.0, b),
        })
        .collect()
}

#[test]
fn print_star_kind() {
    assert_eq!(print_kind(&star()), "[]");
}

#[test]
fn print_nested_kind() {
    let k = arrow(vec![
        (Variance::Covariant, star()),
        (Variance::Contravariant, arrow(vec![(Variance::Invariant, star())])),
    ]);
    assert_eq!(print_kind(&k), "[+; -[^]]");
}

#[test]
fn kind_new_of_empty_is_star() {
    assert!(matches!(Kind::new(Vec::new()), Kind::Star));
    assert_eq!(star().params().len(), 0);
    assert_eq!(arrow(vec![(Variance::Covariant, star())]).params().len(), 1);
}

#[test]
fn sv_kind_defaults_to_star() {
    let p = SVKind::new((Variance::Invariant, Span(4)), None);
    assert!(matches!(p.kind, (Kind::Star, Span(4))));
}

#[test]
fn equal_kinds_check_ok() {
    let a = arrow_at(vec![(Variance::Covariant, star())], 1);
    let b = arrow_at(vec![(Variance::Covariant, star())], 2);
    assert!(kinds_are_equal(&a, &b));
    assert!(check_kinds(&(a, Span(1)), &(b, Span(2))).is_ok());
}

#[test]
fn kinds_differ() {
    let a = arrow(vec![(Variance::Covariant, star())]);
    let b = arrow(vec![(Variance::Contravariant, star())]);
    let c = arrow(vec![(Variance::Covariant, star()), (Variance::Covariant, star())]);
    assert!(!kinds_are_equal(&a, &b));
    assert!(!kinds_are_equal(&a, &c));
    assert!(!kinds_are_equal(&a, &star()));
    assert!(kinds_are_equal(&star(), &star()));
}

#[test]
fn arity_mismatch_error() {
    let a = arrow(vec![(Variance::Covariant, star())]);
    let e = check_kinds(&(a, Span(1)), &(star(), Span(2))).unwrap_err();
    assert_eq!(
        lines(&e),
        vec![
            "KindError: Type constructor has 1 parameters here:@1",
            "Note: But it is expected to have 0 parameters here:@2",
        ]
    );
}

#[test]
fn variance_mismatch_error() {
    let a = arrow_at(vec![(Variance::Covariant, star())], 5);
    let b = arrow_at(vec![(Variance::Invariant, star())], 6);
    let e = check_kinds(&(a, Span(1)), &(b, Span(2))).unwrap_err();
    assert_eq!(
        lines(&e),
        vec![
            "KindError: Type constructor variance mismatch. Expected to be covariant here:@5",
            "Note: But it is invariant here:@6",
        ]
    );
}

#[test]
fn nested_mismatch_error() {
    let a = arrow_at(vec![(Variance::Covariant, arrow_at(vec![(Variance::Covariant, star())], 7))], 5);
    let b = arrow_at(vec![(Variance::Covariant, star())], 6);
    let e = check_kinds(&(a, Span(1)), &(b, Span(2))).unwrap_err();
    assert_eq!(
        lines(&e),
        vec![
            "KindError: Type constructor has 1 parameters here:@5",
            "Note: But it is expected to have 0 parameters here:@6",
        ]
    );
}

#[test]
fn kind_var_unset_needs_annotation() {
    let mut store = KindVarStore::new();
    let v = KindVar::new_var(&mut store, Span(3));
    let e = v.force(&store).unwrap_err();
    assert_eq!(lines(&e), vec!["KindError: An explicit kind annotation is required here.", "<3> as [...] "]);
}

#[test]
fn kind_var_check_sets_then_compares() {
    let mut store = KindVarStore::new();
    let mut v = KindVar::new_var(&mut store, Span(3));
    let copy = v.clone();
    let expected = (arrow(vec![(Variance::Covariant, star())]), Span(8));
    assert!(v.check(&expected, &mut store).is_ok());
    // Every copy of the variable sees the kind it was set to.
    let forced = copy.clone().force(&store).unwrap();
    assert_eq!(print_kind(&forced.0), "[+]");
    assert_eq!(forced.1, Span(8));
    let mut w = copy;
    w.flatten(&store);
    assert!(matches!(w, KindVar::Known(_)));
    let other = (star(), Span(9));
    assert!(w.check(&other, &mut store).is_err());
}

#[test]
fn known_kind_var_forces() {
    let store = KindVarStore::new();
    let v = KindVar::Known((star(), Span(2)));
    let k = v.force(&store).unwrap();
    assert!(matches!(k, (Kind::Star, Span(2))));
}

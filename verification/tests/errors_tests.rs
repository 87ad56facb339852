use onesubml::coercion::{ice2, InvalidCoercionError};
use onesubml::exhaustiveness::{MissingPattern, SplitHint};
use onesubml::spans::{ice, ErrorPart, Span, SpannedError};
use onesubml::text::decimal_string;
use onesubml::type_errors::{be_a, have_ty, TMsg, TMsgSpan, TyOrigin};
use onesubml::CompilationResult;

fn lines(e: &SpannedError) -> Vec<String> {
    e.parts
        .iter()
        .map(|p| match p {
            ErrorPart::Text(s) => s.clone(),
            ErrorPart::At(s, span) => format!("{}@{}", s, span.0),
            ErrorPart::Insert(a, span, b) => format!("{}<{}>{}", a, span.0, b),
        })
        .collect()
}

#[test]
fn error_builders() {
    let e = SpannedError::new3("a", Span(1), "b", Span(2), "c", Span(3));
    assert_eq!(lines(&e), vec!["a@1", "b@2", "c@3"]);
    let mut e = SpannedError::new1("x", Span(4));
    e.push_str("note");
    e.push_insert("(", Span(5), ")");
    assert_eq!(lines(&e), vec!["x@4", "note", "(<5>)"]);
    assert_eq!(lines(&SpannedError::from_ice(ice())), vec!["Internal compiler error"]);
}

#[test]
fn decimal_strings() {
    assert_eq!(decimal_string(0), "0");
    assert_eq!(decimal_string(7), "7");
    assert_eq!(decimal_string(1204), "1204");
    assert_eq!(decimal_string(usize::MAX), usize::MAX.to_string());
}

#[test]
fn coercion_errors() {
    let cases = [
        (InvalidCoercionError::NotAFunction, "Not a pure identity function."),
        (InvalidCoercionError::InvalidInputType, "Input type does not match specified type."),
        (InvalidCoercionError::InputNotGeneral, "Input type does not handle all possible parameter types."),
        (InvalidCoercionError::VarNotUnique, "Coercion parameters are not uniquely determined by input type."),
        (
            InvalidCoercionError::InvalidUnwrapOutputType,
            "Output type of unwrap coercion must be a function, record, variant, or never.",
        ),
        (InvalidCoercionError::InvalidWrapOutputType, "Output type of wrap coercion must be a function or record."),
    ];
    for (err, reason) in cases {
        let e = err.spanned(Span(11));
        assert_eq!(lines(&e), vec![format!("TypeError: Invalid implicit coercion definition. {}@11", reason)]);
    }
    assert_eq!(lines(&ice2().spanned(Span(1))), vec!["Internal compiler error"]);
    let from: InvalidCoercionError = ice().into();
    assert_eq!(from, InvalidCoercionError::ICE(ice()));
}

#[test]
fn type_messages() {
    assert_eq!(be_a("record").print(), "be a record");
    assert_eq!(have_ty("int").print(), "have type int");

    let mut e = SpannedError::new();
    TMsg::HaveTy("int".to_string(), Some(TyOrigin::Builtin)).add_origin(&mut e);
    TMsg::HaveTy("T".to_string(), Some(TyOrigin::Custom(Span(3)))).add_origin(&mut e);
    TMsg::HaveTy("a".to_string(), Some(TyOrigin::Polymorphic)).add_origin(&mut e);
    TMsg::HaveTy("b".to_string(), None).add_origin(&mut e);
    be_a("function").add_origin(&mut e);
    assert_eq!(
        lines(&e),
        vec![
            "Note: int is a builtin type.",
            "Note: T is the type defined here:@3",
            "Note: a is a polymorphic type variable.",
        ]
    );
}

#[test]
fn type_message_with_span() {
    let m = TMsgSpan {
        msg: TMsg::HaveTy("int".to_string(), Some(TyOrigin::Builtin)),
        span: Span(2),
        extra: Some("function call".to_string()),
    };
    let mut e = SpannedError::new();
    m.print(&mut e, "TypeError: Value is required to");
    assert_eq!(
        lines(&e),
        vec![
            "TypeError: Value is required to have type int by the function call expression here:@2",
            "Note: int is a builtin type.",
        ]
    );
    let m = TMsgSpan { msg: be_a("record"), span: Span(5), extra: None };
    let mut e = SpannedError::new();
    m.print(&mut e, "However, that value may");
    assert_eq!(lines(&e), vec!["However, that value may be a record here:@5"]);
}

#[test]
fn missing_pattern_notes() {
    let mut e = SpannedError::new();
    let mp = MissingPattern { pattern: "`A".to_string(), ignored: None };
    mp.print_ignored(&mut e);
    assert!(e.parts.is_empty());
    let mp = MissingPattern { pattern: "`A".to_string(), ignored: Some((Span(6), SplitHint::Pat("`B _".to_string()))) };
    mp.print_ignored(&mut e);
    assert_eq!(e.parts.len(), 2);
    assert_eq!(
        lines(&e)[1],
        "Hint: Split the above case into multiple cases by adding explicit tags at position `B _."
    );
    assert!(lines(&e)[0].starts_with("Note: That case is covered by the match pattern here"));
    assert!(lines(&e)[0].ends_with("@6"));
}

#[test]
fn compilation_result_render() {
    assert_eq!(CompilationResult::Success("x=1".to_string()).render(), "SUCCESS\nx=1");
    assert_eq!(CompilationResult::Error("bad".to_string()).render(), "ERROR\nbad");
}

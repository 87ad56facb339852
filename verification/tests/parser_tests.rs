use onesubml::parser::{format_expected, friendly_token};

/// The same list, computed the way the standard library would sort and join it.
fn reference(expected: &[String]) -> String {
    let mut names: Vec<&str> = expected.iter().flat_map(|s| friendly_token(s).split(", ")).collect();
    names.sort_unstable();
    names.dedup();
    names.join(", ")
}

fn strings(v: &[&str]) -> Vec<String> {
    v.iter().map(|s| s.to_string()).collect()
}

#[test]
fn friendly_names_of_token_classes() {
    assert_eq!(friendly_token(r###"r#"-?(?:[0-9]+)"#"###), "number");
    assert_eq!(friendly_token(r###"r#"[A-Za-z_$][\\w$]*"#"###), "identifier");
    assert_eq!(friendly_token(r###"r#"(?:&&)|(?:\\|\\|)"#"###), r#""&&", "||""#);
    assert_eq!(friendly_token(r###"r#"[\\+\\-]\\.?|\\^"#"###), r#""+", "-", "^", operator"#);
    assert_eq!(
        friendly_token(r###"r#"\"[^\\\\\"\\n\\r]*(?:\\\\[tn'\"\\\\][^\\\\\"\\n\\r]*)*\""#"###),
        "string literal"
    );
    assert_eq!(friendly_token("\"(\""), "\"(\"");
}

#[test]
fn expected_tokens_are_sorted_and_distinct() {
    let e = strings(&[
        r###"r#"-?(?:[0-9]+)"#"###,
        r###"r#"-?(?:0|[1-9][0-9]*)[eE]-?[0-9]+"#"###,
        "\"(\"",
        r###"r#"[\\+\\-]\\.?|\\^"#"###,
        r###"r#"[\\*/%]\\.?"#"###,
    ]);
    let got = format_expected(&e);
    assert_eq!(got, reference(&e));
    assert_eq!(got, r#""(", "+", "-", "^", number, operator"#);
}

#[test]
fn expected_tokens_edge_cases() {
    for e in [
        strings(&[]),
        strings(&[""]),
        strings(&["a, b", "b", ", ", "a,b", "é", "e", "ab", "a"]),
        strings(&["x, , y", "x"]),
    ] {
        assert_eq!(format_expected(&e), reference(&e), "{:?}", e);
    }
}

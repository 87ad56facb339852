use onesubml::exhaustiveness::check_exhaustiveness;
use onesubml::parse_patterns::{inconsistent_pattern_error, PatternNode, PatternNodeSub, RecordNode, VariantNode};
use onesubml::print_patterns::{MergedPathNode, PathComponent};
use onesubml::spans::{ErrorPart, Span, SpannedError};
use onesubml::strings::{intern, new_interner};

fn leaf() -> PatternNode {
    PatternNode { sub: PatternNodeSub::Leaf }
}

fn lines(e: &SpannedError) -> Vec<String> {
    e.parts
        .iter()
        .map(|p| match p {
            ErrorPart::Text(s) => s.clone(),
            ErrorPart::At(s, span) => format!("{}@{}", s, span.0),
            ErrorPart::Insert(a, span, b) => format!("{}<{}>{}", a, span.0, b),
        })
        .collect()
}

#[test]
fn complete_match_is_exhaustive() {
    let mut strings = new_interner();
    let some = intern(&mut strings, "Some");
    let none = intern(&mut strings, "None");
    let tree = PatternNode {
        sub: PatternNodeSub::V(VariantNode { span: Span(1), key: 10, cases: vec![(some, leaf()), (none, leaf())] }),
    };
    let cases = vec![(Span(2), false, vec![(10, some)]), (Span(3), false, vec![(10, none)])];
    let r = check_exhaustiveness(Span(0), &mut strings, &tree, cases).unwrap();
    assert!(r.covers.is_empty());
    assert!(r.nonexhaustive_wildcard_reasons.len() == 1);
    assert_eq!(r.nonexhaustive_wildcard_reasons[0].0, 10);
}

#[test]
fn missing_tag_is_reported() {
    let mut strings = new_interner();
    let some = intern(&mut strings, "Some");
    let none = intern(&mut strings, "None");
    let tree = PatternNode {
        sub: PatternNodeSub::V(VariantNode { span: Span(1), key: 10, cases: vec![(some, leaf()), (none, leaf())] }),
    };
    let cases = vec![(Span(2), false, vec![(10, some)]), (Span(3), true, vec![(10, none)])];
    let e = check_exhaustiveness(Span(7), &mut strings, &tree, cases).err().unwrap();
    assert_eq!(
        lines(&e),
        vec!["SyntaxError: Match expression is not exhaustive.@7", "Note: For example, `None may not be covered."]
    );
}

#[test]
fn nested_missing_pattern_is_printed() {
    let mut strings = new_interner();
    let a = intern(&mut strings, "a");
    let x = intern(&mut strings, "X");
    let y = intern(&mut strings, "Y");
    let inner = PatternNode {
        sub: PatternNodeSub::V(VariantNode { span: Span(1), key: 20, cases: vec![(x, leaf()), (y, leaf())] }),
    };
    let tree = PatternNode {
        sub: PatternNodeSub::R(RecordNode { span: Span(2), fields: vec![(a, (Span(3), inner))] }),
    };
    let cases = vec![(Span(4), false, vec![(20, x)])];
    let e = check_exhaustiveness(Span(0), &mut strings, &tree, cases).err().unwrap();
    assert_eq!(lines(&e)[1], "Note: For example, {a: `Y} may not be covered.");
}

#[test]
fn tuple_patterns_print_as_tuples() {
    let mut strings = new_interner();
    let f0 = intern(&mut strings, "_0");
    let f1 = intern(&mut strings, "_1");
    let x = intern(&mut strings, "X");
    let y = intern(&mut strings, "Y");
    let v = PatternNode {
        sub: PatternNodeSub::V(VariantNode { span: Span(1), key: 30, cases: vec![(x, leaf()), (y, leaf())] }),
    };
    let tree = PatternNode {
        sub: PatternNodeSub::R(RecordNode { span: Span(2), fields: vec![(f0, (Span(3), leaf())), (f1, (Span(4), v))] }),
    };
    let cases = vec![(Span(5), false, vec![(30, y)])];
    let e = check_exhaustiveness(Span(0), &mut strings, &tree, cases).err().unwrap();
    assert_eq!(lines(&e)[1], "Note: For example, (_, `X) may not be covered.");
}

#[test]
fn unreachable_case_is_reported() {
    let mut strings = new_interner();
    let some = intern(&mut strings, "Some");
    let none = intern(&mut strings, "None");
    let tree = PatternNode {
        sub: PatternNodeSub::V(VariantNode { span: Span(1), key: 10, cases: vec![(some, leaf()), (none, leaf())] }),
    };
    let cases = vec![(Span(2), false, vec![]), (Span(3), false, vec![(10, some)])];
    let e = check_exhaustiveness(Span(0), &mut strings, &tree, cases).err().unwrap();
    assert_eq!(
        lines(&e),
        vec![
            "SyntaxError: Match case is unreachable.@3",
            "Note: All values are covered by previous match case here:@2",
        ]
    );
}

#[test]
fn guarded_cases_do_not_make_later_ones_unreachable() {
    let mut strings = new_interner();
    let some = intern(&mut strings, "Some");
    let none = intern(&mut strings, "None");
    let tree = PatternNode {
        sub: PatternNodeSub::V(VariantNode { span: Span(1), key: 10, cases: vec![(some, leaf()), (none, leaf())] }),
    };
    let cases = vec![(Span(2), true, vec![(10, some)]), (Span(3), false, vec![(10, some)]), (Span(4), false, vec![])];
    let r = check_exhaustiveness(Span(0), &mut strings, &tree, cases).unwrap();
    // The unguarded case before the wildcard differs from it only at the tag `Some`.
    assert_eq!(r.covers.len(), 1);
    assert_eq!(r.covers[0].0, 10);
    assert_eq!(r.covers[0].1, vec![(2, some)]);
    let _ = none;
}

#[test]
fn unknown_variant_is_an_internal_error() {
    let mut strings = new_interner();
    let some = intern(&mut strings, "Some");
    let tree = leaf();
    let cases = vec![(Span(2), false, vec![(99, some)])];
    let e = check_exhaustiveness(Span(0), &mut strings, &tree, cases).err().unwrap();
    assert_eq!(lines(&e), vec!["Internal compiler error"]);
}

#[test]
fn merged_paths_print() {
    let mut strings = new_interner();
    let a = intern(&mut strings, "a");
    let b = intern(&mut strings, "b");
    let t = intern(&mut strings, "T");
    let u = intern(&mut strings, "U");
    let mut m = MergedPathNode::new();
    assert_eq!(m.print(&strings), "_");
    m.merge_path(&[PathComponent::Field(a)], t);
    m.merge_path(&[PathComponent::Field(b), PathComponent::Case(u)], t);
    assert_eq!(m.print(&strings), "{a: `T, b: `U `T}");
}

#[test]
fn inconsistent_patterns() {
    let e = inconsistent_pattern_error(Span(1), Span(2));
    assert_eq!(
        lines(&e),
        vec![
            "SyntaxError: Inconsistent match patterns. The input is required to be a record here:@1",
            "Note: But it is also required to be a variant here:@2",
        ]
    );
}

fn pair_tree(strings: &mut lasso::Rodeo) -> (PatternNode, [lasso::Spur; 4]) {
    let f0 = intern(strings, "_0");
    let f1 = intern(strings, "_1");
    let a = intern(strings, "A");
    let b = intern(strings, "B");
    let x = intern(strings, "X");
    let y = intern(strings, "Y");
    let left = PatternNode {
        sub: PatternNodeSub::V(VariantNode { span: Span(1), key: 1, cases: vec![(a, leaf()), (b, leaf())] }),
    };
    let right = PatternNode {
        sub: PatternNodeSub::V(VariantNode { span: Span(2), key: 2, cases: vec![(x, leaf()), (y, leaf())] }),
    };
    let tree = PatternNode {
        sub: PatternNodeSub::R(RecordNode { span: Span(3), fields: vec![(f0, (Span(4), left)), (f1, (Span(5), right))] }),
    };
    (tree, [a, b, x, y])
}

#[test]
fn missing_pair_is_named_as_an_example() {
    let mut strings = new_interner();
    let (tree, [a, b, x, y]) = pair_tree(&mut strings);
    let cases = vec![
        (Span(10), false, vec![(1, a), (2, x)]),
        (Span(11), false, vec![(1, b), (2, x)]),
        (Span(12), false, vec![(1, b), (2, y)]),
    ];
    let e = check_exhaustiveness(Span(9), &mut strings, &tree, cases).err().unwrap();
    assert_eq!(
        lines(&e),
        vec!["SyntaxError: Match expression is not exhaustive.@9", "Note: For example, (`A, `Y) may not be covered."]
    );
}

#[test]
fn first_unreachable_case_names_first_cover() {
    let mut strings = new_interner();
    let (tree, [a, b, x, _y]) = pair_tree(&mut strings);
    let cases = vec![
        (Span(10), true, vec![]),
        (Span(11), false, vec![(1, b)]),
        (Span(12), false, vec![(1, a)]),
        (Span(13), false, vec![(2, x)]),
        (Span(14), false, vec![(1, a), (2, x)]),
        (Span(15), false, vec![(1, b), (2, x)]),
    ];
    let e = check_exhaustiveness(Span(9), &mut strings, &tree, cases).err().unwrap();
    assert_eq!(
        lines(&e),
        vec![
            "SyntaxError: Match case is unreachable.@14",
            "Note: All values are covered by previous match case here:@12",
        ]
    );
}

#[test]
fn unguarded_wildcard_makes_match_exhaustive() {
    let mut strings = new_interner();
    let (tree, [a, _b, x, _y]) = pair_tree(&mut strings);
    let cases = vec![(Span(10), false, vec![(1, a), (2, x)]), (Span(11), true, vec![]), (Span(12), false, vec![])];
    assert!(check_exhaustiveness(Span(9), &mut strings, &tree, cases).is_ok());
}

#[test]
fn only_guarded_cases_is_an_internal_error() {
    let mut strings = new_interner();
    let (tree, [a, _b, _x, _y]) = pair_tree(&mut strings);
    let cases = vec![(Span(10), true, vec![(1, a)]), (Span(11), true, vec![])];
    let e = check_exhaustiveness(Span(9), &mut strings, &tree, cases).err().unwrap();
    assert_eq!(lines(&e), vec!["Internal compiler error"]);
}

#[test]
fn wildcard_spanning_a_split_is_not_decomposed() {
    let mut strings = new_interner();
    let (tree, [a, b, x, y]) = pair_tree(&mut strings);
    let cases = vec![
        (Span(10), false, vec![(1, a), (2, x)]),
        (Span(11), false, vec![(2, y)]),
        (Span(12), false, vec![(1, b)]),
    ];
    let e = check_exhaustiveness(Span(9), &mut strings, &tree, cases).err().unwrap();
    let l = lines(&e);
    assert_eq!(l[0], "SyntaxError: Match expression is not exhaustive.@9");
    assert_eq!(l[1], "Note: For example, (`A, `Y) may not be covered.");
}

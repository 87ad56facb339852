use onesubml::ast::types::{Kind, TypeParam};
use onesubml::spans::{ErrorPart, Span};
use onesubml::spines::{SortedTypeParams, TypeParamsBuilder};
use onesubml::strings::{intern, new_interner, resolve};

fn names(strings: &lasso::Rodeo, sp: &SortedTypeParams) -> Vec<String> {
    sp.0.iter().map(|e| resolve(strings, &e.0).to_string()).collect()
}

#[test]
fn params_come_out_sorted_by_name() {
    let mut strings = new_interner();
    let b = intern(&mut strings, "b");
    let a = intern(&mut strings, "a");
    let c = intern(&mut strings, "c");
    let tps = vec![
        TypeParam::new((b, Span(1)), None, None),
        TypeParam::new((c, Span(2)), None, None),
        TypeParam::new((a, Span(3)), Some((Kind::Star, Span(4))), None),
    ];
    let sp = match SortedTypeParams::from(&tps, &strings) {
        Ok(sp) => sp,
        Err(_) => panic!("expected sorted parameters"),
    };
    assert_eq!(names(&strings, &sp), vec!["a", "b", "c"]);
    let spans: Vec<Span> = sp.0.iter().map(|e| e.1).collect();
    assert_eq!(spans, vec![Span(3), Span(1), Span(2)]);
}

#[test]
fn pair_params_give_two_entries() {
    let mut strings = new_interner();
    let t = intern(&mut strings, "t");
    let mut tp = TypeParam::new((t, Span(5)), None, None);
    tp.set_pair(&mut strings);
    let sp = match SortedTypeParams::from(&[tp], &strings) {
        Ok(sp) => sp,
        Err(_) => panic!("expected sorted parameters"),
    };
    assert_eq!(names(&strings, &sp), vec!["t", "t$"]);
    assert!(sp.0.iter().all(|e| e.1 == Span(5)));
}

#[test]
fn repeated_param_is_an_error() {
    let mut strings = new_interner();
    let a = intern(&mut strings, "a");
    let tps = vec![TypeParam::new((a, Span(1)), None, None), TypeParam::new((a, Span(2)), None, None)];
    match SortedTypeParams::from(&tps, &strings) {
        Ok(_) => panic!("expected an error"),
        Err(e) => {
            assert_eq!(e.parts.len(), 2);
            assert!(matches!(&e.parts[0], ErrorPart::At(m, Span(2)) if m == "SyntaxError: Repeated type parameter name."));
            assert!(matches!(&e.parts[1], ErrorPart::At(m, Span(1)) if m == "Note: Conflicts with previous definition here:"));
        },
    }
}

#[test]
fn builder_collects_in_order() {
    let mut strings = new_interner();
    let z = intern(&mut strings, "z");
    let y = intern(&mut strings, "y");
    let mut b = TypeParamsBuilder::new();
    assert!(b.add(&TypeParam::new((z, Span(1)), None, None)).is_ok());
    assert!(b.add(&TypeParam::new((y, Span(2)), None, None)).is_ok());
    assert!(b.add(&TypeParam::new((z, Span(3)), None, None)).is_err());
    let sp = b.finish(&strings);
    assert_eq!(names(&strings, &sp), vec!["y", "z"]);
}

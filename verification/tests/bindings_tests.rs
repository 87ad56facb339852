use onesubml::kinds::{KindVar, KindVarStore};
use onesubml::parse_types::ParsedBindings;
use onesubml::spans::{ErrorPart, Span};
use onesubml::strings::{intern, new_interner};
use onesubml::templates::ParsedTypeHead;
use onesubml::type_core::TypeCheckerCore;
use onesubml::typeck::{BindingMap, Bindings, TypeBinding, ValueBinding};
use onesubml::types::{bot, top, VTypeHead, Value};
use onesubml::vec_index::TyConDefInd;

fn first_msg(e: &onesubml::spans::SpannedError) -> String {
    match &e.parts[0] {
        ErrorPart::At(m, _) => m.clone(),
        ErrorPart::Text(m) => m.clone(),
        ErrorPart::Insert(a, _, _) => a.clone(),
    }
}

#[test]
fn lookup_finds_bound_names() {
    let mut strings = new_interner();
    let x = intern(&mut strings, "x");
    let y = intern(&mut strings, "y");
    let mut b = Bindings::new();
    b.add_var_bindings(&[(x, (Span(1), bot()))]);
    let vb = b.lookup_var(x, Span(2)).ok().unwrap();
    assert_eq!(vb.span, Span(1));
    assert!(!vb.is_mod);
    let e = b.lookup_var(y, Span(3)).err().unwrap();
    assert_eq!(e.parts.len(), 1);
    assert_eq!(first_msg(&e), "SyntaxError: Undefined variable");
    let e2 = b.lookup_type(x, Span(4)).err().unwrap();
    assert_eq!(first_msg(&e2), "SyntaxError: Undefined type");
}

#[test]
fn hidden_names_explain_themselves() {
    let mut strings = new_interner();
    let x = intern(&mut strings, "x");
    let mut m: BindingMap<u32> = BindingMap::new();
    m.insert(x, 7);
    assert_eq!(*m.get(x, "variable", Span(1)).ok().unwrap(), 7);
    m.hide_name(x, Span(9));
    let e = m.get(x, "variable", Span(2)).err().unwrap();
    assert_eq!(e.parts.len(), 2);
    assert!(matches!(&e.parts[1], ErrorPart::At(_, Span(9))));
}

#[test]
fn rec_hints_suggest_rec() {
    let mut strings = new_interner();
    let f = intern(&mut strings, "f");
    let mut m: BindingMap<u32> = BindingMap::new();
    m.rec_hint(f, Span(5));
    let e = m.get(f, "variable", Span(6)).err().unwrap();
    assert_eq!(e.parts.len(), 3);
    assert!(matches!(&e.parts[2], ErrorPart::Insert(a, Span(5), b) if a == "rec " && b.is_empty()));
    // A real binding is not replaced by a hint.
    m.insert(f, 1);
    m.rec_hint(f, Span(5));
    assert_eq!(*m.get(f, "variable", Span(6)).ok().unwrap(), 1);
    // Hiding a name never bound does nothing.
    let g = intern(&mut strings, "g");
    m.hide_name(g, Span(3));
    let e = m.get(g, "variable", Span(4)).err().unwrap();
    assert_eq!(e.parts.len(), 1);
}

#[test]
fn unwinding_restores_bindings() {
    let mut strings = new_interner();
    let x = intern(&mut strings, "x");
    let t = intern(&mut strings, "t");
    let mut b = Bindings::new_with_builtins(&[(t, TyConDefInd::new(0))]);
    assert!(matches!(b.lookup_type(t, Span(1)), Ok(TypeBinding::Con(_))));
    let p = b.unwind_point();
    b.add_var_bindings(&[(x, (Span(1), bot()))]);
    b.add_bindings(ParsedBindings { vars: vec![], types: vec![(x, TyConDefInd::new(3))] });
    b.scopelvl.inc();
    assert!(b.lookup_var(x, Span(2)).is_ok());
    assert!(b.lookup_type(x, Span(2)).is_ok());
    b.unwind(p);
    assert!(b.lookup_var(x, Span(2)).is_err());
    assert!(b.lookup_type(x, Span(2)).is_err());
    assert_eq!(b.scopelvl.0, 0);
    // Built-in types survive an unwind.
    assert!(b.lookup_type(t, Span(1)).is_ok());
}

#[test]
fn inspect_names_plain_constructors() {
    let mut strings = new_interner();
    let mut core = TypeCheckerCore::new();
    let int = core.add_builtin_type(intern(&mut strings, "int"));
    let (v, u) = core.simple(int, Span(1));
    let kind = KindVar::Var(0);
    assert!(matches!(TypeBinding::inspect(&mut core, (v, u), &kind), Ok(TypeBinding::Con(c)) if c == int));
    let w = core.new_val(VTypeHead::VTop, Span(2));
    assert!(matches!(TypeBinding::inspect(&mut core, (w, u), &kind), Ok(TypeBinding::Types(_, _))));
    assert!(TypeBinding::inspect(&mut core, (Value(u.0), u), &kind).is_err());
}

#[test]
fn binding_get_makes_constructor_nodes() {
    let mut strings = new_interner();
    let mut core = TypeCheckerCore::new();
    let int = core.add_builtin_type(intern(&mut strings, "int"));
    let (h, k) = TypeBinding::Con(int).get(&mut core, Span(4)).ok().unwrap();
    assert!(matches!(h, ParsedTypeHead::Type((v, u)) if v.0.i() == 0 && u.0.i() == 1));
    assert!(matches!(k, KindVar::Known((_, Span(4)))));
    assert_eq!(core.r.len(), 2);
    let (h2, _) = TypeBinding::Types((bot(), top()), KindVar::Var(3)).get(&mut core, Span(5)).ok().unwrap();
    assert!(matches!(h2, ParsedTypeHead::Type((v, u)) if v == bot() && u == top()));
    assert_eq!(core.r.len(), 2);
}

#[test]
fn type_members_of_modules() {
    let mut strings = new_interner();
    let t = intern(&mut strings, "t");
    let mut core = TypeCheckerCore::new();
    let mut store = KindVarStore::new();
    let plain = ValueBinding::new(bot(), Span(1));
    let e = plain.get_type_member(&mut core, &mut store, (t, Span(2)), Span(3), Span(4)).err().unwrap();
    assert_eq!(first_msg(&e), "SyntaxError: Expected module binding.");
    let mut module = ValueBinding::new(bot(), Span(1));
    module.is_mod = true;
    let (h, k) = module.get_type_member(&mut core, &mut store, (t, Span(2)), Span(3), Span(4)).ok().unwrap();
    assert!(matches!(h, ParsedTypeHead::Type((v, u)) if v == bot() && u == top()));
    assert!(matches!(k, KindVar::Var(0)));
    let rec = core.new_val(VTypeHead::VObj { fields: vec![], aliases: vec![] }, Span(6));
    module.val = rec;
    let e = module.get_type_member(&mut core, &mut store, (t, Span(2)), Span(3), Span(4)).err().unwrap();
    assert_eq!(first_msg(&e), "TypeError: Undefined module type member:");
}

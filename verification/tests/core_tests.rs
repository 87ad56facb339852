use onesubml::ast::types::Kind;
use onesubml::coercion::{CoercionTargetCategory, InnerCallback, UnwrapCoercionCallback};
use onesubml::introspect_types::{DissectedType, LoadedSpineOrType, UseOrHole, ValOrHole};
use onesubml::restamp::restamp_func_or_val;
use onesubml::spans::Span;
use onesubml::strings::{intern, new_interner};
use onesubml::subsumption::FuncInstantiationCheck;
use onesubml::type_core::{ScopeLvl, TypeCheckerCore, TypeEdge, TypeNode};
use onesubml::type_errors::HoleSrc;
use onesubml::types::{
    bot, top, ComparisonKey, ConstructorAppData, ConstructorAppParams, ConstructorData, EphemeralPolyType,
    FuncProperties, UTypeHead, Use, UseSrc, VTypeHead, Value,
};
use onesubml::unification::{UnificationCallback, UnifyKinds};
use onesubml::vec_index::TypeNodeInd;

fn idx(v: Value) -> usize {
    v.0.i()
}

fn uidx(u: Use) -> usize {
    u.0.i()
}

fn unify_kinds(rhs: Use) -> UnificationCallback {
    UnificationCallback::K(UnifyKinds {
        cb: UnwrapCoercionCallback { cb: InnerCallback::Record(rhs) },
        hole_src: HoleSrc::Explicit(Span(1)),
        scopelvl: ScopeLvl(0),
        span: Span(2),
    })
}

#[test]
fn new_core_is_empty() {
    let core = TypeCheckerCore::new();
    assert_eq!(core.r.len(), 0);
    assert!(core.pending_edges.is_empty());
}

#[test]
fn nodes_get_consecutive_indices() {
    let mut core = TypeCheckerCore::new();
    let a = core.new_val(VTypeHead::VTop, Span(1));
    let b = core.new_use(UTypeHead::UBot, Span(2));
    let (hv, hu) = core.var(HoleSrc::Explicit(Span(3)), ScopeLvl(4));
    assert_eq!((idx(a), uidx(b), idx(hv), uidx(hu)), (0, 1, 2, 2));
    assert!(matches!(core.r.get(a.0), Some(TypeNode::Value((VTypeHead::VTop, Span(1))))));
    assert!(matches!(core.r.get(b.0), Some(TypeNode::Use((UTypeHead::UBot, Span(2), UseSrc::NoSrc)))));
    assert!(matches!(core.r.get(hv.0), Some(TypeNode::Var(d)) if d.scopelvl == ScopeLvl(4)));
}

#[test]
fn flow_queues_root_edge() {
    let mut core = TypeCheckerCore::new();
    let a = core.new_val(VTypeHead::VTop, Span(1));
    let b = core.new_use(UTypeHead::UBot, Span(2));
    core.flow(a, b, Span(7));
    assert_eq!(core.pending_edges.len(), 1);
    let (l, r, e) = core.pending_edges[0];
    assert_eq!((idx(l), uidx(r)), (0, 1));
    assert_eq!(e.scopelvl, ScopeLvl(u32::MAX));
    assert_eq!(core.r.len(), 2);
}

#[test]
fn simple_types_name_the_constructor() {
    let mut strings = new_interner();
    let mut core = TypeCheckerCore::new();
    let int = core.add_builtin_type(intern(&mut strings, "int"));
    assert_eq!(int.i(), 0);
    let (v, u) = core.simple(int, Span(5));
    assert_eq!((idx(v), uidx(u)), (0, 1));
    match core.r.get(v.0) {
        Some(TypeNode::Value((VTypeHead::VTypeConstructor(d), _))) => assert!(d.category == int && !d.restamp),
        _ => panic!("expected a constructor"),
    }
    let (rv, ru) = core.simple_restamp(int, Span(6));
    match core.r.get(ru.0) {
        Some(TypeNode::Use((UTypeHead::UTypeConstructor(d), _, _))) => assert!(d.restamp),
        _ => panic!("expected a constructor"),
    }
    assert_eq!(idx(rv), 2);
}

#[test]
fn intersect_of_nothing_is_top() {
    let mut core = TypeCheckerCore::new();
    assert!(core.intersect(vec![], Span(1)) == top());
    assert!(core.intersect(vec![top(), top()], Span(1)) == top());
    assert_eq!(core.r.len(), 0);
}

#[test]
fn intersect_of_one_type_is_that_type() {
    let mut core = TypeCheckerCore::new();
    let a = core.new_use(UTypeHead::UBot, Span(1));
    let r = core.intersect(vec![a, top(), a], Span(2));
    assert!(r == a);
    assert_eq!(core.r.len(), 1);
}

#[test]
fn intersect_sorts_and_dedups() {
    let mut core = TypeCheckerCore::new();
    let a = core.new_use(UTypeHead::UBot, Span(1));
    let b = core.new_use(UTypeHead::UBot, Span(2));
    let c = core.new_use(UTypeHead::UBot, Span(3));
    let r = core.intersect(vec![c, a, top(), c, b, a], Span(4));
    assert_eq!(uidx(r), 3);
    match core.r.get(r.0) {
        Some(TypeNode::Use((UTypeHead::UIntersection(w), Span(4), UseSrc::NoSrc))) => {
            let got: Vec<usize> = w.iter().map(|x| uidx(*x)).collect();
            assert_eq!(got, vec![0, 1, 2]);
        },
        _ => panic!("expected an intersection"),
    }
}

#[test]
fn higher_priority_hole_replaces_lower() {
    let mut strings = new_interner();
    let mut core = TypeCheckerCore::new();
    let x = intern(&mut strings, "x");
    let (low, _) = core.var(HoleSrc::CheckedExpr(Span(1)), ScopeLvl(0));
    let r = core.add_hole_if_higher_priority(low, HoleSrc::Explicit(Span(2)), ScopeLvl(3), Span(9));
    assert_eq!(idx(r), 1);
    assert_eq!(core.pending_edges.len(), 1);
    assert_eq!((idx(core.pending_edges[0].0), uidx(core.pending_edges[0].1)), (0, 1));
    // A hole of higher priority is kept.
    let r2 = core.add_hole_if_higher_priority(r, HoleSrc::LetRebind(Span(3), x), ScopeLvl(3), Span(9));
    assert_eq!(idx(r2), 1);
    // So is a type that is no hole.
    let t = core.new_val(VTypeHead::VTop, Span(4));
    let r3 = core.add_hole_if_higher_priority(t, HoleSrc::Explicit(Span(5)), ScopeLvl(3), Span(9));
    assert_eq!(idx(r3), idx(t));
    assert_eq!(core.r.len(), 3);
}

#[test]
fn placeholders_are_set_once() {
    let mut core = TypeCheckerCore::new();
    let ph = core.val_placeholder();
    assert!(core.set_val(ph, VTypeHead::VTop, Span(1)).is_ok());
    assert!(core.set_val(ph, VTypeHead::VTop, Span(1)).is_err());
    let uph = core.use_placeholder();
    assert!(core.set_use(uph, UTypeHead::UBot, Span(2)).is_ok());
    assert!(matches!(core.r.get(uph.0), Some(TypeNode::Use((UTypeHead::UBot, Span(2), UseSrc::NoSrc)))));
    let lph = core.use_placeholder();
    assert!(core.set_unification_callback(lph, unify_kinds(uph), Span(3)).is_ok());
    assert!(matches!(core.r.get(lph.0), Some(TypeNode::LazyUse(Some(_), Span(3)))));
    assert!(core.set_use(Use(TypeNodeInd::new(40)), UTypeHead::UBot, Span(2)).is_err());
}

#[test]
fn revert_returns_to_saved_point() {
    let mut core = TypeCheckerCore::new();
    let a = core.new_val(VTypeHead::VTop, Span(1));
    core.save();
    let b = core.new_use(UTypeHead::UBot, Span(2));
    core.flow(a, b, Span(3));
    core.revert();
    assert_eq!(core.r.len(), 1);
    assert!(core.pending_edges.is_empty());
    // After make_permanent, a later revert keeps what was there.
    let _c = core.new_use(UTypeHead::UBot, Span(4));
    core.make_permanent();
    core.revert();
    assert_eq!(core.r.len(), 0);
}

#[test]
fn ephemeral_types_come_in_pairs() {
    let mut strings = new_interner();
    let mut core = TypeCheckerCore::new();
    let d = EphemeralPolyType { key: ComparisonKey(Span(1)), name: intern(&mut strings, "a") };
    let (v, u) = core.ephemeral(d, Span(2));
    assert_eq!((idx(v), uidx(u)), (0, 1));
    assert!(matches!(core.r.get(u.0), Some(TypeNode::Use((UTypeHead::UEphemeralPoly(_), Span(2), UseSrc::NoSrc)))));
}

#[test]
fn reading_nodes_back() {
    let mut core = TypeCheckerCore::new();
    let a = core.new_val(VTypeHead::VTop, Span(1));
    let b = core.new_use(UTypeHead::UBot, Span(2));
    let (h, hu) = core.var(HoleSrc::Explicit(Span(3)), ScopeLvl(0));
    assert!(matches!(core.get_val_or_hole(bot()), Ok(ValOrHole::Never)));
    assert!(matches!(core.get_val_or_hole(a), Ok(ValOrHole::Val(VTypeHead::VTop, Span(1)))));
    assert!(matches!(core.get_val_or_hole(h), Ok(ValOrHole::Hole(_))));
    assert!(core.get_val_or_hole(Value(b.0)).is_err());
    assert!(core.get_vhead(h).is_err());
    assert!(matches!(core.get_use_or_hole(top()), Ok(UseOrHole::Any)));
    assert!(matches!(core.get_use_or_hole(b), Ok(UseOrHole::Use(UTypeHead::UBot, Span(2), UseSrc::NoSrc))));
    assert!(matches!(core.get_use_or_hole(hu), Ok(UseOrHole::Hole(_))));
    assert!(core.get_uhead(Use(a.0)).is_err());
    assert!(core.get_aliases(a).is_err());
}

#[test]
fn dissecting_types() {
    let mut strings = new_interner();
    let mut core = TypeCheckerCore::new();
    let list = core.add_builtin_type(intern(&mut strings, "list"));
    let (cv, cu) = core.simple(list, Span(1));
    let (pv, pu) = core.simple(list, Span(2));
    let app = core.new_val(
        VTypeHead::VConstructorApplication(ConstructorAppData {
            tycon: cv,
            kind: (Kind::Star, Span(3)),
            params: ConstructorAppParams::new(vec![(Some(pv), Some(pu))]),
        }),
        Span(3),
    );
    match core.v_dissect(app) {
        Ok((DissectedType::Constructor(d), Some(p))) => {
            assert!(d.category == list);
            assert_eq!(p.0.len(), 1);
        },
        _ => panic!("expected a constructor application"),
    }
    assert!(matches!(core.v_dissect(bot()), Ok((DissectedType::Never, None))));
    assert!(matches!(core.u_dissect(top()), Ok((DissectedType::Any, None))));
    assert!(matches!(core.u_dissect(cu), Ok((DissectedType::Constructor(_), None))));
    // An application of an application cannot be dissected.
    let app2 = core.new_val(
        VTypeHead::VConstructorApplication(ConstructorAppData {
            tycon: app,
            kind: (Kind::Star, Span(4)),
            params: ConstructorAppParams::empty(),
        }),
        Span(4),
    );
    assert!(core.v_dissect(app2).is_err());
    assert!(matches!(core.v_as_spine_or_type(app), Ok(LoadedSpineOrType::Type(t)) if t == app));
}

#[test]
fn categories_of_types() {
    let mut core = TypeCheckerCore::new();
    let f = core.new_val(
        VTypeHead::VFunc { arg: top(), ret: bot(), prop: FuncProperties { is_identity: false } },
        Span(1),
    );
    assert_eq!(CoercionTargetCategory::parse_v(&core, f).unwrap(), CoercionTargetCategory::Func);
    assert_eq!(CoercionTargetCategory::parse_v(&core, bot()).unwrap(), CoercionTargetCategory::Never);
    assert_eq!(CoercionTargetCategory::parse_u(&core, top()).unwrap(), CoercionTargetCategory::Other);
    let b = core.new_use(UTypeHead::UBot, Span(2));
    assert_eq!(CoercionTargetCategory::parse_u(&core, b).unwrap(), CoercionTargetCategory::Never);
    assert_eq!(CoercionTargetCategory::new(DissectedType::Never, true), CoercionTargetCategory::Other);
    assert_eq!(CoercionTargetCategory::new(DissectedType::Variant, false), CoercionTargetCategory::Variant);
    let inner = InnerCallback::Func(FuncInstantiationCheck { scopelvl: ScopeLvl(0), lhs_expr_span: Span(1), rhs: top() });
    assert_eq!(inner.get_category(), CoercionTargetCategory::Func);
    assert_eq!(InnerCallback::Variant(top()).get_category(), CoercionTargetCategory::Variant);
}

#[test]
fn restamping_copies_marked_constructors() {
    let mut strings = new_interner();
    let mut core = TypeCheckerCore::new();
    let id = core.add_builtin_type(intern(&mut strings, "id"));
    let (marked, _) = core.simple_restamp(id, Span(1));
    let out = restamp_func_or_val(&mut core, marked, Span(9)).unwrap();
    assert_eq!(idx(out), 2);
    match core.r.get(out.0) {
        Some(TypeNode::Value((VTypeHead::VTypeConstructor(d), Span(9)))) => assert!(!d.restamp && d.category == id),
        _ => panic!("expected an unmarked copy"),
    }
    // An unmarked constructor is kept.
    let again = restamp_func_or_val(&mut core, out, Span(9)).unwrap();
    assert_eq!(idx(again), idx(out));
    assert_eq!(core.r.len(), 3);
}

#[test]
fn restamping_a_function_copies_it() {
    let mut strings = new_interner();
    let mut core = TypeCheckerCore::new();
    let id = core.add_builtin_type(intern(&mut strings, "id"));
    let (mv, mu) = core.simple_restamp(id, Span(1));
    let f = core.new_val(VTypeHead::VFunc { arg: mu, ret: mv, prop: FuncProperties { is_identity: true } }, Span(2));
    let out = restamp_func_or_val(&mut core, f, Span(9)).unwrap();
    // The argument and the result each get an unmarked copy, then the function.
    assert_eq!(core.r.len(), 6);
    match core.r.get(out.0) {
        Some(TypeNode::Value((VTypeHead::VFunc { arg, ret, prop }, Span(9)))) => {
            assert_eq!((uidx(*arg), idx(*ret)), (3, 4));
            assert!(prop.is_identity);
        },
        _ => panic!("expected a function copy"),
    }
    // A function with nothing to re-stamp is kept.
    let g = core.new_val(VTypeHead::VFunc { arg: top(), ret: bot(), prop: FuncProperties { is_identity: false } }, Span(3));
    assert_eq!(idx(restamp_func_or_val(&mut core, g, Span(9)).unwrap()), idx(g));
    // A use node is no value.
    assert!(restamp_func_or_val(&mut core, Value(mu.0), Span(9)).is_err());
    let _ = ConstructorData::new(id);
    let _ = TypeEdge::root(Span(0));
}

use onesubml::ast::types::{Kind, SVKind, Variance};
use onesubml::ast::StringId;
use onesubml::kinds::KindVar;
use onesubml::prune_unused_poly_vars::PolyVarUses;
use onesubml::spans::Span;
use onesubml::spines::{has_current_level_deps, SpineConstructor, SpineContents};
use onesubml::strings::{intern, new_interner};
use onesubml::templates::{
    get_rec_head_usage, template_leaves, LeafKind, NamePair, ParsedTypeHead, RcParsedType, RecHeadData,
    RecUsageResult, SourceLoc, VarianceInvPair,
};
use onesubml::types::FuncProperties;
use std::rc::Rc;

fn node(h: ParsedTypeHead) -> RcParsedType {
    Rc::new((Span(0), h))
}

fn func(a: RcParsedType, r: RcParsedType) -> RcParsedType {
    node(ParsedTypeHead::Func(a, r, FuncProperties { is_identity: false }))
}

fn poly(n: StringId) -> RcParsedType {
    node(ParsedTypeHead::SpinePolyVar(NamePair::Single(n)))
}

fn record(fields: Vec<(StringId, VarianceInvPair)>) -> RcParsedType {
    let fields = fields.into_iter().map(|(n, p)| (n, (Span(0), p))).collect();
    node(ParsedTypeHead::Record(fields, Vec::new(), Vec::new()))
}

fn func_key(strings: &lasso::Rodeo, params: Vec<StringId>, tree: RcParsedType, kind: Kind) -> Result<String, ()> {
    let sc = SpineConstructor {
        template: SpineContents::Func(tree),
        template_kind: kind,
        poly_params: params.into_iter().map(|n| ((Kind::Star, Span(0)), n)).collect(),
    };
    sc.to_key(strings).map_err(|_| ())
}

fn record_key(strings: &lasso::Rodeo, params: Vec<StringId>, tree: RcParsedType) -> Result<String, ()> {
    let sc = SpineConstructor {
        template: SpineContents::Record(tree),
        template_kind: Kind::Star,
        poly_params: params.into_iter().map(|n| ((Kind::Star, Span(0)), n)).collect(),
    };
    sc.to_key(strings).map_err(|_| ())
}

#[test]
fn leaves_flip_under_arrows() {
    let mut strings = new_interner();
    let a = intern(&mut strings, "a");
    let b = intern(&mut strings, "b");
    let t = func(poly(a), func(poly(b), node(ParsedTypeHead::Any)));
    let ls = template_leaves(&t);
    assert_eq!(ls.len(), 3);
    assert_eq!(ls[0].variance, Variance::Contravariant);
    assert_eq!(ls[1].variance, Variance::Contravariant);
    assert_eq!(ls[2].variance, Variance::Covariant);
    assert!(matches!(ls[0].kind, LeafKind::SpinePolyVar(NamePair::Single(n)) if n == a));
    assert!(matches!(ls[1].kind, LeafKind::SpinePolyVar(NamePair::Single(n)) if n == b));
    assert!(matches!(ls[2].kind, LeafKind::Other));
}

#[test]
fn rec_head_usage() {
    let loc = SourceLoc(7);
    let rv = || node(ParsedTypeHead::RecVar(loc));
    assert_eq!(get_rec_head_usage(&func(node(ParsedTypeHead::Any), rv()), loc), RecUsageResult::Covariant);
    assert_eq!(get_rec_head_usage(&func(rv(), node(ParsedTypeHead::Any)), loc), RecUsageResult::Contravariant);
    assert_eq!(get_rec_head_usage(&func(node(ParsedTypeHead::Any), rv()), SourceLoc(8)), RecUsageResult::Unused);
    let mut strings = new_interner();
    let f = intern(&mut strings, "f");
    let inv = record(vec![(f, VarianceInvPair::InvSingle(rv()))]);
    assert_eq!(get_rec_head_usage(&inv, loc), RecUsageResult::Contravariant);
}

#[test]
fn current_level_deps() {
    let mut strings = new_interner();
    let a = intern(&mut strings, "a");
    let temp = node(ParsedTypeHead::TempPolyVar(SourceLoc(3), NamePair::Single(a)));
    assert!(has_current_level_deps(&temp, SourceLoc(3), SourceLoc(3)));
    assert!(!has_current_level_deps(&temp, SourceLoc(4), SourceLoc(9)));
    let rv = node(ParsedTypeHead::RecVar(SourceLoc(5)));
    assert!(has_current_level_deps(&rv, SourceLoc(4), SourceLoc(6)));
    assert!(!has_current_level_deps(&rv, SourceLoc(6), SourceLoc(9)));
    assert!(!has_current_level_deps(&rv, SourceLoc(1), SourceLoc(4)));
}

#[test]
fn poly_var_uses() {
    let mut strings = new_interner();
    let a = intern(&mut strings, "a");
    let r = intern(&mut strings, "r");
    let w = intern(&mut strings, "w");
    let f = intern(&mut strings, "f");
    let pair = node(ParsedTypeHead::SpinePolyVar(NamePair::Pair(r, w)));
    let temp_other = node(ParsedTypeHead::TempPolyVar(SourceLoc(9), NamePair::Single(f)));
    let t = func(
        node(ParsedTypeHead::TempPolyVar(SourceLoc(2), NamePair::Single(a))),
        record(vec![(f, VarianceInvPair::InvSingle(pair)), (w, VarianceInvPair::Co(temp_other))]),
    );
    let uses = PolyVarUses::new(Some(SourceLoc(2))).walk(&t);
    assert_eq!(uses.get_co(a), None);
    assert_eq!(uses.get_contra(a), Some(Span(0)));
    assert_eq!(uses.get_co(r), Some(Span(0)));
    assert_eq!(uses.get_contra(w), Some(Span(0)));
    assert_eq!(uses.get_contra(r), None);
    assert!(uses.is_pair_var(r));
    assert!(uses.is_pair_var(w));
    assert!(!uses.is_pair_var(a));
    assert_eq!(uses.get_co(f), None);
}

#[test]
fn function_template_keys() {
    let mut strings = new_interner();
    let t = intern(&mut strings, "T");
    let u = intern(&mut strings, "U");
    let key = func_key(&strings, vec![t], func(poly(t), poly(t)), Kind::Star);
    assert_eq!(key, Ok("[T]. T -> T".to_string()));
    let id = node(ParsedTypeHead::Func(poly(t), poly(u), FuncProperties { is_identity: true }));
    let key = func_key(&strings, vec![t, u], id, Kind::Star);
    assert_eq!(key, Ok("[T; U]. T => U".to_string()));
    let param = node(ParsedTypeHead::SpineParam(0));
    let kind = Kind::Arrow(vec![SVKind::new_implicit(Variance::Contravariant, Kind::Star, Span(0))]);
    let key = func_key(&strings, vec![t], func(param, poly(t)), kind);
    assert_eq!(key, Ok("[T]. #0 -> T as [-]".to_string()));
}

#[test]
fn pair_variables_follow_variance() {
    let mut strings = new_interner();
    let r = intern(&mut strings, "R");
    let w = intern(&mut strings, "W");
    let f = intern(&mut strings, "f");
    let pair = || node(ParsedTypeHead::SpinePolyVar(NamePair::Pair(r, w)));
    let tree = func(pair(), record(vec![(f, VarianceInvPair::InvSingle(pair()))]));
    let key = func_key(&strings, vec![r, w], tree, Kind::Star);
    assert_eq!(key, Ok("[R; W]. W -> {mut f: R/W}".to_string()));
}

#[test]
fn record_template_keys() {
    let mut strings = new_interner();
    let t = intern(&mut strings, "T");
    let a = intern(&mut strings, "a");
    let b = intern(&mut strings, "b");
    let tree = record(vec![
        (a, VarianceInvPair::Co(func(poly(t), poly(t)))),
        (b, VarianceInvPair::InvPair(poly(t), poly(t))),
    ]);
    assert_eq!(record_key(&strings, vec![t], tree), Ok("{type T; a: (T -> T); mut b: T <- T}".to_string()));
    let empty = record(vec![]);
    assert_eq!(record_key(&strings, vec![t], empty), Ok("{type T}".to_string()));
}

#[test]
fn tuples_and_aliases() {
    let mut strings = new_interner();
    let t = intern(&mut strings, "T");
    let f0 = intern(&mut strings, "_0");
    let f1 = intern(&mut strings, "_1");
    let f3 = intern(&mut strings, "_3");
    let al = intern(&mut strings, "A");
    let tuple = record(vec![(f1, VarianceInvPair::Co(poly(t))), (f0, VarianceInvPair::Co(node(ParsedTypeHead::SpineParam(1))))]);
    let key = func_key(&strings, vec![t], func(tuple, poly(t)), Kind::Star);
    assert_eq!(key, Ok("[T]. (#1, T) -> T".to_string()));
    let gap = record(vec![(f0, VarianceInvPair::Co(poly(t))), (f3, VarianceInvPair::Co(poly(t)))]);
    let key = func_key(&strings, vec![t], func(gap, poly(t)), Kind::Star);
    assert_eq!(key, Ok("[T]. {_0: T; _3: T} -> T".to_string()));
    let aliased = node(ParsedTypeHead::Record(
        vec![(f0, (Span(0), VarianceInvPair::Co(poly(t)))), (f1, (Span(0), VarianceInvPair::Co(poly(t))))],
        vec![(al, (Span(0), (poly(t), KindVar::Known((Kind::Star, Span(0))))))],
        Vec::new(),
    ));
    let key = func_key(&strings, vec![t], func(aliased, poly(t)), Kind::Star);
    assert_eq!(key, Ok("[T]. {_0: T; _1: T; alias A: T} -> T".to_string()));
}

#[test]
fn recursive_types_and_constructors() {
    let mut strings = new_interner();
    let t = intern(&mut strings, "T");
    let c = intern(&mut strings, "Cons");
    let n = intern(&mut strings, "Nil");
    let loc = SourceLoc(4);
    let body = node(ParsedTypeHead::Case(vec![
        (c, (Span(0), node(ParsedTypeHead::RecVar(loc)))),
        (n, (Span(0), poly(t))),
    ]));
    let rec = node(ParsedTypeHead::RecHead(RecHeadData { loc, rec_contravariantly: false, body }));
    let key = func_key(&strings, vec![t], func(poly(t), rec), Kind::Star);
    assert_eq!(key, Ok("[T]. T -> rec #r0 = [`Cons #r0 | `Nil T]".to_string()));
    let con = node(ParsedTypeHead::Constructor(
        node(ParsedTypeHead::SpineParam(0)),
        (Kind::Star, Span(0)),
        vec![VarianceInvPair::Co(poly(t)), VarianceInvPair::Contra(poly(t))],
    ));
    let key = func_key(&strings, vec![t], func(poly(t), con), Kind::Star);
    assert_eq!(key, Ok("[T]. T -> #0[T; T]".to_string()));
}

#[test]
fn non_template_nodes_are_internal_errors() {
    let mut strings = new_interner();
    let t = intern(&mut strings, "T");
    let f = intern(&mut strings, "f");
    assert_eq!(func_key(&strings, vec![t], func(poly(t), node(ParsedTypeHead::Any)), Kind::Star), Err(()));
    assert_eq!(func_key(&strings, vec![t], record(vec![]), Kind::Star), Err(()));
    let contra = record(vec![(f, VarianceInvPair::Contra(poly(t)))]);
    assert_eq!(record_key(&strings, vec![t], contra), Err(()));
    let sc = SpineConstructor {
        template: SpineContents::Record(record(vec![])),
        template_kind: Kind::Star,
        poly_params: Vec::new(),
    };
    assert!(matches!(sc.get_category(), onesubml::coercion::CoercionTargetCategory::Record));
}

fn temp(loc: u32, n: StringId) -> RcParsedType {
    node(ParsedTypeHead::TempPolyVar(SourceLoc(loc), NamePair::Single(n)))
}

fn tparam(n: StringId) -> (StringId, Span, (Kind, Span)) {
    (n, Span(0), (Kind::Star, Span(0)))
}

#[test]
fn pruning_function_parameters() {
    let mut strings = new_interner();
    let a = intern(&mut strings, "a");
    let b = intern(&mut strings, "b");
    let c = intern(&mut strings, "c");
    let d = intern(&mut strings, "d");
    // a -> a keeps a; b only in the result becomes never; c only in the argument becomes any; d is unused.
    let mut ty = func(
        record(vec![(a, VarianceInvPair::Co(temp(1, a))), (c, VarianceInvPair::Co(temp(1, c)))]),
        record(vec![(a, VarianceInvPair::Co(temp(1, a))), (b, VarianceInvPair::Co(temp(1, b)))]),
    );
    let mut tparams = vec![tparam(a), tparam(b), tparam(c), tparam(d)];
    assert!(onesubml::prune_unused_poly_vars::prune_unused_poly_vars(&strings, SourceLoc(1), &mut ty, &mut tparams).is_ok());
    let names: Vec<StringId> = tparams.iter().map(|p| p.0).collect();
    assert_eq!(names, vec![a]);
    let ParsedTypeHead::Func(arg, ret, _) = &ty.1 else { panic!("not a function") };
    let ParsedTypeHead::Record(fs, _, _) = &arg.1 else { panic!("not a record") };
    assert!(matches!(&fs[0].1 .1, VarianceInvPair::Co(t) if matches!(t.1, ParsedTypeHead::TempPolyVar(..))));
    assert!(matches!(&fs[1].1 .1, VarianceInvPair::Co(t) if matches!(t.1, ParsedTypeHead::Any)));
    let ParsedTypeHead::Record(fs, _, _) = &ret.1 else { panic!("not a record") };
    assert!(matches!(&fs[1].1 .1, VarianceInvPair::Co(t) if matches!(t.1, ParsedTypeHead::Never)));
}

#[test]
fn pruning_record_parameters_adds_sorted_aliases() {
    let mut strings = new_interner();
    let z = intern(&mut strings, "Z");
    let m = intern(&mut strings, "M");
    let b = intern(&mut strings, "B");
    let f = intern(&mut strings, "f");
    let g = intern(&mut strings, "g");
    // Z is used only covariantly and B only contravariantly; M is kept as an existing alias.
    let mut ty = node(ParsedTypeHead::Record(
        vec![
            (f, (Span(0), VarianceInvPair::Co(temp(2, z)))),
            (g, (Span(0), VarianceInvPair::Co(func(temp(2, b), node(ParsedTypeHead::Any))))),
        ],
        vec![(m, (Span(0), (node(ParsedTypeHead::Any), KindVar::Known((Kind::Star, Span(0))))))],
        Vec::new(),
    ));
    let mut tparams = vec![tparam(b), tparam(z)];
    assert!(onesubml::prune_unused_poly_vars::prune_unused_poly_vars(&strings, SourceLoc(2), &mut ty, &mut tparams).is_ok());
    assert!(tparams.is_empty());
    let ParsedTypeHead::Record(fs, als, _) = &ty.1 else { panic!("not a record") };
    assert!(matches!(&fs[0].1 .1, VarianceInvPair::Co(t) if matches!(t.1, ParsedTypeHead::Any)));
    let names: Vec<StringId> = als.iter().map(|a| a.0).collect();
    assert_eq!(names, vec![b, m, z]);
    assert!(matches!(als[0].1 .1 .0 .1, ParsedTypeHead::Never));
    assert!(matches!(als[2].1 .1 .0 .1, ParsedTypeHead::Any));
}

#[test]
fn pruning_keeps_pairs_and_other_sites() {
    let mut strings = new_interner();
    let r = intern(&mut strings, "r");
    let w = intern(&mut strings, "w");
    let x = intern(&mut strings, "x");
    let f = intern(&mut strings, "f");
    let pair = node(ParsedTypeHead::TempPolyVar(SourceLoc(5), NamePair::Pair(r, w)));
    let other = temp(6, x);
    let mut ty = func(record(vec![(f, VarianceInvPair::InvSingle(pair))]), other);
    let mut tparams = vec![tparam(r), tparam(w), tparam(x)];
    assert!(onesubml::prune_unused_poly_vars::prune_unused_poly_vars(&strings, SourceLoc(5), &mut ty, &mut tparams).is_ok());
    let names: Vec<StringId> = tparams.iter().map(|p| p.0).collect();
    assert_eq!(names, vec![r, w]);
    let ParsedTypeHead::Func(_, ret, _) = &ty.1 else { panic!("not a function") };
    assert!(matches!(ret.1, ParsedTypeHead::TempPolyVar(SourceLoc(6), _)));
}

#[test]
fn building_spines() {
    let mut strings = new_interner();
    let t = intern(&mut strings, "T");
    let any = node(ParsedTypeHead::Any);
    let tree = func(temp(1, t), func(any, temp(1, t)));
    let (sc, params) = match SpineConstructor::new(SourceLoc(1), tree, vec![tparam(t)]) {
        Ok(x) => x,
        Err(_) => panic!("no spine"),
    };
    assert_eq!(params.len(), 1);
    assert!(matches!(params[0].1, ParsedTypeHead::Any));
    assert_eq!(sc.poly_params.len(), 1);
    assert_eq!(sc.poly_params[0].1, t);
    assert!(matches!(sc.template, SpineContents::Func(_)));
    assert_eq!(sc.to_key(&strings).map_err(|_| ()), Ok("[T]. T -> (#0 -> T) as [-]".to_string()));
}

#[test]
fn spines_need_a_function_or_record_that_uses_the_site() {
    let mut strings = new_interner();
    let t = intern(&mut strings, "T");
    let c = intern(&mut strings, "C");
    let unused = func(node(ParsedTypeHead::Any), node(ParsedTypeHead::Never));
    assert!(SpineConstructor::new(SourceLoc(1), unused, vec![tparam(t)]).is_err());
    let case = node(ParsedTypeHead::Case(vec![(c, (Span(0), temp(1, t)))]));
    assert!(SpineConstructor::new(SourceLoc(1), case, vec![tparam(t)]).is_err());
    let rec = record(vec![(c, VarianceInvPair::InvSingle(temp(1, t)))]);
    let (sc, params) = match SpineConstructor::new(SourceLoc(1), rec, vec![tparam(t)]) {
        Ok(x) => x,
        Err(_) => panic!("no spine"),
    };
    assert!(params.is_empty());
    assert!(matches!(sc.template_kind, Kind::Star));
    assert_eq!(sc.to_key(&strings).map_err(|_| ()), Ok("{type T; mut C: T}".to_string()));
}

use crate::ast::types::{Kind, SKind, Variance};
use crate::ast::StringId;
use crate::kinds::KindVar;
use crate::spans::Span;
use crate::types::{FuncProperties, Use, Value};
use crate::vec_index::TyConDefInd;
use std::rc::Rc;
use vstd::prelude::*;

verus! {

/// Where a local type was defined, as a polymorphic type variable or a
/// recursive type; 0 stands for no location.
#[derive(Copy, Clone, Debug, PartialEq, Eq, Structural, Hash)]
pub struct SourceLoc(pub u32);

/// How a recursive type variable is used in its body.
#[derive(Debug, Clone, Copy, PartialEq, Eq, Structural)]
pub enum RecUsageResult {
    Contravariant,
    Covariant,
    Unused,
}

/// The name of a type parameter, or the pair of names of its read and write types.
#[derive(Debug, Clone, Copy)]
pub enum NamePair {
    Single(StringId),
    Pair(StringId, StringId),
}

impl NamePair {
    /// The name to use: the write name of a pair when `flip`, the read name otherwise.
    pub fn get(&self, flip: bool) -> (r: StringId)
        ensures
            match self {
                NamePair::Single(name) => r == *name,
                NamePair::Pair(name1, name2) => r == if flip {
                    *name2
                } else {
                    *name1
                },
            },
    {
        match self {
            NamePair::Single(name) => *name,
            NamePair::Pair(name1, name2) => {
                if flip {
                    *name2
                } else {
                    *name1
                }
            },
        }
    }

    /// The pair with its two names swapped.
    pub fn flip(&self) -> (r: Self)
        ensures
            match self {
                NamePair::Single(name) => r == NamePair::Single(*name),
                NamePair::Pair(name1, name2) => r == NamePair::Pair(*name2, *name1),
            },
    {
        match self {
            NamePair::Single(name) => NamePair::Single(*name),
            NamePair::Pair(name1, name2) => NamePair::Pair(*name2, *name1),
        }
    }
}

/// A type parameter position: covariant, contravariant, or invariant with a
/// single type or a pair of read and write types.
pub enum VarianceInvPair {
    Co(RcParsedType),
    Contra(RcParsedType),
    InvSingle(RcParsedType),
    InvPair(RcParsedType, RcParsedType),
}

/// The head of a recursive type.
pub struct RecHeadData {
    pub loc: SourceLoc,
    /// Whether the recursive type variable is used contravariantly.
    pub rec_contravariantly: bool,
    pub body: RcParsedType,
}

/// A node of a type as parsed, before it is turned into type graph nodes.
pub enum ParsedTypeHead {
    /// The cases of a variant type, sorted by tag.
    Case(Vec<(StringId, (Span, RcParsedType))>),
    Func(RcParsedType, RcParsedType, FuncProperties),
    /// The fields of a record sorted by name, its type aliases, and the aliases
    /// added while a module is instantiated.
    Record(
        Vec<(StringId, (Span, VarianceInvPair))>,
        Vec<(StringId, (Span, (RcParsedType, KindVar)))>,
        Vec<(StringId, TyConDefInd)>,
    ),
    /// A type constructor applied to parameters; the kind is an arrow kind.
    Constructor(RcParsedType, SKind, Vec<VarianceInvPair>),
    /// Its body is a case, function, record or constructor node.
    RecHead(RecHeadData),
    RecVar(SourceLoc),
    Type((Value, Use)),
    Any,
    Never,
    /// A polymorphic type variable, before spines are built.
    TempPolyVar(SourceLoc, NamePair),
    /// A polymorphic type variable of a spine.
    SpinePolyVar(NamePair),
    /// A parameter of a spine.
    SpineParam(usize),
}

/// A parsed type with its span.
pub type ParsedType = (Span, ParsedTypeHead);

/// A shared parsed type.
pub type RcParsedType = Rc<ParsedType>;

/// What a walk over a template reports of a leaf node.
#[derive(Clone, Copy)]
pub enum LeafKind {
    RecVar(SourceLoc),
    TempPolyVar(SourceLoc, NamePair),
    SpinePolyVar(NamePair),
    Other,
}

/// A leaf node met by a walk over a template, with its span and the variance
/// of its position.
#[derive(Clone, Copy)]
pub struct Leaf {
    pub kind: LeafKind,
    pub span: Span,
    pub variance: Variance,
}

/// What a leaf node is, as far as the walks look.
pub open spec fn leaf_kind(h: ParsedTypeHead) -> LeafKind {
    match h {
        ParsedTypeHead::RecVar(loc) => LeafKind::RecVar(loc),
        ParsedTypeHead::TempPolyVar(loc, names) => LeafKind::TempPolyVar(loc, names),
        ParsedTypeHead::SpinePolyVar(names) => LeafKind::SpinePolyVar(names),
        _ => LeafKind::Other,
    }
}

/// The variance of the body of a recursive type at a position of variance `v`.
pub open spec fn rec_body_variance(r: RecHeadData, v: Variance) -> Variance {
    if r.rec_contravariantly {
        Variance::Invariant
    } else {
        v
    }
}

/// The leaves of a template in the order a walk meets them, each with the
/// variance of its position when the whole stands at variance `v`: function
/// arguments flip the variance, invariant parameters and type aliases make it
/// invariant, and the body of a recursive type used contravariantly is invariant.
pub open spec fn leaves(t: ParsedType, v: Variance) -> Seq<Leaf>
    decreases t, 0nat,
{
    match t.1 {
        ParsedTypeHead::Case(bs) => leaves_case(bs@, bs@.len(), v),
        ParsedTypeHead::Func(a, r, _) => leaves(*a, v.flipped()) + leaves(*r, v),
        ParsedTypeHead::Record(fs, als, _) => leaves_fields(fs@, fs@.len(), v) + leaves_aliases(als@, als@.len()),
        ParsedTypeHead::Constructor(c, _, ps) => leaves(*c, v) + leaves_pairs(ps@, ps@.len(), v),
        ParsedTypeHead::RecHead(r) => leaves(*r.body, rec_body_variance(r, v)),
        _ => seq![Leaf { kind: leaf_kind(t.1), span: t.0, variance: v }],
    }
}

/// The leaves of a parameter position at variance `v`.
pub open spec fn leaves_pair(p: VarianceInvPair, v: Variance) -> Seq<Leaf>
    decreases p, 0nat,
{
    match p {
        VarianceInvPair::Co(r) => leaves(*r, v),
        VarianceInvPair::Contra(r) => leaves(*r, v.flipped()),
        VarianceInvPair::InvSingle(r) => leaves(*r, Variance::Invariant),
        VarianceInvPair::InvPair(r, w) => leaves(*r, v) + leaves(*w, v.flipped()),
    }
}

/// The leaves of the first `n` cases.
pub open spec fn leaves_case(bs: Seq<(StringId, (Span, RcParsedType))>, n: nat, v: Variance) -> Seq<Leaf>
    decreases bs, n,
{
    if n == 0 || n > bs.len() {
        Seq::empty()
    } else {
        leaves_case(bs, (n - 1) as nat, v) + leaves(*bs[n - 1].1.1, v)
    }
}

/// The leaves of the first `n` record fields.
pub open spec fn leaves_fields(fs: Seq<(StringId, (Span, VarianceInvPair))>, n: nat, v: Variance) -> Seq<Leaf>
    decreases fs, n,
{
    if n == 0 || n > fs.len() {
        Seq::empty()
    } else {
        leaves_fields(fs, (n - 1) as nat, v) + leaves_pair(fs[n - 1].1.1, v)
    }
}

/// The leaves of the first `n` type aliases, which stand in invariant positions.
pub open spec fn leaves_aliases(als: Seq<(StringId, (Span, (RcParsedType, KindVar)))>, n: nat) -> Seq<Leaf>
    decreases als, n,
{
    if n == 0 || n > als.len() {
        Seq::empty()
    } else {
        leaves_aliases(als, (n - 1) as nat) + leaves(*als[n - 1].1.1.0, Variance::Invariant)
    }
}

/// The leaves of the first `n` constructor parameters.
pub open spec fn leaves_pairs(ps: Seq<VarianceInvPair>, n: nat, v: Variance) -> Seq<Leaf>
    decreases ps, n,
{
    if n == 0 || n > ps.len() {
        Seq::empty()
    } else {
        leaves_pairs(ps, (n - 1) as nat, v) + leaves_pair(ps[n - 1], v)
    }
}

/// Where a walk over a type template stands: the variance of the position,
/// the kind expected there, and the recursive type it is inside.
#[derive(Debug, Clone, Copy)]
pub struct WalkMutContext<'a> {
    pub variance: Variance,
    pub kind: &'a Kind,
    pub top_rec_var: SourceLoc,
}

impl<'a> WalkMutContext<'a> {
    /// The context on the other side of a function arrow.
    pub fn flip(&self) -> (r: Self)
        ensures
            r.variance == self.variance.flipped(),
            r.kind == self.kind,
            r.top_rec_var == self.top_rec_var,
    {
        let mut m = *self;
        m.variance = m.variance.flip();
        m
    }

    /// The context in an invariant position.
    pub fn to_invariant(&self) -> (r: Self)
        ensures
            r.variance == Variance::Invariant,
            r.kind == self.kind,
            r.top_rec_var == self.top_rec_var,
    {
        let mut m = *self;
        m.variance = Variance::Invariant;
        m
    }

    /// The same position, expecting the kind `kind`.
    pub fn with_kind<'b>(&self, kind: &'b Kind) -> (r: WalkMutContext<'b>)
        ensures
            r.variance == self.variance,
            r.kind == kind,
            r.top_rec_var == self.top_rec_var,
    {
        WalkMutContext { variance: self.variance, kind, top_rec_var: self.top_rec_var }
    }
}


/// Appends to `out` the leaves of `t` at variance `v`, in walk order.
pub fn collect_leaves(t: &ParsedType, v: Variance, out: &mut Vec<Leaf>)
    ensures
        final(out)@ == old(out)@ + leaves(*t, v),
    decreases t,
{
    match &t.1 {
        ParsedTypeHead::Case(bs) => {
            let mut i: usize = 0;
            while i < bs.len()
                invariant
                    t.1 is Case,
                    t.1->Case_0 == *bs,
                    i <= bs@.len(),
                    out@ == old(out)@ + leaves_case(bs@, i as nat, v),
                decreases bs@.len() - i,
            {
                proof {
                    broadcast use vstd::std_specs::vec::axiom_vec_index_decreases;

                    assert(decreases_to!(*bs => bs[i as int]));
                }
                collect_leaves(&*bs[i].1.1, v, out);
                i = i + 1;
                proof {
                    assert(out@ =~= old(out)@ + leaves_case(bs@, i as nat, v));
                }
            }
            proof {
                assert(out@ =~= old(out)@ + leaves(*t, v));
            }
        },
        ParsedTypeHead::Func(a, r, _) => {
            collect_leaves(&**a, v.flip(), out);
            collect_leaves(&**r, v, out);
            proof {
                assert(out@ =~= old(out)@ + leaves(*t, v));
            }
        },
        ParsedTypeHead::Record(fs, als, _) => {
            let mut i: usize = 0;
            while i < fs.len()
                invariant
                    t.1 is Record,
                    t.1->Record_0 == *fs,
                    i <= fs@.len(),
                    out@ == old(out)@ + leaves_fields(fs@, i as nat, v),
                decreases fs@.len() - i,
            {
                proof {
                    broadcast use vstd::std_specs::vec::axiom_vec_index_decreases;

                    assert(decreases_to!(*fs => fs[i as int]));
                }
                collect_pair_leaves(&fs[i].1.1, v, out);
                i = i + 1;
                proof {
                    assert(out@ =~= old(out)@ + leaves_fields(fs@, i as nat, v));
                }
            }
            let ghost mid = out@;
            let mut j: usize = 0;
            while j < als.len()
                invariant
                    t.1 is Record,
                    t.1->Record_1 == *als,
                    j <= als@.len(),
                    out@ == mid + leaves_aliases(als@, j as nat),
                decreases als@.len() - j,
            {
                proof {
                    broadcast use vstd::std_specs::vec::axiom_vec_index_decreases;

                    assert(decreases_to!(*als => als[j as int]));
                }
                collect_leaves(&*als[j].1.1.0, Variance::Invariant, out);
                j = j + 1;
                proof {
                    assert(out@ =~= mid + leaves_aliases(als@, j as nat));
                }
            }
            proof {
                assert(out@ =~= old(out)@ + leaves(*t, v));
            }
        },
        ParsedTypeHead::Constructor(c, _, ps) => {
            collect_leaves(&**c, v, out);
            let ghost mid = out@;
            let mut i: usize = 0;
            while i < ps.len()
                invariant
                    t.1 is Constructor,
                    t.1->Constructor_2 == *ps,
                    i <= ps@.len(),
                    out@ == mid + leaves_pairs(ps@, i as nat, v),
                decreases ps@.len() - i,
            {
                proof {
                    broadcast use vstd::std_specs::vec::axiom_vec_index_decreases;

                    assert(decreases_to!(*ps => ps[i as int]));
                }
                collect_pair_leaves(&ps[i], v, out);
                i = i + 1;
                proof {
                    assert(out@ =~= mid + leaves_pairs(ps@, i as nat, v));
                }
            }
            proof {
                assert(out@ =~= old(out)@ + leaves(*t, v));
            }
        },
        ParsedTypeHead::RecHead(r) => {
            let position = if r.rec_contravariantly {
                Variance::Invariant
            } else {
                v
            };
            collect_leaves(&*r.body, position, out);
        },
        _ => {
            let kind = match &t.1 {
                ParsedTypeHead::RecVar(loc) => LeafKind::RecVar(*loc),
                ParsedTypeHead::TempPolyVar(loc, names) => LeafKind::TempPolyVar(*loc, *names),
                ParsedTypeHead::SpinePolyVar(names) => LeafKind::SpinePolyVar(*names),
                _ => LeafKind::Other,
            };
            out.push(Leaf { kind, span: t.0, variance: v });
            proof {
                assert(out@ =~= old(out)@ + leaves(*t, v));
            }
        },
    }
}

/// Appends to `out` the leaves of the parameter position `p` at variance `v`.
fn collect_pair_leaves(p: &VarianceInvPair, v: Variance, out: &mut Vec<Leaf>)
    ensures
        final(out)@ == old(out)@ + leaves_pair(*p, v),
    decreases p,
{
    match p {
        VarianceInvPair::Co(r) => collect_leaves(&**r, v, out),
        VarianceInvPair::Contra(r) => collect_leaves(&**r, v.flip(), out),
        VarianceInvPair::InvSingle(r) => collect_leaves(&**r, Variance::Invariant, out),
        VarianceInvPair::InvPair(r, w) => {
            collect_leaves(&**r, v, out);
            collect_leaves(&**w, v.flip(), out);
            proof {
                assert(out@ =~= old(out)@ + leaves_pair(*p, v));
            }
        },
    }
}

/// The leaves of `t`, in walk order, when `t` stands in a covariant position.
pub fn template_leaves(t: &ParsedType) -> (r: Vec<Leaf>)
    ensures
        r@ == leaves(*t, Variance::Covariant),
{
    let mut out: Vec<Leaf> = Vec::new();
    collect_leaves(t, Variance::Covariant, &mut out);
    proof {
        assert(out@ =~= leaves(*t, Variance::Covariant));
    }
    out
}

/// How the recursive type variable `var` is used among the leaves `ls`:
/// contravariantly when some use stands in a position that is not covariant,
/// covariantly when it is used at all, and otherwise not.
pub open spec fn rec_usage(ls: Seq<Leaf>, var: SourceLoc) -> RecUsageResult {
    if exists|i: int| 0 <= i < ls.len() && ls[i].kind == LeafKind::RecVar(var) && ls[i].variance != Variance::Covariant {
        RecUsageResult::Contravariant
    } else if exists|i: int| 0 <= i < ls.len() && ls[i].kind == LeafKind::RecVar(var) {
        RecUsageResult::Covariant
    } else {
        RecUsageResult::Unused
    }
}

/// Every use of a recursive variable counts, wherever it stands: the usage is
/// contravariant exactly when some leaf uses `var` in a position that is not
/// covariant, covariant exactly when `var` is used and every use is covariant,
/// and unused exactly when no leaf uses it.
pub proof fn law_rec_usage_all_uses(ls: Seq<Leaf>, var: SourceLoc)
    ensures
        (rec_usage(ls, var) == RecUsageResult::Contravariant) <==> exists|i: int|
            0 <= i < ls.len() && (#[trigger] ls[i]).kind == LeafKind::RecVar(var) && ls[i].variance != Variance::Covariant,
        (rec_usage(ls, var) == RecUsageResult::Covariant) <==> (exists|i: int|
            0 <= i < ls.len() && (#[trigger] ls[i]).kind == LeafKind::RecVar(var)) && forall|i: int|
            0 <= i < ls.len() && (#[trigger] ls[i]).kind == LeafKind::RecVar(var) ==> ls[i].variance == Variance::Covariant,
        (rec_usage(ls, var) == RecUsageResult::Unused) <==> forall|i: int|
            0 <= i < ls.len() ==> (#[trigger] ls[i]).kind != LeafKind::RecVar(var),
{
}

/// The usage of the leaves of two parts taken together: contravariant when
/// either part is, unused only when both are, and covariant otherwise.
pub proof fn law_rec_usage_concat(a: Seq<Leaf>, b: Seq<Leaf>, var: SourceLoc)
    ensures
        (rec_usage(a + b, var) == RecUsageResult::Contravariant) <==> (rec_usage(a, var) == RecUsageResult::Contravariant
            || rec_usage(b, var) == RecUsageResult::Contravariant),
        (rec_usage(a + b, var) == RecUsageResult::Unused) <==> (rec_usage(a, var) == RecUsageResult::Unused && rec_usage(
            b,
            var,
        ) == RecUsageResult::Unused),
{
    let ab = a + b;
    law_rec_usage_all_uses(a, var);
    law_rec_usage_all_uses(b, var);
    law_rec_usage_all_uses(ab, var);
    assert forall|i: int| 0 <= i < a.len() implies #[trigger] ab[i] == a[i] by {}
    assert forall|i: int| 0 <= i < b.len() implies #[trigger] ab[a.len() + i] == b[i] by {}
    if exists|i: int| 0 <= i < ab.len() && (#[trigger] ab[i]).kind == LeafKind::RecVar(var) && ab[i].variance != Variance::Covariant {
        let i = choose|i: int| 0 <= i < ab.len() && (#[trigger] ab[i]).kind == LeafKind::RecVar(var) && ab[i].variance != Variance::Covariant;
        if i >= a.len() {
            assert(b[i - a.len()] == ab[i]);
        }
    }
    if exists|i: int| 0 <= i < ab.len() && (#[trigger] ab[i]).kind == LeafKind::RecVar(var) {
        let i = choose|i: int| 0 <= i < ab.len() && (#[trigger] ab[i]).kind == LeafKind::RecVar(var);
        if i >= a.len() {
            assert(b[i - a.len()] == ab[i]);
        }
    }
    if exists|i: int| 0 <= i < a.len() && (#[trigger] a[i]).kind == LeafKind::RecVar(var) {
        let i = choose|i: int| 0 <= i < a.len() && (#[trigger] a[i]).kind == LeafKind::RecVar(var);
        assert(ab[i] == a[i]);
    }
    if exists|i: int| 0 <= i < b.len() && (#[trigger] b[i]).kind == LeafKind::RecVar(var) {
        let i = choose|i: int| 0 <= i < b.len() && (#[trigger] b[i]).kind == LeafKind::RecVar(var);
        assert(ab[a.len() + i] == b[i]);
    }
    if exists|i: int| 0 <= i < a.len() && (#[trigger] a[i]).kind == LeafKind::RecVar(var) && a[i].variance != Variance::Covariant {
        let i = choose|i: int| 0 <= i < a.len() && (#[trigger] a[i]).kind == LeafKind::RecVar(var) && a[i].variance != Variance::Covariant;
        assert(ab[i] == a[i]);
    }
    if exists|i: int| 0 <= i < b.len() && (#[trigger] b[i]).kind == LeafKind::RecVar(var) && b[i].variance != Variance::Covariant {
        let i = choose|i: int| 0 <= i < b.len() && (#[trigger] b[i]).kind == LeafKind::RecVar(var) && b[i].variance != Variance::Covariant;
        assert(ab[a.len() + i] == b[i]);
    }
}

/// How the recursive type variable `var` is used in `tree`.
pub fn get_rec_head_usage(tree: &RcParsedType, var: SourceLoc) -> (r: RecUsageResult)
    ensures
        r == rec_usage(leaves(**tree, Variance::Covariant), var),
{
    let ls = template_leaves(&**tree);
    let mut seen = false;
    let mut i: usize = 0;
    while i < ls.len()
        invariant
            ls@ == leaves(**tree, Variance::Covariant),
            i <= ls@.len(),
            forall|j: int| 0 <= j < i && ls@[j].kind == LeafKind::RecVar(var) ==> ls@[j].variance == Variance::Covariant,
            seen <==> exists|j: int| 0 <= j < i && ls@[j].kind == LeafKind::RecVar(var),
        decreases ls@.len() - i,
    {
        if let LeafKind::RecVar(loc) = ls[i].kind {
            if loc == var {
                seen = true;
                if ls[i].variance != Variance::Covariant {
                    proof {
                        assert(ls@[i as int].kind == LeafKind::RecVar(var));
                    }
                    return RecUsageResult::Contravariant;
                }
            }
        }
        i = i + 1;
    }
    if seen {
        RecUsageResult::Covariant
    } else {
        RecUsageResult::Unused
    }
}


/// A new pointer to the same shared value (`Rc::clone`).
#[verifier::external_body]
pub(crate) fn share<T>(t: &Rc<T>) -> (r: Rc<T>)
    ensures
        r == *t,
{
    Rc::clone(t)
}

/// Whether a node has children that the walks go into.
pub open spec fn is_inner(h: ParsedTypeHead) -> bool {
    h is Case || h is Func || h is Record || h is Constructor || h is RecHead
}

/// Whether `b` is `a` with each leaf `h` at variance `v` replaced by `f(h, v)`:
/// inner nodes keep their kind, names, spans and kinds, and their children
/// are related in the same way at the variance of their positions.
pub open spec fn leaf_mapped(a: ParsedType, b: ParsedType, v: Variance, f: spec_fn(ParsedTypeHead, Variance) -> ParsedTypeHead) -> bool
    decreases a, 0nat,
{
    &&& a.0 == b.0
    &&& match (a.1, b.1) {
        (ParsedTypeHead::Case(xs), ParsedTypeHead::Case(ys)) => {
            &&& xs@.len() == ys@.len()
            &&& forall|i: int|
                0 <= i < xs@.len() ==> {
                    &&& (#[trigger] ys@[i]).0 == xs@[i].0
                    &&& ys@[i].1.0 == xs@[i].1.0
                    &&& leaf_mapped(*xs@[i].1.1, *ys@[i].1.1, v, f)
                }
        },
        (ParsedTypeHead::Func(x1, x2, p), ParsedTypeHead::Func(y1, y2, q)) => {
            &&& p == q
            &&& leaf_mapped(*x1, *y1, v.flipped(), f)
            &&& leaf_mapped(*x2, *y2, v, f)
        },
        (ParsedTypeHead::Record(xs, xal, xe), ParsedTypeHead::Record(ys, yal, ye)) => {
            &&& xe@ == ye@
            &&& xs@.len() == ys@.len()
            &&& forall|i: int|
                0 <= i < xs@.len() ==> {
                    &&& (#[trigger] ys@[i]).0 == xs@[i].0
                    &&& ys@[i].1.0 == xs@[i].1.0
                    &&& pair_mapped(xs@[i].1.1, ys@[i].1.1, v, f)
                }
            &&& xal@.len() == yal@.len()
            &&& forall|i: int|
                0 <= i < xal@.len() ==> {
                    &&& (#[trigger] yal@[i]).0 == xal@[i].0
                    &&& yal@[i].1.0 == xal@[i].1.0
                    &&& yal@[i].1.1.1@ == xal@[i].1.1.1@
                    &&& leaf_mapped(*xal@[i].1.1.0, *yal@[i].1.1.0, Variance::Invariant, f)
                }
        },
        (ParsedTypeHead::Constructor(xc, xk, xps), ParsedTypeHead::Constructor(yc, yk, yps)) => {
            &&& xk.0@ == yk.0@
            &&& xk.1 == yk.1
            &&& leaf_mapped(*xc, *yc, v, f)
            &&& xps@.len() == yps@.len()
            &&& forall|i: int| 0 <= i < xps@.len() ==> pair_mapped(#[trigger] xps@[i], yps@[i], v, f)
        },
        (ParsedTypeHead::RecHead(x), ParsedTypeHead::RecHead(y)) => {
            &&& x.loc == y.loc
            &&& x.rec_contravariantly == y.rec_contravariantly
            &&& leaf_mapped(*x.body, *y.body, rec_body_variance(x, v), f)
        },
        (h, g) => !is_inner(h) && g == f(h, v),
    }
}

/// `leaf_mapped` for a parameter position: the same position, with its types related.
pub open spec fn pair_mapped(p: VarianceInvPair, q: VarianceInvPair, v: Variance, f: spec_fn(ParsedTypeHead, Variance) -> ParsedTypeHead) -> bool
    decreases p, 0nat,
{
    match (p, q) {
        (VarianceInvPair::Co(x), VarianceInvPair::Co(y)) => leaf_mapped(*x, *y, v, f),
        (VarianceInvPair::Contra(x), VarianceInvPair::Contra(y)) => leaf_mapped(*x, *y, v.flipped(), f),
        (VarianceInvPair::InvSingle(x), VarianceInvPair::InvSingle(y)) => leaf_mapped(*x, *y, Variance::Invariant, f),
        (VarianceInvPair::InvPair(x1, x2), VarianceInvPair::InvPair(y1, y2)) => leaf_mapped(*x1, *y1, v, f) && leaf_mapped(
            *x2,
            *y2,
            v.flipped(),
            f,
        ),
        _ => false,
    }
}
} // verus!

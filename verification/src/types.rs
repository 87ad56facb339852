use crate::ast::types::{Kind, SKind};
use crate::ast::StringId;
use crate::exhaustiveness::MissingPattern;
use crate::short_str::ShortStr;
use crate::spans::Span;
use crate::spines::SpineConstructor;
use crate::typeck::TypeBinding;
use crate::vec_index::{TyConDefInd, TypeNodeInd, INDEX_LIMIT};
use std::rc::Rc;
use vstd::prelude::*;

verus! {

/// A node of the type graph seen as a value type.
#[derive(Copy, Clone, Debug, PartialEq, Eq, Structural, Hash)]
pub struct Value(pub TypeNodeInd);

/// A node of the type graph seen as a use type.
#[derive(Copy, Clone, Debug, PartialEq, Eq, Structural, Hash)]
pub struct Use(pub TypeNodeInd);

/// The bottom type: it stands at the largest index and flows anywhere.
pub fn bot() -> (r: Value)
    ensures
        r.0@ == INDEX_LIMIT,
{
    Value(TypeNodeInd::max())
}

/// The top type.
pub open spec fn top_spec() -> Use {
    Use(TypeNodeInd::max_spec())
}

/// The top type: it stands at the largest index and accepts anything.
pub fn top() -> (r: Use)
    ensures
        r == top_spec(),
        r.0@ == INDEX_LIMIT,
{
    Use(TypeNodeInd::max())
}

/// Tells apart the polymorphic types made by one comparison.
#[derive(Copy, Clone, Debug, PartialEq, Eq, Structural)]
pub struct ComparisonKey(pub Span);

/// What is known of a function type.
#[derive(Copy, Clone, Debug, PartialEq, Eq, Structural)]
pub struct FuncProperties {
    pub is_identity: bool,
}

/// The value whose unification made a use type.
#[derive(Copy, Clone, Debug, PartialEq, Eq, Structural)]
pub struct UnifiedSource(pub Value);

/// Where a use type comes from, for error messages.
#[derive(Copy, Clone, Debug)]
pub enum UseSrc {
    NoSrc,
    Unification(UnifiedSource),
    CallExpr,
    BinOpExpr(ShortStr),
}


/// Which side of the type graph a node stands on, and the other side.
pub trait Polarity {
    type Opposite;
}

impl Polarity for Value {
    type Opposite = Use;
}

impl Polarity for Use {
    type Opposite = Value;
}

/// A type constructor: its definition, the spine it was made from if it is
/// polymorphic, and whether it is re-stamped when instantiated.
pub struct ConstructorData {
    pub category: TyConDefInd,
    pub spine: Option<Rc<SpineConstructor>>,
    pub restamp: bool,
}

impl ConstructorData {
    /// The plain constructor of the definition `category`: no spine, not re-stamped.
    pub open spec fn plain(category: TyConDefInd) -> Self {
        ConstructorData { category, spine: None, restamp: false }
    }

    /// The constructor of the definition `category`, marked to be re-stamped.
    pub open spec fn restamped(category: TyConDefInd) -> Self {
        ConstructorData { category, spine: None, restamp: true }
    }

    /// The same constructor, not marked to be re-stamped.
    pub closed spec fn unmarked(self) -> Self {
        ConstructorData { restamp: false, ..self }
    }

    /// A copy of the constructor, not marked to be re-stamped.
    pub fn unmarked_copy(&self) -> (r: Self)
        ensures
            r == self.unmarked(),
            r.category == self.category,
            r.spine == self.spine,
            !r.restamp,
    {
        let mut d = self.clone();
        d.restamp = false;
        d
    }

    /// The plain constructor of the definition `category`.
    pub fn new(category: TyConDefInd) -> (r: Self)
        ensures
            r == Self::plain(category),
            r.category == category,
            r.spine is None,
            !r.restamp,
    {
        ConstructorData { category, spine: None, restamp: false }
    }
}

impl Clone for ConstructorData {
    fn clone(&self) -> (r: Self)
        ensures
            r == *self,
    {
        let spine = match &self.spine {
            Some(s) => Some(crate::templates::share(s)),
            None => None,
        };
        ConstructorData { category: self.category, spine, restamp: self.restamp }
    }
}

/// The parameters a type constructor is applied to: for each, the type on
/// this side and the type on the other side, where there is one.
pub struct ConstructorAppParams<P: Polarity>(pub Vec<(Option<P>, Option<P::Opposite>)>);

impl<P: Polarity> ConstructorAppParams<P> {
    /// No parameters.
    pub fn empty() -> (r: Self)
        ensures
            r.0@ == Seq::<(Option<P>, Option<P::Opposite>)>::empty(),
    {
        ConstructorAppParams(Vec::new())
    }

    /// The parameters `v`.
    pub fn new(v: Vec<(Option<P>, Option<P::Opposite>)>) -> (r: Self)
        ensures
            r.0 == v,
    {
        ConstructorAppParams(v)
    }
}

impl<P: Polarity + Copy> ConstructorAppParams<P> where P::Opposite: Copy {
    /// A copy of the parameters.
    pub fn copied(&self) -> (r: Self)
        ensures
            r.0@ == self.0@,
    {
        let mut v: Vec<(Option<P>, Option<P::Opposite>)> = Vec::new();
        let mut i: usize = 0;
        while i < self.0.len()
            invariant
                i <= self.0@.len(),
                v@ == self.0@.take(i as int),
            decreases self.0@.len() - i,
        {
            v.push(self.0[i]);
            i = i + 1;
            proof {
                assert(v@ =~= self.0@.take(i as int));
            }
        }
        proof {
            assert(self.0@.take(i as int) =~= self.0@);
        }
        ConstructorAppParams(v)
    }
}

/// The flow edges that checking the parameters `lhs` against `rhs` asks for,
/// for the first `n` pairs of parameters: the value of each side flows to the
/// use of the other side, parameter by parameter.
pub open spec fn param_edges(
    lhs: Seq<(Option<Value>, Option<Use>)>,
    rhs: Seq<(Option<Use>, Option<Value>)>,
    n: nat,
    e: crate::type_core::TypeEdge,
) -> Seq<(Value, Use, crate::type_core::TypeEdge)>
    decreases n,
{
    if n == 0 || n > lhs.len() || n > rhs.len() {
        Seq::empty()
    } else {
        let (p1, p2) = (lhs[n - 1], rhs[n - 1]);
        param_edges(lhs, rhs, (n - 1) as nat, e) + (match (p1.0, p2.0) {
            (Some(v), Some(u)) => seq![(v, u, e)],
            _ => Seq::empty(),
        }) + (match (p1.1, p2.1) {
            (Some(u), Some(v)) => seq![(v, u, e)],
            _ => Seq::empty(),
        })
    }
}

/// The number of pairs of parameters that are checked: as many as the shorter side has.
pub open spec fn min_len(a: nat, b: nat) -> nat {
    if a <= b {
        a
    } else {
        b
    }
}

impl ConstructorAppParams<Value> {
    /// Adds to `out` the flow edges that checking these parameters against
    /// `rhs` asks for.
    pub fn check_against(&self, rhs: &ConstructorAppParams<Use>, edge_context: &crate::type_core::TypeEdge, out: &mut Vec<(Value, Use, crate::type_core::TypeEdge)>)
        ensures
            final(out)@ == old(out)@ + param_edges(self.0@, rhs.0@, min_len(self.0@.len(), rhs.0@.len()), *edge_context),
    {
        let n = if self.0.len() <= rhs.0.len() {
            self.0.len()
        } else {
            rhs.0.len()
        };
        let mut i: usize = 0;
        while i < n
            invariant
                n == min_len(self.0@.len(), rhs.0@.len()),
                i <= n,
                out@ == old(out)@ + param_edges(self.0@, rhs.0@, i as nat, *edge_context),
            decreases n - i,
        {
            let p1 = self.0[i];
            let p2 = rhs.0[i];
            let ghost before = out@;
            if let (Some(v), Some(u)) = (p1.0, p2.0) {
                out.push((v, u, *edge_context));
            }
            let ghost mid = out@;
            if let (Some(u), Some(v)) = (p1.1, p2.1) {
                out.push((v, u, *edge_context));
            }
            i = i + 1;
            proof {
                let a = match (p1.0, p2.0) {
                    (Some(v), Some(u)) => seq![(v, u, *edge_context)],
                    _ => Seq::<(Value, Use, crate::type_core::TypeEdge)>::empty(),
                };
                let b = match (p1.1, p2.1) {
                    (Some(u), Some(v)) => seq![(v, u, *edge_context)],
                    _ => Seq::<(Value, Use, crate::type_core::TypeEdge)>::empty(),
                };
                assert(mid =~= before + a);
                assert(out@ =~= before + a + b);
                assert(out@ =~= old(out)@ + param_edges(self.0@, rhs.0@, i as nat, *edge_context));
            }
        }
    }
}

/// A type constructor applied to parameters; its kind is an arrow kind.
pub struct ConstructorAppData<P: Polarity> {
    pub tycon: P,
    pub kind: SKind,
    pub params: ConstructorAppParams<P>,
}

/// A polymorphic type variable made rigid for one comparison.
#[derive(Debug, Clone, Copy)]
pub struct EphemeralPolyType {
    pub key: ComparisonKey,
    pub name: StringId,
}

/// The entry of the last pair of `s` whose name stands for the same string as `k`.
pub open spec fn last_entry<V>(s: Seq<(StringId, V)>, k: StringId) -> Option<V>
    decreases s.len(),
{
    if s.len() == 0 {
        None
    } else if crate::strings::key_index(s.last().0) == crate::strings::key_index(k) {
        Some(s.last().1)
    } else {
        last_entry(s.drop_last(), k)
    }
}

/// The entry of the last pair of `s` for the name `k`, as a map keeps it.
pub fn find_last<V: Copy>(s: &Vec<(StringId, V)>, k: &StringId) -> (r: Option<V>)
    ensures
        r == last_entry(s@, *k),
{
    let mut i = s.len();
    proof {
        assert(s@.subrange(0, i as int) =~= s@);
    }
    while i > 0
        invariant
            i <= s@.len(),
            last_entry(s@, *k) == last_entry(s@.subrange(0, i as int), *k),
        decreases i,
    {
        let ghost pre = s@.subrange(0, i as int);
        proof {
            assert(pre.drop_last() =~= s@.subrange(0, i - 1));
            assert(pre.last() == s@[i - 1]);
        }
        if crate::strings::same_key(&s[i - 1].0, k) {
            return Some(s[i - 1].1);
        }
        i = i - 1;
    }
    None
}

/// The cases a match handles: the use type of each case's contents, the use
/// types that match a case as a whole, the use type of a wildcard, and why
/// the match is not exhaustive where it has no wildcard.
pub struct UCaseData {
    pub cases: Vec<(StringId, Use)>,
    pub case_wildcards: Vec<(StringId, Use)>,
    pub wildcard: Option<Use>,
    pub exhaustive_reason: Option<MissingPattern>,
}

impl UCaseData {
    /// A match of the cases `cases`, with no wildcards.
    pub fn new(cases: Vec<(StringId, Use)>) -> (r: Self)
        ensures
            r.cases == cases,
            r.case_wildcards@ == Seq::<(StringId, Use)>::empty(),
            r.wildcard is None,
            r.exhaustive_reason is None,
    {
        UCaseData { cases, case_wildcards: Vec::new(), wildcard: None, exhaustive_reason: None }
    }
}

/// The head of a value type.
pub enum VTypeHead {
    /// The children are case heads.
    VCaseUnion(Vec<Value>),
    VTop,
    VFunc { arg: Use, ret: Value, prop: FuncProperties },
    /// For each field its read type, its write type if it is mutable, and its span.
    VObj { fields: Vec<(StringId, (Value, Option<Use>, Span))>, aliases: Vec<(StringId, TypeBinding)> },
    VCase { case: (StringId, Value) },
    VConstructorApplication(ConstructorAppData<Value>),
    VTypeConstructor(ConstructorData),
    VEphemeralPoly(EphemeralPolyType),
}

/// The head of a use type.
pub enum UTypeHead {
    /// Unlike a case union, its children may be of any type.
    UIntersection(Vec<Use>),
    UBot,
    UFunc { arg: Value, ret: Use, prop: FuncProperties },
    /// For each field its read type, its write type if it is written, and its span.
    UObj { fields: Vec<(StringId, (Use, Option<Value>, Span))> },
    UCase(UCaseData),
    UConstructorApplication(ConstructorAppData<Use>),
    UTypeConstructor(ConstructorData),
    UEphemeralPoly(EphemeralPolyType),
    /// Accepts any structural type and passes it on; a type constructor or
    /// constructor application is an error.
    UFilterOutConstructors(Use),
}

/// A value type node: its head and span.
pub type VTypeNode = (VTypeHead, Span);

/// A use type node: its head, span and where it comes from.
pub type UTypeNode = (UTypeHead, Span, UseSrc);

/// The name of a type constructor: a name, or a module and a name.
#[derive(Debug, Clone, Copy)]
pub enum DottedName {
    Single(StringId),
    Pair(StringId, StringId),
}

/// The text of a dotted name.
pub open spec fn dotted_text(s: Seq<Seq<char>>, n: DottedName) -> Seq<char> {
    match n {
        DottedName::Single(a) => crate::strings::key_text(s, a),
        DottedName::Pair(a, b) => crate::strings::key_text(s, a) + seq!['.'] + crate::strings::key_text(s, b),
    }
}

impl DottedName {
    /// The name as text: the module and the name separated by a dot.
    pub fn to_str(&self, strings: &lasso::Rodeo) -> (r: String)
        requires
            match self {
                DottedName::Single(a) => crate::strings::key_valid(crate::strings::interned(*strings), *a),
                DottedName::Pair(a, b) => crate::strings::key_valid(crate::strings::interned(*strings), *a)
                    && crate::strings::key_valid(crate::strings::interned(*strings), *b),
            },
        ensures
            r@ == dotted_text(crate::strings::interned(*strings), *self),
    {
        match self {
            DottedName::Single(a) => crate::strings::resolve(strings, a).to_owned(),
            DottedName::Pair(a, b) => {
                let x = crate::strings::resolve(strings, a);
                let y = crate::strings::resolve(strings, b);
                let r = crate::text::concat3(x, ".", y);
                proof {
                    reveal_strlit(".");
                }
                r
            },
        }
    }
}

/// A type constructor defined in the program: its name and span, the scope
/// level it was defined at, its kind, and its implicit coercions.
pub struct CustomTyConDef {
    pub name: DottedName,
    pub span: Span,
    pub scopelvl: crate::type_core::ScopeLvl,
    pub kind: Kind,
    pub unwrap_coercion: Option<Rc<crate::coercion::Coercion<Value>>>,
    pub wrap_coercion: Option<Rc<crate::coercion::Coercion<Use>>>,
}

impl CustomTyConDef {
    /// A definition without coercions.
    pub fn new(name: DottedName, span: Span, scopelvl: crate::type_core::ScopeLvl, kind: Kind) -> (r: Self)
        ensures
            r.name == name,
            r.span == span,
            r.scopelvl == scopelvl,
            r.kind == kind,
            r.unwrap_coercion is None,
            r.wrap_coercion is None,
    {
        CustomTyConDef { name, span, scopelvl, kind, unwrap_coercion: None, wrap_coercion: None }
    }
}

/// The definition of a type constructor.
pub enum TyConDef {
    Builtin(StringId),
    Custom(CustomTyConDef),
    Polymorphic(Kind),
}

impl TyConDef {
    /// Where the constructor was defined, for one defined in the program.
    pub fn span(&self) -> (r: Option<Span>)
        ensures
            r == (match self {
                TyConDef::Custom(a) => Some(a.span),
                _ => None,
            }),
    {
        match self {
            TyConDef::Custom(a) => Some(a.span),
            _ => None,
        }
    }

    /// The kind of the constructor, by its view; a builtin one takes no parameters.
    pub open spec fn kind_spec(&self) -> crate::ast::types::KindView {
        match self {
            TyConDef::Custom(a) => a.kind@,
            TyConDef::Builtin(..) => crate::ast::types::KindView::Star,
            TyConDef::Polymorphic(kind) => kind@,
        }
    }

    /// Where the constructor was defined, for one defined in the program.
    pub open spec fn span_spec(&self) -> Option<Span> {
        match self {
            TyConDef::Custom(a) => Some(a.span),
            _ => None,
        }
    }

    /// The kind of the constructor; a builtin one takes no parameters.
    pub fn kind(&self) -> (r: &Kind)
        ensures
            r@ == self.kind_spec(),
    {
        match self {
            TyConDef::Custom(a) => &a.kind,
            TyConDef::Builtin(..) => &Kind::Star,
            TyConDef::Polymorphic(kind) => kind,
        }
    }
}

/// The definition `add_custom` makes.
pub open spec fn new_custom(
    base_name: Option<StringId>,
    name: StringId,
    span: Span,
    scopelvl: crate::type_core::ScopeLvl,
    kind: Kind,
) -> CustomTyConDef {
    CustomTyConDef {
        name: match base_name {
            Some(b) => DottedName::Pair(b, name),
            None => DottedName::Single(name),
        },
        span,
        scopelvl,
        kind,
        unwrap_coercion: None,
        wrap_coercion: None,
    }
}

/// A definition of the program with its unwrap coercion set to `c`.
pub open spec fn with_unwrap(d: TyConDef, c: crate::coercion::Coercion<Value>) -> TyConDef {
    match d {
        TyConDef::Custom(a) => TyConDef::Custom(CustomTyConDef { unwrap_coercion: Some(Rc::new(c)), ..a }),
        _ => d,
    }
}

/// A definition of the program with its wrap coercion set to `c`.
pub open spec fn with_wrap(d: TyConDef, c: crate::coercion::Coercion<Use>) -> TyConDef {
    match d {
        TyConDef::Custom(a) => TyConDef::Custom(CustomTyConDef { wrap_coercion: Some(Rc::new(c)), ..a }),
        _ => d,
    }
}

/// The type constructors of a program, with the polymorphic ones deduplicated
/// by the keys of their spines.
pub struct TyConArena {
    defs: Vec<TyConDef>,
    spines: Vec<(String, TyConDefInd)>,
}

/// The key of each polymorphic constructor, with the constructor.
pub open spec fn spine_keys(v: Seq<(String, TyConDefInd)>) -> Seq<(Seq<char>, TyConDefInd)> {
    v.map_values(|e: (String, TyConDefInd)| (e.0@, e.1))
}

/// The position of the first entry for `key`.
pub open spec fn key_pos(v: Seq<(Seq<char>, TyConDefInd)>, key: Seq<char>, i: nat) -> Option<nat>
    decreases v.len() - i,
{
    if i >= v.len() {
        None
    } else if v[i as int].0 == key {
        Some(i)
    } else {
        key_pos(v, key, i + 1)
    }
}

impl TyConArena {
    /// The definitions, in the order they were added.
    pub closed spec fn defs(&self) -> Seq<TyConDef> {
        self.defs@
    }

    /// The polymorphic constructors, each with the key of its spine, in the
    /// order they were added.
    pub closed spec fn spines(&self) -> Seq<(Seq<char>, TyConDefInd)> {
        spine_keys(self.spines@)
    }

    /// An empty arena.
    pub fn new() -> (r: Self)
        ensures
            r.defs() == Seq::<TyConDef>::empty(),
            r.spines() == Seq::<(Seq<char>, TyConDefInd)>::empty(),
    {
        let r = TyConArena { defs: Vec::new(), spines: Vec::new() };
        proof {
            assert(r.spines() =~= Seq::<(Seq<char>, TyConDefInd)>::empty());
        }
        r
    }

    /// Adds a definition and gives back its index, the next one.
    pub fn add(&mut self, def: TyConDef) -> (r: TyConDefInd)
        requires
            old(self).defs().len() < INDEX_LIMIT,
        ensures
            r@ == old(self).defs().len(),
            final(self).defs() == old(self).defs().push(def),
            final(self).spines() == old(self).spines(),
    {
        let i = self.defs.len();
        self.defs.push(def);
        TyConDefInd::new(i)
    }

    /// Adds a constructor defined in the program, named `base_name.name` when
    /// it is defined in a module.
    pub fn add_custom(
        &mut self,
        base_name: Option<StringId>,
        name: StringId,
        span: Span,
        scopelvl: crate::type_core::ScopeLvl,
        kind: Kind,
    ) -> (r: TyConDefInd)
        requires
            old(self).defs().len() < INDEX_LIMIT,
        ensures
            r@ == old(self).defs().len(),
            final(self).defs().len() == old(self).defs().len() + 1,
            final(self).defs().drop_last() == old(self).defs(),
            final(self).defs().last() == TyConDef::Custom(new_custom(base_name, name, span, scopelvl, kind)),
            final(self).spines() == old(self).spines(),
    {
        let name = match base_name {
            Some(b) => DottedName::Pair(b, name),
            None => DottedName::Single(name),
        };
        let r = self.add(TyConDef::Custom(CustomTyConDef::new(name, span, scopelvl, kind)));
        proof {
            assert(self.defs().drop_last() =~= old(self).defs());
        }
        r
    }

    /// The constructor of the spine with key `key`: the one added before for
    /// that key, or a new polymorphic constructor of kind `kind`.
    pub fn add_polymorphic(&mut self, key: String, kind: &Kind) -> (r: TyConDefInd)
        requires
            old(self).defs().len() < INDEX_LIMIT,
        ensures
            match key_pos(old(self).spines(), key@, 0) {
                Some(j) => r == old(self).spines()[j as int].1 && *final(self) == *old(self),
                None => {
                    &&& r@ == old(self).defs().len()
                    &&& final(self).defs().len() == old(self).defs().len() + 1
                    &&& final(self).defs().drop_last() == old(self).defs()
                    &&& final(self).defs().last() matches TyConDef::Polymorphic(k) && k@ == kind@
                    &&& final(self).spines() == old(self).spines().push((key@, r))
                },
            },
    {
        let mut i: usize = 0;
        while i < self.spines.len()
            invariant
                i <= self.spines@.len(),
                key_pos(spine_keys(self.spines@), key@, 0) == key_pos(spine_keys(self.spines@), key@, i as nat),
            decreases self.spines@.len() - i,
        {
            if crate::text::str_eq(self.spines[i].0.as_str(), key.as_str()) {
                return self.spines[i].1;
            }
            i = i + 1;
        }
        let ind = self.add(TyConDef::Polymorphic(kind.clone()));
        let ghost before = self.spines@;
        self.spines.push((key, ind));
        proof {
            assert(self.defs().drop_last() =~= old(self).defs());
            assert(spine_keys(self.spines@) =~= spine_keys(before).push((key@, ind)));
        }
        ind
    }

    /// The definition at `ind`.
    pub fn get(&self, ind: TyConDefInd) -> (r: &TyConDef)
        requires
            ind@ < self.defs().len(),
        ensures
            *r == self.defs()[ind@ as int],
    {
        &self.defs[ind.i()]
    }

    /// The key of the spine that the constructor `ind` was made for, if any.
    pub fn get_spine_key(&self, ind: TyConDefInd) -> (r: Option<&String>)
        ensures
            match r {
                Some(k) => exists|j: int| 0 <= j < self.spines().len() && self.spines()[j] == (k@, ind),
                None => forall|j: int| 0 <= j < self.spines().len() ==> self.spines()[j].1 != ind,
            },
    {
        let mut i: usize = 0;
        while i < self.spines.len()
            invariant
                i <= self.spines@.len(),
                forall|j: int| 0 <= j < i ==> spine_keys(self.spines@)[j].1 != ind,
            decreases self.spines@.len() - i,
        {
            if self.spines[i].1 == ind {
                proof {
                    assert(self.spines()[i as int] == (self.spines@[i as int].0@, ind));
                }
                return Some(&self.spines[i].0);
            }
            i = i + 1;
        }
        None
    }

    /// Sets the unwrap coercion of the constructor `ind`, which must be one
    /// defined in the program.
    pub fn set_unwrap_coercion(&mut self, ind: TyConDefInd, coercion: crate::coercion::Coercion<Value>) -> (r: Result<(), crate::spans::ICE>)
        requires
            ind@ < old(self).defs().len(),
        ensures
            final(self).spines() == old(self).spines(),
            final(self).defs().len() == old(self).defs().len(),
            forall|j: int| 0 <= j < old(self).defs().len() && j != ind@ ==> final(self).defs()[j] == old(self).defs()[j],
            r is Ok <==> old(self).defs()[ind@ as int] is Custom,
            r is Ok ==> final(self).defs()[ind@ as int] == with_unwrap(old(self).defs()[ind@ as int], coercion),
            r is Err ==> final(self).defs() == old(self).defs(),
    {
        let i = ind.i();
        let d = self.defs.remove(i);
        match d {
            TyConDef::Custom(mut a) => {
                a.unwrap_coercion = Some(Rc::new(coercion));
                self.defs.insert(i, TyConDef::Custom(a));
                Ok(())
            },
            other => {
                self.defs.insert(i, other);
                proof {
                    assert(self.defs@ =~= old(self).defs@);
                }
                Err(crate::spans::ice())
            },
        }
    }

    /// Sets the wrap coercion of the constructor `ind`, which must be one
    /// defined in the program.
    pub fn set_wrap_coercion(&mut self, ind: TyConDefInd, coercion: crate::coercion::Coercion<Use>) -> (r: Result<(), crate::spans::ICE>)
        requires
            ind@ < old(self).defs().len(),
        ensures
            final(self).spines() == old(self).spines(),
            final(self).defs().len() == old(self).defs().len(),
            forall|j: int| 0 <= j < old(self).defs().len() && j != ind@ ==> final(self).defs()[j] == old(self).defs()[j],
            r is Ok <==> old(self).defs()[ind@ as int] is Custom,
            r is Ok ==> final(self).defs()[ind@ as int] == with_wrap(old(self).defs()[ind@ as int], coercion),
            r is Err ==> final(self).defs() == old(self).defs(),
    {
        let i = ind.i();
        let d = self.defs.remove(i);
        match d {
            TyConDef::Custom(mut a) => {
                a.wrap_coercion = Some(Rc::new(coercion));
                self.defs.insert(i, TyConDef::Custom(a));
                Ok(())
            },
            other => {
                self.defs.insert(i, other);
                proof {
                    assert(self.defs@ =~= old(self).defs@);
                }
                Err(crate::spans::ice())
            },
        }
    }
}

/// Why a value head does not flow to a use head.
pub enum HeadErr {
    /// A regular function where a pure identity function is required.
    NotIdentity,
    MissingField(Span, Span, StringId),
    ImmutableField(Span, Span, StringId),
    UnhandledVariant(Span, Span, StringId, Option<MissingPattern>),
    TypeEscape(DottedName, Span, Span, Span, crate::type_core::ScopeLvl),
    /// A polymorphic type variable used outside the comparison it belongs to.
    PolyEscape,
    /// The heads do not match; where the use came from a unification, the
    /// error names the unified value.
    Conflict(UseSrc),
}

/// What checking a value head against a use head does: the flow edges it
/// adds, in order, and the error it stops at, if any.
pub struct HeadsOutcome {
    pub edges: Seq<(Value, Use, crate::type_core::TypeEdge)>,
    pub err: Option<HeadErr>,
}

/// Success with the flow edges `edges`.
pub open spec fn heads_ok(edges: Seq<(Value, Use, crate::type_core::TypeEdge)>) -> HeadsOutcome {
    HeadsOutcome { edges, err: None }
}

/// Failure with `h`, after adding the flow edges `edges`.
pub open spec fn heads_err(edges: Seq<(Value, Use, crate::type_core::TypeEdge)>, h: HeadErr) -> HeadsOutcome {
    HeadsOutcome { edges, err: Some(h) }
}

/// Checking the first `n` fields that a use of a record reads or writes
/// against the fields of the record value: each read field must exist, and
/// flows from the value; each written field must be mutable, and flows to the
/// value.
pub open spec fn obj_check(
    fields1: Seq<(StringId, (Value, Option<Use>, Span))>,
    fields2: Seq<(StringId, (Use, Option<Value>, Span))>,
    n: nat,
    e: crate::type_core::TypeEdge,
    lhs_span: Span,
) -> HeadsOutcome
    decreases n,
{
    if n == 0 || n > fields2.len() {
        heads_ok(Seq::empty())
    } else {
        let prev = obj_check(fields1, fields2, (n - 1) as nat, e, lhs_span);
        if prev.err is Some {
            prev
        } else {
            let (name, (rhs_r, rhs_w, rhs_span)) = fields2[n - 1];
            match last_entry(fields1, name) {
                Some((lhs_r, lhs_w, lhs_fspan)) => {
                    let es = prev.edges.push((lhs_r, rhs_r, e));
                    match rhs_w {
                        Some(w) => match lhs_w {
                            Some(lw) => heads_ok(es.push((w, lw, e))),
                            None => heads_err(es, HeadErr::ImmutableField(lhs_fspan, rhs_span, name)),
                        },
                        None => heads_ok(es),
                    }
                },
                None => heads_err(prev.edges, HeadErr::MissingField(lhs_span, rhs_span, name)),
            }
        }
    }
}

/// Whether the check reads the definition of the value's type constructor:
/// both heads are the same type constructor.
pub open spec fn needs_def(lhs: VTypeHead, rhs: UTypeHead) -> Option<TyConDefInd> {
    match (lhs, rhs) {
        (VTypeHead::VTypeConstructor(l), UTypeHead::UTypeConstructor(r)) => if l.category == r.category {
            Some(l.category)
        } else {
            None
        },
        _ => None,
    }
}

/// What checking the value head `lhs` (node `lhs_ind`) against the use head
/// `rhs` (node `rhs_ind`) does, with the type constructors `defs` and the edge
/// data `e`.
pub open spec fn check_heads_spec(
    defs: Seq<TyConDef>,
    lhs_ind: Value,
    lhs: VTypeNode,
    rhs_ind: Use,
    rhs: UTypeNode,
    e: crate::type_core::TypeEdge,
) -> HeadsOutcome {
    match (lhs.0, rhs.0) {
        (_, UTypeHead::UIntersection(types)) => heads_ok(types@.map_values(|u: Use| (lhs_ind, u, e))),
        (_, UTypeHead::UFilterOutConstructors(target)) => match (lhs.0, rhs.2) {
            (VTypeHead::VTypeConstructor(..), UseSrc::Unification(uni)) => heads_err(
                Seq::empty(),
                HeadErr::Conflict(UseSrc::Unification(uni)),
            ),
            (VTypeHead::VConstructorApplication(..), UseSrc::Unification(uni)) => heads_err(
                Seq::empty(),
                HeadErr::Conflict(UseSrc::Unification(uni)),
            ),
            _ => heads_ok(seq![(lhs_ind, target, e)]),
        },
        (VTypeHead::VCaseUnion(types), _) => heads_ok(types@.map_values(|v: Value| (v, rhs_ind, e))),
        (VTypeHead::VFunc { arg: arg1, ret: ret1, prop: prop1 }, UTypeHead::UFunc { arg: arg2, ret: ret2, prop: prop2 }) => {
            if prop2.is_identity && !prop1.is_identity {
                heads_err(Seq::empty(), HeadErr::NotIdentity)
            } else {
                heads_ok(seq![(arg2, arg1, e), (ret1, ret2, e)])
            }
        },
        (VTypeHead::VObj { fields: fields1, .. }, UTypeHead::UObj { fields: fields2 }) => obj_check(
            fields1@,
            fields2@,
            fields2@.len(),
            e,
            lhs.1,
        ),
        (VTypeHead::VCase { case: (name, lhs2) }, UTypeHead::UCase(d)) => match last_entry(d.cases@, name) {
            Some(rhs2) => heads_ok(
                seq![(lhs2, rhs2, e)] + match last_entry(d.case_wildcards@, name) {
                    Some(w) => seq![(lhs_ind, w, e)],
                    None => Seq::empty(),
                },
            ),
            None => match d.wildcard {
                Some(w) => heads_ok(seq![(lhs_ind, w, e)]),
                None => heads_err(Seq::empty(), HeadErr::UnhandledVariant(lhs.1, rhs.1, name, d.exhaustive_reason)),
            },
        },
        (VTypeHead::VTypeConstructor(ld), UTypeHead::UTypeConstructor(rd)) => {
            if ld.category != rd.category {
                heads_err(Seq::empty(), HeadErr::Conflict(rhs.2))
            } else {
                match defs[ld.category@ as int] {
                    TyConDef::Custom(td) => if e.scopelvl.0 < td.scopelvl.0 {
                        heads_err(Seq::empty(), HeadErr::TypeEscape(td.name, td.span, lhs.1, rhs.1, e.scopelvl))
                    } else {
                        heads_ok(Seq::empty())
                    },
                    _ => heads_ok(Seq::empty()),
                }
            }
        },
        (VTypeHead::VConstructorApplication(la), UTypeHead::UConstructorApplication(ra)) => {
            if !crate::kinds::kinds_equal(la.kind.0@, ra.kind.0@) {
                heads_err(Seq::empty(), HeadErr::Conflict(rhs.2))
            } else {
                heads_ok(
                    param_edges(la.params.0@, ra.params.0@, min_len(la.params.0@.len(), ra.params.0@.len()), e).push(
                        (la.tycon, ra.tycon, e),
                    ),
                )
            }
        },
        (VTypeHead::VEphemeralPoly(l), UTypeHead::UEphemeralPoly(r)) => {
            if crate::strings::key_index(l.name) != crate::strings::key_index(r.name) {
                heads_err(Seq::empty(), HeadErr::Conflict(rhs.2))
            } else if l.key != r.key || e.scopelvl.0 != u32::MAX {
                heads_err(Seq::empty(), HeadErr::PolyEscape)
            } else {
                heads_ok(Seq::empty())
            }
        },
        _ => heads_err(Seq::empty(), HeadErr::Conflict(rhs.2)),
    }
}

/// Whether `pe` is the error that `h` describes, for heads at `lhs_span` and `rhs_span`.
pub open spec fn err_is(pe: crate::type_errors::PartialTypeError, h: HeadErr, lhs_span: Span, rhs_span: Span) -> bool {
    match h {
        HeadErr::NotIdentity => pe matches crate::type_errors::PartialTypeError::E(s) && s@ == seq![
            crate::spans::PartView::At("TypeError: Function is required to be a pure identity function here:"@, rhs_span),
            crate::spans::PartView::At("Note: But it may be a regular function here:"@, lhs_span),
        ],
        HeadErr::PolyEscape => pe matches crate::type_errors::PartialTypeError::E(s) && s@ == seq![
            crate::spans::PartView::At("TypeError: Polymorphic type variable escapes its scope. Type originates here:"@, lhs_span),
            crate::spans::PartView::At("Note: And is used here after escaping its scope."@, rhs_span),
        ],
        HeadErr::MissingField(a, b, n) => pe == crate::type_errors::PartialTypeError::MissingField(a, b, n),
        HeadErr::ImmutableField(a, b, n) => pe == crate::type_errors::PartialTypeError::ImmutableField(a, b, n),
        HeadErr::UnhandledVariant(a, b, n, m) => pe == crate::type_errors::PartialTypeError::UnhandledVariant(a, b, n, m),
        HeadErr::TypeEscape(n, a, b, c, l) => pe == crate::type_errors::PartialTypeError::TypeEscape(n, a, b, c, l),
        HeadErr::Conflict(src) => match src {
            UseSrc::Unification(uni) => pe == crate::type_errors::PartialTypeError::UnificationConflict(uni.0),
            _ => pe is TypeConflict,
        },
    }
}

impl UnifiedSource {
    /// The error of a conflict with the unified value.
    pub fn err(&self) -> (r: crate::type_errors::PartialTypeError)
        ensures
            r == crate::type_errors::PartialTypeError::UnificationConflict(self.0),
    {
        crate::type_errors::PartialTypeError::UnificationConflict(self.0)
    }
}

/// The error of heads that do not match, for a use from `src`.
fn type_conflict_err(src: UseSrc) -> (r: crate::type_errors::PartialTypeError)
    ensures
        err_is(r, HeadErr::Conflict(src), Span(0), Span(0)),
{
    if let UseSrc::Unification(uni) = src {
        uni.err()
    } else {
        crate::type_errors::PartialTypeError::TypeConflict
    }
}

/// One more field: the outcome for the fields before it, then this field.
proof fn lemma_obj_step(
    fields1: Seq<(StringId, (Value, Option<Use>, Span))>,
    fields2: Seq<(StringId, (Use, Option<Value>, Span))>,
    k: nat,
    n: nat,
    e: crate::type_core::TypeEdge,
    lhs_span: Span,
)
    requires
        k <= n <= fields2.len(),
        obj_check(fields1, fields2, k, e, lhs_span).err is Some,
    ensures
        obj_check(fields1, fields2, n, e, lhs_span) == obj_check(fields1, fields2, k, e, lhs_span),
    decreases n,
{
    if n > k {
        lemma_obj_step(fields1, fields2, k, (n - 1) as nat, e, lhs_span);
    }
}

/// Checks that the value head `lhs` (node `lhs_ind`) flows to the use head
/// `rhs` (node `rhs_ind`): adds to `out` the flow edges between their parts
/// that this asks for, or gives the error that stops it, as
/// `check_heads_spec` says.
pub fn check_heads(
    type_ctors: &TyConArena,
    lhs_ind: Value,
    lhs: &VTypeNode,
    rhs_ind: Use,
    rhs: &UTypeNode,
    edge_context: crate::type_core::TypeEdge,
    out: &mut Vec<(Value, Use, crate::type_core::TypeEdge)>,
) -> (r: Result<(), crate::type_errors::PartialTypeError>)
    requires
        needs_def(lhs.0, rhs.0) matches Some(i) ==> i@ < type_ctors.defs().len(),
    ensures
        ({
            let o = check_heads_spec(type_ctors.defs(), lhs_ind, *lhs, rhs_ind, *rhs, edge_context);
            &&& final(out)@ == old(out)@ + o.edges
            &&& match o.err {
                None => r is Ok,
                Some(h) => r matches Err(pe) && err_is(pe, h, lhs.1, rhs.1),
            }
        }),
{
    let ghost o = check_heads_spec(type_ctors.defs(), lhs_ind, *lhs, rhs_ind, *rhs, edge_context);
    let lhs_span = lhs.1;
    let rhs_span = rhs.1;
    match (&lhs.0, &rhs.0) {
        (_, UTypeHead::UIntersection(types)) => {
            let mut i: usize = 0;
            while i < types.len()
                invariant
                    i <= types@.len(),
                    out@ == old(out)@ + types@.subrange(0, i as int).map_values(|u: Use| (lhs_ind, u, edge_context)),
                decreases types@.len() - i,
            {
                out.push((lhs_ind, types[i], edge_context));
                i = i + 1;
                proof {
                    assert(types@.subrange(0, i as int).map_values(|u: Use| (lhs_ind, u, edge_context)) =~= types@.subrange(
                        0,
                        i - 1,
                    ).map_values(|u: Use| (lhs_ind, u, edge_context)).push((lhs_ind, types@[i - 1], edge_context)));
                }
            }
            proof {
                assert(types@.subrange(0, types@.len() as int) =~= types@);
            }
            return Ok(());
        },
        (_, UTypeHead::UFilterOutConstructors(target)) => {
            let is_con = match &lhs.0 {
                VTypeHead::VTypeConstructor(..) => true,
                VTypeHead::VConstructorApplication(..) => true,
                _ => false,
            };
            if is_con {
                if let UseSrc::Unification(uni) = rhs.2 {
                    return Err(uni.err());
                }
            }
            out.push((lhs_ind, *target, edge_context));
            proof {
                assert(out@ =~= old(out)@ + o.edges);
            }
            return Ok(());
        },
        _ => {},
    }
    match (&lhs.0, &rhs.0) {
        (VTypeHead::VCaseUnion(types), _) => {
            let mut i: usize = 0;
            while i < types.len()
                invariant
                    i <= types@.len(),
                    out@ == old(out)@ + types@.subrange(0, i as int).map_values(|v: Value| (v, rhs_ind, edge_context)),
                decreases types@.len() - i,
            {
                out.push((types[i], rhs_ind, edge_context));
                i = i + 1;
                proof {
                    assert(types@.subrange(0, i as int).map_values(|v: Value| (v, rhs_ind, edge_context)) =~= types@.subrange(
                        0,
                        i - 1,
                    ).map_values(|v: Value| (v, rhs_ind, edge_context)).push((types@[i - 1], rhs_ind, edge_context)));
                }
            }
            proof {
                assert(types@.subrange(0, types@.len() as int) =~= types@);
            }
            Ok(())
        },
        (VTypeHead::VFunc { arg: arg1, ret: ret1, prop: prop1 }, UTypeHead::UFunc { arg: arg2, ret: ret2, prop: prop2 }) => {
            if prop2.is_identity && !prop1.is_identity {
                return Err(
                    crate::type_errors::PartialTypeError::E(
                        crate::spans::SpannedError::new2(
                            "TypeError: Function is required to be a pure identity function here:",
                            rhs_span,
                            "Note: But it may be a regular function here:",
                            lhs_span,
                        ),
                    ),
                );
            }
            out.push((*arg2, *arg1, edge_context));
            out.push((*ret1, *ret2, edge_context));
            proof {
                assert(out@ =~= old(out)@ + o.edges);
            }
            Ok(())
        },
        (VTypeHead::VObj { fields: fields1, .. }, UTypeHead::UObj { fields: fields2 }) => {
            let ghost f1 = fields1@;
            let ghost f2 = fields2@;
            proof {
                assert(o == obj_check(f1, f2, f2.len(), edge_context, lhs_span));
            }
            let mut i: usize = 0;
            while i < fields2.len()
                invariant
                    f1 == fields1@,
                    f2 == fields2@,
                    lhs.0 is VObj,
                    rhs.0 is UObj,
                    lhs.0->VObj_fields == *fields1,
                    rhs.0->UObj_fields == *fields2,
                    lhs_span == lhs.1,
                    rhs_span == rhs.1,
                    o == check_heads_spec(type_ctors.defs(), lhs_ind, *lhs, rhs_ind, *rhs, edge_context),
                    o == obj_check(f1, f2, f2.len(), edge_context, lhs_span),
                    i <= f2.len(),
                    obj_check(f1, f2, i as nat, edge_context, lhs_span).err is None,
                    out@ == old(out)@ + obj_check(f1, f2, i as nat, edge_context, lhs_span).edges,
                decreases f2.len() - i,
            {
                let (name, (rhs_r, rhs_w, rhs_fspan)) = fields2[i];
                let ghost prev = obj_check(f1, f2, i as nat, edge_context, lhs_span);
                match find_last(fields1, &name) {
                    Some((lhs_r, lhs_w, lhs_fspan)) => {
                        out.push((lhs_r, rhs_r, edge_context));
                        if let Some(w) = rhs_w {
                            if let Some(lw) = lhs_w {
                                out.push((w, lw, edge_context));
                            } else {
                                proof {
                                    lemma_obj_step(f1, f2, (i + 1) as nat, f2.len(), edge_context, lhs_span);
                                }
                                return Err(crate::type_errors::PartialTypeError::ImmutableField(lhs_fspan, rhs_fspan, name));
                            }
                        }
                    },
                    None => {
                        proof {
                            lemma_obj_step(f1, f2, (i + 1) as nat, f2.len(), edge_context, lhs_span);
                        }
                        return Err(crate::type_errors::PartialTypeError::MissingField(lhs_span, rhs_fspan, name));
                    },
                }
                i = i + 1;
            }
            Ok(())
        },
        (VTypeHead::VCase { case: (name, lhs2) }, UTypeHead::UCase(d)) => {
            match find_last(&d.cases, name) {
                Some(rhs2) => {
                    out.push((*lhs2, rhs2, edge_context));
                    if let Some(w) = find_last(&d.case_wildcards, name) {
                        out.push((lhs_ind, w, edge_context));
                    }
                    proof {
                        assert(out@ =~= old(out)@ + o.edges);
                    }
                    Ok(())
                },
                None => {
                    match d.wildcard {
                        Some(w) => {
                            out.push((lhs_ind, w, edge_context));
                            proof {
                                assert(out@ =~= old(out)@ + o.edges);
                            }
                            Ok(())
                        },
                        None => Err(
                            crate::type_errors::PartialTypeError::UnhandledVariant(
                                lhs_span,
                                rhs_span,
                                *name,
                                d.exhaustive_reason.clone(),
                            ),
                        ),
                    }
                },
            }
        },
        (VTypeHead::VTypeConstructor(lhs_data), UTypeHead::UTypeConstructor(rhs_data)) => {
            if lhs_data.category != rhs_data.category {
                return Err(type_conflict_err(rhs.2));
            }
            let ty_def = type_ctors.get(lhs_data.category);
            if let TyConDef::Custom(td) = ty_def {
                if edge_context.scopelvl.0 < td.scopelvl.0 {
                    return Err(
                        crate::type_errors::PartialTypeError::TypeEscape(td.name, td.span, lhs_span, rhs_span, edge_context.scopelvl),
                    );
                }
            }
            proof {
                assert(out@ =~= old(out)@ + o.edges);
            }
            Ok(())
        },
        (VTypeHead::VConstructorApplication(lhs_app), UTypeHead::UConstructorApplication(rhs_app)) => {
            if !crate::kinds::kinds_are_equal(&lhs_app.kind.0, &rhs_app.kind.0) {
                return Err(type_conflict_err(rhs.2));
            }
            lhs_app.params.check_against(&rhs_app.params, &edge_context, out);
            out.push((lhs_app.tycon, rhs_app.tycon, edge_context));
            proof {
                assert(out@ =~= old(out)@ + o.edges);
            }
            Ok(())
        },
        (VTypeHead::VEphemeralPoly(l), UTypeHead::UEphemeralPoly(rp)) => {
            if !crate::strings::same_key(&l.name, &rp.name) {
                return Err(type_conflict_err(rhs.2));
            }
            if l.key != rp.key || edge_context.scopelvl.0 != u32::MAX {
                return Err(
                    crate::type_errors::PartialTypeError::E(
                        crate::spans::SpannedError::new2(
                            "TypeError: Polymorphic type variable escapes its scope. Type originates here:",
                            lhs_span,
                            "Note: And is used here after escaping its scope.",
                            rhs_span,
                        ),
                    ),
                );
            }
            proof {
                assert(out@ =~= old(out)@ + o.edges);
            }
            Ok(())
        },
        _ => Err(type_conflict_err(rhs.2)),
    }
}
} // verus!

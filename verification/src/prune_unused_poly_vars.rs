use crate::ast::types::{SKind, Variance};
use crate::ast::StringId;
use crate::kinds::KindVar;
use crate::parser::{lex_lt, str_lt};
use crate::spans::{ice, Span, ICE};
use crate::strings::{interned, key_index, key_text, key_valid, resolve, same_key};
use crate::templates::{
    is_inner, leaf_mapped, leaves, pair_mapped, rec_body_variance, template_leaves, Leaf, LeafKind, NamePair, ParsedType,
    ParsedTypeHead, RcParsedType, RecHeadData, SourceLoc, VarianceInvPair,
};
use std::rc::Rc;
use vstd::prelude::*;

verus! {

/// The span last recorded for each name, by the position the name's key stands for.
pub open spec fn spans_map(s: Seq<(StringId, Span)>) -> Map<nat, Span>
    decreases s.len(),
{
    if s.len() == 0 {
        Map::empty()
    } else {
        spans_map(s.drop_last()).insert(key_index(s.last().0), s.last().1)
    }
}

/// No two entries are for the same name.
pub open spec fn unique_keys(s: Seq<(StringId, Span)>) -> bool {
    forall|i: int, j: int| 0 <= i < j < s.len() ==> key_index(#[trigger] s[i].0) != key_index(#[trigger] s[j].0)
}

/// The names of `s`, by the positions their keys stand for.
pub open spec fn key_set(s: Seq<StringId>) -> Set<nat> {
    s.map_values(|k: StringId| key_index(k)).to_set()
}

/// The mathematical content of a `PolyVarUses`: the definition site whose
/// temporary variables count, the span last seen of each name used in a
/// covariant and in a contravariant way, and the names used as a pair in an
/// invariant position.
pub struct UsesView {
    pub loc: Option<SourceLoc>,
    pub cov: Map<nat, Span>,
    pub contra: Map<nat, Span>,
    pub pairs: Set<nat>,
}

/// The record of one use of the polymorphic variable `names` at variance `v`.
pub open spec fn uses_add(u: UsesView, names: NamePair, span: Span, v: Variance) -> UsesView {
    match names {
        NamePair::Single(name) => UsesView {
            loc: u.loc,
            cov: if v != Variance::Contravariant {
                u.cov.insert(key_index(name), span)
            } else {
                u.cov
            },
            contra: if v != Variance::Covariant {
                u.contra.insert(key_index(name), span)
            } else {
                u.contra
            },
            pairs: u.pairs,
        },
        NamePair::Pair(name1, name2) => UsesView {
            loc: u.loc,
            cov: if v != Variance::Contravariant {
                u.cov.insert(key_index(name1), span)
            } else {
                u.cov
            },
            contra: if v != Variance::Covariant {
                u.contra.insert(key_index(name2), span)
            } else {
                u.contra
            },
            pairs: if v == Variance::Invariant {
                u.pairs.insert(key_index(name1)).insert(key_index(name2))
            } else {
                u.pairs
            },
        },
    }
}

/// The record after seeing the leaf `l`: spine variables always count, and
/// temporary variables only where they were defined at the site being looked at.
pub open spec fn uses_visit(u: UsesView, l: Leaf) -> UsesView {
    match l.kind {
        LeafKind::SpinePolyVar(names) => uses_add(u, names, l.span, l.variance),
        LeafKind::TempPolyVar(loc, names) => if u.loc == Some(loc) {
            uses_add(u, names, l.span, l.variance)
        } else {
            u
        },
        _ => u,
    }
}

/// The record after seeing the first `n` leaves of `ls`, in order.
pub open spec fn uses_after(u: UsesView, ls: Seq<Leaf>, n: nat) -> UsesView
    decreases n,
{
    if n == 0 || n > ls.len() {
        u
    } else {
        uses_visit(uses_after(u, ls, (n - 1) as nat), ls[n - 1])
    }
}

/// The uses of polymorphic type variables in a template: where each is used
/// covariantly, where contravariantly, and which are used as invariant pairs.
pub struct PolyVarUses {
    loc: Option<SourceLoc>,
    cov: Vec<(StringId, Span)>,
    contra: Vec<(StringId, Span)>,
    pair_vars: Vec<StringId>,
}

impl View for PolyVarUses {
    type V = UsesView;

    closed spec fn view(&self) -> UsesView {
        UsesView {
            loc: self.loc,
            cov: spans_map(self.cov@),
            contra: spans_map(self.contra@),
            pairs: key_set(self.pair_vars@),
        }
    }
}

/// Entries for the same name in a map sit at one position only.
proof fn lemma_spans_map_get(s: Seq<(StringId, Span)>, j: int)
    requires
        unique_keys(s),
        0 <= j < s.len(),
    ensures
        spans_map(s).contains_key(key_index(s[j].0)),
        spans_map(s)[key_index(s[j].0)] == s[j].1,
    decreases s.len(),
{
    if j < s.len() - 1 {
        lemma_spans_map_get(s.drop_last(), j);
        assert(s.drop_last()[j] == s[j]);
    }
}

/// A name that no entry is for is not in the map.
proof fn lemma_spans_map_absent(s: Seq<(StringId, Span)>, k: nat)
    requires
        forall|i: int| 0 <= i < s.len() ==> key_index(#[trigger] s[i].0) != k,
    ensures
        !spans_map(s).contains_key(k),
    decreases s.len(),
{
    if s.len() > 0 {
        lemma_spans_map_absent(s.drop_last(), k);
        assert(s.last() == s[s.len() - 1]);
    }
}

/// Overwriting the entry of a name overwrites its span in the map.
proof fn lemma_spans_map_update(s: Seq<(StringId, Span)>, j: int, k: StringId, span: Span)
    requires
        unique_keys(s),
        0 <= j < s.len(),
        key_index(s[j].0) == key_index(k),
    ensures
        spans_map(s.update(j, (k, span))) == spans_map(s).insert(key_index(k), span),
    decreases s.len(),
{
    let t = s.update(j, (k, span));
    if j == s.len() - 1 {
        assert(t.drop_last() =~= s.drop_last());
        assert(spans_map(t) =~= spans_map(s).insert(key_index(k), span));
    } else {
        assert(t.drop_last() =~= s.drop_last().update(j, (k, span)));
        lemma_spans_map_update(s.drop_last(), j, k, span);
        assert(key_index(s.last().0) != key_index(k)) by {
            assert(s.last() == s[s.len() - 1]);
        }
        assert(spans_map(t) =~= spans_map(s).insert(key_index(k), span));
    }
}

/// Records `span` as the span last seen of `k`.
pub(crate) fn map_insert(m: &mut Vec<(StringId, Span)>, k: StringId, span: Span)
    requires
        unique_keys(old(m)@),
    ensures
        unique_keys(final(m)@),
        spans_map(final(m)@) == spans_map(old(m)@).insert(key_index(k), span),
{
    let mut i: usize = 0;
    while i < m.len()
        invariant
            *m == *old(m),
            unique_keys(m@),
            i <= m@.len(),
            forall|j: int| 0 <= j < i ==> key_index(#[trigger] m@[j].0) != key_index(k),
        decreases m@.len() - i,
    {
        if same_key(&m[i].0, &k) {
            proof {
                lemma_spans_map_update(m@, i as int, k, span);
            }
            m.set(i, (k, span));
            proof {
                assert(m@ == old(m)@.update(i as int, (k, span)));
                assert forall|a: int, b: int| 0 <= a < b < m@.len() implies key_index(#[trigger] m@[a].0)
                    != key_index(#[trigger] m@[b].0) by {
                    assert(key_index(m@[a].0) == key_index(old(m)@[a].0));
                    assert(key_index(m@[b].0) == key_index(old(m)@[b].0));
                }
            }
            return;
        }
        i = i + 1;
    }
    m.push((k, span));
    proof {
        assert(m@.drop_last() =~= old(m)@);
        assert forall|a: int, b: int| 0 <= a < b < m@.len() implies key_index(#[trigger] m@[a].0) != key_index(
            #[trigger] m@[b].0,
        ) by {
            if b == m@.len() - 1 {
                assert(m@[a] == old(m)@[a]);
            } else {
                assert(m@[a] == old(m)@[a]);
                assert(m@[b] == old(m)@[b]);
            }
        }
    }
}

/// The span last recorded for `k`, if any.
pub(crate) fn map_get(m: &Vec<(StringId, Span)>, k: StringId) -> (r: Option<Span>)
    requires
        unique_keys(m@),
    ensures
        r == (if spans_map(m@).contains_key(key_index(k)) {
            Some(spans_map(m@)[key_index(k)])
        } else {
            None
        }),
{
    let mut i: usize = 0;
    while i < m.len()
        invariant
            unique_keys(m@),
            i <= m@.len(),
            forall|j: int| 0 <= j < i ==> key_index(#[trigger] m@[j].0) != key_index(k),
        decreases m@.len() - i,
    {
        if same_key(&m[i].0, &k) {
            proof {
                lemma_spans_map_get(m@, i as int);
            }
            return Some(m[i].1);
        }
        i = i + 1;
    }
    proof {
        lemma_spans_map_absent(m@, key_index(k));
    }
    None
}

/// Adds `k` to a set of names.
fn set_insert(s: &mut Vec<StringId>, k: StringId)
    ensures
        key_set(final(s)@) == key_set(old(s)@).insert(key_index(k)),
{
    let mut i: usize = 0;
    while i < s.len()
        invariant
            *s == *old(s),
            i <= s@.len(),
        decreases s@.len() - i,
    {
        if same_key(&s[i], &k) {
            proof {
                let ks = s@.map_values(|x: StringId| key_index(x));
                assert(ks[i as int] == key_index(k));
                assert(key_set(s@) =~= key_set(s@).insert(key_index(k)));
            }
            return;
        }
        i = i + 1;
    }
    let ghost before = s@;
    s.push(k);
    proof {
        let ks0 = before.map_values(|x: StringId| key_index(x));
        let ks1 = s@.map_values(|x: StringId| key_index(x));
        assert(ks1 =~= ks0.push(key_index(k)));
        assert forall|x: nat| key_set(s@).contains(x) <==> key_set(before).insert(key_index(k)).contains(x) by {
            if ks1.contains(x) {
                let j = choose|j: int| 0 <= j < ks1.len() && ks1[j] == x;
                if j < ks0.len() {
                    assert(ks0[j] == x);
                }
            }
            if ks0.contains(x) {
                let j = choose|j: int| 0 <= j < ks0.len() && ks0[j] == x;
                assert(ks1[j] == x);
            }
            if x == key_index(k) {
                assert(ks1[ks0.len() as int] == x);
            }
        }
        assert(key_set(s@) =~= key_set(before).insert(key_index(k)));
    }
}

impl PolyVarUses {
    /// The internal consistency of the record: one entry per name.
    pub closed spec fn wf(&self) -> bool {
        unique_keys(self.cov@) && unique_keys(self.contra@)
    }

    /// An empty record, counting the temporary variables defined at `loc`.
    pub fn new(loc: Option<SourceLoc>) -> (r: Self)
        ensures
            r.wf(),
            r@ == (UsesView { loc, cov: Map::empty(), contra: Map::empty(), pairs: Set::empty() }),
    {
        let r = PolyVarUses { loc, cov: Vec::new(), contra: Vec::new(), pair_vars: Vec::new() };
        proof {
            assert(key_set(r.pair_vars@) =~= Set::empty());
        }
        r
    }

    fn add(&mut self, names: NamePair, span: Span, variance: Variance)
        requires
            old(self).wf(),
        ensures
            final(self).wf(),
            final(self)@ == uses_add(old(self)@, names, span, variance),
    {
        match names {
            NamePair::Single(name) => {
                if variance != Variance::Contravariant {
                    map_insert(&mut self.cov, name, span);
                }
                if variance != Variance::Covariant {
                    map_insert(&mut self.contra, name, span);
                }
            },
            NamePair::Pair(name1, name2) => {
                if variance != Variance::Contravariant {
                    map_insert(&mut self.cov, name1, span);
                }
                if variance != Variance::Covariant {
                    map_insert(&mut self.contra, name2, span);
                }
                if variance == Variance::Invariant {
                    set_insert(&mut self.pair_vars, name1);
                    set_insert(&mut self.pair_vars, name2);
                }
            },
        }
    }

    /// The span of a covariant use of `name`, the last one a walk met.
    pub fn get_co(&self, name: StringId) -> (r: Option<Span>)
        requires
            self.wf(),
        ensures
            r == (if self@.cov.contains_key(key_index(name)) {
                Some(self@.cov[key_index(name)])
            } else {
                None
            }),
    {
        map_get(&self.cov, name)
    }

    /// The span of a contravariant use of `name`, the last one a walk met.
    pub fn get_contra(&self, name: StringId) -> (r: Option<Span>)
        requires
            self.wf(),
        ensures
            r == (if self@.contra.contains_key(key_index(name)) {
                Some(self@.contra[key_index(name)])
            } else {
                None
            }),
    {
        map_get(&self.contra, name)
    }

    /// Whether `name` was used as one of an invariant pair of names.
    pub fn is_pair_var(&self, name: StringId) -> (r: bool)
        ensures
            r == self@.pairs.contains(key_index(name)),
    {
        let mut i: usize = 0;
        while i < self.pair_vars.len()
            invariant
                i <= self.pair_vars@.len(),
                forall|j: int| 0 <= j < i ==> key_index(#[trigger] self.pair_vars@[j]) != key_index(name),
            decreases self.pair_vars@.len() - i,
        {
            if same_key(&self.pair_vars[i], &name) {
                proof {
                    let ks = self.pair_vars@.map_values(|x: StringId| key_index(x));
                    assert(ks[i as int] == key_index(name));
                }
                return true;
            }
            i = i + 1;
        }
        proof {
            let ks = self.pair_vars@.map_values(|x: StringId| key_index(x));
            if ks.contains(key_index(name)) {
                let j = choose|j: int| 0 <= j < ks.len() && ks[j] == key_index(name);
                assert(key_index(self.pair_vars@[j]) == key_index(name));
            }
        }
        false
    }

    /// Records the leaf `l` of a walk.
    pub fn visit_leaf(&mut self, l: &Leaf)
        requires
            old(self).wf(),
        ensures
            final(self).wf(),
            final(self)@ == uses_visit(old(self)@, *l),
    {
        match l.kind {
            LeafKind::SpinePolyVar(names) => self.add(names, l.span, l.variance),
            LeafKind::TempPolyVar(loc, names) => {
                let here = match self.loc {
                    Some(own) => own == loc,
                    None => false,
                };
                if here {
                    self.add(names, l.span, l.variance);
                }
            },
            _ => {},
        }
    }

    /// The record after walking over `tree` in a covariant position.
    pub fn walk(self, tree: &ParsedType) -> (r: Self)
        requires
            self.wf(),
        ensures
            r.wf(),
            r@ == uses_after(self@, leaves(*tree, Variance::Covariant), leaves(*tree, Variance::Covariant).len()),
    {
        let ls = template_leaves(tree);
        let mut u = self;
        let ghost start = u@;
        let mut i: usize = 0;
        while i < ls.len()
            invariant
                u.wf(),
                i <= ls@.len(),
                u@ == uses_after(start, ls@, i as nat),
            decreases ls@.len() - i,
        {
            u.visit_leaf(&ls[i]);
            i = i + 1;
        }
        u
    }
}

/// The variable names a leaf uses, when the record counts them: spine
/// variables always, temporary variables defined at `loc` only.
pub open spec fn counted_names(l: Leaf, loc: Option<SourceLoc>) -> Option<NamePair> {
    match l.kind {
        LeafKind::SpinePolyVar(names) => Some(names),
        LeafKind::TempPolyVar(at, names) => if loc == Some(at) {
            Some(names)
        } else {
            None
        },
        _ => None,
    }
}

/// The name read where a variable is used: the single name, or the first of a pair.
pub open spec fn read_name(names: NamePair) -> StringId {
    match names {
        NamePair::Single(n) => n,
        NamePair::Pair(n, _) => n,
    }
}

/// The name written where a variable is used: the single name, or the second of a pair.
pub open spec fn write_name(names: NamePair) -> StringId {
    match names {
        NamePair::Single(n) => n,
        NamePair::Pair(_, n) => n,
    }
}

/// Walking records a name as used covariantly exactly when some counted leaf
/// reads it in a position that is not contravariant, as used contravariantly
/// exactly when some counted leaf writes it in a position that is not
/// covariant, and as a pair variable exactly when some counted leaf uses it as
/// one of a pair in an invariant position.
pub proof fn law_poly_var_uses(loc: Option<SourceLoc>, ls: Seq<Leaf>, n: nat, k: nat)
    requires
        n <= ls.len(),
    ensures
        ({
            let u = uses_after(UsesView { loc, cov: Map::empty(), contra: Map::empty(), pairs: Set::empty() }, ls, n);
            &&& u.loc == loc
            &&& u.cov.contains_key(k) <==> exists|i: int|
                0 <= i < n && (#[trigger] counted_names(ls[i], loc)) is Some && ls[i].variance != Variance::Contravariant
                    && key_index(read_name(counted_names(ls[i], loc)->0)) == k
            &&& u.contra.contains_key(k) <==> exists|i: int|
                0 <= i < n && (#[trigger] counted_names(ls[i], loc)) is Some && ls[i].variance != Variance::Covariant
                    && key_index(write_name(counted_names(ls[i], loc)->0)) == k
            &&& u.pairs.contains(k) <==> exists|i: int|
                0 <= i < n && (#[trigger] counted_names(ls[i], loc)) is Some && ls[i].variance == Variance::Invariant
                    && counted_names(ls[i], loc)->0 is Pair && (key_index(read_name(counted_names(ls[i], loc)->0))
                    == k || key_index(write_name(counted_names(ls[i], loc)->0)) == k)
        }),
    decreases n,
{
    if n > 0 {
        law_poly_var_uses(loc, ls, (n - 1) as nat, k);
        let l = ls[n - 1];
        let last = (n - 1) as int;
        if counted_names(l, loc) is Some {
            assert(counted_names(ls[last], loc) is Some);
        }
    }
}


/// What an unused polymorphic variable is replaced with.
#[derive(Debug, Clone, Copy, PartialEq, Eq, Structural)]
pub enum Replacement {
    Any,
    Never,
}

/// The entry for each name, by the position the name's key stands for.
pub open spec fn repl_map(s: Seq<(StringId, Replacement)>) -> Map<nat, Replacement>
    decreases s.len(),
{
    if s.len() == 0 {
        Map::empty()
    } else {
        repl_map(s.drop_last()).insert(key_index(s.last().0), s.last().1)
    }
}

/// The node that stands for `r`.
pub open spec fn replacement_head(r: Replacement) -> ParsedTypeHead {
    match r {
        Replacement::Any => ParsedTypeHead::Any,
        Replacement::Never => ParsedTypeHead::Never,
    }
}

/// How a leaf at variance `v` is rewritten: a temporary variable defined at
/// `loc` whose name, as the variance reads it, has a replacement becomes that
/// replacement; every other leaf stays.
pub open spec fn replace_leaf(m: Map<nat, Replacement>, loc: SourceLoc) -> spec_fn(ParsedTypeHead, Variance) -> ParsedTypeHead {
    |h: ParsedTypeHead, v: Variance|
        match h {
            ParsedTypeHead::TempPolyVar(l, names) => {
                let name = if v == Variance::Contravariant {
                    write_name(names)
                } else {
                    read_name(names)
                };
                if l == loc && m.contains_key(key_index(name)) {
                    replacement_head(m[key_index(name)])
                } else {
                    h
                }
            },
            _ => h,
        }
}

/// The replacements to make for the temporary variables defined at one site.
pub struct VarReplacements {
    m: Vec<(StringId, Replacement)>,
    loc: SourceLoc,
}

impl VarReplacements {
    /// The replacement chosen for each name.
    pub closed spec fn map(&self) -> Map<nat, Replacement> {
        repl_map(self.m@)
    }

    /// The site whose temporary variables are replaced.
    pub closed spec fn site(&self) -> SourceLoc {
        self.loc
    }

    /// No replacements, for the variables defined at `loc`.
    pub fn new(loc: SourceLoc) -> (r: Self)
        ensures
            r.map() == Map::<nat, Replacement>::empty(),
            r.site() == loc,
    {
        VarReplacements { m: Vec::new(), loc }
    }

    /// Replaces `name` with `r`.
    pub fn add(&mut self, name: StringId, r: Replacement)
        ensures
            final(self).map() == old(self).map().insert(key_index(name), r),
            final(self).site() == old(self).site(),
    {
        let ghost before = self.m@;
        self.m.push((name, r));
        proof {
            assert(self.m@.drop_last() =~= before);
        }
    }

    /// Whether there is any replacement to make.
    pub fn is_empty(&self) -> (r: bool)
        ensures
            r == (self.map() == Map::<nat, Replacement>::empty()),
    {
        proof {
            if self.m@.len() > 0 {
                assert(self.map().contains_key(key_index(self.m@.last().0)));
            }
        }
        self.m.len() == 0
    }

    /// The replacement for `name`: the last one added.
    fn get(&self, name: StringId) -> (r: Option<Replacement>)
        ensures
            r == (if self.map().contains_key(key_index(name)) {
                Some(self.map()[key_index(name)])
            } else {
                None
            }),
    {
        let mut i = self.m.len();
        while i > 0
            invariant
                i <= self.m@.len(),
                forall|j: int| i <= j < self.m@.len() ==> key_index(#[trigger] self.m@[j].0) != key_index(name),
            decreases i,
        {
            if same_key(&self.m[i - 1].0, &name) {
                proof {
                    lemma_repl_map_suffix(self.m@, i as nat, key_index(name));
                    let pre = self.m@.subrange(0, i as int);
                    assert(pre.drop_last() =~= self.m@.subrange(0, i - 1));
                    assert(pre.last() == self.m@[i - 1]);
                }
                return Some(self.m[i - 1].1);
            }
            i = i - 1;
        }
        proof {
            lemma_repl_map_suffix(self.m@, 0, key_index(name));
            assert(self.m@.subrange(0, 0) =~= Seq::<(StringId, Replacement)>::empty());
        }
        None
    }

    /// `t`, at variance `v`, with the temporary variables of this site replaced.
    fn walk(&self, t: &ParsedType, v: Variance) -> (r: ParsedType)
        ensures
            leaf_mapped(*t, r, v, replace_leaf(self.map(), self.site())),
        decreases t,
    {
        let ghost f = replace_leaf(self.map(), self.loc);
        match &t.1 {
            ParsedTypeHead::Case(bs) => {
                let mut out: Vec<(StringId, (Span, Rc<ParsedType>))> = Vec::new();
                let mut i: usize = 0;
                while i < bs.len()
                    invariant
                        t.1 is Case,
                        t.1->Case_0 == *bs,
                        f == replace_leaf(self.map(), self.loc),
                        i <= bs@.len(),
                        out@.len() == i,
                        forall|j: int|
                            0 <= j < i ==> {
                                &&& (#[trigger] out@[j]).0 == bs@[j].0
                                &&& out@[j].1.0 == bs@[j].1.0
                                &&& leaf_mapped(*bs@[j].1.1, *out@[j].1.1, v, f)
                            },
                    decreases bs@.len() - i,
                {
                    proof {
                        broadcast use vstd::std_specs::vec::axiom_vec_index_decreases;

                        assert(decreases_to!(*bs => bs[i as int]));
                    }
                    let child = self.walk(&*bs[i].1.1, v);
                    out.push((bs[i].0, (bs[i].1.0, Rc::new(child))));
                    i = i + 1;
                }
                (t.0, ParsedTypeHead::Case(out))
            },
            ParsedTypeHead::Func(a, r, p) => {
                let a2 = self.walk(&**a, v.flip());
                let r2 = self.walk(&**r, v);
                (t.0, ParsedTypeHead::Func(Rc::new(a2), Rc::new(r2), *p))
            },
            ParsedTypeHead::Record(fs, als, extra) => {
                let mut fs2: Vec<(StringId, (Span, VarianceInvPair))> = Vec::new();
                let mut i: usize = 0;
                while i < fs.len()
                    invariant
                        t.1 is Record,
                        t.1->Record_0 == *fs,
                        f == replace_leaf(self.map(), self.loc),
                        i <= fs@.len(),
                        fs2@.len() == i,
                        forall|j: int|
                            0 <= j < i ==> {
                                &&& (#[trigger] fs2@[j]).0 == fs@[j].0
                                &&& fs2@[j].1.0 == fs@[j].1.0
                                &&& pair_mapped(fs@[j].1.1, fs2@[j].1.1, v, f)
                            },
                    decreases fs@.len() - i,
                {
                    proof {
                        broadcast use vstd::std_specs::vec::axiom_vec_index_decreases;

                        assert(decreases_to!(*fs => fs[i as int]));
                    }
                    let p2 = self.walk_pair(&fs[i].1.1, v);
                    fs2.push((fs[i].0, (fs[i].1.0, p2)));
                    i = i + 1;
                }
                let mut als2: Vec<(StringId, (Span, (Rc<ParsedType>, crate::kinds::KindVar)))> = Vec::new();
                let mut j: usize = 0;
                while j < als.len()
                    invariant
                        t.1 is Record,
                        t.1->Record_1 == *als,
                        f == replace_leaf(self.map(), self.loc),
                        j <= als@.len(),
                        als2@.len() == j,
                        forall|k: int|
                            0 <= k < j ==> {
                                &&& (#[trigger] als2@[k]).0 == als@[k].0
                                &&& als2@[k].1.0 == als@[k].1.0
                                &&& als2@[k].1.1.1@ == als@[k].1.1.1@
                                &&& leaf_mapped(*als@[k].1.1.0, *als2@[k].1.1.0, Variance::Invariant, f)
                            },
                    decreases als@.len() - j,
                {
                    proof {
                        broadcast use vstd::std_specs::vec::axiom_vec_index_decreases;

                        assert(decreases_to!(*als => als[j as int]));
                    }
                    let tree2 = self.walk(&*als[j].1.1.0, Variance::Invariant);
                    let kv = als[j].1.1.1.clone();
                    als2.push((als[j].0, (als[j].1.0, (Rc::new(tree2), kv))));
                    j = j + 1;
                }
                let mut extra2: Vec<(StringId, crate::vec_index::TyConDefInd)> = Vec::new();
                let mut k: usize = 0;
                while k < extra.len()
                    invariant
                        k <= extra@.len(),
                        extra2@ == extra@.subrange(0, k as int),
                    decreases extra@.len() - k,
                {
                    extra2.push(extra[k]);
                    k = k + 1;
                    proof {
                        assert(extra2@ =~= extra@.subrange(0, k as int));
                    }
                }
                proof {
                    assert(extra2@ =~= extra@);
                }
                (t.0, ParsedTypeHead::Record(fs2, als2, extra2))
            },
            ParsedTypeHead::Constructor(c, k, ps) => {
                let c2 = self.walk(&**c, v);
                let mut ps2: Vec<VarianceInvPair> = Vec::new();
                let mut i: usize = 0;
                while i < ps.len()
                    invariant
                        t.1 is Constructor,
                        t.1->Constructor_2 == *ps,
                        f == replace_leaf(self.map(), self.loc),
                        i <= ps@.len(),
                        ps2@.len() == i,
                        forall|j: int| 0 <= j < i ==> pair_mapped(#[trigger] ps@[j], ps2@[j], v, f),
                    decreases ps@.len() - i,
                {
                    proof {
                        broadcast use vstd::std_specs::vec::axiom_vec_index_decreases;

                        assert(decreases_to!(*ps => ps[i as int]));
                    }
                    let p2 = self.walk_pair(&ps[i], v);
                    ps2.push(p2);
                    i = i + 1;
                }
                (t.0, ParsedTypeHead::Constructor(Rc::new(c2), (k.0.clone(), k.1), ps2))
            },
            ParsedTypeHead::RecHead(rh) => {
                let position = if rh.rec_contravariantly {
                    Variance::Invariant
                } else {
                    v
                };
                let body = self.walk(&*rh.body, position);
                (t.0, ParsedTypeHead::RecHead(RecHeadData { loc: rh.loc, rec_contravariantly: rh.rec_contravariantly, body: Rc::new(body) }))
            },
            ParsedTypeHead::RecVar(l) => (t.0, ParsedTypeHead::RecVar(*l)),
            ParsedTypeHead::Type(p) => (t.0, ParsedTypeHead::Type(*p)),
            ParsedTypeHead::Any => (t.0, ParsedTypeHead::Any),
            ParsedTypeHead::Never => (t.0, ParsedTypeHead::Never),
            ParsedTypeHead::SpinePolyVar(n) => (t.0, ParsedTypeHead::SpinePolyVar(*n)),
            ParsedTypeHead::SpineParam(i) => (t.0, ParsedTypeHead::SpineParam(*i)),
            ParsedTypeHead::TempPolyVar(l, names) => {
                let name = names.get(v == Variance::Contravariant);
                proof {
                    assert(name == if v == Variance::Contravariant {
                        write_name(*names)
                    } else {
                        read_name(*names)
                    });
                }
                if *l == self.loc {
                    match self.get(name) {
                        Some(Replacement::Any) => (t.0, ParsedTypeHead::Any),
                        Some(Replacement::Never) => (t.0, ParsedTypeHead::Never),
                        None => (t.0, ParsedTypeHead::TempPolyVar(*l, *names)),
                    }
                } else {
                    (t.0, ParsedTypeHead::TempPolyVar(*l, *names))
                }
            },
        }
    }

    fn walk_pair(&self, p: &VarianceInvPair, v: Variance) -> (r: VarianceInvPair)
        ensures
            pair_mapped(*p, r, v, replace_leaf(self.map(), self.site())),
        decreases p,
    {
        match p {
            VarianceInvPair::Co(x) => VarianceInvPair::Co(Rc::new(self.walk(&**x, v))),
            VarianceInvPair::Contra(x) => VarianceInvPair::Contra(Rc::new(self.walk(&**x, v.flip()))),
            VarianceInvPair::InvSingle(x) => VarianceInvPair::InvSingle(Rc::new(self.walk(&**x, Variance::Invariant))),
            VarianceInvPair::InvPair(x, y) => {
                let x2 = self.walk(&**x, v);
                let y2 = self.walk(&**y, v.flip());
                VarianceInvPair::InvPair(Rc::new(x2), Rc::new(y2))
            },
        }
    }
}

/// The replacement last added for a name, read from the end.
proof fn lemma_repl_map_suffix(s: Seq<(StringId, Replacement)>, i: nat, k: nat)
    requires
        i <= s.len(),
        forall|j: int| i <= j < s.len() ==> key_index(#[trigger] s[j].0) != k,
    ensures
        repl_map(s).contains_key(k) == repl_map(s.subrange(0, i as int)).contains_key(k),
        repl_map(s).contains_key(k) ==> repl_map(s)[k] == repl_map(s.subrange(0, i as int))[k],
    decreases s.len() - i,
{
    if i < s.len() {
        lemma_repl_map_suffix(s, i + 1, k);
        let pre = s.subrange(0, i as int + 1);
        assert(pre.drop_last() =~= s.subrange(0, i as int));
        assert(pre.last() == s[i as int]);
    } else {
        assert(s.subrange(0, i as int) =~= s);
    }
}

/// A type alias of a record: its name, span, type and kind.
pub type AliasEntry = (StringId, (Span, (RcParsedType, KindVar)));

/// `sorted` with `x` inserted after every entry whose name, as `key` gives
/// it, does not come after `x`'s.
pub open spec fn sorted_insert_by<A>(s: Seq<Seq<char>>, sorted: Seq<A>, x: A, key: spec_fn(A) -> StringId) -> Seq<A>
    decreases sorted.len(),
{
    if sorted.len() == 0 {
        seq![x]
    } else if lex_lt(key_text(s, key(x)), key_text(s, key(sorted.last()))) {
        sorted_insert_by(s, sorted.drop_last(), x, key).push(sorted.last())
    } else {
        sorted.push(x)
    }
}

/// The entries sorted by name, as `key` gives it, entries with the same name
/// keeping their order.
pub open spec fn stable_sort_by<A>(s: Seq<Seq<char>>, xs: Seq<A>, key: spec_fn(A) -> StringId) -> Seq<A>
    decreases xs.len(),
{
    if xs.len() == 0 {
        Seq::empty()
    } else {
        sorted_insert_by(s, stable_sort_by(s, xs.drop_last(), key), xs.last(), key)
    }
}

/// The name of a type alias.
pub open spec fn alias_name(a: AliasEntry) -> StringId {
    a.0
}

/// `sorted` with the alias `x` inserted after every alias whose name does not
/// come after `x`'s.
pub open spec fn sorted_insert(s: Seq<Seq<char>>, sorted: Seq<AliasEntry>, x: AliasEntry) -> Seq<AliasEntry> {
    sorted_insert_by(s, sorted, x, |a: AliasEntry| alias_name(a))
}

/// The aliases sorted by name, aliases with the same name keeping their order.
pub open spec fn stable_sort(s: Seq<Seq<char>>, xs: Seq<AliasEntry>) -> Seq<AliasEntry> {
    stable_sort_by(s, xs, |a: AliasEntry| alias_name(a))
}

/// Inserts `x` into `out` after every entry whose name does not come after its name.
fn insert_alias(strings: &lasso::Rodeo, out: &mut Vec<AliasEntry>, x: AliasEntry)
    requires
        key_valid(interned(*strings), x.0),
        forall|i: int| 0 <= i < old(out)@.len() ==> key_valid(interned(*strings), #[trigger] old(out)@[i].0),
    ensures
        final(out)@ == sorted_insert(interned(*strings), old(out)@, x),
{
    let ghost st = interned(*strings);
    let ghost o = out@;
    let xt = resolve(strings, &x.0);
    let mut p = out.len();
    proof {
        assert(o.subrange(0, p as int) =~= o);
        assert(o.subrange(p as int, o.len() as int) =~= Seq::<AliasEntry>::empty());
        assert(sorted_insert(st, o, x) =~= sorted_insert(st, o.subrange(0, p as int), x) + o.subrange(p as int, o.len() as int));
    }
    loop
        invariant
            *out == *old(out),
            o == old(out)@,
            st == interned(*strings),
            xt@ == key_text(st, x.0),
            p <= o.len(),
            forall|i: int| 0 <= i < o.len() ==> key_valid(st, #[trigger] o[i].0),
            sorted_insert(st, o, x) == sorted_insert(st, o.subrange(0, p as int), x) + o.subrange(p as int, o.len() as int),
        ensures
            p <= o.len(),
            sorted_insert(st, o, x) == sorted_insert(st, o.subrange(0, p as int), x) + o.subrange(p as int, o.len() as int),
            p == 0 || !lex_lt(key_text(st, x.0), key_text(st, o[p - 1].0)),
        decreases p,
    {
        if p == 0 {
            break;
        }
        let yt = resolve(strings, &out[p - 1].0);
        if !str_lt(xt, yt) {
            break;
        }
        proof {
            let pre = o.subrange(0, p as int);
            assert(pre.drop_last() =~= o.subrange(0, p - 1));
            assert(pre.last() == o[p - 1]);
            assert(sorted_insert(st, pre, x) == sorted_insert(st, o.subrange(0, p - 1), x).push(o[p - 1]));
            assert(sorted_insert(st, o.subrange(0, p - 1), x).push(o[p - 1]) + o.subrange(p as int, o.len() as int)
                =~= sorted_insert(st, o.subrange(0, p - 1), x) + o.subrange(p - 1, o.len() as int));
        }
        p = p - 1;
    }
    out.insert(p, x);
    proof {
        let pre = o.subrange(0, p as int);
        if p == 0 {
            assert(pre =~= Seq::<AliasEntry>::empty());
        } else {
            assert(pre.last() == o[p - 1]);
            assert(sorted_insert(st, pre, x) == pre.push(x));
        }
        assert(out@ =~= sorted_insert(st, pre, x) + o.subrange(p as int, o.len() as int));
    }
}

/// What becomes of a type parameter: it stays, or it is replaced by the given
/// type in the template and kept as a type alias standing for the second one,
/// or it is dropped.
pub enum ParamFate {
    Keep,
    Replace(Replacement, Replacement),
    Drop,
}

/// The fate of the type parameter `name`, from its uses `u`: one used as part
/// of an invariant pair, or used both ways, stays; one used only covariantly
/// becomes the top type in a record and the bottom type in a function, one used
/// only contravariantly the other way round, and an unused one is dropped.
pub open spec fn fate(u: UsesView, name: StringId, is_record: bool) -> ParamFate {
    let k = key_index(name);
    if u.pairs.contains(k) {
        ParamFate::Keep
    } else if u.cov.contains_key(k) && u.contra.contains_key(k) {
        ParamFate::Keep
    } else if u.cov.contains_key(k) {
        ParamFate::Replace(
            if is_record {
                Replacement::Any
            } else {
                Replacement::Never
            },
            Replacement::Any,
        )
    } else if u.contra.contains_key(k) {
        ParamFate::Replace(
            if is_record {
                Replacement::Never
            } else {
                Replacement::Any
            },
            Replacement::Never,
        )
    } else {
        ParamFate::Drop
    }
}

/// The parameters that stay, in order.
pub open spec fn kept_params(u: UsesView, ps: Seq<(StringId, Span, SKind)>, is_record: bool) -> Seq<(StringId, Span, SKind)>
    decreases ps.len(),
{
    if ps.len() == 0 {
        Seq::empty()
    } else {
        kept_params(u, ps.drop_last(), is_record) + (if fate(u, ps.last().0, is_record) is Keep {
            seq![ps.last()]
        } else {
            Seq::empty()
        })
    }
}

/// The replacement chosen for each replaced parameter, the last one winning.
pub open spec fn repl_of(u: UsesView, ps: Seq<(StringId, Span, SKind)>, is_record: bool) -> Map<nat, Replacement>
    decreases ps.len(),
{
    if ps.len() == 0 {
        Map::empty()
    } else {
        match fate(u, ps.last().0, is_record) {
            ParamFate::Replace(r, _) => repl_of(u, ps.drop_last(), is_record).insert(key_index(ps.last().0), r),
            _ => repl_of(u, ps.drop_last(), is_record),
        }
    }
}

/// The replaced parameters in order, each with the type its alias stands for.
pub open spec fn replaced_params(u: UsesView, ps: Seq<(StringId, Span, SKind)>, is_record: bool) -> Seq<((StringId, Span, SKind), Replacement)>
    decreases ps.len(),
{
    if ps.len() == 0 {
        Seq::empty()
    } else {
        replaced_params(u, ps.drop_last(), is_record) + match fate(u, ps.last().0, is_record) {
            ParamFate::Replace(_, h) => seq![(ps.last(), h)],
            _ => Seq::empty(),
        }
    }
}

/// The type alias added for a replaced parameter: its name and span, the type
/// it was replaced with, and its kind.
pub open spec fn alias_for(e: AliasEntry, p: ((StringId, Span, SKind), Replacement)) -> bool {
    &&& e.0 == p.0.0
    &&& e.1.0 == p.0.1
    &&& *e.1.1.0 == (p.0.1, replacement_head(p.1))
    &&& e.1.1.1 == KindVar::Known(p.0.2)
}


/// The type a shared pointer points to.
pub open spec fn pointee(t: &RcParsedType) -> ParsedType {
    **t
}

/// The value behind a reference.
pub open spec fn value_of(t: &ParsedType) -> ParsedType {
    *t
}

/// The uses of the variables of `tree` defined at `loc`, as a walk records them.
pub open spec fn uses_of(tree: ParsedType, loc: SourceLoc) -> UsesView {
    uses_after(
        UsesView { loc: Some(loc), cov: Map::empty(), contra: Map::empty(), pairs: Set::empty() },
        leaves(tree, Variance::Covariant),
        leaves(tree, Variance::Covariant).len(),
    )
}

/// The replaced parameters are parameters, so their names are held when all are.
proof fn lemma_replaced_keys(st: Seq<Seq<char>>, u: UsesView, ps: Seq<(StringId, Span, SKind)>, is_record: bool)
    requires
        forall|i: int| 0 <= i < ps.len() ==> key_valid(st, #[trigger] ps[i].0),
    ensures
        forall|j: int|
            0 <= j < replaced_params(u, ps, is_record).len() ==> key_valid(st, #[trigger] replaced_params(u, ps, is_record)[j].0.0),
    decreases ps.len(),
{
    if ps.len() > 0 {
        lemma_replaced_keys(st, u, ps.drop_last(), is_record);
        assert(ps.last() == ps[ps.len() - 1]);
        let pre = replaced_params(u, ps.drop_last(), is_record);
        let r = replaced_params(u, ps, is_record);
        assert forall|j: int| 0 <= j < r.len() implies key_valid(st, #[trigger] r[j].0.0) by {
            if j < pre.len() {
                assert(r[j] == pre[j]);
            }
        }
    }
}

/// A parameter is replaced exactly when it gets a replacement.
proof fn lemma_repl_empty(u: UsesView, ps: Seq<(StringId, Span, SKind)>, is_record: bool)
    ensures
        (replaced_params(u, ps, is_record).len() == 0) == (repl_of(u, ps, is_record) == Map::<nat, Replacement>::empty()),
    decreases ps.len(),
{
    if ps.len() > 0 {
        lemma_repl_empty(u, ps.drop_last(), is_record);
        match fate(u, ps.last().0, is_record) {
            ParamFate::Replace(r, _) => {
                assert(repl_of(u, ps, is_record).contains_key(key_index(ps.last().0)));
            },
            _ => {
                assert(replaced_params(u, ps, is_record) =~= replaced_params(u, ps.drop_last(), is_record));
            },
        }
    }
}

/// Drops the type parameters of a polymorphic type defined at `loc` that its
/// type does not need. A parameter used only covariantly or only
/// contravariantly is replaced in the type by the top or bottom type, as `fate`
/// tells, and a record keeps it as a type alias standing for the top or bottom
/// type; an unused one is dropped; the others stay, in order. The aliases of a
/// record are then sorted by name again.
pub fn prune_unused_poly_vars(
    strings: &lasso::Rodeo,
    loc: SourceLoc,
    ty: &mut RcParsedType,
    tparams: &mut Vec<(StringId, Span, SKind)>,
) -> (r: Result<(), ICE>)
    requires
        ((**old(ty)).1 is Record && replaced_params(uses_of(**old(ty), loc), old(tparams)@, true).len() > 0) ==> {
            &&& forall|i: int|
                0 <= i < (**old(ty)).1->Record_1@.len() ==> key_valid(interned(*strings), #[trigger] (**old(ty)).1->Record_1@[i].0)
            &&& forall|i: int| 0 <= i < old(tparams)@.len() ==> key_valid(interned(*strings), #[trigger] old(tparams)@[i].0)
        },
    ensures
        r is Ok,
        ({
            let u = uses_of(**old(ty), loc);
            let rec = (**old(ty)).1 is Record;
            let m = repl_of(u, old(tparams)@, rec);
            let reps = replaced_params(u, old(tparams)@, rec);
            &&& final(tparams)@ == kept_params(u, old(tparams)@, rec)
            &&& reps.len() == 0 ==> **final(ty) == **old(ty)
            &&& reps.len() > 0 && !rec ==> leaf_mapped(**old(ty), **final(ty), Variance::Covariant, replace_leaf(m, loc))
            &&& reps.len() > 0 && rec ==> exists|w: ParsedType, added: Seq<AliasEntry>|
                {
                    &&& leaf_mapped(**old(ty), w, Variance::Covariant, replace_leaf(m, loc))
                    &&& w.1 is Record
                    &&& added.len() == reps.len()
                    &&& forall|j: int| 0 <= j < added.len() ==> alias_for(#[trigger] added[j], reps[j])
                    &&& (**final(ty)).0 == w.0
                    &&& (**final(ty)).1 is Record
                    &&& (**final(ty)).1->Record_0 == w.1->Record_0
                    &&& (**final(ty)).1->Record_2 == w.1->Record_2
                    &&& (**final(ty)).1->Record_1@ == stable_sort(interned(*strings), w.1->Record_1@ + added)
                }
        }),
{
    let ghost st = interned(*strings);
    let ghost t0 = pointee(&*ty);
    let usage = PolyVarUses::new(Some(loc)).walk(&**ty);
    let ghost u = usage@;
    proof {
        assert(u == uses_of(t0, loc));
    }
    let is_record = match &ty.1 {
        ParsedTypeHead::Record(..) => true,
        _ => false,
    };
    let mut repl = VarReplacements::new(loc);
    let mut added: Vec<AliasEntry> = Vec::new();
    let mut kept: Vec<(StringId, Span, SKind)> = Vec::new();
    let mut rest: Vec<(StringId, Span, SKind)> = Vec::new();
    std::mem::swap(tparams, &mut rest);
    let ghost ps = rest@;
    let ghost mut i: int = 0;
    proof {
        assert(ps.subrange(0, 0) =~= Seq::<(StringId, Span, SKind)>::empty());
        assert(ps.subrange(0, ps.len() as int) =~= ps);
    }
    while rest.len() > 0
        invariant
            usage.wf(),
            usage@ == u,
            is_record == (t0.1 is Record),
            0 <= i <= ps.len(),
            rest@ == ps.subrange(i, ps.len() as int),
            kept@ == kept_params(u, ps.subrange(0, i), is_record),
            repl.map() == repl_of(u, ps.subrange(0, i), is_record),
            repl.site() == loc,
            added@.len() == replaced_params(u, ps.subrange(0, i), is_record).len(),
            forall|j: int|
                0 <= j < added@.len() ==> alias_for(#[trigger] added@[j], replaced_params(u, ps.subrange(0, i), is_record)[j]),
        decreases rest@.len(),
    {
        let p = rest.remove(0);
        let ghost pre = ps.subrange(0, i);
        let ghost next = ps.subrange(0, i + 1);
        proof {
            assert(p == ps[i]);
            assert(next.drop_last() =~= pre);
            assert(next.last() == p);
        }
        let (name, span, kind) = p;
        let keep = if usage.is_pair_var(name) {
            true
        } else {
            usage.get_co(name).is_some() && usage.get_contra(name).is_some()
        };
        if keep {
            kept.push((name, span, kind));
            proof {
                assert(fate(u, name, is_record) is Keep);
                assert(kept@ =~= kept_params(u, next, is_record));
                assert(replaced_params(u, next, is_record) =~= replaced_params(u, pre, is_record));
            }
        } else if usage.get_co(name).is_some() {
            let in_tree = if is_record {
                Replacement::Any
            } else {
                Replacement::Never
            };
            repl.add(name, in_tree);
            let ghost before = added@;
            added.push((name, (span, (Rc::new((span, ParsedTypeHead::Any)), KindVar::Known(kind)))));
            proof {
                assert(fate(u, name, is_record) == ParamFate::Replace(in_tree, Replacement::Any));
                assert(kept@ =~= kept_params(u, next, is_record));
                assert(replaced_params(u, next, is_record) =~= replaced_params(u, pre, is_record).push((ps[i], Replacement::Any)));
                assert forall|j: int| 0 <= j < added@.len() implies alias_for(#[trigger] added@[j], replaced_params(u, next, is_record)[j]) by {
                    if j < before.len() {
                        assert(added@[j] == before[j]);
                    }
                }
            }
        } else if usage.get_contra(name).is_some() {
            let in_tree = if is_record {
                Replacement::Never
            } else {
                Replacement::Any
            };
            repl.add(name, in_tree);
            let ghost before = added@;
            added.push((name, (span, (Rc::new((span, ParsedTypeHead::Never)), KindVar::Known(kind)))));
            proof {
                assert(fate(u, name, is_record) == ParamFate::Replace(in_tree, Replacement::Never));
                assert(kept@ =~= kept_params(u, next, is_record));
                assert(replaced_params(u, next, is_record) =~= replaced_params(u, pre, is_record).push((ps[i], Replacement::Never)));
                assert forall|j: int| 0 <= j < added@.len() implies alias_for(#[trigger] added@[j], replaced_params(u, next, is_record)[j]) by {
                    if j < before.len() {
                        assert(added@[j] == before[j]);
                    }
                }
            }
        } else {
            proof {
                assert(fate(u, name, is_record) is Drop);
                assert(kept@ =~= kept_params(u, next, is_record));
                assert(replaced_params(u, next, is_record) =~= replaced_params(u, pre, is_record));
            }
        }
        proof {
            i = i + 1;
            assert(rest@ =~= ps.subrange(i, ps.len() as int));
        }
    }
    proof {
        assert(ps.subrange(0, i) =~= ps);
        lemma_repl_empty(u, ps, is_record);
    }
    *tparams = kept;
    if repl.is_empty() {
        return Ok(());
    }
    let walked = repl.walk(&**ty, Variance::Covariant);
    if is_record && added.len() > 0 {
        let ghost w = value_of(&walked);
        let (span, head) = walked;
        match head {
            ParsedTypeHead::Record(fs, als, ex) => {
                let ghost all = als@ + added@;
                proof {
                    let reps = replaced_params(u, ps, is_record);
                    lemma_replaced_keys(st, u, ps, is_record);
                    assert forall|j: int| 0 <= j < all.len() implies key_valid(st, #[trigger] all[j].0) by {
                        if j < als@.len() {
                            assert(all[j] == als@[j]);
                            assert(als@[j].0 == t0.1->Record_1@[j].0);
                        } else {
                            assert(all[j] == added@[j - als@.len()]);
                            assert(alias_for(added@[j - als@.len()], reps[j - als@.len()]));
                        }
                    }
                }
                let mut out: Vec<AliasEntry> = Vec::new();
                let mut src = als;
                let ghost mut n: int = 0;
                proof {
                    assert(all.subrange(0, 0) =~= Seq::<AliasEntry>::empty());
                }
                while src.len() > 0
                    invariant
                        0 <= n <= w.1->Record_1@.len(),
                        w.1 is Record,
                        all == w.1->Record_1@ + added@,
                        src@ == w.1->Record_1@.subrange(n, w.1->Record_1@.len() as int),
                        out@ == stable_sort(st, all.subrange(0, n)),
                        st == interned(*strings),
                        forall|j: int| 0 <= j < all.len() ==> key_valid(st, #[trigger] all[j].0),
                    decreases src@.len(),
                {
                    let e = src.remove(0);
                    proof {
                        assert(e == all[n]);
                        let nx = all.subrange(0, n + 1);
                        assert(nx.drop_last() =~= all.subrange(0, n));
                        assert(nx.last() == e);
                        lemma_stable_sort_keys(st, all.subrange(0, n));
                    }
                    insert_alias(strings, &mut out, e);
                    proof {
                        n = n + 1;
                        assert(src@ =~= w.1->Record_1@.subrange(n, w.1->Record_1@.len() as int));
                    }
                }
                let ghost base = w.1->Record_1@.len() as int;
                let ghost added0 = added@;
                let mut src2 = added;
                let ghost mut k: int = 0;
                while src2.len() > 0
                    invariant
                        w.1 is Record,
                        base == w.1->Record_1@.len(),
                        all == w.1->Record_1@ + added0,
                        0 <= k <= added0.len(),
                        src2@ == added0.subrange(k, added0.len() as int),
                        out@ == stable_sort(st, all.subrange(0, base + k)),
                        st == interned(*strings),
                        forall|j: int| 0 <= j < all.len() ==> key_valid(st, #[trigger] all[j].0),
                    decreases src2@.len(),
                {
                    let e = src2.remove(0);
                    proof {
                        assert(e == all[base + k]);
                        let nx = all.subrange(0, base + k + 1);
                        assert(nx.drop_last() =~= all.subrange(0, base + k));
                        assert(nx.last() == e);
                        lemma_stable_sort_keys(st, all.subrange(0, base + k));
                    }
                    insert_alias(strings, &mut out, e);
                    proof {
                        k = k + 1;
                        assert(src2@ =~= added0.subrange(k, added0.len() as int));
                    }
                }
                proof {
                    assert(all.subrange(0, base + added0.len()) =~= all);
                }
                *ty = Rc::new((span, ParsedTypeHead::Record(fs, out, ex)));
                proof {
                    assert(leaf_mapped(t0, w, Variance::Covariant, replace_leaf(repl_of(u, ps, is_record), loc)));
                }
            },
            _ => {
                return Err(ice());
            },
        }
    } else {
        *ty = Rc::new(walked);
    }
    Ok(())
}

/// Inserting keeps the entries, so their names stay held by the interner.
proof fn lemma_sorted_insert_keys(s: Seq<Seq<char>>, sorted: Seq<AliasEntry>, x: AliasEntry)
    requires
        forall|i: int| 0 <= i < sorted.len() ==> key_valid(s, #[trigger] sorted[i].0),
        key_valid(s, x.0),
    ensures
        sorted_insert(s, sorted, x).len() == sorted.len() + 1,
        forall|j: int| 0 <= j < sorted_insert(s, sorted, x).len() ==> key_valid(s, #[trigger] sorted_insert(s, sorted, x)[j].0),
    decreases sorted.len(),
{
    if sorted.len() > 0 && lex_lt(key_text(s, x.0), key_text(s, sorted.last().0)) {
        lemma_sorted_insert_keys(s, sorted.drop_last(), x);
        let r = sorted_insert(s, sorted, x);
        let inner = sorted_insert(s, sorted.drop_last(), x);
        assert forall|j: int| 0 <= j < r.len() implies key_valid(s, #[trigger] r[j].0) by {
            if j < inner.len() {
                assert(r[j] == inner[j]);
            } else {
                assert(r[j] == sorted[sorted.len() - 1]);
            }
        }
    } else if sorted.len() > 0 {
        let r = sorted_insert(s, sorted, x);
        assert forall|j: int| 0 <= j < r.len() implies key_valid(s, #[trigger] r[j].0) by {
            if j < sorted.len() {
                assert(r[j] == sorted[j]);
            }
        }
    }
}

/// Sorting keeps the entries, so their names stay held by the interner.
proof fn lemma_stable_sort_keys(s: Seq<Seq<char>>, xs: Seq<AliasEntry>)
    requires
        forall|i: int| 0 <= i < xs.len() ==> key_valid(s, #[trigger] xs[i].0),
    ensures
        stable_sort(s, xs).len() == xs.len(),
        forall|j: int| 0 <= j < stable_sort(s, xs).len() ==> key_valid(s, #[trigger] stable_sort(s, xs)[j].0),
    decreases xs.len(),
{
    if xs.len() > 0 {
        lemma_stable_sort_keys(s, xs.drop_last());
        assert(xs.last() == xs[xs.len() - 1]);
        lemma_sorted_insert_keys(s, stable_sort(s, xs.drop_last()), xs.last());
    }
}
} // verus!

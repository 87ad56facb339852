use crate::reachability::EdgeDataTrait;
use crate::spans::Span;
use crate::type_errors::HoleSrc;
use crate::ast::StringId;
use crate::reachability::{closed_edges, Reachability};
use crate::types::{
    ConstructorData, EphemeralPolyType, TyConArena, TyConDef, UTypeHead, UTypeNode, Use, UseSrc, VTypeHead,
    VTypeNode, Value,
};
use crate::unification::UnificationCallback;
use crate::spans::{ice, ICE};
use crate::vec_index::{NodeIndex, TyConDefInd, TypeNodeInd, INDEX_LIMIT};
use vstd::prelude::*;

verus! {

/// Tracks which types were in scope when a given hole was created: a counter
/// that goes up whenever types are added to the bindings.
#[derive(Copy, Clone, Debug, PartialEq, Eq, Structural, PartialOrd, Ord)]
pub struct ScopeLvl(pub u32);

impl ScopeLvl {
    /// The level of the outermost scope.
    pub fn min_level() -> (r: Self)
        ensures
            r.0 == 0,
    {
        ScopeLvl(0)
    }

    pub fn inc(&mut self)
        requires
            old(self).0 < u32::MAX,
        ensures
            final(self).0 == old(self).0 + 1,
    {
        self.0 = self.0 + 1;
    }

    pub fn incremented(&self) -> (r: Self)
        requires
            self.0 < u32::MAX,
        ensures
            r.0 == self.0 + 1,
    {
        ScopeLvl(self.0 + 1)
    }
}

/// The level above every scope: the level of edges that no hole constrains.
pub fn no_holes() -> (r: ScopeLvl)
    ensures
        r.0 == u32::MAX,
{
    ScopeLvl(u32::MAX)
}

/// What is known of an inference variable.
#[derive(Debug, Clone, Copy)]
pub struct InferenceVarData {
    pub scopelvl: ScopeLvl,
    pub src: HoleSrc,
}

/// A node of the type graph.
pub enum TypeNode {
    /// An inference variable.
    Var(InferenceVarData),
    Value(VTypeNode),
    Use(UTypeNode),
    /// A use type that unification fills in when the first value reaches it.
    LazyUse(Option<UnificationCallback>, Span),
    /// A node reserved for a type that is set later; none is left once flow
    /// edges are checked.
    Placeholder,
}

/// Why a flow edge was added, so that errors can be traced back.
#[derive(Debug, Clone, Copy)]
pub enum FlowReason {
    Root(Span),
    Transitivity(TypeNodeInd),
    Check(Value, Use),
}

/// The data of an edge of the type graph: the lowest scope level among the
/// holes it passes through, and why it was added.
#[derive(Debug, Clone, Copy)]
pub struct TypeEdge {
    pub scopelvl: ScopeLvl,
    pub reason: FlowReason,
}

impl TypeEdge {
    /// An edge asked for directly by the program at `span`.
    pub open spec fn root_spec(span: Span) -> Self {
        TypeEdge { scopelvl: ScopeLvl(u32::MAX), reason: FlowReason::Root(span) }
    }

    pub fn root(span: Span) -> (r: Self)
        ensures
            r == Self::root_spec(span),
            r.scopelvl.0 == u32::MAX,
            r.reason == FlowReason::Root(span),
    {
        TypeEdge { scopelvl: no_holes(), reason: FlowReason::Root(span) }
    }
}

/// The smaller of two scope levels.
pub open spec fn min_level(a: u32, b: u32) -> u32 {
    if a < b {
        a
    } else {
        b
    }
}

impl EdgeDataTrait<TypeNodeInd, TypeNode> for TypeEdge {
    open spec fn rank(&self) -> nat {
        self.scopelvl.0 as nat
    }

    open spec fn rank_limit() -> nat {
        u32::MAX as nat
    }

    proof fn lemma_rank_limit(e: Self) {
    }

    open spec fn improves(&self, other: &Self) -> bool {
        other.scopelvl.0 < self.scopelvl.0
    }

    open spec fn via(&self, hole: TypeNode, ind: TypeNodeInd, connecting: Self) -> Self {
        TypeEdge {
            scopelvl: ScopeLvl(
                match hole {
                    TypeNode::Var(d) => min_level(min_level(self.scopelvl.0, connecting.scopelvl.0), d.scopelvl.0),
                    _ => min_level(self.scopelvl.0, connecting.scopelvl.0),
                },
            ),
            reason: FlowReason::Transitivity(ind),
        }
    }

    /// Keeps the lower scope level of the two edges, with its reason.
    fn update(&mut self, other: &Self) -> (changed: bool)
        ensures
            changed == (other.scopelvl.0 < old(self).scopelvl.0),
            changed ==> final(self).scopelvl == other.scopelvl && final(self).reason == other.reason,
    {
        let mut changed = false;
        if other.scopelvl.0 < self.scopelvl.0 {
            self.scopelvl = other.scopelvl;
            self.reason = other.reason;
            changed = true;
        }
        changed
    }

    /// The edge through the node `ind`: its level is the lowest of the two
    /// edges and of the node, when the node is an inference variable.
    fn with_intermediate_node(&self, hole: &TypeNode, ind: TypeNodeInd, connecting_edge: &Self) -> (r: Self)
        ensures
            r.reason == FlowReason::Transitivity(ind),
            r.scopelvl.0 == match hole {
                TypeNode::Var(d) => min_level(
                    min_level(self.scopelvl.0, connecting_edge.scopelvl.0),
                    d.scopelvl.0,
                ),
                _ => min_level(self.scopelvl.0, connecting_edge.scopelvl.0),
            },
    {
        let mut scopelvl = if self.scopelvl.0 < connecting_edge.scopelvl.0 {
            self.scopelvl
        } else {
            connecting_edge.scopelvl
        };
        if let TypeNode::Var(d) = hole {
            if d.scopelvl.0 < scopelvl.0 {
                scopelvl = d.scopelvl;
            }
        }
        TypeEdge { scopelvl, reason: FlowReason::Transitivity(ind) }
    }
}

/// An edge made through a node is no higher than either edge it joins, nor
/// than the level of the node when the node is an inference variable, and it
/// records the node it goes through.
pub proof fn law_edge_through_node(e1: TypeEdge, hole: TypeNode, ind: TypeNodeInd, e2: TypeEdge)
    ensures
        e1.via(hole, ind, e2).scopelvl.0 <= e1.scopelvl.0,
        e1.via(hole, ind, e2).scopelvl.0 <= e2.scopelvl.0,
        hole matches TypeNode::Var(d) ==> e1.via(hole, ind, e2).scopelvl.0 <= d.scopelvl.0,
        e1.via(hole, ind, e2).scopelvl.0 == e1.scopelvl.0 || e1.via(hole, ind, e2).scopelvl.0 == e2.scopelvl.0 || (
        hole matches TypeNode::Var(d) && e1.via(hole, ind, e2).scopelvl.0 == d.scopelvl.0),
        e1.via(hole, ind, e2).reason == FlowReason::Transitivity(ind),
{
}


/// The node data after the lazy use nodes that unification filled in, as the
/// log records them in order, are made lazy again: each logged node that now
/// holds a use type gets back its callback, with the use type's span.
pub open spec fn restore_lazy(nodes: Seq<TypeNode>, log: Seq<(TypeNodeInd, UnificationCallback)>) -> Seq<TypeNode>
    decreases log.len(),
{
    if log.len() == 0 {
        nodes
    } else {
        let prev = restore_lazy(nodes, log.drop_last());
        let i = log.last().0@ as int;
        if i < prev.len() && prev[i] is Use {
            prev.update(i, TypeNode::LazyUse(Some(log.last().1), prev[i]->Use_0.1))
        } else {
            prev
        }
    }
}

/// The uses of `s` ordered by strictly increasing index.
pub open spec fn strictly_increasing(s: Seq<Use>) -> bool {
    forall|i: int, j: int| 0 <= i < j < s.len() ==> (#[trigger] s[i]).0@ < (#[trigger] s[j]).0@
}

/// The distinct uses of `v` other than the top type, by increasing index.
pub open spec fn distinct_uses(v: Seq<Use>) -> Seq<Use> {
    choose|w: Seq<Use>|
        strictly_increasing(w) && forall|x: Use| w.contains(x) <==> (v.contains(x) && x.0@ != INDEX_LIMIT)
}

/// Two increasing sequences with the same elements are equal.
proof fn lemma_increasing_unique(a: Seq<Use>, b: Seq<Use>)
    requires
        strictly_increasing(a),
        strictly_increasing(b),
        forall|x: Use| a.contains(x) <==> b.contains(x),
    ensures
        a == b,
    decreases a.len() + b.len(),
{
    if a.len() == 0 {
        if b.len() > 0 {
            assert(b.contains(b[0]));
        }
        assert(b =~= a);
    } else if b.len() == 0 {
        assert(a.contains(a[0]));
    } else {
        let la = a.last();
        let lb = b.last();
        assert(a.contains(la));
        assert(b.contains(lb));
        let ja = choose|j: int| 0 <= j < a.len() && a[j] == lb;
        let jb = choose|j: int| 0 <= j < b.len() && b[j] == la;
        if la.0@ < lb.0@ {
            assert(a[ja].0@ <= la.0@) by {
                if ja < a.len() - 1 {
                    assert(a[ja].0@ < a[a.len() - 1].0@);
                }
            }
        } else if lb.0@ < la.0@ {
            assert(b[jb].0@ <= lb.0@) by {
                if jb < b.len() - 1 {
                    assert(b[jb].0@ < b[b.len() - 1].0@);
                }
            }
        }
        assert(la.0 == lb.0);
        assert(la == lb);
        let a2 = a.drop_last();
        let b2 = b.drop_last();
        assert forall|x: Use| a2.contains(x) <==> b2.contains(x) by {
            if a2.contains(x) {
                let j = choose|j: int| 0 <= j < a2.len() && a2[j] == x;
                assert(a[j].0@ < a[a.len() - 1].0@);
                assert(b.contains(x));
                let jj = choose|jj: int| 0 <= jj < b.len() && b[jj] == x;
                if jj == b.len() - 1 {
                    assert(false);
                }
                assert(b2[jj] == x);
            }
            if b2.contains(x) {
                let j = choose|j: int| 0 <= j < b2.len() && b2[j] == x;
                assert(b[j].0@ < b[b.len() - 1].0@);
                assert(a.contains(x));
                let jj = choose|jj: int| 0 <= jj < a.len() && a[jj] == x;
                if jj == a.len() - 1 {
                    assert(false);
                }
                assert(a2[jj] == x);
            }
        }
        lemma_increasing_unique(a2, b2);
        assert(a =~= a2.push(la));
        assert(b =~= b2.push(lb));
    }
}

/// An increasing sequence with the distinct uses of `v` is `distinct_uses(v)`.
proof fn lemma_distinct_unique(w: Seq<Use>, d: Seq<Use>, v: Seq<Use>)
    requires
        d == distinct_uses(v),
        strictly_increasing(w),
        forall|x: Use| w.contains(x) <==> (v.contains(x) && x.0@ != INDEX_LIMIT),
    ensures
        w == d,
{
    assert(strictly_increasing(d) && forall|x: Use| d.contains(x) <==> (v.contains(x) && x.0@ != INDEX_LIMIT));
    lemma_increasing_unique(w, d);
}

/// Inserts `x` into the increasing `w` at its place, unless it is there.
fn insert_distinct(w: &mut Vec<Use>, x: Use)
    requires
        strictly_increasing(old(w)@),
    ensures
        strictly_increasing(final(w)@),
        forall|y: Use| #[trigger] final(w)@.contains(y) <==> (old(w)@.contains(y) || y == x),
{
    let mut p: usize = 0;
    while p < w.len() && w[p].0.i() < x.0.i()
        invariant
            p <= w@.len(),
            w@ == old(w)@,
            forall|j: int| 0 <= j < p ==> (#[trigger] w@[j]).0@ < x.0@,
        decreases w@.len() - p,
    {
        p = p + 1;
    }
    if p < w.len() && w[p].0.i() == x.0.i() {
        proof {
            TypeNodeInd::lemma_view_injective(w@[p as int].0, x.0);
            assert(w@[p as int] == x);
            assert(w@.contains(x));
            assert forall|y: Use| w@.contains(y) <==> (old(w)@.contains(y) || y == x) by {}
        }
        return;
    }
    let ghost before = w@;
    assert(before == old(w)@);
    w.insert(p, x);
    proof {
        assert(w@ == before.insert(p as int, x));
        assert forall|i: int, j: int| 0 <= i < j < w@.len() implies (#[trigger] w@[i]).0@ < (#[trigger] w@[j]).0@ by {
            if j < p {
                assert(w@[i] == before[i] && w@[j] == before[j]);
            } else if j == p {
                assert(w@[i] == before[i]);
            } else if i == p {
                assert(w@[j] == before[j - 1]);
                if j - 1 > p {
                    assert(before[p as int].0@ < before[j - 1].0@);
                }
            } else if i < p {
                assert(w@[i] == before[i] && w@[j] == before[j - 1]);
            } else {
                assert(w@[i] == before[i - 1] && w@[j] == before[j - 1]);
            }
        }
        assert forall|y: Use| w@.contains(y) <==> (before.contains(y) || y == x) by {
            if w@.contains(y) {
                let j = choose|j: int| 0 <= j < w@.len() && w@[j] == y;
                if j < p {
                    assert(before[j] == y);
                } else if j > p {
                    assert(before[j - 1] == y);
                }
            }
            if before.contains(y) {
                let j = choose|j: int| 0 <= j < before.len() && before[j] == y;
                if j < p {
                    assert(w@[j] == y);
                } else {
                    assert(w@[j + 1] == y);
                }
            }
            if y == x {
                assert(w@[p as int] == x);
            }
        }
        assert(forall|y: Use| #[trigger] w@.contains(y) <==> (old(w)@.contains(y) || y == x));
    }
}

/// Whether `ty` is a hole whose source has a lower priority than `src`.
pub open spec fn lower_priority_hole(nodes: Seq<TypeNode>, ty: Value, src: HoleSrc) -> bool {
    &&& ty.0@ < nodes.len()
    &&& match nodes[ty.0@ as int] {
        TypeNode::Var(d) => src.priority_spec() > d.src.priority_spec(),
        _ => false,
    }
}

/// Whether node `i` is a placeholder.
pub open spec fn is_placeholder(nodes: Seq<TypeNode>, i: TypeNodeInd) -> bool {
    i@ < nodes.len() && nodes[i@ as int] is Placeholder
}

proof fn lemma_restore_len(nodes: Seq<TypeNode>, log: Seq<(TypeNodeInd, UnificationCallback)>)
    ensures
        restore_lazy(nodes, log).len() == nodes.len(),
    decreases log.len(),
{
    if log.len() > 0 {
        lemma_restore_len(nodes, log.drop_last());
    }
}

/// The type graph, the type constructors, and the flow edges still to be checked.
pub struct TypeCheckerCore {
    pub r: Reachability<TypeNodeInd, TypeNode, TypeEdge>,
    pub tycons: TyConArena,
    pub pending_edges: Vec<(Value, Use, TypeEdge)>,
    pub mutation_log: Vec<(TypeNodeInd, UnificationCallback)>,
}

impl TypeCheckerCore {
    pub open spec fn wf(&self) -> bool {
        self.r.wf()
    }

    /// The data of the nodes, by index.
    pub open spec fn nodes(&self) -> Seq<TypeNode> {
        self.r.data_seq()
    }

    /// Whether one more node can be added: the next index still fits.
    pub open spec fn has_room(&self) -> bool {
        self.r.len_spec() <= INDEX_LIMIT
    }

    /// The lazy use nodes below the saved point that unification has filled
    /// in since, with their callbacks.
    pub open spec fn log(&self) -> Seq<(TypeNodeInd, UnificationCallback)> {
        self.mutation_log@
    }

    /// `new` is `old` with the nodes `added` appended, and nothing else changed.
    pub open spec fn extends(old: &Self, new: &Self, added: Seq<TypeNode>) -> bool {
        &&& new.wf()
        &&& new.nodes() == old.nodes() + added
        &&& new.r.len_spec() == old.r.len_spec() + added.len()
        &&& new.r.edges() == old.r.edges()
        &&& new.r.mark() == old.r.mark()
        &&& new.r.journal_log() == old.r.journal_log()
        &&& (old.r.closed() ==> new.r.closed())
        &&& new.tycons == old.tycons
        &&& new.pending_edges@ == old.pending_edges@
        &&& new.log() == old.log()
    }

    /// `new` is `old` with the data of node `i` set to `n`, and nothing else changed.
    pub open spec fn sets(old: &Self, new: &Self, i: int, n: TypeNode) -> bool {
        &&& new.wf()
        &&& new.nodes() == old.nodes().update(i, n)
        &&& new.r.len_spec() == old.r.len_spec()
        &&& new.r.edges() == old.r.edges()
        &&& new.r.mark() == old.r.mark()
        &&& new.r.journal_log() == old.r.journal_log()
        &&& (old.r.closed() ==> new.r.closed())
        &&& new.tycons == old.tycons
        &&& new.pending_edges@ == old.pending_edges@
        &&& new.log() == old.log()
    }

    /// `new` is `old` with nothing changed that contracts speak of.
    pub open spec fn keeps(old: &Self, new: &Self) -> bool {
        &&& new.wf()
        &&& new.nodes() == old.nodes()
        &&& new.r.len_spec() == old.r.len_spec()
        &&& new.r.edges() == old.r.edges()
        &&& new.r.mark() == old.r.mark()
        &&& new.r.journal_log() == old.r.journal_log()
        &&& (old.r.closed() ==> new.r.closed())
        &&& new.tycons == old.tycons
        &&& new.pending_edges@ == old.pending_edges@
        &&& new.log() == old.log()
    }

    /// An empty graph with no type constructors.
    pub fn new() -> (r: Self)
        ensures
            r.wf(),
            r.r.closed(),
            r.nodes().len() == 0,
            r.r.len_spec() == 0,
            r.r.mark() == 0,
            r.r.journal_log().len() == 0,
            r.tycons.defs().len() == 0,
            r.tycons.spines().len() == 0,
            r.pending_edges@.len() == 0,
            r.log().len() == 0,
    {
        let r = Reachability::new();
        proof {
            r.lemma_data_len();
        }
        TypeCheckerCore { r, tycons: TyConArena::new(), pending_edges: Vec::new(), mutation_log: Vec::new() }
    }

    /// Adds the built-in type constructor `name`.
    pub fn add_builtin_type(&mut self, name: StringId) -> (r: TyConDefInd)
        requires
            old(self).tycons.defs().len() < INDEX_LIMIT,
        ensures
            r@ == old(self).tycons.defs().len(),
            final(self).tycons.defs() == old(self).tycons.defs().push(TyConDef::Builtin(name)),
            final(self).tycons.spines() == old(self).tycons.spines(),
            final(self).r == old(self).r,
            final(self).pending_edges == old(self).pending_edges,
            final(self).log() == old(self).log(),
    {
        self.tycons.add(TyConDef::Builtin(name))
    }

    /// Asks for the flow edge `lhs -> rhs` to be added and checked, with `edge_context`.
    pub fn add_pending_edge(&mut self, lhs: Value, rhs: Use, edge_context: TypeEdge)
        ensures
            final(self).pending_edges@ == old(self).pending_edges@.push((lhs, rhs, edge_context)),
            final(self).r == old(self).r,
            final(self).tycons == old(self).tycons,
            final(self).log() == old(self).log(),
    {
        self.pending_edges.push((lhs, rhs, edge_context));
    }

    /// Asks for the flow edge `lhs -> rhs` that the program states at `expl_span`.
    pub fn flow(&mut self, lhs: Value, rhs: Use, expl_span: Span)
        ensures
            final(self).pending_edges@ == old(self).pending_edges@.push((lhs, rhs, TypeEdge::root_spec(expl_span))),
            final(self).r == old(self).r,
            final(self).tycons == old(self).tycons,
            final(self).log() == old(self).log(),
    {
        self.add_pending_edge(lhs, rhs, TypeEdge::root(expl_span));
    }

    /// Adds the node `n` and gives back its index.
    fn add(&mut self, n: TypeNode) -> (r: TypeNodeInd)
        requires
            old(self).wf(),
            old(self).has_room(),
        ensures
            r@ == old(self).r.len_spec(),
            Self::extends(old(self), final(self), seq![n]),
    {
        proof {
            self.r.lemma_data_len();
        }
        let r = self.r.add_node(n);
        proof {
            self.r.lemma_data_len();
            assert(self.nodes() =~= old(self).nodes() + seq![n]);
        }
        r
    }

    /// A new value type node.
    pub fn new_val(&mut self, val_type: VTypeHead, span: Span) -> (r: Value)
        requires
            old(self).wf(),
            old(self).has_room(),
        ensures
            r.0@ == old(self).r.len_spec(),
            Self::extends(old(self), final(self), seq![TypeNode::Value((val_type, span))]),
    {
        Value(self.add(TypeNode::Value((val_type, span))))
    }

    /// A new use type node with no source.
    pub fn new_use(&mut self, use_type: UTypeHead, span: Span) -> (r: Use)
        requires
            old(self).wf(),
            old(self).has_room(),
        ensures
            r.0@ == old(self).r.len_spec(),
            Self::extends(old(self), final(self), seq![TypeNode::Use((use_type, span, UseSrc::NoSrc))]),
    {
        self.new_use_with_src(use_type, span, UseSrc::NoSrc)
    }

    /// A new use type node from `src`.
    pub fn new_use_with_src(&mut self, use_type: UTypeHead, span: Span, src: UseSrc) -> (r: Use)
        requires
            old(self).wf(),
            old(self).has_room(),
        ensures
            r.0@ == old(self).r.len_spec(),
            Self::extends(old(self), final(self), seq![TypeNode::Use((use_type, span, src))]),
    {
        Use(self.add(TypeNode::Use((use_type, span, src))))
    }

    /// A new inference variable, seen as a value and as a use: one node.
    pub fn var(&mut self, src: HoleSrc, scopelvl: ScopeLvl) -> (r: (Value, Use))
        requires
            old(self).wf(),
            old(self).has_room(),
        ensures
            r.0.0@ == old(self).r.len_spec(),
            r.1.0 == r.0.0,
            Self::extends(
                old(self),
                final(self),
                seq![TypeNode::Var(InferenceVarData { scopelvl, src })],
            ),
    {
        let data = InferenceVarData { scopelvl, src };
        let i = self.add(TypeNode::Var(data));
        (Value(i), Use(i))
    }

    /// The value type of the plain constructor `ty`.
    pub fn simple_val(&mut self, ty: TyConDefInd, span: Span) -> (r: Value)
        requires
            old(self).wf(),
            old(self).has_room(),
        ensures
            r.0@ == old(self).r.len_spec(),
            Self::extends(
                old(self),
                final(self),
                seq![TypeNode::Value((VTypeHead::VTypeConstructor(ConstructorData::plain(ty)), span))],
            ),
    {
        let ty = ConstructorData::new(ty);
        self.new_val(VTypeHead::VTypeConstructor(ty), span)
    }

    /// The use type of the plain constructor `ty`, from `src`.
    pub fn simple_use(&mut self, ty: TyConDefInd, span: Span, src: UseSrc) -> (r: Use)
        requires
            old(self).wf(),
            old(self).has_room(),
        ensures
            r.0@ == old(self).r.len_spec(),
            Self::extends(
                old(self),
                final(self),
                seq![TypeNode::Use((UTypeHead::UTypeConstructor(ConstructorData::plain(ty)), span, src))],
            ),
    {
        let ty = ConstructorData::new(ty);
        self.new_use_with_src(UTypeHead::UTypeConstructor(ty), span, src)
    }

    /// The value and use types of the plain constructor `ty`.
    pub fn simple(&mut self, ty: TyConDefInd, span: Span) -> (r: (Value, Use))
        requires
            old(self).wf(),
            old(self).r.len_spec() < INDEX_LIMIT,
        ensures
            r.0.0@ == old(self).r.len_spec(),
            r.1.0@ == old(self).r.len_spec() + 1,
            Self::extends(
                old(self),
                final(self),
                seq![
                    TypeNode::Value((VTypeHead::VTypeConstructor(ConstructorData::plain(ty)), span)),
                    TypeNode::Use((UTypeHead::UTypeConstructor(ConstructorData::plain(ty)), span, UseSrc::NoSrc)),
                ],
            ),
    {
        let v = self.simple_val(ty, span);
        let ghost mid = *self;
        let u = self.simple_use(ty, span, UseSrc::NoSrc);
        proof {
            assert(self.nodes() =~= old(self).nodes() + seq![
                TypeNode::Value((VTypeHead::VTypeConstructor(ConstructorData::plain(ty)), span)),
                TypeNode::Use((UTypeHead::UTypeConstructor(ConstructorData::plain(ty)), span, UseSrc::NoSrc)),
            ]);
        }
        (v, u)
    }

    /// The value and use types of the constructor `ty`, marked to be re-stamped.
    pub fn simple_restamp(&mut self, ty: TyConDefInd, span: Span) -> (r: (Value, Use))
        requires
            old(self).wf(),
            old(self).r.len_spec() < INDEX_LIMIT,
        ensures
            r.0.0@ == old(self).r.len_spec(),
            r.1.0@ == old(self).r.len_spec() + 1,
            Self::extends(
                old(self),
                final(self),
                seq![
                    TypeNode::Value((VTypeHead::VTypeConstructor(ConstructorData::restamped(ty)), span)),
                    TypeNode::Use((UTypeHead::UTypeConstructor(ConstructorData::restamped(ty)), span, UseSrc::NoSrc)),
                ],
            ),
    {
        let mut ty = ConstructorData::new(ty);
        ty.restamp = true;
        let v = self.new_val(VTypeHead::VTypeConstructor(ConstructorData { category: ty.category, spine: None, restamp: true }), span);
        let u = self.new_use(UTypeHead::UTypeConstructor(ty), span);
        proof {
            assert(self.nodes() =~= old(self).nodes() + seq![
                TypeNode::Value((VTypeHead::VTypeConstructor(ConstructorData::restamped(ty.category)), span)),
                TypeNode::Use((UTypeHead::UTypeConstructor(ConstructorData::restamped(ty.category)), span, UseSrc::NoSrc)),
            ]);
        }
        (v, u)
    }

    /// The use type of a record with the fields `fields`.
    pub fn obj_use(&mut self, fields: Vec<(StringId, (Use, Option<Value>, Span))>, span: Span) -> (r: Use)
        requires
            old(self).wf(),
            old(self).has_room(),
        ensures
            r.0@ == old(self).r.len_spec(),
            Self::extends(
                old(self),
                final(self),
                seq![TypeNode::Use((UTypeHead::UObj { fields }, span, UseSrc::NoSrc))],
            ),
    {
        self.new_use(UTypeHead::UObj { fields }, span)
    }

    /// The use type that accepts what all of `v` accept: no node where `v`
    /// holds nothing but the top type, the one type where it holds one, and
    /// otherwise a new intersection of its distinct types other than the top
    /// type, by increasing index.
    pub fn intersect(&mut self, v: Vec<Use>, span: Span) -> (r: Use)
        requires
            old(self).wf(),
            old(self).has_room(),
        ensures
            ({
                let d = distinct_uses(v@);
                &&& d.len() == 0 ==> r == crate::types::top_spec() && *final(self) == *old(self)
                &&& d.len() == 1 ==> r == d[0] && *final(self) == *old(self)
                &&& d.len() >= 2 ==> r.0@ == old(self).r.len_spec() && final(self).nodes().len() == old(self).nodes().len() + 1
                    && Self::extends(old(self), final(self), seq![final(self).nodes().last()])
                &&& d.len() >= 2 ==> (final(self).nodes().last() matches TypeNode::Use((UTypeHead::UIntersection(w), s, src))
                    && w@ == d && s == span && src is NoSrc)
            }),
    {
        let mut w: Vec<Use> = Vec::new();
        let mut k: usize = 0;
        while k < v.len()
            invariant
                k <= v@.len(),
                strictly_increasing(w@),
                forall|x: Use| w@.contains(x) <==> (v@.take(k as int).contains(x) && x.0@ != INDEX_LIMIT),
            decreases v@.len() - k,
        {
            let x = v[k];
            proof {
                assert(v@.take(k + 1) =~= v@.take(k as int).push(x));
            }
            proof {
                assert forall|y: Use| v@.take(k + 1).contains(y) <==> (v@.take(k as int).contains(y) || y == x) by {
                    let t = v@.take(k + 1);
                    if t.contains(y) {
                        let j = choose|j: int| 0 <= j < t.len() && #[trigger] t[j] == y;
                        if j < k {
                            assert(v@.take(k as int)[j] == y);
                        }
                    }
                    if v@.take(k as int).contains(y) {
                        let j = choose|j: int| 0 <= j < k && #[trigger] v@.take(k as int)[j] == y;
                        assert(t[j] == y);
                    }
                    if y == x {
                        assert(t[k as int] == x);
                    }
                }
            }
            let ghost prev = w@;
            if x.0.i() != INDEX_LIMIT as usize {
                insert_distinct(&mut w, x);
            }
            proof {
                assert forall|y: Use| w@.contains(y) <==> (v@.take(k + 1).contains(y) && y.0@ != INDEX_LIMIT) by {
                    assert(v@.take(k + 1).contains(y) <==> (v@.take(k as int).contains(y) || y == x));
                    if x.0@ != INDEX_LIMIT {
                        assert(w@.contains(y) <==> (prev.contains(y) || y == x));
                    } else {
                        assert(w@ == prev);
                    }
                }
            }
            k = k + 1;
        }
        proof {
            assert(v@.take(v@.len() as int) =~= v@);
            lemma_distinct_unique(w@, distinct_uses(v@), v@);
        }
        if w.len() == 0 {
            return crate::types::top();
        } else if w.len() == 1 {
            return w[0];
        }
        let ghost wv = w@;
        let r = self.new_use(UTypeHead::UIntersection(w), span);
        proof {
            assert(self.nodes().last() == TypeNode::Use((UTypeHead::UIntersection(w), span, UseSrc::NoSrc)));
        }
        r
    }

    /// Gives a new hole from `src` in place of `ty`, with `ty` flowing into it,
    /// where `ty` is a hole of lower priority than `src`; otherwise `ty`.
    pub fn add_hole_if_higher_priority(&mut self, ty: Value, src: HoleSrc, scopelvl: ScopeLvl, span: Span) -> (r: Value)
        requires
            old(self).wf(),
            old(self).has_room(),
        ensures
            lower_priority_hole(old(self).nodes(), ty, src) ==> {
                &&& r.0@ == old(self).r.len_spec()
                &&& final(self).wf()
                &&& final(self).nodes() == old(self).nodes().push(TypeNode::Var(InferenceVarData { scopelvl, src }))
                &&& final(self).r.len_spec() == old(self).r.len_spec() + 1
                &&& final(self).r.edges() == old(self).r.edges()
                &&& final(self).r.mark() == old(self).r.mark()
                &&& final(self).r.journal_log() == old(self).r.journal_log()
                &&& (old(self).r.closed() ==> final(self).r.closed())
                &&& final(self).tycons == old(self).tycons
                &&& final(self).pending_edges@ == old(self).pending_edges@.push((ty, Use(r.0), TypeEdge::root_spec(span)))
                &&& final(self).log() == old(self).log()
            },
            !lower_priority_hole(old(self).nodes(), ty, src) ==> r == ty && *final(self) == *old(self),
    {
        proof {
            self.r.lemma_data_len();
        }
        let replace = match self.r.get(ty.0) {
            Some(TypeNode::Var(d)) => src.priority() > d.src.priority(),
            _ => false,
        };
        if replace {
            let (v, u) = self.var(src, scopelvl);
            self.flow(ty, u, span);
            proof {
                assert(self.nodes() =~= old(self).nodes().push(TypeNode::Var(InferenceVarData { scopelvl, src })));
            }
            return v;
        }
        ty
    }

    /// The value and use types of the rigid type `d`.
    pub fn ephemeral(&mut self, d: EphemeralPolyType, span: Span) -> (r: (Value, Use))
        requires
            old(self).wf(),
            old(self).r.len_spec() < INDEX_LIMIT,
        ensures
            r.0.0@ == old(self).r.len_spec(),
            r.1.0@ == old(self).r.len_spec() + 1,
            Self::extends(
                old(self),
                final(self),
                seq![
                    TypeNode::Value((VTypeHead::VEphemeralPoly(d), span)),
                    TypeNode::Use((UTypeHead::UEphemeralPoly(d), span, UseSrc::NoSrc)),
                ],
            ),
    {
        let v = self.new_val(VTypeHead::VEphemeralPoly(d), span);
        let u = self.new_use(UTypeHead::UEphemeralPoly(d), span);
        proof {
            assert(self.nodes() =~= old(self).nodes() + seq![
                TypeNode::Value((VTypeHead::VEphemeralPoly(d), span)),
                TypeNode::Use((UTypeHead::UEphemeralPoly(d), span, UseSrc::NoSrc)),
            ]);
        }
        (v, u)
    }

    /// A node for a value type that is set later.
    pub fn val_placeholder(&mut self) -> (r: Value)
        requires
            old(self).wf(),
            old(self).has_room(),
        ensures
            r.0@ == old(self).r.len_spec(),
            Self::extends(old(self), final(self), seq![TypeNode::Placeholder]),
    {
        Value(self.add(TypeNode::Placeholder))
    }

    /// A node for a use type that is set later.
    pub fn use_placeholder(&mut self) -> (r: Use)
        requires
            old(self).wf(),
            old(self).has_room(),
        ensures
            r.0@ == old(self).r.len_spec(),
            Self::extends(old(self), final(self), seq![TypeNode::Placeholder]),
    {
        Use(self.add(TypeNode::Placeholder))
    }

    /// Sets the placeholder node `i` to `n`; an error where `i` is not a placeholder.
    fn set_placeholder(&mut self, i: TypeNodeInd, n: TypeNode) -> (r: Result<(), ICE>)
        requires
            old(self).wf(),
        ensures
            r is Ok <==> is_placeholder(old(self).nodes(), i),
            r is Ok ==> Self::sets(old(self), final(self), i@ as int, n),
            r is Err ==> Self::keeps(old(self), final(self)),
    {
        proof {
            self.r.lemma_data_len();
        }
        let ghost before = *self;
        match self.r.get_mut(i) {
            Some(d) => {
                if matches!(*d, TypeNode::Placeholder) {
                    *d = n;
                    proof {
                        self.r.lemma_data_len();
                    }
                    Ok(())
                } else {
                    proof {
                        self.r.lemma_data_len();
                        assert(self.nodes() =~= before.nodes());
                    }
                    Err(ice())
                }
            },
            None => Err(ice()),
        }
    }

    /// Sets the placeholder `ph` to the value type `head`.
    pub fn set_val(&mut self, ph: Value, head: VTypeHead, span: Span) -> (r: Result<(), ICE>)
        requires
            old(self).wf(),
        ensures
            r is Ok <==> is_placeholder(old(self).nodes(), ph.0),
            r is Ok ==> Self::sets(old(self), final(self), ph.0@ as int, TypeNode::Value((head, span))),
            r is Err ==> Self::keeps(old(self), final(self)),
    {
        self.set_placeholder(ph.0, TypeNode::Value((head, span)))
    }

    /// Sets the placeholder `ph` to the use type `head`, with no source.
    pub fn set_use(&mut self, ph: Use, head: UTypeHead, span: Span) -> (r: Result<(), ICE>)
        requires
            old(self).wf(),
        ensures
            r is Ok <==> is_placeholder(old(self).nodes(), ph.0),
            r is Ok ==> Self::sets(old(self), final(self), ph.0@ as int, TypeNode::Use((head, span, UseSrc::NoSrc))),
            r is Err ==> Self::keeps(old(self), final(self)),
    {
        self.set_placeholder(ph.0, TypeNode::Use((head, span, UseSrc::NoSrc)))
    }

    /// Makes the placeholder `ph` a lazy use node that runs `cb`.
    pub fn set_unification_callback(&mut self, ph: Use, cb: UnificationCallback, span: Span) -> (r: Result<(), ICE>)
        requires
            old(self).wf(),
        ensures
            r is Ok <==> is_placeholder(old(self).nodes(), ph.0),
            r is Ok ==> Self::sets(old(self), final(self), ph.0@ as int, TypeNode::LazyUse(Some(cb), span)),
            r is Err ==> Self::keeps(old(self), final(self)),
    {
        self.set_placeholder(ph.0, TypeNode::LazyUse(Some(cb), span))
    }

    /// Marks the present graph as the point `revert` returns to.
    pub fn save(&mut self)
        requires
            old(self).wf(),
            old(self).has_room(),
        ensures
            final(self).wf(),
            final(self).r.mark() == old(self).r.len_spec(),
            final(self).r.len_spec() == old(self).r.len_spec(),
            final(self).nodes() == old(self).nodes(),
            final(self).r.edges() == old(self).r.edges(),
            final(self).r.journal_log() == old(self).r.journal_log(),
            old(self).r.journal_log().len() == 0 ==> final(self).r.state_at_mark() == final(self).r.edges(),
            old(self).r.closed() ==> final(self).r.closed(),
            final(self).tycons == old(self).tycons,
            final(self).pending_edges == old(self).pending_edges,
            final(self).log() == old(self).log(),
    {
        self.r.save();
    }

    /// Goes back to the saved point: the nodes added since are removed, the
    /// edges are those of the saved point, the pending edges are dropped, and
    /// the lazy use nodes that unification filled in are made lazy again.
    pub fn revert(&mut self)
        requires
            old(self).wf(),
        ensures
            final(self).wf(),
            final(self).pending_edges@.len() == 0,
            final(self).r.len_spec() == old(self).r.mark(),
            final(self).nodes() == restore_lazy(old(self).nodes().take(old(self).r.mark() as int), old(self).log()),
            final(self).r.edges() == old(self).r.state_at_mark(),
            final(self).r.mark() == 0,
            final(self).r.journal_log().len() == 0,
            closed_edges(old(self).r.state_at_mark()) ==> final(self).r.closed(),
            final(self).tycons == old(self).tycons,
            final(self).log().len() == 0,
    {
        self.pending_edges.clear();
        self.r.revert();
        let ghost base = self.nodes();
        let ghost log = self.mutation_log@;
        let mut taken: Vec<(TypeNodeInd, UnificationCallback)> = Vec::new();
        std::mem::swap(&mut taken, &mut self.mutation_log);
        let mut rev: Vec<(TypeNodeInd, UnificationCallback)> = Vec::new();
        while taken.len() > 0
            invariant
                taken@ == log.take(taken@.len() as int),
                taken@.len() <= log.len(),
                rev@.len() == log.len() - taken@.len(),
                forall|j: int| 0 <= j < rev@.len() ==> #[trigger] rev@[j] == log[log.len() - 1 - j],
            decreases taken@.len(),
        {
            let e = taken.pop().unwrap();
            rev.push(e);
            proof {
                assert(taken@ =~= log.take(taken@.len() as int));
            }
        }
        proof {
            assert(log.take(0) =~= Seq::<(TypeNodeInd, UnificationCallback)>::empty());
            assert(restore_lazy(base, log.take(0)) == base);
            self.r.lemma_data_len();
        }
        while rev.len() > 0
            invariant
                self.wf(),
                self.pending_edges@.len() == 0,
                self.r.len_spec() == old(self).r.mark(),
                self.r.edges() == old(self).r.state_at_mark(),
                self.r.mark() == 0,
                self.r.journal_log().len() == 0,
                closed_edges(old(self).r.state_at_mark()) ==> self.r.closed(),
                self.tycons == old(self).tycons,
                self.mutation_log@.len() == 0,
                rev@.len() <= log.len(),
                forall|j: int| 0 <= j < rev@.len() ==> #[trigger] rev@[j] == log[log.len() - 1 - j],
                self.nodes() == restore_lazy(base, log.take(log.len() - rev@.len())),
                base.len() == self.r.len_spec(),
            decreases rev@.len(),
        {
            let ghost k = log.len() - rev@.len();
            let (i, cb) = rev.pop().unwrap();
            proof {
                assert(log[k] == (i, cb));
                assert(log.take(k + 1).drop_last() =~= log.take(k));
                assert(log.take(k + 1).last() == log[k]);
                self.r.lemma_data_len();
                lemma_restore_len(base, log.take(k));
            }
            let ghost prev = self.nodes();
            match self.r.get_mut(i) {
                Some(d) => {
                    let span = match &*d {
                        TypeNode::Use(n) => Some(n.1),
                        _ => None,
                    };
                    match span {
                        Some(sp) => {
                            *d = TypeNode::LazyUse(Some(cb), sp);
                        },
                        None => {},
                    }
                },
                None => {},
            }
            proof {
                self.r.lemma_data_len();
                assert(self.nodes() =~= restore_lazy(base, log.take(k + 1)));
            }
        }
        proof {
            assert(log.take(log.len() as int) =~= log);
            assert(base == old(self).nodes().take(old(self).r.mark() as int));
        }
    }

    /// Forgets the saved point.
    pub fn make_permanent(&mut self)
        requires
            old(self).wf(),
        ensures
            final(self).wf(),
            final(self).r.mark() == 0,
            final(self).r.journal_log().len() == 0,
            final(self).r.len_spec() == old(self).r.len_spec(),
            final(self).nodes() == old(self).nodes(),
            final(self).r.edges() == old(self).r.edges(),
            old(self).r.closed() ==> final(self).r.closed(),
            final(self).tycons == old(self).tycons,
            final(self).pending_edges == old(self).pending_edges,
            final(self).log().len() == 0,
    {
        self.r.make_permanent();
        self.mutation_log.clear();
    }
}

} // verus!

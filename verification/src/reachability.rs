use crate::ordered_map::{lemma_filter_contains, OrderedMap};
use crate::vec_index::{NodeIndex, INDEX_LIMIT};
use vstd::prelude::*;
use vstd::std_specs::hash::obeys_key_model;

verus! {

broadcast use vstd::std_specs::hash::axiom_usize_obeys_hash_table_key_model;

/// The data carried by an edge of a `Reachability` graph.
///
/// An edge value has a rank, bounded by `rank_limit()`; `update` only ever
/// replaces a value by one of lower rank, which is what makes edge propagation
/// terminate.
pub trait EdgeDataTrait<I: NodeIndex, N>: Copy + Sized {
    spec fn rank(&self) -> nat;

    spec fn rank_limit() -> nat;

    proof fn lemma_rank_limit(e: Self)
        ensures
            e.rank() <= Self::rank_limit(),
    ;

    /// Whether merging `other` into `self` changes `self`.
    spec fn improves(&self, other: &Self) -> bool;

    /// Merges `other` into `self`; returns whether `self` changed.
    fn update(&mut self, other: &Self) -> (changed: bool)
        ensures
            changed == old(self).improves(other),
            changed ==> *final(self) == *other,
            changed ==> final(self).rank() < old(self).rank(),
            !changed ==> *final(self) == *old(self),
    ;

    /// The value of the edge made by going through node `ind` (with data `hole`)
    /// along `self` and then along `connecting_edge`.
    fn with_intermediate_node(&self, hole: &N, ind: I, connecting_edge: &Self) -> (r: Self)
        ensures
            r == self.via(*hole, ind, *connecting_edge),
    ;

    /// The value of the edge made by going along `self` and `connecting`
    /// through the node `ind` whose data is `hole`.
    spec fn via(&self, hole: N, ind: I, connecting: Self) -> Self;
}

struct ReachabilityNode<N, E> {
    data: N,
    flows_from: OrderedMap<usize, E>,
    flows_to: OrderedMap<usize, E>,
}

impl<N, E> ReachabilityNode<N, E> {
    fn fix_and_truncate(&mut self, i: usize)
        requires
            old(self).flows_from.loose(),
            old(self).flows_to.loose(),
        ensures
            final(self).flows_from.wf(),
            final(self).flows_to.wf(),
            final(self).flows_from@ == keys_below(old(self).flows_from@, i),
            final(self).flows_to@ == keys_below(old(self).flows_to@, i),
            final(self).data == old(self).data,
    {
        self.flows_from.retain(|k: &usize| -> (r: bool) ensures r == (*k < i) { *k < i });
        self.flows_to.retain(|k: &usize| -> (r: bool) ensures r == (*k < i) { *k < i });
        proof {
            assert(self.flows_from@ =~= keys_below(old(self).flows_from@, i));
            assert(self.flows_to@ =~= keys_below(old(self).flows_to@, i));
        }
    }
}

/// An incrementally maintained, transitively closed graph over a growing arena
/// of nodes, with the ability to return to a saved point.
pub struct Reachability<I: NodeIndex, N, E> {
    nodes: Vec<ReachabilityNode<N, E>>,
    /// Nodes from this point on are removed again by `revert`.
    pub rewind_mark: I,
    journal: Vec<(usize, usize, Option<E>)>,
}

/// Whether the pair `(a, b)` runs through the new edge `lhs -> rhs`: `a` is
/// `lhs` or reaches it, and `b` is `rhs` or is reached from it.
pub open spec fn through<I: NodeIndex, N, E: EdgeDataTrait<I, N>>(g: Reachability<I, N, E>, lhs: int, rhs: int, a: int, b: int) -> bool {
    &&& (a == lhs || g.has_edge(a, lhs))
    &&& (b == rhs || g.has_edge(rhs, b))
}

/// No entry after entry `j` of `out` is for the same pair of nodes.
pub open spec fn last_for<I: NodeIndex, E>(out: Seq<(I, I, E)>, j: int) -> bool {
    forall|k: int| j < k < out.len() ==> !((#[trigger] out[k]).0.index() == out[j].0.index() && out[k].1.index() == out[j].1.index())
}

/// The edges among nodes below `m`.
pub open spec fn restrict_below<E>(edges: Map<(int, int), E>, m: nat) -> Map<(int, int), E> {
    Map::new(|p: (int, int)| edges.contains_key(p) && 0 <= p.0 < m && 0 <= p.1 < m, |p: (int, int)| edges[p])
}

/// The entries of an adjacency map whose keys are below `i`.
pub open spec fn keys_below<E>(m: Map<usize, E>, i: usize) -> Map<usize, E> {
    Map::new(|k: usize| m.contains_key(k) && k < i, |k: usize| m[k])
}

/// Undoes one journaled edge change.
pub open spec fn undo_edge<E>(edges: Map<(int, int), E>, entry: (int, int, Option<E>)) -> Map<
    (int, int),
    E,
> {
    match entry.2 {
        Some(v) => edges.insert((entry.0, entry.1), v),
        None => edges.remove((entry.0, entry.1)),
    }
}

/// Undoes every journaled change, latest first.
pub open spec fn rewind_journal<E>(edges: Map<(int, int), E>, journal: Seq<(int, int, Option<E>)>) -> Map<
    (int, int),
    E,
>
    decreases journal.len(),
{
    if journal.len() == 0 {
        edges
    } else {
        rewind_journal(undo_edge(edges, journal.last()), journal.drop_last())
    }
}

/// Every journaled change concerns an edge that exists when that change is undone.
pub open spec fn journal_ok<E>(edges: Map<(int, int), E>, journal: Seq<(int, int, Option<E>)>) -> bool
    decreases journal.len(),
{
    journal.len() == 0 || (edges.contains_key((journal.last().0, journal.last().1)) && journal_ok(
        undo_edge(edges, journal.last()),
        journal.drop_last(),
    ))
}

/// A set of edges is transitively closed (paths that return to their start need no loop edge).
pub open spec fn closed_edges<E>(edges: Map<(int, int), E>) -> bool {
    forall|a: int, b: int, c: int|
        #![trigger edges.contains_key((a, b)), edges.contains_key((b, c))]
        edges.contains_key((a, b)) && edges.contains_key((b, c)) && a != c ==> edges.contains_key((a, c))
}

spec fn weight<I: NodeIndex, N, E: EdgeDataTrait<I, N>>(m: Map<usize, E>, b: nat) -> nat {
    if m.contains_key(b as usize) {
        m[b as usize].rank()
    } else {
        E::rank_limit() + 1
    }
}

spec fn row_weight<I: NodeIndex, N, E: EdgeDataTrait<I, N>>(m: Map<usize, E>, k: nat) -> nat
    decreases k,
{
    if k == 0 {
        0
    } else {
        row_weight::<I, N, E>(m, (k - 1) as nat) + weight::<I, N, E>(m, (k - 1) as nat)
    }
}

spec fn total_weight<I: NodeIndex, N, E: EdgeDataTrait<I, N>>(
    rows: Seq<Map<usize, E>>,
    k: nat,
    n: nat,
) -> nat
    decreases k,
{
    if k == 0 {
        0
    } else {
        total_weight::<I, N, E>(rows, (k - 1) as nat, n) + row_weight::<I, N, E>(rows[k - 1], n)
    }
}

proof fn lemma_row_update<I: NodeIndex, N, E: EdgeDataTrait<I, N>>(
    m: Map<usize, E>,
    m2: Map<usize, E>,
    r: nat,
    k: nat,
)
    requires
        forall|b: usize| b != r ==> (m.contains_key(b) <==> m2.contains_key(b)),
        forall|b: usize| b != r && m.contains_key(b) ==> m[b] == m2[b],
        r < k,
        k <= usize::MAX + 1,
    ensures
        row_weight::<I, N, E>(m2, k) as int == row_weight::<I, N, E>(m, k) as int - weight::<I, N, E>(m, r)
            + weight::<I, N, E>(m2, r),
    decreases k,
{
    if k - 1 > r {
        lemma_row_update::<I, N, E>(m, m2, r, (k - 1) as nat);
        assert(weight::<I, N, E>(m, (k - 1) as nat) == weight::<I, N, E>(m2, (k - 1) as nat)) by {
            let b = ((k - 1) as nat) as usize;
            assert(b == k - 1);
            assert(b != r);
        }
    } else {
        lemma_row_same::<I, N, E>(m, m2, r, r);
    }
}

proof fn lemma_row_same<I: NodeIndex, N, E: EdgeDataTrait<I, N>>(
    m: Map<usize, E>,
    m2: Map<usize, E>,
    r: nat,
    k: nat,
)
    requires
        forall|b: usize| b != r ==> (m.contains_key(b) <==> m2.contains_key(b)),
        forall|b: usize| b != r && m.contains_key(b) ==> m[b] == m2[b],
        k <= r,
        r <= usize::MAX,
    ensures
        row_weight::<I, N, E>(m2, k) == row_weight::<I, N, E>(m, k),
    decreases k,
{
    if k > 0 {
        lemma_row_same::<I, N, E>(m, m2, r, (k - 1) as nat);
        assert(((k - 1) as nat as usize) != r);
    }
}

proof fn lemma_total_update<I: NodeIndex, N, E: EdgeDataTrait<I, N>>(
    rows: Seq<Map<usize, E>>,
    rows2: Seq<Map<usize, E>>,
    l: nat,
    k: nat,
    n: nat,
)
    requires
        rows.len() == rows2.len(),
        k <= rows.len(),
        l < k,
        forall|a: int| 0 <= a < rows.len() && a != l ==> rows[a] == rows2[a],
    ensures
        total_weight::<I, N, E>(rows2, k, n) as int == total_weight::<I, N, E>(rows, k, n) as int
            - row_weight::<I, N, E>(rows[l as int], n) + row_weight::<I, N, E>(rows2[l as int], n),
    decreases k,
{
    if k - 1 > l {
        lemma_total_update::<I, N, E>(rows, rows2, l, (k - 1) as nat, n);
    } else {
        lemma_total_same::<I, N, E>(rows, rows2, l, l, n);
    }
}

proof fn lemma_total_same<I: NodeIndex, N, E: EdgeDataTrait<I, N>>(
    rows: Seq<Map<usize, E>>,
    rows2: Seq<Map<usize, E>>,
    l: nat,
    k: nat,
    n: nat,
)
    requires
        rows.len() == rows2.len(),
        k <= l,
        l < rows.len(),
        forall|a: int| 0 <= a < rows.len() && a != l ==> rows[a] == rows2[a],
    ensures
        total_weight::<I, N, E>(rows2, k, n) == total_weight::<I, N, E>(rows, k, n),
    decreases k,
{
    if k > 0 {
        lemma_total_same::<I, N, E>(rows, rows2, l, (k - 1) as nat, n);
    }
}

/// Two edge maps agree on every pair of nodes below `m`.
pub open spec fn agree_below<E>(e1: Map<(int, int), E>, e2: Map<(int, int), E>, m: nat) -> bool {
    forall|a: int, b: int|
        0 <= a < m && 0 <= b < m ==> (#[trigger] e1.contains_key((a, b)) <==> #[trigger] e2.contains_key((a, b)))
            && (e1.contains_key((a, b)) ==> e1[(a, b)] == e2[(a, b)])
}

/// Journal checks and rewinds look only at the edges the journal touches.
proof fn lemma_journal_frame<E>(e1: Map<(int, int), E>, e2: Map<(int, int), E>, j: Seq<(int, int, Option<E>)>, m: nat)
    requires
        forall|k: int| 0 <= k < j.len() ==> 0 <= #[trigger] j[k].0 < m && 0 <= j[k].1 < m,
        agree_below(e1, e2, m),
    ensures
        journal_ok(e1, j) == journal_ok(e2, j),
        agree_below(rewind_journal(e1, j), rewind_journal(e2, j), m),
    decreases j.len(),
{
    if j.len() > 0 {
        let last = j.last();
        assert(j[j.len() - 1] == last);
        let u1 = undo_edge(e1, last);
        let u2 = undo_edge(e2, last);
        assert(agree_below(u1, u2, m)) by {
            assert forall|a: int, b: int| 0 <= a < m && 0 <= b < m implies (#[trigger] u1.contains_key((a, b)) <==> #[trigger] u2.contains_key((a, b)))
                && (u1.contains_key((a, b)) ==> u1[(a, b)] == u2[(a, b)]) by {
                assert(e1.contains_key((a, b)) <==> e2.contains_key((a, b)));
            }
        }
        assert forall|k: int| 0 <= k < j.drop_last().len() implies 0 <= #[trigger] j.drop_last()[k].0 < m && 0 <= j.drop_last()[k].1 < m by {
            assert(j.drop_last()[k] == j[k]);
        }
        lemma_journal_frame(u1, u2, j.drop_last(), m);
        assert(e1.contains_key((last.0, last.1)) <==> e2.contains_key((last.0, last.1)));
    }
}

/// Restricting a closed set of edges to a prefix of the nodes keeps it closed.
proof fn lemma_restrict_closed<E>(e: Map<(int, int), E>, m: nat)
    requires
        closed_edges(e),
    ensures
        closed_edges(restrict_below(e, m)),
{
    let r = restrict_below(e, m);
    assert forall|a: int, b: int, c: int|
        #![trigger r.contains_key((a, b)), r.contains_key((b, c))]
        r.contains_key((a, b)) && r.contains_key((b, c)) && a != c implies r.contains_key((a, c)) by {
        assert(e.contains_key((a, b)) && e.contains_key((b, c)));
    }
}

impl<I: NodeIndex, N, E: EdgeDataTrait<I, N>> Reachability<I, N, E> {
    /// The number of nodes.
    pub closed spec fn len_spec(&self) -> nat {
        self.nodes@.len()
    }

    /// The data of node `i`.
    pub closed spec fn data(&self, i: int) -> N {
        self.nodes@[i].data
    }

    /// The node data, in order of the nodes.
    pub closed spec fn data_seq(&self) -> Seq<N> {
        self.nodes@.map_values(|n: ReachabilityNode<N, E>| n.data)
    }

    /// The node data has one entry per node, and entry `i` is the data of node `i`.
    pub proof fn lemma_data_len(&self)
        ensures
            self.data_seq().len() == self.len_spec(),
            forall|i: int| 0 <= i < self.len_spec() ==> #[trigger] self.data_seq()[i] == self.data(i),
    {
    }

    spec fn succ(&self, a: int) -> Map<usize, E> {
        self.nodes@[a].flows_to@
    }

    spec fn pred(&self, b: int) -> Map<usize, E> {
        self.nodes@[b].flows_from@
    }

    /// Whether there is an edge from `a` to `b`.
    pub closed spec fn has_edge(&self, a: int, b: int) -> bool {
        0 <= a < self.nodes@.len() && 0 <= b < self.nodes@.len() && self.succ(a).contains_key(b as usize)
    }

    /// The value of the edge from `a` to `b`.
    pub closed spec fn edge(&self, a: int, b: int) -> E {
        self.succ(a)[b as usize]
    }

    /// All edges with their values.
    pub open spec fn edges(&self) -> Map<(int, int), E> {
        Map::new(|p: (int, int)| self.has_edge(p.0, p.1), |p: (int, int)| self.edge(p.0, p.1))
    }

    /// The saved point, as a node count.
    pub closed spec fn mark(&self) -> nat {
        self.rewind_mark.index()
    }

    /// The journal of edge changes among saved nodes, each with the value it replaced.
    pub closed spec fn journal_log(&self) -> Seq<(int, int, Option<E>)> {
        self.journal@.map_values(|e: (usize, usize, Option<E>)| (e.0 as int, e.1 as int, e.2))
    }

    /// The edges that `revert` would leave.
    pub open spec fn state_at_mark(&self) -> Map<(int, int), E> {
        rewind_journal(restrict_below(self.edges(), self.mark()), self.journal_log())
    }

    /// The edge set is transitively closed.
    pub open spec fn closed(&self) -> bool {
        closed_edges(self.edges())
    }

    spec fn potential(&self) -> nat {
        total_weight::<I, N, E>(
            self.nodes@.map_values(|n: ReachabilityNode<N, E>| n.flows_to@),
            self.nodes@.len(),
            self.nodes@.len(),
        )
    }

    /// The structural invariant of the graph.
    pub closed spec fn wf(&self) -> bool {
        &&& self.nodes@.len() <= INDEX_LIMIT + 1
        &&& forall|a: int|
            0 <= a < self.nodes@.len() ==> {
                &&& (#[trigger] self.nodes@[a]).flows_to.wf()
                &&& self.nodes@[a].flows_from.wf()
            }
        &&& forall|a: int, k: usize|
            0 <= a < self.nodes@.len() && #[trigger] self.succ(a).contains_key(k) ==> k < self.nodes@.len()
                && k != a
        &&& forall|a: int, k: usize|
            0 <= a < self.nodes@.len() && #[trigger] self.pred(a).contains_key(k) ==> k < self.nodes@.len()
                && k != a
        &&& forall|a: int, b: int|
            0 <= a < self.nodes@.len() && 0 <= b < self.nodes@.len() ==> (#[trigger] self.succ(a).contains_key(
                b as usize,
            ) <==> #[trigger] self.pred(b).contains_key(a as usize))
        &&& forall|a: int, b: int|
            0 <= a < self.nodes@.len() && 0 <= b < self.nodes@.len() && #[trigger] self.succ(a).contains_key(
                b as usize,
            ) ==> self.succ(a)[b as usize] == #[trigger] self.pred(b)[a as usize]
        &&& self.mark() <= self.nodes@.len()
        &&& forall|k: int|
            0 <= k < self.journal@.len() ==> (#[trigger] self.journal@[k]).0 < self.mark() && self.journal@[k].1
                < self.mark()
        &&& journal_ok(restrict_below(self.edges(), self.mark()), self.journal_log())
    }

    proof fn lemma_log_bounds(&self)
        requires
            self.wf(),
        ensures
            forall|k: int|
                0 <= k < self.journal_log().len() ==> 0 <= #[trigger] self.journal_log()[k].0 < self.mark() && 0
                    <= self.journal_log()[k].1 < self.mark(),
    {
        assert forall|k: int| 0 <= k < self.journal_log().len() implies 0 <= #[trigger] self.journal_log()[k].0
            < self.mark() && 0 <= self.journal_log()[k].1 < self.mark() by {
            assert(self.journal@[k].0 < self.mark());
        }
    }

    /// Edges join two distinct nodes of the graph.
    pub proof fn lemma_edge_bounds(&self)
        requires
            self.wf(),
        ensures
            forall|a: int, b: int| #[trigger] self.has_edge(a, b) ==> 0 <= a < self.len_spec() && 0 <= b < self.len_spec() && a != b,
    {
        assert forall|a: int, b: int| #[trigger] self.has_edge(a, b) implies 0 <= a < self.len_spec() && 0 <= b < self.len_spec()
            && a != b by {
            assert(self.succ(a).contains_key(b as usize));
        }
    }

    pub fn new() -> (r: Self)
        ensures
            r.wf(),
            r.closed(),
            r.edges() == Map::<(int, int), E>::empty(),
            r.len_spec() == 0,
            r.mark() == 0,
            r.journal_log().len() == 0,
    {
        let r = Self { nodes: Vec::new(), rewind_mark: I::from_usize(0), journal: Vec::new() };
        proof {
            assert(r.journal_log() =~= Seq::<(int, int, Option<E>)>::empty());
            assert(r.edges() =~= Map::<(int, int), E>::empty());
        }
        r
    }

    pub fn len(&self) -> (r: usize)
        ensures
            r == self.len_spec(),
    {
        self.nodes.len()
    }

    pub fn get(&self, i: I) -> (r: Option<&N>)
        ensures
            i.index() < self.len_spec() ==> r == Some(&self.data(i.index() as int)),
            i.index() >= self.len_spec() ==> r.is_none(),
    {
        let i = i.to_usize();
        if i < self.nodes.len() {
            Some(&self.nodes[i].data)
        } else {
            None
        }
    }

    /// The two graphs differ at most in their node data.
    pub closed spec fn same_structure(r1: Self, r2: Self) -> bool {
        &&& r1.nodes@.len() == r2.nodes@.len()
        &&& forall|a: int|
            0 <= a < r1.nodes@.len() ==> (#[trigger] r2.nodes@[a]).flows_to == r1.nodes@[a].flows_to
                && r2.nodes@[a].flows_from == r1.nodes@[a].flows_from
        &&& r1.journal == r2.journal
        &&& r1.rewind_mark == r2.rewind_mark
    }

    pub fn get_mut(&mut self, i: I) -> (r: Option<&mut N>)
        requires
            old(self).wf(),
        ensures
            Self::same_structure(*old(self), *final(self)),
            final(self).wf(),
            final(self).len_spec() == old(self).len_spec(),
            final(self).edges() == old(self).edges(),
            final(self).mark() == old(self).mark(),
            final(self).journal_log() == old(self).journal_log(),
            match r {
                Some(d) => {
                    &&& i.index() < old(self).len_spec()
                    &&& *d == old(self).data(i.index() as int)
                    &&& final(self).data_seq() == old(self).data_seq().update(i.index() as int, *final(d))
                },
                None => {
                    &&& i.index() >= old(self).len_spec()
                    &&& final(self).data_seq() == old(self).data_seq()
                },
            },
    {
        broadcast use lemma_same_structure;

        let i = i.to_usize();
        if i < self.nodes.len() {
            Some(&mut self.nodes[i].data)
        } else {
            None
        }
    }

    /// Mutable access to the data of two distinct nodes at once.
    pub fn get_mut_pair(&mut self, lhs: I, rhs: I) -> (r: Option<(&mut N, &mut N)>)
        requires
            old(self).wf(),
        ensures
            Self::same_structure(*old(self), *final(self)),
            final(self).len_spec() == old(self).len_spec(),
            final(self).edges() == old(self).edges(),
            final(self).mark() == old(self).mark(),
            final(self).journal_log() == old(self).journal_log(),
            match r {
                Some(pair) => {
                    &&& lhs.index() != rhs.index()
                    &&& lhs.index() < old(self).len_spec()
                    &&& rhs.index() < old(self).len_spec()
                    &&& *pair.0 == old(self).data(lhs.index() as int)
                    &&& *pair.1 == old(self).data(rhs.index() as int)
                    &&& final(self).data_seq() == old(self).data_seq().update(lhs.index() as int, *final(pair.0)).update(
                        rhs.index() as int,
                        *final(pair.1),
                    )
                },
                None => {
                    &&& (lhs.index() == rhs.index() || lhs.index() >= old(self).len_spec() || rhs.index()
                        >= old(self).len_spec())
                    &&& final(self).data_seq() == old(self).data_seq()
                },
            },
            final(self).wf(),
    {
        broadcast use lemma_same_structure;

        let l = lhs.to_usize();
        let r = rhs.to_usize();
        let n = self.nodes.len();
        if l == r || l >= n || r >= n {
            return None;
        }
        let swapped = l > r;
        let (lo, hi) = if swapped {
            (r, l)
        } else {
            (l, r)
        };
        let (a, b) = self.data_pair(lo, hi);
        if swapped {
            Some((b, a))
        } else {
            Some((a, b))
        }
    }

    /// Lends out the data of nodes `l` and `r`, with `l < r`.
    fn data_pair(&mut self, l: usize, r: usize) -> (res: (&mut N, &mut N))
        requires
            old(self).wf(),
            l < r < old(self).len_spec(),
        ensures
            Self::same_structure(*old(self), *final(self)),
            final(self).wf(),
            final(self).edges() == old(self).edges(),
            *res.0 == old(self).data(l as int),
            *res.1 == old(self).data(r as int),
            final(self).data_seq() == old(self).data_seq().update(l as int, *final(res.0)).update(
                r as int,
                *final(res.1),
            ),
    {
        broadcast use lemma_same_structure;

        Self::nodes_pair(&mut self.nodes, l, r)
    }

    fn nodes_pair(nodes: &mut Vec<ReachabilityNode<N, E>>, l: usize, r: usize) -> (res: (&mut N, &mut N))
        requires
            l < r < old(nodes)@.len(),
        ensures
            final(nodes)@.len() == old(nodes)@.len(),
            forall|a: int|
                0 <= a < old(nodes)@.len() ==> (#[trigger] final(nodes)@[a]).flows_to == old(nodes)@[a].flows_to
                    && final(nodes)@[a].flows_from == old(nodes)@[a].flows_from,
            forall|a: int|
                0 <= a < old(nodes)@.len() && a != l && a != r ==> (#[trigger] final(nodes)@[a]).data
                    == old(nodes)@[a].data,
            *res.0 == old(nodes)@[l as int].data,
            *res.1 == old(nodes)@[r as int].data,
            final(nodes)@[l as int].data == *final(res.0),
            final(nodes)@[r as int].data == *final(res.1),
    {
        let (left, right) = nodes.as_mut_slice().split_at_mut(r);
        (&mut left[l].data, &mut right[0].data)
    }

    pub fn get_edge(&self, lhs: I, rhs: I) -> (r: Option<&E>)
        requires
            self.wf(),
        ensures
            self.has_edge(lhs.index() as int, rhs.index() as int) ==> r == Some(
                &self.edge(lhs.index() as int, rhs.index() as int),
            ),
            !self.has_edge(lhs.index() as int, rhs.index() as int) ==> r.is_none(),
    {
        let l = lhs.to_usize();
        let r = rhs.to_usize();
        if l < self.nodes.len() {
            let res = self.nodes[l].flows_to.m.get(&r);
            proof {
                if self.succ(l as int).contains_key(r) {
                    assert(r < self.nodes@.len());
                }
            }
            res
        } else {
            None
        }
    }

    pub fn add_node(&mut self, data: N) -> (r: I)
        requires
            old(self).wf(),
            old(self).len_spec() <= INDEX_LIMIT,
        ensures
            final(self).wf(),
            old(self).closed() ==> final(self).closed(),
            r.index() == old(self).len_spec(),
            final(self).len_spec() == old(self).len_spec() + 1,
            final(self).data_seq() == old(self).data_seq().push(data),
            final(self).edges() == old(self).edges(),
            forall|j: int| !final(self).has_edge(r.index() as int, j) && !final(self).has_edge(j, r.index() as int),
            final(self).mark() == old(self).mark(),
            final(self).journal_log() == old(self).journal_log(),
    {
        let i = self.nodes.len();
        let n = ReachabilityNode { data, flows_from: OrderedMap::new(), flows_to: OrderedMap::new() };
        self.nodes.push(n);
        proof {
            assert forall|a: int| 0 <= a < i implies #[trigger] self.nodes@[a] == old(self).nodes@[a] by {}
            assert(self.succ(i as int) =~= Map::<usize, E>::empty());
            assert(self.pred(i as int) =~= Map::<usize, E>::empty());
            assert(self.edges() =~= old(self).edges()) by {
                assert forall|p: (int, int)| #[trigger] self.edges().contains_key(p) <==> old(self).edges().contains_key(p) by {
                    if 0 <= p.0 < i {
                        assert(self.nodes@[p.0] == old(self).nodes@[p.0]);
                        if old(self).succ(p.0).contains_key(p.1 as usize) {
                            assert((p.1 as usize) < i);
                        }
                    }
                }
                assert forall|p: (int, int)| #[trigger] old(self).edges().contains_key(p) implies self.edges()[p] == old(self).edges()[p] by {
                    assert(self.nodes@[p.0] == old(self).nodes@[p.0]);
                }
            }
            assert(self.data_seq() =~= old(self).data_seq().push(data));
            assert forall|a: int|
                0 <= a < self.nodes@.len() implies (#[trigger] self.nodes@[a]).flows_to.wf() && self.nodes@[a].flows_from.wf() by {
                if a < i {
                    assert(self.nodes@[a] == old(self).nodes@[a]);
                }
            }
            assert forall|a: int, k: usize|
                0 <= a < self.nodes@.len() && #[trigger] self.succ(a).contains_key(k) implies k < self.nodes@.len() && k != a by {
                assert(a < i);
                assert(old(self).succ(a).contains_key(k));
            }
            assert forall|a: int, k: usize|
                0 <= a < self.nodes@.len() && #[trigger] self.pred(a).contains_key(k) implies k < self.nodes@.len() && k != a by {
                assert(a < i);
                assert(old(self).pred(a).contains_key(k));
            }
            assert forall|a: int, b: int|
                0 <= a < self.nodes@.len() && 0 <= b < self.nodes@.len() implies (#[trigger] self.succ(a).contains_key(
                b as usize,
            ) <==> #[trigger] self.pred(b).contains_key(a as usize)) by {
                if a < i && b < i {
                    assert(old(self).succ(a).contains_key(b as usize) <==> old(self).pred(b).contains_key(a as usize));
                } else if a < i {
                    assert(!old(self).succ(a).contains_key(b as usize));
                } else if b < i {
                    assert(!old(self).pred(b).contains_key(a as usize));
                }
            }
            assert forall|a: int, b: int|
                0 <= a < self.nodes@.len() && 0 <= b < self.nodes@.len() && #[trigger] self.succ(a).contains_key(
                b as usize,
            ) implies self.succ(a)[b as usize] == #[trigger] self.pred(b)[a as usize] by {
                assert(a < i);
                assert(old(self).succ(a).contains_key(b as usize));
                assert(b < i);
                assert(old(self).succ(a)[b as usize] == old(self).pred(b)[a as usize]);
            }
            assert(restrict_below(self.edges(), self.mark()) == restrict_below(old(self).edges(), old(self).mark()));
            old(self).lemma_edge_bounds();
            assert forall|j: int| !self.has_edge(i as int, j) && !self.has_edge(j, i as int) by {
                assert(self.edges().contains_key((i as int, j)) == old(self).edges().contains_key((i as int, j)));
                assert(self.edges().contains_key((j, i as int)) == old(self).edges().contains_key((j, i as int)));
            }
        }
        I::from_usize(i)
    }

    /// Sets the value of the edge from `lhs` to `rhs` in both directions, journaling
    /// the old value when both nodes are below the saved point.
    fn update_edge_value(&mut self, lhs: usize, rhs: usize, val: E)
        requires
            old(self).wf(),
            lhs < old(self).nodes@.len(),
            rhs < old(self).nodes@.len(),
            lhs != rhs,
        ensures
            final(self).wf(),
            final(self).nodes@.len() == old(self).nodes@.len(),
            final(self).data_seq() == old(self).data_seq(),
            final(self).edges() == old(self).edges().insert((lhs as int, rhs as int), val),
            final(self).mark() == old(self).mark(),
            final(self).state_at_mark() == old(self).state_at_mark(),
            final(self).succ(lhs as int) == old(self).succ(lhs as int).insert(rhs, val),
            forall|a: int| 0 <= a < old(self).nodes@.len() && a != lhs ==> final(self).succ(a) == old(self).succ(a),
            forall|a: int| 0 <= a < old(self).nodes@.len() && a != rhs ==> final(self).pred(a) == old(self).pred(a),
    {
        let ghost old_edges = self.edges();
        let ghost mark = self.mark();
        let ghost restricted = restrict_below(old_edges, mark);
        let prev = self.nodes[lhs].flows_to.insert(rhs, val);
        self.nodes[rhs].flows_from.insert(lhs, val);
        let m = self.rewind_mark.to_usize();
        let ghost jlog = old(self).journal_log();
        if lhs < m && rhs < m {
            self.journal.push((lhs, rhs, prev));
        }
        proof {
            assert forall|a: int| 0 <= a < self.nodes@.len() && a != lhs && a != rhs implies self.nodes@[a] == old(self).nodes@[a] by {}
            assert(self.nodes@[lhs as int].flows_from == old(self).nodes@[lhs as int].flows_from);
            assert(self.nodes@[rhs as int].flows_to == old(self).nodes@[rhs as int].flows_to);
            assert(self.nodes@[lhs as int].data == old(self).nodes@[lhs as int].data);
            assert(self.nodes@[rhs as int].data == old(self).nodes@[rhs as int].data);
            assert(self.edges() =~= old_edges.insert((lhs as int, rhs as int), val)) by {
                assert forall|p: (int, int)| #[trigger] self.edges().contains_key(p) <==> old_edges.insert((lhs as int, rhs as int), val).contains_key(p) by {
                    if 0 <= p.0 < self.nodes@.len() && p.0 != lhs {
                        assert(self.succ(p.0) == old(self).succ(p.0));
                    }
                }
                assert forall|p: (int, int)| #[trigger] self.edges().contains_key(p) implies self.edges()[p] == old_edges.insert((lhs as int, rhs as int), val)[p] by {
                    if p.0 != lhs {
                        assert(self.succ(p.0) == old(self).succ(p.0));
                    }
                }
            }
            assert(self.data_seq() =~= old(self).data_seq()) by {
                assert forall|a: int| 0 <= a < self.nodes@.len() implies self.data_seq()[a] == old(self).data_seq()[a] by {
                    if a != lhs && a != rhs {
                        assert(self.nodes@[a] == old(self).nodes@[a]);
                    }
                }
            }
            assert forall|a: int|
                0 <= a < self.nodes@.len() implies (#[trigger] self.nodes@[a]).flows_to.wf() && self.nodes@[a].flows_from.wf() by {
                if a != lhs && a != rhs {
                    assert(self.nodes@[a] == old(self).nodes@[a]);
                }
            }
            assert forall|a: int, k: usize|
                0 <= a < self.nodes@.len() && #[trigger] self.succ(a).contains_key(k) implies k < self.nodes@.len() && k != a by {
                if a != lhs {
                    assert(self.succ(a) == old(self).succ(a));
                } else if k != rhs {
                    assert(old(self).succ(a).contains_key(k));
                }
            }
            assert forall|a: int, k: usize|
                0 <= a < self.nodes@.len() && #[trigger] self.pred(a).contains_key(k) implies k < self.nodes@.len() && k != a by {
                if a != rhs {
                    assert(self.pred(a) == old(self).pred(a));
                } else if k != lhs {
                    assert(old(self).pred(a).contains_key(k));
                }
            }
            assert forall|a: int, b: int|
                0 <= a < self.nodes@.len() && 0 <= b < self.nodes@.len() implies (#[trigger] self.succ(a).contains_key(
                b as usize,
            ) <==> #[trigger] self.pred(b).contains_key(a as usize)) by {
                assert(old(self).succ(a).contains_key(b as usize) <==> old(self).pred(b).contains_key(a as usize));
                if a != lhs {
                    assert(self.succ(a) == old(self).succ(a));
                }
                if b != rhs {
                    assert(self.pred(b) == old(self).pred(b));
                }
            }
            assert forall|a: int, b: int|
                0 <= a < self.nodes@.len() && 0 <= b < self.nodes@.len() && #[trigger] self.succ(a).contains_key(
                b as usize,
            ) implies self.succ(a)[b as usize] == #[trigger] self.pred(b)[a as usize] by {
                if a != lhs {
                    assert(self.succ(a) == old(self).succ(a));
                }
                if b != rhs {
                    assert(self.pred(b) == old(self).pred(b));
                }
                if (a, b) != (lhs as int, rhs as int) {
                    assert(old(self).succ(a).contains_key(b as usize));
                    assert(old(self).succ(a)[b as usize] == old(self).pred(b)[a as usize]);
                }
            }
            let new_edges = self.edges();
            let new_res = restrict_below(new_edges, mark);
            if lhs < m && rhs < m {
                assert(self.journal_log() =~= jlog.push((lhs as int, rhs as int, prev)));
                assert(prev == restricted.get((lhs as int, rhs as int)));
                assert(undo_edge(new_res, (lhs as int, rhs as int, prev)) =~= restricted);
                assert(self.journal_log().drop_last() =~= jlog);
                assert(new_res.contains_key((lhs as int, rhs as int)));
            } else {
                assert(self.journal_log() =~= jlog);
                assert(new_res =~= restricted);
            }
            assert forall|k: int|
                0 <= k < self.journal@.len() implies (#[trigger] self.journal@[k]).0 < self.mark() && self.journal@[k].1
                < self.mark() by {
                if k < old(self).journal@.len() {
                    assert(self.journal@[k] == old(self).journal@[k]);
                }
            }
        }
    }

    /// Adds the edge `lhs -> rhs` with value `edge_val`, together with every edge
    /// that transitivity then requires. Each edge that is added, or whose value
    /// improves, is appended to `out` with its new value.
    pub fn add_edge(&mut self, lhs: I, rhs: I, edge_val: E, out: &mut Vec<(I, I, E)>)
        requires
            old(self).wf(),
            old(self).closed(),
            lhs.index() < old(self).len_spec(),
            rhs.index() < old(self).len_spec(),
        ensures
            forall|a: int, b: int|
                #[trigger] final(self).has_edge(a, b) <==> old(self).has_edge(a, b) || (through(
                    *old(self),
                    lhs.index() as int,
                    rhs.index() as int,
                    a,
                    b,
                ) && a != b),
            forall|j: int|
                old(out)@.len() <= j < final(out)@.len() ==> (#[trigger] final(out)@[j]).0.index() != final(out)@[j].1.index(),
            forall|j: int|
                old(out)@.len() <= j < final(out)@.len() && #[trigger] last_for(final(out)@, j) ==> final(out)@[j].2
                    == final(self).edge(final(out)@[j].0.index() as int, final(out)@[j].1.index() as int),
            lhs.index() == rhs.index() ==> final(self).edges() == old(self).edges() && final(out)@ == old(out)@,
            old(self).has_edge(lhs.index() as int, rhs.index() as int) && !old(self).edge(
                lhs.index() as int,
                rhs.index() as int,
            ).improves(&edge_val) ==> final(self).edges() == old(self).edges() && final(out)@ == old(out)@,
            final(self).wf(),
            final(self).closed(),
            final(self).len_spec() == old(self).len_spec(),
            final(self).data_seq() == old(self).data_seq(),
            final(self).mark() == old(self).mark(),
            final(self).state_at_mark() == old(self).state_at_mark(),
            lhs.index() != rhs.index() ==> final(self).has_edge(lhs.index() as int, rhs.index() as int),
            forall|a: int, b: int|
                #[trigger] old(self).has_edge(a, b) ==> final(self).has_edge(a, b) && final(self).edge(a, b).rank()
                    <= old(self).edge(a, b).rank(),
            final(out)@.len() >= old(out)@.len(),
            final(out)@.subrange(0, old(out)@.len() as int) == old(out)@,
            forall|j: int|
                old(out)@.len() <= j < final(out)@.len() ==> final(self).has_edge(
                    (#[trigger] final(out)@[j]).0.index() as int,
                    final(out)@[j].1.index() as int,
                ),
            forall|a: int, b: int|
                #[trigger] final(self).has_edge(a, b) && !(old(self).has_edge(a, b) && old(self).edge(a, b)
                    == final(self).edge(a, b)) ==> exists|j: int|
                    old(out)@.len() <= j < final(out)@.len() && (#[trigger] final(out)@[j]).0.index() == a
                        && final(out)@[j].1.index() == b && final(out)@[j].2 == final(self).edge(a, b),
            forall|a: int, b: int|
                #[trigger] final(self).has_edge(a, b) && !(old(self).has_edge(a, b) && old(self).edge(a, b)
                    == final(self).edge(a, b)) ==> (a == lhs.index() && b == rhs.index() && final(self).edge(a, b)
                    == edge_val) || exists|m: I, e1: E, e2: E|
                    m.index() < final(self).len_spec() && final(self).has_edge(a, m.index() as int)
                        && final(self).has_edge(m.index() as int, b) && #[trigger] e1.via(final(self).data_seq()[m.index() as int], m, e2)
                        == final(self).edge(a, b),
    {
        let ghost s0 = *self;
        let ghost out0 = out@;
        let mut work: Vec<(usize, usize, E)> = Vec::new();
        work.push((lhs.to_usize(), rhs.to_usize(), edge_val));
        let n = self.nodes.len();
        proof {
            assert(work@[0].0 == lhs.index() && work@[0].1 == rhs.index());
            assert forall|a: int, b: int, c: int|
                #![trigger self.has_edge(a, b), self.has_edge(b, c)]
                self.has_edge(a, b) && self.has_edge(b, c) && a != c implies self.has_edge(a, c) by {
                assert(self.edges().contains_key((a, b)));
                assert(self.edges().contains_key((b, c)));
                assert(self.edges().contains_key((a, c)));
            }
            assert(out@.subrange(0, out0.len() as int) =~= out0);
        }
        while work.len() > 0
            invariant
                self.wf(),
                self.nodes@.len() == n,
                n == s0.nodes@.len(),
                s0.wf(),
                self.data_seq() == s0.data_seq(),
                self.mark() == s0.mark(),
                self.state_at_mark() == s0.state_at_mark(),
                forall|i: int| 0 <= i < work@.len() ==> (#[trigger] work@[i]).0 < n && work@[i].1 < n,
                lhs.index() != rhs.index() ==> self.has_edge(lhs.index() as int, rhs.index() as int) || exists|i: int|
                    0 <= i < work@.len() && (#[trigger] work@[i]).0 == lhs.index() && work@[i].1 == rhs.index(),
                forall|a: int, b: int, c: int|
                    #![trigger self.has_edge(a, b), self.has_edge(b, c)]
                    self.has_edge(a, b) && self.has_edge(b, c) && a != c && !self.has_edge(a, c) ==> exists|i: int|
                        0 <= i < work@.len() && (#[trigger] work@[i]).0 == a && work@[i].1 == c,
                forall|a: int, b: int|
                    #[trigger] s0.has_edge(a, b) ==> self.has_edge(a, b) && self.edge(a, b).rank() <= s0.edge(a, b).rank(),
                forall|i: int| 0 <= i < work@.len() ==> through(s0, lhs.index() as int, rhs.index() as int, (#[trigger] work@[i]).0 as int, work@[i].1 as int),
                forall|a: int, b: int| #[trigger] self.has_edge(a, b) ==> s0.has_edge(a, b) || through(s0, lhs.index() as int, rhs.index() as int, a, b),
                forall|j: int| out0.len() <= j < out@.len() ==> (#[trigger] out@[j]).0.index() != out@[j].1.index(),
                forall|j: int|
                    out0.len() <= j < out@.len() && #[trigger] last_for(out@, j) ==> out@[j].2 == self.edge(
                        out@[j].0.index() as int,
                        out@[j].1.index() as int,
                    ),
                lhs.index() == rhs.index() ==> out@ == out0 && self.edges() == s0.edges() && forall|i: int|
                    0 <= i < work@.len() ==> (#[trigger] work@[i]).0 == work@[i].1,
                s0.has_edge(lhs.index() as int, rhs.index() as int) && !s0.edge(lhs.index() as int, rhs.index() as int).improves(
                    &edge_val,
                ) ==> out@ == out0 && *self == s0 && (work@.len() == 0 || (work@.len() == 1 && work@[0].0 == lhs.index() && work@[0].1 == rhs.index() && work@[0].2 == edge_val)),
                s0.closed(),
                out@.len() >= out0.len(),
                out@.subrange(0, out0.len() as int) == out0,
                forall|j: int|
                    out0.len() <= j < out@.len() ==> self.has_edge(
                        (#[trigger] out@[j]).0.index() as int,
                        out@[j].1.index() as int,
                    ),
                forall|a: int, b: int|
                    #[trigger] self.has_edge(a, b) && !(s0.has_edge(a, b) && s0.edge(a, b) == self.edge(a, b))
                        ==> exists|j: int|
                        out0.len() <= j < out@.len() && (#[trigger] out@[j]).0.index() == a && out@[j].1.index() == b
                            && out@[j].2 == self.edge(a, b),
                forall|i: int|
                    0 <= i < work@.len() ==> proposed(
                        *self,
                        lhs,
                        rhs,
                        edge_val,
                        (#[trigger] work@[i]).0 as int,
                        work@[i].1 as int,
                        work@[i].2,
                    ),
                forall|a: int, b: int|
                    #[trigger] self.has_edge(a, b) && !(s0.has_edge(a, b) && s0.edge(a, b) == self.edge(a, b))
                        ==> proposed(*self, lhs, rhs, edge_val, a, b, self.edge(a, b)),
            decreases self.potential(), work@.len(),
        {
            let ghost w0 = work@;
            let ghost s1 = *self;
            let ghost out1 = out@;
            let (lhs_i, rhs_i, mut val) = work.pop().unwrap();
            let ghost item = val;
            proof {
                assert(w0.last() == (lhs_i, rhs_i, val));
                assert(work@ == w0.drop_last());
                assert forall|i: int| 0 <= i < work@.len() implies proposed(
                    *self,
                    lhs,
                    rhs,
                    edge_val,
                    (#[trigger] work@[i]).0 as int,
                    work@[i].1 as int,
                    work@[i].2,
                ) by {
                    assert(work@[i] == w0[i]);
                }
                assert(proposed(*self, lhs, rhs, edge_val, lhs_i as int, rhs_i as int, item)) by {
                    assert(w0[w0.len() - 1] == (lhs_i, rhs_i, val));
                }
            }
            if lhs_i == rhs_i {
                proof {
                    self.lemma_cover_after_drop(w0, lhs_i, rhs_i);
                    if lhs.index() != rhs.index() && !self.has_edge(lhs.index() as int, rhs.index() as int) {
                        let i = choose|i: int| 0 <= i < w0.len() && (#[trigger] w0[i]).0 == lhs.index() && w0[i].1 == rhs.index();
                        assert(work@[i] == w0[i]);
                    }
                }
                continue;
            }
            let existing = self.nodes[lhs_i].flows_to.m.get(&rhs_i);
            match existing {
                Some(e) => {
                    let mut cur = *e;
                    if cur.update(&val) {
                        val = cur;
                    } else {
                        proof {
                            assert(self.has_edge(lhs_i as int, rhs_i as int));
                            self.lemma_cover_after_drop(w0, lhs_i, rhs_i);
                            if lhs.index() != rhs.index() && !self.has_edge(lhs.index() as int, rhs.index() as int) {
                                let i = choose|i: int| 0 <= i < w0.len() && (#[trigger] w0[i]).0 == lhs.index() && w0[i].1 == rhs.index();
                                assert(work@[i] == w0[i]);
                            }
                        }
                        continue;
                    }
                },
                None => {},
            }
            let ghost had = self.has_edge(lhs_i as int, rhs_i as int);
            proof {
                if had {
                    assert(val.rank() < self.edge(lhs_i as int, rhs_i as int).rank());
                }
                E::lemma_rank_limit(val);
            }
            self.update_edge_value(lhs_i, rhs_i, val);
            proof {
                self.lemma_potential_drop(s1, lhs_i, rhs_i, val, had);
                assert(val == item);
                assert forall|x: int, y: int| #[trigger] s1.has_edge(x, y) implies self.has_edge(x, y) by {
                    assert(s1.edges().contains_key((x, y)));
                    assert(self.edges().contains_key((x, y)));
                }
                assert(self.len_spec() == s1.len_spec());
                assert forall|i: int| 0 <= i < work@.len() implies proposed(
                    *self,
                    lhs,
                    rhs,
                    edge_val,
                    (#[trigger] work@[i]).0 as int,
                    work@[i].1 as int,
                    work@[i].2,
                ) by {
                    if made_through(s1, work@[i].0 as int, work@[i].1 as int, work@[i].2) {
                        lemma_made_through_grow(s1, *self, work@[i].0 as int, work@[i].1 as int, work@[i].2);
                    }
                }
                assert forall|a: int, b: int|
                    #[trigger] self.has_edge(a, b) && !(s0.has_edge(a, b) && s0.edge(a, b) == self.edge(a, b))
                        implies proposed(*self, lhs, rhs, edge_val, a, b, self.edge(a, b)) by {
                    assert(self.edges().contains_key((a, b)));
                    if (a, b) == (lhs_i as int, rhs_i as int) {
                        assert(self.edge(a, b) == val);
                        if made_through(s1, a, b, item) {
                            lemma_made_through_grow(s1, *self, a, b, item);
                        }
                    } else {
                        assert(s1.edges().contains_key((a, b)));
                        assert(s1.has_edge(a, b));
                        assert(s1.edge(a, b) == self.edge(a, b));
                        if made_through(s1, a, b, s1.edge(a, b)) {
                            lemma_made_through_grow(s1, *self, a, b, s1.edge(a, b));
                        }
                    }
                }
                assert(self.has_edge(lhs_i as int, rhs_i as int)) by {
                    assert(self.edges().contains_key((lhs_i as int, rhs_i as int)));
                }
            }
            let ghost s2 = *self;
            let preds = self.nodes[lhs_i].flows_from.iter();
            let lhs_ind = I::from_usize(lhs_i);
            let mut k: usize = 0;
            while k < preds.len()
                invariant
                    *self == s2,
                    s2.wf(),
                    w0.len() > 0,
                    lhs_i < n,
                    rhs_i < n,
                    n == s2.nodes@.len(),
                    preds@.len() == s2.nodes@[lhs_i as int].flows_from.order().len(),
                    forall|q: int| 0 <= q < preds@.len() ==> #[trigger] preds@[q].0 == s2.nodes@[lhs_i as int].flows_from.order()[q],
                    0 <= k <= preds@.len(),
                    work@.len() == w0.len() - 1 + k,
                    forall|q: int| 0 <= q < w0.len() - 1 ==> #[trigger] work@[q] == w0[q],
                    forall|q: int| 0 <= q < k ==> (#[trigger] work@[w0.len() - 1 + q]).0 == preds@[q].0 && work@[w0.len() - 1 + q].1 == rhs_i,
                    lhs_ind.index() == lhs_i,
                    s2.has_edge(lhs_i as int, rhs_i as int),
                    forall|i: int|
                        0 <= i < work@.len() ==> proposed(
                            s2,
                            lhs,
                            rhs,
                            edge_val,
                            (#[trigger] work@[i]).0 as int,
                            work@[i].1 as int,
                            work@[i].2,
                        ),
                decreases preds@.len() - k,
            {
                let (lhs2, e2) = preds[k];
                let new_edge = val.with_intermediate_node(&self.nodes[lhs_i].data, lhs_ind, e2);
                proof {
                    let ord = s2.nodes@[lhs_i as int].flows_from.order();
                    assert(ord[k as int] == lhs2);
                    assert(ord.contains(lhs2));
                    s2.lemma_order_keys(lhs_i as int, false, lhs2);
                    assert(s2.succ(lhs2 as int).contains_key((lhs_i as int) as usize) <==> s2.pred(lhs_i as int).contains_key(
                        (lhs2 as int) as usize,
                    ));
                    assert(s2.has_edge(lhs2 as int, lhs_i as int));
                    assert(s2.data_seq()[lhs_i as int] == s2.nodes@[lhs_i as int].data);
                    assert(val.via(s2.data_seq()[lhs_ind.index() as int], lhs_ind, *e2) == new_edge);
                    assert(made_through(s2, lhs2 as int, rhs_i as int, new_edge));
                }
                let ghost wb = work@;
                work.push((lhs2, rhs_i, new_edge));
                proof {
                    assert forall|i: int| 0 <= i < work@.len() implies proposed(
                        s2,
                        lhs,
                        rhs,
                        edge_val,
                        (#[trigger] work@[i]).0 as int,
                        work@[i].1 as int,
                        work@[i].2,
                    ) by {
                        if i < wb.len() {
                            assert(work@[i] == wb[i]);
                        }
                    }
                    assert(lhs2 == preds@[k as int].0);
                    assert(work@[w0.len() - 1 + k] == (lhs2, rhs_i, new_edge));
                    assert forall|q: int| 0 <= q < w0.len() - 1 + k implies #[trigger] work@[q] == wb[q] by {}
                    assert forall|q: int| 0 <= q < k + 1 implies (#[trigger] work@[w0.len() - 1 + q]).0 == preds@[q].0 && work@[w0.len() - 1 + q].1 == rhs_i by {
                        if q < k {
                            assert(work@[w0.len() - 1 + q] == wb[w0.len() - 1 + q]);
                        }
                    }
                }
                k = k + 1;
            }
            let ghost w_mid = work@;
            let succs = self.nodes[rhs_i].flows_to.iter();
            let rhs_ind = I::from_usize(rhs_i);
            let mut k: usize = 0;
            while k < succs.len()
                invariant
                    *self == s2,
                    s2.wf(),
                    w0.len() > 0,
                    lhs_i < n,
                    rhs_i < n,
                    n == s2.nodes@.len(),
                    succs@.len() == s2.nodes@[rhs_i as int].flows_to.order().len(),
                    forall|q: int| 0 <= q < succs@.len() ==> #[trigger] succs@[q].0 == s2.nodes@[rhs_i as int].flows_to.order()[q],
                    0 <= k <= succs@.len(),
                    work@.len() == w_mid.len() + k,
                    forall|q: int| 0 <= q < w_mid.len() ==> #[trigger] work@[q] == w_mid[q],
                    forall|q: int| 0 <= q < k ==> (#[trigger] work@[w_mid.len() + q]).0 == lhs_i && work@[w_mid.len() + q].1 == succs@[q].0,
                    rhs_ind.index() == rhs_i,
                    s2.has_edge(lhs_i as int, rhs_i as int),
                    forall|i: int|
                        0 <= i < work@.len() ==> proposed(
                            s2,
                            lhs,
                            rhs,
                            edge_val,
                            (#[trigger] work@[i]).0 as int,
                            work@[i].1 as int,
                            work@[i].2,
                        ),
                decreases succs@.len() - k,
            {
                let (rhs2, e2) = succs[k];
                let new_edge = val.with_intermediate_node(&self.nodes[rhs_i].data, rhs_ind, e2);
                proof {
                    let ord = s2.nodes@[rhs_i as int].flows_to.order();
                    assert(ord[k as int] == rhs2);
                    assert(ord.contains(rhs2));
                    s2.lemma_order_keys(rhs_i as int, true, rhs2);
                    assert(s2.has_edge(rhs_i as int, rhs2 as int));
                    assert(s2.data_seq()[rhs_i as int] == s2.nodes@[rhs_i as int].data);
                    assert(val.via(s2.data_seq()[rhs_ind.index() as int], rhs_ind, *e2) == new_edge);
                    assert(made_through(s2, lhs_i as int, rhs2 as int, new_edge));
                }
                let ghost wb = work@;
                work.push((lhs_i, rhs2, new_edge));
                proof {
                    assert forall|i: int| 0 <= i < work@.len() implies proposed(
                        s2,
                        lhs,
                        rhs,
                        edge_val,
                        (#[trigger] work@[i]).0 as int,
                        work@[i].1 as int,
                        work@[i].2,
                    ) by {
                        if i < wb.len() {
                            assert(work@[i] == wb[i]);
                        }
                    }
                    assert(rhs2 == succs@[k as int].0);
                    assert(work@[w_mid.len() + k] == (lhs_i, rhs2, new_edge));
                    assert forall|q: int| 0 <= q < w_mid.len() + k implies #[trigger] work@[q] == wb[q] by {}
                    assert forall|q: int| 0 <= q < k + 1 implies (#[trigger] work@[w_mid.len() + q]).0 == lhs_i && work@[w_mid.len() + q].1 == succs@[q].0 by {
                        if q < k {
                            assert(work@[w_mid.len() + q] == wb[w_mid.len() + q]);
                        }
                    }
                }
                k = k + 1;
            }
            let ghost out_before = out@;
            out.push((lhs_ind, rhs_ind, val));
            proof {
                assert(lhs.index() != rhs.index());
                assert(through(s0, lhs.index() as int, rhs.index() as int, lhs_i as int, rhs_i as int));
                assert forall|a: int, b: int| #[trigger] self.has_edge(a, b) implies s0.has_edge(a, b) || through(
                    s0,
                    lhs.index() as int,
                    rhs.index() as int,
                    a,
                    b,
                ) by {
                    assert(self.edges().contains_key((a, b)));
                    if (a, b) != (lhs_i as int, rhs_i as int) {
                        assert(s1.edges().contains_key((a, b)));
                    }
                }
                assert forall|i: int| 0 <= i < work@.len() implies through(
                    s0,
                    lhs.index() as int,
                    rhs.index() as int,
                    (#[trigger] work@[i]).0 as int,
                    work@[i].1 as int,
                ) by {
                    if i < w0.len() - 1 {
                        assert(work@[i] == w0[i]);
                    } else if i < w_mid.len() {
                        let q = i - (w0.len() - 1);
                        assert(work@[i] == w_mid[i]);
                        assert(w_mid[w0.len() - 1 + q].0 == preds@[q].0 && w_mid[w0.len() - 1 + q].1 == rhs_i);
                        let x = preds@[q].0;
                        let ord = s2.nodes@[lhs_i as int].flows_from.order();
                        assert(ord[q] == x);
                        assert(ord.contains(x));
                        s2.lemma_order_keys(lhs_i as int, false, x);
                        assert(s2.pred(lhs_i as int).contains_key(x));
                        assert(x < n);
                        assert(s2.succ(x as int).contains_key((lhs_i as int) as usize) <==> s2.pred(lhs_i as int).contains_key(
                            (x as int) as usize,
                        ));
                        assert(s2.succ(x as int).contains_key(lhs_i));
                        assert(self.has_edge(x as int, lhs_i as int));
                        assert(s0.has_edge(x as int, lhs_i as int) || through(s0, lhs.index() as int, rhs.index() as int, x as int, lhs_i as int));
                        assert(through(s0, lhs.index() as int, rhs.index() as int, lhs_i as int, rhs_i as int));
                        if s0.has_edge(x as int, lhs_i as int) && x as int != lhs.index() && lhs_i as int != lhs.index() {
                            assert(s0.edges().contains_key((x as int, lhs_i as int)));
                            assert(s0.edges().contains_key((lhs_i as int, lhs.index() as int)));
                            assert(s0.edges().contains_key((x as int, lhs.index() as int)));
                        }
                    } else {
                        let q = i - w_mid.len();
                        assert(work@[w_mid.len() + q].0 == lhs_i && work@[w_mid.len() + q].1 == succs@[q].0);
                        let y = succs@[q].0;
                        let ord = s2.nodes@[rhs_i as int].flows_to.order();
                        assert(ord[q] == y);
                        assert(ord.contains(y));
                        s2.lemma_order_keys(rhs_i as int, true, y);
                        assert(s2.succ(rhs_i as int).contains_key(y));
                        assert(self.has_edge(rhs_i as int, y as int));
                        assert(s0.has_edge(rhs_i as int, y as int) || through(s0, lhs.index() as int, rhs.index() as int, rhs_i as int, y as int));
                        assert(through(s0, lhs.index() as int, rhs.index() as int, lhs_i as int, rhs_i as int));
                        if s0.has_edge(rhs_i as int, y as int) && y as int != rhs.index() && rhs_i as int != rhs.index() {
                            assert(s0.edges().contains_key((rhs.index() as int, rhs_i as int)));
                            assert(s0.edges().contains_key((rhs_i as int, y as int)));
                            assert(s0.edges().contains_key((rhs.index() as int, y as int)));
                        }
                    }
                }
                assert forall|j: int| out0.len() <= j < out@.len() implies (#[trigger] out@[j]).0.index() != out@[j].1.index() by {
                    if j < out_before.len() {
                        assert(out@[j] == out_before[j]);
                    }
                }
                assert forall|j: int|
                    out0.len() <= j < out@.len() && #[trigger] last_for(out@, j) implies out@[j].2 == self.edge(
                    out@[j].0.index() as int,
                    out@[j].1.index() as int,
                ) by {
                    if j < out_before.len() {
                        assert(out@[j] == out_before[j]);
                        let k = out@.len() - 1;
                        assert(!(out@[k].0.index() == out@[j].0.index() && out@[k].1.index() == out@[j].1.index()));
                        assert(last_for(out_before, j)) by {
                            assert forall|k2: int| j < k2 < out_before.len() implies !(out_before[k2].0.index()
                                == out_before[j].0.index() && out_before[k2].1.index() == out_before[j].1.index()) by {
                                assert(out@[k2] == out_before[k2]);
                            }
                        }
                        let p = (out@[j].0.index() as int, out@[j].1.index() as int);
                        assert(p != (lhs_i as int, rhs_i as int));
                        assert(s1.has_edge(p.0, p.1));
                        assert(s1.edges().contains_key(p));
                        assert(self.edges()[p] == s1.edges()[p]);
                    } else {
                        assert(self.edges().contains_key((lhs_i as int, rhs_i as int)));
                        assert(self.edges()[(lhs_i as int, rhs_i as int)] == val);
                    }
                }
                self.lemma_cover_after_add(s1, w0, w_mid, work@, lhs_i, rhs_i, preds@, succs@);
                assert forall|i: int| 0 <= i < work@.len() implies (#[trigger] work@[i]).0 < n && work@[i].1 < n by {
                    if i < w0.len() - 1 {
                        assert(work@[i] == w0[i]);
                    } else if i < w_mid.len() {
                        let q = i - (w0.len() - 1);
                        assert(work@[i] == w_mid[i]);
                        assert(w_mid[w0.len() - 1 + q].0 == preds@[q].0);
                        let ord = s2.nodes@[lhs_i as int].flows_from.order();
                        assert(ord[q] == preds@[q].0);
                        assert(ord.contains(preds@[q].0));
                        s2.lemma_order_keys(lhs_i as int, false, preds@[q].0);
                    } else {
                        let q = i - w_mid.len();
                        assert(work@[w_mid.len() + q].1 == succs@[q].0);
                        let ord = s2.nodes@[rhs_i as int].flows_to.order();
                        assert(ord[q] == succs@[q].0);
                        assert(ord.contains(succs@[q].0));
                        s2.lemma_order_keys(rhs_i as int, true, succs@[q].0);
                    }
                }
                if lhs.index() != rhs.index() && !self.has_edge(lhs.index() as int, rhs.index() as int) {
                    let i = choose|i: int| 0 <= i < w0.len() && (#[trigger] w0[i]).0 == lhs.index() && w0[i].1 == rhs.index();
                    assert(i != w0.len() - 1);
                    assert(work@[i] == w0[i]);
                }
                assert forall|a: int, b: int|
                    #[trigger] s0.has_edge(a, b) implies self.has_edge(a, b) && self.edge(a, b).rank() <= s0.edge(a, b).rank() by {
                    assert(s1.has_edge(a, b));
                    assert(self.edges().contains_key((a, b)));
                    if (a, b) != (lhs_i as int, rhs_i as int) {
                        assert(s1.edges().contains_key((a, b)));
                        assert(self.edges()[(a, b)] == s1.edges()[(a, b)]);
                    }
                }
                assert(out@.subrange(0, out0.len() as int) =~= out0) by {
                    assert(out1.subrange(0, out0.len() as int) == out0);
                    assert forall|j: int| 0 <= j < out0.len() implies out@[j] == out1[j] by {}
                }
                assert forall|j: int|
                    out0.len() <= j < out@.len() implies self.has_edge(
                    (#[trigger] out@[j]).0.index() as int,
                    out@[j].1.index() as int,
                ) by {
                    if j < out1.len() {
                        assert(out@[j] == out1[j]);
                        let p = (out1[j].0.index() as int, out1[j].1.index() as int);
                        assert(s1.edges().contains_key(p));
                        assert(self.edges().contains_key(p));
                    } else {
                        assert(self.edges().contains_key((lhs_i as int, rhs_i as int)));
                    }
                }
                assert forall|a: int, b: int|
                    #[trigger] self.has_edge(a, b) && !(s0.has_edge(a, b) && s0.edge(a, b) == self.edge(a, b))
                    implies exists|j: int|
                    out0.len() <= j < out@.len() && (#[trigger] out@[j]).0.index() == a && out@[j].1.index() == b
                        && out@[j].2 == self.edge(a, b) by {
                    assert(self.edges().contains_key((a, b)));
                    if (a, b) == (lhs_i as int, rhs_i as int) {
                        assert(self.edges()[(a, b)] == val);
                        assert(out@[out@.len() - 1].2 == val);
                    } else {
                        assert(s1.edges().contains_key((a, b)));
                        assert(self.edges()[(a, b)] == s1.edges()[(a, b)]);
                        let j = choose|j: int|
                            out0.len() <= j < out1.len() && (#[trigger] out1[j]).0.index() == a && out1[j].1.index() == b
                                && out1[j].2 == s1.edge(a, b);
                        assert(out@[j] == out1[j]);
                    }
                }
            }
        }
    }

    /// The keys listed by a node's adjacency order are exactly its neighbours.
    proof fn lemma_order_keys(&self, a: int, to: bool, k: usize)
        requires
            self.wf(),
            0 <= a < self.nodes@.len(),
        ensures
            to ==> (self.nodes@[a].flows_to.order().contains(k) <==> self.succ(a).contains_key(k)),
            !to ==> (self.nodes@[a].flows_from.order().contains(k) <==> self.pred(a).contains_key(k)),
            to && self.succ(a).contains_key(k) ==> k < self.nodes@.len(),
            !to && self.pred(a).contains_key(k) ==> k < self.nodes@.len(),
    {
        let node = self.nodes@[a];
        if to {
            lemma_filter_contains(node.flows_to.keys@, |x: usize| node.flows_to.m@.contains_key(x), k);
            if self.succ(a).contains_key(k) {
                assert(node.flows_to.keys@.contains(k));
            }
        } else {
            lemma_filter_contains(node.flows_from.keys@, |x: usize| node.flows_from.m@.contains_key(x), k);
            if self.pred(a).contains_key(k) {
                assert(node.flows_from.keys@.contains(k));
            }
        }
    }

    proof fn lemma_potential_drop(&self, s1: Self, l: usize, r: usize, val: E, had: bool)
        requires
            s1.wf(),
            l < s1.nodes@.len(),
            r < s1.nodes@.len(),
            self.nodes@.len() == s1.nodes@.len(),
            had == s1.has_edge(l as int, r as int),
            had ==> val.rank() < s1.edge(l as int, r as int).rank(),
            val.rank() <= E::rank_limit(),
            self.succ(l as int) == s1.succ(l as int).insert(r, val),
            forall|a: int| 0 <= a < s1.nodes@.len() && a != l ==> self.succ(a) == s1.succ(a),
        ensures
            self.potential() < s1.potential(),
    {
        let n = s1.nodes@.len();
        let rows1 = s1.nodes@.map_values(|x: ReachabilityNode<N, E>| x.flows_to@);
        let rows2 = self.nodes@.map_values(|x: ReachabilityNode<N, E>| x.flows_to@);
        assert forall|a: int| 0 <= a < rows1.len() && a != l implies rows1[a] == rows2[a] by {
            assert(self.succ(a) == s1.succ(a));
        }
        lemma_total_update::<I, N, E>(rows1, rows2, l as nat, n, n);
        let m1 = rows1[l as int];
        let m2 = rows2[l as int];
        assert(m2 == m1.insert(r, val));
        lemma_row_update::<I, N, E>(m1, m2, r as nat, n);
        assert(weight::<I, N, E>(m2, r as nat) < weight::<I, N, E>(m1, r as nat)) by {
            assert((r as nat) as usize == r);
            if had {
                assert(m1.contains_key(r));
            } else {
                assert(!m1.contains_key(r));
            }
        }
    }

    /// Dropping a work item that needs no new edge keeps every transitivity gap covered.
    proof fn lemma_cover_after_drop(&self, w0: Seq<(usize, usize, E)>, l: usize, r: usize)
        requires
            w0.len() > 0,
            w0.last().0 == l,
            w0.last().1 == r,
            l == r || self.has_edge(l as int, r as int),
            forall|a: int, b: int, c: int|
                #![trigger self.has_edge(a, b), self.has_edge(b, c)]
                self.has_edge(a, b) && self.has_edge(b, c) && a != c && !self.has_edge(a, c) ==> exists|i: int|
                    0 <= i < w0.len() && (#[trigger] w0[i]).0 == a && w0[i].1 == c,
        ensures
            forall|a: int, b: int, c: int|
                #![trigger self.has_edge(a, b), self.has_edge(b, c)]
                self.has_edge(a, b) && self.has_edge(b, c) && a != c && !self.has_edge(a, c) ==> exists|i: int|
                    0 <= i < w0.drop_last().len() && (#[trigger] w0.drop_last()[i]).0 == a && w0.drop_last()[i].1 == c,
    {
        assert forall|a: int, b: int, c: int|
            #![trigger self.has_edge(a, b), self.has_edge(b, c)]
            self.has_edge(a, b) && self.has_edge(b, c) && a != c && !self.has_edge(a, c) implies exists|i: int|
                0 <= i < w0.drop_last().len() && (#[trigger] w0.drop_last()[i]).0 == a && w0.drop_last()[i].1 == c by {
            let i = choose|i: int| 0 <= i < w0.len() && (#[trigger] w0[i]).0 == a && w0[i].1 == c;
            assert(i != w0.len() - 1);
            assert(w0.drop_last()[i] == w0[i]);
        }
    }

    /// After adding the edge `l -> r` and queueing its extensions through the
    /// predecessors of `l` and the successors of `r`, every transitivity gap is covered.
    proof fn lemma_cover_after_add(
        &self,
        s1: Self,
        w0: Seq<(usize, usize, E)>,
        w_mid: Seq<(usize, usize, E)>,
        w: Seq<(usize, usize, E)>,
        l: usize,
        r: usize,
        preds: Seq<(usize, &E)>,
        succs: Seq<(usize, &E)>,
    )
        requires
            s1.wf(),
            self.wf(),
            self.nodes@.len() == s1.nodes@.len(),
            l < s1.nodes@.len(),
            r < s1.nodes@.len(),
            l != r,
            w0.len() > 0,
            w0.last().0 == l,
            w0.last().1 == r,
            self.edges() == s1.edges().insert((l as int, r as int), self.edge(l as int, r as int)),
            forall|a: int| 0 <= a < s1.nodes@.len() && a != r ==> self.pred(a) == s1.pred(a),
            forall|a: int| 0 <= a < s1.nodes@.len() && a != l ==> self.succ(a) == s1.succ(a),
            forall|a: int, b: int, c: int|
                #![trigger s1.has_edge(a, b), s1.has_edge(b, c)]
                s1.has_edge(a, b) && s1.has_edge(b, c) && a != c && !s1.has_edge(a, c) ==> exists|i: int|
                    0 <= i < w0.len() && (#[trigger] w0[i]).0 == a && w0[i].1 == c,
            preds.len() == self.nodes@[l as int].flows_from.order().len(),
            forall|q: int| 0 <= q < preds.len() ==> #[trigger] preds[q].0 == self.nodes@[l as int].flows_from.order()[q],
            succs.len() == self.nodes@[r as int].flows_to.order().len(),
            forall|q: int| 0 <= q < succs.len() ==> #[trigger] succs[q].0 == self.nodes@[r as int].flows_to.order()[q],
            w_mid.len() == w0.len() - 1 + preds.len(),
            forall|q: int| 0 <= q < w0.len() - 1 ==> #[trigger] w_mid[q] == w0[q],
            forall|q: int| 0 <= q < preds.len() ==> (#[trigger] w_mid[w0.len() - 1 + q]).0 == preds[q].0 && w_mid[w0.len() - 1 + q].1 == r,
            w.len() == w_mid.len() + succs.len(),
            forall|q: int| 0 <= q < w_mid.len() ==> #[trigger] w[q] == w_mid[q],
            forall|q: int| 0 <= q < succs.len() ==> (#[trigger] w[w_mid.len() + q]).0 == l && w[w_mid.len() + q].1 == succs[q].0,
        ensures
            forall|a: int, b: int, c: int|
                #![trigger self.has_edge(a, b), self.has_edge(b, c)]
                self.has_edge(a, b) && self.has_edge(b, c) && a != c && !self.has_edge(a, c) ==> exists|i: int|
                    0 <= i < w.len() && (#[trigger] w[i]).0 == a && w[i].1 == c,
    {
        assert forall|a: int, b: int, c: int|
            #![trigger self.has_edge(a, b), self.has_edge(b, c)]
            self.has_edge(a, b) && self.has_edge(b, c) && a != c && !self.has_edge(a, c) implies exists|i: int|
                0 <= i < w.len() && (#[trigger] w[i]).0 == a && w[i].1 == c by {
            assert(self.edges().contains_key((a, b)));
            assert(self.edges().contains_key((b, c)));
            assert(!self.edges().contains_key((a, c)));
            if (a, b) == (l as int, r as int) {
                assert((b, c) != (l as int, r as int));
                assert(s1.edges().contains_key((b, c)));
                assert(self.succ(r as int).contains_key(c as usize));
                self.lemma_order_keys(r as int, true, c as usize);
                let ord = self.nodes@[r as int].flows_to.order();
                assert(ord.contains(c as usize));
                let q = choose|q: int| 0 <= q < ord.len() && ord[q] == c as usize;
                assert(succs[q].0 == c as usize);
                assert(w[w_mid.len() + q].0 == l && w[w_mid.len() + q].1 == c);
            } else if (b, c) == (l as int, r as int) {
                assert(s1.edges().contains_key((a, b)));
                assert(a != l);
                assert(s1.succ(a).contains_key(l));
                assert(s1.pred(l as int).contains_key(a as usize));
                assert(self.pred(l as int).contains_key(a as usize));
                self.lemma_order_keys(l as int, false, a as usize);
                let ord = self.nodes@[l as int].flows_from.order();
                assert(ord.contains(a as usize));
                let q = choose|q: int| 0 <= q < ord.len() && ord[q] == a as usize;
                assert(preds[q].0 == a as usize);
                assert(w[w0.len() - 1 + q] == w_mid[w0.len() - 1 + q]);
            } else {
                assert(s1.edges().contains_key((a, b)));
                assert(s1.edges().contains_key((b, c)));
                assert(!s1.edges().contains_key((a, c)));
                assert(s1.has_edge(a, b) && s1.has_edge(b, c));
                let i = choose|i: int| 0 <= i < w0.len() && (#[trigger] w0[i]).0 == a && w0[i].1 == c;
                assert((a, c) != (l as int, r as int));
                assert(i != w0.len() - 1);
                assert(w[i] == w_mid[i]);
            }
        }
    }

    /// Marks the present graph as the point `revert` returns to.
    pub fn save(&mut self)
        requires
            old(self).wf(),
            old(self).len_spec() <= INDEX_LIMIT,
        ensures
            final(self).wf(),
            final(self).mark() == old(self).len_spec(),
            final(self).len_spec() == old(self).len_spec(),
            final(self).data_seq() == old(self).data_seq(),
            final(self).edges() == old(self).edges(),
            final(self).journal_log() == old(self).journal_log(),
            old(self).journal_log().len() == 0 ==> final(self).state_at_mark() == final(self).edges(),
            old(self).closed() ==> final(self).closed(),
    {
        let ghost old_mark = self.mark();
        self.rewind_mark = I::from_usize(self.nodes.len());
        proof {
            let n = self.nodes@.len();
            assert(self.nodes == old(self).nodes);
            assert forall|a: int| #[trigger] self.succ(a) == old(self).succ(a) by {}
            assert forall|a: int| #[trigger] self.pred(a) == old(self).pred(a) by {}
            assert(self.edges() =~= old(self).edges());
            old(self).lemma_log_bounds();
            assert(agree_below(restrict_below(self.edges(), old_mark), restrict_below(self.edges(), n), old_mark));
            lemma_journal_frame(
                restrict_below(self.edges(), old_mark),
                restrict_below(self.edges(), n),
                self.journal_log(),
                old_mark,
            );
            assert(restrict_below(self.edges(), n) =~= self.edges());
            assert forall|k: int|
                0 <= k < self.journal@.len() implies (#[trigger] self.journal@[k]).0 < self.mark() && self.journal@[k].1
                < self.mark() by {
                assert(old(self).journal@[k].0 < old_mark);
            }
        }
    }

    /// Removes the nodes added since the saved point and undoes the journaled edge
    /// changes, leaving the edges that `state_at_mark` describes.
    pub fn revert(&mut self)
        requires
            old(self).wf(),
        ensures
            final(self).wf(),
            final(self).len_spec() == old(self).mark(),
            final(self).data_seq() == old(self).data_seq().take(old(self).mark() as int),
            final(self).edges() == old(self).state_at_mark(),
            final(self).mark() == 0,
            final(self).journal_log().len() == 0,
            closed_edges(old(self).state_at_mark()) ==> final(self).closed(),
    {
        let i = self.rewind_mark.to_usize();
        self.rewind_mark = I::from_usize(0);
        self.nodes.truncate(i);
        let ghost target = old(self).state_at_mark();
        proof {
            old(self).lemma_log_bounds();
            assert(restrict_below(self.raw_edges(), i as nat) =~= restrict_below(old(self).edges(), i as nat)) by {
                assert forall|p: (int, int)| #[trigger] restrict_below(self.raw_edges(), i as nat).contains_key(p) <==> restrict_below(old(self).edges(), i as nat).contains_key(p) by {
                    if 0 <= p.0 < i && 0 <= p.1 < i {
                        assert(self.nodes@[p.0] == old(self).nodes@[p.0]);
                    }
                }
                assert forall|p: (int, int)| #[trigger] restrict_below(self.raw_edges(), i as nat).contains_key(p) implies restrict_below(self.raw_edges(), i as nat)[p] == restrict_below(old(self).edges(), i as nat)[p] by {
                    assert(self.nodes@[p.0] == old(self).nodes@[p.0]);
                }
            }
            assert(self.journal_log() == old(self).journal_log());
            assert forall|a: int| 0 <= a < i implies #[trigger] self.nodes@[a] == old(self).nodes@[a] by {}
            assert forall|a: int|
                0 <= a < self.nodes@.len() implies (#[trigger] self.nodes@[a]).flows_to.loose() && self.nodes@[a].flows_from.loose() by {
                assert(old(self).nodes@[a].flows_to.wf());
                assert(old(self).nodes@[a].flows_from.wf());
            }
            assert forall|a: int, k: usize|
                0 <= a < self.nodes@.len() && #[trigger] self.raw_succ(a).contains_key(k) implies k != a by {
                assert(old(self).succ(a).contains_key(k));
            }
            assert forall|a: int, k: usize|
                0 <= a < self.nodes@.len() && #[trigger] self.raw_pred(a).contains_key(k) implies k != a by {
                assert(old(self).pred(a).contains_key(k));
            }
            assert forall|a: int, b: int|
                0 <= a < self.nodes@.len() && 0 <= b < self.nodes@.len() implies (#[trigger] self.raw_succ(a).contains_key(
                b as usize,
            ) <==> #[trigger] self.raw_pred(b).contains_key(a as usize)) by {
                assert(old(self).succ(a).contains_key(b as usize) <==> old(self).pred(b).contains_key(a as usize));
            }
            assert forall|a: int, b: int|
                0 <= a < self.nodes@.len() && 0 <= b < self.nodes@.len() && #[trigger] self.raw_succ(a).contains_key(
                b as usize,
            ) implies self.raw_succ(a)[b as usize] == #[trigger] self.raw_pred(b)[a as usize] by {
                assert(old(self).succ(a).contains_key(b as usize));
                assert(old(self).succ(a)[b as usize] == old(self).pred(b)[a as usize]);
            }
            assert forall|k: int| 0 <= k < self.journal@.len() implies (#[trigger] self.journal@[k]).0 < i && self.journal@[k].1 < i by {
                assert(old(self).journal@[k].0 < old(self).mark());
            }
        }
        while self.journal.len() > 0
            invariant
                self.nodes@.len() == i,
                i == old(self).mark(),
                self.mark() == 0,
                self.raw_ok(),
                forall|k: int| 0 <= k < self.journal@.len() ==> (#[trigger] self.journal@[k]).0 < i && self.journal@[k].1 < i,
                journal_ok(restrict_below(self.raw_edges(), i as nat), self.journal_log()),
                rewind_journal(restrict_below(self.raw_edges(), i as nat), self.journal_log()) == target,
                forall|a: int| 0 <= a < i ==> (#[trigger] self.nodes@[a]).data == old(self).nodes@[a].data,
            decreases self.journal@.len(),
        {
            let ghost before = *self;
            let ghost jl = self.journal_log();
            let (l, r, val) = self.journal.pop().unwrap();
            proof {
                assert(before.journal@.last() == (l, r, val));
                assert(jl.last() == (l as int, r as int, val));
                assert(self.journal_log() =~= jl.drop_last());
                assert(l < i && r < i) by {
                    assert(before.journal@[before.journal@.len() - 1] == (l, r, val));
                }
                assert(restrict_below(before.raw_edges(), i as nat).contains_key((l as int, r as int)));
                assert(before.raw_succ(l as int).contains_key((r as int) as usize));
                assert(before.raw_pred(r as int).contains_key((l as int) as usize));
            }
            match val {
                Some(v) => {
                    let mut node = self.nodes.remove(l);
                    if node.flows_to.m.contains_key(&r) {
                        node.flows_to.m.insert(r, v);
                    }
                    self.nodes.insert(l, node);
                    let mut node2 = self.nodes.remove(r);
                    if node2.flows_from.m.contains_key(&l) {
                        node2.flows_from.m.insert(l, v);
                    }
                    self.nodes.insert(r, node2);
                },
                None => {
                    let mut node = self.nodes.remove(l);
                    node.flows_to.m.remove(&r);
                    self.nodes.insert(l, node);
                    let mut node2 = self.nodes.remove(r);
                    node2.flows_from.m.remove(&l);
                    self.nodes.insert(r, node2);
                },
            }
            proof {
                self.lemma_undo_step(before, l, r, val, i as nat);
            }
        }
        let n = self.nodes.len();
        let ghost pre_fix = *self;
        let mut k: usize = 0;
        while k < n
            invariant
                self.nodes@.len() == n,
                n == i,
                self.mark() == 0,
                self.journal@.len() == 0,
                pre_fix.raw_ok(),
                pre_fix.nodes@.len() == n,
                0 <= k <= n,
                forall|a: int| 0 <= a < n ==> (#[trigger] self.nodes@[a]).data == pre_fix.nodes@[a].data,
                forall|a: int| k <= a < n ==> #[trigger] self.nodes@[a] == pre_fix.nodes@[a],
                forall|a: int|
                    0 <= a < k ==> {
                        &&& (#[trigger] self.nodes@[a]).flows_to.wf()
                        &&& self.nodes@[a].flows_from.wf()
                        &&& self.nodes@[a].flows_to@ == keys_below(pre_fix.nodes@[a].flows_to@, i)
                        &&& self.nodes@[a].flows_from@ == keys_below(pre_fix.nodes@[a].flows_from@, i)
                    },
            decreases n - k,
        {
            let mut node = self.nodes.remove(k);
            node.fix_and_truncate(i);
            self.nodes.insert(k, node);
            proof {
                assert forall|a: int| k + 1 <= a < n implies #[trigger] self.nodes@[a] == pre_fix.nodes@[a] by {}
            }
            k = k + 1;
        }
        proof {
            self.lemma_after_fix(pre_fix, i as nat, target);
            assert(self.data_seq() =~= old(self).data_seq().take(i as int)) by {
                assert forall|a: int| 0 <= a < i implies self.data_seq()[a] == old(self).data_seq().take(i as int)[a] by {
                    assert(self.nodes@[a].data == pre_fix.nodes@[a].data);
                }
            }
        }
    }

    /// Forgets the saved point and the journal.
    pub fn make_permanent(&mut self)
        requires
            old(self).wf(),
        ensures
            final(self).wf(),
            final(self).mark() == 0,
            final(self).journal_log().len() == 0,
            final(self).len_spec() == old(self).len_spec(),
            final(self).data_seq() == old(self).data_seq(),
            final(self).edges() == old(self).edges(),
            old(self).closed() ==> final(self).closed(),
    {
        self.rewind_mark = I::from_usize(0);
        self.journal.clear();
        proof {
            assert(self.nodes == old(self).nodes);
            assert forall|a: int| #[trigger] self.succ(a) == old(self).succ(a) by {}
            assert forall|a: int| #[trigger] self.pred(a) == old(self).pred(a) by {}
            assert(self.edges() =~= old(self).edges());
            assert(self.journal_log() =~= Seq::<(int, int, Option<E>)>::empty());
        }
    }

    spec fn raw_succ(&self, a: int) -> Map<usize, E> {
        self.nodes@[a].flows_to@
    }

    spec fn raw_pred(&self, b: int) -> Map<usize, E> {
        self.nodes@[b].flows_from@
    }

    /// The recorded edges, including those that point past the last node.
    spec fn raw_edges(&self) -> Map<(int, int), E> {
        Map::new(
            |p: (int, int)| 0 <= p.0 < self.nodes@.len() && 0 <= p.1 <= usize::MAX && self.raw_succ(p.0).contains_key(p.1 as usize),
            |p: (int, int)| self.raw_succ(p.0)[p.1 as usize],
        )
    }

    /// The invariant that holds while `revert` undoes the journal.
    spec fn raw_ok(&self) -> bool {
        &&& forall|a: int|
            0 <= a < self.nodes@.len() ==> {
                &&& (#[trigger] self.nodes@[a]).flows_to.loose()
                &&& self.nodes@[a].flows_from.loose()
            }
        &&& forall|a: int, k: usize|
            0 <= a < self.nodes@.len() && #[trigger] self.raw_succ(a).contains_key(k) ==> k != a
        &&& forall|a: int, k: usize|
            0 <= a < self.nodes@.len() && #[trigger] self.raw_pred(a).contains_key(k) ==> k != a
        &&& forall|a: int, b: int|
            0 <= a < self.nodes@.len() && 0 <= b < self.nodes@.len() ==> (#[trigger] self.raw_succ(a).contains_key(
                b as usize,
            ) <==> #[trigger] self.raw_pred(b).contains_key(a as usize))
        &&& forall|a: int, b: int|
            0 <= a < self.nodes@.len() && 0 <= b < self.nodes@.len() && #[trigger] self.raw_succ(a).contains_key(
                b as usize,
            ) ==> self.raw_succ(a)[b as usize] == #[trigger] self.raw_pred(b)[a as usize]
    }

    proof fn lemma_undo_step(&self, before: Self, l: usize, r: usize, val: Option<E>, m: nat)
        requires
            before.raw_ok(),
            before.nodes@.len() == m,
            self.nodes@.len() == m,
            m <= usize::MAX,
            l < m,
            r < m,
            before.raw_succ(l as int).contains_key(r),
            before.raw_pred(r as int).contains_key(l),
            forall|a: int| 0 <= a < m && a != l && a != r ==> self.nodes@[a] == before.nodes@[a],
            self.nodes@[l as int].data == before.nodes@[l as int].data,
            self.nodes@[r as int].data == before.nodes@[r as int].data,
            self.nodes@[l as int].flows_from == before.nodes@[l as int].flows_from,
            self.nodes@[r as int].flows_to == before.nodes@[r as int].flows_to,
            self.nodes@[l as int].flows_to.keys == before.nodes@[l as int].flows_to.keys,
            self.nodes@[r as int].flows_from.keys == before.nodes@[r as int].flows_from.keys,
            self.raw_succ(l as int) == (match val {
                Some(v) => before.raw_succ(l as int).insert(r, v),
                None => before.raw_succ(l as int).remove(r),
            }),
            self.raw_pred(r as int) == (match val {
                Some(v) => before.raw_pred(r as int).insert(l, v),
                None => before.raw_pred(r as int).remove(l),
            }),
            journal_ok(restrict_below(before.raw_edges(), m), before.journal_log()),
            before.journal_log().last() == (l as int, r as int, val),
            before.journal_log().len() > 0,
            self.journal_log() == before.journal_log().drop_last(),
        ensures
            self.raw_ok(),
            restrict_below(self.raw_edges(), m) == undo_edge(restrict_below(before.raw_edges(), m), (l as int, r as int, val)),
            journal_ok(restrict_below(self.raw_edges(), m), self.journal_log()),
            rewind_journal(restrict_below(self.raw_edges(), m), self.journal_log()) == rewind_journal(restrict_below(before.raw_edges(), m), before.journal_log()),
    {
        assert(l != r);
        assert forall|a: int| 0 <= a < m implies #[trigger] self.raw_succ(a) == (if a == l { self.raw_succ(l as int) } else { before.raw_succ(a) }) by {
            if a != l && a != r {
                assert(self.nodes@[a] == before.nodes@[a]);
            }
        }
        assert forall|a: int| 0 <= a < m implies #[trigger] self.raw_pred(a) == (if a == r { self.raw_pred(r as int) } else { before.raw_pred(a) }) by {
            if a != l && a != r {
                assert(self.nodes@[a] == before.nodes@[a]);
            }
        }
        assert forall|a: int|
            0 <= a < self.nodes@.len() implies (#[trigger] self.nodes@[a]).flows_to.loose() && self.nodes@[a].flows_from.loose() by {
            if a != l && a != r {
                assert(self.nodes@[a] == before.nodes@[a]);
            } else {
                assert(before.nodes@[a].flows_to.loose());
                assert(before.nodes@[a].flows_from.loose());
            }
        }
        assert forall|a: int, k: usize|
            0 <= a < self.nodes@.len() && #[trigger] self.raw_succ(a).contains_key(k) implies k != a by {
            assert(before.raw_succ(a).contains_key(k));
        }
        assert forall|a: int, k: usize|
            0 <= a < self.nodes@.len() && #[trigger] self.raw_pred(a).contains_key(k) implies k != a by {
            assert(before.raw_pred(a).contains_key(k));
        }
        assert forall|a: int, b: int|
            0 <= a < self.nodes@.len() && 0 <= b < self.nodes@.len() implies (#[trigger] self.raw_succ(a).contains_key(
            b as usize,
        ) <==> #[trigger] self.raw_pred(b).contains_key(a as usize)) by {
            assert(before.raw_succ(a).contains_key(b as usize) <==> before.raw_pred(b).contains_key(a as usize));
            if a != l {
                assert(self.raw_succ(a) == before.raw_succ(a));
            }
            if b != r {
                assert(self.raw_pred(b) == before.raw_pred(b));
            }
            if a == l && b != r {
                assert((b as usize) != r);
            }
            if a != l && b == r {
                assert((a as usize) != l);
            }
            match val {
                Some(v) => {},
                None => {},
            }
        }
        assert forall|a: int, b: int|
            0 <= a < self.nodes@.len() && 0 <= b < self.nodes@.len() && #[trigger] self.raw_succ(a).contains_key(
            b as usize,
        ) implies self.raw_succ(a)[b as usize] == #[trigger] self.raw_pred(b)[a as usize] by {
            if a != l {
                assert(self.raw_succ(a) == before.raw_succ(a));
            }
            if b != r {
                assert(self.raw_pred(b) == before.raw_pred(b));
            }
            if a == l && b != r {
                assert((b as usize) != r);
            }
            if a != l && b == r {
                assert((a as usize) != l);
            }
            match val {
                Some(v) => {
                    if a != l || b != r {
                        assert(before.raw_succ(a).contains_key(b as usize));
                        assert(before.raw_succ(a)[b as usize] == before.raw_pred(b)[a as usize]);
                    }
                },
                None => {
                    assert(before.raw_succ(a).contains_key(b as usize));
                    assert(before.raw_succ(a)[b as usize] == before.raw_pred(b)[a as usize]);
                },
            }
        }
        let e_new = restrict_below(self.raw_edges(), m);
        let e_old = restrict_below(before.raw_edges(), m);
        assert(e_new =~= undo_edge(e_old, (l as int, r as int, val))) by {
            assert forall|p: (int, int)| #[trigger] e_new.contains_key(p) <==> undo_edge(e_old, (l as int, r as int, val)).contains_key(p) by {
                if 0 <= p.0 < m && p.0 != l {
                    assert(self.raw_succ(p.0) == before.raw_succ(p.0));
                }
            }
            assert forall|p: (int, int)| #[trigger] e_new.contains_key(p) implies e_new[p] == undo_edge(e_old, (l as int, r as int, val))[p] by {
                if p.0 != l {
                    assert(self.raw_succ(p.0) == before.raw_succ(p.0));
                }
            }
        }
        assert(before.journal_log().drop_last() == self.journal_log());
    }

    proof fn lemma_after_fix(&self, pre: Self, m: nat, target: Map<(int, int), E>)
        requires
            pre.raw_ok(),
            pre.nodes@.len() == m,
            self.nodes@.len() == m,
            m <= INDEX_LIMIT + 1,
            self.mark() == 0,
            self.journal@.len() == 0,
            rewind_journal(restrict_below(pre.raw_edges(), m), pre.journal_log()) == target,
            pre.journal_log().len() == 0,
            forall|a: int|
                0 <= a < m ==> {
                    &&& (#[trigger] self.nodes@[a]).flows_to.wf()
                    &&& self.nodes@[a].flows_from.wf()
                    &&& self.nodes@[a].flows_to@ == keys_below(pre.nodes@[a].flows_to@, m as usize)
                    &&& self.nodes@[a].flows_from@ == keys_below(pre.nodes@[a].flows_from@, m as usize)
                },
        ensures
            self.wf(),
            self.edges() == target,
            closed_edges(target) ==> self.closed(),
    {
        assert(target == restrict_below(pre.raw_edges(), m));
        assert(self.edges() =~= target) by {
            assert forall|p: (int, int)| #[trigger] self.edges().contains_key(p) <==> target.contains_key(p) by {
                if 0 <= p.0 < m && 0 <= p.1 < m {
                    assert(self.succ(p.0) == keys_below(pre.raw_succ(p.0), m as usize));
                    assert((p.1 as usize) < m);
                }
            }
            assert forall|p: (int, int)| #[trigger] self.edges().contains_key(p) implies self.edges()[p] == target[p] by {
                assert(self.succ(p.0) == keys_below(pre.raw_succ(p.0), m as usize));
            }
        }
        assert forall|a: int, k: usize|
            0 <= a < self.nodes@.len() && #[trigger] self.succ(a).contains_key(k) implies k < self.nodes@.len() && k != a by {
            assert(self.succ(a) == keys_below(pre.raw_succ(a), m as usize));
            assert(pre.raw_succ(a).contains_key(k));
        }
        assert forall|a: int, k: usize|
            0 <= a < self.nodes@.len() && #[trigger] self.pred(a).contains_key(k) implies k < self.nodes@.len() && k != a by {
            assert(self.pred(a) == keys_below(pre.raw_pred(a), m as usize));
            assert(pre.raw_pred(a).contains_key(k));
        }
        assert forall|a: int, b: int|
            0 <= a < self.nodes@.len() && 0 <= b < self.nodes@.len() implies (#[trigger] self.succ(a).contains_key(
            b as usize,
        ) <==> #[trigger] self.pred(b).contains_key(a as usize)) by {
            assert(self.succ(a) == keys_below(pre.raw_succ(a), m as usize));
            assert(self.pred(b) == keys_below(pre.raw_pred(b), m as usize));
            assert(pre.raw_succ(a).contains_key(b as usize) <==> pre.raw_pred(b).contains_key(a as usize));
        }
        assert forall|a: int, b: int|
            0 <= a < self.nodes@.len() && 0 <= b < self.nodes@.len() && #[trigger] self.succ(a).contains_key(
            b as usize,
        ) implies self.succ(a)[b as usize] == #[trigger] self.pred(b)[a as usize] by {
            assert(self.succ(a) == keys_below(pre.raw_succ(a), m as usize));
            assert(self.pred(b) == keys_below(pre.raw_pred(b), m as usize));
            assert(pre.raw_succ(a).contains_key(b as usize));
            assert(pre.raw_succ(a)[b as usize] == pre.raw_pred(b)[a as usize]);
        }
        assert(self.journal_log() =~= Seq::<(int, int, Option<E>)>::empty());
    }
}

/// Changing only node data keeps the graph well formed and its edges unchanged.
pub broadcast proof fn lemma_same_structure<I: NodeIndex, N, E: EdgeDataTrait<I, N>>(r1: Reachability<I, N, E>, r2: Reachability<I, N, E>)
requires
    #[trigger] Reachability::<I, N, E>::same_structure(r1, r2),
    ensures
        r1.wf() ==> r2.wf(),
        r2.edges() == r1.edges(),
{
    assert forall|a: int| 0 <= a < r1.nodes@.len() implies #[trigger] r2.succ(a) == r1.succ(a) && r2.pred(a) == r1.pred(a) by {
        assert(r2.nodes@[a].flows_to == r1.nodes@[a].flows_to);
    }
    assert(r2.edges() =~= r1.edges());
    if r1.wf() {
        assert forall|a: int|
            0 <= a < r2.nodes@.len() implies (#[trigger] r2.nodes@[a]).flows_to.wf() && r2.nodes@[a].flows_from.wf() by {
            assert(r1.nodes@[a].flows_to.wf());
        }
        assert forall|a: int, k: usize|
            0 <= a < r2.nodes@.len() && #[trigger] r2.succ(a).contains_key(k) implies k < r2.nodes@.len() && k != a by {
            assert(r1.succ(a).contains_key(k));
        }
        assert forall|a: int, k: usize|
            0 <= a < r2.nodes@.len() && #[trigger] r2.pred(a).contains_key(k) implies k < r2.nodes@.len() && k != a by {
            assert(r1.pred(a).contains_key(k));
        }
        assert forall|a: int, b: int|
            0 <= a < r2.nodes@.len() && 0 <= b < r2.nodes@.len() implies (#[trigger] r2.succ(a).contains_key(
            b as usize,
        ) <==> #[trigger] r2.pred(b).contains_key(a as usize)) by {
            assert(r1.succ(a).contains_key(b as usize) <==> r1.pred(b).contains_key(a as usize));
        }
        assert forall|a: int, b: int|
            0 <= a < r2.nodes@.len() && 0 <= b < r2.nodes@.len() && #[trigger] r2.succ(a).contains_key(
            b as usize,
        ) implies r2.succ(a)[b as usize] == #[trigger] r2.pred(b)[a as usize] by {
            assert(r1.succ(a).contains_key(b as usize));
            assert(r1.succ(a)[b as usize] == r1.pred(b)[a as usize]);
        }
    }
}


/// Whether `v` is the value of an edge from `a` to `b` of `g` made through a
/// node `m` of `g`, with `m`'s own data and index, joining two edges whose
/// halves `a -> m` and `m -> b` are edges of `g`.
pub open spec fn made_through<I: NodeIndex, N, E: EdgeDataTrait<I, N>>(g: Reachability<I, N, E>, a: int, b: int, v: E) -> bool {
    exists|m: I, e1: E, e2: E|
        m.index() < g.len_spec() && g.has_edge(a, m.index() as int) && g.has_edge(m.index() as int, b)
            && #[trigger] e1.via(g.data_seq()[m.index() as int], m, e2) == v
}

/// Where a value proposed by `add_edge` comes from: the edge asked for, or an
/// edge made through a node.
pub open spec fn proposed<I: NodeIndex, N, E: EdgeDataTrait<I, N>>(g: Reachability<I, N, E>, lhs: I, rhs: I, edge_val: E, a: int, b: int, v: E) -> bool {
    (a == lhs.index() && b == rhs.index() && v == edge_val) || made_through(g, a, b, v)
}

proof fn lemma_made_through_grow<I: NodeIndex, N, E: EdgeDataTrait<I, N>>(g1: Reachability<I, N, E>, g2: Reachability<I, N, E>, a: int, b: int, v: E)
    requires
        made_through(g1, a, b, v),
        g2.len_spec() == g1.len_spec(),
        g2.data_seq() == g1.data_seq(),
        forall|x: int, y: int| #[trigger] g1.has_edge(x, y) ==> g2.has_edge(x, y),
    ensures
        made_through(g2, a, b, v),
{
    let (m, e1, e2) = choose|m: I, e1: E, e2: E|
        m.index() < g1.len_spec() && g1.has_edge(a, m.index() as int) && g1.has_edge(m.index() as int, b)
            && #[trigger] e1.via(g1.data_seq()[m.index() as int], m, e2) == v;
    assert(g2.has_edge(a, m.index() as int));
    assert(g2.has_edge(m.index() as int, b));
    assert(e1.via(g2.data_seq()[m.index() as int], m, e2) == v);
}

/// What `add_node` and `add_edge` keep of a saved point: the point itself, the
/// edges that `revert` would leave, and the data of the saved nodes.
pub open spec fn keeps_saved<I: NodeIndex, N, E: EdgeDataTrait<I, N>>(a: Reachability<I, N, E>, b: Reachability<I, N, E>) -> bool {
    &&& b.mark() == a.mark()
    &&& b.state_at_mark() == a.state_at_mark()
    &&& a.mark() <= a.data_seq().len()
    &&& a.mark() <= b.data_seq().len()
    &&& b.data_seq().take(a.mark() as int) == a.data_seq().take(a.mark() as int)
}

/// `add_node` keeps the saved point.
pub proof fn lemma_add_node_keeps_saved<I: NodeIndex, N, E: EdgeDataTrait<I, N>>(a: Reachability<I, N, E>, b: Reachability<I, N, E>, data: N)
    requires
        a.wf(),
        b.data_seq() == a.data_seq().push(data),
        b.edges() == a.edges(),
        b.mark() == a.mark(),
        b.journal_log() == a.journal_log(),
    ensures
        keeps_saved(a, b),
{
    a.lemma_data_len();
    assert(b.data_seq().take(a.mark() as int) =~= a.data_seq().take(a.mark() as int));
}

/// `add_edge` keeps the saved point.
pub proof fn lemma_add_edge_keeps_saved<I: NodeIndex, N, E: EdgeDataTrait<I, N>>(a: Reachability<I, N, E>, b: Reachability<I, N, E>)
    requires
        a.wf(),
        b.data_seq() == a.data_seq(),
        b.mark() == a.mark(),
        b.state_at_mark() == a.state_at_mark(),
    ensures
        keeps_saved(a, b),
{
    a.lemma_data_len();
}

/// After `save` on a graph with no journal (a fresh graph, or one just
/// reverted or made permanent), any run of `add_node` and `add_edge` calls
/// followed by `revert` gives back exactly the saved graph: the same nodes with
/// the same data, and the same edges with the same values.
pub proof fn law_save_revert<I: NodeIndex, N, E: EdgeDataTrait<I, N>>(run: Seq<Reachability<I, N, E>>, reverted: Reachability<I, N, E>)
    requires
        run.len() >= 1,
        run[0].wf(),
        run[0].mark() == run[0].len_spec(),
        run[0].state_at_mark() == run[0].edges(),
        forall|i: int| 0 <= i < run.len() - 1 ==> keeps_saved(#[trigger] run[i], run[i + 1]),
        reverted.len_spec() == run.last().mark(),
        reverted.data_seq() == run.last().data_seq().take(run.last().mark() as int),
        reverted.edges() == run.last().state_at_mark(),
    ensures
        reverted.len_spec() == run[0].len_spec(),
        reverted.data_seq() == run[0].data_seq(),
        reverted.edges() == run[0].edges(),
    decreases run.len(),
{
    run[0].lemma_data_len();
    if run.len() == 1 {
        assert(run[0].data_seq().take(run[0].mark() as int) =~= run[0].data_seq());
    } else {
        let prefix = run.drop_last();
        let last = run.last();
        let before = run[run.len() - 2];
        assert(keeps_saved(before, last));
        lemma_keeps_chain(prefix);
        assert(keeps_saved(run[0], before));
        assert(last.mark() == run[0].mark());
        assert(last.state_at_mark() == run[0].state_at_mark());
        assert(last.data_seq().take(run[0].mark() as int) == before.data_seq().take(run[0].mark() as int));
        assert(before.data_seq().take(run[0].mark() as int) == run[0].data_seq().take(run[0].mark() as int));
        assert(run[0].data_seq().take(run[0].mark() as int) =~= run[0].data_seq());
    }
}

/// Changes made permanent stay: after `make_permanent` (graph `p`, made from
/// `g`), a `save` (graph `run[0]`), any run of `add_node` and `add_edge` calls
/// and a `revert` give back the graph `g` as it was when it was made permanent.
pub proof fn law_make_permanent_keeps<I: NodeIndex, N, E: EdgeDataTrait<I, N>>(
    g: Reachability<I, N, E>,
    p: Reachability<I, N, E>,
    run: Seq<Reachability<I, N, E>>,
    reverted: Reachability<I, N, E>,
)
    requires
        g.wf(),
        p.wf(),
        p.journal_log().len() == 0,
        p.data_seq() == g.data_seq(),
        p.edges() == g.edges(),
        run.len() >= 1,
        run[0].wf(),
        run[0].mark() == p.len_spec(),
        run[0].data_seq() == p.data_seq(),
        run[0].edges() == p.edges(),
        p.journal_log().len() == 0 ==> run[0].state_at_mark() == run[0].edges(),
        forall|i: int| 0 <= i < run.len() - 1 ==> keeps_saved(#[trigger] run[i], run[i + 1]),
        reverted.len_spec() == run.last().mark(),
        reverted.data_seq() == run.last().data_seq().take(run.last().mark() as int),
        reverted.edges() == run.last().state_at_mark(),
    ensures
        reverted.data_seq() == g.data_seq(),
        reverted.edges() == g.edges(),
{
    p.lemma_data_len();
    run[0].lemma_data_len();
    law_save_revert(run, reverted);
}

/// Along a run of steps that keep the saved point, it is kept from the first
/// graph to the last.
proof fn lemma_keeps_chain<I: NodeIndex, N, E: EdgeDataTrait<I, N>>(run: Seq<Reachability<I, N, E>>)
    requires
        run.len() >= 1,
        run[0].mark() <= run[0].data_seq().len(),
        forall|i: int| 0 <= i < run.len() - 1 ==> keeps_saved(#[trigger] run[i], run[i + 1]),
    ensures
        run.len() == 1 || keeps_saved(run[0], run.last()),
    decreases run.len(),
{
    if run.len() > 2 {
        let p = run.drop_last();
        assert forall|i: int| 0 <= i < p.len() - 1 implies keeps_saved(#[trigger] p[i], p[i + 1]) by {
            assert(p[i] == run[i] && p[i + 1] == run[i + 1]);
        }
        lemma_keeps_chain(p);
        assert(keeps_saved(run[run.len() - 2], run.last()));
    } else if run.len() == 2 {
        assert(keeps_saved(run[0], run[1]));
    }
}

} // verus!

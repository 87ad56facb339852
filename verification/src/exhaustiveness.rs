use crate::ast::StringId;
use crate::parse_patterns::{pattern_ok, DecisionKey, PatternNode, PatternNodeSub, RecordNode, VariantNode};
use crate::print_patterns::{
    empty_view, good_component, good_tree, lemma_good_printable, lemma_merged_printable, merge_path_spec, print_view, MergedPathNode,
    MergedView, PathComponent,
};
use crate::spans::{ice, ice_message, PartView, Span, SpannedError};
use crate::strings::{intern, interned, key_index, key_text, key_valid, same_key};
use crate::text::concat3;
use vstd::prelude::*;

verus! {

/// How to split a match case that hides a missing pattern.
#[derive(Debug)]
pub enum SplitHint {
    /// Add explicit tags at the position the pattern shows.
    Pat(String),
}

impl Clone for SplitHint {
    fn clone(&self) -> (r: Self)
        ensures
            r == *self,
    {
        match self {
            SplitHint::Pat(s) => SplitHint::Pat(s.clone()),
        }
    }
}

/// A pattern that a match does not cover, and the wildcard case that would
/// have covered it, had it been split.
#[derive(Debug)]
pub struct MissingPattern {
    pub pattern: String,
    pub ignored: Option<(Span, SplitHint)>,
}

impl Clone for MissingPattern {
    fn clone(&self) -> (r: Self)
        ensures
            r == *self,
    {
        let ignored = match &self.ignored {
            Some((span, hint)) => Some((*span, hint.clone())),
            None => None,
        };
        MissingPattern { pattern: self.pattern.clone(), ignored }
    }
}

/// The note on a case that covers a missing pattern only as a whole.
pub open spec fn ignored_note() -> Seq<char> {
    "Note: That case is covered by the match pattern here, but precise exhaustiveness checking requires decomposable patterns. Consider splitting this match pattern into multiple cases."@
}

impl MissingPattern {
    /// Adds the notes on the ignored case, if any.
    pub fn print_ignored(&self, err: &mut SpannedError)
        ensures
            self.ignored is None ==> final(err)@ == old(err)@,
            self.ignored matches Some((span, SplitHint::Pat(pat))) ==> final(err)@ == old(err)@.push(
                PartView::At(ignored_note(), span),
            ).push(
                PartView::Text(
                    "Hint: Split the above case into multiple cases by adding explicit tags at position "@
                        + pat@ + "."@,
                ),
            ),
    {
        if let Some((ignored, hint)) = &self.ignored {
            err.push(
                "Note: That case is covered by the match pattern here, but precise exhaustiveness checking requires decomposable patterns. Consider splitting this match pattern into multiple cases.",
                *ignored,
            );
            match hint {
                SplitHint::Pat(pat) => {
                    let m = concat3(
                        "Hint: Split the above case into multiple cases by adding explicit tags at position ",
                        pat.as_str(),
                        ".",
                    );
                    err.push_str(m.as_str());
                },
            }
        }
    }
}

/// A variant position of the merged pattern tree, where a match decides on a tag.
pub struct DecisionNode {
    /// The path from the root of the input to the position.
    pub path: Vec<PathComponent>,
    pub key: DecisionKey,
    /// The tags that the patterns name at the position.
    pub required_tags: Vec<StringId>,
    /// The decision positions right below this one.
    pub children: Vec<usize>,
}

/// The decision positions form a forest in which every child comes after its parent.
pub open spec fn forest_wf(nodes: Seq<DecisionNode>) -> bool {
    forall|i: int, j: int|
        0 <= i < nodes.len() && 0 <= j < nodes[i].children@.len() ==> i < #[trigger] nodes[i].children@[j]
            < nodes.len()
}

/// The decision positions of a merged pattern tree, in preorder.
struct DNodes {
    nodes: Vec<DecisionNode>,
    current_path: Vec<PathComponent>,
    top_level: Vec<usize>,
}

/// The names in the decision positions are interned, and no path goes
/// through a field named `_4294967295`.
pub open spec fn nodes_ok(st: Seq<Seq<char>>, nodes: Seq<DecisionNode>) -> bool {
    &&& forall|i: int, j: int|
        0 <= i < nodes.len() && 0 <= j < nodes[i].path@.len() ==> good_component(st, #[trigger] nodes[i].path@[j])
    &&& forall|i: int, j: int|
        0 <= i < nodes.len() && 0 <= j < nodes[i].required_tags@.len() ==> key_valid(
            st,
            #[trigger] nodes[i].required_tags@[j],
        )
}

/// A decision position as contracts read it: path, key, tags, children.
pub type DView = (Seq<PathComponent>, DecisionKey, Seq<StringId>, Seq<usize>);

/// The view of a decision position.
pub open spec fn dview(n: DecisionNode) -> DView {
    (n.path@, n.key, n.required_tags@, n.children@)
}

/// The tags of the cases of a variant pattern, in order.
pub open spec fn case_names(cs: Seq<(StringId, PatternNode)>) -> Seq<StringId> {
    cs.map_values(|c: (StringId, PatternNode)| c.0)
}

/// The positions and top-level positions after the variant pattern `v` at
/// `path` is added below `parent` (`usize::MAX` for none): a new position,
/// listed as a child of `parent`, or as a top-level position.
pub open spec fn add_var(v: VariantNode, parent: usize, path: Seq<PathComponent>, s: (Seq<DView>, Seq<usize>)) -> (
    Seq<DView>,
    Seq<usize>,
) {
    let id = s.0.len();
    let nodes = s.0.push((path, v.key, case_names(v.cases@), Seq::empty()));
    if (parent as int) < id {
        (
            nodes.update(
                parent as int,
                (nodes[parent as int].0, nodes[parent as int].1, nodes[parent as int].2, nodes[parent as int].3.push(
                    id as usize,
                )),
            ),
            s.1,
        )
    } else {
        (nodes, s.1.push(id as usize))
    }
}

/// The positions after the pattern `p` at `path` below `parent` is visited:
/// every variant pattern in it, in preorder.
pub open spec fn pat_state(p: PatternNode, parent: usize, path: Seq<PathComponent>, s: (Seq<DView>, Seq<usize>)) -> (
    Seq<DView>,
    Seq<usize>,
)
    decreases p,
{
    match p.sub {
        PatternNodeSub::Leaf => s,
        PatternNodeSub::R(r) => fields_state(r.fields@, parent, path, s),
        PatternNodeSub::V(v) => cases_state(v.cases@, s.0.len() as usize, path, add_var(v, parent, path, s)),
    }
}

/// The positions after the fields `fs` of a record at `path` are visited in order.
pub open spec fn fields_state(
    fs: Seq<(StringId, (Span, PatternNode))>,
    parent: usize,
    path: Seq<PathComponent>,
    s: (Seq<DView>, Seq<usize>),
) -> (Seq<DView>, Seq<usize>)
    decreases fs,
{
    if fs.len() == 0 {
        s
    } else {
        pat_state(
            fs.last().1.1,
            parent,
            path.push(PathComponent::Field(fs.last().0)),
            fields_state(fs.drop_last(), parent, path, s),
        )
    }
}

/// The positions after the cases `cs` of the variant at position `id` and
/// `path` are visited in order.
pub open spec fn cases_state(
    cs: Seq<(StringId, PatternNode)>,
    id: usize,
    path: Seq<PathComponent>,
    s: (Seq<DView>, Seq<usize>),
) -> (Seq<DView>, Seq<usize>)
    decreases cs,
{
    if cs.len() == 0 {
        s
    } else {
        pat_state(cs.last().1, id, path.push(PathComponent::Case(cs.last().0)), cases_state(cs.drop_last(), id, path, s))
    }
}

impl DNodes {
    /// The positions and the top-level positions, as contracts read them.
    spec fn state(&self) -> (Seq<DView>, Seq<usize>) {
        (self.nodes@.map_values(|n: DecisionNode| dview(n)), self.top_level@)
    }

    spec fn wf(&self) -> bool {
        &&& forest_wf(self.nodes@)
        &&& forall|j: int| 0 <= j < self.top_level@.len() ==> #[trigger] self.top_level@[j] < self.nodes@.len()
    }

    spec fn names_ok(&self, st: Seq<Seq<char>>) -> bool {
        &&& nodes_ok(st, self.nodes@)
        &&& forall|j: int| 0 <= j < self.current_path@.len() ==> good_component(st, #[trigger] self.current_path@[j])
    }

    fn new() -> (r: Self)
        ensures
            r.wf(),
            r.nodes@.len() == 0,
            r.current_path@.len() == 0,
            r.top_level@.len() == 0,
    {
        DNodes { nodes: Vec::new(), current_path: Vec::new(), top_level: Vec::new() }
    }

    fn visit_root(&mut self, root: &PatternNode, Ghost(st): Ghost<Seq<Seq<char>>>)
        requires
            old(self).wf(),
            old(self).names_ok(st),
            pattern_ok(st, *root),
        ensures
            final(self).wf(),
            final(self).names_ok(st),
            final(self).state() == pat_state(*root, usize::MAX, old(self).current_path@, old(self).state()),
    {
        self.visit_pattern(root, usize::MAX, Ghost(st));
    }

    fn visit_pattern(&mut self, p: &PatternNode, parent: usize, Ghost(st): Ghost<Seq<Seq<char>>>)
        requires
            old(self).wf(),
            old(self).names_ok(st),
            pattern_ok(st, *p),
            parent == usize::MAX || parent < old(self).nodes@.len(),
        ensures
            final(self).wf(),
            final(self).names_ok(st),
            final(self).nodes@.len() >= old(self).nodes@.len(),
            final(self).current_path@ == old(self).current_path@,
            final(self).state() == pat_state(*p, parent, old(self).current_path@, old(self).state()),
        decreases p, 2nat,
    {
        match &p.sub {
            PatternNodeSub::Leaf => {},
            PatternNodeSub::R(r) => {
                proof {
                    assert(decreases_to!(*p => p.sub));
                }
                self.visit_record(r, parent, Ghost(st))
            },
            PatternNodeSub::V(v) => {
                proof {
                    assert(decreases_to!(*p => p.sub));
                }
                self.visit_variant(v, parent, Ghost(st))
            },
        }
    }

    fn visit_record(&mut self, r: &RecordNode, parent: usize, Ghost(st): Ghost<Seq<Seq<char>>>)
        requires
            old(self).wf(),
            old(self).names_ok(st),
            forall|i: int|
                0 <= i < r.fields@.len() ==> good_component(st, PathComponent::Field((#[trigger] r.fields@[i]).0))
                    && pattern_ok(st, r.fields@[i].1.1),
            parent == usize::MAX || parent < old(self).nodes@.len(),
        ensures
            final(self).wf(),
            final(self).names_ok(st),
            final(self).nodes@.len() >= old(self).nodes@.len(),
            final(self).current_path@ == old(self).current_path@,
            final(self).state() == fields_state(r.fields@, parent, old(self).current_path@, old(self).state()),
        decreases r, 1nat,
    {
        let mut i: usize = 0;
        proof {
            assert(r.fields@.take(0) =~= Seq::<(StringId, (Span, PatternNode))>::empty());
        }
        while i < r.fields.len()
            invariant
                self.state() == fields_state(r.fields@.take(i as int), parent, old(self).current_path@, old(self).state()),
                self.wf(),
                self.names_ok(st),
                forall|i: int|
                    0 <= i < r.fields@.len() ==> good_component(st, PathComponent::Field((#[trigger] r.fields@[i]).0))
                        && pattern_ok(st, r.fields@[i].1.1),
                parent == usize::MAX || parent < self.nodes@.len(),
                self.nodes@.len() >= old(self).nodes@.len(),
                self.current_path@ == old(self).current_path@,
                i <= r.fields@.len(),
            decreases r.fields@.len() - i,
        {
            let field = &r.fields[i];
            proof {
                assert(r.fields@.take(i + 1).drop_last() =~= r.fields@.take(i as int));
                assert(r.fields@.take(i + 1).last() == r.fields@[i as int]);
            }
            self.current_path.push(PathComponent::Field(field.0));
            proof {
                broadcast use vstd::std_specs::vec::axiom_vec_index_decreases;

                assert(decreases_to!(r.fields => r.fields[i as int]));
                assert(decreases_to!(*r => r.fields));
            }
            self.visit_pattern(&field.1.1, parent, Ghost(st));
            self.current_path.pop();
            proof {
                assert(self.current_path@ =~= old(self).current_path@);
            }
            i = i + 1;
        }
        proof {
            assert(r.fields@.take(i as int) =~= r.fields@);
        }
    }

    fn visit_variant(&mut self, v: &VariantNode, parent: usize, Ghost(st): Ghost<Seq<Seq<char>>>)
        requires
            old(self).wf(),
            old(self).names_ok(st),
            forall|i: int|
                0 <= i < v.cases@.len() ==> key_valid(st, (#[trigger] v.cases@[i]).0) && pattern_ok(st, v.cases@[i].1),
            parent == usize::MAX || parent < old(self).nodes@.len(),
        ensures
            final(self).wf(),
            final(self).names_ok(st),
            final(self).nodes@.len() > old(self).nodes@.len(),
            final(self).current_path@ == old(self).current_path@,
            final(self).state() == cases_state(
                v.cases@,
                old(self).nodes@.len() as usize,
                old(self).current_path@,
                add_var(*v, parent, old(self).current_path@, old(self).state()),
            ),
        decreases v, 0nat,
    {
        let id = self.nodes.len();
        let mut required_tags: Vec<StringId> = Vec::new();
        let mut i: usize = 0;
        while i < v.cases.len()
            invariant
                required_tags@ == case_names(v.cases@.take(i as int)),
                i <= v.cases@.len(),
                forall|i: int|
                    0 <= i < v.cases@.len() ==> key_valid(st, (#[trigger] v.cases@[i]).0) && pattern_ok(st, v.cases@[i].1),
                forall|j: int| 0 <= j < required_tags@.len() ==> key_valid(st, #[trigger] required_tags@[j]),
            decreases v.cases@.len() - i,
        {
            required_tags.push(v.cases[i].0);
            proof {
                assert(case_names(v.cases@.take(i + 1)) =~= case_names(v.cases@.take(i as int)).push(v.cases@[i as int].0));
            }
            i = i + 1;
        }
        proof {
            assert(v.cases@.take(i as int) =~= v.cases@);
        }
        let ghost s0 = self.state();
        let ghost a = add_var(*v, parent, old(self).current_path@, s0);
        let path = self.current_path.clone();
        let ghost pv = path@;
        self.nodes.push(DecisionNode { path, key: v.key, required_tags, children: Vec::new() });
        let ghost pushed = self.state();
        proof {
            assert(pv == old(self).current_path@);
            assert(pushed.0 =~= s0.0.push((old(self).current_path@, v.key, case_names(v.cases@), Seq::<usize>::empty())));
            assert forall|a: int, b: int|
                0 <= a < self.nodes@.len() && 0 <= b < self.nodes@[a].children@.len() implies a
                < #[trigger] self.nodes@[a].children@[b] < self.nodes@.len() by {
                if a < id {
                    assert(self.nodes@[a] == old(self).nodes@[a]);
                }
            }
        }
        if parent < id {
            let ghost before = self.nodes@;
            self.nodes[parent].children.push(id);
            proof {
                let nn = s0.0.push((old(self).current_path@, v.key, case_names(v.cases@), Seq::<usize>::empty()));
                assert(self.state().0 =~= nn.update(
                    parent as int,
                    (nn[parent as int].0, nn[parent as int].1, nn[parent as int].2, nn[parent as int].3.push(id)),
                ));
                assert forall|a: int, b: int|
                    0 <= a < self.nodes@.len() && 0 <= b < self.nodes@[a].children@.len() implies a
                    < #[trigger] self.nodes@[a].children@[b] < self.nodes@.len() by {
                    if a != parent {
                        assert(self.nodes@[a] == before[a]);
                    } else if b < before[a].children@.len() {
                        assert(self.nodes@[a].children@[b] == before[a].children@[b]);
                    }
                }
            }
        } else {
            self.top_level.push(id);
        }
        proof {
            assert(self.state() == a);
            assert(v.cases@.take(0) =~= Seq::<(StringId, PatternNode)>::empty());
        }
        let mut i: usize = 0;
        while i < v.cases.len()
            invariant
                self.state() == cases_state(v.cases@.take(i as int), id, old(self).current_path@, a),
                id == old(self).nodes@.len(),
                self.wf(),
                self.names_ok(st),
                forall|i: int|
                    0 <= i < v.cases@.len() ==> key_valid(st, (#[trigger] v.cases@[i]).0) && pattern_ok(st, v.cases@[i].1),
                id < self.nodes@.len(),
                self.current_path@ == old(self).current_path@,
                self.nodes@.len() > old(self).nodes@.len(),
                i <= v.cases@.len(),
            decreases v.cases@.len() - i,
        {
            let case = &v.cases[i];
            proof {
                assert(v.cases@.take(i + 1).drop_last() =~= v.cases@.take(i as int));
                assert(v.cases@.take(i + 1).last() == v.cases@[i as int]);
            }
            self.current_path.push(PathComponent::Case(case.0));
            proof {
                broadcast use vstd::std_specs::vec::axiom_vec_index_decreases;

                assert(decreases_to!(v.cases => v.cases[i as int]));
                assert(decreases_to!(*v => v.cases));
            }
            self.visit_pattern(&case.1, id, Ghost(st));
            self.current_path.pop();
            proof {
                assert(self.current_path@ =~= old(self).current_path@);
            }
            i = i + 1;
        }
        proof {
            assert(v.cases@.take(i as int) =~= v.cases@);
        }
    }
}

/// The number of decision positions in the subtree at `p`, each counted once
/// per way of reaching it.
pub open spec fn subtree_size(nodes: Seq<DecisionNode>, p: int) -> nat
    decreases nodes.len() - p, if 0 <= p < nodes.len() {
        nodes[p].children@.len() + 1
    } else {
        0
    },
{
    if 0 <= p < nodes.len() {
        1 + children_size(nodes, p, nodes[p].children@.len() as int)
    } else {
        0
    }
}

/// The sizes of the subtrees at the first `k` children of `p`.
pub open spec fn children_size(nodes: Seq<DecisionNode>, p: int, k: int) -> nat
    decreases nodes.len() - p, k,
{
    if 0 <= p < nodes.len() && 0 < k <= nodes[p].children@.len() {
        let c = nodes[p].children@[k - 1];
        children_size(nodes, p, k - 1) + if p < c < nodes.len() {
            subtree_size(nodes, c as int)
        } else {
            0
        }
    } else {
        0
    }
}

/// The sizes of the subtrees at the positions `s`, added up: what the search
/// for a missing pattern has left to split on.
pub open spec fn active_measure(nodes: Seq<DecisionNode>, s: Seq<usize>) -> nat
    decreases s.len(),
{
    if s.len() == 0 {
        0
    } else {
        active_measure(nodes, s.drop_last()) + subtree_size(nodes, s.last() as int)
    }
}

proof fn lemma_children_measure(nodes: Seq<DecisionNode>, p: int, k: int)
    requires
        forest_wf(nodes),
        0 <= p < nodes.len(),
        0 <= k <= nodes[p].children@.len(),
    ensures
        children_size(nodes, p, k) == active_measure(nodes, nodes[p].children@.take(k)),
    decreases k,
{
    if k > 0 {
        lemma_children_measure(nodes, p, k - 1);
        let t = nodes[p].children@.take(k);
        assert(t.drop_last() =~= nodes[p].children@.take(k - 1));
        assert(p < nodes[p].children@[k - 1] < nodes.len());
    } else {
        assert(nodes[p].children@.take(0) =~= Seq::<usize>::empty());
    }
}

proof fn lemma_measure_push(nodes: Seq<DecisionNode>, s: Seq<usize>, x: usize)
    ensures
        active_measure(nodes, s.push(x)) == active_measure(nodes, s) + subtree_size(nodes, x as int),
{
    assert(s.push(x).drop_last() =~= s);
}

proof fn lemma_measure_concat(nodes: Seq<DecisionNode>, s: Seq<usize>, t: Seq<usize>)
    ensures
        active_measure(nodes, s + t) == active_measure(nodes, s) + active_measure(nodes, t),
    decreases t.len(),
{
    if t.len() == 0 {
        assert(s + t =~= s);
    } else {
        lemma_measure_concat(nodes, s, t.drop_last());
        assert((s + t).drop_last() =~= s + t.drop_last());
    }
}

/// The positions to split on after splitting on `p`: those of `kept` but `p`,
/// then the children of `p`. There is less left to split on than before.
fn next_active(nodes: &Vec<DecisionNode>, kept: &Vec<usize>, p: usize) -> (r: Vec<usize>)
    requires
        forest_wf(nodes@),
        p < nodes@.len(),
        kept@.contains(p),
        forall|j: int| 0 <= j < kept@.len() ==> #[trigger] kept@[j] < nodes@.len(),
    ensures
        active_measure(nodes@, r@) < active_measure(nodes@, kept@),
        forall|j: int| 0 <= j < r@.len() ==> #[trigger] r@[j] < nodes@.len(),
        r@ == kept@.filter(|a: usize| a != p) + nodes@[p as int].children@,
{
    let mut r: Vec<usize> = Vec::new();
    let mut seen = false;
    let mut i: usize = 0;
    while i < kept.len()
        invariant
            i <= kept@.len(),
            forall|j: int| 0 <= j < kept@.len() ==> #[trigger] kept@[j] < nodes@.len(),
            forall|j: int| 0 <= j < r@.len() ==> #[trigger] r@[j] < nodes@.len(),
            seen <==> kept@.take(i as int).contains(p),
            r@ == kept@.take(i as int).filter(|a: usize| a != p),
            active_measure(nodes@, r@) + if seen {
                subtree_size(nodes@, p as int)
            } else {
                0
            } <= active_measure(nodes@, kept@.take(i as int)),
        decreases kept@.len() - i,
    {
        let a = kept[i];
        proof {
            let t = kept@.take(i as int + 1);
            assert(t.drop_last() =~= kept@.take(i as int));
            assert(t.last() == a);
            reveal(Seq::filter);
            assert(t.filter(|a: usize| a != p) == kept@.take(i as int).filter(|a: usize| a != p).add(
                if a != p {
                    seq![a]
                } else {
                    Seq::empty()
                },
            )) by {
                assert(t =~= kept@.take(i as int).push(a));
                vstd::seq_lib::lemma_seq_take_len(kept@, i as int);
            }
        }
        if a != p {
            proof {
                lemma_measure_push(nodes@, r@, a);
            }
            r.push(a);
        } else {
            seen = true;
        }
        i = i + 1;
        proof {
            assert(kept@.take(i as int).drop_last() =~= kept@.take(i as int - 1));
            assert(kept@.take(i as int) =~= kept@.take(i as int - 1).push(a));
            assert(r@ =~= kept@.take(i as int).filter(|a: usize| a != p));
        }
    }
    proof {
        assert(kept@.take(kept@.len() as int) =~= kept@);
        assert(seen);
    }
    let ghost base = r@;
    let ch = &nodes[p].children;
    let mut j: usize = 0;
    while j < ch.len()
        invariant
            forest_wf(nodes@),
            p < nodes@.len(),
            *ch == nodes@[p as int].children,
            j <= ch@.len(),
            r@ == base + ch@.take(j as int),
            forall|k: int| 0 <= k < r@.len() ==> #[trigger] r@[k] < nodes@.len(),
        decreases ch@.len() - j,
    {
        proof {
            assert(p < ch@[j as int] < nodes@.len());
        }
        r.push(ch[j]);
        j = j + 1;
        proof {
            assert(r@ =~= base + ch@.take(j as int));
        }
    }
    proof {
        assert(ch@.take(ch@.len() as int) =~= ch@);
        lemma_measure_concat(nodes@, base, ch@);
        lemma_children_measure(nodes@, p as int, ch@.len() as int);
    }
    r
}

/// A match case, in terms of decision positions.
pub struct Case {
    pub span: Span,
    /// The tag that the case requires at each position it decides on.
    pub tags: Vec<(usize, StringId)>,
    /// The (position, tag) pairs that the case covers as a whole, since the
    /// earlier cases cover everything else that it matches there.
    pub covers: Vec<(usize, StringId)>,
    pub has_guard: bool,
}

/// The tag that `tags` gives position `p`, if any.
pub open spec fn tag_of(tags: Seq<(usize, StringId)>, p: usize) -> Option<StringId>
    decreases tags.len(),
{
    if tags.len() == 0 {
        None
    } else if tags[0].0 == p {
        Some(tags[0].1)
    } else {
        tag_of(tags.drop_first(), p)
    }
}

proof fn lemma_tag_of_in(tags: Seq<(usize, StringId)>, p: usize)
    ensures
        tag_of(tags, p) is Some ==> exists|j: int| 0 <= j < tags.len() && #[trigger] tags[j] == (p, tag_of(tags, p)->0),
        tag_of(tags, p) is None ==> forall|j: int| 0 <= j < tags.len() ==> (#[trigger] tags[j]).0 != p,
    decreases tags.len(),
{
    if tags.len() > 0 {
        lemma_tag_of_in(tags.drop_first(), p);
        if tags[0].0 != p {
            if tag_of(tags, p) is Some {
                let j = choose|j: int| 0 <= j < tags.drop_first().len() && #[trigger] tags.drop_first()[j] == (
                    p,
                    tag_of(tags, p)->0,
                );
                assert(tags[j + 1] == tags.drop_first()[j]);
            } else {
                assert forall|j: int| 0 <= j < tags.len() implies (#[trigger] tags[j]).0 != p by {
                    if j > 0 {
                        assert(tags[j] == tags.drop_first()[j - 1]);
                    }
                }
            }
        }
    }
}

fn tag_at(tags: &Vec<(usize, StringId)>, p: usize) -> (r: Option<StringId>)
    ensures
        r == tag_of(tags@, p),
{
    let mut i: usize = 0;
    proof {
        assert(tags@.skip(0) =~= tags@);
    }
    while i < tags.len()
        invariant
            i <= tags@.len(),
            tag_of(tags@, p) == tag_of(tags@.skip(i as int), p),
        decreases tags@.len() - i,
    {
        proof {
            assert(tags@.skip(i as int).drop_first() =~= tags@.skip(i as int + 1));
        }
        if tags[i].0 == p {
            return Some(tags[i].1);
        }
        i = i + 1;
    }
    None
}

/// Whether `covers` holds the pair `(p, t)`.
pub open spec fn covers_has(covers: Seq<(usize, StringId)>, p: usize, t: StringId) -> bool {
    exists|j: int| 0 <= j < covers.len() && (#[trigger] covers[j]).0 == p && key_index(covers[j].1) == key_index(t)
}

fn covers_contains(covers: &Vec<(usize, StringId)>, p: usize, t: &StringId) -> (r: bool)
    ensures
        r == covers_has(covers@, p, *t),
{
    let mut i: usize = 0;
    while i < covers.len()
        invariant
            i <= covers@.len(),
            forall|j: int| 0 <= j < i ==> !((#[trigger] covers@[j]).0 == p && key_index(covers@[j].1) == key_index(*t)),
        decreases covers@.len() - i,
    {
        if covers[i].0 == p && same_key(&covers[i].1, t) {
            return true;
        }
        i = i + 1;
    }
    false
}

/// The position of the group of tag `tag`, if there is one.
fn group_index(groups: &Vec<(StringId, Vec<usize>)>, tag: &StringId) -> (r: Option<usize>)
    ensures
        r is Some ==> r->0 < groups@.len() && key_index(groups@[r->0 as int].0) == key_index(*tag),
        r is None ==> forall|g: int| 0 <= g < groups@.len() ==> key_index(#[trigger] groups@[g].0) != key_index(*tag),
{
    let mut g: usize = 0;
    while g < groups.len()
        invariant
            g <= groups@.len(),
            forall|h: int| 0 <= h < g ==> key_index(#[trigger] groups@[h].0) != key_index(*tag),
        decreases groups@.len() - g,
    {
        if same_key(&groups[g].0, tag) {
            return Some(g);
        }
        g = g + 1;
    }
    None
}

/// Whether `keys` holds a key standing for the same string as `k`.
fn has_key(keys: &Vec<StringId>, k: &StringId) -> (r: bool)
    ensures
        r == exists|j: int| 0 <= j < keys@.len() && key_index(#[trigger] keys@[j]) == key_index(*k),
{
    let mut i: usize = 0;
    while i < keys.len()
        invariant
            i <= keys@.len(),
            forall|j: int| 0 <= j < i ==> key_index(#[trigger] keys@[j]) != key_index(*k),
        decreases keys@.len() - i,
    {
        if same_key(&keys[i], k) {
            return true;
        }
        i = i + 1;
    }
    false
}

fn copy_positions(v: &Vec<usize>) -> (r: Vec<usize>)
    ensures
        r@ == v@,
{
    let mut r: Vec<usize> = Vec::new();
    let mut i: usize = 0;
    while i < v.len()
        invariant
            i <= v@.len(),
            r@ == v@.take(i as int),
        decreases v@.len() - i,
    {
        r.push(v[i]);
        i = i + 1;
        proof {
            assert(r@ =~= v@.take(i as int));
        }
    }
    proof {
        assert(v@.take(v@.len() as int) =~= v@);
    }
    r
}

/// Whether position `q` lies in the subtree at position `r`.
pub open spec fn reach(nodes: Seq<DecisionNode>, r: int, q: int) -> bool
    decreases nodes.len() - r,
{
    ||| r == q
    ||| (0 <= r < nodes.len() && exists|j: int|
        0 <= j < nodes[r].children@.len() && r < #[trigger] nodes[r].children@[j] < nodes.len() && reach(
            nodes,
            nodes[r].children@[j] as int,
            q,
        ))
}

/// Whether position `q` lies in the subtree of one of the positions `active`.
pub open spec fn in_active(nodes: Seq<DecisionNode>, active: Seq<usize>, q: int) -> bool {
    exists|i: int| 0 <= i < active.len() && reach(nodes, #[trigger] active[i] as int, q)
}

/// Each case that decides on a position decides on the position above it:
/// a case cannot look inside a variant without choosing its tag.
pub open spec fn cases_closed(nodes: Seq<DecisionNode>, cases: Seq<Case>) -> bool {
    forall|a: int, r: int, j: int|
        0 <= a < cases.len() && 0 <= r < nodes.len() && 0 <= j < nodes[r].children@.len() && tag_of(
            #[trigger] cases[a].tags@,
            #[trigger] nodes[r].children@[j],
        ) is Some ==> tag_of(cases[a].tags@, r as usize) is Some
}

/// A choice of tag (by the position of its string) at each decision position,
/// among the tags that the patterns name there.
pub open spec fn respects(nodes: Seq<DecisionNode>, v: spec_fn(usize) -> nat) -> bool {
    forall|q: int| 0 <= q < nodes.len() ==> #[trigger] allowed(nodes[q], v(q as usize))
}

/// Whether the patterns name a tag at the position `node` whose string is at `t`.
pub open spec fn allowed(node: DecisionNode, t: nat) -> bool {
    exists|j: int| 0 <= j < node.required_tags@.len() && key_index(#[trigger] node.required_tags@[j]) == t
}

/// The case with tags `tags` agrees with the choice `v` at every position it
/// decides on within the subtrees of `active`.
pub open spec fn matches_within(nodes: Seq<DecisionNode>, tags: Seq<(usize, StringId)>, v: spec_fn(usize) -> nat, active: Seq<usize>) -> bool {
    forall|q: usize|
        #[trigger] in_active(nodes, active, q as int) && tag_of(tags, q) is Some ==> v(q) == key_index(
            tag_of(tags, q)->0,
        )
}

/// Every choice of tags is matched, within the subtrees of `active`, by one of
/// the cases `ids`.
pub open spec fn covers_all(nodes: Seq<DecisionNode>, cases: Seq<Case>, ids: Seq<usize>, active: Seq<usize>) -> bool {
    forall|v: spec_fn(usize) -> nat|
        #[trigger] respects(nodes, v) ==> exists|i: int|
            0 <= i < ids.len() && matches_within(nodes, cases[#[trigger] ids[i] as int].tags@, v, active)
}

/// The tags `tags` decide on none of the positions `active`.
/// Whether a case with the tags `tags` matches every decision of `ctx`, a
/// missing tag standing for any.
pub open spec fn ctx_matches(tags: Seq<(usize, StringId)>, ctx: Seq<(usize, StringId)>) -> bool {
    forall|j: int|
        0 <= j < ctx.len() ==> match tag_of(tags, (#[trigger] ctx[j]).0) {
            Some(t2) => key_index(t2) == key_index(ctx[j].1),
            None => true,
        }
}

/// The first of the ignored cases `ig` that matches the decisions `ctx`: its
/// span and how to split it.
pub open spec fn first_ignored(cases: Seq<Case>, ig: Seq<(usize, SplitHint)>, ctx: Seq<(usize, StringId)>) -> Option<(Span, SplitHint)>
    decreases ig.len(),
{
    if ig.len() == 0 {
        None
    } else if ctx_matches(cases[ig[0].0 as int].tags@, ctx) {
        Some((cases[ig[0].0 as int].span, ig[0].1))
    } else {
        first_ignored(cases, ig.drop_first(), ctx)
    }
}

/// The groups of cases by tag, each as a sequence.
pub open spec fn groups_view(g: Seq<(StringId, Vec<usize>)>) -> Seq<(StringId, Seq<usize>)> {
    g.map_values(|e: (StringId, Vec<usize>)| (e.0, e.1@))
}

/// The cases `cs` split at position `p`: those with a tag there, grouped by
/// tag in the order the tags are first met, each group in the order of `cs`;
/// and those without a tag there, in order.
pub open spec fn split_spec(all: Seq<Case>, cs: Seq<usize>, p: usize) -> (Seq<(StringId, Seq<usize>)>, Seq<usize>)
    decreases cs.len(),
{
    if cs.len() == 0 {
        (Seq::empty(), Seq::empty())
    } else {
        let prev = split_spec(all, cs.drop_last(), p);
        let a = cs.last();
        match tag_of(all[a as int].tags@, p) {
            None => (prev.0, prev.1.push(a)),
            Some(t) => if exists|k: int| 0 <= k < prev.0.len() && key_index(#[trigger] prev.0[k].0) == key_index(t) {
                let k = choose|k: int| 0 <= k < prev.0.len() && key_index(#[trigger] prev.0[k].0) == key_index(t);
                (prev.0.update(k, (prev.0[k].0, prev.0[k].1.push(a))), prev.1)
            } else {
                (prev.0.push((t, seq![a])), prev.1)
            },
        }
    }
}

/// How many of `tags` the pairs `covers` cover at position `p`.
pub open spec fn covered_count(covers: Seq<(usize, StringId)>, p: usize, tags: Seq<StringId>) -> nat
    decreases tags.len(),
{
    if tags.len() == 0 {
        0
    } else {
        covered_count(covers, p, tags.drop_last()) + if covers_has(covers, p, tags.last()) {
            1nat
        } else {
            0nat
        }
    }
}

/// The wildcard cases that splitting on `p` would ignore: for each case of
/// `cs` without a tag at `p`, the tags among `tags` that it covers there.
pub open spec fn ignore_count(all: Seq<Case>, cs: Seq<usize>, p: usize, tags: Seq<StringId>) -> nat
    decreases cs.len(),
{
    if cs.len() == 0 {
        0
    } else {
        let c = all[cs.last() as int];
        ignore_count(all, cs.drop_last(), p, tags) + if tag_of(c.tags@, p) is None {
            covered_count(c.covers@, p, tags)
        } else {
            0nat
        }
    }
}

pub open spec fn no_tag_at(tags: Seq<(usize, StringId)>, active: Seq<usize>) -> bool {
    forall|k: int| 0 <= k < active.len() ==> tag_of(tags, #[trigger] active[k]) is None
}

/// A case with no tag at a position has none below it.
proof fn lemma_closed_reach(nodes: Seq<DecisionNode>, cases: Seq<Case>, a: int, r: int, q: int)
    requires
        cases_closed(nodes, cases),
        0 <= a < cases.len(),
        0 <= r,
        reach(nodes, r, q),
        0 <= q,
        q <= usize::MAX,
        r <= usize::MAX,
        tag_of(cases[a].tags@, q as usize) is Some,
    ensures
        tag_of(cases[a].tags@, r as usize) is Some,
    decreases nodes.len() - r,
{
    if r != q {
        let j = choose|j: int|
            0 <= j < nodes[r].children@.len() && r < #[trigger] nodes[r].children@[j] < nodes.len() && reach(
                nodes,
                nodes[r].children@[j] as int,
                q,
            );
        let c = nodes[r].children@[j];
        lemma_closed_reach(nodes, cases, a, c as int, q);
        assert(tag_of(cases[a].tags@, c) is Some);
    }
}

/// Whether one of the groups has the tag `t`.
pub open spec fn tag_grouped(groups: Seq<(StringId, Vec<usize>)>, t: StringId) -> bool {
    exists|g: int| 0 <= g < groups.len() && key_index(#[trigger] groups[g].0) == key_index(t)
}

/// A case that decides on none of the active positions matches every choice
/// within their subtrees.
proof fn lemma_wildcard_covers(nodes: Seq<DecisionNode>, all_cases: Seq<Case>, ids: Seq<usize>, active: Seq<usize>)
    requires
        cases_closed(nodes, all_cases),
        forall|j: int| 0 <= j < ids.len() ==> #[trigger] ids[j] < all_cases.len(),
        exists|i: int| 0 <= i < ids.len() && #[trigger] no_tag_at(all_cases[ids[i] as int].tags@, active),
    ensures
        covers_all(nodes, all_cases, ids, active),
{
    let i = choose|i: int| 0 <= i < ids.len() && #[trigger] no_tag_at(all_cases[ids[i] as int].tags@, active);
    let a = ids[i] as int;
    assert forall|v: spec_fn(usize) -> nat| #[trigger] respects(nodes, v) implies exists|i2: int|
        0 <= i2 < ids.len() && matches_within(nodes, all_cases[#[trigger] ids[i2] as int].tags@, v, active) by {
        assert forall|q: usize| #[trigger] in_active(nodes, active, q as int) && tag_of(all_cases[a].tags@, q) is Some implies v(q)
            == key_index(tag_of(all_cases[a].tags@, q)->0) by {
            let k = choose|k: int| 0 <= k < active.len() && reach(nodes, #[trigger] active[k] as int, q as int);
            lemma_closed_reach(nodes, all_cases, a, active[k] as int, q as int);
            assert(tag_of(all_cases[a].tags@, active[k]) is None);
        }
        assert(matches_within(nodes, all_cases[ids[i] as int].tags@, v, active));
    }
}

/// A position in the subtree of an active position that some case decides on
/// is the split position, or lies in the subtree of one of the next active positions.
proof fn lemma_next_active(
    nodes: Seq<DecisionNode>,
    all_cases: Seq<Case>,
    ids: Seq<usize>,
    active: Seq<usize>,
    kept: Seq<usize>,
    p: usize,
    next: Seq<usize>,
    a: usize,
    q: usize,
)
    requires
        cases_closed(nodes, all_cases),
        p < nodes.len(),
        ids.contains(a),
        a < all_cases.len(),
        forall|j: int|
            0 <= j < active.len() ==> kept.contains(#[trigger] active[j]) || forall|k: int|
                0 <= k < ids.len() ==> tag_of(all_cases[ids[k] as int].tags@, active[j]) is None,
        next == kept.filter(|x: usize| x != p) + nodes[p as int].children@,
        in_active(nodes, active, q as int),
        tag_of(all_cases[a as int].tags@, q) is Some,
    ensures
        q == p || in_active(nodes, next, q as int),
{
    let k = choose|k: int| 0 <= k < active.len() && reach(nodes, #[trigger] active[k] as int, q as int);
    let r = active[k];
    lemma_closed_reach(nodes, all_cases, a as int, r as int, q as int);
    let ka = choose|ka: int| 0 <= ka < ids.len() && ids[ka] == a;
    assert(tag_of(all_cases[ids[ka] as int].tags@, r) is Some);
    assert(kept.contains(r));
    let f = kept.filter(|x: usize| x != p);
    if r == p {
        if q != p {
            let j = choose|j: int|
                0 <= j < nodes[p as int].children@.len() && p < #[trigger] nodes[p as int].children@[j] < nodes.len()
                    && reach(nodes, nodes[p as int].children@[j] as int, q as int);
            assert(next[f.len() + j] == nodes[p as int].children@[j]);
            assert(reach(nodes, next[f.len() + j] as int, q as int));
        }
    } else {
        crate::ordered_map::lemma_filter_contains(kept, |x: usize| x != p, r);
        assert(f.contains(r));
        let m = choose|m: int| 0 <= m < f.len() && f[m] == r;
        assert(next[m] == r);
        assert(reach(nodes, next[m] as int, q as int));
    }
}

/// Splitting on `p` keeps every choice matched: each tag at `p` is covered by
/// its group, or the wildcard cases cover everything.
proof fn lemma_split_covers(
    nodes: Seq<DecisionNode>,
    all_cases: Seq<Case>,
    ids: Seq<usize>,
    active: Seq<usize>,
    kept: Seq<usize>,
    p: usize,
    next: Seq<usize>,
    groups: Seq<(StringId, Vec<usize>)>,
    rest: Seq<usize>,
)
    requires
        cases_closed(nodes, all_cases),
        p < nodes.len(),
        forall|j: int| 0 <= j < ids.len() ==> #[trigger] ids[j] < all_cases.len(),
        forall|j: int|
            0 <= j < active.len() ==> kept.contains(#[trigger] active[j]) || forall|k: int|
                0 <= k < ids.len() ==> tag_of(all_cases[ids[k] as int].tags@, active[j]) is None,
        next == kept.filter(|x: usize| x != p) + nodes[p as int].children@,
        forall|g: int, j: int|
            0 <= g < groups.len() && 0 <= j < groups[g].1@.len() ==> #[trigger] groups[g].1@[j] < all_cases.len()
                && ids.contains(groups[g].1@[j]) && tag_of(all_cases[groups[g].1@[j] as int].tags@, p) is Some
                && key_index(tag_of(all_cases[groups[g].1@[j] as int].tags@, p)->0) == key_index(groups[g].0),
        forall|j: int|
            0 <= j < rest.len() ==> #[trigger] rest[j] < all_cases.len() && ids.contains(rest[j]) && tag_of(
                all_cases[rest[j] as int].tags@,
                p,
            ) is None,
        rest.len() > 0 ==> covers_all(nodes, all_cases, rest, next),
        rest.len() == 0 ==> forall|k: int|
            0 <= k < nodes[p as int].required_tags@.len() ==> #[trigger] tag_grouped(
                groups,
                nodes[p as int].required_tags@[k],
            ),
        forall|h: int| 0 <= h < groups.len() ==> covers_all(nodes, all_cases, #[trigger] groups[h].1@, next),
    ensures
        covers_all(nodes, all_cases, ids, active),
{
    assert forall|v: spec_fn(usize) -> nat| #[trigger] respects(nodes, v) implies exists|i: int|
        0 <= i < ids.len() && matches_within(nodes, all_cases[#[trigger] ids[i] as int].tags@, v, active) by {
        let (c, tp): (usize, Option<StringId>) = if rest.len() > 0 {
            let i2 = choose|i2: int| 0 <= i2 < rest.len() && matches_within(nodes, all_cases[#[trigger] rest[i2] as int].tags@, v, next);
            (rest[i2], None)
        } else {
            assert(allowed(nodes[p as int], v((p as int) as usize)));
            assert((p as int) as usize == p);
            let k = choose|k: int|
                0 <= k < nodes[p as int].required_tags@.len() && key_index(#[trigger] nodes[p as int].required_tags@[k]) == v(p);
            assert(tag_grouped(groups, nodes[p as int].required_tags@[k]));
            let g = choose|g: int|
                0 <= g < groups.len() && key_index(#[trigger] groups[g].0) == key_index(nodes[p as int].required_tags@[k]);
            assert(covers_all(nodes, all_cases, groups[g].1@, next));
            let i2 = choose|i2: int|
                0 <= i2 < groups[g].1@.len() && matches_within(nodes, all_cases[#[trigger] groups[g].1@[i2] as int].tags@, v, next);
            (groups[g].1@[i2], Some(groups[g].0))
        };
        assert(ids.contains(c));
        assert(matches_within(nodes, all_cases[c as int].tags@, v, next));
        assert(tp is None ==> tag_of(all_cases[c as int].tags@, p) is None);
        assert(tp is Some ==> tag_of(all_cases[c as int].tags@, p) is Some && key_index(tag_of(all_cases[c as int].tags@, p)->0) == v(p));
        assert forall|q: usize| #[trigger] in_active(nodes, active, q as int) && tag_of(all_cases[c as int].tags@, q) is Some implies v(q)
            == key_index(tag_of(all_cases[c as int].tags@, q)->0) by {
            lemma_next_active(nodes, all_cases, ids, active, kept, p, next, c, q);
            if q != p {
                assert(in_active(nodes, next, q as int));
            }
        }
        let ic = choose|ic: int| 0 <= ic < ids.len() && ids[ic] == c;
        assert(matches_within(nodes, all_cases[ids[ic] as int].tags@, v, active));
    }
}

/// The pattern made by merging the paths of the decisions `ctx`, each followed
/// by the tag decided there.
pub open spec fn merge_all(nodes: Seq<DecisionNode>, ctx: Seq<(usize, StringId)>) -> MergedView
    decreases ctx.len(),
{
    if ctx.len() == 0 {
        empty_view()
    } else {
        merge_path_spec(merge_all(nodes, ctx.drop_last()), nodes[ctx.last().0 as int].path@, ctx.last().1)
    }
}

/// The note that gives an example of a value that no case matches.
pub open spec fn example_note(pattern: Seq<char>) -> PartView {
    PartView::Text("Note: For example, "@ + pattern + " may not be covered."@)
}

/// A report that a match is not exhaustive, with an example of a value.
pub open spec fn not_exhaustive_report(match_span: Span, e: Seq<PartView>) -> bool {
    &&& e.len() >= 2
    &&& e[0] == PartView::At("SyntaxError: Match expression is not exhaustive."@, match_span)
    &&& exists|pattern: Seq<char>| #[trigger] example_note(pattern) == e[1]
}

/// The report of an internal compiler error.
pub open spec fn ice_report() -> Seq<PartView> {
    seq![PartView::Text(ice_message())]
}

struct ExhaustivenessChecker<'a> {
    match_span: Span,
    strings: &'a lasso::Rodeo,
    dnodes: Vec<DecisionNode>,
    cases: Vec<Case>,
    tag_here_str: StringId,
    context_stack: Vec<(usize, StringId)>,
    ignored_cases: Vec<(usize, SplitHint)>,
    nonexhaustive_wildcard_reasons: Vec<(DecisionKey, MissingPattern)>,
}

impl<'a> ExhaustivenessChecker<'a> {
    spec fn wf(&self) -> bool {
        let st = interned(*self.strings);
        &&& st.no_duplicates()
        &&& forest_wf(self.dnodes@)
        &&& key_valid(st, self.tag_here_str)
        &&& forall|i: int, j: int|
            0 <= i < self.dnodes@.len() && 0 <= j < self.dnodes@[i].path@.len() ==> good_component(
                st,
                #[trigger] self.dnodes@[i].path@[j],
            )
        &&& forall|i: int, j: int|
            0 <= i < self.dnodes@.len() && 0 <= j < self.dnodes@[i].required_tags@.len() ==> key_valid(
                st,
                #[trigger] self.dnodes@[i].required_tags@[j],
            )
        &&& forall|i: int, j: int|
            0 <= i < self.cases@.len() && 0 <= j < self.cases@[i].tags@.len() ==> (
            #[trigger] self.cases@[i].tags@[j]).0 < self.dnodes@.len() && key_valid(st, self.cases@[i].tags@[j].1)
        &&& forall|j: int|
            0 <= j < self.context_stack@.len() ==> (#[trigger] self.context_stack@[j]).0 < self.dnodes@.len()
                && key_valid(st, self.context_stack@[j].1)
        &&& forall|j: int| 0 <= j < self.ignored_cases@.len() ==> (#[trigger] self.ignored_cases@[j]).0 < self.cases@.len()
    }

    /// An example pattern for the decisions taken so far.
    fn print_example_pattern(&self) -> (r: String)
        requires
            self.wf(),
        ensures
            r@ == print_view(interned(*self.strings), merge_all(self.dnodes@, self.context_stack@)),
    {
        let ghost st = interned(*self.strings);
        let mut merger = MergedPathNode::new();
        let mut i: usize = 0;
        while i < self.context_stack.len()
            invariant
                self.wf(),
                st == interned(*self.strings),
                i <= self.context_stack@.len(),
                merger.view() == merge_all(self.dnodes@, self.context_stack@.take(i as int)),
                good_tree(st, merger.view()),
            decreases self.context_stack@.len() - i,
        {
            let (p, t) = self.context_stack[i];
            proof {
                assert(self.context_stack@[i as int] == (p, t));
                assert forall|j: int| 0 <= j < self.dnodes@[p as int].path@.len() implies good_component(
                    st,
                    #[trigger] self.dnodes@[p as int].path@[j],
                ) by {}
                lemma_merged_printable(st, merger.view(), self.dnodes@[p as int].path@, t);
                let c = self.context_stack@.take(i as int + 1);
                assert(c.drop_last() =~= self.context_stack@.take(i as int));
            }
            merger.merge_path(self.dnodes[p].path.as_slice(), t);
            i = i + 1;
        }
        proof {
            assert(self.context_stack@.take(self.context_stack@.len() as int) =~= self.context_stack@);
            lemma_good_printable(st, merger.view());
        }
        merger.print(self.strings)
    }

    /// Whether the case `case` matches every decision taken so far, taking a
    /// missing tag as a wildcard.
    fn matches_context(&self, case: &Case) -> (r: bool)
        ensures
            r == forall|j: int|
                0 <= j < self.context_stack@.len() ==> match tag_of(
                    case.tags@,
                    (#[trigger] self.context_stack@[j]).0,
                ) {
                    Some(t2) => key_index(t2) == key_index(self.context_stack@[j].1),
                    None => true,
                },
    {
        let mut j: usize = 0;
        while j < self.context_stack.len()
            invariant
                j <= self.context_stack@.len(),
                forall|k: int|
                    0 <= k < j ==> match tag_of(case.tags@, (#[trigger] self.context_stack@[k]).0) {
                        Some(t2) => key_index(t2) == key_index(self.context_stack@[k].1),
                        None => true,
                    },
            decreases self.context_stack@.len() - j,
        {
            let (p, t) = self.context_stack[j];
            match tag_at(&case.tags, p) {
                Some(t2) => {
                    if !same_key(&t2, &t) {
                        return false;
                    }
                },
                None => {},
            }
            j = j + 1;
        }
        true
    }

    /// The first ignored case that matches the decisions taken so far, if any:
    /// its span and how to split it.
    fn get_ignored_match(&self) -> (r: Option<(Span, SplitHint)>)
        requires
            self.wf(),
        ensures
            r == first_ignored(self.cases@, self.ignored_cases@, self.context_stack@),
    {
        let mut i: usize = 0;
        proof {
            assert(self.ignored_cases@.skip(0) =~= self.ignored_cases@);
        }
        while i < self.ignored_cases.len()
            invariant
                self.wf(),
                i <= self.ignored_cases@.len(),
                first_ignored(self.cases@, self.ignored_cases@, self.context_stack@) == first_ignored(
                    self.cases@,
                    self.ignored_cases@.skip(i as int),
                    self.context_stack@,
                ),
            decreases self.ignored_cases@.len() - i,
        {
            let ci = self.ignored_cases[i].0;
            let case = &self.cases[ci];
            proof {
                let rest = self.ignored_cases@.skip(i as int);
                assert(rest[0] == self.ignored_cases@[i as int]);
                assert(rest.drop_first() =~= self.ignored_cases@.skip(i + 1));
            }
            if self.matches_context(case) {
                return Some((case.span, self.ignored_cases[i].1.clone()));
            }
            i = i + 1;
        }
        None
    }

    fn get_missing_pattern_expl(&self) -> (r: MissingPattern)
        requires
            self.wf(),
        ensures
            r.pattern@ == print_view(interned(*self.strings), merge_all(self.dnodes@, self.context_stack@)),
            r.ignored == first_ignored(self.cases@, self.ignored_cases@, self.context_stack@),
    {
        let pattern = self.print_example_pattern();
        let ignored = self.get_ignored_match();
        MissingPattern { pattern, ignored }
    }

    /// Whether one of `cases` has no tag at any of `active_paths`.
    fn has_wildcard_case(&self, active_paths: &Vec<usize>, cases: &Vec<usize>) -> (r: bool)
        requires
            forall|j: int| 0 <= j < cases@.len() ==> #[trigger] cases@[j] < self.cases@.len(),
        ensures
            r == exists|i: int|
                0 <= i < cases@.len() && #[trigger] no_tag_at(self.cases@[cases@[i] as int].tags@, active_paths@),
    {
        let mut i: usize = 0;
        while i < cases.len()
            invariant
                i <= cases@.len(),
                forall|j: int| 0 <= j < cases@.len() ==> #[trigger] cases@[j] < self.cases@.len(),
                forall|j: int| 0 <= j < i ==> !#[trigger] no_tag_at(self.cases@[cases@[j] as int].tags@, active_paths@),
            decreases cases@.len() - i,
        {
            let case = &self.cases[cases[i]];
            let mut all_wild = true;
            let mut j: usize = 0;
            while j < active_paths.len()
                invariant
                    j <= active_paths@.len(),
                    all_wild == forall|k: int| 0 <= k < j ==> tag_of(case.tags@, #[trigger] active_paths@[k]) is None,
                decreases active_paths@.len() - j,
            {
                if tag_at(&case.tags, active_paths[j]).is_some() {
                    all_wild = false;
                }
                j = j + 1;
            }
            if all_wild {
                proof {
                    assert(no_tag_at(self.cases@[cases@[i as int] as int].tags@, active_paths@));
                }
                return true;
            }
            proof {
                assert(!no_tag_at(self.cases@[cases@[i as int] as int].tags@, active_paths@));
            }
            i = i + 1;
        }
        false
    }

    /// The distinct tags that `cases` require at `p`, in the order first met.
    fn tags_at(&self, cases: &Vec<usize>, p: usize) -> (r: Vec<StringId>)
        requires
            forall|j: int| 0 <= j < cases@.len() ==> #[trigger] cases@[j] < self.cases@.len(),
        ensures
            r@.len() <= cases@.len(),
            r@.len() == 0 ==> forall|j: int| 0 <= j < cases@.len() ==> tag_of(self.cases@[#[trigger] cases@[j] as int].tags@, p) is None,
    {
        let mut tags: Vec<StringId> = Vec::new();
        let mut i: usize = 0;
        while i < cases.len()
            invariant
                i <= cases@.len(),
                tags@.len() <= i,
                tags@.len() == 0 ==> forall|j: int| 0 <= j < i ==> tag_of(self.cases@[#[trigger] cases@[j] as int].tags@, p) is None,
                forall|j: int| 0 <= j < cases@.len() ==> #[trigger] cases@[j] < self.cases@.len(),
            decreases cases@.len() - i,
        {
            match tag_at(&self.cases[cases[i]].tags, p) {
                Some(tag) => {
                    if !has_key(&tags, &tag) {
                        tags.push(tag);
                    }
                },
                None => {},
            }
            i = i + 1;
        }
        tags
    }

    /// How many wildcard cases would be ignored when splitting on `p`: for each
    /// case without a tag at `p`, the tags among `tags` that it covers there.
    fn count_ignores(&self, cases: &Vec<usize>, p: usize, tags: &Vec<StringId>) -> (r: u128)
        requires
            forall|j: int| 0 <= j < cases@.len() ==> #[trigger] cases@[j] < self.cases@.len(),
        ensures
            r == ignore_count(self.cases@, cases@, p, tags@),
    {
        let mut num_ignores: u128 = 0;
        let mut i: usize = 0;
        proof {
            assert(cases@.take(0) =~= Seq::<usize>::empty());
        }
        while i < cases.len()
            invariant
                i <= cases@.len(),
                forall|j: int| 0 <= j < cases@.len() ==> #[trigger] cases@[j] < self.cases@.len(),
                num_ignores <= i * tags@.len(),
                num_ignores == ignore_count(self.cases@, cases@.take(i as int), p, tags@),
            decreases cases@.len() - i,
        {
            let case = &self.cases[cases[i]];
            let ghost base = num_ignores as int;
            proof {
                assert(cases@.take(i + 1).drop_last() =~= cases@.take(i as int));
                assert(cases@.take(i + 1).last() == cases@[i as int]);
                assert(tags@.take(0) =~= Seq::<StringId>::empty());
            }
            if tag_at(&case.tags, p).is_none() {
                let mut j: usize = 0;
                while j < tags.len()
                    invariant
                        j <= tags@.len(),
                        i < cases@.len(),
                        num_ignores <= i * tags@.len() + j,
                        num_ignores == base + covered_count(case.covers@, p, tags@.take(j as int)),
                    decreases tags@.len() - j,
                {
                    proof {
                        assert(tags@.take(j + 1).drop_last() =~= tags@.take(j as int));
                        assert(tags@.take(j + 1).last() == tags@[j as int]);
                    }
                    if covers_contains(&case.covers, p, &tags[j]) {
                        proof {
                            assert(i * tags@.len() + j < (usize::MAX as int) * (usize::MAX as int) + (usize::MAX as int))
                                by (nonlinear_arith)
                                requires
                                    i <= usize::MAX,
                                    j < tags@.len(),
                                    tags@.len() <= usize::MAX,
                            ;
                            assert((usize::MAX as int) * (usize::MAX as int) + (usize::MAX as int) < u128::MAX)
                                by (nonlinear_arith);
                        }
                        num_ignores = num_ignores + 1;
                    }
                    j = j + 1;
                }
                proof {
                    assert(i * tags@.len() + tags@.len() == (i + 1) * tags@.len()) by (nonlinear_arith);
                    assert(tags@.take(j as int) =~= tags@);
                }
            } else {
                proof {
                    assert(i * tags@.len() <= (i + 1) * tags@.len()) by (nonlinear_arith);
                }
            }
            i = i + 1;
        }
        proof {
            assert(cases@.take(i as int) =~= cases@);
        }
        num_ignores
    }

    /// The position to split on: among `active_paths` where some case has a
    /// tag, the first that ignores the fewest wildcard cases. Also the
    /// positions where some case has a tag.
    fn choose_split(&self, active_paths: &Vec<usize>, cases: &Vec<usize>) -> (r: (Option<usize>, Vec<usize>))
        requires
            self.wf(),
            forall|j: int| 0 <= j < active_paths@.len() ==> #[trigger] active_paths@[j] < self.dnodes@.len(),
            forall|j: int| 0 <= j < cases@.len() ==> #[trigger] cases@[j] < self.cases@.len(),
        ensures
            forall|j: int| 0 <= j < r.1@.len() ==> #[trigger] r.1@[j] < self.dnodes@.len(),
            r.0 is Some ==> r.1@.contains(r.0->0),
            r.0 is None ==> r.1@.len() == 0,
            r.0 is Some ==> cases@.len() > 0,
            active_measure(self.dnodes@, r.1@) <= active_measure(self.dnodes@, active_paths@),
            forall|j: int|
                0 <= j < active_paths@.len() ==> r.1@.contains(#[trigger] active_paths@[j]) || forall|k: int|
                    0 <= k < cases@.len() ==> tag_of(self.cases@[cases@[k] as int].tags@, active_paths@[j]) is None,
    {
        let mut best: Option<(usize, u128)> = None;
        let mut kept: Vec<usize> = Vec::new();
        let mut i: usize = 0;
        while i < active_paths.len()
            invariant
                self.wf(),
                i <= active_paths@.len(),
                forall|j: int| 0 <= j < active_paths@.len() ==> #[trigger] active_paths@[j] < self.dnodes@.len(),
                forall|j: int| 0 <= j < cases@.len() ==> #[trigger] cases@[j] < self.cases@.len(),
                forall|j: int| 0 <= j < kept@.len() ==> #[trigger] kept@[j] < self.dnodes@.len(),
                best is Some ==> kept@.contains((best->0).0),
                best is None ==> kept@.len() == 0,
                best is Some ==> cases@.len() > 0,
                active_measure(self.dnodes@, kept@) <= active_measure(self.dnodes@, active_paths@.take(i as int)),
                forall|j: int|
                    0 <= j < i ==> kept@.contains(#[trigger] active_paths@[j]) || forall|k: int|
                        0 <= k < cases@.len() ==> tag_of(self.cases@[cases@[k] as int].tags@, active_paths@[j]) is None,
            decreases active_paths@.len() - i,
        {
            let p = active_paths[i];
            let tags = self.tags_at(cases, p);
            proof {
                let t = active_paths@.take(i as int + 1);
                assert(t.drop_last() =~= active_paths@.take(i as int));
            }
            let ghost old_kept = kept@;
            if tags.len() > 0 {
                let num_ignores = self.count_ignores(cases, p, &tags);
                let better = match best {
                    None => true,
                    Some((_, best_num)) => num_ignores < best_num,
                };
                proof {
                    lemma_measure_push(self.dnodes@, kept@, p);
                }
                kept.push(p);
                if better {
                    best = Some((p, num_ignores));
                }
                proof {
                    assert(kept@ == old_kept.push(p));
                    assert(kept@[kept@.len() - 1] == p);
                    if best is Some {
                        let x = (best->0).0;
                        if x != p {
                            assert(old_kept.contains(x));
                            let k = choose|k: int| 0 <= k < old_kept.len() && old_kept[k] == x;
                            assert(kept@[k] == x);
                        }
                    }
                    assert forall|j: int| 0 <= j < i + 1 && old_kept.contains(#[trigger] active_paths@[j]) implies kept@.contains(
                        active_paths@[j],
                    ) by {
                        let k = choose|k: int| 0 <= k < old_kept.len() && old_kept[k] == active_paths@[j];
                        assert(kept@[k] == active_paths@[j]);
                    }
                }
            }
            i = i + 1;
        }
        proof {
            assert(active_paths@.take(active_paths@.len() as int) =~= active_paths@);
        }
        let best_pos = match best {
            Some((p, _)) => Some(p),
            None => None,
        };
        (best_pos, kept)
    }

    /// Splits `cases` into those with a tag at `p`, grouped by tag in the order
    /// first met, and those without.
    fn split_cases(&self, cases: &Vec<usize>, p: usize) -> (r: (Vec<(StringId, Vec<usize>)>, Vec<usize>))
        requires
            self.wf(),
            forall|j: int| 0 <= j < cases@.len() ==> #[trigger] cases@[j] < self.cases@.len(),
        ensures
            forall|g: int, j: int|
                0 <= g < r.0@.len() && 0 <= j < r.0@[g].1@.len() ==> #[trigger] r.0@[g].1@[j] < self.cases@.len()
                    && cases@.contains(r.0@[g].1@[j]) && tag_of(self.cases@[r.0@[g].1@[j] as int].tags@, p) is Some
                    && key_index(tag_of(self.cases@[r.0@[g].1@[j] as int].tags@, p)->0) == key_index(r.0@[g].0),
            forall|g: int| 0 <= g < r.0@.len() ==> key_valid(interned(*self.strings), #[trigger] r.0@[g].0),
            forall|j: int|
                0 <= j < r.1@.len() ==> #[trigger] r.1@[j] < self.cases@.len() && cases@.contains(r.1@[j]) && tag_of(
                    self.cases@[r.1@[j] as int].tags@,
                    p,
                ) is None,
            groups_view(r.0@) == split_spec(self.cases@, cases@, p).0,
            forall|g: int| 0 <= g < r.0@.len() ==> (#[trigger] r.0@[g]).1@.len() > 0,
            r.1@ == split_spec(self.cases@, cases@, p).1,
    {
        let mut cases_by_tag: Vec<(StringId, Vec<usize>)> = Vec::new();
        let mut rest: Vec<usize> = Vec::new();
        let mut i: usize = 0;
        proof {
            assert(cases@.take(0) =~= Seq::<usize>::empty());
            assert(groups_view(cases_by_tag@) =~= Seq::<(StringId, Seq<usize>)>::empty());
        }
        while i < cases.len()
            invariant
                groups_view(cases_by_tag@) == split_spec(self.cases@, cases@.take(i as int), p).0,
                forall|g: int| 0 <= g < cases_by_tag@.len() ==> (#[trigger] cases_by_tag@[g]).1@.len() > 0,
                rest@ == split_spec(self.cases@, cases@.take(i as int), p).1,
                forall|g: int, h: int|
                    0 <= g < h < cases_by_tag@.len() ==> key_index(#[trigger] cases_by_tag@[g].0) != key_index(
                        #[trigger] cases_by_tag@[h].0,
                    ),
                self.wf(),
                i <= cases@.len(),
                forall|j: int| 0 <= j < cases@.len() ==> #[trigger] cases@[j] < self.cases@.len(),
                forall|j: int|
                    0 <= j < rest@.len() ==> #[trigger] rest@[j] < self.cases@.len() && cases@.contains(rest@[j])
                        && tag_of(self.cases@[rest@[j] as int].tags@, p) is None,
                forall|g: int, j: int|
                    0 <= g < cases_by_tag@.len() && 0 <= j < cases_by_tag@[g].1@.len() ==> #[trigger] cases_by_tag@[g].1@[j]
                        < self.cases@.len() && cases@.contains(cases_by_tag@[g].1@[j]) && tag_of(
                        self.cases@[cases_by_tag@[g].1@[j] as int].tags@,
                        p,
                    ) is Some && key_index(tag_of(self.cases@[cases_by_tag@[g].1@[j] as int].tags@, p)->0) == key_index(
                        cases_by_tag@[g].0,
                    ),
                forall|g: int|
                    0 <= g < cases_by_tag@.len() ==> key_valid(interned(*self.strings), #[trigger] cases_by_tag@[g].0),
            decreases cases@.len() - i,
        {
            let a = cases[i];
            let ghost pre = split_spec(self.cases@, cases@.take(i as int), p);
            let ghost gv0 = cases_by_tag@;
            proof {
                assert(cases@.take(i + 1).drop_last() =~= cases@.take(i as int));
                assert(cases@.take(i + 1).last() == a);
                assert(cases@.contains(a)) by {
                    assert(cases@[i as int] == a);
                }
            }
            match tag_at(&self.cases[a].tags, p) {
                Some(tag) => {
                    proof {
                        lemma_tag_of_in(self.cases@[a as int].tags@, p);
                        let j = choose|j: int|
                            0 <= j < self.cases@[a as int].tags@.len() && #[trigger] self.cases@[a as int].tags@[j] == (
                                p,
                                tag,
                            );
                        assert(key_valid(interned(*self.strings), self.cases@[a as int].tags@[j].1));
                    }
                    match group_index(&cases_by_tag, &tag) {
                        Some(g) => {
                            let ghost before = cases_by_tag@;
                            cases_by_tag[g].1.push(a);
                            proof {
                                assert(groups_view(before)[g as int].0 == before[g as int].0);
                                assert(exists|k: int| 0 <= k < pre.0.len() && key_index(#[trigger] pre.0[k].0) == key_index(tag));
                                let k = choose|k: int| 0 <= k < pre.0.len() && key_index(#[trigger] pre.0[k].0) == key_index(tag);
                                assert(pre.0[k].0 == before[k].0);
                                assert(k == g as int);
                                assert(groups_view(cases_by_tag@) =~= pre.0.update(k, (pre.0[k].0, pre.0[k].1.push(a))));
                                assert forall|x: int, y: int|
                                    0 <= x < y < cases_by_tag@.len() implies key_index(#[trigger] cases_by_tag@[x].0) != key_index(
                                    #[trigger] cases_by_tag@[y].0,
                                ) by {
                                    assert(cases_by_tag@[x].0 == before[x].0);
                                    assert(cases_by_tag@[y].0 == before[y].0);
                                }
                                assert forall|h: int, j: int|
                                    0 <= h < cases_by_tag@.len() && 0 <= j < cases_by_tag@[h].1@.len() implies #[trigger] cases_by_tag@[h].1@[j]
                                    < self.cases@.len() && cases@.contains(cases_by_tag@[h].1@[j]) && tag_of(
                                    self.cases@[cases_by_tag@[h].1@[j] as int].tags@,
                                    p,
                                ) is Some && key_index(tag_of(self.cases@[cases_by_tag@[h].1@[j] as int].tags@, p)->0)
                                    == key_index(cases_by_tag@[h].0) by {
                                    if h != g {
                                        assert(cases_by_tag@[h] == before[h]);
                                    } else if j < before[h].1@.len() {
                                        assert(cases_by_tag@[h].1@[j] == before[h].1@[j]);
                                    } else {
                                        assert(cases_by_tag@[h].1@[j] == a);
                                        assert(cases_by_tag@[h].0 == before[h].0);
                                    }
                                }
                                assert forall|h: int| 0 <= h < cases_by_tag@.len() implies key_valid(
                                    interned(*self.strings),
                                    #[trigger] cases_by_tag@[h].0,
                                ) by {
                                    assert(cases_by_tag@[h].0 == before[h].0);
                                }
                            }
                        },
                        None => {
                            let mut group: Vec<usize> = Vec::new();
                            group.push(a);
                            let ghost before = cases_by_tag@;
                            let ghost gv = group@;
                            proof {
                                assert(gv == seq![a]);
                            }
                            cases_by_tag.push((tag, group));
                            proof {
                                assert forall|k: int| 0 <= k < pre.0.len() implies key_index(#[trigger] pre.0[k].0) != key_index(tag) by {
                                    assert(pre.0[k].0 == before[k].0);
                                }
                                assert(groups_view(cases_by_tag@) =~= pre.0.push((tag, seq![a])));
                                assert forall|x: int, y: int|
                                    0 <= x < y < cases_by_tag@.len() implies key_index(#[trigger] cases_by_tag@[x].0) != key_index(
                                    #[trigger] cases_by_tag@[y].0,
                                ) by {
                                    if y < before.len() {
                                        assert(cases_by_tag@[x] == before[x]);
                                        assert(cases_by_tag@[y] == before[y]);
                                    } else {
                                        assert(cases_by_tag@[x] == before[x]);
                                    }
                                }
                                assert forall|h: int, j: int|
                                    0 <= h < cases_by_tag@.len() && 0 <= j < cases_by_tag@[h].1@.len() implies #[trigger] cases_by_tag@[h].1@[j]
                                    < self.cases@.len() && cases@.contains(cases_by_tag@[h].1@[j]) && tag_of(
                                    self.cases@[cases_by_tag@[h].1@[j] as int].tags@,
                                    p,
                                ) is Some && key_index(tag_of(self.cases@[cases_by_tag@[h].1@[j] as int].tags@, p)->0)
                                    == key_index(cases_by_tag@[h].0) by {
                                    assert(cases_by_tag@.len() == before.len() + 1);
                                    if h < before.len() {
                                        assert(cases_by_tag@[h] == before[h]);
                                    } else {
                                        assert(cases_by_tag@[h].1@ == gv);
                                        assert(cases_by_tag@[h].0 == tag);
                                        assert(cases_by_tag@[h].1@[j] == a);
                                    }
                                }
                                assert forall|h: int| 0 <= h < cases_by_tag@.len() implies key_valid(
                                    interned(*self.strings),
                                    #[trigger] cases_by_tag@[h].0,
                                ) by {
                                    if h < before.len() {
                                        assert(cases_by_tag@[h] == before[h]);
                                    }
                                }
                            }
                        },
                    }
                },
                None => {
                    rest.push(a);
                },
            }
            i = i + 1;
        }
        proof {
            assert(cases@.take(i as int) =~= cases@);
        }
        (cases_by_tag, rest)
    }

    /// The first tag that the patterns name at `p` and that no group holds.
    fn missing_required_tag(&self, p: usize, groups: &Vec<(StringId, Vec<usize>)>) -> (r: Option<StringId>)
        requires
            self.wf(),
            p < self.dnodes@.len(),
        ensures
            r is Some ==> key_valid(interned(*self.strings), r->0),
            r is None ==> forall|k: int|
                0 <= k < self.dnodes@[p as int].required_tags@.len() ==> #[trigger] tag_grouped(
                    groups@,
                    self.dnodes@[p as int].required_tags@[k],
                ),
    {
        let mut k: usize = 0;
        while k < self.dnodes[p].required_tags.len()
            invariant
                self.wf(),
                p < self.dnodes@.len(),
                k <= self.dnodes@[p as int].required_tags@.len(),
                forall|k2: int|
                    0 <= k2 < k ==> #[trigger] tag_grouped(groups@, self.dnodes@[p as int].required_tags@[k2]),
            decreases self.dnodes@[p as int].required_tags@.len() - k,
        {
            let t = self.dnodes[p].required_tags[k];
            match group_index(groups, &t) {
                Some(g) => {},
                None => {
                    return Some(t);
                },
            }
            k = k + 1;
        }
        None
    }

    /// Checks that `cases` cover every value at the decision positions
    /// `active_paths`, given the decisions taken so far.
    ///
    /// When every case that decides on a position decides on the position above
    /// it, success means that every choice of the tags the patterns name is
    /// matched by one of `cases`, within the subtrees of `active_paths`.
    fn check(&mut self, active_paths: Vec<usize>, cases: Vec<usize>) -> (r: Result<(), SpannedError>)
        requires
            old(self).wf(),
            forall|j: int| 0 <= j < active_paths@.len() ==> #[trigger] active_paths@[j] < old(self).dnodes@.len(),
            forall|j: int| 0 <= j < cases@.len() ==> #[trigger] cases@[j] < old(self).cases@.len(),
        ensures
            final(self).wf(),
            final(self).dnodes == old(self).dnodes,
            final(self).cases == old(self).cases,
            final(self).strings == old(self).strings,
            final(self).match_span == old(self).match_span,
            final(self).tag_here_str == old(self).tag_here_str,
            r is Ok ==> final(self).context_stack@ == old(self).context_stack@,
            r is Ok ==> final(self).ignored_cases@ == old(self).ignored_cases@,
            cases@.len() == 0 ==> (r matches Err(e) && e@ == ice_report()),
            cases@.len() > 0 && r is Err ==> not_exhaustive_report(old(self).match_span, r->Err_0@),
            (exists|i: int| 0 <= i < cases@.len() && #[trigger] no_tag_at(old(self).cases@[cases@[i] as int].tags@, active_paths@))
                ==> r is Ok && *final(self) == *old(self),
            r is Ok && cases_closed(old(self).dnodes@, old(self).cases@) ==> covers_all(
                old(self).dnodes@,
                old(self).cases@,
                cases@,
                active_paths@,
            ),
        decreases active_measure(old(self).dnodes@, active_paths@),
    {
        // A case with no tag at any active position matches everything left.
        if self.has_wildcard_case(&active_paths, &cases) {
            proof {
                if cases_closed(self.dnodes@, self.cases@) {
                    lemma_wildcard_covers(self.dnodes@, self.cases@, cases@, active_paths@);
                }
            }
            return Ok(());
        }

        // Split on the position that ignores the fewest wildcard cases; drop the
        // positions where no case has a tag.
        let (best, kept) = self.choose_split(&active_paths, &cases);
        let p = match best {
            Some(p) => p,
            None => {
                proof {
                    if cases@.len() > 0 {
                        assert forall|k: int| 0 <= k < active_paths@.len() implies tag_of(
                            self.cases@[cases@[0] as int].tags@,
                            #[trigger] active_paths@[k],
                        ) is None by {
                            assert(!kept@.contains(active_paths@[k]));
                        }
                        assert(no_tag_at(self.cases@[cases@[0] as int].tags@, active_paths@));
                    }
                }
                return Err(SpannedError::from_ice(ice()));
            },
        };
        let next = next_active(&self.dnodes, &kept, p);

        // The pattern for the position, for hints on wildcard cases.
        let printed_p = {
            let mut merger = MergedPathNode::new();
            proof {
                assert forall|j: int| 0 <= j < self.dnodes@[p as int].path@.len() implies good_component(
                    interned(*self.strings),
                    #[trigger] self.dnodes@[p as int].path@[j],
                ) by {}
                lemma_merged_printable(interned(*self.strings), empty_view(), self.dnodes@[p as int].path@, self.tag_here_str);
            }
            merger.merge_path(self.dnodes[p].path.as_slice(), self.tag_here_str);
            merger.print(self.strings)
        };

        // Split off the cases with a tag at `p`, keeping the wildcards.
        let (cases_by_tag, rest) = self.split_cases(&cases, p);

        if rest.len() == 0 {
            match self.missing_required_tag(p, &cases_by_tag) {
                Some(t) => {
                    self.context_stack.push((p, t));
                    let mp = self.get_missing_pattern_expl();
                    let mut err = SpannedError::new1("SyntaxError: Match expression is not exhaustive.", self.match_span);
                    let note = concat3("Note: For example, ", mp.pattern.as_str(), " may not be covered.");
                    err.push_str(note.as_str());
                    proof {
                        assert(example_note(mp.pattern@) == err@[1]);
                    }
                    mp.print_ignored(&mut err);
                    return Err(err);
                },
                None => {},
            }

            // Remember why this position had no wildcard case.
            let key = self.dnodes[p].key;
            let mut known = false;
            let mut g: usize = 0;
            while g < self.nonexhaustive_wildcard_reasons.len()
                invariant
                    g <= self.nonexhaustive_wildcard_reasons@.len(),
                decreases self.nonexhaustive_wildcard_reasons@.len() - g,
            {
                if self.nonexhaustive_wildcard_reasons[g].0 == key {
                    known = true;
                }
                g = g + 1;
            }
            if !known {
                let mp = self.get_missing_pattern_expl();
                self.nonexhaustive_wildcard_reasons.push((key, mp));
            }
        }

        // Check each tag on its own, noting the wildcard cases that are left out.
        let ignore_len = self.ignored_cases.len();
        let ghost entry_ignored = self.ignored_cases@;
        let ghost entry_context = self.context_stack@;
        let ghost nodes = self.dnodes@;
        let ghost all_cases = self.cases@;
        let ghost no_wild = !(exists|i: int|
            0 <= i < cases@.len() && #[trigger] no_tag_at(old(self).cases@[cases@[i] as int].tags@, active_paths@));
        let mut g: usize = 0;
        while g < cases_by_tag.len()
            invariant
                no_wild,
                no_wild == !(exists|i: int|
                    0 <= i < cases@.len() && #[trigger] no_tag_at(old(self).cases@[cases@[i] as int].tags@, active_paths@)),
                cases@.len() > 0,
                forall|h: int| 0 <= h < cases_by_tag@.len() ==> (#[trigger] cases_by_tag@[h]).1@.len() > 0,
                self.wf(),
                p < self.dnodes@.len(),
                g <= cases_by_tag@.len(),
                ignore_len == entry_ignored.len(),
                self.ignored_cases@ == entry_ignored,
                self.context_stack@ == entry_context,
                self.dnodes == old(self).dnodes,
                self.cases == old(self).cases,
                self.strings == old(self).strings,
                self.match_span == old(self).match_span,
                self.tag_here_str == old(self).tag_here_str,
                nodes == self.dnodes@,
                all_cases == self.cases@,
                active_measure(self.dnodes@, next@) < active_measure(old(self).dnodes@, active_paths@),
                forall|j: int| 0 <= j < next@.len() ==> #[trigger] next@[j] < self.dnodes@.len(),
                forall|j: int| 0 <= j < rest@.len() ==> #[trigger] rest@[j] < self.cases@.len(),
                forall|h: int, j: int|
                    0 <= h < cases_by_tag@.len() && 0 <= j < cases_by_tag@[h].1@.len() ==> #[trigger] cases_by_tag@[h].1@[j]
                        < self.cases@.len(),
                forall|h: int|
                    0 <= h < cases_by_tag@.len() ==> key_valid(interned(*self.strings), #[trigger] cases_by_tag@[h].0),
                cases_closed(nodes, all_cases) ==> forall|h: int|
                    0 <= h < g ==> covers_all(nodes, all_cases, #[trigger] cases_by_tag@[h].1@, next@),
            decreases cases_by_tag@.len() - g,
        {
            let t = cases_by_tag[g].0;
            proof {
                assert(key_valid(interned(*self.strings), cases_by_tag@[g as int].0));
            }
            self.context_stack.push((p, t));
            let mut k: usize = 0;
            while k < rest.len()
                invariant
                    self.wf(),
                    k <= rest@.len(),
                    ignore_len <= self.ignored_cases@.len(),
                    self.ignored_cases@.take(ignore_len as int) == entry_ignored,
                    self.context_stack@ == entry_context.push((p, t)),
                    self.dnodes == old(self).dnodes,
                    self.cases == old(self).cases,
                    self.strings == old(self).strings,
                    self.match_span == old(self).match_span,
                    self.tag_here_str == old(self).tag_here_str,
                    forall|j: int| 0 <= j < rest@.len() ==> #[trigger] rest@[j] < self.cases@.len(),
                decreases rest@.len() - k,
            {
                let a = rest[k];
                if !covers_contains(&self.cases[a].covers, p, &t) {
                    let hint = SplitHint::Pat(printed_p.clone());
                    let ghost before = self.ignored_cases@;
                    self.ignored_cases.push((a, hint));
                    proof {
                        assert(self.ignored_cases@.take(ignore_len as int) =~= before.take(ignore_len as int));
                    }
                }
                k = k + 1;
            }
            let sub_cases = copy_positions(&cases_by_tag[g].1);
            let sub_active = copy_positions(&next);
            match self.check(sub_active, sub_cases) {
                Ok(()) => {},
                Err(e) => {
                    return Err(e);
                },
            }
            self.context_stack.pop();
            self.ignored_cases.truncate(ignore_len);
            proof {
                assert(self.context_stack@ =~= entry_context);
                assert(self.ignored_cases@ =~= entry_ignored);
            }
            g = g + 1;
        }

        // And the wildcard cases on their own.
        if rest.len() > 0 {
            let rest_ids = copy_positions(&rest);
            let rest_active = copy_positions(&next);
            match self.check(rest_active, rest_ids) {
                Ok(()) => {},
                Err(e) => {
                    return Err(e);
                },
            }
        }
        proof {
            if cases_closed(nodes, all_cases) {
                lemma_split_covers(nodes, all_cases, cases@, active_paths@, kept@, p, next@, cases_by_tag@, rest@);
            }
        }
        Ok(())
    }
}


/// The tag that the decisions `d` give to the variant position `k`: the last one.
pub open spec fn decided(d: Seq<(DecisionKey, StringId)>, k: DecisionKey) -> Option<StringId>
    decreases d.len(),
{
    if d.len() == 0 {
        None
    } else if d.last().0 == k {
        Some(d.last().1)
    } else {
        decided(d.drop_last(), k)
    }
}

/// Every value that the case with decisions `later` matches, the case with
/// decisions `earlier` matches too: each tag that `earlier` requires, `later`
/// requires as well.
pub open spec fn subsumes(earlier: Seq<(DecisionKey, StringId)>, later: Seq<(DecisionKey, StringId)>) -> bool {
    forall|k: DecisionKey|
        #[trigger] decided(earlier, k) is Some ==> decided(later, k) is Some && key_index(decided(later, k)->0)
            == key_index(decided(earlier, k)->0)
}

/// The report of a match case that an earlier case makes unreachable.
pub open spec fn unreachable_report(span: Span, prev: Span) -> Seq<PartView> {
    seq![
        PartView::At("SyntaxError: Match case is unreachable."@, span),
        PartView::At("Note: All values are covered by previous match case here:"@, prev),
    ]
}

/// The last decision position of `nodes[..n]` for the variant `k`.
pub open spec fn last_pos(nodes: Seq<DecisionNode>, k: DecisionKey, n: int) -> Option<int>
    decreases n,
{
    if n <= 0 || n > nodes.len() {
        None
    } else if nodes[n - 1].key == k {
        Some(n - 1)
    } else {
        last_pos(nodes, k, n - 1)
    }
}

proof fn lemma_last_pos(nodes: Seq<DecisionNode>, k: DecisionKey, n: int)
    requires
        0 <= n <= nodes.len(),
    ensures
        last_pos(nodes, k, n) is Some ==> 0 <= last_pos(nodes, k, n)->0 < n && nodes[last_pos(nodes, k, n)->0].key
            == k,
        last_pos(nodes, k, n) is None ==> forall|i: int| 0 <= i < n ==> (#[trigger] nodes[i]).key != k,
    decreases n,
{
    if n > 0 {
        lemma_last_pos(nodes, k, n - 1);
    }
}

fn find_dpath(nodes: &Vec<DecisionNode>, k: DecisionKey) -> (r: Option<usize>)
    ensures
        r is Some <==> last_pos(nodes@, k, nodes@.len() as int) is Some,
        r is Some ==> r->0 == last_pos(nodes@, k, nodes@.len() as int)->0 && r->0 < nodes@.len() && nodes@[r->0 as int].key == k,
{
    proof {
        lemma_last_pos(nodes@, k, nodes@.len() as int);
    }
    let mut n = nodes.len();
    while n > 0
        invariant
            n <= nodes@.len(),
            last_pos(nodes@, k, nodes@.len() as int) == last_pos(nodes@, k, n as int),
        decreases n,
    {
        if nodes[n - 1].key == k {
            return Some(n - 1);
        }
        n = n - 1;
    }
    None
}

/// The tags of a case, by decision position, agree with its decisions: each
/// entry is at the position of its variant and holds the tag last decided for
/// it, the positions are distinct, and every variant decided has an entry.
pub open spec fn tags_match(nodes: Seq<DecisionNode>, tags: Seq<(usize, StringId)>, d: Seq<(DecisionKey, StringId)>) -> bool {
    &&& forall|j: int|
        0 <= j < tags.len() ==> (#[trigger] tags[j]).0 < nodes.len() && decided(d, nodes[tags[j].0 as int].key) == Some(
            tags[j].1,
        ) && last_pos(nodes, nodes[tags[j].0 as int].key, nodes.len() as int) == Some(tags[j].0 as int)
    &&& forall|a: int, b: int| 0 <= a < b < tags.len() ==> (#[trigger] tags[a]).0 != (#[trigger] tags[b]).0
    &&& forall|k: DecisionKey|
        #[trigger] decided(d, k) is Some ==> last_pos(nodes, k, nodes.len() as int) is Some && tag_of(
            tags,
            last_pos(nodes, k, nodes.len() as int)->0 as usize,
        ) == decided(d, k)
}

proof fn lemma_tag_of_entries(tags: Seq<(usize, StringId)>, j: int)
    requires
        0 <= j < tags.len(),
        forall|a: int, b: int| 0 <= a < b < tags.len() ==> (#[trigger] tags[a]).0 != (#[trigger] tags[b]).0,
    ensures
        tag_of(tags, tags[j].0) == Some(tags[j].1),
    decreases tags.len(),
{
    if j > 0 {
        assert(tags[0].0 != tags[j].0);
        assert forall|a: int, b: int|
            0 <= a < b < tags.drop_first().len() implies (#[trigger] tags.drop_first()[a]).0 != (
            #[trigger] tags.drop_first()[b]).0 by {
            assert(tags.drop_first()[a] == tags[a + 1]);
            assert(tags.drop_first()[b] == tags[b + 1]);
        }
        lemma_tag_of_entries(tags.drop_first(), j - 1);
    }
}

/// Sets the tag at position `p` to `t`, in place if `p` has one already.
fn map_set(tags: &mut Vec<(usize, StringId)>, p: usize, t: StringId)
    requires
        forall|a: int, b: int| 0 <= a < b < old(tags)@.len() ==> (#[trigger] old(tags)@[a]).0 != (#[trigger] old(tags)@[b]).0,
    ensures
        forall|a: int, b: int| 0 <= a < b < final(tags)@.len() ==> (#[trigger] final(tags)@[a]).0 != (#[trigger] final(tags)@[b]).0,
        forall|j: int| 0 <= j < final(tags)@.len() ==> #[trigger] final(tags)@[j] == (p, t) || old(tags)@.contains(final(tags)@[j]),
        forall|j: int| 0 <= j < final(tags)@.len() && (#[trigger] final(tags)@[j]).0 == p ==> final(tags)@[j].1 == t,
        forall|q: usize| tag_of(final(tags)@, q) == if q == p {
            Some(t)
        } else {
            tag_of(old(tags)@, q)
        },
{
    let mut i: usize = 0;
    while i < tags.len()
        invariant
            i <= tags@.len(),
            tags@ == old(tags)@,
            forall|a: int, b: int| 0 <= a < b < old(tags)@.len() ==> (#[trigger] old(tags)@[a]).0 != (#[trigger] old(tags)@[b]).0,
            forall|j: int| 0 <= j < i ==> (#[trigger] tags@[j]).0 != p,
        decreases tags@.len() - i,
    {
        if tags[i].0 == p {
            let ghost before = tags@;
            tags.set(i, (p, t));
            proof {
                assert forall|j: int| 0 <= j < tags@.len() implies (#[trigger] tags@[j]).0 == before[j].0 by {}
                assert forall|a: int, b: int| 0 <= a < b < tags@.len() implies (#[trigger] tags@[a]).0 != (
                #[trigger] tags@[b]).0 by {
                    assert(tags@[a].0 == before[a].0);
                    assert(tags@[b].0 == before[b].0);
                }
                assert forall|j: int| 0 <= j < tags@.len() && (#[trigger] tags@[j]).0 == p implies tags@[j].1 == t by {
                    if j < i {
                        assert(before[j].0 != before[i as int].0);
                    } else if j > i {
                        assert(before[i as int].0 != before[j].0);
                    }
                }
                assert forall|q: usize| tag_of(tags@, q) == if q == p {
                    Some(t)
                } else {
                    tag_of(before, q)
                } by {
                    lemma_tag_of_in(before, q);
                    lemma_tag_of_in(tags@, q);
                    if q == p {
                        lemma_tag_of_entries(tags@, i as int);
                    } else {
                        if tag_of(before, q) is Some {
                            let j = choose|j: int| 0 <= j < before.len() && #[trigger] before[j] == (q, tag_of(before, q)->0);
                            assert(tags@[j] == before[j]);
                            lemma_tag_of_entries(before, j);
                            lemma_tag_of_entries(tags@, j);
                        }
                    }
                }
                assert forall|j: int| 0 <= j < tags@.len() implies #[trigger] tags@[j] == (p, t) || old(tags)@.contains(tags@[j]) by {
                    if j != i {
                        assert(tags@[j] == before[j]);
                    }
                }
            }
            return;
        }
        i = i + 1;
    }
    let ghost before = tags@;
    tags.push((p, t));
    proof {
        assert forall|q: usize| tag_of(tags@, q) == if q == p {
            Some(t)
        } else {
            tag_of(before, q)
        } by {
            lemma_tag_of_in(before, q);
            lemma_tag_of_in(tags@, q);
            if q == p {
                lemma_tag_of_entries(tags@, before.len() as int);
            } else if tag_of(before, q) is Some {
                let j = choose|j: int| 0 <= j < before.len() && #[trigger] before[j] == (q, tag_of(before, q)->0);
                assert(tags@[j] == before[j]);
                lemma_tag_of_entries(before, j);
                lemma_tag_of_entries(tags@, j);
            }
        }
        assert forall|j: int| 0 <= j < tags@.len() implies #[trigger] tags@[j] == (p, t) || old(tags)@.contains(tags@[j]) by {
            if j < before.len() {
                assert(tags@[j] == before[j]);
            }
        }
    }
}


proof fn lemma_decided_in(d: Seq<(DecisionKey, StringId)>, k: DecisionKey)
    ensures
        decided(d, k) is Some ==> exists|m: int| 0 <= m < d.len() && #[trigger] d[m] == (k, decided(d, k)->0),
    decreases d.len(),
{
    if d.len() > 0 && d.last().0 != k {
        lemma_decided_in(d.drop_last(), k);
        if decided(d, k) is Some {
            let m = choose|m: int| 0 <= m < d.drop_last().len() && #[trigger] d.drop_last()[m] == (k, decided(d, k)->0);
            assert(d[m] == d.drop_last()[m]);
        }
    } else if d.len() > 0 {
        assert(d[d.len() - 1] == d.last());
    }
}

/// The tags of a case by decision position, or `None` when a decision names
/// a variant that is not in the tree.
fn case_tags(nodes: &Vec<DecisionNode>, decisions: &Vec<(DecisionKey, StringId)>) -> (r: Option<Vec<(usize, StringId)>>)
    ensures
        r is Some ==> tags_match(nodes@, r->0@, decisions@),
        r is None <==> exists|m: int|
            0 <= m < decisions@.len() && last_pos(nodes@, (#[trigger] decisions@[m]).0, nodes@.len() as int) is None,
{
    let mut tags: Vec<(usize, StringId)> = Vec::new();
    let mut m: usize = 0;
    proof {
        assert(decisions@.take(0) =~= Seq::<(DecisionKey, StringId)>::empty());
    }
    while m < decisions.len()
        invariant
            m <= decisions@.len(),
            tags_match(nodes@, tags@, decisions@.take(m as int)),
            forall|j: int| 0 <= j < m ==> last_pos(nodes@, (#[trigger] decisions@[j]).0, nodes@.len() as int) is Some,
        decreases decisions@.len() - m,
    {
        let (k, t) = decisions[m];
        let p = match find_dpath(nodes, k) {
            Some(p) => p,
            None => {
                proof {
                    assert(last_pos(nodes@, decisions@[m as int].0, nodes@.len() as int) is None);
                }
                return None;
            },
        };
        let ghost old_tags = tags@;
        let ghost d0 = decisions@.take(m as int);
        let ghost d1 = decisions@.take(m as int + 1);
        proof {
            assert(d1.drop_last() =~= d0);
            assert(d1.last() == (k, t));
        }
        map_set(&mut tags, p, t);
        proof {
            assert forall|j: int| 0 <= j < tags@.len() implies (#[trigger] tags@[j]).0 < nodes@.len() && decided(
                d1,
                nodes@[tags@[j].0 as int].key,
            ) == Some(tags@[j].1) && last_pos(nodes@, nodes@[tags@[j].0 as int].key, nodes@.len() as int) == Some(
                tags@[j].0 as int,
            ) by {
                if tags@[j].0 != p {
                    assert(old_tags.contains(tags@[j]));
                    let jj = choose|jj: int| 0 <= jj < old_tags.len() && old_tags[jj] == tags@[j];
                    assert(old_tags[jj] == tags@[j]);
                    let k2 = nodes@[tags@[j].0 as int].key;
                    if k2 == k {
                        assert(last_pos(nodes@, k, nodes@.len() as int) == Some(p as int));
                    }
                }
            }
            assert forall|k2: DecisionKey| #[trigger] decided(d1, k2) is Some implies last_pos(
                nodes@,
                k2,
                nodes@.len() as int,
            ) is Some && tag_of(tags@, last_pos(nodes@, k2, nodes@.len() as int)->0 as usize) == decided(d1, k2) by {
                if k2 != k {
                    assert(decided(d0, k2) is Some);
                    let q = last_pos(nodes@, k2, nodes@.len() as int)->0;
                    lemma_last_pos(nodes@, k2, nodes@.len() as int);
                    assert(nodes@[q].key == k2);
                    assert(q != p);
                    assert(0 <= q < nodes@.len());
                    assert(nodes@.len() == nodes.len());
                    assert(q as usize as int == q);
                    assert(q as usize != p);
                    assert(tag_of(tags@, q as usize) == tag_of(old_tags, q as usize));
                } else {
                    assert(last_pos(nodes@, k, nodes@.len() as int) == Some(p as int));
                    assert(decided(d1, k) == Some(t));
                    assert(tag_of(tags@, p) == Some(t));
                }
            }
        }
        m = m + 1;
    }
    proof {
        assert(decisions@.take(decisions@.len() as int) =~= decisions@);
    }
    Some(tags)
}

/// Compares an earlier case with a later one: whether some position gets
/// different tags, and the positions the earlier case decides that the later
/// one leaves open.
fn compare_arms(prev: &Vec<(usize, StringId)>, cur: &Vec<(usize, StringId)>) -> (r: (bool, Vec<(usize, StringId)>))
    ensures
        (!r.0 && r.1@.len() == 0) <==> forall|j: int|
            0 <= j < prev@.len() ==> tag_of(cur@, (#[trigger] prev@[j]).0) is Some && key_index(
                tag_of(cur@, prev@[j].0)->0,
            ) == key_index(prev@[j].1),
        forall|j: int| 0 <= j < r.1@.len() ==> prev@.contains(#[trigger] r.1@[j]),
        r.0 ==> exists|j: int|
            0 <= j < prev@.len() && tag_of(cur@, (#[trigger] prev@[j]).0) is Some && key_index(
                tag_of(cur@, prev@[j].0)->0,
            ) != key_index(prev@[j].1),
        !r.0 ==> forall|j: int|
            0 <= j < prev@.len() && tag_of(cur@, (#[trigger] prev@[j]).0) is Some ==> key_index(
                tag_of(cur@, prev@[j].0)->0,
            ) == key_index(prev@[j].1),
        !r.0 ==> r.1@ == prev@.filter(|e: (usize, StringId)| tag_of(cur@, e.0) is None),
{
    let mut extra: Vec<(usize, StringId)> = Vec::new();
    let mut i: usize = 0;
    while i < prev.len()
        invariant
            i <= prev@.len(),
            forall|j: int| 0 <= j < extra@.len() ==> prev@.contains(#[trigger] extra@[j]),
            extra@.len() == 0 <==> forall|j: int|
                0 <= j < i ==> tag_of(cur@, (#[trigger] prev@[j]).0) is Some,
            forall|j: int|
                0 <= j < i && tag_of(cur@, (#[trigger] prev@[j]).0) is Some ==> key_index(tag_of(cur@, prev@[j].0)->0)
                    == key_index(prev@[j].1),
            extra@ == prev@.take(i as int).filter(|e: (usize, StringId)| tag_of(cur@, e.0) is None),
        decreases prev@.len() - i,
    {
        let (q, t) = prev[i];
        proof {
            assert(prev@.take(i + 1) =~= prev@.take(i as int).push(prev@[i as int]));
            crate::ordered_map::lemma_filter_push(
                prev@.take(i as int),
                prev@[i as int],
                |e: (usize, StringId)| tag_of(cur@, e.0) is None,
            );
        }
        match tag_at(cur, q) {
            Some(t2) => {
                if !same_key(&t, &t2) {
                    return (true, extra);
                }
            },
            None => {
                proof {
                    assert(prev@.contains(prev@[i as int]));
                }
                extra.push((q, t));
            },
        }
        i = i + 1;
    }
    proof {
        assert(prev@.take(prev@.len() as int) =~= prev@);
    }
    (false, extra)
}

/// Against the decisions `di` of a later case, the decisions `dj` of an earlier
/// case leave exactly the variant `k` open: `dj` picks at `k` the tag `t` (by
/// its string), `di` does not decide on `k`, and every other variant that `dj`
/// decides on, `di` decides on with the same tag.
pub open spec fn covers_at(dj: Seq<(DecisionKey, StringId)>, di: Seq<(DecisionKey, StringId)>, k: DecisionKey, t: StringId) -> bool {
    &&& decided(dj, k) is Some
    &&& key_index(decided(dj, k)->0) == key_index(t)
    &&& decided(di, k) is None
    &&& forall|k2: DecisionKey|
        #[trigger] decided(dj, k2) is Some && k2 != k ==> decided(di, k2) is Some && key_index(decided(di, k2)->0)
            == key_index(decided(dj, k2)->0)
}

/// Case `i` of `input` covers the tag `t` of variant `k` as a whole: some
/// earlier unguarded case matches exactly what case `i` matches with `t` at `k`.
pub open spec fn case_covers(input: Seq<(Span, bool, Vec<(DecisionKey, StringId)>)>, i: int, k: DecisionKey, t: StringId) -> bool {
    0 <= i < input.len() && exists|j: int| 0 <= j < i && !input[j].1 && #[trigger] covers_at(input[j].2@, input[i].2@, k, t)
}

/// A wildcard case after an unguarded case that decides only the tag `t` of
/// variant `k` covers `t` at `k` as a whole, whatever other cases there are.
pub proof fn law_wildcard_covered_by_single_tag(
    input: Seq<(Span, bool, Vec<(DecisionKey, StringId)>)>,
    i: int,
    j: int,
    k: DecisionKey,
    t: StringId,
)
    requires
        0 <= j < i < input.len(),
        !input[j].1,
        input[j].2@ == seq![(k, t)],
        input[i].2@.len() == 0,
    ensures
        case_covers(input, i, k, t),
{
    let dj = input[j].2@;
    let di = input[i].2@;
    assert(dj.drop_last().len() == 0);
    assert(decided(dj, k) == Some(t));
    assert(decided(di, k) is None);
    assert forall|k2: DecisionKey| #[trigger] decided(dj, k2) is Some && k2 != k implies decided(di, k2) is Some by {
        assert(decided(dj.drop_last(), k2) is None);
    }
    assert(covers_at(dj, di, k, t));
}

proof fn lemma_tag_of_last(nodes: Seq<DecisionNode>, cur: Seq<(usize, StringId)>, dcur: Seq<(DecisionKey, StringId)>, k: DecisionKey)
    requires
        nodes.len() <= usize::MAX,
        tags_match(nodes, cur, dcur),
        last_pos(nodes, k, nodes.len() as int) is Some,
    ensures
        tag_of(cur, last_pos(nodes, k, nodes.len() as int)->0 as usize) == decided(dcur, k),
{
    lemma_last_pos(nodes, k, nodes.len() as int);
    let q = last_pos(nodes, k, nodes.len() as int)->0;
    if decided(dcur, k) is None {
        lemma_tag_of_in(cur, q as usize);
        if tag_of(cur, q as usize) is Some {
            let j = choose|j: int| 0 <= j < cur.len() && #[trigger] cur[j] == (q as usize, tag_of(cur, q as usize)->0);
            assert(decided(dcur, nodes[cur[j].0 as int].key) == Some(cur[j].1));
        }
    }
}

proof fn lemma_prev_entry(nodes: Seq<DecisionNode>, prev: Seq<(usize, StringId)>, dprev: Seq<(DecisionKey, StringId)>, k: DecisionKey)
    requires
        tags_match(nodes, prev, dprev),
        decided(dprev, k) is Some,
    ensures
        last_pos(nodes, k, nodes.len() as int) is Some,
        exists|j: int|
            0 <= j < prev.len() && #[trigger] prev[j] == (last_pos(nodes, k, nodes.len() as int)->0 as usize, decided(dprev, k)->0),
{
    let q = last_pos(nodes, k, nodes.len() as int)->0 as usize;
    assert(tag_of(prev, q) == decided(dprev, k));
    lemma_tag_of_in(prev, q);
}

proof fn lemma_pair_cover(
    nodes: Seq<DecisionNode>,
    prev: Seq<(usize, StringId)>,
    dprev: Seq<(DecisionKey, StringId)>,
    cur: Seq<(usize, StringId)>,
    dcur: Seq<(DecisionKey, StringId)>,
    mismatch: bool,
    extras: Seq<(usize, StringId)>,
)
    requires
        nodes.len() <= usize::MAX,
        tags_match(nodes, prev, dprev),
        tags_match(nodes, cur, dcur),
        mismatch ==> exists|j: int|
            0 <= j < prev.len() && tag_of(cur, (#[trigger] prev[j]).0) is Some && key_index(tag_of(cur, prev[j].0)->0)
                != key_index(prev[j].1),
        !mismatch ==> forall|j: int|
            0 <= j < prev.len() && tag_of(cur, (#[trigger] prev[j]).0) is Some ==> key_index(tag_of(cur, prev[j].0)->0)
                == key_index(prev[j].1),
        !mismatch ==> extras == prev.filter(|e: (usize, StringId)| tag_of(cur, e.0) is None),
    ensures
        !(!mismatch && extras.len() == 1) ==> forall|k: DecisionKey, t: StringId| !#[trigger] covers_at(dprev, dcur, k, t),
        !mismatch && extras.len() == 1 ==> {
            &&& extras[0].0 < nodes.len()
            &&& covers_at(dprev, dcur, nodes[extras[0].0 as int].key, extras[0].1)
            &&& forall|k: DecisionKey, t: StringId|
                #[trigger] covers_at(dprev, dcur, k, t) ==> k == nodes[extras[0].0 as int].key && key_index(t) == key_index(
                    extras[0].1,
                )
        },
{
    let pr = |e: (usize, StringId)| tag_of(cur, e.0) is None;
    if !mismatch {
        assert(extras == prev.filter(pr));
    }
    // Each entry of `prev` sits at the last position of its variant.
    assert forall|j: int| 0 <= j < prev.len() implies (#[trigger] prev[j]).0 < nodes.len() && decided(
        dprev,
        nodes[prev[j].0 as int].key,
    ) == Some(prev[j].1) && last_pos(nodes, nodes[prev[j].0 as int].key, nodes.len() as int) == Some(prev[j].0 as int)
        && tag_of(cur, prev[j].0) == decided(dcur, nodes[prev[j].0 as int].key) by {
        lemma_tag_of_last(nodes, cur, dcur, nodes[prev[j].0 as int].key);
    }
    if mismatch {
        let j = choose|j: int|
            0 <= j < prev.len() && tag_of(cur, (#[trigger] prev[j]).0) is Some && key_index(tag_of(cur, prev[j].0)->0)
                != key_index(prev[j].1);
        let k2 = nodes[prev[j].0 as int].key;
        assert forall|k: DecisionKey, t: StringId| !#[trigger] covers_at(dprev, dcur, k, t) by {
            if covers_at(dprev, dcur, k, t) {
                assert(decided(dprev, k2) is Some);
                if k2 == k {
                } else {
                }
            }
        }
    } else {
        assert(prev.no_duplicates()) by {
            assert forall|a: int, b: int| 0 <= a < prev.len() && 0 <= b < prev.len() && a != b implies prev[a] != prev[b] by {
                if a < b {
                    assert(prev[a].0 != prev[b].0);
                } else {
                    assert(prev[b].0 != prev[a].0);
                }
            }
        }
        crate::ordered_map::lemma_filter_no_duplicates(prev, pr);
        assert forall|x: int| 0 <= x < extras.len() implies prev.contains(#[trigger] extras[x]) && tag_of(cur, extras[x].0) is None by {
            assert(extras.contains(extras[x]));
            crate::ordered_map::lemma_filter_contains(prev, pr, extras[x]);
        }
        assert forall|k: DecisionKey, t: StringId| #[trigger] covers_at(dprev, dcur, k, t) implies extras.len() > 0 && (
        extras.len() == 1 ==> (k == nodes[extras[0].0 as int].key && key_index(t) == key_index(extras[0].1))) by {
            lemma_prev_entry(nodes, prev, dprev, k);
            let p = last_pos(nodes, k, nodes.len() as int)->0;
            lemma_last_pos(nodes, k, nodes.len() as int);
            let j = choose|j: int| 0 <= j < prev.len() && #[trigger] prev[j] == (p as usize, decided(dprev, k)->0);
            assert(tag_of(cur, prev[j].0) == decided(dcur, nodes[prev[j].0 as int].key));
            assert(prev.contains(prev[j]));
            assert(prev[j].0 as int == p);
            assert(pr(prev[j]));
            crate::ordered_map::lemma_filter_contains(prev, pr, prev[j]);
            assert(extras.contains(prev[j]));
            if extras.len() == 1 {
                assert(extras[0] == prev[j]);
            }
        }
        if extras.len() >= 2 {
            assert forall|k: DecisionKey, t: StringId| !#[trigger] covers_at(dprev, dcur, k, t) by {
                if covers_at(dprev, dcur, k, t) {
                    let e0 = extras[0];
                    let e1 = extras[1];
                    assert(prev.contains(e0));
                    assert(prev.contains(e1));
                    let a = choose|a: int| 0 <= a < prev.len() && prev[a] == e0;
                    let b = choose|b: int| 0 <= b < prev.len() && prev[b] == e1;
                    assert(e0 != e1);
                    assert(a != b);
                    let k0 = nodes[e0.0 as int].key;
                    let k1 = nodes[e1.0 as int].key;
                    assert(decided(dprev, k0) is Some);
                    assert(decided(dprev, k1) is Some);
                    assert(decided(dcur, k0) is None);
                    assert(decided(dcur, k1) is None);
                    assert(k0 == k);
                    assert(k1 == k);
                    if a < b {
                        assert(prev[a].0 != prev[b].0);
                    } else {
                        assert(prev[b].0 != prev[a].0);
                    }
                }
            }
        }
        if extras.len() == 1 {
            let e0 = extras[0];
            let k0 = nodes[e0.0 as int].key;
            assert(prev.contains(e0));
            let a = choose|a: int| 0 <= a < prev.len() && prev[a] == e0;
            assert(decided(dprev, k0) == Some(e0.1));
            assert(decided(dcur, k0) is None);
            assert forall|k2: DecisionKey| #[trigger] decided(dprev, k2) is Some && k2 != k0 implies decided(dcur, k2) is Some
                && key_index(decided(dcur, k2)->0) == key_index(decided(dprev, k2)->0) by {
                lemma_prev_entry(nodes, prev, dprev, k2);
                let p2 = last_pos(nodes, k2, nodes.len() as int)->0;
                lemma_last_pos(nodes, k2, nodes.len() as int);
                let j2 = choose|j2: int| 0 <= j2 < prev.len() && #[trigger] prev[j2] == (p2 as usize, decided(dprev, k2)->0);
                assert(tag_of(cur, prev[j2].0) == decided(dcur, nodes[prev[j2].0 as int].key));
                if decided(dcur, k2) is None {
                    assert(prev.contains(prev[j2]));
                    assert(prev[j2].0 as int == p2);
                    assert(pr(prev[j2]));
                    crate::ordered_map::lemma_filter_contains(prev, pr, prev[j2]);
                    assert(extras.contains(prev[j2]));
                    assert(extras[0] == prev[j2]);
                }
            }
            assert(covers_at(dprev, dcur, k0, e0.1));
        }
    }
}

/// Case `i` is unreachable because of the unguarded case `j` before it, and
/// `e` reports it.
pub open spec fn unreachable_at(
    input: Seq<(Span, bool, Vec<(DecisionKey, StringId)>)>,
    i: int,
    j: int,
    e: Seq<PartView>,
) -> bool {
    &&& 0 <= j < i < input.len()
    &&& !input[j].1
    &&& subsumes(input[j].2@, input[i].2@)
    &&& e == unreachable_report(input[i].0, input[j].0)
}

/// What a successful exhaustiveness check gives code generation: why the
/// decision positions without wildcard cases need one, and for each variant,
/// the (case, tag) pairs that a case covers as a whole.
pub struct ExhaustivenessResult {
    pub nonexhaustive_wildcard_reasons: Vec<(DecisionKey, MissingPattern)>,
    pub covers: Vec<(DecisionKey, Vec<(usize, StringId)>)>,
}


proof fn lemma_subsumes_iff(
    nodes: Seq<DecisionNode>,
    prev: Seq<(usize, StringId)>,
    dprev: Seq<(DecisionKey, StringId)>,
    cur: Seq<(usize, StringId)>,
    dcur: Seq<(DecisionKey, StringId)>,
)
    requires
        nodes.len() <= usize::MAX,
        tags_match(nodes, prev, dprev),
        tags_match(nodes, cur, dcur),
    ensures
        subsumes(dprev, dcur) <==> forall|j: int|
            0 <= j < prev.len() ==> tag_of(cur, (#[trigger] prev[j]).0) is Some && key_index(tag_of(cur, prev[j].0)->0)
                == key_index(prev[j].1),
{
    if forall|j: int|
        0 <= j < prev.len() ==> tag_of(cur, (#[trigger] prev[j]).0) is Some && key_index(tag_of(cur, prev[j].0)->0)
            == key_index(prev[j].1) {
        assert forall|k: DecisionKey| #[trigger] decided(dprev, k) is Some implies decided(dcur, k) is Some && key_index(
            decided(dcur, k)->0,
        ) == key_index(decided(dprev, k)->0) by {
            let q = last_pos(nodes, k, nodes.len() as int)->0;
            lemma_last_pos(nodes, k, nodes.len() as int);
            assert(0 <= q < nodes.len());
            assert(tag_of(prev, q as usize) == decided(dprev, k));
            lemma_tag_of_in(prev, q as usize);
            let jj = choose|jj: int| 0 <= jj < prev.len() && #[trigger] prev[jj] == (q as usize, tag_of(prev, q as usize)->0);
            assert(prev[jj].0 == q as usize);
            lemma_tag_of_in(cur, q as usize);
            let jc = choose|jc: int| 0 <= jc < cur.len() && #[trigger] cur[jc] == (q as usize, tag_of(cur, q as usize)->0);
            assert(cur[jc].0 == q as usize);
        }
    }
    if subsumes(dprev, dcur) {
        assert forall|j: int| 0 <= j < prev.len() implies tag_of(cur, (#[trigger] prev[j]).0) is Some && key_index(
            tag_of(cur, prev[j].0)->0,
        ) == key_index(prev[j].1) by {
            let q = prev[j].0;
            let k = nodes[q as int].key;
            assert(decided(dprev, k) == Some(prev[j].1));
            assert(decided(dcur, k) is Some);
            assert(last_pos(nodes, k, nodes.len() as int) == Some(q as int));
        }
    }
}


/// Names interned before stay interned, with the same text, as the interner grows.
proof fn lemma_nodes_ok_extend(st0: Seq<Seq<char>>, st1: Seq<Seq<char>>, nodes: Seq<DecisionNode>)
    requires
        st0.len() <= st1.len(),
        forall|i: int| 0 <= i < st0.len() ==> st1[i] == st0[i],
        nodes_ok(st0, nodes),
    ensures
        nodes_ok(st1, nodes),
{
    assert forall|i: int, j: int| 0 <= i < nodes.len() && 0 <= j < nodes[i].path@.len() implies good_component(
        st1,
        #[trigger] nodes[i].path@[j],
    ) by {
        assert(good_component(st0, nodes[i].path@[j]));
        match nodes[i].path@[j] {
            PathComponent::Field(f) => {
                assert(key_text(st1, f) == key_text(st0, f));
            },
            PathComponent::Case(c) => {},
        }
    }
    assert forall|i: int, j: int| 0 <= i < nodes.len() && 0 <= j < nodes[i].required_tags@.len() implies key_valid(
        st1,
        #[trigger] nodes[i].required_tags@[j],
    ) by {
        assert(key_valid(st0, nodes[i].required_tags@[j]));
    }
}

/// The decision positions of the merged pattern tree `t`, in preorder.
pub open spec fn tree_positions(t: PatternNode) -> Seq<DView> {
    pat_state(t, usize::MAX, Seq::empty(), (Seq::empty(), Seq::empty())).0
}

/// Whether the variant with key `k` has a decision position among `views`.
pub open spec fn key_known(views: Seq<DView>, k: DecisionKey) -> bool {
    exists|q: int| 0 <= q < views.len() && (#[trigger] views[q]).1 == k
}

/// Whether every variant that the decisions `d` name has a decision position.
pub open spec fn keys_known(views: Seq<DView>, d: Seq<(DecisionKey, StringId)>) -> bool {
    forall|m: int| 0 <= m < d.len() ==> key_known(views, (#[trigger] d[m]).0)
}

/// The first unguarded case from `j` on, before case `i`, that makes case `i`
/// unreachable.
pub open spec fn first_cover(input: Seq<(Span, bool, Vec<(DecisionKey, StringId)>)>, i: int, j: int) -> Option<int>
    decreases i - j,
{
    if j >= i || j < 0 {
        None
    } else if !input[j].1 && subsumes(input[j].2@, input[i].2@) {
        Some(j)
    } else {
        first_cover(input, i, j + 1)
    }
}

/// The report for the first problem among the first `n` cases, taken in order:
/// an internal error for a case that names a variant the tree does not have,
/// or the report that the case is unreachable, naming the first earlier
/// unguarded case that covers it.
pub open spec fn scan(views: Seq<DView>, input: Seq<(Span, bool, Vec<(DecisionKey, StringId)>)>, n: int) -> Option<Seq<PartView>>
    decreases n,
{
    if n <= 0 {
        None
    } else {
        match scan(views, input, n - 1) {
            Some(e) => Some(e),
            None => if !keys_known(views, input[n - 1].2@) {
                Some(ice_report())
            } else {
                match first_cover(input, n - 1, 0) {
                    Some(j) => Some(unreachable_report(input[n - 1].0, input[j].0)),
                    None => None,
                }
            },
        }
    }
}

proof fn lemma_key_known(nodes: Seq<DecisionNode>, k: DecisionKey)
    ensures
        last_pos(nodes, k, nodes.len() as int) is Some <==> key_known(nodes.map_values(|n: DecisionNode| dview(n)), k),
{
    let views = nodes.map_values(|n: DecisionNode| dview(n));
    lemma_last_pos(nodes, k, nodes.len() as int);
    if last_pos(nodes, k, nodes.len() as int) is Some {
        let q = last_pos(nodes, k, nodes.len() as int)->0;
        assert(views[q].1 == k);
    }
    if key_known(views, k) {
        let q = choose|q: int| 0 <= q < views.len() && (#[trigger] views[q]).1 == k;
        assert(nodes[q].key == k);
    }
}

proof fn lemma_scan_persists(views: Seq<DView>, input: Seq<(Span, bool, Vec<(DecisionKey, StringId)>)>, n: int, m: int)
    requires
        0 <= n <= m,
        scan(views, input, n) is Some,
    ensures
        scan(views, input, m) == scan(views, input, n),
    decreases m - n,
{
    if m > n {
        lemma_scan_persists(views, input, n, m - 1);
    }
}

/// The decision positions that stand at the top of the merged pattern tree `t`,
/// under no other.
pub open spec fn tree_tops(t: PatternNode) -> Seq<usize> {
    pat_state(t, usize::MAX, Seq::empty(), (Seq::empty(), Seq::empty())).1
}

/// Each decision position of `views` has a variant key of its own.
pub open spec fn keys_distinct(views: Seq<DView>) -> bool {
    forall|a: int, b: int| 0 <= a < b < views.len() ==> (#[trigger] views[a]).1 != (#[trigger] views[b]).1
}

/// Each case that decides on the variant at a position right below another
/// decides on the variant above it too.
pub open spec fn input_closed(views: Seq<DView>, input: Seq<(Span, bool, Vec<(DecisionKey, StringId)>)>) -> bool {
    forall|a: int, r: int, j: int|
        0 <= a < input.len() && 0 <= r < views.len() && 0 <= j < views[r].3.len() && views[r].3[j] < views.len()
            && (#[trigger] decided(input[a].2@, views[views[r].3[j] as int].1)) is Some ==> decided(
            input[a].2@,
            views[r].1,
        ) is Some
}

/// Whether position `q` lies in the subtree at position `r` of `views`.
pub open spec fn vreach(views: Seq<DView>, r: int, q: int) -> bool
    decreases views.len() - r,
{
    ||| r == q
    ||| (0 <= r < views.len() && exists|j: int|
        0 <= j < views[r].3.len() && r < #[trigger] views[r].3[j] < views.len() && vreach(
            views,
            views[r].3[j] as int,
            q,
        ))
}

/// A choice `v` of tag (by the position of its string) at each position of
/// `views`, among the tags that the patterns name there.
pub open spec fn respects_views(views: Seq<DView>, v: spec_fn(usize) -> nat) -> bool {
    forall|q: int| 0 <= q < views.len() ==> #[trigger] names_tag(views[q].2, v(q as usize))
}

/// Whether one of the tags `tags` has its string at `t`.
pub open spec fn names_tag(tags: Seq<StringId>, t: nat) -> bool {
    exists|j: int| 0 <= j < tags.len() && key_index(#[trigger] tags[j]) == t
}

/// The case with decisions `d` agrees with the choice `v` at every position
/// under the positions `tops` whose variant it decides on.
pub open spec fn agrees_below(views: Seq<DView>, tops: Seq<usize>, d: Seq<(DecisionKey, StringId)>, v: spec_fn(usize) -> nat) -> bool {
    forall|q: usize|
        (exists|i: int| 0 <= i < tops.len() && #[trigger] vreach(views, tops[i] as int, q as int)) && q < views.len()
            && #[trigger] decided(d, views[q as int].1) is Some ==> v(q) == key_index(decided(d, views[q as int].1)->0)
}

proof fn lemma_vreach(nodes: Seq<DecisionNode>, r: int, q: int)
    ensures
        reach(nodes, r, q) == vreach(nodes.map_values(|n: DecisionNode| dview(n)), r, q),
    decreases nodes.len() - r,
{
    let views = nodes.map_values(|n: DecisionNode| dview(n));
    if 0 <= r < nodes.len() {
        assert(views[r] == dview(nodes[r]));
        assert forall|j: int| 0 <= j < nodes[r].children@.len() && r < nodes[r].children@[j] < nodes.len() implies reach(
            nodes,
            nodes[r].children@[j] as int,
            q,
        ) == vreach(views, nodes[r].children@[j] as int, q) by {
            lemma_vreach(nodes, nodes[r].children@[j] as int, q);
        }
        if reach(nodes, r, q) && r != q {
            let j = choose|j: int|
                0 <= j < nodes[r].children@.len() && r < #[trigger] nodes[r].children@[j] < nodes.len() && reach(
                    nodes,
                    nodes[r].children@[j] as int,
                    q,
                );
            assert(views[r].3[j] == nodes[r].children@[j]);
        }
        if vreach(views, r, q) && r != q {
            let j = choose|j: int|
                0 <= j < views[r].3.len() && r < #[trigger] views[r].3[j] < views.len() && vreach(
                    views,
                    views[r].3[j] as int,
                    q,
                );
            assert(views[r].3[j] == nodes[r].children@[j]);
        }
    }
}

proof fn lemma_cases_closed(nodes: Seq<DecisionNode>, cases: Seq<Case>, input: Seq<(Span, bool, Vec<(DecisionKey, StringId)>)>)
    requires
        keys_distinct(nodes.map_values(|n: DecisionNode| dview(n))),
        input_closed(nodes.map_values(|n: DecisionNode| dview(n)), input),
        cases.len() == input.len(),
        forall|c: int| 0 <= c < cases.len() ==> tags_match(nodes, (#[trigger] cases[c]).tags@, input[c].2@),
    ensures
        cases_closed(nodes, cases),
{
    let views = nodes.map_values(|n: DecisionNode| dview(n));
    assert forall|a: int, r: int, j: int|
        0 <= a < cases.len() && 0 <= r < nodes.len() && 0 <= j < nodes[r].children@.len() && tag_of(
            #[trigger] cases[a].tags@,
            #[trigger] nodes[r].children@[j],
        ) is Some implies tag_of(cases[a].tags@, r as usize) is Some by {
        let tags = cases[a].tags@;
        let d = input[a].2@;
        let c = nodes[r].children@[j];
        assert(tags_match(nodes, tags, d));
        lemma_tag_of_in(tags, c);
        let m = choose|m: int| 0 <= m < tags.len() && #[trigger] tags[m] == (c, tag_of(tags, c)->0);
        assert(c < nodes.len());
        assert(views[r] == dview(nodes[r]));
        assert(views[c as int] == dview(nodes[c as int]));
        assert(views[r].3[j] == c);
        assert(decided(input[a].2@, views[views[r].3[j] as int].1) is Some);
        assert(decided(d, nodes[r].key) is Some);
        lemma_last_pos(nodes, nodes[r].key, nodes.len() as int);
        let lp = last_pos(nodes, nodes[r].key, nodes.len() as int)->0;
        if lp != r {
            if lp < r {
                assert(views[lp].1 != views[r].1);
            } else {
                assert(views[r].1 != views[lp].1);
            }
        }
    }
}

proof fn lemma_choice_covered(
    nodes: Seq<DecisionNode>,
    cases: Seq<Case>,
    ug: Seq<usize>,
    top: Seq<usize>,
    input: Seq<(Span, bool, Vec<(DecisionKey, StringId)>)>,
    v: spec_fn(usize) -> nat,
    views: Seq<DView>,
)
    requires
        views == nodes.map_values(|n: DecisionNode| dview(n)),
        keys_distinct(views),
        cases.len() == input.len(),
        forall|c: int|
            0 <= c < cases.len() ==> tags_match(nodes, (#[trigger] cases[c]).tags@, input[c].2@) && cases[c].has_guard
                == input[c].1,
        forall|j: int| 0 <= j < ug.len() ==> #[trigger] ug[j] < cases.len(),
        forall|j: int| 0 <= j < ug.len() ==> !cases[#[trigger] ug[j] as int].has_guard,
        covers_all(nodes, cases, ug, top),
        respects_views(views, v),
    ensures
        exists|k: int| 0 <= k < input.len() && !input[k].1 && #[trigger] agrees_below(views, top, input[k].2@, v),
{
    assert forall|q: int| 0 <= q < nodes.len() implies #[trigger] allowed(nodes[q], v(q as usize)) by {
        assert(names_tag(views[q].2, v(q as usize)));
        assert(views[q] == dview(nodes[q]));
        let j = choose|j: int| 0 <= j < views[q].2.len() && key_index(#[trigger] views[q].2[j]) == v(q as usize);
        assert(key_index(nodes[q].required_tags@[j]) == v(q as usize));
    }
    assert(respects(nodes, v));
    let i = choose|i: int| 0 <= i < ug.len() && matches_within(nodes, cases[#[trigger] ug[i] as int].tags@, v, top);
    let k = ug[i] as int;
    let tags = cases[k].tags@;
    let d = input[k].2@;
    assert(tags_match(nodes, tags, d));
    assert forall|q: usize|
        (exists|i2: int| 0 <= i2 < top.len() && #[trigger] vreach(views, top[i2] as int, q as int)) && q < views.len()
            && #[trigger] decided(d, views[q as int].1) is Some implies v(q) == key_index(decided(d, views[q as int].1)->0) by {
        let i2 = choose|i2: int| 0 <= i2 < top.len() && #[trigger] vreach(views, top[i2] as int, q as int);
        lemma_vreach(nodes, top[i2] as int, q as int);
        assert(in_active(nodes, top, q as int));
        assert(views[q as int] == dview(nodes[q as int]));
        lemma_last_pos(nodes, nodes[q as int].key, nodes.len() as int);
        let lp = last_pos(nodes, nodes[q as int].key, nodes.len() as int)->0;
        if lp != q {
            if lp < q {
                assert(views[lp].1 != views[q as int].1);
            } else {
                assert(views[q as int].1 != views[lp].1);
            }
        }
        assert(tag_of(tags, q) == decided(d, nodes[q as int].key));
    }
    assert(agrees_below(views, top, input[k].2@, v));
}

/// Some unguarded case before `j` leaves tag `t` of variant `k` open against case `i`.
pub open spec fn covered_before(input: Seq<(Span, bool, Vec<(DecisionKey, StringId)>)>, i: int, j: int, k: DecisionKey, t: StringId) -> bool {
    exists|j2: int| 0 <= j2 < j && !input[j2].1 && #[trigger] covers_at(input[j2].2@, input[i].2@, k, t)
}

/// Every pair in `cov` is a tag that some unguarded case before `j` leaves
/// open against case `i`, its variant given by its position in `nodes`.
pub open spec fn covers_sound(
    nodes: Seq<DecisionNode>,
    input: Seq<(Span, bool, Vec<(DecisionKey, StringId)>)>,
    i: int,
    j: int,
    cov: Seq<(usize, StringId)>,
) -> bool {
    forall|x: int| 0 <= x < cov.len() ==> #[trigger] covered_before(input, i, j, nodes[cov[x].0 as int].key, cov[x].1)
}

/// Every tag that some unguarded case before `j` leaves open against case `i`
/// has a pair in `cov`.
#[verifier::opaque]
pub open spec fn covers_complete(
    nodes: Seq<DecisionNode>,
    input: Seq<(Span, bool, Vec<(DecisionKey, StringId)>)>,
    i: int,
    j: int,
    cov: Seq<(usize, StringId)>,
) -> bool {
    forall|j2: int, k: DecisionKey, t: StringId|
        0 <= j2 < j && !input[j2].1 && #[trigger] covers_at(input[j2].2@, input[i].2@, k, t) ==> exists|x: int|
            0 <= x < cov.len() && nodes[(#[trigger] cov[x]).0 as int].key == k && key_index(cov[x].1) == key_index(t)
}

/// The covers of each case are exactly the tags it covers as a whole.
#[verifier::opaque]
pub open spec fn cases_covers(nodes: Seq<DecisionNode>, input: Seq<(Span, bool, Vec<(DecisionKey, StringId)>)>, cases: Seq<Case>) -> bool {
    &&& forall|c: int, x: int|
        0 <= c < cases.len() && 0 <= x < cases[c].covers@.len() ==> case_covers(
            input,
            c,
            nodes[(#[trigger] cases[c].covers@[x]).0 as int].key,
            cases[c].covers@[x].1,
        )
    &&& forall|c: int, k: DecisionKey, t: StringId|
        0 <= c < cases.len() && #[trigger] case_covers(input, c, k, t) ==> exists|x: int|
            0 <= x < cases[c].covers@.len() && nodes[(#[trigger] cases[c].covers@[x]).0 as int].key == k && key_index(
                cases[c].covers@[x].1,
            ) == key_index(t)
}

proof fn lemma_cover_step(
    nodes: Seq<DecisionNode>,
    input: Seq<(Span, bool, Vec<(DecisionKey, StringId)>)>,
    i: int,
    j: int,
    cb: Seq<(usize, StringId)>,
    cov: Seq<(usize, StringId)>,
)
    requires
        0 <= j < i < input.len(),
        covers_sound(nodes, input, i, j, cb),
        covers_complete(nodes, input, i, j, cb),
        cov.len() >= cb.len(),
        forall|x: int| 0 <= x < cb.len() ==> #[trigger] cov[x] == cb[x],
        input[j].1 ==> cov == cb,
        !input[j].1 ==> forall|x: int|
            cb.len() <= x < cov.len() ==> #[trigger] covers_at(input[j].2@, input[i].2@, nodes[cov[x].0 as int].key, cov[x].1),
        !input[j].1 ==> forall|k: DecisionKey, t: StringId|
            #[trigger] covers_at(input[j].2@, input[i].2@, k, t) ==> exists|x: int|
                0 <= x < cov.len() && nodes[(#[trigger] cov[x]).0 as int].key == k && key_index(cov[x].1) == key_index(t),
    ensures
        covers_sound(nodes, input, i, j + 1, cov),
        covers_complete(nodes, input, i, j + 1, cov),
{
    reveal(covers_complete);
    assert forall|x: int| 0 <= x < cov.len() implies #[trigger] covered_before(
        input,
        i,
        j + 1,
        nodes[cov[x].0 as int].key,
        cov[x].1,
    ) by {
        if x < cb.len() {
            assert(cov[x] == cb[x]);
            assert(covered_before(input, i, j, nodes[cb[x].0 as int].key, cb[x].1));
            let j2 = choose|j2: int|
                0 <= j2 < j && !input[j2].1 && #[trigger] covers_at(input[j2].2@, input[i].2@, nodes[cb[x].0 as int].key, cb[x].1);
            assert(covers_at(input[j2].2@, input[i].2@, nodes[cov[x].0 as int].key, cov[x].1));
        } else {
            assert(!input[j].1);
            assert(covers_at(input[j].2@, input[i].2@, nodes[cov[x].0 as int].key, cov[x].1));
        }
    }
    assert forall|j2: int, k: DecisionKey, t: StringId|
        0 <= j2 < j + 1 && !input[j2].1 && #[trigger] covers_at(input[j2].2@, input[i].2@, k, t) implies exists|x: int|
            0 <= x < cov.len() && nodes[(#[trigger] cov[x]).0 as int].key == k && key_index(cov[x].1) == key_index(t) by {
        if j2 < j {
            let x = choose|x: int| 0 <= x < cb.len() && nodes[(#[trigger] cb[x]).0 as int].key == k && key_index(cb[x].1) == key_index(t);
            assert(cov[x] == cb[x]);
        }
    }
}

proof fn lemma_cases_covers_push(
    nodes: Seq<DecisionNode>,
    input: Seq<(Span, bool, Vec<(DecisionKey, StringId)>)>,
    cs0: Seq<Case>,
    cs: Seq<Case>,
    cov: Seq<(usize, StringId)>,
)
    requires
        cases_covers(nodes, input, cs0),
        cs.len() == cs0.len() + 1,
        cs0.len() < input.len(),
        forall|c: int| 0 <= c < cs0.len() ==> #[trigger] cs[c] == cs0[c],
        cs[cs0.len() as int].covers@ == cov,
        covers_sound(nodes, input, cs0.len() as int, cs0.len() as int, cov),
        covers_complete(nodes, input, cs0.len() as int, cs0.len() as int, cov),
        forall|c: int, j: int|
            0 <= c < cs0.len() && 0 <= j < cs0[c].covers@.len() ==> (#[trigger] cs0[c].covers@[j]).0 < nodes.len(),
        forall|x: int| 0 <= x < cov.len() ==> (#[trigger] cov[x]).0 < nodes.len(),
    ensures
        cases_covers(nodes, input, cs),
        forall|c: int, j: int|
            0 <= c < cs.len() && 0 <= j < cs[c].covers@.len() ==> (#[trigger] cs[c].covers@[j]).0 < nodes.len(),
{
    assert forall|c: int, x: int| 0 <= c < cs.len() && 0 <= x < cs[c].covers@.len() implies (#[trigger] cs[c].covers@[x]).0
        < nodes.len() by {
        if c < cs0.len() {
            assert(cs[c] == cs0[c]);
        } else {
            assert(cs[c].covers@[x] == cov[x]);
        }
    }
    reveal(cases_covers);
    reveal(covers_complete);
    let i = cs0.len() as int;
    assert forall|c: int, x: int|
        0 <= c < cs.len() && 0 <= x < cs[c].covers@.len() implies case_covers(
            input,
            c,
            nodes[(#[trigger] cs[c].covers@[x]).0 as int].key,
            cs[c].covers@[x].1,
        ) by {
        if c < i {
            assert(cs[c] == cs0[c]);
        } else {
            assert(cs[c].covers@[x] == cov[x]);
            assert(covered_before(input, i, i, nodes[cov[x].0 as int].key, cov[x].1));
            let j2 = choose|j2: int|
                0 <= j2 < i && !input[j2].1 && #[trigger] covers_at(input[j2].2@, input[i].2@, nodes[cov[x].0 as int].key, cov[x].1);
        }
    }
    assert forall|c: int, k: DecisionKey, t: StringId|
        0 <= c < cs.len() && #[trigger] case_covers(input, c, k, t) implies exists|x: int|
            0 <= x < cs[c].covers@.len() && nodes[(#[trigger] cs[c].covers@[x]).0 as int].key == k && key_index(
                cs[c].covers@[x].1,
            ) == key_index(t) by {
        if c < i {
            assert(cs[c] == cs0[c]);
            let x = choose|x: int|
                0 <= x < cs0[c].covers@.len() && nodes[(#[trigger] cs0[c].covers@[x]).0 as int].key == k && key_index(
                    cs0[c].covers@[x].1,
                ) == key_index(t);
            assert(cs[c].covers@[x] == cs0[c].covers@[x]);
        } else {
            let j2 = choose|j2: int| 0 <= j2 < c && !input[j2].1 && #[trigger] covers_at(input[j2].2@, input[c].2@, k, t);
            let x = choose|x: int| 0 <= x < cov.len() && nodes[(#[trigger] cov[x]).0 as int].key == k && key_index(cov[x].1) == key_index(t);
            assert(cs[c].covers@[x] == cov[x]);
        }
    }
}

/// Compares the earlier case `prev` with the later case of tags `tags`: says
/// whether `prev` subsumes it, and otherwise adds to `covers` the one tag that
/// `prev` leaves open against it, when there is exactly one.
fn cover_step(
    prev: &Case,
    tags: &Vec<(usize, StringId)>,
    covers: &mut Vec<(usize, StringId)>,
    Ghost(nodes): Ghost<Seq<DecisionNode>>,
    Ghost(dprev): Ghost<Seq<(DecisionKey, StringId)>>,
    Ghost(dcur): Ghost<Seq<(DecisionKey, StringId)>>,
) -> (subsumed: bool)
    requires
        nodes.len() <= usize::MAX,
        tags_match(nodes, prev.tags@, dprev),
        tags_match(nodes, tags@, dcur),
        forall|x: int| 0 <= x < old(covers)@.len() ==> (#[trigger] old(covers)@[x]).0 < nodes.len(),
    ensures
        subsumed == subsumes(dprev, dcur),
        subsumed ==> final(covers)@ == old(covers)@,
        final(covers)@.len() >= old(covers)@.len(),
        forall|x: int| 0 <= x < old(covers)@.len() ==> #[trigger] final(covers)@[x] == old(covers)@[x],
        forall|x: int| 0 <= x < final(covers)@.len() ==> (#[trigger] final(covers)@[x]).0 < nodes.len(),
        forall|x: int|
            old(covers)@.len() <= x < final(covers)@.len() ==> #[trigger] covers_at(
                dprev,
                dcur,
                nodes[final(covers)@[x].0 as int].key,
                final(covers)@[x].1,
            ),
        forall|k: DecisionKey, t: StringId|
            #[trigger] covers_at(dprev, dcur, k, t) ==> exists|x: int|
                0 <= x < final(covers)@.len() && nodes[(#[trigger] final(covers)@[x]).0 as int].key == k && key_index(
                    final(covers)@[x].1,
                ) == key_index(t),
{
    let (mismatch, extra_pairs) = compare_arms(&prev.tags, tags);
    proof {
        lemma_subsumes_iff(nodes, prev.tags@, dprev, tags@, dcur);
        lemma_pair_cover(nodes, prev.tags@, dprev, tags@, dcur, mismatch, extra_pairs@);
    }
    if !mismatch && extra_pairs.len() == 0 {
        return true;
    }
    if !mismatch && extra_pairs.len() == 1 {
        let pair = extra_pairs[0];
        if !covers_contains(covers, pair.0, &pair.1) {
            covers.push(pair);
            proof {
                assert(covers@[covers@.len() - 1] == pair);
            }
        } else {
            proof {
                let x = choose|x: int|
                    0 <= x < covers@.len() && (#[trigger] covers@[x]).0 == pair.0 && key_index(covers@[x].1) == key_index(pair.1);
                assert(nodes[covers@[x].0 as int].key == nodes[pair.0 as int].key);
            }
        }
    }
    false
}

/// The groups name each variant key once.
#[verifier::opaque]
pub open spec fn grouped_keys_distinct(g: Seq<(DecisionKey, Vec<(usize, StringId)>)>) -> bool {
    forall|a: int, b: int| 0 <= a < b < g.len() ==> (#[trigger] g[a]).0 != (#[trigger] g[b]).0
}

/// Each pair listed under a variant key is a tag that its case covers as a whole.
#[verifier::opaque]
pub open spec fn grouped_sound(input: Seq<(Span, bool, Vec<(DecisionKey, StringId)>)>, g: Seq<(DecisionKey, Vec<(usize, StringId)>)>) -> bool {
    forall|a: int, y: int|
        0 <= a < g.len() && 0 <= y < g[a].1@.len() ==> case_covers(
            input,
            (#[trigger] g[a].1@[y]).0 as int,
            g[a].0,
            g[a].1@[y].1,
        )
}

/// Each tag that a case covers as a whole is listed under its variant key,
/// with the case's index.
#[verifier::opaque]
pub open spec fn grouped_complete(input: Seq<(Span, bool, Vec<(DecisionKey, StringId)>)>, g: Seq<(DecisionKey, Vec<(usize, StringId)>)>) -> bool {
    forall|c: int, k: DecisionKey, t: StringId| #[trigger] case_covers(input, c, k, t) ==> exists|a: int, y: int|
        0 <= a < g.len() && 0 <= y < g[a].1@.len() && g[a].0 == k && (#[trigger] g[a].1@[y]).0 == c && key_index(
            g[a].1@[y].1,
        ) == key_index(t)
}

/// The group of key `k` lists the pair `(c, t)`.
pub open spec fn grouped_has(g: Seq<(DecisionKey, Vec<(usize, StringId)>)>, k: DecisionKey, c: usize, t: StringId) -> bool {
    exists|a: int, y: int| 0 <= a < g.len() && 0 <= y < g[a].1@.len() && g[a].0 == k && #[trigger] g[a].1@[y] == (c, t)
}

proof fn lemma_grouped_push(
    input: Seq<(Span, bool, Vec<(DecisionKey, StringId)>)>,
    before: Seq<(DecisionKey, Vec<(usize, StringId)>)>,
    after: Seq<(DecisionKey, Vec<(usize, StringId)>)>,
    g: int,
    key: DecisionKey,
    c: usize,
    t: StringId,
)
    requires
        0 <= g < before.len(),
        before[g].0 == key,
        after.len() == before.len(),
        forall|a: int| 0 <= a < before.len() && a != g ==> #[trigger] after[a] == before[a],
        after[g].0 == key,
        after[g].1@ == before[g].1@.push((c, t)),
        grouped_keys_distinct(before),
        grouped_sound(input, before),
        case_covers(input, c as int, key, t),
    ensures
        grouped_keys_distinct(after),
        grouped_sound(input, after),
        grouped_has(after, key, c, t),
        forall|k: DecisionKey, c2: usize, t2: StringId| #[trigger] grouped_has(before, k, c2, t2) ==> grouped_has(after, k, c2, t2),
{
    reveal(grouped_keys_distinct);
    reveal(grouped_sound);
    assert forall|a: int, b: int| 0 <= a < b < after.len() implies (#[trigger] after[a]).0 != (#[trigger] after[b]).0 by {
        assert(before[a].0 != before[b].0);
    }
    assert forall|a: int, y: int|
        0 <= a < after.len() && 0 <= y < after[a].1@.len() implies case_covers(
            input,
            (#[trigger] after[a].1@[y]).0 as int,
            after[a].0,
            after[a].1@[y].1,
        ) by {
        if a != g {
            assert(after[a] == before[a]);
        } else if y < before[g].1@.len() {
            assert(after[a].1@[y] == before[g].1@[y]);
        }
    }
    assert(after[g].1@[before[g].1@.len() as int] == (c, t));
    assert forall|k: DecisionKey, c2: usize, t2: StringId| #[trigger] grouped_has(before, k, c2, t2) implies grouped_has(
        after,
        k,
        c2,
        t2,
    ) by {
        let (a, y) = choose|a: int, y: int| 0 <= a < before.len() && 0 <= y < before[a].1@.len() && before[a].0 == k && #[trigger] before[a].1@[y] == (c2, t2);
        if a != g {
            assert(after[a] == before[a]);
            assert(after[a].1@[y] == (c2, t2));
        } else {
            assert(after[a].1@[y] == (c2, t2));
        }
    }
}

proof fn lemma_grouped_new(
    input: Seq<(Span, bool, Vec<(DecisionKey, StringId)>)>,
    before: Seq<(DecisionKey, Vec<(usize, StringId)>)>,
    after: Seq<(DecisionKey, Vec<(usize, StringId)>)>,
    key: DecisionKey,
    c: usize,
    t: StringId,
)
    requires
        forall|h: int| 0 <= h < before.len() ==> before[h].0 != key,
        after.len() == before.len() + 1,
        forall|a: int| 0 <= a < before.len() ==> #[trigger] after[a] == before[a],
        after[before.len() as int].0 == key,
        after[before.len() as int].1@ == seq![(c, t)],
        grouped_keys_distinct(before),
        grouped_sound(input, before),
        case_covers(input, c as int, key, t),
    ensures
        grouped_keys_distinct(after),
        grouped_sound(input, after),
        grouped_has(after, key, c, t),
        forall|k: DecisionKey, c2: usize, t2: StringId| #[trigger] grouped_has(before, k, c2, t2) ==> grouped_has(after, k, c2, t2),
{
    reveal(grouped_keys_distinct);
    reveal(grouped_sound);
    let n = before.len() as int;
    assert forall|a: int, b: int| 0 <= a < b < after.len() implies (#[trigger] after[a]).0 != (#[trigger] after[b]).0 by {
        if b < n {
            assert(before[a].0 != before[b].0);
        } else {
            assert(after[a] == before[a]);
        }
    }
    assert forall|a: int, y: int|
        0 <= a < after.len() && 0 <= y < after[a].1@.len() implies case_covers(
            input,
            (#[trigger] after[a].1@[y]).0 as int,
            after[a].0,
            after[a].1@[y].1,
        ) by {
        if a < n {
            assert(after[a] == before[a]);
        }
    }
    assert(after[n].1@[0] == (c, t));
    assert forall|k: DecisionKey, c2: usize, t2: StringId| #[trigger] grouped_has(before, k, c2, t2) implies grouped_has(
        after,
        k,
        c2,
        t2,
    ) by {
        let (a, y) = choose|a: int, y: int| 0 <= a < before.len() && 0 <= y < before[a].1@.len() && before[a].0 == k && #[trigger] before[a].1@[y] == (c2, t2);
        assert(after[a] == before[a]);
        assert(after[a].1@[y] == (c2, t2));
    }
}

/// The covers of all cases, grouped by variant key: each key once, in the order
/// first met, with its (case, tag) pairs in order.
fn gather_covers(
    cases: &Vec<Case>,
    dnodes: &Vec<DecisionNode>,
    Ghost(input): Ghost<Seq<(Span, bool, Vec<(DecisionKey, StringId)>)>>,
) -> (covers_out: Vec<(DecisionKey, Vec<(usize, StringId)>)>)
    requires
        cases@.len() == input.len(),
        cases_covers(dnodes@, input, cases@),
        forall|c: int, j: int|
            0 <= c < cases@.len() && 0 <= j < cases@[c].covers@.len() ==> (#[trigger] cases@[c].covers@[j]).0 < dnodes@.len(),
    ensures
        grouped_keys_distinct(covers_out@),
        grouped_sound(input, covers_out@),
        grouped_complete(input, covers_out@),
{
    let ghost nodes = dnodes@;
    let ghost cs = cases@;
    let mut covers_out: Vec<(DecisionKey, Vec<(usize, StringId)>)> = Vec::new();
    let mut i: usize = 0;
    proof {
        reveal(grouped_keys_distinct);
        reveal(grouped_sound);
    }
    while i < cases.len()
        invariant
            nodes == dnodes@,
            cs == cases@,
            cs.len() == input.len(),
            i <= cs.len(),
            cases_covers(nodes, input, cs),
            forall|c: int, j: int|
                0 <= c < cs.len() && 0 <= j < cs[c].covers@.len() ==> (#[trigger] cs[c].covers@[j]).0 < nodes.len(),
            grouped_keys_distinct(covers_out@),
            grouped_sound(input, covers_out@),
            forall|c: int, x: int|
                0 <= c < i && 0 <= x < cs[c].covers@.len() ==> #[trigger] grouped_has(
                    covers_out@,
                    nodes[cs[c].covers@[x].0 as int].key,
                    c as usize,
                    cs[c].covers@[x].1,
                ),
        decreases cs.len() - i,
    {
        let mut j: usize = 0;
        while j < cases[i].covers.len()
            invariant
                nodes == dnodes@,
                cs == cases@,
                cs.len() == input.len(),
                i < cs.len(),
                j <= cs[i as int].covers@.len(),
                cases_covers(nodes, input, cs),
                forall|c: int, j: int|
                    0 <= c < cs.len() && 0 <= j < cs[c].covers@.len() ==> (#[trigger] cs[c].covers@[j]).0 < nodes.len(),
                grouped_keys_distinct(covers_out@),
                grouped_sound(input, covers_out@),
                forall|c: int, x: int|
                    ((0 <= c < i && 0 <= x < cs[c].covers@.len()) || (c == i && 0 <= x < j)) ==> #[trigger] grouped_has(
                        covers_out@,
                        nodes[cs[c].covers@[x].0 as int].key,
                        c as usize,
                        cs[c].covers@[x].1,
                    ),
            decreases cs[i as int].covers@.len() - j,
        {
            let (q, tag) = cases[i].covers[j];
            let key = dnodes[q].key;
            proof {
                reveal(cases_covers);
                assert(cs[i as int].covers@[j as int] == (q, tag));
                assert(case_covers(input, i as int, nodes[cs[i as int].covers@[j as int].0 as int].key, cs[i as int].covers@[j as int].1));
            }
            let mut g: usize = 0;
            let mut found: Option<usize> = None;
            while g < covers_out.len()
                invariant
                    g <= covers_out@.len(),
                    found matches Some(f) ==> f < covers_out@.len() && covers_out@[f as int].0 == key,
                    found is None ==> forall|h: int| 0 <= h < g ==> covers_out@[h].0 != key,
                decreases covers_out@.len() - g,
            {
                if found.is_none() && covers_out[g].0 == key {
                    found = Some(g);
                }
                g = g + 1;
            }
            let ghost before = covers_out@;
            match found {
                Some(g) => {
                    covers_out[g].1.push((i, tag));
                    proof {
                        lemma_grouped_push(input, before, covers_out@, g as int, key, i, tag);
                    }
                },
                None => {
                    let mut group: Vec<(usize, StringId)> = Vec::new();
                    group.push((i, tag));
                    covers_out.push((key, group));
                    proof {
                        lemma_grouped_new(input, before, covers_out@, key, i, tag);
                    }
                },
            }
            proof {
                assert forall|c: int, x: int|
                    ((0 <= c < i && 0 <= x < cs[c].covers@.len()) || (c == i && 0 <= x < j + 1)) implies #[trigger] grouped_has(
                        covers_out@,
                        nodes[cs[c].covers@[x].0 as int].key,
                        c as usize,
                        cs[c].covers@[x].1,
                    ) by {
                    if !(c == i && x == j) {
                        assert(grouped_has(before, nodes[cs[c].covers@[x].0 as int].key, c as usize, cs[c].covers@[x].1));
                    }
                }
            }
            j = j + 1;
        }
        i = i + 1;
    }
    proof {
        reveal(cases_covers);
        reveal(grouped_complete);
        assert forall|c: int, k: DecisionKey, t: StringId| #[trigger] case_covers(input, c, k, t) implies exists|a: int, y: int|
            0 <= a < covers_out@.len() && 0 <= y < covers_out@[a].1@.len() && covers_out@[a].0 == k && (
            #[trigger] covers_out@[a].1@[y]).0 == c && key_index(covers_out@[a].1@[y].1) == key_index(t) by {
            let x = choose|x: int|
                0 <= x < cs[c].covers@.len() && nodes[(#[trigger] cs[c].covers@[x]).0 as int].key == k && key_index(
                    cs[c].covers@[x].1,
                ) == key_index(t);
            assert(grouped_has(covers_out@, nodes[cs[c].covers@[x].0 as int].key, c as usize, cs[c].covers@[x].1));
            let (a, y) = choose|a: int, y: int|
                0 <= a < covers_out@.len() && 0 <= y < covers_out@[a].1@.len() && covers_out@[a].0 == nodes[cs[c].covers@[x].0 as int].key
                    && #[trigger] covers_out@[a].1@[y] == (c as usize, cs[c].covers@[x].1);
        }
    }
    covers_out
}

/// Checks the cases of a match against the tree of their merged patterns:
/// no case may be made unreachable by an earlier unguarded case, and every
/// value must be matched by some unguarded case. Each case is given as its
/// span, whether it has a guard, and the tag it decides on at each variant of
/// the tree, by the variant's key.
#[verifier::rlimit(80)]
#[verifier::spinoff_prover]
pub fn check_exhaustiveness(
    match_span: Span,
    strings: &mut lasso::Rodeo,
    merged_tree: &PatternNode,
    input_cases: Vec<(Span, bool, Vec<(DecisionKey, StringId)>)>,
) -> (r: Result<ExhaustivenessResult, SpannedError>)
    requires
        interned(*old(strings)).no_duplicates(),
        interned(*old(strings)).len() < u32::MAX,
        pattern_ok(interned(*old(strings)), *merged_tree),
        forall|i: int, m: int|
            0 <= i < input_cases@.len() && 0 <= m < input_cases@[i].2@.len() ==> key_valid(
                interned(*old(strings)),
                (#[trigger] input_cases@[i].2@[m]).1,
            ),
    ensures
        interned(*final(strings)).no_duplicates(),
        interned(*old(strings)).is_prefix_of(interned(*final(strings))),
        r is Ok ==> forall|i: int, j: int|
            0 <= j < i < input_cases@.len() && !input_cases@[j].1 ==> !subsumes(
                #[trigger] input_cases@[j].2@,
                #[trigger] input_cases@[i].2@,
            ),
        r matches Ok(res) ==> grouped_keys_distinct(res.covers@) && grouped_sound(input_cases@, res.covers@)
            && grouped_complete(input_cases@, res.covers@),
        r is Ok && keys_distinct(tree_positions(*merged_tree)) && input_closed(tree_positions(*merged_tree), input_cases@)
            ==> forall|v: spec_fn(usize) -> nat|
            #[trigger] respects_views(tree_positions(*merged_tree), v) ==> exists|k: int|
                0 <= k < input_cases@.len() && !input_cases@[k].1 && #[trigger] agrees_below(
                    tree_positions(*merged_tree),
                    tree_tops(*merged_tree),
                    input_cases@[k].2@,
                    v,
                ),
        match scan(tree_positions(*merged_tree), input_cases@, input_cases@.len() as int) {
            Some(e) => r matches Err(x) && x@ == e,
            None => {
                &&& (forall|k: int| 0 <= k < input_cases@.len() ==> #[trigger] input_cases@[k].1) ==> (r matches Err(x)
                    && x@ == ice_report())
                &&& (exists|k: int| 0 <= k < input_cases@.len() && !#[trigger] input_cases@[k].1 && input_cases@[k].2@.len() == 0)
                    ==> r is Ok
                &&& (exists|k: int| 0 <= k < input_cases@.len() && !#[trigger] input_cases@[k].1) && r is Err
                    ==> not_exhaustive_report(match_span, r->Err_0@)
            },
        },
{
    let ghost st0 = interned(*strings);
    let mut dnodes = DNodes::new();
    proof {
        assert(dnodes.names_ok(st0));
    }
    let ghost views = tree_positions(*merged_tree);
    proof {
        assert(dnodes.current_path@ =~= Seq::<PathComponent>::empty());
        assert(dnodes.state() =~= (Seq::<DView>::empty(), Seq::<usize>::empty()));
    }
    dnodes.visit_root(merged_tree, Ghost(st0));
    let ghost tops = dnodes.top_level@;
    proof {
        assert(tops == tree_tops(*merged_tree));
        assert(dnodes.nodes@.map_values(|n: DecisionNode| dview(n)) == views);
        assert(dnodes.nodes@.len() == dnodes.nodes.len());
        assert(st0.is_prefix_of(st0)) by {
            assert(st0.subrange(0, st0.len() as int) =~= st0);
        }
    }

    // Normalize each case to decision positions, and find what it covers.
    let mut cases: Vec<Case> = Vec::new();
    let mut i: usize = 0;
    proof {
        reveal(cases_covers);
    }
    while i < input_cases.len()
        invariant
            views == tree_positions(*merged_tree),
            dnodes.nodes@.map_values(|n: DecisionNode| dview(n)) == views,
            scan(views, input_cases@, i as int) is None,
            i <= input_cases@.len(),
            cases@.len() == i,
            interned(*strings) == st0,
            st0.no_duplicates(),
            st0.is_prefix_of(st0),
            dnodes.wf(),
            dnodes.names_ok(st0),
            dnodes.nodes@.len() <= usize::MAX,
            forall|i2: int, m: int|
                0 <= i2 < input_cases@.len() && 0 <= m < input_cases@[i2].2@.len() ==> key_valid(
                    st0,
                    (#[trigger] input_cases@[i2].2@[m]).1,
                ),
            forall|c: int|
                0 <= c < cases@.len() ==> tags_match(dnodes.nodes@, (#[trigger] cases@[c]).tags@, input_cases@[c].2@)
                    && cases@[c].has_guard == input_cases@[c].1 && cases@[c].span == input_cases@[c].0,
            forall|c: int, j: int|
                0 <= c < cases@.len() && 0 <= j < cases@[c].tags@.len() ==> key_valid(
                    st0,
                    (#[trigger] cases@[c].tags@[j]).1,
                ),
            forall|c: int, j: int|
                0 <= c < cases@.len() && 0 <= j < cases@[c].covers@.len() ==> (#[trigger] cases@[c].covers@[j]).0
                    < dnodes.nodes@.len(),
            forall|i2: int, j: int|
                0 <= j < i2 < i && !input_cases@[j].1 ==> !subsumes(
                    #[trigger] input_cases@[j].2@,
                    #[trigger] input_cases@[i2].2@,
                ),
            cases_covers(dnodes.nodes@, input_cases@, cases@),
        decreases input_cases@.len() - i,
    {
        let span = input_cases[i].0;
        let has_guard = input_cases[i].1;
        let tags = match case_tags(&dnodes.nodes, &input_cases[i].2) {
            Some(t) => t,
            None => {
                proof {
                    let d = input_cases@[i as int].2@;
                    let m = choose|m: int|
                        0 <= m < d.len() && last_pos(dnodes.nodes@, (#[trigger] d[m]).0, dnodes.nodes@.len() as int) is None;
                    lemma_key_known(dnodes.nodes@, d[m].0);
                    assert(!keys_known(views, d));
                    assert(scan(views, input_cases@, i + 1) == Some(ice_report()));
                    lemma_scan_persists(views, input_cases@, i + 1, input_cases@.len() as int);
                    assert(scan(tree_positions(*merged_tree), input_cases@, input_cases@.len() as int) == Some(ice_report()));
                }
                let e = SpannedError::from_ice(ice());
                proof {
                    assert(e@ == ice_report());
                }
                return Err(e);
            },
        };
        proof {
            let d = input_cases@[i as int].2@;
            assert forall|m: int| 0 <= m < d.len() implies key_known(views, (#[trigger] d[m]).0) by {
                lemma_key_known(dnodes.nodes@, d[m].0);
            }
            assert(keys_known(views, d));
        }
        proof {
            assert forall|j: int| 0 <= j < tags@.len() implies key_valid(st0, (#[trigger] tags@[j]).1) by {
                let k = dnodes.nodes@[tags@[j].0 as int].key;
                lemma_decided_in(input_cases@[i as int].2@, k);
                let m = choose|m: int| 0 <= m < input_cases@[i as int].2@.len() && #[trigger] input_cases@[i as int].2@[m] == (
                    k,
                    tags@[j].1,
                );
                assert(key_valid(st0, input_cases@[i as int].2@[m].1));
            }
        }
        let mut covers: Vec<(usize, StringId)> = Vec::new();
        let mut j: usize = 0;
        proof {
            reveal(covers_complete);
        }
        while j < cases.len()
            invariant
                views == tree_positions(*merged_tree),
                first_cover(input_cases@, i as int, 0) == first_cover(input_cases@, i as int, j as int),
                scan(views, input_cases@, i as int) is None,
                keys_known(views, input_cases@[i as int].2@),
                j <= cases@.len(),
                cases@.len() == i,
                i < input_cases@.len(),
                span == input_cases@[i as int].0,
                interned(*strings) == st0,
                st0.no_duplicates(),
                st0.is_prefix_of(st0),
                dnodes.nodes@.len() <= usize::MAX,
                tags_match(dnodes.nodes@, tags@, input_cases@[i as int].2@),
                forall|c: int|
                    0 <= c < cases@.len() ==> tags_match(dnodes.nodes@, (#[trigger] cases@[c]).tags@, input_cases@[c].2@)
                        && cases@[c].has_guard == input_cases@[c].1 && cases@[c].span == input_cases@[c].0,
                forall|c: int| 0 <= c < covers@.len() ==> (#[trigger] covers@[c]).0 < dnodes.nodes@.len(),
                forall|j2: int|
                    0 <= j2 < j && !input_cases@[j2].1 ==> !subsumes(
                        #[trigger] input_cases@[j2].2@,
                        input_cases@[i as int].2@,
                    ),
                covers_sound(dnodes.nodes@, input_cases@, i as int, j as int, covers@),
                covers_complete(dnodes.nodes@, input_cases@, i as int, j as int, covers@),
            decreases cases@.len() - j,
        {
            let ghost cb = covers@;
            let prev_arm = &cases[j];
            if !prev_arm.has_guard {
                let subsumed = cover_step(
                    prev_arm,
                    &tags,
                    &mut covers,
                    Ghost(dnodes.nodes@),
                    Ghost(input_cases@[j as int].2@),
                    Ghost(input_cases@[i as int].2@),
                );
                if subsumed {
                    let e = SpannedError::new2(
                        "SyntaxError: Match case is unreachable.",
                        span,
                        "Note: All values are covered by previous match case here:",
                        prev_arm.span,
                    );
                    proof {
                        assert(!input_cases@[j as int].1);
                        assert(subsumes(input_cases@[j as int].2@, input_cases@[i as int].2@));
                        assert(first_cover(input_cases@, i as int, j as int) == Some(j as int));
                        assert(scan(views, input_cases@, i + 1) == Some(unreachable_report(input_cases@[i as int].0, input_cases@[j as int].0)));
                        lemma_scan_persists(views, input_cases@, i + 1, input_cases@.len() as int);
                        assert(e@ == unreachable_report(input_cases@[i as int].0, input_cases@[j as int].0));
                        assert(unreachable_at(input_cases@, i as int, j as int, e@));
                        assert(scan(tree_positions(*merged_tree), input_cases@, input_cases@.len() as int) == Some(e@));
                    }
                    return Err(e);
                }
            }
            proof {
                assert(cases@[j as int].has_guard == input_cases@[j as int].1);
                assert(!(!input_cases@[j as int].1 && subsumes(input_cases@[j as int].2@, input_cases@[i as int].2@)));
                assert(first_cover(input_cases@, i as int, j as int) == first_cover(input_cases@, i as int, j + 1));
                lemma_cover_step(dnodes.nodes@, input_cases@, i as int, j as int, cb, covers@);
            }
            j = j + 1;
        }
        proof {
            assert(first_cover(input_cases@, i as int, j as int) is None);
            assert(scan(views, input_cases@, i + 1) is None);
        }
        let ghost cs0 = cases@;
        let ghost cov = covers@;
        cases.push(Case { span, tags, covers, has_guard });
        proof {
            assert forall|c: int| 0 <= c < cs0.len() implies #[trigger] cases@[c] == cs0[c] by {}
            assert(cases@[i as int].covers@ == cov);
            lemma_cases_covers_push(dnodes.nodes@, input_cases@, cs0, cases@, cov);
        }
        i = i + 1;
    }

    // The unguarded cases are the ones that count for exhaustiveness.
    let mut unguarded: Vec<usize> = Vec::new();
    let mut c: usize = 0;
    while c < cases.len()
        invariant
            c <= cases@.len(),
            forall|j: int| 0 <= j < unguarded@.len() ==> #[trigger] unguarded@[j] < cases@.len(),
            forall|j: int| 0 <= j < unguarded@.len() ==> !cases@[#[trigger] unguarded@[j] as int].has_guard,
            forall|k: int| 0 <= k < c && !(#[trigger] cases@[k]).has_guard ==> unguarded@.contains(k as usize),
            unguarded@.len() > 0 ==> exists|k: int| 0 <= k < c && !(#[trigger] cases@[k]).has_guard,
        decreases cases@.len() - c,
    {
        let ghost before = unguarded@;
        if !cases[c].has_guard {
            unguarded.push(c);
            proof {
                assert(unguarded@[before.len() as int] == c);
                assert forall|k: int| 0 <= k < c + 1 && !(#[trigger] cases@[k]).has_guard implies unguarded@.contains(k as usize) by {
                    if k < c {
                        let jj = choose|jj: int| 0 <= jj < before.len() && before[jj] == k as usize;
                        assert(unguarded@[jj] == before[jj]);
                    }
                }
            }
        }
        c = c + 1;
    }

    let tag_here_str = intern(strings, "<TAGS HERE>");
    let ghost st1 = interned(*strings);
    proof {
        if st0.contains("<TAGS HERE>"@) {
            assert(st1 == st0);
        } else {
            assert(st1 == st0.push("<TAGS HERE>"@));
            assert forall|a: int, b: int| 0 <= a < b < st1.len() implies st1[a] != st1[b] by {
                if b == st0.len() {
                    assert(st0.contains(st0[a]));
                }
            }
        }
        assert(st0.is_prefix_of(st1)) by {
            assert(st1.subrange(0, st0.len() as int) =~= st0);
        }
        lemma_nodes_ok_extend(st0, st1, dnodes.nodes@);
    }
    let top_level = dnodes.top_level;
    let mut checker = ExhaustivenessChecker {
        match_span,
        strings: &*strings,
        dnodes: dnodes.nodes,
        cases,
        tag_here_str,
        context_stack: Vec::new(),
        ignored_cases: Vec::new(),
        nonexhaustive_wildcard_reasons: Vec::new(),
    };
    proof {
        assert forall|a: int, b: int|
            0 <= a < checker.cases@.len() && 0 <= b < checker.cases@[a].tags@.len() implies (
            #[trigger] checker.cases@[a].tags@[b]).0 < checker.dnodes@.len() && key_valid(
            st1,
            checker.cases@[a].tags@[b].1,
        ) by {
            assert(tags_match(checker.dnodes@, checker.cases@[a].tags@, input_cases@[a].2@));
            assert(key_valid(st0, checker.cases@[a].tags@[b].1));
        }
        assert(checker.wf());
    }
    proof {
        if forall|k: int| 0 <= k < input_cases@.len() ==> #[trigger] input_cases@[k].1 {
            if unguarded@.len() > 0 {
                let k = choose|k: int| 0 <= k < checker.cases@.len() && !(#[trigger] checker.cases@[k]).has_guard;
                assert(input_cases@[k].1);
            }
        }
    }
    let ghost ug = unguarded@;
    let ghost top = top_level@;
    match checker.check(top_level, unguarded) {
        Ok(()) => {
            proof {
                assert(top == tops);
                if keys_distinct(views) && input_closed(views, input_cases@) {
                    assert(checker.dnodes@.map_values(|n: DecisionNode| dview(n)) == views);
                    assert forall|c: int| 0 <= c < checker.cases@.len() implies tags_match(
                        checker.dnodes@,
                        (#[trigger] checker.cases@[c]).tags@,
                        input_cases@[c].2@,
                    ) && checker.cases@[c].has_guard == input_cases@[c].1 by {}
                    lemma_cases_closed(checker.dnodes@, checker.cases@, input_cases@);
                    assert forall|v: spec_fn(usize) -> nat| #[trigger] respects_views(views, v) implies exists|k: int|
                        0 <= k < input_cases@.len() && !input_cases@[k].1 && #[trigger] agrees_below(
                            views,
                            tops,
                            input_cases@[k].2@,
                            v,
                        ) by {
                        lemma_choice_covered(checker.dnodes@, checker.cases@, ug, top, input_cases@, v, views);
                    }
                }
            }
        },
        Err(e) => {
            proof {
                if exists|k: int| 0 <= k < input_cases@.len() && !#[trigger] input_cases@[k].1 {
                    let k = choose|k: int| 0 <= k < input_cases@.len() && !#[trigger] input_cases@[k].1;
                    assert(checker.cases@[k].has_guard == input_cases@[k].1);
                    assert(ug.contains(k as usize));
                    assert(ug.len() > 0);
                }
                if exists|k: int| 0 <= k < input_cases@.len() && !#[trigger] input_cases@[k].1 && input_cases@[k].2@.len() == 0 {
                    let k = choose|k: int| 0 <= k < input_cases@.len() && !#[trigger] input_cases@[k].1 && input_cases@[k].2@.len() == 0;
                    let t = checker.cases@[k].tags@;
                    assert(tags_match(checker.dnodes@, t, input_cases@[k].2@));
                    if t.len() > 0 {
                        assert(decided(input_cases@[k].2@, checker.dnodes@[t[0].0 as int].key) is None);
                    }
                    assert(t.len() == 0);
                    assert(ug.contains(k as usize));
                    let x = choose|x: int| 0 <= x < ug.len() && ug[x] == k as usize;
                    assert(no_tag_at(checker.cases@[ug[x] as int].tags@, top));
                    assert(false);
                }
            }
            return Err(e);
        },
    }

    // Gather the covers by variant.
    let covers_out = gather_covers(&checker.cases, &checker.dnodes, Ghost(input_cases@));
    Ok(ExhaustivenessResult { nonexhaustive_wildcard_reasons: checker.nonexhaustive_wildcard_reasons, covers: covers_out })
}

} // verus!

use onesubml::reachability::Reachability;
use onesubml::spans::Span;
use onesubml::type_core::{no_holes, FlowReason, InferenceVarData, ScopeLvl, TypeEdge, TypeNode};
use onesubml::type_errors::HoleSrc;
use onesubml::types::{UTypeHead, VTypeHead};
use onesubml::vec_index::TypeNodeInd;

type Graph = Reachability<TypeNodeInd, TypeNode, TypeEdge>;

fn var(level: u32) -> TypeNode {
    TypeNode::Var(InferenceVarData { scopelvl: ScopeLvl(level), src: HoleSrc::Explicit(Span(0)) })
}

fn edge(level: u32) -> TypeEdge {
    TypeEdge { scopelvl: ScopeLvl(level), reason: FlowReason::Root(Span(9)) }
}

fn has(g: &Graph, a: TypeNodeInd, b: TypeNodeInd) -> bool {
    g.get_edge(a, b).is_some()
}

#[test]
fn new_graph_is_empty() {
    let g = Graph::new();
    assert_eq!(g.len(), 0);
    assert!(g.get(TypeNodeInd::new(0)).is_none());
}

#[test]
fn add_node_gives_consecutive_indices() {
    let mut g = Graph::new();
    let a = g.add_node(var(1));
    let b = g.add_node(TypeNode::Value((VTypeHead::VTop, Span(3))));
    assert_eq!(a.i(), 0);
    assert_eq!(b.i(), 1);
    assert_eq!(g.len(), 2);
    assert!(matches!(g.get(b), Some(TypeNode::Value((VTypeHead::VTop, Span(3))))));
}

#[test]
fn edges_are_closed_transitively() {
    let mut g = Graph::new();
    let a = g.add_node(TypeNode::Value((VTypeHead::VTop, Span(1))));
    let b = g.add_node(var(5));
    let c = g.add_node(TypeNode::Use((UTypeHead::UBot, Span(2), onesubml::types::UseSrc::CallExpr)));
    let mut out = Vec::new();
    g.add_edge(a, b, edge(7), &mut out);
    g.add_edge(b, c, edge(9), &mut out);
    assert!(has(&g, a, b));
    assert!(has(&g, b, c));
    assert!(has(&g, a, c));
    assert!(!has(&g, c, a));
    // The edge through the variable takes the lowest of the levels involved.
    let through = g.get_edge(a, c).unwrap();
    assert_eq!(through.scopelvl, ScopeLvl(5));
    assert!(matches!(through.reason, FlowReason::Transitivity(ind) if ind == b));
    // Each new edge was reported.
    assert!(out.iter().any(|(l, r, _)| *l == a && *r == c));
}

#[test]
fn add_edge_keeps_lower_level() {
    let mut g = Graph::new();
    let a = g.add_node(TypeNode::Value((VTypeHead::VTop, Span(1))));
    let b = g.add_node(TypeNode::Value((VTypeHead::VTop, Span(2))));
    let mut out = Vec::new();
    g.add_edge(a, b, edge(8), &mut out);
    g.add_edge(a, b, edge(3), &mut out);
    assert_eq!(g.get_edge(a, b).unwrap().scopelvl, ScopeLvl(3));
    g.add_edge(a, b, edge(6), &mut out);
    assert_eq!(g.get_edge(a, b).unwrap().scopelvl, ScopeLvl(3));
}

#[test]
fn revert_restores_saved_graph() {
    let mut g = Graph::new();
    let a = g.add_node(TypeNode::Value((VTypeHead::VTop, Span(1))));
    let b = g.add_node(TypeNode::Value((VTypeHead::VTop, Span(2))));
    let mut out = Vec::new();
    g.add_edge(a, b, edge(8), &mut out);
    g.save();
    let c = g.add_node(var(1));
    g.add_edge(b, c, edge(4), &mut out);
    g.add_edge(b, a, edge(4), &mut out);
    g.add_edge(a, b, edge(2), &mut out);
    assert!(has(&g, b, a));
    assert_eq!(g.get_edge(a, b).unwrap().scopelvl, ScopeLvl(2));
    g.revert();
    assert_eq!(g.len(), 2);
    assert!(has(&g, a, b));
    assert!(!has(&g, b, a));
    assert_eq!(g.get_edge(a, b).unwrap().scopelvl, ScopeLvl(8));
}

#[test]
fn make_permanent_keeps_changes() {
    let mut g = Graph::new();
    let a = g.add_node(TypeNode::Value((VTypeHead::VTop, Span(1))));
    g.save();
    let b = g.add_node(TypeNode::Value((VTypeHead::VTop, Span(2))));
    let mut out = Vec::new();
    g.add_edge(a, b, edge(8), &mut out);
    g.make_permanent();
    assert_eq!(g.len(), 2);
    assert!(has(&g, a, b));
}

#[test]
fn get_mut_pair_needs_distinct_nodes() {
    let mut g = Graph::new();
    let a = g.add_node(TypeNode::Value((VTypeHead::VTop, Span(1))));
    let b = g.add_node(TypeNode::Value((VTypeHead::VTop, Span(2))));
    assert!(g.get_mut_pair(a, a).is_none());
    assert!(g.get_mut_pair(a, TypeNodeInd::new(5)).is_none());
    {
        let (x, y) = g.get_mut_pair(b, a).unwrap();
        assert!(matches!(x, TypeNode::Value((VTypeHead::VTop, Span(2)))));
        assert!(matches!(y, TypeNode::Value((VTypeHead::VTop, Span(1)))));
        *x = TypeNode::Placeholder;
        *y = TypeNode::LazyUse(None, Span(7));
    }
    assert!(matches!(g.get(a), Some(TypeNode::LazyUse(None, Span(7)))));
    assert!(matches!(g.get(b), Some(TypeNode::Placeholder)));
}

#[test]
fn get_mut_changes_node_data() {
    let mut g = Graph::new();
    let a = g.add_node(var(3));
    *g.get_mut(a).unwrap() = TypeNode::Value((VTypeHead::VTop, Span(4)));
    assert!(matches!(g.get(a), Some(TypeNode::Value((VTypeHead::VTop, Span(4))))));
    assert!(g.get_mut(TypeNodeInd::new(1)).is_none());
}

#[test]
fn transitive_edges_are_reported_after_the_edge_itself() {
    let mut r = Graph::new();
    let a = r.add_node(TypeNode::Placeholder);
    let b = r.add_node(TypeNode::Placeholder);
    let c = r.add_node(TypeNode::Placeholder);
    let e = TypeEdge { scopelvl: no_holes(), reason: FlowReason::Transitivity(a) };
    let mut out = vec![];
    r.add_edge(a, b, e, &mut out);
    r.add_edge(b, c, e, &mut out);
    let pairs: Vec<(usize, usize)> = out.iter().map(|(x, y, _)| (x.i(), y.i())).collect();
    assert_eq!(pairs, vec![(a.i(), b.i()), (b.i(), c.i()), (a.i(), c.i())]);
    let ac = r.get_edge(a, c).unwrap();
    assert_eq!(ac.scopelvl, no_holes());
    assert!(matches!(ac.reason, FlowReason::Transitivity(m) if m.i() == b.i()));
    assert!(r.get_edge(c, a).is_none());
}

#[test]
fn self_edge_changes_nothing() {
    let mut r = Graph::new();
    let a = r.add_node(var(1));
    let mut out = vec![];
    r.add_edge(a, a, edge(1), &mut out);
    assert!(out.is_empty());
    assert!(!has(&r, a, a));
}

#[test]
fn edge_that_does_not_improve_is_not_reported() {
    let mut r = Graph::new();
    let a = r.add_node(var(1));
    let b = r.add_node(var(1));
    let mut out = vec![];
    r.add_edge(a, b, edge(1), &mut out);
    assert_eq!(out.len(), 1);
    r.add_edge(a, b, edge(5), &mut out);
    assert_eq!(out.len(), 1);
    assert_eq!(r.get_edge(a, b).unwrap().scopelvl, ScopeLvl(1));
    r.add_edge(a, b, edge(0), &mut out);
    assert_eq!(out.len(), 2);
    assert_eq!(r.get_edge(a, b).unwrap().scopelvl, ScopeLvl(0));
}

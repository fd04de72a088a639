//! Depth-first walks over a tree, in pre-order and in post-order, each with an optional stop
//! predicate: a node that it matches is yielded but its children are not visited.
use vstd::prelude::*;

use crate::element::{lemma_nodes_model, ElementPredicate, NodeModel, XMLNode};

verus! {

/// Whether the walk stops at `n`: `n` is an element that `stop` matches.
pub open spec fn stops_at<P: ElementPredicate>(stop: Option<P>, n: NodeModel) -> bool {
    match stop {
        Some(p) => n is Element && p.spec_match(n->Element_0),
        None => false,
    }
}

/// The nodes of the tree under `n` in pre-order: `n`, then, unless the walk stops at `n`, the
/// walks of its children left to right.
pub open spec fn pre_order_of<P: ElementPredicate>(n: NodeModel, stop: Option<P>) -> Seq<NodeModel>
    decreases n,
{
    match n {
        NodeModel::Element(e) => if stops_at(stop, n) {
            seq![n]
        } else {
            seq![n] + pre_order_forest(e.children, stop)
        },
        _ => seq![n],
    }
}

/// The pre-order walks of `cs`, one after another.
pub open spec fn pre_order_forest<P: ElementPredicate>(cs: Seq<NodeModel>, stop: Option<P>) -> Seq<NodeModel>
    decreases cs,
{
    if cs.len() == 0 {
        Seq::empty()
    } else {
        pre_order_forest(cs.drop_last(), stop) + pre_order_of(cs.last(), stop)
    }
}

/// The nodes of the tree under `n` in post-order: unless the walk stops at `n`, the walks of its
/// children left to right, then `n`.
pub open spec fn post_order_of<P: ElementPredicate>(n: NodeModel, stop: Option<P>) -> Seq<NodeModel>
    decreases n,
{
    match n {
        NodeModel::Element(e) => if stops_at(stop, n) {
            seq![n]
        } else {
            post_order_forest(e.children, stop) + seq![n]
        },
        _ => seq![n],
    }
}

/// The post-order walks of `cs`, one after another.
pub open spec fn post_order_forest<P: ElementPredicate>(cs: Seq<NodeModel>, stop: Option<P>) -> Seq<NodeModel>
    decreases cs,
{
    if cs.len() == 0 {
        Seq::empty()
    } else {
        post_order_forest(cs.drop_last(), stop) + post_order_of(cs.last(), stop)
    }
}

/// The models of the nodes that a walk yields.
pub open spec fn walk_model(v: Seq<&XMLNode>) -> Seq<NodeModel> {
    v.map_values(|n: &XMLNode| n@)
}

/// Whether the walk stops at `n`.
fn stops_here<P: ElementPredicate>(stop: &Option<P>, n: &XMLNode) -> (r: bool)
    ensures
        r == stops_at(*stop, n@),
{
    match (stop, n) {
        (Some(p), XMLNode::Element(e)) => p.match_element(e),
        _ => false,
    }
}

/// Appends the pre-order walk of the tree under `n` to `out`.
fn push_pre_order<'a, P: ElementPredicate>(n: &'a XMLNode, stop: &Option<P>, out: &mut Vec<&'a XMLNode>)
    ensures
        walk_model(final(out)@) == walk_model(old(out)@) + pre_order_of(n@, *stop),
    decreases n,
{
    let ghost start = walk_model(out@);
    let halt = stops_here(stop, n);
    let ghost p = out@;
    out.push(n);
    assert(walk_model(out@) =~= start.push(n@));
    if let XMLNode::Element(e) = n {
        if !halt {
            proof {
                lemma_nodes_model(e.children@);
            }
            let ghost cs = e@.children;
            let ghost head = walk_model(out@);
            assert(head + pre_order_forest(cs.subrange(0, 0), *stop) =~= head);
            let mut i: usize = 0;
            while i < e.children.len()
                invariant
                    *n == XMLNode::Element(*e),
                    i <= e.children@.len(),
                    cs.len() == e.children@.len(),
                    forall|j: int| 0 <= j < e.children@.len() ==> #[trigger] cs[j] == e.children@[j]@,
                    walk_model(out@) == head + pre_order_forest(cs.subrange(0, i as int), *stop),
                decreases e.children@.len() - i,
            {
                let ghost before = walk_model(out@);
                assert(cs.subrange(0, i + 1).drop_last() == cs.subrange(0, i as int));
                proof {
                    assert((*n)->Element_0 == *e);
                    assert(decreases_to!(*n => (*n)->Element_0));
                    assert(decreases_to!(*e => e.children));
                    assert(decreases_to!(e.children => e.children[i as int]));
                }
                push_pre_order(&e.children[i], stop, out);
                assert(pre_order_forest(cs.subrange(0, i + 1), *stop) == pre_order_forest(cs.subrange(0, i as int), *stop) + pre_order_of(cs[i as int], *stop));
                assert(walk_model(out@) =~= head + pre_order_forest(cs.subrange(0, i + 1), *stop));
                i = i + 1;
            }
            assert(cs.subrange(0, i as int) =~= cs);
            assert(walk_model(out@) =~= start + pre_order_of(n@, *stop));
        }
    }
}

/// Appends the post-order walk of the tree under `n` to `out`.
fn push_post_order<'a, P: ElementPredicate>(n: &'a XMLNode, stop: &Option<P>, out: &mut Vec<&'a XMLNode>)
    ensures
        walk_model(final(out)@) == walk_model(old(out)@) + post_order_of(n@, *stop),
    decreases n,
{
    let ghost start = walk_model(out@);
    let halt = stops_here(stop, n);
    if let XMLNode::Element(e) = n {
        if !halt {
            proof {
                lemma_nodes_model(e.children@);
            }
            let ghost cs = e@.children;
            assert(start + post_order_forest(cs.subrange(0, 0), *stop) =~= start);
            let mut i: usize = 0;
            while i < e.children.len()
                invariant
                    *n == XMLNode::Element(*e),
                    i <= e.children@.len(),
                    cs.len() == e.children@.len(),
                    forall|j: int| 0 <= j < e.children@.len() ==> #[trigger] cs[j] == e.children@[j]@,
                    walk_model(out@) == start + post_order_forest(cs.subrange(0, i as int), *stop),
                decreases e.children@.len() - i,
            {
                assert(cs.subrange(0, i + 1).drop_last() == cs.subrange(0, i as int));
                proof {
                    assert((*n)->Element_0 == *e);
                    assert(decreases_to!(*n => (*n)->Element_0));
                    assert(decreases_to!(*e => e.children));
                    assert(decreases_to!(e.children => e.children[i as int]));
                }
                push_post_order(&e.children[i], stop, out);
                assert(post_order_forest(cs.subrange(0, i + 1), *stop) == post_order_forest(cs.subrange(0, i as int), *stop) + post_order_of(cs[i as int], *stop));
                assert(walk_model(out@) =~= start + post_order_forest(cs.subrange(0, i + 1), *stop));
                i = i + 1;
            }
            assert(cs.subrange(0, i as int) =~= cs);
        }
    }
    let ghost mid = walk_model(out@);
    out.push(n);
    assert(walk_model(out@) =~= mid.push(n@));
    assert(walk_model(out@) =~= start + post_order_of(n@, *stop));
}

impl XMLNode {
    /// The nodes of the tree under this node in pre-order: each node before its children. Where
    /// `stop` matches an element, that element is yielded and its children are not visited.
    pub fn pre_order<P: ElementPredicate>(&self, stop: Option<P>) -> (r: Vec<&XMLNode>)
        ensures
            walk_model(r@) == pre_order_of(self@, stop),
    {
        let mut out: Vec<&XMLNode> = Vec::new();
        assert(walk_model(out@) =~= Seq::<NodeModel>::empty());
        push_pre_order(self, &stop, &mut out);
        assert(walk_model(out@) =~= pre_order_of(self@, stop));
        out
    }

    /// The nodes of the tree under this node in post-order: each node after its children. Where
    /// `stop` matches an element, that element is yielded and its children are not visited.
    pub fn post_order<P: ElementPredicate>(&self, stop: Option<P>) -> (r: Vec<&XMLNode>)
        ensures
            walk_model(r@) == post_order_of(self@, stop),
    {
        let mut out: Vec<&XMLNode> = Vec::new();
        assert(walk_model(out@) =~= Seq::<NodeModel>::empty());
        push_post_order(self, &stop, &mut out);
        assert(walk_model(out@) =~= post_order_of(self@, stop));
        out
    }
}

} // verus!

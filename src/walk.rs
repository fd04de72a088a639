//! Lazy depth-first walks: cursors that keep, for each open level of the tree, the sibling list
//! and the index of the next child to visit, and hand out one node per call.
use vstd::prelude::*;

use crate::element::{lemma_nodes_model, nodes_model, ElementPredicate, NodeModel, XMLNode};
use crate::traverse::{post_order_forest, post_order_of, pre_order_forest, pre_order_of, stops_at};

verus! {

/// The pre-order walk of a sequence of nodes is the walk of the first, then the walks of the rest.
pub proof fn lemma_pre_order_forest_first<P: ElementPredicate>(cs: Seq<NodeModel>, stop: Option<P>)
    requires
        cs.len() > 0,
    ensures
        pre_order_forest(cs, stop) == pre_order_of(cs[0], stop) + pre_order_forest(cs.drop_first(), stop),
    decreases cs.len(),
{
    if cs.len() == 1 {
        assert(cs.drop_last() =~= Seq::<NodeModel>::empty());
        assert(cs.drop_first() =~= Seq::<NodeModel>::empty());
        assert(pre_order_forest(cs.drop_first(), stop) =~= Seq::<NodeModel>::empty());
        assert(pre_order_forest(cs, stop) =~= pre_order_of(cs[0], stop));
    } else {
        lemma_pre_order_forest_first(cs.drop_last(), stop);
        assert(cs.drop_last().drop_first() =~= cs.drop_first().drop_last());
        assert(cs.drop_first().last() == cs.last());
        assert(cs.drop_last()[0] == cs[0]);
        assert(pre_order_forest(cs, stop) =~= pre_order_of(cs[0], stop) + pre_order_forest(cs.drop_first(), stop));
    }
}

/// The post-order walk of a sequence of nodes is the walk of the first, then the walks of the rest.
pub proof fn lemma_post_order_forest_first<P: ElementPredicate>(cs: Seq<NodeModel>, stop: Option<P>)
    requires
        cs.len() > 0,
    ensures
        post_order_forest(cs, stop) == post_order_of(cs[0], stop) + post_order_forest(cs.drop_first(), stop),
    decreases cs.len(),
{
    if cs.len() == 1 {
        assert(cs.drop_last() =~= Seq::<NodeModel>::empty());
        assert(cs.drop_first() =~= Seq::<NodeModel>::empty());
        assert(post_order_forest(cs.drop_first(), stop) =~= Seq::<NodeModel>::empty());
        assert(post_order_forest(cs, stop) =~= post_order_of(cs[0], stop));
    } else {
        lemma_post_order_forest_first(cs.drop_last(), stop);
        assert(cs.drop_last().drop_first() =~= cs.drop_first().drop_last());
        assert(cs.drop_first().last() == cs.last());
        assert(cs.drop_last()[0] == cs[0]);
        assert(post_order_forest(cs, stop) =~= post_order_of(cs[0], stop) + post_order_forest(cs.drop_first(), stop));
    }
}

/// The siblings from index `i` on.
pub open spec fn rest_of(cs: &Vec<XMLNode>, i: usize) -> Seq<NodeModel> {
    nodes_model(cs@).subrange(i as int, cs@.len() as int)
}

/// What the pre-order levels `fr` have still to yield, the innermost level first.
pub open spec fn pre_levels_pending<P: ElementPredicate>(fr: Seq<(&Vec<XMLNode>, usize)>, stop: Option<P>) -> Seq<NodeModel>
    decreases fr.len(),
{
    if fr.len() == 0 {
        Seq::empty()
    } else {
        pre_order_forest(rest_of(fr.last().0, fr.last().1), stop) + pre_levels_pending(fr.drop_last(), stop)
    }
}

/// A lazy pre-order walk: each node before its children; an element that the stop predicate
/// matches is yielded and its children are not visited.
pub struct PreOrderWalk<'a, P> {
    start: Option<&'a XMLNode>,
    levels: Vec<(&'a Vec<XMLNode>, usize)>,
    stop: Option<P>,
}

impl<'a, P: ElementPredicate> PreOrderWalk<'a, P> {
    /// Every level's index is within its sibling list.
    pub closed spec fn wf(&self) -> bool {
        forall|j: int| 0 <= j < self.levels@.len() ==> (#[trigger] self.levels@[j]).1 <= self.levels@[j].0@.len()
    }

    /// The nodes that the walk has still to yield, in order.
    pub closed spec fn pending(&self) -> Seq<NodeModel> {
        let head = match self.start {
            Some(n) => pre_order_of(n@, self.stop),
            None => Seq::empty(),
        };
        head + pre_levels_pending(self.levels@, self.stop)
    }

    /// A walk over the tree under `root`.
    pub fn new(root: &'a XMLNode, stop: Option<P>) -> (r: Self)
        ensures
            r.wf(),
            r.pending() == pre_order_of(root@, stop),
    {
        let r = PreOrderWalk { start: Some(root), levels: Vec::new(), stop };
        assert(r.pending() =~= pre_order_of(root@, stop));
        r
    }

    /// Visits `n`: where it is an element at which the walk does not stop, its children become the
    /// innermost level.
    fn enter(&mut self, n: &'a XMLNode)
        requires
            old(self).wf(),
        ensures
            final(self).wf(),
            final(self).start == old(self).start,
            final(self).stop == old(self).stop,
            pre_levels_pending(final(self).levels@, final(self).stop) == pre_order_of(n@, old(self).stop).drop_first()
                + pre_levels_pending(old(self).levels@, old(self).stop),
    {
        let halt = match (&self.stop, n) {
            (Some(p), XMLNode::Element(e)) => p.match_element(e),
            _ => false,
        };
        assert(halt == stops_at(self.stop, n@));
        let ghost before = self.levels@;
        match n {
            XMLNode::Element(e) => {
                if !halt {
                    self.levels.push((&e.children, 0));
                    proof {
                        assert(self.levels@.drop_last() == before);
                        lemma_nodes_model(e.children@);
                        assert(rest_of(&e.children, 0) =~= nodes_model(e.children@));
                        let whole = pre_order_of(n@, self.stop);
                        assert(whole == seq![n@] + pre_order_forest(nodes_model(e.children@), self.stop));
                        assert(whole.drop_first() =~= pre_order_forest(nodes_model(e.children@), self.stop));
                    }
                } else {
                    assert(pre_order_of(n@, self.stop).drop_first() =~= Seq::<NodeModel>::empty());
                }
            },
            _ => {
                assert(pre_order_of(n@, self.stop).drop_first() =~= Seq::<NodeModel>::empty());
            },
        }
        assert(pre_levels_pending(self.levels@, self.stop) =~= pre_order_of(n@, self.stop).drop_first()
            + pre_levels_pending(before, self.stop));
    }

    /// The next node of the walk, if any is left.
    pub fn next(&mut self) -> (r: Option<&'a XMLNode>)
        requires
            old(self).wf(),
        ensures
            final(self).wf(),
            r is None <==> old(self).pending().len() == 0,
            r is Some ==> old(self).pending().len() > 0 && r->0@ == old(self).pending()[0]
                && final(self).pending() == old(self).pending().drop_first(),
    {
        if let Some(n) = self.start {
            self.start = None;
            let ghost rest = pre_levels_pending(self.levels@, self.stop);
            self.enter(n);
            proof {
                let whole = pre_order_of(n@, self.stop);
                assert(whole[0] == n@);
                assert(old(self).pending() == whole + rest);
                assert(self.pending() =~= whole.drop_first() + rest);
                assert(self.pending() =~= old(self).pending().drop_first());
            }
            return Some(n);
        }
        assert(self.pending() =~= pre_levels_pending(self.levels@, self.stop));
        while self.levels.len() > 0
            invariant
                self.wf(),
                self.start is None,
                self.stop == old(self).stop,
                pre_levels_pending(self.levels@, self.stop) == old(self).pending(),
            decreases self.levels@.len(),
        {
            let ghost all = self.levels@;
            let (cs, i) = self.levels.pop().unwrap();
            let ghost below = self.levels@;
            assert(all[all.len() - 1] == (cs, i));
            assert(i <= cs@.len());
            proof {
                assert(old(self).pending() == pre_order_forest(rest_of(cs, i), self.stop) + pre_levels_pending(below, self.stop));
            }
            if i < cs.len() {
                let n = &cs[i];
                self.levels.push((cs, i + 1));
                proof {
                    lemma_nodes_model(cs@);
                    let r = rest_of(cs, i);
                    assert(r.len() > 0);
                    lemma_pre_order_forest_first(r, self.stop);
                    assert(r[0] == n@);
                    assert(r.drop_first() =~= rest_of(cs, (i + 1) as usize));
                    assert(self.levels@.drop_last() == below);
                }
                let ghost mid = pre_levels_pending(self.levels@, self.stop);
                self.enter(n);
                proof {
                    let whole = pre_order_of(n@, self.stop);
                    assert(whole[0] == n@);
                    assert(old(self).pending() =~= whole + mid);
                    assert(self.pending() =~= whole.drop_first() + mid);
                    assert(self.pending() =~= old(self).pending().drop_first());
                }
                return Some(n);
            }
            proof {
                lemma_nodes_model(cs@);
                assert(rest_of(cs, i) =~= Seq::<NodeModel>::empty());
                assert(pre_order_forest(rest_of(cs, i), self.stop) =~= Seq::<NodeModel>::empty());
                assert(pre_levels_pending(self.levels@, self.stop) =~= old(self).pending());
            }
        }
        assert(old(self).pending() =~= Seq::<NodeModel>::empty());
        None
    }
}

/// What the post-order levels `fr` have still to yield, the innermost level first: each level's
/// remaining children, then the element whose children they are.
pub open spec fn post_levels_pending<P: ElementPredicate>(fr: Seq<(&XMLNode, &Vec<XMLNode>, usize)>, stop: Option<P>) -> Seq<NodeModel>
    decreases fr.len(),
{
    if fr.len() == 0 {
        Seq::empty()
    } else {
        post_order_forest(rest_of(fr.last().1, fr.last().2), stop) + seq![fr.last().0@]
            + post_levels_pending(fr.drop_last(), stop)
    }
}

/// Each level has at least its own element still to yield.
proof fn lemma_post_levels_len<P: ElementPredicate>(fr: Seq<(&XMLNode, &Vec<XMLNode>, usize)>, stop: Option<P>)
    ensures
        post_levels_pending(fr, stop).len() >= fr.len(),
    decreases fr.len(),
{
    if fr.len() > 0 {
        lemma_post_levels_len(fr.drop_last(), stop);
    }
}

/// A lazy post-order walk: each node after its children; an element that the stop predicate
/// matches is yielded without its children.
pub struct PostOrderWalk<'a, P> {
    start: Option<&'a XMLNode>,
    levels: Vec<(&'a XMLNode, &'a Vec<XMLNode>, usize)>,
    stop: Option<P>,
}

impl<'a, P: ElementPredicate> PostOrderWalk<'a, P> {
    /// Every level's index is within its sibling list.
    pub closed spec fn wf(&self) -> bool {
        forall|j: int| 0 <= j < self.levels@.len() ==> (#[trigger] self.levels@[j]).2 <= self.levels@[j].1@.len()
    }

    /// The nodes that the walk has still to yield, in order.
    pub closed spec fn pending(&self) -> Seq<NodeModel> {
        let head = match self.start {
            Some(n) => post_order_of(n@, self.stop),
            None => Seq::empty(),
        };
        head + post_levels_pending(self.levels@, self.stop)
    }

    /// A walk over the tree under `root`.
    pub fn new(root: &'a XMLNode, stop: Option<P>) -> (r: Self)
        ensures
            r.wf(),
            r.pending() == post_order_of(root@, stop),
    {
        let r = PostOrderWalk { start: Some(root), levels: Vec::new(), stop };
        assert(r.pending() =~= post_order_of(root@, stop));
        r
    }

    /// Where `n` is an element at which the walk does not stop, opens a level for its children and
    /// returns true; else returns false, and `n` is next.
    fn descend(&mut self, n: &'a XMLNode) -> (r: bool)
        requires
            old(self).wf(),
        ensures
            final(self).wf(),
            final(self).start == old(self).start,
            final(self).stop == old(self).stop,
            r ==> final(self).levels@.len() == old(self).levels@.len() + 1,
            r ==> post_levels_pending(final(self).levels@, final(self).stop) == post_order_of(n@, old(self).stop)
                + post_levels_pending(old(self).levels@, old(self).stop),
            !r ==> final(self).levels@ == old(self).levels@,
            !r ==> post_order_of(n@, old(self).stop) == seq![n@],
    {
        let halt = match (&self.stop, n) {
            (Some(p), XMLNode::Element(e)) => p.match_element(e),
            _ => false,
        };
        assert(halt == stops_at(self.stop, n@));
        let ghost before = self.levels@;
        match n {
            XMLNode::Element(e) => {
                if !halt {
                    self.levels.push((n, &e.children, 0));
                    proof {
                        assert(self.levels@.drop_last() == before);
                        lemma_nodes_model(e.children@);
                        assert(rest_of(&e.children, 0) =~= nodes_model(e.children@));
                        assert(post_levels_pending(self.levels@, self.stop) =~= post_order_of(n@, self.stop)
                            + post_levels_pending(before, self.stop));
                    }
                    true
                } else {
                    false
                }
            },
            _ => false,
        }
    }

    /// The next node of the walk, if any is left.
    pub fn next(&mut self) -> (r: Option<&'a XMLNode>)
        requires
            old(self).wf(),
        ensures
            final(self).wf(),
            r is None <==> old(self).pending().len() == 0,
            r is Some ==> old(self).pending().len() > 0 && r->0@ == old(self).pending()[0]
                && final(self).pending() == old(self).pending().drop_first(),
    {
        let ghost total = self.pending();
        if let Some(n) = self.start {
            self.start = None;
            let ghost rest = post_levels_pending(self.levels@, self.stop);
            if !self.descend(n) {
                proof {
                    assert(total =~= seq![n@] + rest);
                    assert(self.pending() =~= rest);
                    assert(self.pending() =~= total.drop_first());
                }
                return Some(n);
            }
        }
        assert(self.pending() =~= post_levels_pending(self.levels@, self.stop));
        assert(self.pending() == total);
        while self.levels.len() > 0
            invariant
                self.wf(),
                self.start is None,
                self.stop == old(self).stop,
                total == old(self).pending(),
                post_levels_pending(self.levels@, self.stop) == total,
            decreases post_levels_pending(self.levels@, self.stop).len() - self.levels@.len(),
        {
            proof {
                lemma_post_levels_len(self.levels@, self.stop);
            }
            let ghost all = self.levels@;
            let (node, cs, i) = self.levels.pop().unwrap();
            let ghost below = self.levels@;
            assert(all[all.len() - 1] == (node, cs, i));
            assert(i <= cs@.len());
            assert(total == post_order_forest(rest_of(cs, i), self.stop) + seq![node@] + post_levels_pending(below, self.stop));
            if i < cs.len() {
                let child = &cs[i];
                self.levels.push((node, cs, i + 1));
                let ghost mid = post_levels_pending(self.levels@, self.stop);
                proof {
                    lemma_nodes_model(cs@);
                    let r = rest_of(cs, i);
                    lemma_post_order_forest_first(r, self.stop);
                    assert(r[0] == child@);
                    assert(r.drop_first() =~= rest_of(cs, (i + 1) as usize));
                    assert(self.levels@.drop_last() == below);
                    assert(total =~= post_order_of(child@, self.stop) + mid);
                }
                if !self.descend(child) {
                    proof {
                        assert(total =~= seq![child@] + mid);
                        assert(self.pending() =~= mid);
                        assert(self.pending() =~= total.drop_first());
                    }
                    return Some(child);
                }
                proof {
                    lemma_post_levels_len(self.levels@, self.stop);
                }
            } else {
                proof {
                    lemma_nodes_model(cs@);
                    assert(rest_of(cs, i) =~= Seq::<NodeModel>::empty());
                    assert(post_order_forest(rest_of(cs, i), self.stop) =~= Seq::<NodeModel>::empty());
                    assert(total =~= seq![node@] + post_levels_pending(below, self.stop));
                    assert(self.pending() =~= post_levels_pending(below, self.stop));
                    assert(self.pending() =~= total.drop_first());
                }
                return Some(node);
            }
        }
        assert(total =~= Seq::<NodeModel>::empty());
        None
    }
}

} // verus!

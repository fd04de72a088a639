//! Properties that relate several operations of the library.
use vstd::prelude::*;

use crate::attribute::{index_of, keys_unique, lemma_index_of, NameModel};
use crate::builder::{
    attach, attributes_from, has_element, insert_attribute, opened_element, run, step, Frames, Phase,
};
use crate::element::{
    attribute_matches, child_matches, first_attribute_match, first_child_match, no_child_matches, ElementModel,
    ElementPredicate, NodeModel,
};
use crate::event::EventModel;
use crate::namespace::essentially_empty;
use crate::writer::{children_events, document_events, element_events, element_name, node_events, written_scope};

verus! {

/// Building that starts from `p` and takes `events` in order.
pub open spec fn run_from(p: Phase, events: Seq<EventModel>) -> Phase
    decreases events.len(),
{
    if events.len() == 0 {
        p
    } else {
        step(run_from(p, events.drop_last()), events.last())
    }
}

/// Building from nothing placed is building from the initial frames.
proof fn lemma_run_is_run_from(events: Seq<EventModel>)
    ensures
        run(events) == run_from(Phase::Running(Frames { roots: Seq::empty(), open: Seq::empty() }), events),
    decreases events.len(),
{
    if events.len() > 0 {
        lemma_run_is_run_from(events.drop_last());
    }
}

/// Taking `a` then `b` is taking `a + b`.
proof fn lemma_run_from_concat(p: Phase, a: Seq<EventModel>, b: Seq<EventModel>)
    ensures
        run_from(p, a + b) == run_from(run_from(p, a), b),
    decreases b.len(),
{
    if b.len() == 0 {
        assert(a + b =~= a);
    } else {
        lemma_run_from_concat(p, a, b.drop_last());
        assert((a + b).drop_last() =~= a + b.drop_last());
        assert((a + b).last() == b.last());
    }
}

/// Taking one event.
proof fn lemma_run_from_one(p: Phase, e: EventModel)
    ensures
        run_from(p, seq![e]) == step(p, e),
{
    let s = seq![e];
    assert(s.drop_last() =~= Seq::<EventModel>::empty());
    assert(s.last() == e);
    assert(run_from(p, s.drop_last()) == p);
}

/// An element whose table, where it keeps one, holds more than default bindings, whose attribute
/// names are distinct, and whose child elements are the same: what the writer's events rebuild
/// exactly.
pub open spec fn rebuildable(e: ElementModel) -> bool
    decreases e,
{
    &&& (e.namespaces matches Some(m) ==> !essentially_empty(m))
    &&& keys_unique(e.attributes)
    &&& forall|i: int| 0 <= i < e.children.len() ==> (#[trigger] e.children[i] matches NodeModel::Element(c) ==> rebuildable(c))
}

/// Setting distinct names in order gives the same entries.
proof fn lemma_attributes_from_unique(s: Seq<(NameModel, Seq<char>)>)
    requires
        keys_unique(s),
    ensures
        attributes_from(s) == s,
    decreases s.len(),
{
    if s.len() > 0 {
        let d = s.drop_last();
        assert(keys_unique(d)) by {
            assert forall|i: int, j: int| 0 <= i < j < d.len() implies #[trigger] d[i].0 != #[trigger] d[j].0 by {
                assert(d[i] == s[i] && d[j] == s[j]);
            }
        }
        lemma_attributes_from_unique(d);
        lemma_index_of(d, s.last().0);
        assert forall|i: int| 0 <= i < d.len() implies d[i].0 != s.last().0 by {
            assert(d[i] == s[i]);
        }
        assert(index_of(d, s.last().0) == -1);
        assert(d.push(s.last()) =~= s);
    }
}

/// The events that write `e` place it, whole, where the frames `f` stand.
proof fn lemma_element_rebuilt(f: Frames, e: ElementModel)
    requires
        rebuildable(e),
    ensures
        run_from(Phase::Running(f), element_events(e)) == Phase::Running(attach(f, NodeModel::Element(e))),
    decreases e, 1int,
{
    let start = EventModel::StartElement(element_name(e), e.attributes, written_scope(e));
    let end = EventModel::EndElement(element_name(e));
    lemma_attributes_from_unique(e.attributes);
    let opened = opened_element(element_name(e), e.attributes, written_scope(e));
    let empty = ElementModel { children: Seq::empty(), ..e };
    assert(opened == empty) by {
        if e.namespaces is None {
            assert(essentially_empty(Map::<Seq<char>, Seq<char>>::empty()));
        }
    }
    let f1 = Frames { roots: f.roots, open: f.open.push(empty) };
    lemma_run_from_one(Phase::Running(f), start);
    assert(e.children.subrange(0, e.children.len() as int) =~= e.children);
    lemma_children_rebuilt(f, e, e.children);
    let f2 = Frames { roots: f.roots, open: f.open.push(e) };
    lemma_run_from_concat(Phase::Running(f), seq![start], children_events(e.children));
    lemma_run_from_concat(Phase::Running(f), seq![start] + children_events(e.children), seq![end]);
    lemma_run_from_one(Phase::Running(f2), end);
    assert(element_events(e) == seq![start] + children_events(e.children) + seq![end]);
    assert(f2.open.drop_last() =~= f.open);
    assert(f2.open.last() == e);
}

/// The events that write the children `cs`, a prefix of the children of `e`, fill them in below
/// `e` opened where the frames `f` stand.
proof fn lemma_children_rebuilt(f: Frames, e: ElementModel, cs: Seq<NodeModel>)
    requires
        rebuildable(e),
        cs.len() <= e.children.len(),
        cs == e.children.subrange(0, cs.len() as int),
    ensures
        run_from(Phase::Running(Frames { roots: f.roots, open: f.open.push(ElementModel { children: Seq::empty(), ..e }) }), children_events(cs))
            == Phase::Running(Frames { roots: f.roots, open: f.open.push(ElementModel { children: cs, ..e }) }),
    decreases e, 0int, cs.len(),
{
    let f1 = Frames { roots: f.roots, open: f.open.push(ElementModel { children: Seq::empty(), ..e }) };
    if cs.len() == 0 {
        assert(cs =~= Seq::<NodeModel>::empty());
    } else {
        let d = cs.drop_last();
        let n = cs.last();
        assert(d == e.children.subrange(0, d.len() as int));
        lemma_children_rebuilt(f, e, d);
        let fd = Frames { roots: f.roots, open: f.open.push(ElementModel { children: d, ..e }) };
        lemma_run_from_concat(Phase::Running(f1), children_events(d), node_events(n));
        assert(n == e.children[cs.len() - 1]);
        assert(attach(fd, n) == Frames { roots: f.roots, open: f.open.push(ElementModel { children: cs, ..e }) }) by {
            assert(fd.open.drop_last() =~= f.open);
            assert(d.push(n) =~= cs);
        }
        match n {
            NodeModel::Element(c) => {
                assert(decreases_to!(e => e.children));
                assert(decreases_to!(e.children => e.children[cs.len() - 1]));
                lemma_element_rebuilt(fd, c);
            },
            NodeModel::Comment(s) => lemma_run_from_one(Phase::Running(fd), EventModel::Comment(s)),
            NodeModel::CData(s) => lemma_run_from_one(Phase::Running(fd), EventModel::CData(s)),
            NodeModel::Text(s) => lemma_run_from_one(Phase::Running(fd), EventModel::Characters(s)),
            NodeModel::ProcessingInstruction(t, x) => lemma_run_from_one(
                Phase::Running(fd),
                EventModel::ProcessingInstruction(t, x),
            ),
        }
    }
}

/// Building the tree from the events that write an element as a document, followed by the end of
/// the document, gives back that element as the only top-level node.
pub proof fn lemma_write_then_build(e: ElementModel, declaration: bool)
    requires
        rebuildable(e),
    ensures
        run(document_events(e, declaration).push(EventModel::EndDocument)) == Phase::Finished(seq![NodeModel::Element(e)]),
{
    let init = Phase::Running(Frames { roots: Seq::empty(), open: Seq::empty() });
    let evs = document_events(e, declaration);
    lemma_run_is_run_from(evs.push(EventModel::EndDocument));
    assert(evs.push(EventModel::EndDocument) == evs + seq![EventModel::EndDocument]);
    lemma_run_from_concat(init, evs, seq![EventModel::EndDocument]);
    if declaration {
        lemma_run_from_concat(init, seq![EventModel::StartDocument], element_events(e));
        lemma_run_from_one(init, EventModel::StartDocument);
    }
    lemma_element_rebuilt(Frames { roots: Seq::empty(), open: Seq::empty() }, e);
    let done = attach(Frames { roots: Seq::empty(), open: Seq::empty() }, NodeModel::Element(e));
    assert(done.roots =~= seq![NodeModel::Element(e)]);
    assert(has_element(done.roots)) by {
        assert(done.roots[0] is Element);
    }
    lemma_run_from_one(Phase::Running(done), EventModel::EndDocument);
}

/// Without a start tag there is never a root element: building never finishes.
pub proof fn lemma_no_root_refused(events: Seq<EventModel>)
    requires
        forall|i: int| 0 <= i < events.len() ==> !(#[trigger] events[i] is StartElement),
    ensures
        !(run(events) is Finished),
        run(events) matches Phase::Running(f) ==> f.open.len() == 0 && !has_element(f.roots),
    decreases events.len(),
{
    if events.len() > 0 {
        let d = events.drop_last();
        assert forall|i: int| 0 <= i < d.len() implies !(#[trigger] d[i] is StartElement) by {
            assert(d[i] == events[i]);
        }
        lemma_no_root_refused(d);
        assert(!(events.last() is StartElement)) by {
            assert(events.last() == events[events.len() - 1]);
        }
        if let Phase::Running(f) = run(d) {
            assert forall|n: NodeModel| !(n is Element) implies !has_element(#[trigger] f.roots.push(n)) by {
                if has_element(f.roots.push(n)) {
                    let i = choose|i: int| 0 <= i < f.roots.push(n).len() && (#[trigger] f.roots.push(n)[i]) is Element;
                    if i < f.roots.len() {
                        assert(f.roots[i] is Element);
                    }
                }
            }
        }
    }
}

/// After the only child that `k` matches is taken, no child matches `k`: taking again finds
/// nothing.
pub proof fn lemma_take_child_then_absent<P: ElementPredicate>(children: Seq<NodeModel>, k: P, i: int)
    requires
        first_child_match(children, k, i),
        forall|j: int| 0 <= j < children.len() && j != i ==> !#[trigger] child_matches(children, k, j),
    ensures
        no_child_matches(children.remove(i), k),
{
    let rest = children.remove(i);
    assert forall|j: int| 0 <= j < rest.len() implies !#[trigger] child_matches(rest, k, j) by {
        if j < i {
            assert(rest[j] == children[j]);
            assert(!child_matches(children, k, j));
        } else {
            assert(rest[j] == children[j + 1]);
            assert(!child_matches(children, k, j + 1));
        }
    }
}

/// Where index `i` moves to once index `removed` is taken out.
pub open spec fn shifted(removed: int, i: int) -> int {
    if i < removed {
        i
    } else {
        i - 1
    }
}

/// No attribute of `s` has local name `l`.
pub open spec fn no_attribute_named(s: Seq<(NameModel, Seq<char>)>, l: Seq<char>) -> bool {
    forall|j: int| 0 <= j < s.len() ==> (#[trigger] s[j]).0.local_name != l
}

/// Where exactly two attributes have local name `l`, in different namespaces, each is found by
/// its pair of name and namespace, and once both are taken no attribute named `l` is left in any
/// namespace.
pub proof fn lemma_take_both_namespaced<'a, 'b>(
    attrs: Seq<(NameModel, Seq<char>)>,
    ka: (&'a str, Option<&'b str>),
    kb: (&'a str, Option<&'b str>),
    ia: int,
    ib: int,
)
    requires
        0 <= ia < attrs.len(),
        0 <= ib < attrs.len(),
        ia != ib,
        ka.0@ == kb.0@,
        attribute_matches(attrs, ka, ia),
        attribute_matches(attrs, kb, ib),
        attrs[ia].0.namespace != attrs[ib].0.namespace,
        forall|j: int| 0 <= j < attrs.len() && j != ia && j != ib ==> (#[trigger] attrs[j]).0.local_name != ka.0@,
    ensures
        first_attribute_match(attrs, ka, ia),
        first_attribute_match(attrs.remove(ia), kb, shifted(ia, ib)),
        no_attribute_named(attrs.remove(ia).remove(shifted(ia, ib)), ka.0@),
{
    let jb = shifted(ia, ib);
    let rest = attrs.remove(ia);
    let last = rest.remove(jb);
    assert forall|j: int| 0 <= j < ia implies !#[trigger] attribute_matches(attrs, ka, j) by {
        if j == ib {
            assert(attrs[ib].0.namespace != attrs[ia].0.namespace);
        }
    }
    assert(rest[jb] == attrs[ib]);
    assert forall|j: int| 0 <= j < jb implies !#[trigger] attribute_matches(rest, kb, j) by {
        if j < ia {
            assert(rest[j] == attrs[j]);
        } else {
            assert(rest[j] == attrs[j + 1]);
        }
    }
    assert forall|j: int| 0 <= j < last.len() implies (#[trigger] last[j]).0.local_name != ka.0@ by {
        let k = if j < jb { j } else { j + 1 };
        assert(last[j] == rest[k]);
        if k < ia {
            assert(rest[k] == attrs[k]);
            assert(k != ia);
            assert(k != ib);
        } else {
            assert(rest[k] == attrs[k + 1]);
            assert(k + 1 != ia);
            assert(k + 1 != ib);
        }
    }
}

/// Setting pairs in order never gives two entries the same name.
proof fn lemma_attributes_from_is_unique(s: Seq<(NameModel, Seq<char>)>)
    ensures
        keys_unique(attributes_from(s)),
    decreases s.len(),
{
    if s.len() > 0 {
        let m = attributes_from(s.drop_last());
        let (k, v) = s.last();
        lemma_attributes_from_is_unique(s.drop_last());
        lemma_index_of(m, k);
        let r = insert_attribute(m, k, v);
        assert forall|a: int, b: int| 0 <= a < b < r.len() implies #[trigger] r[a].0 != #[trigger] r[b].0 by {
            if index_of(m, k) >= 0 {
                assert(r[a].0 == m[a].0);
                assert(r[b].0 == m[b].0);
            } else if b == m.len() {
                assert(r[a] == m[a]);
            } else {
                assert(r[a] == m[a] && r[b] == m[b]);
            }
        }
    }
}

/// Every element among `ns` is rebuildable.
pub open spec fn all_rebuildable(ns: Seq<NodeModel>) -> bool {
    forall|i: int| 0 <= i < ns.len() ==> (#[trigger] ns[i] matches NodeModel::Element(e) ==> rebuildable(e))
}

/// Every element placed so far, finished or still open, is rebuildable.
pub open spec fn frames_rebuildable(f: Frames) -> bool {
    &&& all_rebuildable(f.roots)
    &&& forall|i: int| 0 <= i < f.open.len() ==> rebuildable(#[trigger] f.open[i])
}

/// Adding a node that is rebuildable, where it is an element, keeps every placed element
/// rebuildable.
proof fn lemma_attach_rebuildable(f: Frames, n: NodeModel)
    requires
        frames_rebuildable(f),
        n matches NodeModel::Element(e) ==> rebuildable(e),
    ensures
        frames_rebuildable(attach(f, n)),
{
    let g = attach(f, n);
    if f.open.len() == 0 {
        assert forall|i: int| 0 <= i < g.roots.len() implies (#[trigger] g.roots[i] matches NodeModel::Element(e) ==> rebuildable(e)) by {
            if i < f.roots.len() {
                assert(g.roots[i] == f.roots[i]);
            }
        }
    } else {
        let top = f.open.last();
        let new_top = ElementModel { children: top.children.push(n), ..top };
        assert(rebuildable(top));
        assert(rebuildable(new_top)) by {
            assert forall|i: int| 0 <= i < new_top.children.len() implies (#[trigger] new_top.children[i] matches NodeModel::Element(c) ==> rebuildable(c)) by {
                if i < top.children.len() {
                    assert(new_top.children[i] == top.children[i]);
                }
            }
        }
        assert forall|i: int| 0 <= i < g.open.len() implies rebuildable(#[trigger] g.open[i]) by {
            if i < f.open.len() - 1 {
                assert(g.open[i] == f.open[i]);
            }
        }
    }
}

/// Building keeps every placed element rebuildable, and so every element it finishes with.
pub proof fn lemma_run_rebuildable(events: Seq<EventModel>)
    ensures
        run(events) matches Phase::Running(f) ==> frames_rebuildable(f),
        run(events) matches Phase::Finished(ns) ==> all_rebuildable(ns),
    decreases events.len(),
{
    if events.len() > 0 {
        let d = events.drop_last();
        lemma_run_rebuildable(d);
        if let Phase::Running(f) = run(d) {
            match events.last() {
                EventModel::StartElement(n, a, ns) => {
                    let e = opened_element(n, a, ns);
                    lemma_attributes_from_is_unique(a);
                    assert(rebuildable(e));
                    let g = Frames { roots: f.roots, open: f.open.push(e) };
                    assert forall|i: int| 0 <= i < g.open.len() implies rebuildable(#[trigger] g.open[i]) by {
                        if i < f.open.len() {
                            assert(g.open[i] == f.open[i]);
                        }
                    }
                },
                EventModel::EndElement(n) => {
                    if f.open.len() > 0 {
                        let below = Frames { roots: f.roots, open: f.open.drop_last() };
                        assert(rebuildable(f.open[f.open.len() - 1]));
                        assert forall|i: int| 0 <= i < below.open.len() implies rebuildable(#[trigger] below.open[i]) by {
                            assert(below.open[i] == f.open[i]);
                        }
                        lemma_attach_rebuildable(below, NodeModel::Element(f.open.last()));
                    }
                },
                EventModel::Characters(t) => lemma_attach_rebuildable(f, NodeModel::Text(t)),
                EventModel::Comment(t) => lemma_attach_rebuildable(f, NodeModel::Comment(t)),
                EventModel::CData(t) => lemma_attach_rebuildable(f, NodeModel::CData(t)),
                EventModel::ProcessingInstruction(t, x) => lemma_attach_rebuildable(
                    f,
                    NodeModel::ProcessingInstruction(t, x),
                ),
                _ => {},
            }
        }
    }
}

/// Every element that building finishes with, written as a document and built again, comes back
/// the same, as the only top-level node.
pub proof fn lemma_built_elements_rebuild(events: Seq<EventModel>, i: int, declaration: bool)
    requires
        run(events) is Finished,
        0 <= i < run(events)->Finished_0.len(),
        run(events)->Finished_0[i] is Element,
    ensures
        run(document_events(run(events)->Finished_0[i]->Element_0, declaration).push(EventModel::EndDocument))
            == Phase::Finished(seq![run(events)->Finished_0[i]]),
{
    lemma_run_rebuildable(events);
    let ns = run(events)->Finished_0;
    assert(ns[i] matches NodeModel::Element(e) ==> rebuildable(e));
    lemma_write_then_build(ns[i]->Element_0, declaration);
}

} // verus!

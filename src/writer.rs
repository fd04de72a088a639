//! Writing the tree as a sequence of events, and as text through the xml-rs writer.
use vstd::prelude::*;

use crate::attribute::{opt_str_clone, AttributeName, NameModel};
use crate::element::{lemma_nodes_model, Element, ElementModel, NodeModel, XMLNode};
use crate::event::{events_model, pairs_model, write_events, xml_writing, EmitterConfig, Event, EventModel, QualifiedName};
use crate::namespace::Namespace;

verus! {

/// The qualified name of an element.
pub open spec fn element_name(e: ElementModel) -> NameModel {
    NameModel { local_name: e.name, namespace: e.namespace, prefix: e.prefix }
}

/// The namespace table written with an element: its own, or an empty one.
pub open spec fn written_scope(e: ElementModel) -> Map<Seq<char>, Seq<char>> {
    match e.namespaces {
        Some(m) => m,
        None => Map::empty(),
    }
}

/// The events that write an element: its start tag, its children's events in order, its end tag.
pub open spec fn element_events(e: ElementModel) -> Seq<EventModel>
    decreases e,
{
    seq![EventModel::StartElement(element_name(e), e.attributes, written_scope(e))] + children_events(
        e.children,
    ) + seq![EventModel::EndElement(element_name(e))]
}

/// The events that write a sequence of nodes, one after another.
pub open spec fn children_events(cs: Seq<NodeModel>) -> Seq<EventModel>
    decreases cs,
{
    if cs.len() == 0 {
        Seq::empty()
    } else {
        children_events(cs.drop_last()) + node_events(cs.last())
    }
}

/// The events that write one node.
pub open spec fn node_events(n: NodeModel) -> Seq<EventModel>
    decreases n,
{
    match n {
        NodeModel::Element(e) => element_events(e),
        NodeModel::Comment(s) => seq![EventModel::Comment(s)],
        NodeModel::CData(s) => seq![EventModel::CData(s)],
        NodeModel::Text(s) => seq![EventModel::Characters(s)],
        NodeModel::ProcessingInstruction(t, d) => seq![EventModel::ProcessingInstruction(t, d)],
    }
}

/// The events that write a document whose root is `e`, with a declaration first where asked.
pub open spec fn document_events(e: ElementModel, declaration: bool) -> Seq<EventModel> {
    if declaration {
        seq![EventModel::StartDocument] + element_events(e)
    } else {
        element_events(e)
    }
}

/// The qualified name of `e`, copied.
fn qualified_name(e: &Element) -> (r: QualifiedName)
    ensures
        r@ == element_name(e@),
{
    QualifiedName { local_name: e.name.clone(), namespace: opt_str_clone(&e.namespace), prefix: opt_str_clone(&e.prefix) }
}

/// The attributes of `e` as pairs, copied, in order.
fn attribute_pairs(e: &Element) -> (r: Vec<(AttributeName, String)>)
    ensures
        pairs_model(r@) == e@.attributes,
{
    let entries = e.attributes.entries();
    let mut r: Vec<(AttributeName, String)> = Vec::new();
    let mut i: usize = 0;
    while i < entries.len()
        invariant
            i <= entries@.len(),
            entries@.len() == e@.attributes.len(),
            forall|j: int| 0 <= j < entries@.len() ==> (#[trigger] entries@[j]).0@ == e@.attributes[j].0 && entries@[j].1@ == e@.attributes[j].1,
            pairs_model(r@) == e@.attributes.subrange(0, i as int),
        decreases entries@.len() - i,
    {
        let k = entries[i].0.clone();
        let v = entries[i].1.clone();
        let ghost prev = r@;
        r.push((k, v));
        assert(pairs_model(r@) =~= pairs_model(prev).push(e@.attributes[i as int]));
        assert(pairs_model(r@) =~= e@.attributes.subrange(0, i + 1));
        i = i + 1;
    }
    assert(e@.attributes.subrange(0, i as int) =~= e@.attributes);
    r
}

/// Appends the events that write `e` to `out`.
fn push_element_events(e: &Element, out: &mut Vec<Event>)
    ensures
        events_model(final(out)@) == events_model(old(out)@) + element_events(e@),
    decreases e,
{
    let ghost start = events_model(out@);
    let scope = match &e.namespaces {
        Some(ns) => ns.clone(),
        None => Namespace::empty(),
    };
    let ev = Event::StartElement { name: qualified_name(e), attributes: attribute_pairs(e), namespace: scope };
    let ghost prev = out@;
    out.push(ev);
    proof {
        assert(events_model(out@) =~= events_model(prev).push(ev@));
        lemma_nodes_model(e.children@);
    }
    let ghost cs = e@.children;
    let ghost head = events_model(out@);
    assert(cs.subrange(0, 0) =~= Seq::<NodeModel>::empty());
    assert(head + children_events(cs.subrange(0, 0)) =~= head);
    let mut i: usize = 0;
    while i < e.children.len()
        invariant
            i <= e.children@.len(),
            cs == e@.children,
            cs.len() == e.children@.len(),
            forall|j: int| 0 <= j < e.children@.len() ==> #[trigger] cs[j] == e.children@[j]@,
            events_model(out@) == head + children_events(cs.subrange(0, i as int)),
        decreases e.children@.len() - i,
    {
        let ghost before = events_model(out@);
        assert(cs.subrange(0, i + 1).drop_last() == cs.subrange(0, i as int));
        assert(cs.subrange(0, i + 1).last() == e.children@[i as int]@);
        match &e.children[i] {
            XMLNode::Element(c) => {
                assert(decreases_to!(e => e.children@[i as int]));
                push_element_events(c, out);
            },
            XMLNode::Text(s) => {
                let ghost p = out@;
                out.push(Event::Characters(s.clone()));
                assert(events_model(out@) =~= events_model(p) + seq![EventModel::Characters(s@)]);
            },
            XMLNode::Comment(s) => {
                let ghost p = out@;
                out.push(Event::Comment(s.clone()));
                assert(events_model(out@) =~= events_model(p) + seq![EventModel::Comment(s@)]);
            },
            XMLNode::CData(s) => {
                let ghost p = out@;
                out.push(Event::CData(s.clone()));
                assert(events_model(out@) =~= events_model(p) + seq![EventModel::CData(s@)]);
            },
            XMLNode::ProcessingInstruction(t, d) => {
                let ghost p = out@;
                out.push(Event::ProcessingInstruction { name: t.clone(), data: opt_str_clone(d) });
                assert(events_model(out@) =~= events_model(p) + seq![EventModel::ProcessingInstruction(t@, d.deep_view())]);
            },
        }
        assert(events_model(out@) == before + node_events(cs[i as int]));
        assert(children_events(cs.subrange(0, i + 1)) == children_events(cs.subrange(0, i as int)) + node_events(cs[i as int]));
        assert(events_model(out@) =~= head + children_events(cs.subrange(0, i + 1)));
        i = i + 1;
    }
    assert(cs.subrange(0, i as int) =~= cs);
    let ghost p = out@;
    out.push(Event::EndElement { name: qualified_name(e) });
    assert(events_model(out@) =~= events_model(p).push(EventModel::EndElement(element_name(e@))));
    assert(events_model(out@) =~= start + element_events(e@));
}

impl Element {
    /// The events that write a document whose root is this element, with a declaration first where
    /// `declaration` asks for one.
    pub fn to_events(&self, declaration: bool) -> (r: Vec<Event>)
        ensures
            events_model(r@) == document_events(self@, declaration),
    {
        let mut out: Vec<Event> = Vec::new();
        if declaration {
            out.push(Event::StartDocument);
        }
        let ghost start = events_model(out@);
        assert(start =~= (if declaration { seq![EventModel::StartDocument] } else { Seq::<EventModel>::empty() }));
        push_element_events(self, &mut out);
        assert(events_model(out@) =~= document_events(self@, declaration));
        out
    }

    /// Appends to `out` this element written as a document under the writer's defaults.
    pub fn write(&self, out: &mut Vec<u8>) -> (r: Result<(), xml::writer::Error>)
        ensures
            r is Ok <==> xml_writing(document_events(self@, true), EmitterConfig::spec_default()) is Some,
            r is Ok ==> final(out)@ == old(out)@ + xml_writing(document_events(self@, true), EmitterConfig::spec_default())->0,
            r is Err ==> final(out)@ == old(out)@,
    {
        self.write_with_config(out, EmitterConfig::new())
    }

    /// Appends to `out` this element written as a document under `config`: a declaration first
    /// where `config` asks for one.
    pub fn write_with_config(&self, out: &mut Vec<u8>, config: EmitterConfig) -> (r: Result<(), xml::writer::Error>)
        ensures
            r is Ok <==> xml_writing(document_events(self@, config.write_document_declaration), config) is Some,
            r is Ok ==> final(out)@ == old(out)@ + xml_writing(document_events(self@, config.write_document_declaration), config)->0,
            r is Err ==> final(out)@ == old(out)@,
    {
        let events = self.to_events(config.write_document_declaration);
        match write_events(events, config) {
            Ok(bytes) => {
                let mut bytes = bytes;
                out.append(&mut bytes);
                Ok(())
            },
            Err(e) => Err(e),
        }
    }
}

} // verus!

//! Building the tree from a sequence of events, and parsing text through the xml-rs reader.
use vstd::prelude::*;

use crate::attribute::{index_of, str_eq, AttributeMap, AttributeName, NameModel};
use crate::element::{lemma_nodes_model, nodes_model, node_model, Element, ElementModel, NodeModel, XMLNode};
use crate::event::{events_model, pairs_model, read_events, xml_reading, Event, EventModel, ParserConfig, QualifiedName};
use crate::namespace::{essentially_empty, Namespace};

verus! {

/// Why a document could not be turned into a tree.
#[derive(Debug)]
pub enum ParseError {
    /// The reader found the text malformed.
    MalformedXml(xml::reader::Error),
    /// The events do not form a tree: an end tag that closes another element, a document event
    /// inside an element, an early end, or no root element.
    CannotParse,
}

/// The nodes placed so far: those at the top level, and the elements still open, outermost first.
pub struct Frames {
    pub roots: Seq<NodeModel>,
    pub open: Seq<ElementModel>,
}

/// Where building stands.
pub enum Phase {
    /// Events are still awaited.
    Running(Frames),
    /// The document ended, with these top-level nodes.
    Finished(Seq<NodeModel>),
    /// An event came that has no place in the tree.
    Unplaced,
}

/// `n` added as the last child of the innermost open element, or at the top level where none is
/// open.
pub open spec fn attach(f: Frames, n: NodeModel) -> Frames {
    if f.open.len() == 0 {
        Frames { roots: f.roots.push(n), open: f.open }
    } else {
        let top = f.open.last();
        Frames {
            roots: f.roots,
            open: f.open.drop_last().push(ElementModel { children: top.children.push(n), ..top }),
        }
    }
}

/// Sets attribute `k` to `v`: in place where `k` is there, else at the end.
pub open spec fn insert_attribute(m: Seq<(NameModel, Seq<char>)>, k: NameModel, v: Seq<char>) -> Seq<(NameModel, Seq<char>)> {
    if index_of(m, k) >= 0 {
        m.update(index_of(m, k), (k, v))
    } else {
        m.push((k, v))
    }
}

/// The attributes that result from setting each pair of `s` in order.
pub open spec fn attributes_from(s: Seq<(NameModel, Seq<char>)>) -> Seq<(NameModel, Seq<char>)>
    decreases s.len(),
{
    if s.len() == 0 {
        Seq::empty()
    } else {
        insert_attribute(attributes_from(s.drop_last()), s.last().0, s.last().1)
    }
}

/// The element that a start tag opens.
pub open spec fn opened_element(name: NameModel, attrs: Seq<(NameModel, Seq<char>)>, ns: Map<Seq<char>, Seq<char>>) -> ElementModel {
    ElementModel {
        prefix: name.prefix,
        namespace: name.namespace,
        namespaces: if essentially_empty(ns) { None } else { Some(ns) },
        name: name.local_name,
        attributes: attributes_from(attrs),
        children: Seq::empty(),
    }
}

/// Some node of `s` is an element.
pub open spec fn has_element(s: Seq<NodeModel>) -> bool {
    exists|i: int| 0 <= i < s.len() && (#[trigger] s[i]) is Element
}

/// Where building stands after event `e`.
pub open spec fn step(p: Phase, e: EventModel) -> Phase {
    match p {
        Phase::Running(f) => match e {
            EventModel::StartElement(n, a, ns) => Phase::Running(
                Frames { roots: f.roots, open: f.open.push(opened_element(n, a, ns)) },
            ),
            EventModel::EndElement(n) => if f.open.len() == 0 {
                Phase::Running(f)
            } else if n.local_name == f.open.last().name {
                Phase::Running(
                    attach(Frames { roots: f.roots, open: f.open.drop_last() }, NodeModel::Element(f.open.last())),
                )
            } else {
                Phase::Unplaced
            },
            EventModel::Characters(s) => Phase::Running(attach(f, NodeModel::Text(s))),
            EventModel::Whitespace(_) => Phase::Running(f),
            EventModel::Comment(s) => Phase::Running(attach(f, NodeModel::Comment(s))),
            EventModel::CData(s) => Phase::Running(attach(f, NodeModel::CData(s))),
            EventModel::ProcessingInstruction(t, d) => Phase::Running(
                attach(f, NodeModel::ProcessingInstruction(t, d)),
            ),
            EventModel::StartDocument => if f.open.len() == 0 {
                Phase::Running(f)
            } else {
                Phase::Unplaced
            },
            EventModel::EndDocument => if f.open.len() == 0 && has_element(f.roots) {
                Phase::Finished(f.roots)
            } else {
                Phase::Unplaced
            },
        },
        _ => p,
    }
}

/// Where building stands after `events`, from nothing placed.
pub open spec fn run(events: Seq<EventModel>) -> Phase
    decreases events.len(),
{
    if events.len() == 0 {
        Phase::Running(Frames { roots: Seq::empty(), open: Seq::empty() })
    } else {
        step(run(events.drop_last()), events.last())
    }
}

/// The models of a sequence of elements.
pub open spec fn elements_model(s: Seq<Element>) -> Seq<ElementModel> {
    s.map_values(|e: Element| e@)
}

/// The frames that top-level nodes and open elements stand for.
pub open spec fn frames_of(roots: Seq<XMLNode>, open: Seq<Element>) -> Frames {
    Frames { roots: nodes_model(roots), open: elements_model(open) }
}

/// Once building has stopped, later events change nothing.
pub proof fn lemma_run_stops(events: Seq<EventModel>, i: int)
    requires
        0 <= i <= events.len(),
        !(run(events.subrange(0, i)) is Running),
    ensures
        run(events) == run(events.subrange(0, i)),
    decreases events.len() - i,
{
    if i < events.len() {
        assert(events.subrange(0, i + 1).drop_last() == events.subrange(0, i));
        assert(run(events.subrange(0, i + 1)) == run(events.subrange(0, i)));
        lemma_run_stops(events, i + 1);
    } else {
        assert(events.subrange(0, i) == events);
    }
}

/// The items of `v` in reverse order.
fn reversed<T>(v: Vec<T>) -> (r: Vec<T>)
    ensures
        r@.len() == v@.len(),
        forall|j: int| 0 <= j < v@.len() ==> #[trigger] r@[j] == v@[v@.len() - 1 - j],
{
    let ghost orig = v@;
    let mut v = v;
    let mut r: Vec<T> = Vec::new();
    while v.len() > 0
        invariant
            v@ == orig.subrange(0, v@.len() as int),
            r@.len() + v@.len() == orig.len(),
            forall|j: int| 0 <= j < r@.len() ==> #[trigger] r@[j] == orig[orig.len() - 1 - j],
        decreases v@.len(),
    {
        let x = v.pop().unwrap();
        r.push(x);
    }
    r
}

/// Adds `node` as the last child of the innermost open element, or at the top level where none is
/// open.
fn attach_node(roots: &mut Vec<XMLNode>, open: &mut Vec<Element>, node: XMLNode)
    ensures
        frames_of(final(roots)@, final(open)@) == attach(frames_of(old(roots)@, old(open)@), node@),
{
    let ghost f = frames_of(roots@, open@);
    let ghost n = node@;
    match open.pop() {
        None => {
            roots.push(node);
            proof {
                assert(roots@.drop_last() == old(roots)@);
                assert(elements_model(open@) =~= Seq::<ElementModel>::empty());
            }
        },
        Some(top) => {
            let ghost top_model = top@;
            let mut top = top;
            let ghost kids = top.children@;
            top.children.push(node);
            proof {
                assert(top.children@.drop_last() == kids);
                assert(top@ == ElementModel { children: top_model.children.push(n), ..top_model });
            }
            open.push(top);
            proof {
                assert(elements_model(open@) =~= f.open.drop_last().push(top@));
            }
        },
    }
}

/// The element that a start tag opens: its name split out, its attributes set in order, and its
/// namespace table kept where it holds more than default bindings.
fn open_element(name: QualifiedName, attributes: Vec<(AttributeName, String)>, namespace: Namespace) -> (r: Element)
    ensures
        r@ == opened_element(name@, pairs_model(attributes@), namespace@),
{
    let ghost pairs = pairs_model(attributes@);
    let mut rest = reversed(attributes);
    let mut map = AttributeMap::new();
    let ghost n = pairs.len();
    while rest.len() > 0
        invariant
            rest@.len() <= n,
            n == pairs.len(),
            forall|j: int| 0 <= j < rest@.len() ==> (#[trigger] rest@[j]).0@ == pairs[n - 1 - j].0 && rest@[j].1@ == pairs[n - 1 - j].1,
            map@ == attributes_from(pairs.subrange(0, n - rest@.len())),
        decreases rest@.len(),
    {
        let ghost done = n - rest@.len();
        let pair = rest.pop().unwrap();
        let ghost k = pair.0@;
        let ghost v = pair.1@;
        map.insert(pair.0, pair.1);
        proof {
            let s = pairs.subrange(0, done + 1);
            assert(s.drop_last() == pairs.subrange(0, done));
            assert(s.last() == (k, v));
        }
    }
    assert(pairs.subrange(0, n as int) == pairs);
    let namespaces = if namespace.is_essentially_empty() {
        None
    } else {
        Some(namespace)
    };
    let r = Element {
        prefix: name.prefix,
        namespace: name.namespace,
        namespaces,
        name: name.local_name,
        attributes: map,
        children: Vec::new(),
    };
    proof {
        lemma_nodes_model(r.children@);
        assert(r@.children =~= Seq::<NodeModel>::empty());
    }
    r
}

/// Whether some node of `nodes` is an element.
fn has_root_element(nodes: &Vec<XMLNode>) -> (r: bool)
    ensures
        r == has_element(nodes_model(nodes@)),
{
    proof {
        lemma_nodes_model(nodes@);
    }
    let mut i: usize = 0;
    while i < nodes.len()
        invariant
            i <= nodes@.len(),
            nodes_model(nodes@).len() == nodes@.len(),
            forall|j: int| 0 <= j < nodes@.len() ==> #[trigger] nodes_model(nodes@)[j] == node_model(nodes@[j]),
            forall|j: int| 0 <= j < i ==> !(#[trigger] nodes_model(nodes@)[j] is Element),
        decreases nodes@.len() - i,
    {
        if let XMLNode::Element(_) = &nodes[i] {
            assert(nodes_model(nodes@)[i as int] is Element);
            return true;
        }
        i = i + 1;
    }
    false
}

/// Builds the top-level nodes that `events` describe. Where the events stop before the document
/// ends, `failure` is the reader's error that stopped them, if there was one.
pub fn build_nodes(events: Vec<Event>, failure: Option<xml::reader::Error>) -> (r: Result<Vec<XMLNode>, ParseError>)
    ensures
        run(events_model(events@)) matches Phase::Finished(ns) ==> (r matches Ok(v) && nodes_model(v@) == ns),
        run(events_model(events@)) is Unplaced ==> r matches Err(ParseError::CannotParse),
        run(events_model(events@)) is Running && failure is Some ==> r == Err::<Vec<XMLNode>, ParseError>(
            ParseError::MalformedXml(failure->0),
        ),
        run(events_model(events@)) is Running && failure is None ==> r matches Err(ParseError::CannotParse),
{
    let ghost em = events_model(events@);
    let ghost total = events@.len() as int;
    let mut rest = reversed(events);
    let mut roots: Vec<XMLNode> = Vec::new();
    let mut open: Vec<Element> = Vec::new();
    proof {
        assert(em.subrange(0, 0) == Seq::<EventModel>::empty());
        assert(frames_of(roots@, open@) == (Frames { roots: Seq::empty(), open: Seq::empty() })) by {
            assert(nodes_model(roots@) =~= Seq::<NodeModel>::empty());
            assert(elements_model(open@) =~= Seq::<ElementModel>::empty());
        }
    }
    while rest.len() > 0
        invariant
            rest@.len() <= total,
            total == em.len(),
            em == events_model(events@),
            forall|j: int| 0 <= j < rest@.len() ==> (#[trigger] rest@[j])@ == em[total - 1 - j],
            run(em.subrange(0, total - rest@.len())) == Phase::Running(frames_of(roots@, open@)),
        decreases rest@.len(),
    {
        let ghost i = total - rest@.len();
        let ghost f = frames_of(roots@, open@);
        let ev = rest.pop().unwrap();
        proof {
            assert(em.subrange(0, i + 1).drop_last() == em.subrange(0, i));
            assert(em.subrange(0, i + 1).last() == ev@);
        }
        match ev {
            Event::StartElement { name, attributes, namespace } => {
                let e = open_element(name, attributes, namespace);
                open.push(e);
                proof {
                    assert(elements_model(open@) =~= f.open.push(e@));
                }
            },
            Event::EndElement { name } => {
                let ghost open_before = open@;
                match open.pop() {
                    None => {},
                    Some(top) => {
                        proof {
                            assert(elements_model(open@) =~= f.open.drop_last());
                            assert(top@ == f.open.last());
                        }
                        if str_eq(name.local_name.as_str(), top.name.as_str()) {
                            attach_node(&mut roots, &mut open, XMLNode::Element(top));
                        } else {
                            proof {
                                assert(em[i] == EventModel::EndElement(name@));
                                assert(name@.local_name != f.open.last().name);
                                assert(run(em.subrange(0, i + 1)) == Phase::Unplaced);
                                lemma_run_stops(em, i + 1);

                            }
                            return Err(ParseError::CannotParse);
                        }
                    },
                }
            },
            Event::Characters(s) => attach_node(&mut roots, &mut open, XMLNode::Text(s)),
            Event::Whitespace(_) => {},
            Event::Comment(s) => attach_node(&mut roots, &mut open, XMLNode::Comment(s)),
            Event::CData(s) => attach_node(&mut roots, &mut open, XMLNode::CData(s)),
            Event::ProcessingInstruction { name, data } => attach_node(
                &mut roots,
                &mut open,
                XMLNode::ProcessingInstruction(name, data),
            ),
            Event::StartDocument => {
                if open.len() > 0 {
                    proof {
                        lemma_run_stops(em, i + 1);
                        assert(em.subrange(0, total) == em);
                    }
                    return Err(ParseError::CannotParse);
                }
            },
            Event::EndDocument => {
                let done = open.len() == 0 && has_root_element(&roots);
                proof {
                    lemma_run_stops(em, i + 1);
                    assert(em.subrange(0, total) == em);
                }
                if done {
                    return Ok(roots);
                }
                return Err(ParseError::CannotParse);
            },
        }
    }
    proof {
        assert(em.subrange(0, total) == em);
    }
    match failure {
        Some(e) => Err(ParseError::MalformedXml(e)),
        None => Err(ParseError::CannotParse),
    }
}

/// The reader settings that parsing uses unless told otherwise: the reader's defaults, but with
/// comments kept.
pub open spec fn parse_config() -> ParserConfig {
    ParserConfig {
        trim_whitespace: false,
        whitespace_to_characters: false,
        cdata_to_characters: false,
        ignore_comments: false,
        coalesce_characters: true,
    }
}

/// Node `i` of `ns` is the first element among them.
pub open spec fn first_element_at(ns: Seq<NodeModel>, i: int) -> bool {
    &&& 0 <= i < ns.len()
    &&& ns[i] is Element
    &&& forall|j: int| 0 <= j < i ==> !(#[trigger] ns[j] is Element)
}

/// Where building stands once the reader has read all it could of `input`.
pub open spec fn reading_phase(input: Seq<u8>, config: ParserConfig) -> Phase {
    run(xml_reading(input, config).0)
}

impl Element {
    /// Parses `input` into its top-level nodes, comments kept.
    pub fn parse_all(input: &[u8]) -> (r: Result<Vec<XMLNode>, ParseError>)
        ensures
            reading_phase(input@, parse_config()) matches Phase::Finished(ns) ==> (r matches Ok(v) && nodes_model(v@) == ns),
            reading_phase(input@, parse_config()) is Unplaced ==> r matches Err(ParseError::CannotParse),
            reading_phase(input@, parse_config()) is Running ==> (r matches Err(ParseError::MalformedXml(_)) <==> !xml_reading(input@, parse_config()).1),
            reading_phase(input@, parse_config()) is Running ==> (r matches Err(ParseError::CannotParse) <==> xml_reading(input@, parse_config()).1),
    {
        let mut config = ParserConfig::new();
        config.ignore_comments = false;
        Element::parse_all_with_config(input, config)
    }

    /// Parses `input`, read under `config`, into its top-level nodes.
    pub fn parse_all_with_config(input: &[u8], config: ParserConfig) -> (r: Result<Vec<XMLNode>, ParseError>)
        ensures
            reading_phase(input@, config) matches Phase::Finished(ns) ==> (r matches Ok(v) && nodes_model(v@) == ns),
            reading_phase(input@, config) is Unplaced ==> r matches Err(ParseError::CannotParse),
            reading_phase(input@, config) is Running ==> (r matches Err(ParseError::MalformedXml(_)) <==> !xml_reading(input@, config).1),
            reading_phase(input@, config) is Running ==> (r matches Err(ParseError::CannotParse) <==> xml_reading(input@, config).1),
    {
        let (events, failure) = read_events(input, config);
        build_nodes(events, failure)
    }

    /// Parses `input` and returns its root element, comments kept.
    pub fn parse(input: &[u8]) -> (r: Result<Element, ParseError>)
        ensures
            reading_phase(input@, parse_config()) matches Phase::Finished(ns) ==> (r matches Ok(e) && exists|i: int|
                first_element_at(ns, i) && ns[i] == NodeModel::Element(e@)),
            reading_phase(input@, parse_config()) is Unplaced ==> r matches Err(ParseError::CannotParse),
            reading_phase(input@, parse_config()) is Running ==> (r matches Err(ParseError::MalformedXml(_)) <==> !xml_reading(input@, parse_config()).1),
            reading_phase(input@, parse_config()) is Running ==> (r matches Err(ParseError::CannotParse) <==> xml_reading(input@, parse_config()).1),
    {
        let mut config = ParserConfig::new();
        config.ignore_comments = false;
        Element::parse_with_config(input, config)
    }

    /// Parses `input`, read under `config`, and returns its root element.
    pub fn parse_with_config(input: &[u8], config: ParserConfig) -> (r: Result<Element, ParseError>)
        ensures
            reading_phase(input@, config) matches Phase::Finished(ns) ==> (r matches Ok(e) && exists|i: int|
                first_element_at(ns, i) && ns[i] == NodeModel::Element(e@)),
            reading_phase(input@, config) is Unplaced ==> r matches Err(ParseError::CannotParse),
            reading_phase(input@, config) is Running ==> (r matches Err(ParseError::MalformedXml(_)) <==> !xml_reading(input@, config).1),
            reading_phase(input@, config) is Running ==> (r matches Err(ParseError::CannotParse) <==> xml_reading(input@, config).1),
    {
        proof {
            lemma_finished_has_element(xml_reading(input@, config).0);
        }
        match Element::parse_all_with_config(input, config) {
            Ok(nodes) => Ok(first_element(nodes)),
            Err(e) => Err(e),
        }
    }
}

/// Building finishes only with some element among the top-level nodes.
pub proof fn lemma_finished_has_element(events: Seq<EventModel>)
    ensures
        run(events) matches Phase::Finished(ns) ==> has_element(ns),
    decreases events.len(),
{
    if events.len() > 0 {
        lemma_finished_has_element(events.drop_last());
    }
}

/// The index of the first element among `nodes`, which holds one.
fn first_element_index(nodes: &Vec<XMLNode>) -> (r: usize)
    requires
        has_element(nodes_model(nodes@)),
    ensures
        first_element_at(nodes_model(nodes@), r as int),
        r < nodes@.len(),
{
    let ghost ns = nodes_model(nodes@);
    proof {
        lemma_nodes_model(nodes@);
    }
    let mut i: usize = 0;
    while i < nodes.len()
        invariant
            i <= nodes@.len(),
            ns == nodes_model(nodes@),
            ns.len() == nodes@.len(),
            has_element(ns),
            forall|j: int| 0 <= j < nodes@.len() ==> #[trigger] ns[j] == node_model(nodes@[j]),
            forall|j: int| 0 <= j < i ==> !(#[trigger] ns[j] is Element),
        decreases nodes@.len() - i,
    {
        if let XMLNode::Element(_) = &nodes[i] {
            assert(ns[i as int] is Element);
            return i;
        }
        i = i + 1;
    }
    proof {
        let k = choose|k: int| 0 <= k < ns.len() && (#[trigger] ns[k]) is Element;
        assert(!(ns[k] is Element));
    }
    0
}

/// The first element among `nodes`, which holds one.
fn first_element(nodes: Vec<XMLNode>) -> (r: Element)
    requires
        has_element(nodes_model(nodes@)),
    ensures
        exists|i: int| first_element_at(nodes_model(nodes@), i) && nodes_model(nodes@)[i] == NodeModel::Element(r@),
{
    proof {
        lemma_nodes_model(nodes@);
    }
    let i = first_element_index(&nodes);
    let ghost at = i as int;
    let ghost orig = nodes@;
    let mut nodes = nodes;
    match nodes.swap_remove(i) {
        XMLNode::Element(e) => {
            assert(nodes_model(orig)[at] == NodeModel::Element(e@));
            e
        },
        _ => {
            proof {
                assert(nodes_model(orig)[at] is Element);
                assert(false);
            }
            Element::new("")
        },
    }
}

} // verus!

use xmltree::builder::build_nodes;
use xmltree::walk::{PostOrderWalk, PreOrderWalk};
use xmltree::{
    AttributeMap, AttributeName, Element, EmitterConfig, Event, Namespace, ParseError, ParserConfig, QualifiedName,
    XMLNode,
};

fn element_with(name: &str, children: Vec<XMLNode>) -> Element {
    let mut e = Element::new(name);
    e.children = children;
    e
}

fn names(v: Vec<&XMLNode>) -> Vec<String> {
    v.iter().map(|n| n.as_element().unwrap().name.clone()).collect()
}

fn three_levels() -> XMLNode {
    let b1 = element_with("b", vec![XMLNode::Element(Element::new("c"))]);
    let b2 = element_with("b", vec![XMLNode::Element(Element::new("c"))]);
    XMLNode::Element(element_with("a", vec![XMLNode::Element(b1), XMLNode::Element(b2)]))
}

fn round_trip(text: &str) {
    let e = Element::parse(text.as_bytes()).unwrap();
    let mut buf = Vec::new();
    e.write(&mut buf).unwrap();
    let e2 = Element::parse(&buf).unwrap();
    assert_eq!(e, e2);
}

fn qname(local: &str) -> QualifiedName {
    QualifiedName { local_name: local.to_string(), namespace: None, prefix: None }
}

fn start(local: &str) -> Event {
    Event::StartElement { name: qname(local), attributes: vec![], namespace: Namespace::empty() }
}

fn end(local: &str) -> Event {
    Event::EndElement { name: qname(local) }
}

#[test]
fn round_trip_plain_document() {
    round_trip(r#"<?xml version="1.0"?><names><name first="bob" last="jones"/><name first="elizabeth">text</name></names>"#);
}

#[test]
fn round_trip_mixed_content() {
    round_trip("<doc><!-- note --><?pi some data?><a>x<![CDATA[<y>]]>z</a><?bare?></doc>");
}

#[test]
fn round_trip_namespaces() {
    round_trip(
        r#"<root xmlns="urn:xmltree-rs:example" xmlns:h="http://www.w3.org/TR/html4/" xmlns:f="https://www.w3schools.com/furniture"><h:table><h:tr>Apples</h:tr></h:table><f:table><f:name>Coffee Table</f:name></f:table></root>"#,
    );
}

#[test]
fn namespaced_children_are_told_apart() {
    let text = r#"<root xmlns:h="http://www.w3.org/TR/html4/" xmlns:f="https://www.w3schools.com/furniture"><h:table><h:td>Apples</h:td></h:table><f:table><f:name>Coffee Table</f:name></f:table></root>"#;
    let e = Element::parse(text.as_bytes()).unwrap();
    let htbl = e.get_child(("table", "http://www.w3.org/TR/html4/")).unwrap();
    let ftbl = e.get_child(("table", "https://www.w3schools.com/furniture")).unwrap();
    assert_ne!(htbl, ftbl);
    assert_eq!(htbl.prefix.as_deref(), Some("h"));
    assert_eq!(ftbl.children.len(), 1);
    assert!(e.get_child(("table", "urn:none")).is_none());
    let ns = e.namespaces.as_ref().unwrap();
    assert_eq!(ns.get("h"), Some("http://www.w3.org/TR/html4/"));
}

#[test]
fn malformed_input_is_refused() {
    assert!(matches!(Element::parse("<a><b></a>".as_bytes()), Err(ParseError::MalformedXml(_))));
    assert!(matches!(Element::parse("<a".as_bytes()), Err(ParseError::MalformedXml(_))));
    assert!(matches!(Element::parse("plain text".as_bytes()), Err(ParseError::MalformedXml(_))));
}

#[test]
fn document_without_root_is_refused() {
    assert!(Element::parse_all("<!-- only a comment --><?pi data?>  ".as_bytes()).is_err());
    assert!(Element::parse("<!-- only a comment -->".as_bytes()).is_err());
    let events = vec![Event::StartDocument, Event::Comment("c".to_string()), Event::Whitespace(" ".to_string()), Event::EndDocument];
    assert!(matches!(build_nodes(events, None), Err(ParseError::CannotParse)));
}

#[test]
fn parse_all_keeps_top_level_nodes() {
    let nodes = Element::parse_all("<!-- head --><root><?pi foo=\"blah\"?></root><!-- tail -->".as_bytes()).unwrap();
    assert_eq!(nodes.len(), 3);
    assert_eq!(nodes[0].as_comment(), Some(" head "));
    let root = nodes[1].as_element().unwrap();
    assert_eq!(root.children[0].as_processing_instruction(), Some(("pi", Some("foo=\"blah\""))));
    assert_eq!(nodes[2].as_comment(), Some(" tail "));
}

#[test]
fn comments_can_be_left_out() {
    let mut config = ParserConfig::new();
    config.ignore_comments = true;
    let nodes = Element::parse_all_with_config("<!-- head --><root><!-- in --></root>".as_bytes(), config).unwrap();
    assert_eq!(nodes.len(), 1);
    let root = Element::parse_with_config("<root><!-- in --></root>".as_bytes(), config).unwrap();
    assert_eq!(root.children.len(), 0);
}

#[test]
fn builder_places_events() {
    let events = vec![
        Event::StartDocument,
        Event::Comment("top".to_string()),
        start("a"),
        Event::Characters("x".to_string()),
        Event::Whitespace("  ".to_string()),
        start("b"),
        end("b"),
        Event::CData("y".to_string()),
        Event::ProcessingInstruction { name: "t".to_string(), data: None },
        end("a"),
        Event::EndDocument,
    ];
    let nodes = build_nodes(events, None).unwrap();
    assert_eq!(nodes.len(), 2);
    assert_eq!(nodes[0], XMLNode::Comment("top".to_string()));
    let a = nodes[1].as_element().unwrap();
    assert_eq!(a.name, "a");
    assert_eq!(a.children.len(), 4);
    assert_eq!(a.children[0], XMLNode::Text("x".to_string()));
    assert_eq!(a.children[1].as_element().unwrap().name, "b");
    assert_eq!(a.children[2], XMLNode::CData("y".to_string()));
    assert_eq!(a.children[3], XMLNode::ProcessingInstruction("t".to_string(), None));
}

#[test]
fn builder_refuses_misplaced_events() {
    let mismatched = vec![start("a"), end("b"), Event::EndDocument];
    assert!(matches!(build_nodes(mismatched, None), Err(ParseError::CannotParse)));
    let inner_document = vec![start("a"), Event::StartDocument, end("a"), Event::EndDocument];
    assert!(matches!(build_nodes(inner_document, None), Err(ParseError::CannotParse)));
    let unclosed = vec![start("a"), Event::EndDocument];
    assert!(matches!(build_nodes(unclosed, None), Err(ParseError::CannotParse)));
    let cut_short = vec![start("a")];
    assert!(matches!(build_nodes(cut_short, None), Err(ParseError::CannotParse)));
}

#[test]
fn builder_keeps_only_rich_namespace_tables() {
    let mut plain = Namespace::default();
    plain.put("xml", "http://www.w3.org/XML/1998/namespace");
    let mut rich = Namespace::default();
    rich.put("p", "urn:p");
    let events = vec![
        Event::StartElement { name: qname("a"), attributes: vec![], namespace: rich },
        Event::StartElement { name: qname("b"), attributes: vec![], namespace: plain },
        end("b"),
        end("a"),
        Event::EndDocument,
    ];
    let nodes = build_nodes(events, None).unwrap();
    let a = nodes[0].as_element().unwrap();
    assert_eq!(a.namespaces.as_ref().unwrap().get("p"), Some("urn:p"));
    assert!(a.children[0].as_element().unwrap().namespaces.is_none());
}

#[test]
fn writer_events_rebuild_the_element() {
    let e = Element::parse(r#"<a k="v"><b>t</b><!--c--></a>"#.as_bytes()).unwrap();
    let mut events = e.to_events(true);
    assert_eq!(events[0], Event::StartDocument);
    assert_eq!(events.len(), 7);
    events.push(Event::EndDocument);
    let nodes = build_nodes(events, None).unwrap();
    assert_eq!(nodes.len(), 1);
    assert_eq!(nodes[0].as_element().unwrap(), &e);
}

#[test]
fn text_aggregation() {
    let e = element_with("e", vec![XMLNode::Element(Element::new("inner")), XMLNode::Text("hello world".to_string())]);
    assert_eq!(e.get_text().unwrap(), "hello world");
    let e = element_with(
        "e",
        vec![XMLNode::Text("hello ".to_string()), XMLNode::Element(Element::new("inner")), XMLNode::Text("world".to_string())],
    );
    assert_eq!(e.get_text().unwrap(), "hello world");
    let e = element_with(
        "e",
        vec![XMLNode::Text("hello ".to_string()), XMLNode::Element(Element::new("inner")), XMLNode::CData("<world>".to_string())],
    );
    assert_eq!(e.get_text().unwrap(), "hello <world>");
    let e = element_with("e", vec![XMLNode::Element(Element::new("inner")), XMLNode::Comment("c".to_string())]);
    assert_eq!(e.get_text(), None);
    assert_eq!(Element::new("e").get_text(), None);
}

#[test]
fn pre_order_walks() {
    let t = three_levels();
    assert_eq!(names(t.pre_order(None::<&str>)), vec!["a", "b", "c", "b", "c"]);
    assert_eq!(names(t.pre_order(Some("b"))), vec!["a", "b", "b"]);
    assert_eq!(names(t.pre_order(Some("a"))), vec!["a"]);
}

#[test]
fn post_order_walks() {
    let t = three_levels();
    assert_eq!(names(t.post_order(None::<&str>)), vec!["c", "b", "c", "b", "a"]);
    assert_eq!(names(t.post_order(Some("b"))), vec!["b", "b", "a"]);
    assert_eq!(names(t.post_order(Some("c"))), vec!["c", "b", "c", "b", "a"]);
}

#[test]
fn walks_yield_leaf_nodes() {
    let t = XMLNode::Element(element_with("a", vec![XMLNode::Text("x".to_string()), XMLNode::Comment("y".to_string())]));
    let pre = t.pre_order(None::<&str>);
    assert_eq!(pre.len(), 3);
    assert_eq!(pre[1].as_text(), Some("x"));
    let post = t.post_order(None::<&str>);
    assert_eq!(post[1].as_comment(), Some("y"));
    assert_eq!(post[2].as_element().unwrap().name, "a");
}

#[test]
fn xml_lang_attribute_round_trips() {
    let text = r#"<EntityDescriptor xmlns:mdui="urn:oasis:names:tc:SAML:metadata:ui"><mdui:DisplayName xml:lang="en">TestShib Test IdP</mdui:DisplayName></EntityDescriptor>"#;
    let e = Element::parse(text.as_bytes()).unwrap();
    let mut buf = Vec::new();
    e.write(&mut buf).unwrap();
    assert!(String::from_utf8_lossy(&buf).contains(r#"xml:lang="en""#));
}

#[test]
fn attribute_lookup_by_namespace() {
    let text = r#"<EntityDescriptor xmlns:mdui="urn:oasis:names:tc:SAML:metadata:ui"><mdui:DisplayName xml:lang="en">TestShib Test IdP</mdui:DisplayName></EntityDescriptor>"#;
    let e = Element::parse(text.as_bytes()).unwrap();
    let display_name_elem = e.get_child(("DisplayName", "urn:oasis:names:tc:SAML:metadata:ui")).unwrap();
    assert_eq!(display_name_elem.attributes.len(), 1);
    let attribute_name = AttributeName {
        local_name: "lang".to_string(),
        namespace: Some("http://www.w3.org/XML/1998/namespace".to_string()),
        prefix: Some("xml".to_string()),
    };
    assert_eq!(display_name_elem.attributes.get(&attribute_name).unwrap(), "en");
    assert_eq!(display_name_elem.get_attribute(("lang", Some("http://www.w3.org/XML/1998/namespace"))).unwrap(), "en");
    assert_eq!(None, display_name_elem.get_attribute(("lang", Some("https://www.w3schools.com/furniture"))));
    assert_eq!("en", display_name_elem.get_attribute("lang").unwrap());
    assert_eq!(None, display_name_elem.get_attribute("no_such_attribute"));
}

const MULTI: &str = r#"<node xmlns:ext="http://dbus.extensions.com/schemas/dbus-extensions-v1.0"><ext:member name="m" type="i" ext:type="[ExtendedType]"/></node>"#;

#[test]
fn attributes_sharing_a_local_name() {
    let ext_ns = "http://dbus.extensions.com/schemas/dbus-extensions-v1.0";
    let mut e = Element::parse(MULTI.as_bytes()).unwrap();
    let mut member_elem = e.take_child(("member", ext_ns)).unwrap();
    assert_ne!(None, member_elem.take_attribute("type"));
    assert_ne!(None, member_elem.take_attribute("type"));
    assert_eq!(None, member_elem.take_attribute("type"));
    assert_eq!(member_elem.get_attribute("name").unwrap(), "m");

    e = Element::parse(MULTI.as_bytes()).unwrap();
    member_elem = e.take_child(("member", ext_ns)).unwrap();
    assert_eq!("i", member_elem.take_attribute(("type", None)).unwrap());
    assert_eq!(None, member_elem.take_attribute(("type", None)));
    assert_eq!("[ExtendedType]", member_elem.take_attribute(("type", Some(ext_ns))).unwrap());
    assert_eq!(None, member_elem.take_attribute(("type", Some(ext_ns))));
    assert_eq!(None, member_elem.get_attribute("type"));
}

#[test]
fn take_child_removes_only_the_first_match() {
    let mut e = element_with(
        "root",
        vec![
            XMLNode::Comment("c".to_string()),
            XMLNode::Element(element_with("x", vec![XMLNode::Text("1".to_string())])),
            XMLNode::Element(Element::new("y")),
        ],
    );
    let taken = e.take_child("x").unwrap();
    assert_eq!(taken.children.len(), 1);
    assert!(e.take_child("x").is_none());
    assert!(e.take_child("x").is_none());
    assert_eq!(e.children, vec![XMLNode::Comment("c".to_string()), XMLNode::Element(Element::new("y"))]);
}

#[test]
fn get_mut_child_changes_in_place() {
    let mut e = element_with("root", vec![XMLNode::Text("t".to_string()), XMLNode::Element(Element::new("name"))]);
    {
        let name = e.get_mut_child("name").unwrap();
        name.attributes.insert(AttributeName::local("suffix"), "mr".to_owned());
    }
    assert_eq!(e.get_child("name").unwrap().get_attribute("suffix").unwrap(), "mr");
    assert!(e.get_mut_child("absent").is_none());
    assert!(e.get_child(String::from("name")).is_some());
}

#[test]
fn matches_by_name_and_namespace() {
    let mut e = Element::new("item");
    e.namespace = Some("urn:x".to_string());
    assert!(e.matches("item"));
    assert!(!e.matches("other"));
    assert!(e.matches(("item", "urn:x")));
    assert!(!e.matches(("item", "urn:y")));
    assert!(e.matches((String::from("item"), String::from("urn:x"))));
    assert!(!Element::new("item").matches(("item", "urn:x")));
}

#[test]
fn attribute_map_keeps_names_unique() {
    let mut m = AttributeMap::new();
    assert!(m.is_empty());
    assert_eq!(m.insert(AttributeName::local("a"), "1".to_string()), None);
    assert_eq!(m.insert(AttributeName::local("b"), "2".to_string()), None);
    assert_eq!(m.insert(AttributeName::local("a"), "3".to_string()), Some("1".to_string()));
    assert_eq!(m.len(), 2);
    assert_eq!(m.get(&AttributeName::local("a")).unwrap(), "3");
    assert_eq!(m.entries()[0].0, AttributeName::local("a"));
    assert_eq!(m.remove(&AttributeName::local("a")), Some("3".to_string()));
    assert_eq!(m.remove(&AttributeName::local("a")), None);
    assert_eq!(m.len(), 1);
    let copy = m.clone();
    assert_eq!(copy, m);
}

#[test]
fn node_accessors() {
    let pi = XMLNode::ProcessingInstruction("t".to_string(), Some("d".to_string()));
    assert_eq!(pi.as_processing_instruction(), Some(("t", Some("d"))));
    assert_eq!(pi.as_text(), None);
    assert_eq!(XMLNode::CData("c".to_string()).as_cdata(), Some("c"));
    assert_eq!(XMLNode::Text("t".to_string()).as_text(), Some("t"));
    let mut n = XMLNode::Element(Element::new("e"));
    n.as_mut_element().unwrap().name = "f".to_string();
    assert_eq!(n.as_element().unwrap().name, "f");
    assert!(XMLNode::Comment("c".to_string()).as_element().is_none());
}

#[test]
fn indented_output_reparses() {
    let e = Element::parse("<a><b>x</b><c/></a>".as_bytes()).unwrap();
    let cfg = EmitterConfig { perform_indent: true, ..EmitterConfig::default() };
    let mut buf = Vec::new();
    e.write_with_config(&mut buf, cfg).unwrap();
    let s = String::from_utf8(buf).unwrap();
    assert!(s.contains("\n"));
    assert_eq!(Element::parse(s.as_bytes()).unwrap(), e);
}

fn drain_pre(t: &XMLNode, stop: Option<&str>) -> Vec<String> {
    let mut w = PreOrderWalk::new(t, stop);
    let mut out = Vec::new();
    while let Some(n) = w.next() {
        out.push(n.as_element().unwrap().name.clone());
    }
    assert!(w.next().is_none());
    out
}

fn drain_post(t: &XMLNode, stop: Option<&str>) -> Vec<String> {
    let mut w = PostOrderWalk::new(t, stop);
    let mut out = Vec::new();
    while let Some(n) = w.next() {
        out.push(n.as_element().unwrap().name.clone());
    }
    assert!(w.next().is_none());
    out
}

#[test]
fn lazy_walks_match_eager_walks() {
    let t = three_levels();
    assert_eq!(drain_pre(&t, None), vec!["a", "b", "c", "b", "c"]);
    assert_eq!(drain_pre(&t, Some("b")), vec!["a", "b", "b"]);
    assert_eq!(drain_post(&t, None), vec!["c", "b", "c", "b", "a"]);
    assert_eq!(drain_post(&t, Some("b")), vec!["b", "b", "a"]);
    assert_eq!(drain_post(&t, Some("a")), vec!["a"]);
    let leaf = XMLNode::Element(Element::new("only"));
    assert_eq!(drain_pre(&leaf, None), vec!["only"]);
    assert_eq!(drain_post(&leaf, None), vec!["only"]);
}

#[test]
fn deep_clone_is_equal() {
    let e = Element::parse(r#"<a xmlns:p="urn:p" k="v"><p:b>t</p:b><!--c--></a>"#.as_bytes()).unwrap();
    let copy = e.clone();
    assert_eq!(copy, e);
    let node = XMLNode::Element(e);
    assert_eq!(node.clone(), node);
}

#[test]
fn mutable_attributes_in_place() {
    let ext_ns = "http://dbus.extensions.com/schemas/dbus-extensions-v1.0";
    let mut e = Element::parse(MULTI.as_bytes()).unwrap();
    let mut member_elem = e.take_child(("member", ext_ns)).unwrap();

    let new_val = "New value".to_string();
    let attr_val: &mut String = member_elem.get_mut_attribute(("type", None)).unwrap();
    *attr_val = new_val.clone();
    assert_eq!(&new_val, member_elem.get_attribute(("type", None)).unwrap());

    let new_ext_val = "New extended attr".to_string();
    let ext_attr_val: &mut String = member_elem.get_mut_attribute(("type", Some(ext_ns))).unwrap();
    *ext_attr_val = new_ext_val.clone();
    assert_eq!(&new_ext_val, member_elem.get_attribute(("type", Some(ext_ns))).unwrap());
    assert!(member_elem.get_mut_attribute("absent").is_none());
}

#[test]
fn attribute_map_get_mut() {
    let mut m = AttributeMap::new();
    m.insert(AttributeName::local("a"), "1".to_string());
    *m.get_mut(&AttributeName::local("a")).unwrap() = "2".to_string();
    assert_eq!(m.get(&AttributeName::local("a")).unwrap(), "2");
    assert!(m.get_mut(&AttributeName::local("b")).is_none());
    assert_eq!(m.remove_at(0), (AttributeName::local("a"), "2".to_string()));
    assert!(m.is_empty());
}

//! The nodes of the tree, their mathematical model, and the queries and changes on an element.
use vstd::prelude::*;

use crate::attribute::{opt_str_clone, opt_str_eq_ref, str_eq, AttributeMap, AttributeName, NameModel};
use crate::namespace::Namespace;

verus! {

/// A node of the tree. Only an element has children.
#[derive(Debug, PartialEq, Eq)]
pub enum XMLNode {
    Element(Element),
    Comment(String),
    CData(String),
    Text(String),
    ProcessingInstruction(String, Option<String>),
}

/// One element: its name, its namespace data, its attributes and its children in document order.
#[derive(Debug, PartialEq, Eq)]
pub struct Element {
    /// The prefix the name was written with, if any.
    pub prefix: Option<String>,
    /// The namespace of the name, if any.
    pub namespace: Option<String>,
    /// The namespace table in scope here, kept only where it holds more than default bindings.
    pub namespaces: Option<Namespace>,
    /// The local name, without prefix.
    pub name: String,
    /// The attributes, by name.
    pub attributes: AttributeMap,
    /// The children, in document order.
    pub children: Vec<XMLNode>,
}

/// A node as a mathematical value.
pub enum NodeModel {
    Element(ElementModel),
    Comment(Seq<char>),
    CData(Seq<char>),
    Text(Seq<char>),
    ProcessingInstruction(Seq<char>, Option<Seq<char>>),
}

/// An element as a mathematical value.
pub struct ElementModel {
    pub prefix: Option<Seq<char>>,
    pub namespace: Option<Seq<char>>,
    pub namespaces: Option<Map<Seq<char>, Seq<char>>>,
    pub name: Seq<char>,
    pub attributes: Seq<(NameModel, Seq<char>)>,
    pub children: Seq<NodeModel>,
}

/// The model of an optional namespace table.
pub open spec fn namespaces_model(ns: Option<Namespace>) -> Option<Map<Seq<char>, Seq<char>>> {
    match ns {
        Some(t) => Some(t@),
        None => None,
    }
}

/// The model of a node.
pub open spec fn node_model(n: XMLNode) -> NodeModel
    decreases n,
{
    match n {
        XMLNode::Element(e) => NodeModel::Element(element_model(e)),
        XMLNode::Comment(s) => NodeModel::Comment(s@),
        XMLNode::CData(s) => NodeModel::CData(s@),
        XMLNode::Text(s) => NodeModel::Text(s@),
        XMLNode::ProcessingInstruction(t, d) => NodeModel::ProcessingInstruction(t@, d.deep_view()),
    }
}

/// The model of an element.
pub open spec fn element_model(e: Element) -> ElementModel
    decreases e,
{
    ElementModel {
        prefix: e.prefix.deep_view(),
        namespace: e.namespace.deep_view(),
        namespaces: namespaces_model(e.namespaces),
        name: e.name@,
        attributes: e.attributes@,
        children: nodes_model(e.children@),
    }
}

/// The models of a sequence of nodes.
pub open spec fn nodes_model(s: Seq<XMLNode>) -> Seq<NodeModel>
    decreases s,
{
    if s.len() == 0 {
        Seq::empty()
    } else {
        nodes_model(s.drop_last()).push(node_model(s.last()))
    }
}

impl View for XMLNode {
    type V = NodeModel;

    open spec fn view(&self) -> NodeModel {
        node_model(*self)
    }
}

impl View for Element {
    type V = ElementModel;

    open spec fn view(&self) -> ElementModel {
        element_model(*self)
    }
}

/// The model of a sequence of nodes is the model of each node, in order.
pub proof fn lemma_nodes_model(s: Seq<XMLNode>)
    ensures
        nodes_model(s).len() == s.len(),
        forall|i: int| 0 <= i < s.len() ==> #[trigger] nodes_model(s)[i] == node_model(s[i]),
    decreases s.len(),
{
    if s.len() > 0 {
        lemma_nodes_model(s.drop_last());
        assert forall|i: int| 0 <= i < s.len() implies #[trigger] nodes_model(s)[i] == node_model(s[i]) by {
            if i < s.len() - 1 {
                assert(s.drop_last()[i] == s[i]);
            }
        }
    }
}

/// Two sequences of nodes with the same node models have the same model.
pub proof fn lemma_nodes_model_ext(s: Seq<XMLNode>, m: Seq<NodeModel>)
    requires
        m.len() == s.len(),
        forall|i: int| 0 <= i < s.len() ==> #[trigger] m[i] == node_model(s[i]),
    ensures
        nodes_model(s) == m,
{
    lemma_nodes_model(s);
    assert(nodes_model(s) =~= m);
}

/// A test on elements, used to find children. Text matches by local name; a pair of texts
/// matches by local name and namespace.
pub trait ElementPredicate {
    /// Whether the predicate holds of an element.
    spec fn spec_match(&self, e: ElementModel) -> bool;

    /// Whether the predicate holds of `e`.
    fn match_element(&self, e: &Element) -> (r: bool)
        ensures
            r == self.spec_match(e@),
    ;
}

impl<'a> ElementPredicate for &'a str {
    open spec fn spec_match(&self, e: ElementModel) -> bool {
        e.name == (*self)@
    }

    fn match_element(&self, e: &Element) -> (r: bool) {
        str_eq(e.name.as_str(), *self)
    }
}

impl ElementPredicate for String {
    open spec fn spec_match(&self, e: ElementModel) -> bool {
        e.name == self@
    }

    fn match_element(&self, e: &Element) -> (r: bool) {
        e.name == *self
    }
}

impl<'a, 'b> ElementPredicate for (&'a str, &'b str) {
    open spec fn spec_match(&self, e: ElementModel) -> bool {
        e.name == self.0@ && e.namespace == Some(self.1@)
    }

    fn match_element(&self, e: &Element) -> (r: bool) {
        str_eq(e.name.as_str(), self.0) && opt_str_eq_ref(&e.namespace, Some(self.1))
    }
}

impl ElementPredicate for (String, String) {
    open spec fn spec_match(&self, e: ElementModel) -> bool {
        e.name == self.0@ && e.namespace == Some(self.1@)
    }

    fn match_element(&self, e: &Element) -> (r: bool) {
        str_eq(e.name.as_str(), self.0.as_str()) && opt_str_eq_ref(&e.namespace, Some(self.1.as_str()))
    }
}

/// A test on attribute names. Text matches by local name; a pair of a text and an optional text
/// matches by local name and namespace, no namespace matching only a name without one.
pub trait AttributePredicate {
    /// Whether the predicate holds of a name.
    spec fn spec_match_attribute(&self, n: NameModel) -> bool;

    /// Whether the predicate holds of `n`.
    fn match_attribute(&self, n: &AttributeName) -> (r: bool)
        ensures
            r == self.spec_match_attribute(n@),
    ;
}

impl<'a> AttributePredicate for &'a str {
    open spec fn spec_match_attribute(&self, n: NameModel) -> bool {
        n.local_name == (*self)@
    }

    fn match_attribute(&self, n: &AttributeName) -> (r: bool) {
        str_eq(n.local_name.as_str(), *self)
    }
}

impl<'a, 'b> AttributePredicate for (&'a str, Option<&'b str>) {
    open spec fn spec_match_attribute(&self, n: NameModel) -> bool {
        n.local_name == self.0@ && n.namespace == match self.1 {
            Some(s) => Some(s@),
            None => None::<Seq<char>>,
        }
    }

    fn match_attribute(&self, n: &AttributeName) -> (r: bool) {
        str_eq(n.local_name.as_str(), self.0) && opt_str_eq_ref(&n.namespace, self.1)
    }
}

/// Child `i` is an element that `k` matches.
pub open spec fn child_matches<P: ElementPredicate>(children: Seq<NodeModel>, k: P, i: int) -> bool {
    children[i] is Element && k.spec_match(children[i]->Element_0)
}

/// No child is an element that `k` matches.
pub open spec fn no_child_matches<P: ElementPredicate>(children: Seq<NodeModel>, k: P) -> bool {
    forall|j: int| 0 <= j < children.len() ==> !#[trigger] child_matches(children, k, j)
}

/// Child `i` is the first element that `k` matches.
pub open spec fn first_child_match<P: ElementPredicate>(children: Seq<NodeModel>, k: P, i: int) -> bool {
    &&& 0 <= i < children.len()
    &&& child_matches(children, k, i)
    &&& forall|j: int| 0 <= j < i ==> !#[trigger] child_matches(children, k, j)
}

/// Entry `i` has a name that `k` matches.
pub open spec fn attribute_matches<P: AttributePredicate>(attrs: Seq<(NameModel, Seq<char>)>, k: P, i: int) -> bool {
    k.spec_match_attribute(attrs[i].0)
}

/// No attribute name matches `k`.
pub open spec fn no_attribute_matches<P: AttributePredicate>(attrs: Seq<(NameModel, Seq<char>)>, k: P) -> bool {
    forall|j: int| 0 <= j < attrs.len() ==> !#[trigger] attribute_matches(attrs, k, j)
}

/// Entry `i` is the first whose name `k` matches.
pub open spec fn first_attribute_match<P: AttributePredicate>(attrs: Seq<(NameModel, Seq<char>)>, k: P, i: int) -> bool {
    &&& 0 <= i < attrs.len()
    &&& attribute_matches(attrs, k, i)
    &&& forall|j: int| 0 <= j < i ==> !#[trigger] attribute_matches(attrs, k, j)
}

/// Whether a node is text or character data.
pub open spec fn is_text(n: NodeModel) -> bool {
    n is Text || n is CData
}

/// The characters that a node adds to the text of its parent.
pub open spec fn node_text(n: NodeModel) -> Seq<char> {
    match n {
        NodeModel::Text(s) => s,
        NodeModel::CData(s) => s,
        _ => Seq::empty(),
    }
}

/// The text and character data among `s`, joined in order.
pub open spec fn text_of(s: Seq<NodeModel>) -> Seq<char>
    decreases s.len(),
{
    if s.len() == 0 {
        Seq::empty()
    } else {
        text_of(s.drop_last()) + node_text(s.last())
    }
}

/// `b` is `a` with other children.
pub open spec fn same_but_children(a: ElementModel, b: ElementModel) -> bool {
    &&& a.prefix == b.prefix
    &&& a.namespace == b.namespace
    &&& a.namespaces == b.namespaces
    &&& a.name == b.name
    &&& a.attributes == b.attributes
}

/// `b` is `a` with other attributes.
pub open spec fn same_but_attributes(a: ElementModel, b: ElementModel) -> bool {
    &&& a.prefix == b.prefix
    &&& a.namespace == b.namespace
    &&& a.namespaces == b.namespaces
    &&& a.name == b.name
    &&& a.children == b.children
}

impl XMLNode {
    /// The element, if this node is one.
    pub fn as_element(&self) -> (r: Option<&Element>)
        ensures
            r is Some <==> self is Element,
            r is Some ==> *r->0 == self->Element_0,
    {
        match self {
            XMLNode::Element(e) => Some(e),
            _ => None,
        }
    }

    /// The element, to change, if this node is one.
    pub fn as_mut_element(&mut self) -> (r: Option<&mut Element>)
        ensures
            r is Some <==> *old(self) is Element,
            r is Some ==> *r->0 == (*old(self))->Element_0,
            r is Some ==> *final(self) == XMLNode::Element(*final(r->0)),
            r is None ==> *final(self) == *old(self),
    {
        match self {
            XMLNode::Element(e) => Some(e),
            _ => None,
        }
    }

    /// The text of the comment, if this node is one.
    pub fn as_comment(&self) -> (r: Option<&str>)
        ensures
            r is Some <==> self is Comment,
            r is Some ==> r->0@ == self->Comment_0@,
    {
        match self {
            XMLNode::Comment(c) => Some(c.as_str()),
            _ => None,
        }
    }

    /// The character data, if this node is a CDATA section.
    pub fn as_cdata(&self) -> (r: Option<&str>)
        ensures
            r is Some <==> self is CData,
            r is Some ==> r->0@ == self->CData_0@,
    {
        match self {
            XMLNode::CData(c) => Some(c.as_str()),
            _ => None,
        }
    }

    /// The text, if this node is text.
    pub fn as_text(&self) -> (r: Option<&str>)
        ensures
            r is Some <==> self is Text,
            r is Some ==> r->0@ == self->Text_0@,
    {
        match self {
            XMLNode::Text(c) => Some(c.as_str()),
            _ => None,
        }
    }

    /// The target and the data, if this node is a processing instruction.
    pub fn as_processing_instruction(&self) -> (r: Option<(&str, Option<&str>)>)
        ensures
            r is Some <==> self is ProcessingInstruction,
            r matches Some(p) ==> p.0@ == self->ProcessingInstruction_0@,
            r matches Some(p) ==> (p.1 is Some <==> self->ProcessingInstruction_1 is Some),
            r matches Some(p) ==> (p.1 matches Some(d) ==> d@ == self->ProcessingInstruction_1->0@),
    {
        match self {
            XMLNode::ProcessingInstruction(t, d) => {
                let data = match d {
                    Some(s) => Some(s.as_str()),
                    None => None,
                };
                Some((t.as_str(), data))
            },
            _ => None,
        }
    }
}

impl Element {
    /// An element named `name`, with no prefix, namespace, attribute or child.
    pub fn new(name: &str) -> (r: Element)
        ensures
            r@ == (ElementModel {
                prefix: None,
                namespace: None,
                namespaces: None,
                name: name@,
                attributes: Seq::empty(),
                children: Seq::empty(),
            }),
    {
        let r = Element {
            prefix: None,
            namespace: None,
            namespaces: None,
            name: name.to_string(),
            attributes: AttributeMap::new(),
            children: Vec::new(),
        };
        proof {
            lemma_nodes_model(r.children@);
            assert(r@.children =~= Seq::<NodeModel>::empty());
        }
        r
    }

    /// Whether `k` matches this element.
    pub fn matches<P: ElementPredicate>(&self, k: P) -> (r: bool)
        ensures
            r == k.spec_match(self@),
    {
        k.match_element(self)
    }

    /// The index of the first child element that `k` matches, if any.
    fn find_child<P: ElementPredicate>(&self, k: &P) -> (r: Option<usize>)
        ensures
            r is None <==> no_child_matches(self@.children, *k),
            r matches Some(i) ==> first_child_match(self@.children, *k, i as int),
            r matches Some(i) ==> i < self.children@.len() && self.children@[i as int] is Element,
    {
        proof {
            lemma_nodes_model(self.children@);
        }
        let mut i: usize = 0;
        while i < self.children.len()
            invariant
                i <= self.children@.len(),
                self@.children == nodes_model(self.children@),
                nodes_model(self.children@).len() == self.children@.len(),
                forall|j: int| 0 <= j < self.children@.len() ==> #[trigger] nodes_model(self.children@)[j] == node_model(self.children@[j]),
                forall|j: int| 0 <= j < i ==> !#[trigger] child_matches(self@.children, *k, j),
            decreases self.children@.len() - i,
        {
            let hit = match &self.children[i] {
                XMLNode::Element(e) => k.match_element(e),
                _ => false,
            };
            assert(self@.children[i as int] == node_model(self.children@[i as int]));
            if hit {
                assert(child_matches(self@.children, *k, i as int));
                return Some(i);
            }
            i = i + 1;
        }
        None
    }

    /// The first child element that `k` matches, if any.
    pub fn get_child<P: ElementPredicate>(&self, k: P) -> (r: Option<&Element>)
        ensures
            r is None <==> no_child_matches(self@.children, k),
            r is Some ==> exists|i: int|
                first_child_match(self@.children, k, i) && self@.children[i] == NodeModel::Element(r->0@),
    {
        match self.find_child(&k) {
            Some(i) => {
                proof {
                    lemma_nodes_model(self.children@);
                }
                match &self.children[i] {
                    XMLNode::Element(e) => Some(e),
                    _ => None,
                }
            },
            None => None,
        }
    }

    /// The first child element that `k` matches, to change, if any.
    pub fn get_mut_child<P: ElementPredicate>(&mut self, k: P) -> (r: Option<&mut Element>)
        ensures
            r is None <==> no_child_matches(old(self)@.children, k),
            r is None ==> *final(self) == *old(self),
            r is Some ==> exists|i: int|
                first_child_match(old(self)@.children, k, i)
                && old(self).children@[i] == XMLNode::Element(*r->0)
                && final(self).children@ == old(self).children@.update(i, XMLNode::Element(*final(r->0)))
                && same_but_children(final(self)@, old(self)@),
    {
        match self.find_child(&k) {
            Some(i) => {
                proof {
                    lemma_nodes_model(self.children@);
                }
                match &mut self.children[i] {
                    XMLNode::Element(e) => Some(e),
                    _ => None,
                }
            },
            None => None,
        }
    }

    /// Removes the first child element that `k` matches and returns it; the other children keep
    /// their order.
    pub fn take_child<P: ElementPredicate>(&mut self, k: P) -> (r: Option<Element>)
        ensures
            r is None <==> no_child_matches(old(self)@.children, k),
            r is None ==> final(self)@ == old(self)@,
            r is Some ==> exists|i: int|
                first_child_match(old(self)@.children, k, i)
                && old(self)@.children[i] == NodeModel::Element(r->0@)
                && final(self)@.children == old(self)@.children.remove(i),
            same_but_children(final(self)@, old(self)@),
    {
        match self.find_child(&k) {
            Some(i) => {
                let ghost old_children = self.children@;
                let node = self.children.remove(i);
                proof {
                    lemma_nodes_model(old_children);
                    lemma_nodes_model(self.children@);
                    assert(self.children@ == old_children.remove(i as int));
                    assert(nodes_model(self.children@) =~= nodes_model(old_children).remove(i as int));
                }
                match node {
                    XMLNode::Element(e) => Some(e),
                    _ => None,
                }
            },
            None => None,
        }
    }

    /// The text and character data among the children, joined in order; none where there is no
    /// such child.
    pub fn get_text(&self) -> (r: Option<String>)
        ensures
            r is None <==> forall|i: int| 0 <= i < self@.children.len() ==> !is_text(#[trigger] self@.children[i]),
            r is Some ==> r->0@ == text_of(self@.children),
    {
        proof {
            lemma_nodes_model(self.children@);
        }
        let ghost cs = self@.children;
        let mut full = String::new();
        let mut found = false;
        let mut i: usize = 0;
        while i < self.children.len()
            invariant
                i <= self.children@.len(),
                cs == nodes_model(self.children@),
                cs.len() == self.children@.len(),
                forall|j: int| 0 <= j < self.children@.len() ==> #[trigger] cs[j] == node_model(self.children@[j]),
                full@ == text_of(cs.subrange(0, i as int)),
                found <==> exists|j: int| 0 <= j < i && is_text(#[trigger] cs[j]),
            decreases self.children@.len() - i,
        {
            assert(cs.subrange(0, i + 1).drop_last() == cs.subrange(0, i as int));
            assert(cs[i as int] == node_model(self.children@[i as int]));
            match &self.children[i] {
                XMLNode::Text(s) => {
                    full.append(s.as_str());
                    found = true;
                },
                XMLNode::CData(s) => {
                    full.append(s.as_str());
                    found = true;
                },
                _ => {
                    assert(node_text(cs[i as int]) =~= Seq::<char>::empty());
                },
            }
            assert(full@ =~= text_of(cs.subrange(0, i + 1)));
            i = i + 1;
        }
        assert(cs.subrange(0, cs.len() as int) == cs);
        if found {
            Some(full)
        } else {
            None
        }
    }

    /// The index of the first attribute whose name `k` matches, if any.
    fn find_attribute<P: AttributePredicate>(&self, k: &P) -> (r: Option<usize>)
        ensures
            r is None <==> no_attribute_matches(self@.attributes, *k),
            r matches Some(i) ==> first_attribute_match(self@.attributes, *k, i as int),
    {
        let entries = self.attributes.entries();
        let mut i: usize = 0;
        while i < entries.len()
            invariant
                i <= entries@.len(),
                entries@.len() == self@.attributes.len(),
                forall|j: int| 0 <= j < entries@.len() ==> (#[trigger] entries@[j]).0@ == self@.attributes[j].0 && entries@[j].1@ == self@.attributes[j].1,
                forall|j: int| 0 <= j < i ==> !#[trigger] attribute_matches(self@.attributes, *k, j),
            decreases entries@.len() - i,
        {
            let hit = k.match_attribute(&entries[i].0);
            assert(entries@[i as int].0@ == self@.attributes[i as int].0);
            if hit {
                assert(attribute_matches(self@.attributes, *k, i as int));
                return Some(i);
            }
            i = i + 1;
        }
        None
    }

    /// The value of the first attribute whose name `k` matches, if any.
    pub fn get_attribute<P: AttributePredicate>(&self, k: P) -> (r: Option<&String>)
        ensures
            r is None <==> no_attribute_matches(self@.attributes, k),
            r is Some ==> exists|i: int|
                first_attribute_match(self@.attributes, k, i) && self@.attributes[i].1 == r->0@,
    {
        match self.find_attribute(&k) {
            Some(i) => {
                let entries = self.attributes.entries();
                Some(&entries[i].1)
            },
            None => None,
        }
    }

    /// The value of the first attribute whose name `k` matches, to change in place, if any.
    pub fn get_mut_attribute<P: AttributePredicate>(&mut self, k: P) -> (r: Option<&mut String>)
        ensures
            r is None <==> no_attribute_matches(old(self)@.attributes, k),
            r is None ==> final(self)@ == old(self)@,
            r is Some ==> exists|i: int|
                first_attribute_match(old(self)@.attributes, k, i)
                && old(self)@.attributes[i].1 == r->0@
                && final(self)@.attributes == old(self)@.attributes.update(i, (old(self)@.attributes[i].0, final(r->0)@)),
            same_but_attributes(final(self)@, old(self)@),
    {
        match self.find_attribute(&k) {
            Some(i) => Some(self.attributes.value_mut_at(i)),
            None => None,
        }
    }

    /// Removes the first attribute whose name `k` matches and returns its value; the other
    /// attributes keep their order.
    pub fn take_attribute<P: AttributePredicate>(&mut self, k: P) -> (r: Option<String>)
        ensures
            r is None <==> no_attribute_matches(old(self)@.attributes, k),
            r is None ==> final(self)@ == old(self)@,
            r is Some ==> exists|i: int|
                first_attribute_match(old(self)@.attributes, k, i)
                && old(self)@.attributes[i].1 == r->0@
                && final(self)@.attributes == old(self)@.attributes.remove(i),
            same_but_attributes(final(self)@, old(self)@),
    {
        match self.find_attribute(&k) {
            Some(i) => {
                let e = self.attributes.remove_at(i);
                Some(e.1)
            },
            None => None,
        }
    }
}

/// A copy of the optional namespace table.
fn clone_namespaces(ns: &Option<Namespace>) -> (r: Option<Namespace>)
    ensures
        namespaces_model(r) == namespaces_model(*ns),
{
    match ns {
        Some(t) => Some(t.clone()),
        None => None,
    }
}

/// A copy of the tree under `n`.
fn clone_node(n: &XMLNode) -> (r: XMLNode)
    ensures
        r@ == n@,
    decreases n,
{
    match n {
        XMLNode::Element(e) => {
            proof {
                assert(decreases_to!(*n => (*n)->Element_0));
            }
            XMLNode::Element(clone_element(e))
        },
        XMLNode::Comment(s) => XMLNode::Comment(s.clone()),
        XMLNode::CData(s) => XMLNode::CData(s.clone()),
        XMLNode::Text(s) => XMLNode::Text(s.clone()),
        XMLNode::ProcessingInstruction(t, d) => XMLNode::ProcessingInstruction(t.clone(), opt_str_clone(d)),
    }
}

/// A copy of the tree under `e`.
fn clone_element(e: &Element) -> (r: Element)
    ensures
        r@ == e@,
    decreases e,
{
    proof {
        lemma_nodes_model(e.children@);
    }
    let mut children: Vec<XMLNode> = Vec::new();
    let mut i: usize = 0;
    while i < e.children.len()
        invariant
            i <= e.children@.len(),
            children@.len() == i,
            forall|j: int| 0 <= j < i ==> (#[trigger] children@[j])@ == e.children@[j]@,
        decreases e.children@.len() - i,
    {
        proof {
            assert(decreases_to!(*e => e.children));
            assert(decreases_to!(e.children => e.children[i as int]));
        }
        let c = clone_node(&e.children[i]);
        children.push(c);
        i = i + 1;
    }
    proof {
        lemma_nodes_model_ext(children@, e@.children);
    }
    Element {
        prefix: opt_str_clone(&e.prefix),
        namespace: opt_str_clone(&e.namespace),
        namespaces: clone_namespaces(&e.namespaces),
        name: e.name.clone(),
        attributes: e.attributes.clone(),
        children,
    }
}

impl Clone for XMLNode {
    /// A copy of the whole tree under this node.
    fn clone(&self) -> (r: XMLNode)
        ensures
            r@ == self@,
    {
        clone_node(self)
    }
}

impl Clone for Element {
    /// A copy of the whole tree under this element.
    fn clone(&self) -> (r: Element)
        ensures
            r@ == self@,
    {
        clone_element(self)
    }
}

} // verus!

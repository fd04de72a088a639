//! The prefix to URI table that is in scope at an element.
use vstd::prelude::*;

use xml::namespace::Namespace as XmlNamespace;

verus! {

/// xml::namespace::Namespace, a map from prefix to URI, opaque here: its bindings are named below.
#[verifier::external_type_specification]
#[verifier::external_body]
pub struct ExXmlNamespace(XmlNamespace);

/// The bindings, prefix to URI, that an xml-rs namespace table holds.
pub uninterp spec fn namespace_bindings(ns: XmlNamespace) -> Map<Seq<char>, Seq<char>>;

/// Relies on xml::namespace::Namespace::empty: a table with no binding.
pub assume_specification[ XmlNamespace::empty ]() -> (r: XmlNamespace)
    ensures
        namespace_bindings(r).dom() == Set::<Seq<char>>::empty(),
;

/// Relies on xml::namespace::Namespace::is_empty: whether the table has no binding.
pub assume_specification[ XmlNamespace::is_empty ](ns: &XmlNamespace) -> (r: bool)
    ensures
        r == (namespace_bindings(*ns).dom() == Set::<Seq<char>>::empty()),
;

/// Relies on the `Clone` that xml::namespace::Namespace derives: the copy holds the same bindings.
pub assume_specification[ <XmlNamespace as Clone>::clone ](ns: &XmlNamespace) -> (r: XmlNamespace)
    ensures
        namespace_bindings(r) == namespace_bindings(*ns),
;

} // verus!

verus! {

/// Whether `a` sorts strictly before `b`, comparing characters by code point and a proper
/// prefix before the longer string: the order of `String`.
pub open spec fn str_lt(a: Seq<char>, b: Seq<char>) -> bool {
    exists|i: int|
        0 <= i <= a.len() && i <= b.len() && a.subrange(0, i) == b.subrange(0, i) && (
        (i == a.len() && i < b.len()) || (i < a.len() && i < b.len() && (a[i] as u32) < (b[i]
            as u32)))
}

/// A binding that every table holds implicitly: no prefix to no namespace, `xmlns` and `xml` to
/// their fixed URIs.
pub open spec fn is_default_binding(prefix: Seq<char>, uri: Seq<char>) -> bool {
    ||| (prefix == Seq::<char>::empty() && uri == Seq::<char>::empty())
    ||| (prefix == "xmlns"@ && uri == "http://www.w3.org/2000/xmlns/"@)
    ||| (prefix == "xml"@ && uri == "http://www.w3.org/XML/1998/namespace"@)
}

/// A table that holds nothing but default bindings.
pub open spec fn essentially_empty(m: Map<Seq<char>, Seq<char>>) -> bool {
    forall|k: Seq<char>| #[trigger] m.dom().contains(k) ==> is_default_binding(k, m[k])
}

/// Relies on xml::namespace::Namespace::is_essentially_empty: whether the table holds only
/// default bindings.
#[verifier::external_body]
fn xml_is_essentially_empty(ns: &XmlNamespace) -> (r: bool)
    ensures
        r == essentially_empty(namespace_bindings(*ns)),
{
    ns.is_essentially_empty()
}

/// Relies on xml::namespace::Namespace::contains: whether the prefix is bound.
#[verifier::external_body]
fn xml_contains(ns: &XmlNamespace, prefix: &str) -> (r: bool)
    ensures
        r == namespace_bindings(*ns).dom().contains(prefix@),
{
    ns.contains(prefix)
}

/// Relies on xml::namespace::Namespace::put: binds the prefix only where it is unbound, and
/// tells whether it did.
#[verifier::external_body]
fn xml_put(ns: &mut XmlNamespace, prefix: &str, uri: &str) -> (r: bool)
    ensures
        r == !namespace_bindings(*old(ns)).dom().contains(prefix@),
        namespace_bindings(*final(ns)) == (if r {
            namespace_bindings(*old(ns)).insert(prefix@, uri@)
        } else {
            namespace_bindings(*old(ns))
        }),
{
    ns.put(prefix, uri)
}

/// Relies on xml::namespace::Namespace::force_put: binds the prefix, and returns the URI it was
/// bound to before.
#[verifier::external_body]
fn xml_force_put(ns: &mut XmlNamespace, prefix: &str, uri: &str) -> (r: Option<String>)
    ensures
        namespace_bindings(*final(ns)) == namespace_bindings(*old(ns)).insert(prefix@, uri@),
        r is Some <==> namespace_bindings(*old(ns)).dom().contains(prefix@),
        r is Some ==> r->0@ == namespace_bindings(*old(ns))[prefix@],
{
    ns.force_put(prefix, uri)
}

/// Relies on xml::namespace::Namespace::get: the URI that the prefix is bound to.
#[verifier::external_body]
fn xml_get<'a>(ns: &'a XmlNamespace, prefix: &str) -> (r: Option<&'a str>)
    ensures
        r is Some <==> namespace_bindings(*ns).dom().contains(prefix@),
        r is Some ==> r->0@ == namespace_bindings(*ns)[prefix@],
{
    ns.get(prefix)
}

/// Relies on the iterator of `&xml::namespace::Namespace`: each binding once, by ascending
/// prefix.
#[verifier::external_body]
fn xml_bindings(ns: &XmlNamespace) -> (r: Vec<(String, String)>)
    ensures
        r@.len() == namespace_bindings(*ns).dom().len(),
        forall|i: int| 0 <= i < r@.len() ==> #[trigger] namespace_bindings(*ns).dom().contains(r@[i].0@),
        forall|i: int| 0 <= i < r@.len() ==> namespace_bindings(*ns)[#[trigger] r@[i].0@] == r@[i].1@,
        forall|k: Seq<char>| #[trigger] namespace_bindings(*ns).dom().contains(k) ==> exists|i: int| 0 <= i < r@.len() && r@[i].0@ == k,
        forall|i: int, j: int| 0 <= i < j < r@.len() ==> str_lt(#[trigger] r@[i].0@, #[trigger] r@[j].0@),
{
    ns.into_iter().map(|(p, u)| (p.to_string(), u.to_string())).collect()
}

/// The namespace table in scope at an element: bindings from prefix to URI, the empty prefix
/// standing for names written without one.
#[derive(Debug, PartialEq, Eq)]
pub struct Namespace {
    pub(crate) inner: XmlNamespace,
}

impl View for Namespace {
    type V = Map<Seq<char>, Seq<char>>;

    closed spec fn view(&self) -> Map<Seq<char>, Seq<char>> {
        namespace_bindings(self.inner)
    }
}

impl Namespace {
    /// A table with no binding at all.
    pub fn empty() -> (r: Namespace)
        ensures
            r@ == Map::<Seq<char>, Seq<char>>::empty(),
    {
        Namespace { inner: XmlNamespace::empty() }
    }

    /// Whether the table has no binding.
    pub fn is_empty(&self) -> (r: bool)
        ensures
            r == (self@.dom() == Set::<Seq<char>>::empty()),
    {
        self.inner.is_empty()
    }

    /// Whether the table holds nothing but default bindings.
    pub fn is_essentially_empty(&self) -> (r: bool)
        ensures
            r == essentially_empty(self@),
    {
        xml_is_essentially_empty(&self.inner)
    }

    /// Whether `prefix` is bound.
    pub fn contains(&self, prefix: &str) -> (r: bool)
        ensures
            r == self@.dom().contains(prefix@),
    {
        xml_contains(&self.inner, prefix)
    }

    /// Binds `prefix` to `uri` unless `prefix` is bound already; returns whether it bound it.
    pub fn put(&mut self, prefix: &str, uri: &str) -> (r: bool)
        ensures
            r == !old(self)@.dom().contains(prefix@),
            final(self)@ == (if r { old(self)@.insert(prefix@, uri@) } else { old(self)@ }),
    {
        xml_put(&mut self.inner, prefix, uri)
    }

    /// Binds `prefix` to `uri`, replacing any earlier binding, which is returned.
    pub fn force_put(&mut self, prefix: &str, uri: &str) -> (r: Option<String>)
        ensures
            final(self)@ == old(self)@.insert(prefix@, uri@),
            r is Some <==> old(self)@.dom().contains(prefix@),
            r is Some ==> r->0@ == old(self)@[prefix@],
    {
        xml_force_put(&mut self.inner, prefix, uri)
    }

    /// The URI that `prefix` is bound to, if any.
    pub fn get<'a>(&'a self, prefix: &str) -> (r: Option<&'a str>)
        ensures
            r is Some <==> self@.dom().contains(prefix@),
            r is Some ==> r->0@ == self@[prefix@],
    {
        xml_get(&self.inner, prefix)
    }

    /// Every binding once, as (prefix, URI), by ascending prefix.
    pub fn entries(&self) -> (r: Vec<(String, String)>)
        ensures
            r@.len() == self@.dom().len(),
            forall|i: int| 0 <= i < r@.len() ==> #[trigger] self@.dom().contains(r@[i].0@),
            forall|i: int| 0 <= i < r@.len() ==> self@[#[trigger] r@[i].0@] == r@[i].1@,
            forall|k: Seq<char>| #[trigger] self@.dom().contains(k) ==> exists|i: int| 0 <= i < r@.len() && r@[i].0@ == k,
            forall|i: int, j: int| 0 <= i < j < r@.len() ==> str_lt(#[trigger] r@[i].0@, #[trigger] r@[j].0@),
    {
        xml_bindings(&self.inner)
    }

    /// The table written as text: its first prefix in ascending order. A table with no binding has
    /// no such text.
    pub fn to_string(&self) -> (r: String)
        requires
            self@.dom() != Set::<Seq<char>>::empty(),
        ensures
            self@.dom().contains(r@),
            forall|k: Seq<char>| #[trigger] self@.dom().contains(k) && k != r@ ==> str_lt(r@, k),
    {
        let all = self.entries();
        proof {
            if !(exists|k: Seq<char>| self@.dom().contains(k)) {
                assert(self@.dom() =~= Set::<Seq<char>>::empty());
            }
            let k = choose|k: Seq<char>| self@.dom().contains(k);
            assert(exists|i: int| 0 <= i < all@.len() && all@[i].0@ == k);
        }
        let r = all[0].0.clone();
        proof {
            assert forall|k: Seq<char>| #[trigger] self@.dom().contains(k) && k != r@ implies str_lt(r@, k) by {
                let i = choose|i: int| 0 <= i < all@.len() && all@[i].0@ == k;
                assert(str_lt(all@[0].0@, all@[i].0@));
            }
        }
        r
    }
}

impl Clone for Namespace {
    /// A copy with the same bindings.
    fn clone(&self) -> (r: Namespace)
        ensures
            r@ == self@,
    {
        Namespace { inner: self.inner.clone() }
    }
}

impl Default for Namespace {
    /// The table that binds no prefix to no namespace, and nothing else.
    fn default() -> (r: Namespace)
        ensures
            r@ == Map::<Seq<char>, Seq<char>>::empty().insert(Seq::<char>::empty(), Seq::<char>::empty()),
    {
        let mut ns = Namespace::empty();
        ns.force_put("", "");
        proof {
            reveal_strlit("");
            assert(""@ =~= Seq::<char>::empty());
            assert(ns@ =~= Map::<Seq<char>, Seq<char>>::empty().insert(Seq::<char>::empty(), Seq::<char>::empty()));
        }
        ns
    }
}

} // verus!

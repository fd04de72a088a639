use xmltree::Namespace;

#[test]
fn test_default_ns() {
    assert_ne!(Namespace::default().entries(), Namespace::empty().entries());
    assert_eq!(
        Namespace::default().entries(),
        vec![(xml::namespace::NS_NO_PREFIX.to_string(), xml::namespace::NS_EMPTY_URI.to_string())]
    );
    assert_eq!(vec![(String::new().as_str(), String::new().as_str())], vec![(xml::namespace::NS_NO_PREFIX, xml::namespace::NS_EMPTY_URI)]);
}

#[test]
fn namespace_put_keeps_first_binding() {
    let mut ns = Namespace::empty();
    assert!(ns.is_empty());
    assert!(ns.put("svg", "http://www.w3.org/2000/svg"));
    assert!(!ns.put("svg", "urn:other"));
    assert_eq!(ns.get("svg"), Some("http://www.w3.org/2000/svg"));
    assert!(ns.contains("svg"));
    assert!(!ns.contains("html"));
    assert_eq!(ns.get("html"), None);
    assert!(!ns.is_empty());
}

#[test]
fn namespace_force_put_replaces() {
    let mut ns = Namespace::empty();
    assert_eq!(ns.force_put("a", "urn:one"), None);
    assert_eq!(ns.force_put("a", "urn:two"), Some("urn:one".to_string()));
    assert_eq!(ns.get("a"), Some("urn:two"));
}

#[test]
fn namespace_essentially_empty() {
    assert!(Namespace::empty().is_essentially_empty());
    assert!(Namespace::default().is_essentially_empty());
    assert!(!Namespace::default().is_empty());
    let mut ns = Namespace::default();
    ns.put("xml", "http://www.w3.org/XML/1998/namespace");
    ns.put("xmlns", "http://www.w3.org/2000/xmlns/");
    assert!(ns.is_essentially_empty());
    ns.put("a", "urn:a");
    assert!(!ns.is_essentially_empty());
    let mut other = Namespace::empty();
    other.put("", "urn:default");
    assert!(!other.is_essentially_empty());
}

#[test]
fn namespace_text_is_first_prefix() {
    assert_eq!(Namespace::default().to_string(), "");
    let mut ns = Namespace::empty();
    ns.put("b", "urn:b");
    ns.put("a", "urn:a");
    assert_eq!(ns.to_string(), "a");
    assert_eq!(
        ns.entries(),
        vec![("a".to_string(), "urn:a".to_string()), ("b".to_string(), "urn:b".to_string())]
    );
}

#[test]
fn namespace_clone_keeps_bindings() {
    let mut ns = Namespace::empty();
    ns.put("p", "urn:p");
    let copy = ns.clone();
    assert_eq!(copy.get("p"), Some("urn:p"));
    assert_eq!(copy, ns);
}

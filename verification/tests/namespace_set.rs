use minidom::namespace_set::NamespaceSet;
use std::rc::Rc;

#[test]
fn namespace_set_get_has() {
    let namespaces = NamespaceSet::from("foo".to_owned());
    assert_eq!(namespaces.get(&None), Some("foo".to_owned()));
    assert!(namespaces.has(&None, "foo"));
}

#[test]
fn namespace_set_get_has_prefixed() {
    let namespaces = NamespaceSet::from(("x".to_owned(), "bar".to_owned()));
    assert_eq!(
        namespaces.get(&Some("x".to_owned())),
        Some("bar".to_owned())
    );
    assert!(namespaces.has(&Some("x".to_owned()), "bar"));
}

#[test]
fn namespace_set_get_has_recursive() {
    let mut parent = NamespaceSet::from("foo".to_owned());
    for _ in 0..1000 {
        let mut namespaces = NamespaceSet::default();
        namespaces.set_parent(Rc::new(parent));
        assert_eq!(namespaces.get(&None), Some("foo".to_owned()));
        assert!(namespaces.has(&None, "foo"));
        parent = namespaces;
    }
}

#[test]
fn namespace_set_get_has_prefixed_recursive() {
    let mut parent = NamespaceSet::from(("x".to_owned(), "bar".to_owned()));
    for _ in 0..1000 {
        let mut namespaces = NamespaceSet::default();
        namespaces.set_parent(Rc::new(parent));
        assert_eq!(
            namespaces.get(&Some("x".to_owned())),
            Some("bar".to_owned())
        );
        assert!(namespaces.has(&Some("x".to_owned()), "bar"));
        parent = namespaces;
    }
}

#[test]
fn namespaces_get_has() {
    let namespaces = NamespaceSet::from("foo".to_owned());
    assert_eq!(namespaces.get(&None), Some("foo".to_owned()));
    assert!(namespaces.has(&None, "foo"));
}

#[test]
fn namespaces_get_has_prefixed() {
    let namespaces = NamespaceSet::from(("x".to_owned(), "bar".to_owned()));
    assert_eq!(namespaces.get(&Some("x".to_owned())), Some("bar".to_owned()));
    assert!(namespaces.has(&Some("x".to_owned()), "bar"));
}

#[test]
fn namespaces_get_has_recursive() {
    let mut parent = NamespaceSet::from("foo".to_owned());
    for _ in 0..1000 {
        let mut namespaces = NamespaceSet::default();
        namespaces.set_parent(Rc::new(parent));
        assert_eq!(namespaces.get(&None), Some("foo".to_owned()));
        assert!(namespaces.has(&None, "foo"));
        parent = namespaces;
    }
}

#[test]
fn namespaces_get_has_prefixed_recursive() {
    let mut parent = NamespaceSet::from(("x".to_owned(), "bar".to_owned()));
    for _ in 0..1000 {
        let mut namespaces = NamespaceSet::default();
        namespaces.set_parent(Rc::new(parent));
        assert_eq!(namespaces.get(&Some("x".to_owned())), Some("bar".to_owned()));
        assert!(namespaces.has(&Some("x".to_owned()), "bar"));
        parent = namespaces;
    }
}

#[test]
fn nearest_scope_wins() {
    let parent = NamespaceSet::from(("p".to_owned(), "outer".to_owned()));
    let mut child = NamespaceSet::from(("p".to_owned(), "inner".to_owned()));
    child.set_parent(Rc::new(parent));
    assert_eq!(child.get(&Some("p".to_owned())), Some("inner".to_owned()));
    assert!(child.has(&Some("p".to_owned()), "inner"));
    assert!(!child.has(&Some("p".to_owned()), "outer"));
}

#[test]
fn insert_overrides() {
    let mut ns = NamespaceSet::default();
    ns.insert(Some("p".to_owned()), "one".to_owned());
    ns.insert(Some("p".to_owned()), "two".to_owned());
    ns.insert(None, "default".to_owned());
    assert_eq!(ns.get(&Some("p".to_owned())), Some("two".to_owned()));
    assert_eq!(ns.get(&None), Some("default".to_owned()));
    assert_eq!(ns.get(&Some("q".to_owned())), None);
}

#[test]
fn from_map_and_option() {
    let ns = NamespaceSet::from(vec![
        (None, "d".to_owned()),
        (Some("a".to_owned()), "ua".to_owned()),
    ]);
    assert_eq!(ns.get(&None), Some("d".to_owned()));
    assert_eq!(ns.get(&Some("a".to_owned())), Some("ua".to_owned()));
    let none = NamespaceSet::from(None::<String>);
    assert_eq!(none.get(&None), None);
    let some = NamespaceSet::from(Some("u".to_owned()));
    assert_eq!(some.get(&None), Some("u".to_owned()));
}

#[test]
fn clone_answers_alike() {
    let parent = NamespaceSet::from("base".to_owned());
    let mut ns = NamespaceSet::from(("x".to_owned(), "u".to_owned()));
    ns.set_parent(Rc::new(parent));
    let copy = ns.clone();
    assert_eq!(copy.get(&Some("x".to_owned())), Some("u".to_owned()));
    assert_eq!(copy.get(&None), Some("base".to_owned()));
}

#[test]
fn debug_looks_correct() {
    let parent = NamespaceSet::from("http://www.w3.org/2000/svg".to_owned());
    let mut namespaces = NamespaceSet::from((
        "xhtml".to_owned(),
        "http://www.w3.org/1999/xhtml".to_owned(),
    ));
    namespaces.set_parent(Rc::new(parent));
    assert_eq!(namespaces.debug_string(), "NamespaceSet(xmlns:xhtml=\"http://www.w3.org/1999/xhtml\", parent: Some(NamespaceSet(xmlns=\"http://www.w3.org/2000/svg\", parent: None)))");
}

#[test]
fn declared_ns_shows_only_local_bindings() {
    let parent = NamespaceSet::from("inherited".to_owned());
    let mut ns = NamespaceSet::from(("x".to_owned(), "local".to_owned()));
    ns.set_parent(Rc::new(parent));
    assert_eq!(
        ns.declared_ns(),
        &vec![(Some("x".to_owned()), "local".to_owned())]
    );
    // the inherited binding is visible to get, but not declared here
    assert_eq!(ns.get(&None), Some("inherited".to_owned()));
}

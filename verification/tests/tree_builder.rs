use minidom::element::{Element, Node};
use minidom::error::Error;
use minidom::token::Token;
use minidom::tokenizer::Tokenizer;
use minidom::tree_builder::TreeBuilder;

fn build(input: &str) -> Result<Element, Error> {
    let mut tokenizer = Tokenizer::new();
    let mut builder = TreeBuilder::new();
    tokenizer.push(input.as_bytes());
    while let Some(token) = tokenizer.pull().map_err(Error::XmlError)? {
        builder.process_event(token)?;
    }
    match builder.take_root() {
        Some(root) => Ok(root),
        None => Err(Error::ParseError("document is not finished".to_owned())),
    }
}

#[test]
fn simple_tree() {
    // the one-byte-at-a-time scenario, at the tree level
    let mut tokenizer = Tokenizer::new();
    let mut builder = TreeBuilder::new();
    let buf = b"<foo bar='baz'>quux</foo>";
    for &b in buf.iter() {
        tokenizer.push(&[b]);
        while let Some(token) = tokenizer.pull().unwrap() {
            builder.process_event(token).unwrap();
        }
    }
    assert_eq!(builder.depth(), 0);
    let root = builder.take_root().unwrap();
    assert_eq!(root.name, "foo");
    assert_eq!(root.namespace, "");
    assert_eq!(root.prefix, None);
    assert_eq!(
        root.attributes,
        vec![("bar".to_owned(), "baz".to_owned())]
    );
    assert_eq!(root.children, vec![Node::Text("quux".to_owned())]);
}

#[test]
fn self_closing_tag_tree() {
    let root = build("<a/>").unwrap();
    assert_eq!(root.name, "a");
    assert!(root.children.is_empty());
}

#[test]
fn missing_namespace() {
    let mut builder = TreeBuilder::new();
    let token = match Token::parse(b"<x:z/>").unwrap().unwrap() {
        (_, t) => t,
    };
    match builder.process_event(token) {
        Err(Error::MissingNamespace) => {}
        other => panic!("expected MissingNamespace, got {:?}", other),
    }
}

#[test]
fn invalid_element_closed() {
    let mut builder = TreeBuilder::new();
    let (_, open) = Token::parse(b"<a>").unwrap().unwrap();
    builder.process_event(open).unwrap();
    let (_, close) = Token::parse(b"</b>").unwrap().unwrap();
    match builder.process_event(close) {
        Err(Error::InvalidElementClosed) => {}
        other => panic!("expected InvalidElementClosed, got {:?}", other),
    }
}

#[test]
fn prefixed_element_namespace() {
    let root = build("<x:z xmlns:x='urn:X'/>").unwrap();
    assert_eq!(root.name, "z");
    assert_eq!(root.prefix, Some("x".to_owned()));
    assert_eq!(root.namespace, "urn:X");
    assert!(root.children.is_empty());
    assert!(root.attributes.is_empty());
}

#[test]
fn default_namespace_inherited() {
    let root = build("<a xmlns='N'><b/></a>").unwrap();
    assert_eq!(root.name, "a");
    assert_eq!(root.namespace, "N");
    let children: Vec<&Element> = root
        .children
        .iter()
        .filter_map(|n| match n {
            Node::Element(e) => Some(e),
            Node::Text(_) => None,
        })
        .collect();
    assert_eq!(children.len(), 1);
    assert_eq!(children[0].name, "b");
    assert_eq!(children[0].namespace, "N");
}

#[test]
fn nearest_declaration_wins_in_tree() {
    let root = build("<a xmlns:p='u1'><b xmlns:p='u2'><p:c/></b></a>").unwrap();
    let b = match &root.children[0] {
        Node::Element(e) => e,
        _ => panic!(),
    };
    let c = match &b.children[0] {
        Node::Element(e) => e,
        _ => panic!(),
    };
    assert_eq!(c.name, "c");
    assert_eq!(c.prefix, Some("p".to_owned()));
    assert_eq!(c.namespace, "u2");
}

#[test]
fn stacks_stay_balanced() {
    let mut tokenizer = Tokenizer::new();
    let mut builder = TreeBuilder::new();
    tokenizer.push(b"<a><b><c/></b>");
    let mut depths = vec![];
    while let Some(token) = tokenizer.pull().unwrap() {
        builder.process_event(token).unwrap();
        depths.push(builder.depth());
    }
    assert_eq!(depths, vec![1, 2, 2, 1]);
}

#[test]
fn unshift_child_drains_stream() {
    let mut tokenizer = Tokenizer::new();
    let mut builder = TreeBuilder::new();
    tokenizer.push(b"<stream><one/><two/>");
    while let Some(token) = tokenizer.pull().unwrap() {
        builder.process_event(token).unwrap();
    }
    assert_eq!(builder.depth(), 1);
    let one = builder.unshift_child().unwrap();
    assert_eq!(one.name, "one");
    let two = builder.unshift_child().unwrap();
    assert_eq!(two.name, "two");
    assert!(builder.unshift_child().is_none());
    // the stream element is still open and keeps accepting children
    tokenizer.push(b"<three/>");
    while let Some(token) = tokenizer.pull().unwrap() {
        builder.process_event(token).unwrap();
    }
    let three = builder.unshift_child().unwrap();
    assert_eq!(three.name, "three");
}

#[test]
fn end_tag_at_depth_zero_is_ignored() {
    let mut builder = TreeBuilder::new();
    let (_, close) = Token::parse(b"</a>").unwrap().unwrap();
    assert!(builder.process_event(close).is_ok());
    assert_eq!(builder.depth(), 0);
}

#[test]
fn text_at_depth_zero_is_discarded() {
    let mut builder = TreeBuilder::new();
    builder
        .process_event(Token::Text("noise".to_owned()))
        .unwrap();
    assert_eq!(builder.depth(), 0);
    assert!(builder.root().is_none());
}

#[test]
fn lookup_prefix_walks_scopes() {
    let mut tokenizer = Tokenizer::new();
    let mut builder = TreeBuilder::new();
    tokenizer.push(b"<a xmlns='d' xmlns:p='u1'><b xmlns:p='u2'>");
    while let Some(token) = tokenizer.pull().unwrap() {
        builder.process_event(token).unwrap();
    }
    assert_eq!(
        builder.lookup_prefix(&Some("p".to_owned())),
        Some("u2".to_owned())
    );
    assert_eq!(builder.lookup_prefix(&None), Some("d".to_owned()));
    assert_eq!(builder.lookup_prefix(&Some("q".to_owned())), None);
}

#[test]
fn duplicate_attribute_overwrites() {
    let root = build("<a x='1' x='2'/>").unwrap();
    assert_eq!(root.attr("x"), Some(&"2".to_owned()));
    assert_eq!(root.attr("y"), None);
}

#[test]
fn empty_attribute_value() {
    let root = build("<a x=''/>").unwrap();
    assert_eq!(root.attr("x"), Some(&"".to_owned()));
}

//! The element tree that the builder produces.

use vstd::prelude::*;

verus! {

/// The view of a tree node.
pub ghost enum NodeView {
    Element(ElementView),
    Text(Seq<char>),
}

/// The view of an element.
pub ghost struct ElementView {
    pub name: Seq<char>,
    pub namespace: Seq<char>,
    pub prefix: Option<Seq<char>>,
    pub prefixes: Seq<(Option<Seq<char>>, Seq<char>)>,
    pub attributes: Seq<(Seq<char>, Seq<char>)>,
    pub children: Seq<NodeView>,
}

/// A child node: a nested element or a run of text.
#[derive(Debug, PartialEq, Eq)]
pub enum Node {
    Element(Element),
    Text(String),
}

/// An element with its resolved namespace, declared prefixes, attributes
/// and children.
#[derive(Debug, PartialEq, Eq)]
pub struct Element {
    /// The local name.
    pub name: String,
    /// The namespace URI the element's prefix resolved to.
    pub namespace: String,
    /// The prefix as written in the tag, if any.
    pub prefix: Option<String>,
    /// The namespace bindings this element declares itself.
    pub prefixes: Vec<(Option<String>, String)>,
    /// The attributes, without the namespace declarations.
    pub attributes: Vec<(String, String)>,
    /// The children, in document order.
    pub children: Vec<Node>,
}

/// The views of a sequence of nodes.
pub open spec fn nodes_view(v: Seq<Node>) -> Seq<NodeView>
    decreases v,
{
    Seq::new(
        v.len(),
        |i: int|
            if 0 <= i < v.len() {
                node_view(v[i])
            } else {
                NodeView::Text(Seq::empty())
            },
    )
}

pub open spec fn node_view(n: Node) -> NodeView
    decreases n,
{
    match n {
        Node::Element(e) => NodeView::Element(element_view(e)),
        Node::Text(s) => NodeView::Text(s@),
    }
}

pub open spec fn element_view(e: Element) -> ElementView
    decreases e,
{
    ElementView {
        name: e.name@,
        namespace: e.namespace@,
        prefix: crate::namespace_set::opt_str_view(e.prefix),
        prefixes: crate::namespace_set::bindings_view(e.prefixes@),
        attributes: pairs_view(e.attributes@),
        children: nodes_view(e.children@),
    }
}

impl View for Element {
    type V = ElementView;

    open spec fn view(&self) -> ElementView {
        element_view(*self)
    }
}

impl View for Node {
    type V = NodeView;

    open spec fn view(&self) -> NodeView {
        node_view(*self)
    }
}

/// The views of a sequence of attribute pairs.
pub open spec fn pairs_view(s: Seq<(String, String)>) -> Seq<(Seq<char>, Seq<char>)> {
    s.map_values(|a: (String, String)| (a.0@, a.1@))
}

/// The element children among a sequence of nodes, in order.
pub open spec fn elem_children(v: Seq<NodeView>) -> Seq<ElementView>
    decreases v.len(),
{
    if v.len() == 0 {
        Seq::empty()
    } else {
        match v[0] {
            NodeView::Element(e) => seq![e] + elem_children(v.drop_first()),
            NodeView::Text(_) => elem_children(v.drop_first()),
        }
    }
}

/// The concatenation of the text children among a sequence of nodes.
pub open spec fn texts(v: Seq<NodeView>) -> Seq<char>
    decreases v.len(),
{
    if v.len() == 0 {
        Seq::empty()
    } else {
        match v[0] {
            NodeView::Element(_) => texts(v.drop_first()),
            NodeView::Text(t) => t + texts(v.drop_first()),
        }
    }
}

pub proof fn lemma_elem_children_concat(a: Seq<NodeView>, b: Seq<NodeView>)
    ensures
        elem_children(a + b) == elem_children(a) + elem_children(b),
    decreases a.len(),
{
    if a.len() == 0 {
        assert(a + b =~= b);
        assert(elem_children(a) + elem_children(b) =~= elem_children(b));
    } else {
        assert((a + b)[0] == a[0]);
        assert((a + b).drop_first() =~= a.drop_first() + b);
        lemma_elem_children_concat(a.drop_first(), b);
        match a[0] {
            NodeView::Element(e) => {
                assert(seq![e] + (elem_children(a.drop_first()) + elem_children(b)) =~= (seq![e]
                    + elem_children(a.drop_first())) + elem_children(b));
            },
            NodeView::Text(_) => {},
        }
    }
}

/// The first element child with the given name and namespace.
pub open spec fn find_child(ec: Seq<ElementView>, name: Seq<char>, ns: Seq<char>) -> Option<
    ElementView,
>
    decreases ec.len(),
{
    if ec.len() == 0 {
        None
    } else if ec[0].name == name && ec[0].namespace == ns {
        Some(ec[0])
    } else {
        find_child(ec.drop_first(), name, ns)
    }
}

/// First value bound to `k` in an attribute list.
pub open spec fn attr_lookup(a: Seq<(Seq<char>, Seq<char>)>, k: Seq<char>) -> Option<Seq<char>>
    decreases a.len(),
{
    if a.len() == 0 {
        None
    } else if a[0].0 == k {
        Some(a[0].1)
    } else {
        attr_lookup(a.drop_first(), k)
    }
}

impl Element {
    /// A fresh element with no children appended yet beyond those given.
    pub fn new(
        name: String,
        namespace: String,
        prefix: Option<String>,
        prefixes: Vec<(Option<String>, String)>,
        attributes: Vec<(String, String)>,
        children: Vec<Node>,
    ) -> (r: Element)
        ensures
            r@.name == name@,
            r@.namespace == namespace@,
            r@.prefix == crate::namespace_set::opt_str_view(prefix),
            r@.prefixes == crate::namespace_set::bindings_view(prefixes@),
            r@.attributes == pairs_view(attributes@),
            r@.children == nodes_view(children@),
    {
        Element { name, namespace, prefix, prefixes, attributes, children }
    }

    /// Whether this element has the given local name and namespace.
    pub fn is(&self, name: &str, namespace: &str) -> (r: bool)
        ensures
            r == (self@.name == name@ && self@.namespace == namespace@),
    {
        crate::decode::str_eq(self.name.as_str(), name) && crate::decode::str_eq(
            self.namespace.as_str(),
            namespace,
        )
    }

    /// Appends a nested element at the end.
    pub fn append_child(&mut self, child: Element)
        ensures
            final(self)@ == (ElementView {
                children: old(self)@.children.push(NodeView::Element(child@)),
                ..old(self)@
            }),
    {
        let ghost before = self.children@;
        self.children.push(Node::Element(child));
        proof {
            assert(nodes_view(self.children@) =~= nodes_view(before).push(
                node_view(self.children@.last()),
            ));
        }
    }

    /// Appends a run of text at the end.
    pub fn append_text_node(&mut self, text: String)
        ensures
            final(self)@ == (ElementView {
                children: old(self)@.children.push(NodeView::Text(text@)),
                ..old(self)@
            }),
    {
        let ghost before = self.children@;
        self.children.push(Node::Text(text));
        proof {
            assert(nodes_view(self.children@) =~= nodes_view(before).push(
                node_view(self.children@.last()),
            ));
        }
    }

    /// Detaches and returns the first child when it is an element; used by
    /// streaming consumers to drain completed sub-trees.
    pub fn unshift_child(&mut self) -> (r: Option<Element>)
        ensures
            (match r {
                Option::Some(e) => old(self)@.children.len() > 0 && old(self)@.children[0]
                    == NodeView::Element(e@) && final(self)@ == (ElementView {
                    children: old(self)@.children.drop_first(),
                    ..old(self)@
                }),
                Option::None => *final(self) == *old(self) && (old(self)@.children.len() == 0 || !(
                old(self)@.children[0] is Element)),
            }),
    {
        if self.children.len() == 0 {
            return None;
        }
        let first_is_element = match &self.children[0] {
            Node::Element(_) => true,
            Node::Text(_) => false,
        };
        if !first_is_element {
            return None;
        }
        let ghost before = self.children@;
        let node = self.children.remove(0);
        proof {
            assert(nodes_view(self.children@) =~= nodes_view(before).drop_first());
        }
        match node {
            Node::Element(e) => Some(e),
            Node::Text(_) => {
                proof {
                    assert(false);
                }
                None
            },
        }
    }

    /// The value of the attribute with the given name, if present.
    pub fn attr(&self, name: &str) -> (r: Option<&String>)
        ensures
            (match r {
                Option::Some(v) => attr_lookup(self@.attributes, name@) == Some(v@),
                Option::None => attr_lookup(self@.attributes, name@) is None,
            }),
    {
        let ghost av = self@.attributes;
        let n = self.attributes.len();
        let mut i: usize = 0;
        proof {
            assert(av.skip(0) =~= av);
        }
        while i < n
            invariant
                i <= n,
                n == self.attributes@.len(),
                av == self@.attributes,
                attr_lookup(av, name@) == attr_lookup(av.skip(i as int), name@),
            decreases n - i,
        {
            let a = &self.attributes[i];
            proof {
                assert(av.skip(i as int)[0] == av[i as int]);
                assert(av[i as int] == (self.attributes@[i as int].0@, self.attributes@[i as int].1@));
            }
            if crate::decode::str_eq(a.0.as_str(), name) {
                return Some(&a.1);
            }
            proof {
                assert(av.skip(i as int).drop_first() =~= av.skip((i + 1) as int));
            }
            i = i + 1;
        }
        proof {
            assert(av.skip(n as int).len() == 0);
        }
        None
    }

    /// How many of the children are elements.
    pub fn element_child_count(&self) -> (r: usize)
        ensures
            r == elem_children(self@.children).len(),
    {
        let cv = &self.children;
        let n = cv.len();
        let mut count: usize = 0;
        let mut i: usize = 0;
        proof {
            assert(self@.children.take(0) =~= Seq::<NodeView>::empty());
        }
        while i < n
            invariant
                i <= n,
                n == self.children@.len(),
                self@.children == nodes_view(self.children@),
                count == elem_children(self@.children.take(i as int)).len(),
                count <= i,
            decreases n - i,
        {
            let ghost cvv = self@.children;
            proof {
                assert(cvv.take((i + 1) as int) =~= cvv.take(i as int) + seq![cvv[i as int]]);
                lemma_elem_children_concat(cvv.take(i as int), seq![cvv[i as int]]);
                assert(seq![cvv[i as int]].drop_first() =~= Seq::<NodeView>::empty());
                assert(cvv[i as int] == node_view(self.children@[i as int]));
            }
            let node = &self.children[i];
            match node {
                Node::Element(_) => {
                    proof {
                        reveal_with_fuel(elem_children, 3);
                        assert(self.children@[i as int] is Element);
                        assert(cvv[i as int] is Element);
                        assert(elem_children(seq![cvv[i as int]]).len() == 1);
                    }
                    count = count + 1;
                },
                Node::Text(_) => {
                    proof {
                        reveal_with_fuel(elem_children, 3);
                        assert(elem_children(seq![cvv[i as int]]).len() == 0);
                    }
                },
            }
            i = i + 1;
        }
        proof {
            assert(self@.children.take(n as int) =~= self@.children);
        }
        count
    }

    /// The `i`-th element child, when there are more than `i` of them.
    pub fn element_child(&self, i: usize) -> (r: Option<&Element>)
        ensures
            (match r {
                Option::Some(e) => i < elem_children(self@.children).len() && e@ == elem_children(
                    self@.children,
                )[i as int],
                Option::None => i >= elem_children(self@.children).len(),
            }),
    {
        let cv = &self.children;
        let n = cv.len();
        let mut seen: usize = 0;
        let mut j: usize = 0;
        proof {
            assert(self@.children.take(0) =~= Seq::<NodeView>::empty());
        }
        while j < n
            invariant
                j <= n,
                n == self.children@.len(),
                self@.children == nodes_view(self.children@),
                seen == elem_children(self@.children.take(j as int)).len(),
                seen <= i,
            decreases n - j,
        {
            let ghost cvv = self@.children;
            proof {
                assert(cvv.take((j + 1) as int) =~= cvv.take(j as int) + seq![cvv[j as int]]);
                lemma_elem_children_concat(cvv.take(j as int), seq![cvv[j as int]]);
                assert(seq![cvv[j as int]].drop_first() =~= Seq::<NodeView>::empty());
                assert(cvv[j as int] == node_view(self.children@[j as int]));
                assert(cvv =~= cvv.take(j as int) + cvv.skip(j as int));
                lemma_elem_children_concat(cvv.take(j as int), cvv.skip(j as int));
                assert(cvv.skip(j as int)[0] == cvv[j as int]);
            }
            let node = &self.children[j];
            match node {
                Node::Element(e) => {
                    proof {
                        reveal_with_fuel(elem_children, 3);
                        assert(self.children@[j as int] is Element);
                        assert(cvv[j as int] is Element);
                        assert(elem_children(seq![cvv[j as int]]).len() == 1);
                    }
                    if seen == i {
                        proof {
                            assert(cvv.skip(j as int).drop_first() =~= cvv.skip((j + 1) as int));
                            assert(elem_children(cvv)[i as int] == elem_children(
                                cvv.skip(j as int),
                            )[0]);
                        }
                        return Some(e);
                    }
                    seen = seen + 1;
                },
                Node::Text(_) => {
                    proof {
                        reveal_with_fuel(elem_children, 3);
                        assert(elem_children(seq![cvv[j as int]]).len() == 0);
                    }
                },
            }
            j = j + 1;
        }
        proof {
            assert(self@.children.take(n as int) =~= self@.children);
        }
        None
    }

    /// The first element child with the given name and namespace.
    pub fn get_child(&self, name: &str, namespace: &str) -> (r: Option<&Element>)
        ensures
            (match r {
                Option::Some(e) => find_child(elem_children(self@.children), name@, namespace@)
                    == Some(e@),
                Option::None => find_child(elem_children(self@.children), name@, namespace@)
                    is None,
            }),
    {
        let ghost ec = elem_children(self@.children);
        proof {
            assert(ec.skip(0) =~= ec);
        }
        let n = self.element_child_count();
        let mut i: usize = 0;
        while i < n
            invariant
                i <= n,
                n == ec.len(),
                ec == elem_children(self@.children),
                find_child(ec, name@, namespace@) == find_child(ec.skip(i as int), name@, namespace@),
            decreases n - i,
        {
            proof {
                assert(ec.skip(i as int)[0] == ec[i as int]);
                assert(ec.skip(i as int).drop_first() =~= ec.skip((i + 1) as int));
            }
            match self.element_child(i) {
                Option::Some(e) => {
                    if e.is(name, namespace) {
                        return Some(e);
                    }
                },
                Option::None => {},
            }
            i = i + 1;
        }
        proof {
            assert(ec.skip(n as int).len() == 0);
        }
        None
    }

    /// The concatenation of the direct text children.
    pub fn text(&self) -> (r: String)
        ensures
            r@ == texts(self@.children),
    {
        let n = self.children.len();
        let mut out = String::new();
        let mut i: usize = 0;
        proof {
            assert(self@.children.skip(0) =~= self@.children);
            assert(out@ + texts(self@.children) =~= texts(self@.children));
        }
        while i < n
            invariant
                i <= n,
                n == self.children@.len(),
                self@.children == nodes_view(self.children@),
                texts(self@.children) == out@ + texts(self@.children.skip(i as int)),
            decreases n - i,
        {
            let ghost cvv = self@.children;
            proof {
                assert(cvv.skip(i as int)[0] == cvv[i as int]);
                assert(cvv[i as int] == node_view(self.children@[i as int]));
                assert(cvv.skip(i as int).drop_first() =~= cvv.skip((i + 1) as int));
            }
            match &self.children[i] {
                Node::Element(_) => {},
                Node::Text(t) => {
                    proof {
                        assert(out@ + (t@ + texts(cvv.skip((i + 1) as int))) =~= (out@ + t@)
                            + texts(cvv.skip((i + 1) as int)));
                    }
                    crate::decode::push_str(&mut out, t.as_str());
                },
            }
            i = i + 1;
        }
        proof {
            assert(texts(self@.children.skip(n as int)) =~= Seq::<char>::empty());
            assert(out@ + Seq::<char>::empty() =~= out@);
        }
        out
    }

}

} // verus!

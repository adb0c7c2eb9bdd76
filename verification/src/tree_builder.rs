//! SAX tokens to element tree conversion.
//!
//! The builder keeps a stack of open elements and, in parallel, a stack of
//! the namespace bindings each open element declared.  Start tags resolve
//! their prefix against the whole stack, innermost scope first; end tags
//! must match the innermost open element; the root is exposed once the
//! outermost element closes.

use crate::decode::{push_char, push_str, str_eq};
use crate::element::{pairs_view, Element, ElementView, Node, NodeView, nodes_view};
use crate::error::Error;
use crate::namespace_set::{
    binding_view, bindings_view, opt_str_eq, opt_str_view, seq_lookup, BindingView,
};
use crate::token::{attrs_view, Attribute, LocalName, QNameView, Token, TokenView};
use vstd::prelude::*;

verus! {

/// The view of the builder: the open elements, outermost first; the
/// bindings each of them declared; and the finished root, if any.
pub ghost struct BuilderView {
    pub stack: Seq<ElementView>,
    pub scopes: Seq<Seq<BindingView>>,
    pub root: Option<ElementView>,
}

/// The element stack and the scope stack always have the same length.
pub open spec fn balanced(b: BuilderView) -> bool {
    b.stack.len() == b.scopes.len()
}

/// What one token does to the builder.
pub ghost enum BuilderStep {
    Next { next: BuilderView },
    MissingNamespace,
    InvalidElementClosed,
}

/// Binds `k` to `v` in a key-value sequence: the first entry with key `k`
/// is replaced in place, or the binding is appended.
pub open spec fn upsert<K, V>(s: Seq<(K, V)>, k: K, v: V) -> Seq<(K, V)>
    decreases s.len(),
{
    if s.len() == 0 {
        seq![(k, v)]
    } else if s[0].0 == k {
        seq![(k, v)] + s.drop_first()
    } else {
        seq![s[0]] + upsert(s.drop_first(), k, v)
    }
}

/// The characters of `xmlns`.
pub open spec fn xmlns_chars() -> Seq<char> {
    seq!['x', 'm', 'l', 'n', 's']
}

/// The name under which an attribute is stored on its element: the prefix
/// and local name joined by `:`, or the bare local name.
pub open spec fn attr_key(n: QNameView) -> Seq<char> {
    match n.prefix {
        Option::Some(p) => p + seq![':'] + n.local,
        Option::None => n.local,
    }
}

/// Splits a start tag's attributes: `xmlns` declares the default
/// namespace, `xmlns:p` declares the prefix `p`, and everything else is a
/// plain attribute under its recomposed name.  Later duplicates replace
/// earlier ones.
pub open spec fn split_attrs(
    attrs: Seq<crate::token::AttrView>,
    decls: Seq<BindingView>,
    plain: Seq<(Seq<char>, Seq<char>)>,
) -> (Seq<BindingView>, Seq<(Seq<char>, Seq<char>)>)
    decreases attrs.len(),
{
    if attrs.len() == 0 {
        (decls, plain)
    } else {
        let a = attrs[0];
        let rest = attrs.drop_first();
        if a.name.prefix is None && a.name.local == xmlns_chars() {
            split_attrs(rest, upsert(decls, Option::<Seq<char>>::None, a.value), plain)
        } else if a.name.prefix == Some(xmlns_chars()) {
            split_attrs(rest, upsert(decls, Some(a.name.local), a.value), plain)
        } else {
            split_attrs(rest, decls, upsert(plain, attr_key(a.name), a.value))
        }
    }
}

/// Lookup across the scope stack, innermost (last) scope first.
pub open spec fn scopes_lookup(scopes: Seq<Seq<BindingView>>, p: Option<Seq<char>>) -> Option<
    Seq<char>,
>
    decreases scopes.len(),
{
    if scopes.len() == 0 {
        None
    } else {
        match seq_lookup(scopes.last(), p) {
            Option::Some(v) => Some(v),
            Option::None => scopes_lookup(scopes.drop_last(), p),
        }
    }
}

/// The nearest enclosing declaration wins: when scope `d` declares `p` and
/// no scope above it does, the stack lookup answers scope `d`.
pub proof fn lemma_scopes_lookup_nearest(scopes: Seq<Seq<BindingView>>, p: Option<Seq<char>>, d: int)
    requires
        0 <= d < scopes.len(),
        seq_lookup(scopes[d], p) is Some,
        forall|m: int| d < m < scopes.len() ==> seq_lookup(#[trigger] scopes[m], p) is None,
    ensures
        scopes_lookup(scopes, p) == seq_lookup(scopes[d], p),
    decreases scopes.len(),
{
    if d == scopes.len() - 1 {
    } else {
        assert(forall|m: int|
            d < m < scopes.drop_last().len() ==> seq_lookup(
                #[trigger] scopes.drop_last()[m],
                p,
            ) is None);
        lemma_scopes_lookup_nearest(scopes.drop_last(), p, d);
    }
}

/// When no scope declares `p`, the stack lookup answers nothing.
pub proof fn lemma_scopes_lookup_none(scopes: Seq<Seq<BindingView>>, p: Option<Seq<char>>)
    requires
        forall|m: int| 0 <= m < scopes.len() ==> seq_lookup(#[trigger] scopes[m], p) is None,
    ensures
        scopes_lookup(scopes, p) is None,
    decreases scopes.len(),
{
    if scopes.len() > 0 {
        lemma_scopes_lookup_none(scopes.drop_last(), p);
    }
}

/// Attaches a finished element: as the last child of the innermost open
/// element, or as the root when nothing is open.
pub open spec fn close_with(b: BuilderView, el: ElementView) -> BuilderView {
    if b.stack.len() > 0 {
        let top = b.stack.last();
        let top2 = ElementView { children: top.children.push(NodeView::Element(el)), ..top };
        BuilderView { stack: b.stack.update(b.stack.len() - 1, top2), scopes: b.scopes, root: b.root }
    } else {
        BuilderView { stack: b.stack, scopes: b.scopes, root: Some(el) }
    }
}

/// A start tag: split the attributes, resolve the prefix against the stack
/// including the tag's own declarations, and open (or, when self-closing,
/// immediately attach) the element.  An unresolved non-empty prefix is
/// fatal; an unresolved absent prefix means the empty namespace.
pub open spec fn start_step(
    b: BuilderView,
    name: QNameView,
    attrs: Seq<crate::token::AttrView>,
    self_closing: bool,
) -> BuilderStep {
    let (decls, plain) = split_attrs(attrs, Seq::empty(), Seq::empty());
    let scopes2 = b.scopes.push(decls);
    let ns = scopes_lookup(scopes2, name.prefix);
    if name.prefix is Some && ns is None {
        BuilderStep::MissingNamespace
    } else {
        let nsv = match ns {
            Option::Some(v) => v,
            Option::None => Seq::empty(),
        };
        let el = ElementView {
            name: name.local,
            namespace: nsv,
            prefix: name.prefix,
            prefixes: decls,
            attributes: plain,
            children: Seq::empty(),
        };
        if self_closing {
            BuilderStep::Next { next: close_with(b, el) }
        } else {
            BuilderStep::Next {
                next: BuilderView { stack: b.stack.push(el), scopes: scopes2, root: b.root },
            }
        }
    }
}

/// An end tag: the innermost open element must match its name and prefix
/// exactly and is attached to its parent, or becomes the root.  An end tag
/// with nothing open is ignored.
pub open spec fn end_step(b: BuilderView, name: QNameView) -> BuilderStep {
    if b.stack.len() == 0 {
        BuilderStep::Next { next: b }
    } else {
        let el = b.stack.last();
        if el.name == name.local && el.prefix == name.prefix {
            let b2 = BuilderView {
                stack: b.stack.drop_last(),
                scopes: b.scopes.drop_last(),
                root: b.root,
            };
            BuilderStep::Next { next: close_with(b2, el) }
        } else {
            BuilderStep::InvalidElementClosed
        }
    }
}

/// Text: appended to the innermost open element, discarded at depth zero.
pub open spec fn text_step(b: BuilderView, t: Seq<char>) -> BuilderView {
    if b.stack.len() == 0 {
        b
    } else {
        let top = b.stack.last();
        let top2 = ElementView { children: top.children.push(NodeView::Text(t)), ..top };
        BuilderView { stack: b.stack.update(b.stack.len() - 1, top2), scopes: b.scopes, root: b.root }
    }
}

/// What one token does to the builder.
pub open spec fn builder_step(b: BuilderView, tok: TokenView) -> BuilderStep {
    match tok {
        TokenView::StartTag { name, attrs, self_closing } => start_step(
            b,
            name,
            attrs,
            self_closing,
        ),
        TokenView::EndTag { name } => end_step(b, name),
        TokenView::Text { text } => BuilderStep::Next { next: text_step(b, text) },
    }
}

/// Tree-building parser state.
pub struct TreeBuilder {
    stack: Vec<Element>,
    prefixes_stack: Vec<Vec<(Option<String>, String)>>,
    root: Option<Element>,
}

impl View for TreeBuilder {
    type V = BuilderView;

    closed spec fn view(&self) -> BuilderView {
        BuilderView {
            stack: self.stack@.map_values(|e: Element| crate::element::element_view(e)),
            scopes: self.prefixes_stack@.map_values(
                |v: Vec<(Option<String>, String)>| bindings_view(v@),
            ),
            root: match self.root {
                Option::None => None,
                Option::Some(e) => Some(crate::element::element_view(e)),
            },
        }
    }
}

/// Replacing the first occurrence of a key is the in-place update.
proof fn lemma_upsert_found<K, V>(s: Seq<(K, V)>, i: int, k: K, v: V)
    requires
        0 <= i < s.len(),
        s[i].0 == k,
        forall|j: int| 0 <= j < i ==> (#[trigger] s[j]).0 != k,
    ensures
        upsert(s, k, v) == s.update(i, (k, v)),
    decreases i,
{
    if i == 0 {
        assert(seq![(k, v)] + s.drop_first() =~= s.update(0, (k, v)));
    } else {
        lemma_upsert_found(s.drop_first(), i - 1, k, v);
        assert(seq![s[0]] + s.drop_first().update(i - 1, (k, v)) =~= s.update(i, (k, v)));
    }
}

/// Binding an absent key is the append.
proof fn lemma_upsert_absent<K, V>(s: Seq<(K, V)>, k: K, v: V)
    requires
        forall|j: int| 0 <= j < s.len() ==> (#[trigger] s[j]).0 != k,
    ensures
        upsert(s, k, v) == s.push((k, v)),
    decreases s.len(),
{
    if s.len() == 0 {
        assert(seq![(k, v)] =~= s.push((k, v)));
    } else {
        lemma_upsert_absent(s.drop_first(), k, v);
        assert(seq![s[0]] + s.drop_first().push((k, v)) =~= s.push((k, v)));
    }
}

/// Binds `k` to `val` among the stored namespace declarations.
fn binding_upsert(v: &mut Vec<(Option<String>, String)>, k: Option<String>, val: String)
    ensures
        bindings_view(final(v)@) == upsert(bindings_view(old(v)@), opt_str_view(k), val@),
{
    let ghost dv = bindings_view(v@);
    let ghost kk = opt_str_view(k);
    let n = v.len();
    let mut i: usize = 0;
    while i < n
        invariant
            *v == *old(v),
            n == v@.len(),
            i <= n,
            dv == bindings_view(v@),
            kk == opt_str_view(k),
            forall|j: int| 0 <= j < i ==> (#[trigger] dv[j]).0 != kk,
        decreases n - i,
    {
        let hit = opt_str_eq(&v[i].0, &k);
        proof {
            assert(dv[i as int] == binding_view(v@[i as int]));
        }
        if hit {
            v.remove(i);
            v.insert(i, (k, val));
            proof {
                let dv2 = bindings_view(v@);
                assert forall|j: int| 0 <= j < dv2.len() implies dv2[j] == dv.update(
                    i as int,
                    (kk, val@),
                )[j] by {
                    assert(dv2[j] == binding_view(v@[j]));
                }
                assert(dv2 =~= dv.update(i as int, (kk, val@)));
                lemma_upsert_found(dv, i as int, kk, val@);
            }
            return ;
        }
        i = i + 1;
    }
    v.push((k, val));
    proof {
        let dv2 = bindings_view(v@);
        assert forall|j: int| 0 <= j < dv2.len() implies dv2[j] == dv.push((kk, val@))[j] by {
            assert(dv2[j] == binding_view(v@[j]));
        }
        assert(dv2 =~= dv.push((kk, val@)));
        lemma_upsert_absent(dv, kk, val@);
    }
}

/// Binds `k` to `val` among the stored attributes.
fn attr_upsert(v: &mut Vec<(String, String)>, k: String, val: String)
    ensures
        pairs_view(final(v)@) == upsert(pairs_view(old(v)@), k@, val@),
{
    let ghost dv = pairs_view(v@);
    let n = v.len();
    let mut i: usize = 0;
    while i < n
        invariant
            *v == *old(v),
            n == v@.len(),
            i <= n,
            dv == pairs_view(v@),
            forall|j: int| 0 <= j < i ==> (#[trigger] dv[j]).0 != k@,
        decreases n - i,
    {
        let hit = str_eq(v[i].0.as_str(), k.as_str());
        proof {
            assert(dv[i as int] == (v@[i as int].0@, v@[i as int].1@));
        }
        if hit {
            v.remove(i);
            v.insert(i, (k, val));
            proof {
                let dv2 = pairs_view(v@);
                assert forall|j: int| 0 <= j < dv2.len() implies dv2[j] == dv.update(
                    i as int,
                    (k@, val@),
                )[j] by {
                    assert(dv2[j] == (v@[j].0@, v@[j].1@));
                }
                assert(dv2 =~= dv.update(i as int, (k@, val@)));
                lemma_upsert_found(dv, i as int, k@, val@);
            }
            return ;
        }
        i = i + 1;
    }
    v.push((k, val));
    proof {
        let dv2 = pairs_view(v@);
        assert forall|j: int| 0 <= j < dv2.len() implies dv2[j] == dv.push((k@, val@))[j] by {
            assert(dv2[j] == (v@[j].0@, v@[j].1@));
        }
        assert(dv2 =~= dv.push((k@, val@)));
        lemma_upsert_absent(dv, k@, val@);
    }
}

/// First binding for the prefix in one stored scope.
fn bindings_get(v: &Vec<(Option<String>, String)>, p: &Option<String>) -> (r: Option<String>)
    ensures
        opt_str_view(r) == seq_lookup(bindings_view(v@), opt_str_view(*p)),
{
    let ghost dv = bindings_view(v@);
    let ghost pp = opt_str_view(*p);
    proof {
        assert(dv.skip(0) =~= dv);
    }
    let n = v.len();
    let mut i: usize = 0;
    while i < n
        invariant
            n == v@.len(),
            i <= n,
            dv == bindings_view(v@),
            pp == opt_str_view(*p),
            seq_lookup(dv, pp) == seq_lookup(dv.skip(i as int), pp),
        decreases n - i,
    {
        let b = &v[i];
        proof {
            assert(dv.skip(i as int)[0] == dv[i as int]);
            assert(dv[i as int] == binding_view(v@[i as int]));
        }
        if opt_str_eq(&b.0, p) {
            return Some(b.1.clone());
        }
        proof {
            assert(dv.skip(i as int).drop_first() =~= dv.skip((i + 1) as int));
        }
        i = i + 1;
    }
    proof {
        assert(dv.skip(n as int).len() == 0);
    }
    None
}

/// The composed attribute name `prefix:local`.
fn compose_key(prefix: &String, local: &String) -> (r: String)
    ensures
        r@ == prefix@ + seq![':'] + local@,
{
    let mut out = String::new();
    push_str(&mut out, prefix.as_str());
    push_char(&mut out, ':');
    push_str(&mut out, local.as_str());
    proof {
        assert(out@ =~= prefix@ + seq![':'] + local@);
    }
    out
}

impl TreeBuilder {
    /// A builder with nothing open and no root yet.
    pub fn new() -> (r: Self)
        ensures
            r@.stack.len() == 0,
            r@.scopes.len() == 0,
            r@.root is None,
            balanced(r@),
    {
        TreeBuilder { stack: Vec::new(), prefixes_stack: Vec::new(), root: None }
    }

    /// How many elements are open.
    pub fn depth(&self) -> (r: usize)
        ensures
            r == self@.stack.len(),
    {
        self.stack.len()
    }

    /// The innermost open element, if any.
    pub fn top(&self) -> (r: Option<&Element>)
        ensures
            (match r {
                Option::Some(e) => self@.stack.len() > 0 && e@ == self@.stack.last(),
                Option::None => self@.stack.len() == 0,
            }),
    {
        let n = self.stack.len();
        if n == 0 {
            None
        } else {
            Some(&self.stack[n - 1])
        }
    }

    /// The finished document root, once the outermost element has closed.
    pub fn root(&self) -> (r: &Option<Element>)
        ensures
            (r is Some) == (self@.root is Some),
            (r matches Some(e) ==> self@.root == Some(e@)),
    {
        &self.root
    }

    /// Moves the finished root out of the builder.
    pub fn take_root(&mut self) -> (r: Option<Element>)
        ensures
            final(self)@.root is None,
            final(self)@.stack == old(self)@.stack,
            final(self)@.scopes == old(self)@.scopes,
            (r is Some) == (old(self)@.root is Some),
            (r matches Some(e) ==> old(self)@.root == Some(e@)),
    {
        let mut out: Option<Element> = None;
        core::mem::swap(&mut out, &mut self.root);
        out
    }

    /// Pops the innermost open element together with its scope.
    fn pop(&mut self) -> (r: Option<Element>)
        requires
            balanced(old(self)@),
        ensures
            balanced(final(self)@),
            (match r {
                Option::Some(e) => old(self)@.stack.len() > 0 && e@ == old(self)@.stack.last()
                    && final(self)@ == (BuilderView {
                    stack: old(self)@.stack.drop_last(),
                    scopes: old(self)@.scopes.drop_last(),
                    root: old(self)@.root,
                }),
                Option::None => old(self)@.stack.len() == 0 && final(self)@ == old(self)@,
            }),
    {
        let _ = self.prefixes_stack.pop();
        let r = self.stack.pop();
        proof {
            if old(self)@.stack.len() > 0 {
                assert(self@.stack =~= old(self)@.stack.drop_last());
                assert(self@.scopes =~= old(self)@.scopes.drop_last());
            } else {
                assert(self@.stack =~= old(self)@.stack);
                assert(self@.scopes =~= old(self)@.scopes);
            }
        }
        r
    }

    /// Detaches the first child of the innermost open element when that
    /// child is an element; the builder's later work is unaffected.
    pub fn unshift_child(&mut self) -> (r: Option<Element>)
        ensures
            balanced(old(self)@) ==> balanced(final(self)@),
            (match r {
                Option::Some(e) => old(self)@.stack.len() > 0 && old(self)@.stack.last().children.len() > 0 && old(self)@.stack.last().children[0]
                    == NodeView::Element(e@) && final(self)@ == (BuilderView {
                    stack: old(self)@.stack.update(
                        old(self)@.stack.len() - 1,
                        ElementView {
                            children: old(self)@.stack.last().children.drop_first(),
                            ..old(self)@.stack.last()
                        },
                    ),
                    scopes: old(self)@.scopes,
                    root: old(self)@.root,
                }),
                Option::None => final(self)@ == old(self)@ && (old(self)@.stack.len() == 0 || old(self)@.stack.last().children.len() == 0 || !(old(self)@.stack.last().children[0]
                    is Element)),
            }),
    {
        let depth = self.stack.len();
        if depth == 0 {
            return None;
        }
        let first_ok = {
            let top = &self.stack[depth - 1];
            if top.children.len() == 0 {
                false
            } else {
                match &top.children[0] {
                    Node::Element(_) => true,
                    Node::Text(_) => false,
                }
            }
        };
        if !first_ok {
            return None;
        }
        let mut top = match self.stack.pop() {
            Option::Some(t) => t,
            Option::None => {
                proof {
                    assert(false);
                }
                return None;
            },
        };
        let r = top.unshift_child();
        self.stack.push(top);
        proof {
            assert(self@.stack =~= old(self)@.stack.update(
                old(self)@.stack.len() - 1,
                self@.stack.last(),
            ));
            assert(self@.scopes =~= old(self)@.scopes);
        }
        match r {
            Option::Some(e) => Some(e),
            Option::None => {
                proof {
                    assert(false);
                }
                None
            },
        }
    }

    /// Resolves a prefix against the whole stack of open scopes, the
    /// innermost scope first.
    pub fn lookup_prefix(&self, prefix: &Option<String>) -> (r: Option<String>)
        ensures
            opt_str_view(r) == scopes_lookup(self@.scopes, opt_str_view(*prefix)),
    {
        let ghost sv = self@.scopes;
        let ghost pp = opt_str_view(*prefix);
        let n = self.prefixes_stack.len();
        let mut i: usize = n;
        proof {
            assert(sv.take(n as int) =~= sv);
        }
        while i > 0
            invariant
                i <= n,
                n == self.prefixes_stack@.len(),
                sv == self@.scopes,
                pp == opt_str_view(*prefix),
                scopes_lookup(sv, pp) == scopes_lookup(sv.take(i as int), pp),
            decreases i,
        {
            proof {
                assert(sv.take(i as int).last() == sv[i - 1]);
                assert(sv[i - 1] == bindings_view(self.prefixes_stack@[i - 1]@));
                assert(sv.take(i as int).drop_last() =~= sv.take((i - 1) as int));
            }
            match bindings_get(&self.prefixes_stack[i - 1], prefix) {
                Option::Some(v) => {
                    return Some(v);
                },
                Option::None => {},
            }
            i = i - 1;
        }
        None
    }

    /// Handles a start tag, per [`start_step`].
    fn process_start_tag(
        &mut self,
        name: LocalName,
        attrs: Vec<Attribute>,
        self_closing: bool,
    ) -> (r: Result<(), Error>)
        requires
            balanced(old(self)@),
        ensures
            balanced(final(self)@),
            (match start_step(old(self)@, name@, attrs_view(attrs@), self_closing) {
                BuilderStep::Next { next } => (r is Ok) && final(self)@ == next,
                BuilderStep::MissingNamespace => (r matches Err(Error::MissingNamespace)) && final(self)@ == old(self)@,
                BuilderStep::InvalidElementClosed => false,
            }),
    {
        let ghost avf = attrs_view(attrs@);
        let mut decls_el: Vec<(Option<String>, String)> = Vec::new();
        let mut decls_scope: Vec<(Option<String>, String)> = Vec::new();
        let mut plain: Vec<(String, String)> = Vec::new();
        proof {
            assert(avf.skip(0) =~= avf);
            assert(bindings_view(decls_el@) =~= Seq::<BindingView>::empty());
            assert(pairs_view(plain@) =~= Seq::<(Seq<char>, Seq<char>)>::empty());
            reveal_strlit("xmlns");
            assert("xmlns"@ =~= xmlns_chars());
        }
        let n = attrs.len();
        let mut i: usize = 0;
        while i < n
            invariant
                i <= n,
                n == attrs@.len(),
                avf == attrs_view(attrs@),
                (split_attrs(avf, Seq::empty(), Seq::empty()) == split_attrs(
                    avf.skip(i as int),
                    bindings_view(decls_el@),
                    pairs_view(plain@),
                )),
                bindings_view(decls_scope@) == bindings_view(decls_el@),
                "xmlns"@ == xmlns_chars(),
            decreases n - i,
        {
            let a = &attrs[i];
            proof {
                assert(avf.skip(i as int)[0] == avf[i as int]);
                assert(avf[i as int] == attrs@[i as int]@);
                assert(avf.skip(i as int).drop_first() =~= avf.skip((i + 1) as int));
            }
            match &a.name.prefix {
                Option::None => {
                    if str_eq(a.name.name.as_str(), "xmlns") {
                        binding_upsert(&mut decls_el, None, a.value.clone());
                        binding_upsert(&mut decls_scope, None, a.value.clone());
                    } else {
                        attr_upsert(&mut plain, a.name.name.clone(), a.value.clone());
                    }
                },
                Option::Some(p) => {
                    if str_eq(p.as_str(), "xmlns") {
                        binding_upsert(&mut decls_el, Some(a.name.name.clone()), a.value.clone());
                        binding_upsert(
                            &mut decls_scope,
                            Some(a.name.name.clone()),
                            a.value.clone(),
                        );
                    } else {
                        let key = compose_key(p, &a.name.name);
                        attr_upsert(&mut plain, key, a.value.clone());
                    }
                },
            }
            i = i + 1;
        }
        proof {
            assert(avf.skip(n as int).len() == 0);
        }
        let ghost decls = bindings_view(decls_el@);
        let ghost scopes2 = old(self)@.scopes.push(decls);
        let ns_opt = match bindings_get(&decls_scope, &name.prefix) {
            Option::Some(v) => Some(v),
            Option::None => self.lookup_prefix(&name.prefix),
        };
        proof {
            assert(scopes2.last() == decls);
            assert(scopes2.drop_last() =~= old(self)@.scopes);
        }
        let has_prefix = match &name.prefix {
            Option::Some(_) => true,
            Option::None => false,
        };
        let namespace = match ns_opt {
            Option::Some(v) => v,
            Option::None => {
                if has_prefix {
                    return Err(Error::MissingNamespace);
                }
                String::new()
            },
        };
        let el = Element::new(name.name, namespace, name.prefix, decls_el, plain, Vec::new());
        proof {
            assert(nodes_view(Seq::<Node>::empty()) =~= Seq::<NodeView>::empty());
        }
        if self_closing {
            let depth = self.stack.len();
            if depth > 0 {
                let mut top = match self.stack.pop() {
                    Option::Some(t) => t,
                    Option::None => {
                        proof {
                            assert(false);
                        }
                        return Ok(());
                    },
                };
                top.append_child(el);
                self.stack.push(top);
                proof {
                    assert(self@.stack =~= old(self)@.stack.update(
                        old(self)@.stack.len() - 1,
                        self@.stack.last(),
                    ));
                    assert(self@.scopes =~= old(self)@.scopes);
                }
            } else {
                self.root = Some(el);
                proof {
                    assert(self@.stack =~= old(self)@.stack);
                    assert(self@.scopes =~= old(self)@.scopes);
                }
            }
            Ok(())
        } else {
            self.stack.push(el);
            self.prefixes_stack.push(decls_scope);
            proof {
                assert(self@.stack =~= old(self)@.stack.push(self@.stack.last()));
                assert(self@.scopes =~= scopes2);
            }
            Ok(())
        }
    }

    /// Handles an end tag, per [`end_step`].
    fn process_end_tag(&mut self, name: LocalName) -> (r: Result<(), Error>)
        requires
            balanced(old(self)@),
        ensures
            balanced(final(self)@),
            (match end_step(old(self)@, name@) {
                BuilderStep::Next { next } => (r is Ok) && final(self)@ == next,
                BuilderStep::MissingNamespace => false,
                BuilderStep::InvalidElementClosed => (r matches Err(
                    Error::InvalidElementClosed,
                )) && final(self)@ == old(self)@,
            }),
    {
        let depth = self.stack.len();
        if depth == 0 {
            return Ok(());
        }
        let matches_top = {
            let el = &self.stack[depth - 1];
            str_eq(el.name.as_str(), name.name.as_str()) && opt_str_eq(&el.prefix, &name.prefix)
        };
        if !matches_top {
            return Err(Error::InvalidElementClosed);
        }
        let el = match self.pop() {
            Option::Some(e) => e,
            Option::None => {
                proof {
                    assert(false);
                }
                return Ok(());
            },
        };
        let depth2 = self.stack.len();
        if depth2 > 0 {
            let mut top = match self.stack.pop() {
                Option::Some(t) => t,
                Option::None => {
                    proof {
                        assert(false);
                    }
                    return Ok(());
                },
            };
            top.append_child(el);
            self.stack.push(top);
            proof {
                assert(self@.stack =~= old(self)@.stack.drop_last().update(
                    old(self)@.stack.drop_last().len() - 1,
                    self@.stack.last(),
                ));
                assert(self@.scopes =~= old(self)@.scopes.drop_last());
            }
        } else {
            self.root = Some(el);
        }
        Ok(())
    }

    /// Handles text, per [`text_step`].
    fn process_text(&mut self, text: String)
        requires
            balanced(old(self)@),
        ensures
            balanced(final(self)@),
            final(self)@ == text_step(old(self)@, text@),
    {
        let depth = self.stack.len();
        if depth == 0 {
            return ;
        }
        let mut top = match self.stack.pop() {
            Option::Some(t) => t,
            Option::None => {
                proof {
                    assert(false);
                }
                return ;
            },
        };
        top.append_text_node(text);
        self.stack.push(top);
        proof {
            assert(self@.stack =~= old(self)@.stack.update(
                old(self)@.stack.len() - 1,
                self@.stack.last(),
            ));
            assert(self@.scopes =~= old(self)@.scopes);
        }
    }

    /// Advances the state machine by one token, per [`builder_step`].
    pub fn process_event(&mut self, event: Token) -> (r: Result<(), Error>)
        requires
            balanced(old(self)@),
        ensures
            balanced(final(self)@),
            (match builder_step(old(self)@, event@) {
                BuilderStep::Next { next } => (r is Ok) && final(self)@ == next,
                BuilderStep::MissingNamespace => (r matches Err(Error::MissingNamespace)) && final(self)@ == old(self)@,
                BuilderStep::InvalidElementClosed => (r matches Err(
                    Error::InvalidElementClosed,
                )) && final(self)@ == old(self)@,
            }),
    {
        match event {
            Token::StartTag { name, attrs, self_closing } => self.process_start_tag(
                name,
                attrs,
                self_closing,
            ),
            Token::EndTag { name } => self.process_end_tag(name),
            Token::Text(text) => {
                self.process_text(text);
                Ok(())
            },
        }
    }
}

} // verus!

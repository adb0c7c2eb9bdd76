//! Lexically-scoped XML namespace bindings with parent chaining.
//!
//! A [`NamespaceSet`] maps an optional prefix to a namespace URI and may hold
//! a shared handle to the set of the enclosing scope.  Lookup walks the local
//! bindings first and then the parent chain, so the nearest enclosing
//! declaration always wins.

use crate::decode::str_eq;
use std::rc::Rc;
use vstd::prelude::*;

verus! {

/// The view of one `prefix -> namespace URI` binding.
pub type BindingView = (Option<Seq<char>>, Seq<char>);

/// The view of an optional string.
pub open spec fn opt_str_view(o: Option<String>) -> Option<Seq<char>> {
    match o {
        Option::None => None,
        Option::Some(s) => Some(s@),
    }
}

/// The view of one stored binding.
pub open spec fn binding_view(b: (Option<String>, String)) -> BindingView {
    (opt_str_view(b.0), b.1@)
}

/// The views of a sequence of stored bindings.
pub open spec fn bindings_view(s: Seq<(Option<String>, String)>) -> Seq<BindingView> {
    s.map_values(|b: (Option<String>, String)| binding_view(b))
}

/// First binding for `p` in a sequence of bindings, if any.
pub open spec fn seq_lookup(s: Seq<BindingView>, p: Option<Seq<char>>) -> Option<Seq<char>>
    decreases s.len(),
{
    if s.len() == 0 {
        None
    } else if s[0].0 == p {
        Some(s[0].1)
    } else {
        seq_lookup(s.drop_first(), p)
    }
}

/// A set of namespace bindings for one lexical scope, chained to the sets of
/// the enclosing scopes.
pub struct NamespaceSet {
    parent: Option<Rc<NamespaceSet>>,
    namespaces: Vec<(Option<String>, String)>,
}

impl NamespaceSet {
    /// The bindings this set declares itself, in insertion order, not the
    /// inherited ones.
    pub closed spec fn declared_view(self) -> Seq<BindingView> {
        bindings_view(self.namespaces@)
    }

    /// Whether a parent has been installed.
    pub closed spec fn has_parent(self) -> bool {
        self.parent is Some
    }

    /// What the parent chain alone would answer for `p`.
    pub closed spec fn parent_lookup(self, p: Option<Seq<char>>) -> Option<Seq<char>>
        decreases self, 0int,
    {
        match self.parent {
            Option::None => None,
            Option::Some(par) => par.lookup(p),
        }
    }

    /// Nearest-scope-wins lookup: the local bindings first, then the parent
    /// chain, transitively.
    pub closed spec fn lookup(self, p: Option<Seq<char>>) -> Option<Seq<char>>
        decreases self, 1int,
    {
        match seq_lookup(self.declared_view(), p) {
            Option::Some(v) => Some(v),
            Option::None => self.parent_lookup(p),
        }
    }

    /// A binding declared locally overrides every binding of the parent
    /// chain; only prefixes with no local binding fall through.
    pub proof fn lemma_lookup_nearest(self, p: Option<Seq<char>>)
        ensures
            seq_lookup(self.declared_view(), p) is Some ==> self.lookup(p) == seq_lookup(
                self.declared_view(),
                p,
            ),
            seq_lookup(self.declared_view(), p) is None ==> self.lookup(p) == self.parent_lookup(p),
            !self.has_parent() ==> self.parent_lookup(p) is None,
    {
    }

    /// The locally declared bindings.
    pub fn declared_ns(&self) -> (r: &Vec<(Option<String>, String)>)
        ensures
            (r@.map_values(|b: (Option<String>, String)| binding_view(b)) == self.declared_view()),
    {
        &self.namespaces
    }

    /// The URI bound to this prefix in the nearest enclosing scope, if any.
    pub fn get(&self, prefix: &Option<String>) -> (r: Option<String>)
        ensures
            opt_str_view(r) == self.lookup(opt_str_view(*prefix)),
        decreases *self,
    {
        let ghost p = opt_str_view(*prefix);
        let ghost dv = self.declared_view();
        proof {
            assert(dv.skip(0) =~= dv);
        }
        let n = self.namespaces.len();
        let mut i: usize = 0;
        while i < n
            invariant
                n == self.namespaces@.len(),
                i <= n,
                dv == self.declared_view(),
                p == opt_str_view(*prefix),
                seq_lookup(dv, p) == seq_lookup(dv.skip(i as int), p),
            decreases n - i,
        {
            let b = &self.namespaces[i];
            if opt_str_eq(&b.0, prefix) {
                proof {
                    assert(dv.skip(i as int)[0] == dv[i as int]);
                    assert(dv[i as int] == binding_view(self.namespaces@[i as int]));
                }
                return Some(b.1.clone());
            }
            proof {
                assert(dv.skip(i as int)[0] == dv[i as int]);
                assert(dv[i as int] == binding_view(self.namespaces@[i as int]));
                assert(dv.skip(i as int).drop_first() =~= dv.skip(i + 1 as int));
            }
            i = i + 1;
        }
        proof {
            assert(dv.skip(n as int).len() == 0);
        }
        match &self.parent {
            Option::None => None,
            Option::Some(par) => par.get(prefix),
        }
    }

    /// Whether the nearest enclosing binding for this prefix is exactly the
    /// wanted namespace; a mismatch in a closer scope short-circuits.
    pub fn has(&self, prefix: &Option<String>, wanted_ns: &str) -> (r: bool)
        ensures
            r == (self.lookup(opt_str_view(*prefix)) == Some(wanted_ns@)),
    {
        match self.get(prefix) {
            Option::None => false,
            Option::Some(ns) => str_eq(ns.as_str(), wanted_ns),
        }
    }

    /// Installs the parent link.  May be called at most once per set; the
    /// set's own declarations keep priority over everything the parent
    /// chain answers.
    pub fn set_parent(&mut self, parent: Rc<NamespaceSet>)
        requires
            !old(self).has_parent(),
        ensures
            final(self).declared_view() == old(self).declared_view(),
            final(self).has_parent(),
            forall|p: Option<Seq<char>>|
                #[trigger] final(self).lookup(p) == (match seq_lookup(
                    old(self).declared_view(),
                    p,
                ) {
                    Option::Some(v) => Some(v),
                    Option::None => parent.lookup(p),
                }),
    {
        self.parent = Some(parent);
    }
}

impl NamespaceSet {
    /// Binds `prefix` to `uri` in this set's own declarations, replacing an
    /// existing binding for the same prefix and appending otherwise.
    pub fn insert(&mut self, prefix: Option<String>, uri: String)
        ensures
            final(self).has_parent() == old(self).has_parent(),
            forall|q: Option<Seq<char>>|
                #[trigger] seq_lookup(final(self).declared_view(), q) == (if q == opt_str_view(
                    prefix,
                ) {
                    Some(uri@)
                } else {
                    seq_lookup(old(self).declared_view(), q)
                }),
    {
        let ghost dv = self.declared_view();
        let ghost k = opt_str_view(prefix);
        let n = self.namespaces.len();
        let mut i: usize = 0;
        while i < n
            invariant
                *self == *old(self),
                n == self.namespaces@.len(),
                i <= n,
                dv == self.declared_view(),
                k == opt_str_view(prefix),
                forall|j: int| 0 <= j < i ==> dv[j].0 != k,
            decreases n - i,
        {
            let hit = opt_str_eq(&self.namespaces[i].0, &prefix);
            proof {
                assert(dv[i as int] == binding_view(self.namespaces@[i as int]));
            }
            if hit {
                self.namespaces.remove(i);
                self.namespaces.insert(i, (prefix, uri));
                proof {
                    let dv2 = self.declared_view();
                    assert forall|j: int| 0 <= j < dv2.len() implies dv2[j] == dv.update(
                        i as int,
                        (k, uri@),
                    )[j] by {
                        assert(dv2[j] == binding_view(self.namespaces@[j]));
                    }
                    assert(dv2 =~= dv.update(i as int, (k, uri@)));
                    lemma_seq_lookup_update(dv, i as int, k, uri@);
                }
                return ;
            }
            i = i + 1;
        }
        self.namespaces.push((prefix, uri));
        proof {
            let dv2 = self.declared_view();
            assert(dv2 =~= dv.push((k, uri@)));
            lemma_seq_lookup_push(dv, k, uri@);
        }
    }
}

/// Replacing the first binding of a key changes exactly that key's answer,
/// provided no earlier entry binds the same key.
proof fn lemma_seq_lookup_update(s: Seq<BindingView>, i: int, k: Option<Seq<char>>, v: Seq<char>)
    requires
        0 <= i < s.len(),
        s[i].0 == k,
        forall|j: int| 0 <= j < i ==> s[j].0 != k,
    ensures
        forall|q: Option<Seq<char>>|
            #[trigger] seq_lookup(s.update(i, (k, v)), q) == (if q == k {
                Some(v)
            } else {
                seq_lookup(s, q)
            }),
    decreases i,
{
    let s2 = s.update(i, (k, v));
    if i == 0 {
        assert forall|q: Option<Seq<char>>|
            #[trigger] seq_lookup(s2, q) == (if q == k {
                Some(v)
            } else {
                seq_lookup(s, q)
            }) by {
            if q != k {
                assert(s2.drop_first() =~= s.drop_first());
            }
        }
    } else {
        lemma_seq_lookup_update(s.drop_first(), i - 1, k, v);
        assert forall|q: Option<Seq<char>>|
            #[trigger] seq_lookup(s2, q) == (if q == k {
                Some(v)
            } else {
                seq_lookup(s, q)
            }) by {
            assert(s2.drop_first() =~= s.drop_first().update(i - 1, (k, v)));
            assert(seq_lookup(s.drop_first().update(i - 1, (k, v)), q) == (if q == k {
                Some(v)
            } else {
                seq_lookup(s.drop_first(), q)
            }));
            assert(s2[0] == s[0]);
            assert(s[0].0 != k);
        }
    }
}

/// Appending a binding for a key bound nowhere in the sequence changes
/// exactly that key's answer.
proof fn lemma_seq_lookup_push(s: Seq<BindingView>, k: Option<Seq<char>>, v: Seq<char>)
    requires
        forall|j: int| 0 <= j < s.len() ==> s[j].0 != k,
    ensures
        forall|q: Option<Seq<char>>|
            #[trigger] seq_lookup(s.push((k, v)), q) == (if q == k {
                Some(v)
            } else {
                seq_lookup(s, q)
            }),
    decreases s.len(),
{
    let s2 = s.push((k, v));
    if s.len() == 0 {
        assert forall|q: Option<Seq<char>>|
            #[trigger] seq_lookup(s2, q) == (if q == k {
                Some(v)
            } else {
                seq_lookup(s, q)
            }) by {
            if q != k {
                assert(seq_lookup(s2.drop_first(), q) is None);
            }
        }
    } else {
        lemma_seq_lookup_push(s.drop_first(), k, v);
        assert forall|q: Option<Seq<char>>|
            #[trigger] seq_lookup(s2, q) == (if q == k {
                Some(v)
            } else {
                seq_lookup(s, q)
            }) by {
            assert(s2.drop_first() =~= s.drop_first().push((k, v)));
            assert(seq_lookup(s.drop_first().push((k, v)), q) == (if q == k {
                Some(v)
            } else {
                seq_lookup(s.drop_first(), q)
            }));
            assert(s2[0] == s[0]);
        }
    }
}

/// Relies on `Rc::clone`: the returned handle points at the same value.
#[verifier::external_body]
fn rc_clone(x: &Rc<NamespaceSet>) -> (r: Rc<NamespaceSet>)
    ensures
        r == *x,
{
    Rc::clone(x)
}

impl Clone for NamespaceSet {
    /// A clone declares the same bindings and answers every lookup alike.
    fn clone(&self) -> (r: Self)
        ensures
            r.declared_view() == self.declared_view(),
            r.has_parent() == self.has_parent(),
            forall|p: Option<Seq<char>>| #[trigger] r.lookup(p) == self.lookup(p),
    {
        let parent = match &self.parent {
            Option::None => None,
            Option::Some(rc) => Some(rc_clone(rc)),
        };
        let mut namespaces: Vec<(Option<String>, String)> = Vec::new();
        let n = self.namespaces.len();
        let mut i: usize = 0;
        while i < n
            invariant
                n == self.namespaces@.len(),
                i <= n,
                namespaces@.len() == i,
                forall|j: int|
                    0 <= j < i ==> #[trigger] binding_view(namespaces@[j]) == binding_view(
                        self.namespaces@[j],
                    ),
            decreases n - i,
        {
            let b = &self.namespaces[i];
            let key = match &b.0 {
                Option::None => None,
                Option::Some(s) => Some(s.clone()),
            };
            namespaces.push((key, b.1.clone()));
            i = i + 1;
        }
        let r = NamespaceSet { parent, namespaces };
        proof {
            assert(r.declared_view() =~= self.declared_view());
            assert(r.parent == self.parent);
            assert forall|p: Option<Seq<char>>| #[trigger] r.lookup(p) == self.lookup(p) by {
                assert(seq_lookup(r.declared_view(), p) == seq_lookup(self.declared_view(), p));
                assert(r.parent_lookup(p) == self.parent_lookup(p));
            }
        }
        r
    }
}

impl From<Vec<(Option<String>, String)>> for NamespaceSet {
    /// A set declaring exactly the given bindings, with no parent.
    fn from(namespaces: Vec<(Option<String>, String)>) -> (r: Self)
        ensures
            (r.declared_view() == namespaces@.map_values(
                |b: (Option<String>, String)| binding_view(b),
            )),
            !r.has_parent(),
    {
        NamespaceSet { parent: None, namespaces }
    }
}

impl From<String> for NamespaceSet {
    /// A set declaring only a default namespace, with no parent.
    fn from(namespace: String) -> (r: Self)
        ensures
            r.declared_view() == seq![(Option::<Seq<char>>::None, namespace@)],
            !r.has_parent(),
            forall|p: Option<Seq<char>>|
                #[trigger] r.lookup(p) == (if p is None {
                    Some(namespace@)
                } else {
                    None::<Seq<char>>
                }),
    {
        let ghost ns = namespace@;
        let mut namespaces: Vec<(Option<String>, String)> = Vec::new();
        namespaces.push((None, namespace));
        let r = NamespaceSet { parent: None, namespaces };
        proof {
            assert(r.declared_view() =~= seq![(Option::<Seq<char>>::None, ns)]);
            assert forall|p: Option<Seq<char>>|
                #[trigger] r.lookup(p) == (if p is None {
                    Some(ns)
                } else {
                    None::<Seq<char>>
                }) by {
                reveal_lookup_pair(r, p);
            }
        }
        r
    }
}

impl From<(Option<String>, String)> for NamespaceSet {
    /// A set declaring a single binding, with no parent.
    fn from(prefix_namespace: (Option<String>, String)) -> (r: Self)
        ensures
            (r.declared_view() == seq![
                (opt_str_view(prefix_namespace.0), prefix_namespace.1@),
            ]),
            !r.has_parent(),
            forall|p: Option<Seq<char>>|
                #[trigger] r.lookup(p) == (if p == opt_str_view(prefix_namespace.0) {
                    Some(prefix_namespace.1@)
                } else {
                    None::<Seq<char>>
                }),
    {
        let ghost k = opt_str_view(prefix_namespace.0);
        let ghost ns = prefix_namespace.1@;
        let (prefix, namespace) = prefix_namespace;
        let mut namespaces: Vec<(Option<String>, String)> = Vec::new();
        namespaces.push((prefix, namespace));
        let r = NamespaceSet { parent: None, namespaces };
        proof {
            assert(r.declared_view() =~= seq![(k, ns)]);
            assert forall|p: Option<Seq<char>>|
                #[trigger] r.lookup(p) == (if p == k {
                    Some(ns)
                } else {
                    None::<Seq<char>>
                }) by {
                reveal_lookup_pair(r, p);
            }
        }
        r
    }
}

impl From<(String, String)> for NamespaceSet {
    /// A set declaring a single prefixed binding, with no parent.
    fn from(prefix_namespace: (String, String)) -> (r: Self)
        ensures
            (r.declared_view() == seq![
                (Some(prefix_namespace.0@), prefix_namespace.1@),
            ]),
            !r.has_parent(),
            forall|p: Option<Seq<char>>|
                #[trigger] r.lookup(p) == (if p == Some(prefix_namespace.0@) {
                    Some(prefix_namespace.1@)
                } else {
                    None::<Seq<char>>
                }),
    {
        let (prefix, namespace) = prefix_namespace;
        NamespaceSet::from((Some(prefix), namespace))
    }
}

impl From<Option<String>> for NamespaceSet {
    /// An empty set, or a set declaring only a default namespace.
    fn from(namespace: Option<String>) -> (r: Self)
        ensures
            !r.has_parent(),
            forall|p: Option<Seq<char>>|
                #[trigger] r.lookup(p) == (match namespace {
                    Option::None => None::<Seq<char>>,
                    Option::Some(ns) => if p is None {
                        Some(ns@)
                    } else {
                        None::<Seq<char>>
                    },
                }),
    {
        match namespace {
            Option::None => NamespaceSet::default(),
            Option::Some(namespace) => NamespaceSet::from(namespace),
        }
    }
}

/// Unfolds `lookup` for a set holding exactly one binding and no parent.
proof fn reveal_lookup_pair(r: NamespaceSet, p: Option<Seq<char>>)
    requires
        r.declared_view().len() == 1,
        !r.has_parent(),
    ensures
        r.lookup(p) == (if p == r.declared_view()[0].0 {
            Some(r.declared_view()[0].1)
        } else {
            None::<Seq<char>>
        }),
{
    let dv = r.declared_view();
    if p != dv[0].0 {
        assert(seq_lookup(dv.drop_first(), p) is None);
    }
}

impl vstd::std_specs::convert::FromSpecImpl<Vec<(Option<String>, String)>> for NamespaceSet {
    open spec fn obeys_from_spec() -> bool {
        false
    }

    open spec fn from_spec(v: Vec<(Option<String>, String)>) -> NamespaceSet {
        arbitrary()
    }
}

impl vstd::std_specs::convert::FromSpecImpl<String> for NamespaceSet {
    open spec fn obeys_from_spec() -> bool {
        false
    }

    open spec fn from_spec(v: String) -> NamespaceSet {
        arbitrary()
    }
}

impl vstd::std_specs::convert::FromSpecImpl<(Option<String>, String)> for NamespaceSet {
    open spec fn obeys_from_spec() -> bool {
        false
    }

    open spec fn from_spec(v: (Option<String>, String)) -> NamespaceSet {
        arbitrary()
    }
}

impl vstd::std_specs::convert::FromSpecImpl<(String, String)> for NamespaceSet {
    open spec fn obeys_from_spec() -> bool {
        false
    }

    open spec fn from_spec(v: (String, String)) -> NamespaceSet {
        arbitrary()
    }
}

impl vstd::std_specs::convert::FromSpecImpl<Option<String>> for NamespaceSet {
    open spec fn obeys_from_spec() -> bool {
        false
    }

    open spec fn from_spec(v: Option<String>) -> NamespaceSet {
        arbitrary()
    }
}

/// Compares two optional strings by their views.
pub(crate) fn opt_str_eq(a: &Option<String>, b: &Option<String>) -> (r: bool)
    ensures
        r == (opt_str_view(*a) == opt_str_view(*b)),
{
    match (a, b) {
        (Option::None, Option::None) => true,
        (Option::Some(x), Option::Some(y)) => str_eq(x.as_str(), y.as_str()),
        _ => false,
    }
}

impl Default for NamespaceSet {
    /// An empty set: no local bindings, no parent.
    fn default() -> (r: Self)
        ensures
            r.declared_view() == Seq::<BindingView>::empty(),
            !r.has_parent(),
            forall|p: Option<Seq<char>>| #[trigger] r.lookup(p) is None,
    {
        NamespaceSet { parent: None, namespaces: Vec::new() }
    }
}


/// `s` with backslashes and double quotes escaped, as a quoted string
/// renders them.
pub open spec fn quote_chars(s: Seq<char>) -> Seq<char>
    decreases s.len(),
{
    if s.len() == 0 {
        Seq::empty()
    } else {
        (if s[0] == '"' || s[0] == '\\' {
            seq!['\\', s[0]]
        } else {
            seq![s[0]]
        }) + quote_chars(s.drop_first())
    }
}

proof fn lemma_quote_chars_snoc(s: Seq<char>, x: char)
    ensures
        quote_chars(s.push(x)) == quote_chars(s) + (if x == '"' || x == '\\' {
            seq!['\\', x]
        } else {
            seq![x]
        }),
    decreases s.len(),
{
    let e = if x == '"' || x == '\\' {
        seq!['\\', x]
    } else {
        seq![x]
    };
    if s.len() == 0 {
        assert(s.push(x)[0] == x);
        assert(s.push(x).drop_first() =~= Seq::<char>::empty());
        assert(quote_chars(Seq::<char>::empty()) =~= Seq::<char>::empty());
        assert(e + Seq::<char>::empty() =~= e);
        assert(quote_chars(s.push(x)) =~= e);
        assert(quote_chars(s) + e =~= e);
    } else {
        assert(s.push(x)[0] == s[0]);
        assert(s.push(x).drop_first() =~= s.drop_first().push(x));
        lemma_quote_chars_snoc(s.drop_first(), x);
        let h = if s[0] == '"' || s[0] == '\\' {
            seq!['\\', s[0]]
        } else {
            seq![s[0]]
        };
        assert(h + (quote_chars(s.drop_first()) + e) =~= (h + quote_chars(s.drop_first())) + e);
    }
}

/// How one binding renders: `xmlns` or `xmlns:prefix`, `=`, and the quoted
/// URI, with a trailing comma and space.
pub open spec fn debug_binding(b: BindingView) -> Seq<char> {
    "xmlns"@ + (match b.0 {
        Option::None => Seq::<char>::empty(),
        Option::Some(p) => seq![':'] + p,
    }) + seq!['='] + seq!['"'] + quote_chars(b.1) + seq!['"'] + seq![',', ' ']
}

/// How a run of bindings renders, in order.
pub open spec fn debug_bindings(s: Seq<BindingView>) -> Seq<char>
    decreases s.len(),
{
    if s.len() == 0 {
        Seq::empty()
    } else {
        debug_binding(s[0]) + debug_bindings(s.drop_first())
    }
}

proof fn lemma_debug_bindings_snoc(s: Seq<BindingView>, b: BindingView)
    ensures
        debug_bindings(s.push(b)) == debug_bindings(s) + debug_binding(b),
    decreases s.len(),
{
    if s.len() == 0 {
        assert(s.push(b)[0] == b);
        assert(s.push(b).drop_first() =~= Seq::<BindingView>::empty());
        assert(debug_bindings(Seq::<BindingView>::empty()) =~= Seq::<char>::empty());
        assert(debug_binding(b) + Seq::<char>::empty() =~= debug_binding(b));
        assert(debug_bindings(s.push(b)) =~= debug_binding(b));
        assert(debug_bindings(s) + debug_binding(b) =~= debug_binding(b));
    } else {
        assert(s.push(b)[0] == s[0]);
        assert(s.push(b).drop_first() =~= s.drop_first().push(b));
        lemma_debug_bindings_snoc(s.drop_first(), b);
        assert(debug_binding(s[0]) + (debug_bindings(s.drop_first()) + debug_binding(b)) =~= (
        debug_binding(s[0]) + debug_bindings(s.drop_first())) + debug_binding(b));
    }
}

/// Escapes and appends `s` to `out`.
fn push_quoted(out: &mut String, s: &str)
    ensures
        final(out)@ == old(out)@ + quote_chars(s@),
{
    let ghost sv = s@;
    let n = s.unicode_len();
    let mut i: usize = 0;
    proof {
        assert(sv.take(0) =~= Seq::<char>::empty());
        assert(old(out)@ + quote_chars(sv.take(0)) =~= old(out)@);
    }
    while i < n
        invariant
            i <= n,
            n == sv.len(),
            sv == s@,
            out@ == old(out)@ + quote_chars(sv.take(i as int)),
        decreases n - i,
    {
        let c = s.get_char(i);
        proof {
            assert(sv.take((i + 1) as int) =~= sv.take(i as int).push(sv[i as int]));
            lemma_quote_chars_snoc(sv.take(i as int), sv[i as int]);
        }
        if c == '"' || c == '\\' {
            crate::decode::push_char(out, '\\');
            crate::decode::push_char(out, c);
            proof {
                assert(out@ =~= old(out)@ + quote_chars(sv.take((i + 1) as int)));
            }
        } else {
            crate::decode::push_char(out, c);
            proof {
                assert(out@ =~= old(out)@ + quote_chars(sv.take((i + 1) as int)));
            }
        }
        i = i + 1;
    }
    proof {
        assert(sv.take(n as int) =~= sv);
    }
}

impl NamespaceSet {
    /// How the whole set renders: its own bindings, then the parent chain.
    pub closed spec fn debug_view(self) -> Seq<char>
        decreases self,
    {
        "NamespaceSet("@ + debug_bindings(self.declared_view()) + "parent: "@ + (
        match self.parent {
            Option::None => "None"@,
            Option::Some(par) => "Some("@ + par.debug_view() + seq![')'],
        }) + seq![')']
    }

    /// The set rendered as text, bindings first, then the parent chain;
    /// URIs are quoted with backslashes and double quotes escaped.
    pub fn debug_string(&self) -> (r: String)
        ensures
            r@ == self.debug_view(),
        decreases *self,
    {
        let mut out = String::new();
        crate::decode::push_str(&mut out, "NamespaceSet(");
        let ghost dv = self.declared_view();
        let n = self.namespaces.len();
        let mut i: usize = 0;
        proof {
            assert(dv.take(0) =~= Seq::<BindingView>::empty());
            assert(out@ + debug_bindings(dv.take(0)) =~= out@);
        }
        let ghost head = out@;
        while i < n
            invariant
                i <= n,
                n == self.namespaces@.len(),
                dv == self.declared_view(),
                out@ == head + debug_bindings(dv.take(i as int)),
            decreases n - i,
        {
            proof {
                assert(dv.take((i + 1) as int) =~= dv.take(i as int).push(dv[i as int]));
                lemma_debug_bindings_snoc(dv.take(i as int), dv[i as int]);
                assert(dv[i as int] == binding_view(self.namespaces@[i as int]));
            }
            let ghost before = out@;
            let b = &self.namespaces[i];
            crate::decode::push_str(&mut out, "xmlns");
            match &b.0 {
                Option::None => {},
                Option::Some(p) => {
                    crate::decode::push_char(&mut out, ':');
                    crate::decode::push_str(&mut out, p.as_str());
                },
            }
            crate::decode::push_char(&mut out, '=');
            crate::decode::push_char(&mut out, '"');
            push_quoted(&mut out, b.1.as_str());
            crate::decode::push_char(&mut out, '"');
            crate::decode::push_char(&mut out, ',');
            crate::decode::push_char(&mut out, ' ');
            proof {
                assert(out@ =~= before + debug_binding(dv[i as int]));
                assert(out@ =~= head + debug_bindings(dv.take((i + 1) as int)));
            }
            i = i + 1;
        }
        proof {
            assert(dv.take(n as int) =~= dv);
        }
        crate::decode::push_str(&mut out, "parent: ");
        match &self.parent {
            Option::None => {
                crate::decode::push_str(&mut out, "None");
            },
            Option::Some(par) => {
                crate::decode::push_str(&mut out, "Some(");
                let inner = par.debug_string();
                crate::decode::push_str(&mut out, inner.as_str());
                crate::decode::push_char(&mut out, ')');
            },
        }
        crate::decode::push_char(&mut out, ')');
        proof {
            assert(out@ =~= self.debug_view());
        }
        out
    }
}

} // verus!

//! The decision core of resource binding.
//!
//! Driving the request and response over a live stream is the caller's
//! business; this module decides, from plain elements, whether binding is
//! offered, how a received stanza relates to the pending request, and which
//! Jabber ID a successful answer carries.

use crate::element::{elem_children, find_child, texts, Element};
use crate::jids::{jid_accepts, jid_new};
use crate::ns;
use vstd::prelude::*;

verus! {

/// The states a binding session passes through: either the server offers
/// no binding and the stream is usable at once, or the request is on its
/// way out, then the answer is awaited.
#[derive(Debug, Clone, Copy, PartialEq, Eq, Structural)]
pub enum ClientBind {
    Unsupported,
    WaitSend,
    WaitRecv,
    Invalid,
}

impl ClientBind {
    /// Where the session starts, given the stream features the server
    /// announced: binding is requested exactly when the features carry a
    /// `bind` child in the binding namespace.
    pub fn new(stream_features: &Element) -> (r: ClientBind)
        ensures
            r == ClientBind::WaitSend <==> find_child(
                elem_children(stream_features@.children),
                "bind"@,
                ns::BIND@,
            ) is Some,
            r == ClientBind::WaitSend || r == ClientBind::Unsupported,
    {
        match stream_features.get_child("bind", ns::BIND) {
            Option::None => ClientBind::Unsupported,
            Option::Some(_) => ClientBind::WaitSend,
        }
    }
}

/// How a received stanza relates to the pending binding request.
#[derive(Debug, PartialEq, Eq)]
pub enum BindResponse {
    /// Not the answer to the request; keep waiting.
    Unrelated,
    /// The server answered, but not with a result; the session failed.
    Failure,
    /// The server confirmed the binding, perhaps with the bound ID.
    Ready(Option<jid::Jid>),
}

/// Whether the stanza is the answer to the binding request: an `iq` whose
/// `id` is the request's.
pub open spec fn is_bind_answer(e: crate::element::ElementView) -> bool {
    e.name == "iq"@ && crate::element::attr_lookup(e.attributes, "id"@) == Some(
        "resource-bind"@,
    )
}

/// The Jabber ID text a binding answer carries: the text of the `jid`
/// child of its `bind` child.
pub open spec fn bind_answer_jid_text(e: crate::element::ElementView) -> Option<Seq<char>> {
    match find_child(elem_children(e.children), "bind"@, ns::BIND@) {
        Option::None => None,
        Option::Some(b) => match find_child(elem_children(b.children), "jid"@, ns::BIND@) {
            Option::None => None,
            Option::Some(j) => Some(texts(j.children)),
        },
    }
}

/// The Jabber ID carried by a binding answer, when its text parses as one.
pub fn get_bind_response_jid(iq: &Element) -> (r: Option<jid::Jid>)
    ensures
        (r is Some) == (match bind_answer_jid_text(iq@) {
            Option::Some(t) => jid_accepts(t),
            Option::None => false,
        }),
{
    match iq.get_child("bind", ns::BIND) {
        Option::None => None,
        Option::Some(bind_el) => match bind_el.get_child("jid", ns::BIND) {
            Option::None => None,
            Option::Some(jid_el) => {
                let text = jid_el.text();
                jid_new(text.as_str())
            },
        },
    }
}

/// Classifies a stanza received while the binding answer is awaited.
pub fn classify_bind_response(stanza: &Element) -> (r: BindResponse)
    ensures
        !is_bind_answer(stanza@) ==> r == BindResponse::Unrelated,
        is_bind_answer(stanza@) && crate::element::attr_lookup(stanza@.attributes, "type"@)
            != Some("result"@) ==> r == BindResponse::Failure,
        is_bind_answer(stanza@) && crate::element::attr_lookup(stanza@.attributes, "type"@)
            == Some("result"@) ==> (r matches BindResponse::Ready(j) && ((j is Some) == (
        match bind_answer_jid_text(stanza@) {
            Option::Some(t) => jid_accepts(t),
            Option::None => false,
        }))),
{
    if !crate::decode::str_eq(stanza.name.as_str(), "iq") {
        return BindResponse::Unrelated;
    }
    let id_ok = match stanza.attr("id") {
        Option::None => false,
        Option::Some(v) => crate::decode::str_eq(v.as_str(), "resource-bind"),
    };
    if !id_ok {
        return BindResponse::Unrelated;
    }
    let ty_ok = match stanza.attr("type") {
        Option::None => false,
        Option::Some(v) => crate::decode::str_eq(v.as_str(), "result"),
    };
    if !ty_ok {
        return BindResponse::Failure;
    }
    BindResponse::Ready(get_bind_response_jid(stanza))
}

} // verus!

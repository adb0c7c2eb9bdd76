//! The `<iq/>` stanza: a request-response envelope around one payload
//! element.

use crate::element::{attr_lookup, elem_children, Element, ElementView, Node, NodeView};
use crate::error::Error;
use crate::jids::{jid_accepts, jid_new};
use crate::namespace_set::opt_str_view;
use crate::ns;
use vstd::prelude::*;

verus! {

/// Should be implemented on every known payload of an `<iq type='get'/>`.
pub trait IqGetPayload: TryFrom<Element> + Into<Element> {

}

/// Should be implemented on every known payload of an `<iq type='set'/>`.
pub trait IqSetPayload: TryFrom<Element> + Into<Element> {

}

/// Should be implemented on every known payload of an `<iq type='result'/>`.
pub trait IqResultPayload: TryFrom<Element> + Into<Element> {

}

/// The four kinds of iq and what each carries.  An error reply keeps the
/// raw `<error/>` element it came with.
#[derive(Debug, PartialEq, Eq)]
pub enum IqType {
    /// A question; the payload names what is asked.
    Get(Element),
    /// A command; the payload names what to set.
    SetPayload(Element),
    /// The answer to a question, with its payload when it has one.
    Result(Option<Element>),
    /// A failure reply, as the raw error element.
    Error(Element),
}

/// The main structure representing the `<iq/>` stanza.
#[derive(Debug, PartialEq, Eq)]
pub struct Iq {
    pub from: Option<jid::Jid>,
    pub to: Option<jid::Jid>,
    pub id: Option<String>,
    pub payload: IqType,
}

/// What the iq parser decides, read off the element alone.
pub ghost enum IqShape {
    NotIq,
    BadFrom,
    BadTo,
    MissingType,
    WrongChildren,
    UnknownType,
    Get(ElementView),
    SetPayload(ElementView),
    ResultSome(ElementView),
    ResultNone,
    ErrorReply(ElementView),
}

/// One pass over the element children: at most one payload; under an error
/// type, exactly the error child is remembered and extra non-error
/// children are tolerated only when there are exactly two children in all.
/// `None` means the child count is wrong.
pub open spec fn scan_children(
    ec: Seq<ElementView>,
    err_type: bool,
    total: int,
    payload: Option<ElementView>,
    errp: Option<ElementView>,
) -> Option<(Option<ElementView>, Option<ElementView>)>
    decreases ec.len(),
{
    if ec.len() == 0 {
        Some((payload, errp))
    } else {
        let e = ec[0];
        if payload is Some {
            None
        } else if err_type {
            if e.name == "error"@ && e.namespace == ns::DEFAULT_NS@ {
                if errp is Some {
                    None
                } else {
                    scan_children(ec.drop_first(), err_type, total, payload, Some(e))
                }
            } else if total != 2 {
                None
            } else {
                scan_children(ec.drop_first(), err_type, total, payload, errp)
            }
        } else {
            scan_children(ec.drop_first(), err_type, total, Some(e), errp)
        }
    }
}

/// The decision tree of the iq parser.
pub open spec fn iq_shape(root: ElementView) -> IqShape {
    if !(root.name == "iq"@ && root.namespace == ns::DEFAULT_NS@) {
        IqShape::NotIq
    } else if (match attr_lookup(root.attributes, "from"@) {
        Option::Some(v) => !jid_accepts(v),
        Option::None => false,
    }) {
        IqShape::BadFrom
    } else if (match attr_lookup(root.attributes, "to"@) {
        Option::Some(v) => !jid_accepts(v),
        Option::None => false,
    }) {
        IqShape::BadTo
    } else {
        match attr_lookup(root.attributes, "type"@) {
            Option::None => IqShape::MissingType,
            Option::Some(ty) => {
                let ec = elem_children(root.children);
                match scan_children(ec, ty == "error"@, ec.len() as int, None, None) {
                    Option::None => IqShape::WrongChildren,
                    Option::Some((payload, errp)) => {
                        if ty == "get"@ {
                            match payload {
                                Option::Some(p) => IqShape::Get(p),
                                Option::None => IqShape::WrongChildren,
                            }
                        } else if ty == "set"@ {
                            match payload {
                                Option::Some(p) => IqShape::SetPayload(p),
                                Option::None => IqShape::WrongChildren,
                            }
                        } else if ty == "result"@ {
                            match payload {
                                Option::Some(p) => IqShape::ResultSome(p),
                                Option::None => IqShape::ResultNone,
                            }
                        } else if ty == "error"@ {
                            match errp {
                                Option::Some(p) => IqShape::ErrorReply(p),
                                Option::None => IqShape::WrongChildren,
                            }
                        } else {
                            IqShape::UnknownType
                        }
                    },
                }
            },
        }
    }
}

/// The envelope attributes carried over into the parsed stanza.
pub open spec fn iq_common(iq: Iq, root: ElementView) -> bool {
    &&& (iq.from is Some) == (attr_lookup(root.attributes, "from"@) is Some)
    &&& (iq.to is Some) == (attr_lookup(root.attributes, "to"@) is Some)
    &&& opt_str_view(iq.id) == attr_lookup(root.attributes, "id"@)
}

/// The view of an optional element.
pub open spec fn opt_elem_view(o: Option<Element>) -> Option<ElementView> {
    match o {
        Option::None => None,
        Option::Some(e) => Some(e@),
    }
}

impl Iq {
    /// Parses an `<iq/>` element, per [`iq_shape`].
    pub fn try_from(root: Element) -> (r: Result<Iq, Error>)
        ensures
            (match iq_shape(root@) {
                IqShape::NotIq => r matches Err(Error::ParseError(m)) && m@
                    == "This is not an iq element."@,
                IqShape::BadFrom => r matches Err(Error::JidParseError),
                IqShape::BadTo => r matches Err(Error::JidParseError),
                IqShape::MissingType => r matches Err(Error::ParseError(m)) && m@
                    == "Required attribute 'type' missing."@,
                IqShape::WrongChildren => r matches Err(Error::ParseError(m)) && m@
                    == "Wrong number of children in iq element."@,
                IqShape::UnknownType => r matches Err(Error::ParseError(m)) && m@
                    == "Unknown iq type."@,
                IqShape::Get(p) => r matches Ok(iq) && (iq.payload matches IqType::Get(e) && e@
                    == p) && iq_common(iq, root@),
                IqShape::SetPayload(p) => r matches Ok(iq) && (iq.payload
                    matches IqType::SetPayload(e) && e@ == p) && iq_common(iq, root@),
                IqShape::ResultSome(p) => r matches Ok(iq) && (iq.payload matches IqType::Result(
                    e,
                ) && opt_elem_view(e) == Some(p)) && iq_common(iq, root@),
                IqShape::ResultNone => r matches Ok(iq) && (iq.payload matches IqType::Result(e)
                    && e is None) && iq_common(iq, root@),
                IqShape::ErrorReply(p) => r matches Ok(iq) && (iq.payload matches IqType::Error(e)
                    && e@ == p) && iq_common(iq, root@),
            }),
    {
        let ghost rv = root@;
        if !root.is("iq", ns::DEFAULT_NS) {
            return Err(Error::ParseError("This is not an iq element.".to_owned()));
        }
        let from: Option<jid::Jid> = match root.attr("from") {
            Option::None => None,
            Option::Some(v) => match jid_new(v.as_str()) {
                Option::Some(j) => Some(j),
                Option::None => {
                    return Err(Error::JidParseError);
                },
            },
        };
        let to: Option<jid::Jid> = match root.attr("to") {
            Option::None => None,
            Option::Some(v) => match jid_new(v.as_str()) {
                Option::Some(j) => Some(j),
                Option::None => {
                    return Err(Error::JidParseError);
                },
            },
        };
        let id: Option<String> = match root.attr("id") {
            Option::None => None,
            Option::Some(v) => Some(v.clone()),
        };
        let ty: String = match root.attr("type") {
            Option::None => {
                return Err(Error::ParseError("Required attribute 'type' missing.".to_owned()));
            },
            Option::Some(v) => v.clone(),
        };
        let err_type = crate::decode::str_eq(ty.as_str(), "error");
        let total = root.element_child_count();
        let ghost ec = elem_children(rv.children);
        let mut kids = root.children;
        let mut payload: Option<Element> = None;
        let mut errp: Option<Element> = None;
        proof {
            assert(crate::element::nodes_view(kids@) == rv.children);
        }
        while kids.len() > 0
            invariant
                rv == root@,
                rv.name == "iq"@,
                rv.namespace == ns::DEFAULT_NS@,
                (match attr_lookup(rv.attributes, "from"@) {
                    Option::Some(v) => jid_accepts(v),
                    Option::None => true,
                }),
                (match attr_lookup(rv.attributes, "to"@) {
                    Option::Some(v) => jid_accepts(v),
                    Option::None => true,
                }),
                (from is Some) == (attr_lookup(rv.attributes, "from"@) is Some),
                (to is Some) == (attr_lookup(rv.attributes, "to"@) is Some),
                opt_str_view(id) == attr_lookup(rv.attributes, "id"@),
                attr_lookup(rv.attributes, "type"@) == Some(ty@),
                err_type == (ty@ == "error"@),
                total == ec.len(),
                ec == elem_children(rv.children),
                (scan_children(ec, err_type, total as int, None, None) == scan_children(
                    elem_children(crate::element::nodes_view(kids@)),
                    err_type,
                    total as int,
                    opt_elem_view(payload),
                    opt_elem_view(errp),
                )),
            decreases kids@.len(),
        {
            let ghost kv = crate::element::nodes_view(kids@);
            let node = kids.remove(0);
            proof {
                assert(crate::element::nodes_view(kids@) =~= kv.drop_first());
                assert(kv[0] == crate::element::node_view(node));
            }
            match node {
                Node::Text(_) => {
                    proof {
                        assert(elem_children(kv) == elem_children(kv.drop_first()));
                    }
                },
                Node::Element(el) => {
                    let ghost ekv = elem_children(kv);
                    let ghost pv0 = opt_elem_view(payload);
                    let ghost ev0 = opt_elem_view(errp);
                    proof {
                        assert(kv[0] == NodeView::Element(el@));
                        assert(ekv == seq![el@] + elem_children(kv.drop_first()));
                        assert(ekv[0] == el@);
                        assert(ekv.drop_first() =~= elem_children(kv.drop_first()));
                        assert(ekv.len() > 0);
                    }
                    let has_payload = match &payload {
                        Option::Some(_) => true,
                        Option::None => false,
                    };
                    if has_payload {
                        proof {
                            assert(scan_children(ekv, err_type, total as int, pv0, ev0) is None);
                        }
                        return Err(
                            Error::ParseError("Wrong number of children in iq element.".to_owned()),
                        );
                    }
                    if err_type {
                        if el.is("error", ns::DEFAULT_NS) {
                            let has_errp = match &errp {
                                Option::Some(_) => true,
                                Option::None => false,
                            };
                            if has_errp {
                                proof {
                                    assert(scan_children(ekv, err_type, total as int, pv0, ev0)
                                        is None);
                                }
                                return Err(
                                    Error::ParseError(
                                        "Wrong number of children in iq element.".to_owned(),
                                    ),
                                );
                            }
                            proof {
                                assert(scan_children(ekv, err_type, total as int, pv0, ev0)
                                    == scan_children(
                                    ekv.drop_first(),
                                    err_type,
                                    total as int,
                                    pv0,
                                    Some(el@),
                                ));
                            }
                            errp = Some(el);
                        } else if total != 2 {
                            proof {
                                assert(scan_children(ekv, err_type, total as int, pv0, ev0)
                                    is None);
                            }
                            return Err(
                                Error::ParseError(
                                    "Wrong number of children in iq element.".to_owned(),
                                ),
                            );
                        } else {
                            proof {
                                assert(scan_children(ekv, err_type, total as int, pv0, ev0)
                                    == scan_children(
                                    ekv.drop_first(),
                                    err_type,
                                    total as int,
                                    pv0,
                                    ev0,
                                ));
                            }
                        }
                    } else {
                        proof {
                            assert(scan_children(ekv, err_type, total as int, pv0, ev0)
                                == scan_children(
                                ekv.drop_first(),
                                err_type,
                                total as int,
                                Some(el@),
                                ev0,
                            ));
                        }
                        payload = Some(el);
                    }
                },
            }
        }
        proof {
            assert(elem_children(crate::element::nodes_view(kids@)).len() == 0);
        }
        let payload_type = if crate::decode::str_eq(ty.as_str(), "get") {
            match payload {
                Option::Some(p) => IqType::Get(p),
                Option::None => {
                    return Err(
                        Error::ParseError("Wrong number of children in iq element.".to_owned()),
                    );
                },
            }
        } else if crate::decode::str_eq(ty.as_str(), "set") {
            match payload {
                Option::Some(p) => IqType::SetPayload(p),
                Option::None => {
                    return Err(
                        Error::ParseError("Wrong number of children in iq element.".to_owned()),
                    );
                },
            }
        } else if crate::decode::str_eq(ty.as_str(), "result") {
            IqType::Result(payload)
        } else if err_type {
            match errp {
                Option::Some(p) => IqType::Error(p),
                Option::None => {
                    return Err(
                        Error::ParseError("Wrong number of children in iq element.".to_owned()),
                    );
                },
            }
        } else {
            return Err(Error::ParseError("Unknown iq type.".to_owned()));
        };
        Ok(Iq { from, to, id, payload: payload_type })
    }
}

} // verus!

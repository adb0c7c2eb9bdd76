//! The attention extension payload: an empty element in its own namespace.

use crate::element::{elem_children, Element};
use crate::error::Error;
use crate::ns;
use vstd::prelude::*;

verus! {

/// A request for the recipient's attention; the element carries nothing
/// else.
#[derive(Debug, Clone, PartialEq, Eq)]
pub enum Attention {
    Attention,
}

/// Accepts exactly an `<attention/>` element in the attention namespace
/// with no child elements; text children are ignored.
pub fn parse_attention(root: &Element) -> (r: Result<Attention, Error>)
    ensures
        (match r {
            Result::Ok(_) => root@.name == "attention"@ && root@.namespace == ns::ATTENTION@
                && elem_children(root@.children).len() == 0,
            Result::Err(Error::ParseError(m)) => if !(root@.name == "attention"@
                && root@.namespace == ns::ATTENTION@) {
                m@ == "This is not an attention element."@
            } else {
                elem_children(root@.children).len() > 0 && m@
                    == "Unknown child in attention element."@
            },
            Result::Err(_) => false,
        }),
{
    if !root.is("attention", ns::ATTENTION) {
        return Err(Error::ParseError("This is not an attention element.".to_owned()));
    }
    if root.element_child_count() > 0 {
        return Err(Error::ParseError("Unknown child in attention element.".to_owned()));
    }
    Ok(Attention::Attention)
}

} // verus!

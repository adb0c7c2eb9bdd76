//! The namespace URIs the stanza-level parsers use.

use vstd::prelude::*;

verus! {

/// The client stream namespace.
pub const DEFAULT_NS: &'static str = "jabber:client";

/// The attention extension namespace.
pub const ATTENTION: &'static str = "urn:xmpp:attention:0";

/// The resource binding namespace.
pub const BIND: &'static str = "urn:ietf:params:xml:ns:xmpp-bind";

} // verus!


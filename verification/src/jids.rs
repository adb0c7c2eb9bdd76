//! Declarations for the outside `jid` crate: Jabber IDs are carried through
//! the stanza layer as opaque values.

use vstd::prelude::*;

verus! {

#[verifier::external_type_specification]
#[verifier::external_body]
pub struct ExJid(jid::Jid);

/// Whether the `jid` crate accepts this string as a Jabber ID.  The outcome
/// depends on the characters alone.
pub uninterp spec fn jid_accepts(s: Seq<char>) -> bool;

/// Relies on `jid::Jid::new`: it parses a `node@domain/resource` string,
/// and accepts or refuses it as a function of the string alone.
#[verifier::external_body]
pub fn jid_new(s: &str) -> (r: Option<jid::Jid>)
    ensures
        (r is Some) == jid_accepts(s@),
{
    jid::Jid::new(s).ok()
}

} // verus!

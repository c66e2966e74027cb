use vstd::prelude::*;

use crate::encryption::Encrypt;

verus! {

/// How one end reacts to a typed event the other end sent: consume the
/// event together with the session's own state and produce whatever the
/// reaction yields.
pub trait Respond {
    type SteerMetadata;

    type Output;

    fn respond(self, metadata: &Self::SteerMetadata) -> Self::Output;
}

/// A typed message of a declared, ordered exchange between the two roles of
/// a session: it can be built from the session's state on the sending side,
/// reacted to on the receiving side, and carried encrypted in between.
pub trait Event: Respond + Encrypt {
    type SteerMeta;

    fn new(input: &Self::SteerMeta) -> Self where Self: Sized;
}

} // verus!

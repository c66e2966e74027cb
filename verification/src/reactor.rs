use vstd::prelude::*;

verus! {

/// A reactor built in one step from its configuration and the set of
/// services it will supervise.
pub trait Reactor {
    type Metadata;

    type Services;

    fn init(metadata: Self::Metadata, services: Self::Services) -> Self where Self: Sized;
}

} // verus!

use vstd::prelude::*;

use crate::errors::ServiceError;
use crate::reactor::Reactor;

verus! {

/// A service supervised by the simple reactor family: every operation sees
/// the reactor's shared configuration and the unit's own id. `fallback`
/// runs after each `main`; if it fails, the unit aborts.
pub trait Service {
    type ReactorMetadata;

    /// Runs once, before the run loop; failure aborts the unit.
    fn init(&self, input: &Self::ReactorMetadata, service_id: &str) -> Result<(), ServiceError>;

    /// The repeated work step.
    fn main(&self, input: &Self::ReactorMetadata, service_id: &str) -> Result<(), ServiceError>;

    /// Runs after each `main`; its failure is terminal for the unit.
    fn fallback(&self, input: &Self::ReactorMetadata, service_id: &str) -> Result<
        (),
        ServiceError,
    >;

    /// Runs on the way out when the unit is aborting.
    fn abort(&self, input: &Self::ReactorMetadata, service_id: &str) -> Result<(), ServiceError>;
}

/// The simplest reactor shape: shared configuration handed to every
/// supervised unit, and the units themselves, held as one collection.
pub struct StdReactor<M, S> {
    pub metadata: M,
    pub services: Vec<S>,
}

impl<M, S> Reactor for StdReactor<M, S> {
    type Metadata = M;

    type Services = Vec<S>;

    fn init(metadata: M, services: Vec<S>) -> (r: StdReactor<M, S>)
        ensures
            r.metadata == metadata,
            r.services == services,
    {
        StdReactor { metadata, services }
    }
}

} // verus!

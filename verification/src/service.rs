use vstd::prelude::*;

use crate::errors::{FinalReport, ServiceError};
use crate::lifecycle::{next_call_of, step_state, Driver, DriverState, LifecycleCall};
use crate::registry::Registry;

verus! {

/// The base five-operation lifecycle contract, with exclusive access to the
/// unit. The reactor of this module supervises implementations of it; the
/// isolated and shared reactors refine the same contract by ownership
/// discipline.
pub trait Service {
    /// Runs exactly once, before anything else; failure skips the run loop.
    fn init(&mut self) -> Result<(), ServiceError>;

    /// The unit's primary work step; invoked repeatedly.
    fn main(&mut self) -> Result<(), ServiceError>;

    /// Post-step bookkeeping, run once after each successful `main`; its
    /// failure is treated like a `main` failure.
    fn repeat(&mut self) -> Result<(), ServiceError>;

    /// Offered the error of a failed `main` or `repeat`; success resumes the
    /// run loop, failure ends it.
    fn catch(&mut self, error: &ServiceError) -> Result<(), ServiceError>;

    /// Runs exactly once on the way out, whatever path led there.
    fn abort(&mut self) -> Result<(), ServiceError>;
}

/// Type-erased service: any concrete implementation behind one uniform
/// handle, every call forwarded unchanged to the inner value.
pub struct DynamicService(pub Box<dyn Service>);

impl DynamicService {
    /// Erase a concrete service's type.
    pub fn from_service<S: Service + 'static>(service: S) -> DynamicService {
        DynamicService(Box::new(service))
    }
}

impl Service for DynamicService {
    fn init(&mut self) -> Result<(), ServiceError> {
        self.0.init()
    }

    fn main(&mut self) -> Result<(), ServiceError> {
        self.0.main()
    }

    fn repeat(&mut self) -> Result<(), ServiceError> {
        self.0.repeat()
    }

    fn catch(&mut self, error: &ServiceError) -> Result<(), ServiceError> {
        self.0.catch(error)
    }

    fn abort(&mut self) -> Result<(), ServiceError> {
        self.0.abort()
    }
}

/// What one scheduling step of a supervised unit came to.
pub enum ServiceStep<S> {
    /// No unit is registered under the id.
    NotFound,
    /// One lifecycle call was made; the unit stays registered.
    Progressed,
    /// The unit terminated: it was removed from the registry and its value
    /// and final report come back.
    Completed(S, FinalReport),
}

struct ServiceEntry<S> {
    service: S,
    driver: Driver,
}

fn perform_service_call<S: Service>(service: &mut S, driver: &mut Driver)
    requires
        !(old(driver).state() is Terminated),
        old(driver).inv(),
    ensures
        final(driver).inv(),
        final(driver).calls() == old(driver).calls().push(
            next_call_of(old(driver).state())->Some_0,
        ),
        exists|o: Result<(), ServiceError>|
            final(driver).state() == #[trigger] step_state(old(driver).state(), o),
{
    let call = driver.next_call();
    match call {
        Some(LifecycleCall::Init) => {
            let r = service.init();
            driver.advance(r);
        },
        Some(LifecycleCall::Main) => {
            let r = service.main();
            driver.advance(r);
        },
        Some(LifecycleCall::Repeat) => {
            let r = service.repeat();
            driver.advance(r);
        },
        Some(LifecycleCall::Catch) => {
            let r = match driver.error_to_catch() {
                Some(e) => service.catch(e),
                None => unreached(),
            };
            driver.advance(r);
        },
        Some(LifecycleCall::Abort) => {
            let r = service.abort();
            driver.advance(r);
        },
        None => unreached(),
    }
}

/// The plain reactor: a registry of supervised units and nothing else — no
/// completion notifications, no observer handles.
pub struct Reactor<T: Service> {
    services: Registry<ServiceEntry<T>>,
}

impl<T: Service> Reactor<T> {
    /// Ids to the lifecycle position of the unit registered there.
    pub closed spec fn service_map(&self) -> Map<u64, DriverState> {
        self.services.as_map().map_values(|e: ServiceEntry<T>| e.driver.state())
    }

    /// Registered ids are unique and every registered driver still owes a
    /// call.
    pub closed spec fn wf(&self) -> bool {
        &&& self.services.wf()
        &&& forall|id: u64|
            #![trigger self.service_map()[id]]
            self.service_map().contains_key(id) ==> !(self.service_map()[id] is Terminated)
                && self.entry_inv(id)
    }

    spec fn entry_inv(&self, id: u64) -> bool {
        self.services.as_map().contains_key(id) && self.services.as_map()[id].driver.inv()
    }

    /// A reactor with no services.
    pub fn new() -> (r: Reactor<T>)
        ensures
            r.wf(),
            r.service_map() == Map::<u64, DriverState>::empty(),
    {
        let r = Reactor::<T> { services: Registry::new() };
        proof {
            assert(r.service_map() =~= Map::<u64, DriverState>::empty());
        }
        r
    }

    /// Register a service under an id and schedule it from the start of its
    /// lifecycle. Registering a still-live id is a caller bug and silently
    /// replaces the old entry.
    pub fn spawn_service(&mut self, service_id: u64, service: T) -> (r: Result<(), ServiceError>)
        requires
            old(self).wf(),
        ensures
            final(self).wf(),
            r is Ok,
            final(self).service_map() == old(self).service_map().insert(
                service_id,
                DriverState::Initializing,
            ),
    {
        let driver = Driver::new();
        self.services.insert(service_id, ServiceEntry { service, driver });
        proof {
            assert(self.service_map() =~= old(self).service_map().insert(
                service_id,
                DriverState::Initializing,
            ));
            assert forall|k: u64|
                self.service_map().contains_key(k) implies !(#[trigger] self.service_map()[k]
                is Terminated) && self.entry_inv(k) by {
                if k != service_id {
                    assert(old(self).service_map().contains_key(k));
                    assert(!(old(self).service_map()[k] is Terminated));
                    assert(old(self).entry_inv(k));
                }
            }
        }
        Ok(())
    }

    /// How many units are currently registered.
    pub fn service_count(&self) -> (n: usize)
        requires
            self.wf(),
        ensures
            n == self.service_map().dom().len(),
            n == 0 <==> self.service_map() == Map::<u64, DriverState>::empty(),
    {
        proof {
            assert(self.service_map().dom() =~= self.services.as_map().dom());
            if self.services.as_map() == Map::<u64, ServiceEntry<T>>::empty() {
                assert(self.service_map() =~= Map::<u64, DriverState>::empty());
            }
            if self.service_map() == Map::<u64, DriverState>::empty() {
                assert forall|k: u64| !#[trigger] self.services.as_map().contains_key(k) by {
                    if self.services.as_map().contains_key(k) {
                        assert(self.service_map().contains_key(k));
                    }
                }
                assert(self.services.as_map() =~= Map::<u64, ServiceEntry<T>>::empty());
            }
        }
        self.services.len()
    }

    /// Drive the unit registered under `id` through one lifecycle call,
    /// removing it once it terminates.
    pub fn step_service(&mut self, id: u64) -> (r: ServiceStep<T>)
        requires
            old(self).wf(),
        ensures
            final(self).wf(),
            match r {
                ServiceStep::NotFound => {
                    &&& !old(self).service_map().contains_key(id)
                    &&& final(self).service_map() == old(self).service_map()
                },
                ServiceStep::Progressed => {
                    &&& old(self).service_map().contains_key(id)
                    &&& exists|o: Result<(), ServiceError>|
                        !(#[trigger] step_state(old(self).service_map()[id], o) is Terminated)
                            && final(self).service_map() == old(self).service_map().insert(
                            id,
                            step_state(old(self).service_map()[id], o),
                        )
                },
                ServiceStep::Completed(_, rep) => {
                    &&& old(self).service_map().contains_key(id)
                    &&& exists|o: Result<(), ServiceError>|
                        #[trigger] step_state(old(self).service_map()[id], o)
                            == DriverState::Terminated(rep)
                    &&& final(self).service_map() == old(self).service_map().remove(id)
                },
            },
    {
        let entry_opt = self.services.remove(id);
        match entry_opt {
            None => {
                proof {
                    assert(!old(self).services.as_map().contains_key(id));
                    assert(!old(self).service_map().contains_key(id));
                    assert(self.services.as_map() =~= old(self).services.as_map());
                    assert(self.service_map() =~= old(self).service_map());
                    assert forall|k: u64|
                        self.service_map().contains_key(k) implies !(
                    #[trigger] self.service_map()[k] is Terminated) && self.entry_inv(k) by {
                        assert(old(self).service_map().contains_key(k));
                        assert(!(old(self).service_map()[k] is Terminated));
                        assert(old(self).entry_inv(k));
                    }
                }
                ServiceStep::NotFound
            },
            Some(entry) => {
                let ServiceEntry { mut service, mut driver } = entry;
                let ghost pre = driver.state();
                proof {
                    assert(old(self).service_map()[id] == pre);
                }
                perform_service_call(&mut service, &mut driver);
                if driver.is_terminated() {
                    let ghost dstate = driver.state();
                    let rep = driver.into_report();
                    proof {
                        assert(self.service_map() =~= old(self).service_map().remove(id));
                        let o = choose|o: Result<(), ServiceError>|
                            dstate == #[trigger] step_state(pre, o);
                        assert(step_state(old(self).service_map()[id], o)
                            == DriverState::Terminated(rep));
                        assert forall|k: u64|
                            self.service_map().contains_key(k) implies !(
                        #[trigger] self.service_map()[k] is Terminated) && self.entry_inv(k) by {
                            assert(old(self).service_map().contains_key(k));
                            assert(!(old(self).service_map()[k] is Terminated));
                            assert(old(self).entry_inv(k));
                        }
                    }
                    ServiceStep::Completed(service, rep)
                } else {
                    self.services.insert(id, ServiceEntry { service, driver });
                    proof {
                        let post = driver.state();
                        assert(self.service_map() =~= old(self).service_map().insert(id, post));
                        let o = choose|o: Result<(), ServiceError>|
                            driver.state() == #[trigger] step_state(pre, o);
                        assert(!(step_state(old(self).service_map()[id], o) is Terminated)
                            && self.service_map() == old(self).service_map().insert(
                            id,
                            step_state(old(self).service_map()[id], o),
                        ));
                        assert forall|k: u64|
                            self.service_map().contains_key(k) implies !(
                        #[trigger] self.service_map()[k] is Terminated) && self.entry_inv(k) by {
                            if k != id {
                                assert(old(self).service_map().contains_key(k));
                                assert(!(old(self).service_map()[k] is Terminated));
                                assert(old(self).entry_inv(k));
                            }
                        }
                    }
                    ServiceStep::Progressed
                }
            },
        }
    }
}

} // verus!

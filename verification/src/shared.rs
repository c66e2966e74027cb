use vstd::prelude::*;

use crate::errors::{FinalReport, ServiceError};
use crate::lifecycle::{next_call_of, step_state, Driver, DriverState, LifecycleCall};
use crate::registry::Registry;

verus! {

/// A shared service gets only shared access to itself: its methods never
/// demand exclusive mutation, which is what lets the reactor publish
/// observer handles to a unit while it runs. Any internal mutability and its
/// synchronization are the implementation's own business.
pub trait SharedService {
    /// Runs exactly once, before anything else; failure skips the run loop.
    fn init(&self) -> Result<(), ServiceError>;

    /// The unit's primary work step; invoked repeatedly.
    fn main(&self) -> Result<(), ServiceError>;

    /// Post-step bookkeeping, run once after each successful `main`; its
    /// failure is treated like a `main` failure.
    fn repeat(&self) -> Result<(), ServiceError>;

    /// Offered the error of a failed `main` or `repeat`; success resumes the
    /// run loop, failure ends it.
    fn catch(&self, error: &ServiceError) -> Result<(), ServiceError>;

    /// Runs exactly once on the way out, whatever path led there.
    fn abort(&self) -> Result<(), ServiceError>;
}

/// Type-erased shared service: any concrete implementation behind one
/// uniform handle, every call forwarded unchanged to the inner value.
pub struct DynamicSharedService(pub Box<dyn SharedService>);

impl DynamicSharedService {
    /// Erase a concrete service's type.
    pub fn from_service<S: SharedService + 'static>(service: S) -> DynamicSharedService {
        DynamicSharedService(Box::new(service))
    }
}

impl SharedService for DynamicSharedService {
    fn init(&self) -> Result<(), ServiceError> {
        self.0.init()
    }

    fn main(&self) -> Result<(), ServiceError> {
        self.0.main()
    }

    fn repeat(&self) -> Result<(), ServiceError> {
        self.0.repeat()
    }

    fn catch(&self, error: &ServiceError) -> Result<(), ServiceError> {
        self.0.catch(error)
    }

    fn abort(&self) -> Result<(), ServiceError> {
        self.0.abort()
    }
}

/// A non-owning handle to a shared service's value. It never keeps the
/// value alive and never blocks the service: once the service has been
/// removed from its registry and no other strong holder remains, upgrading
/// yields nothing.
#[verifier::external_body]
#[verifier::reject_recursive_types(T)]
pub struct ServiceObserver<T> {
    inner: std::sync::Weak<T>,
}

impl<T> ServiceObserver<T> {
    /// Relies on std's Arc::downgrade: a weak handle to the same allocation,
    /// taking no ownership of it.
    #[verifier::external_body]
    fn of_arc(strong: &std::sync::Arc<T>) -> ServiceObserver<T> {
        ServiceObserver { inner: std::sync::Arc::downgrade(strong) }
    }

    /// Relies on std's Weak::upgrade: returns a strong handle while the
    /// value is still owned somewhere, and `None` once every owner has
    /// dropped it. Which of the two comes back depends on runtime ownership
    /// state, so nothing more is promised of the outcome.
    #[verifier::external_body]
    pub fn upgrade(&self) -> Option<std::sync::Arc<T>> {
        self.inner.upgrade()
    }
}

/// What one scheduling step of a supervised shared unit came to.
pub enum SharedStep {
    /// No unit is registered under the id.
    NotFound,
    /// One lifecycle call was made; the unit stays registered.
    Progressed,
    /// The unit terminated: its registry entry — the reactor's strong handle
    /// to it — was dropped, its notification was emitted, and its final
    /// report comes back.
    Completed(FinalReport),
}

struct SharedEntry<S> {
    service: std::sync::Arc<S>,
    driver: Driver,
}

/// Make the one lifecycle call the driver owes, through shared access, and
/// advance the driver by the outcome.
fn perform_shared_call<S: SharedService>(service: &S, driver: &mut Driver)
    requires
        !(old(driver).state() is Terminated),
        old(driver).inv(),
    ensures
        final(driver).inv(),
        final(driver).calls() == old(driver).calls().push(
            next_call_of(old(driver).state())->Some_0,
        ),
        exists|o: Result<(), ServiceError>|
            final(driver).state() == #[trigger] step_state(old(driver).state(), o),
{
    let call = driver.next_call();
    match call {
        Some(LifecycleCall::Init) => {
            let r = service.init();
            driver.advance(r);
        },
        Some(LifecycleCall::Main) => {
            let r = service.main();
            driver.advance(r);
        },
        Some(LifecycleCall::Repeat) => {
            let r = service.repeat();
            driver.advance(r);
        },
        Some(LifecycleCall::Catch) => {
            let r = match driver.error_to_catch() {
                Some(e) => service.catch(e),
                None => unreached(),
            };
            driver.advance(r);
        },
        Some(LifecycleCall::Abort) => {
            let r = service.abort();
            driver.advance(r);
        },
        None => unreached(),
    }
}

/// Supervises shared services: registers them by id, keeps one strong
/// handle per unit for its registered lifetime, drives each through the
/// run-loop algorithm, publishes observer handles, and emits one completion
/// notification per terminated unit, carrying whether the registry was
/// empty right after that removal.
pub struct SharedReactor<S: SharedService> {
    services: Registry<SharedEntry<S>>,
    notes: Vec<bool>,
    emitted: Ghost<Seq<bool>>,
}

/// Registration and observation of shared services, the shape shared by
/// every reactor that supervises them.
pub trait SharedReactorTrait<T: SharedService> {
    /// The reactor's own well-formedness; spawning preserves it.
    spec fn ready(&self) -> bool;

    fn spawn_service(&mut self, service: T, id: u64) -> (r: Result<(), ServiceError>)
        requires
            old(self).ready(),
        ensures
            final(self).ready(),
    ;

    fn get_service(&self, id: u64) -> (r: Option<ServiceObserver<T>>)
        requires
            self.ready(),
    ;
}

impl<S: SharedService> SharedReactorTrait<S> for SharedReactor<S> {
    open spec fn ready(&self) -> bool {
        self.wf()
    }

    fn spawn_service(&mut self, service: S, id: u64) -> Result<(), ServiceError> {
        self.register_service(service, id)
    }

    fn get_service(&self, id: u64) -> Option<ServiceObserver<S>> {
        self.observe_service(id)
    }
}

impl<S: SharedService> SharedReactor<S> {
    /// Ids to the lifecycle position of the unit registered there.
    pub closed spec fn service_map(&self) -> Map<u64, DriverState> {
        self.services.as_map().map_values(|e: SharedEntry<S>| e.driver.state())
    }

    /// Notifications emitted but not yet consumed, oldest first.
    pub closed spec fn pending_notes(&self) -> Seq<bool> {
        self.notes@
    }

    /// Every notification ever emitted by this reactor, oldest first.
    pub closed spec fn emitted_notes(&self) -> Seq<bool> {
        self.emitted@
    }

    /// Registered ids are unique and every registered driver still owes a
    /// call.
    pub closed spec fn wf(&self) -> bool {
        &&& self.services.wf()
        &&& forall|id: u64|
            #![trigger self.service_map()[id]]
            self.service_map().contains_key(id) ==> !(self.service_map()[id] is Terminated)
                && self.entry_inv(id)
    }

    spec fn entry_inv(&self, id: u64) -> bool {
        self.services.as_map().contains_key(id) && self.services.as_map()[id].driver.inv()
    }

    proof fn lemma_empty_bridge(&self)
        ensures
            (self.services.as_map() == Map::<u64, SharedEntry<S>>::empty()) <==> (
            self.service_map() == Map::<u64, DriverState>::empty()),
    {
        if self.services.as_map() == Map::<u64, SharedEntry<S>>::empty() {
            assert(self.service_map() =~= Map::<u64, DriverState>::empty());
        }
        if self.service_map() == Map::<u64, DriverState>::empty() {
            assert forall|k: u64| !#[trigger] self.services.as_map().contains_key(k) by {
                if self.services.as_map().contains_key(k) {
                    assert(self.service_map().contains_key(k));
                }
            }
            assert(self.services.as_map() =~= Map::<u64, SharedEntry<S>>::empty());
        }
    }

    /// A reactor with no services and no notifications.
    pub fn new() -> (r: SharedReactor<S>)
        ensures
            r.wf(),
            r.service_map() == Map::<u64, DriverState>::empty(),
            r.pending_notes() == Seq::<bool>::empty(),
            r.emitted_notes() == Seq::<bool>::empty(),
    {
        let r = SharedReactor::<S> {
            services: Registry::new(),
            notes: Vec::new(),
            emitted: Ghost(Seq::empty()),
        };
        proof {
            assert(r.service_map() =~= Map::<u64, DriverState>::empty());
        }
        r
    }

    /// Register a service under an id: the reactor takes one strong handle
    /// to it, held for its whole registered lifetime, and schedules the unit
    /// from the start of its lifecycle. Registering a still-live id is a
    /// caller bug and silently replaces the old entry.
    pub fn register_service(&mut self, service: S, id: u64) -> (r: Result<(), ServiceError>)
        requires
            old(self).wf(),
        ensures
            final(self).wf(),
            r is Ok,
            final(self).service_map() == old(self).service_map().insert(
                id,
                DriverState::Initializing,
            ),
            final(self).pending_notes() == old(self).pending_notes(),
            final(self).emitted_notes() == old(self).emitted_notes(),
    {
        let driver = Driver::new();
        let strong = std::sync::Arc::new(service);
        self.services.insert(id, SharedEntry { service: strong, driver });
        proof {
            assert(self.service_map() =~= old(self).service_map().insert(
                id,
                DriverState::Initializing,
            ));
            assert forall|k: u64|
                self.service_map().contains_key(k) implies !(#[trigger] self.service_map()[k]
                is Terminated) && self.entry_inv(k) by {
                if k != id {
                    assert(old(self).service_map().contains_key(k));
                    assert(!(old(self).service_map()[k] is Terminated));
                    assert(old(self).entry_inv(k));
                }
            }
        }
        Ok(())
    }

    /// An observer handle for the unit registered under `id`: present
    /// exactly while the id is registered, absent once the unit has been
    /// removed. Publishing a handle takes no lock and blocks nothing.
    pub fn observe_service(&self, id: u64) -> (r: Option<ServiceObserver<S>>)
        requires
            self.wf(),
        ensures
            r is Some <==> self.service_map().contains_key(id),
    {
        match self.services.get(id) {
            Some(entry) => Some(ServiceObserver::of_arc(&entry.service)),
            None => None,
        }
    }

    /// How many units are currently registered.
    pub fn service_count(&self) -> (n: usize)
        requires
            self.wf(),
        ensures
            n == self.service_map().dom().len(),
            n == 0 <==> self.service_map() == Map::<u64, DriverState>::empty(),
    {
        proof {
            assert(self.service_map().dom() =~= self.services.as_map().dom());
            self.lemma_empty_bridge();
        }
        self.services.len()
    }

    /// Consume the oldest pending completion notification, if one is there.
    pub fn recv_notification(&mut self) -> (r: Option<bool>)
        requires
            old(self).wf(),
        ensures
            final(self).wf(),
            final(self).service_map() == old(self).service_map(),
            final(self).emitted_notes() == old(self).emitted_notes(),
            r is Some <==> old(self).pending_notes().len() > 0,
            r matches Some(b) ==> b == old(self).pending_notes()[0] && final(self).pending_notes()
                == old(self).pending_notes().skip(1),
            r is None ==> final(self).pending_notes() == old(self).pending_notes(),
    {
        if self.notes.len() == 0 {
            None
        } else {
            let b = self.notes.remove(0);
            proof {
                assert(self.notes@ =~= old(self).notes@.skip(1));
            }
            Some(b)
        }
    }

    /// Drain pending completion notifications in delivery order, stopping
    /// once one reports the registry empty, or once none are left. Only the
    /// notification queue moves; no service runs.
    pub fn wait_all(&mut self)
        requires
            old(self).wf(),
        ensures
            final(self).wf(),
            final(self).service_map() == old(self).service_map(),
            final(self).emitted_notes() == old(self).emitted_notes(),
            final(self).pending_notes() == crate::notify::drained_notes(
                old(self).pending_notes(),
            ),
    {
        let ghost orig = self.notes@;
        let ghost svc0 = self.services;
        let ghost em0 = self.emitted@;
        loop
            invariant_except_break
                crate::notify::drained_notes(self.notes@) == crate::notify::drained_notes(orig),
            invariant
                self.services == svc0,
                self.emitted@ == em0,
            ensures
                self.services == svc0,
                self.emitted@ == em0,
                self.notes@ == crate::notify::drained_notes(orig),
            decreases self.notes@.len(),
        {
            if self.notes.len() == 0 {
                proof {
                    assert(crate::notify::drained_notes(self.notes@) =~= self.notes@);
                }
                break ;
            }
            let ghost prev = self.notes@;
            let b = self.notes.remove(0);
            proof {
                assert(self.notes@ =~= prev.skip(1));
            }
            if b {
                break ;
            }
        }
    }

    /// Drive the unit registered under `id` through one lifecycle call. If
    /// that call terminates the unit, the entry — the reactor's strong
    /// handle — is dropped and one notification is emitted, carrying whether
    /// the registry was left empty by that removal, as one step.
    pub fn step_service(&mut self, id: u64) -> (r: SharedStep)
        requires
            old(self).wf(),
        ensures
            final(self).wf(),
            match r {
                SharedStep::NotFound => {
                    &&& !old(self).service_map().contains_key(id)
                    &&& final(self).service_map() == old(self).service_map()
                    &&& final(self).pending_notes() == old(self).pending_notes()
                    &&& final(self).emitted_notes() == old(self).emitted_notes()
                },
                SharedStep::Progressed => {
                    &&& old(self).service_map().contains_key(id)
                    &&& exists|o: Result<(), ServiceError>|
                        !(#[trigger] step_state(old(self).service_map()[id], o) is Terminated)
                            && final(self).service_map() == old(self).service_map().insert(
                            id,
                            step_state(old(self).service_map()[id], o),
                        )
                    &&& final(self).pending_notes() == old(self).pending_notes()
                    &&& final(self).emitted_notes() == old(self).emitted_notes()
                },
                SharedStep::Completed(rep) => {
                    &&& old(self).service_map().contains_key(id)
                    &&& exists|o: Result<(), ServiceError>|
                        #[trigger] step_state(old(self).service_map()[id], o)
                            == DriverState::Terminated(rep)
                    &&& final(self).service_map() == old(self).service_map().remove(id)
                    &&& final(self).pending_notes() == old(self).pending_notes().push(
                        final(self).service_map() == Map::<u64, DriverState>::empty(),
                    )
                    &&& final(self).emitted_notes() == old(self).emitted_notes().push(
                        final(self).service_map() == Map::<u64, DriverState>::empty(),
                    )
                },
            },
    {
        let entry_opt = self.services.remove(id);
        match entry_opt {
            None => {
                proof {
                    assert(!old(self).services.as_map().contains_key(id));
                    assert(!old(self).service_map().contains_key(id));
                    assert(self.services.as_map() =~= old(self).services.as_map());
                    assert(self.service_map() =~= old(self).service_map());
                    assert forall|k: u64|
                        self.service_map().contains_key(k) implies !(
                    #[trigger] self.service_map()[k] is Terminated) && self.entry_inv(k) by {
                        assert(old(self).service_map().contains_key(k));
                        assert(!(old(self).service_map()[k] is Terminated));
                        assert(old(self).entry_inv(k));
                    }
                }
                SharedStep::NotFound
            },
            Some(entry) => {
                let SharedEntry { service, mut driver } = entry;
                let ghost pre = driver.state();
                proof {
                    assert(old(self).service_map()[id] == pre);
                }
                perform_shared_call(&*service, &mut driver);
                if driver.is_terminated() {
                    let ghost dstate = driver.state();
                    let rep = driver.into_report();
                    let n = self.services.len();
                    let now_empty = n == 0;
                    self.notes.push(now_empty);
                    proof {
                        self.emitted@ = self.emitted@.push(now_empty);
                        assert(self.service_map() =~= old(self).service_map().remove(id));
                        self.lemma_empty_bridge();
                        assert(now_empty == (self.service_map() == Map::<
                            u64,
                            DriverState,
                        >::empty()));
                        let o = choose|o: Result<(), ServiceError>|
                            dstate == #[trigger] step_state(pre, o);
                        assert(step_state(old(self).service_map()[id], o)
                            == DriverState::Terminated(rep));
                        assert forall|k: u64|
                            self.service_map().contains_key(k) implies !(
                        #[trigger] self.service_map()[k] is Terminated) && self.entry_inv(k) by {
                            assert(old(self).service_map().contains_key(k));
                            assert(!(old(self).service_map()[k] is Terminated));
                            assert(old(self).entry_inv(k));
                        }
                    }
                    SharedStep::Completed(rep)
                } else {
                    self.services.insert(id, SharedEntry { service, driver });
                    proof {
                        let post = driver.state();
                        assert(self.service_map() =~= old(self).service_map().insert(id, post));
                        let o = choose|o: Result<(), ServiceError>|
                            driver.state() == #[trigger] step_state(pre, o);
                        assert(!(step_state(old(self).service_map()[id], o) is Terminated)
                            && self.service_map() == old(self).service_map().insert(
                            id,
                            step_state(old(self).service_map()[id], o),
                        ));
                        assert forall|k: u64|
                            self.service_map().contains_key(k) implies !(
                        #[trigger] self.service_map()[k] is Terminated) && self.entry_inv(k) by {
                            if k != id {
                                assert(old(self).service_map().contains_key(k));
                                assert(!(old(self).service_map()[k] is Terminated));
                                assert(old(self).entry_inv(k));
                            }
                        }
                    }
                    SharedStep::Progressed
                }
            },
        }
    }

    /// Step registered units, oldest registration first, until the registry
    /// drains or the fuel runs out. Returns whether the registry drained. Of
    /// the notifications this emits, every one before the last reports the
    /// registry still occupied; the last reports empty exactly when the run
    /// drained it.
    pub fn run_all(&mut self, fuel: u64) -> (drained: bool)
        requires
            old(self).wf(),
        ensures
            final(self).wf(),
            drained == (final(self).service_map() == Map::<u64, DriverState>::empty()),
            final(self).emitted_notes().len() >= old(self).emitted_notes().len(),
            final(self).emitted_notes().take(old(self).emitted_notes().len() as int) == old(
                self,
            ).emitted_notes(),
            ({
                let seg = final(self).emitted_notes().skip(
                    old(self).emitted_notes().len() as int,
                );
                &&& final(self).pending_notes() == old(self).pending_notes() + seg
                &&& forall|i: int| #![trigger seg[i]] 0 <= i < seg.len() - 1 ==> !seg[i]
                &&& seg.len() > 0 ==> seg.last() == drained
                &&& drained && old(self).service_map() != Map::<u64, DriverState>::empty()
                    ==> seg.len() >= 1
            }),
    {
        let ghost base = self.emitted@.len() as int;
        let ghost pend0 = self.notes@;
        let ghost em0 = self.emitted@;
        let n0 = self.service_count();
        if n0 == 0 {
            proof {
                assert(self.emitted@.skip(base) =~= Seq::<bool>::empty());
                assert(self.notes@ =~= self.notes@ + Seq::<bool>::empty());
                assert(self.emitted@.take(base) =~= self.emitted@);
            }
            return true;
        }
        let mut remaining: u64 = fuel;
        loop
            invariant_except_break
                forall|i: int|
                    #![trigger self.emitted@[i]]
                    base <= i < self.emitted@.len() ==> !self.emitted@[i],
                self.service_map() != Map::<u64, DriverState>::empty(),
            invariant
                self.wf(),
                self.emitted@.len() >= base >= 0,
                self.emitted@.take(base) == em0,
                self.notes@ == pend0 + self.emitted@.skip(base),
            ensures
                self.wf(),
                self.emitted@.len() >= base,
                self.emitted@.take(base) == em0,
                self.notes@ == pend0 + self.emitted@.skip(base),
                forall|i: int|
                    #![trigger self.emitted@[i]]
                    base <= i < self.emitted@.len() - 1 ==> !self.emitted@[i],
                self.emitted@.len() > base ==> self.emitted@.last() == (self.service_map()
                    == Map::<u64, DriverState>::empty()),
                self.service_map() == Map::<u64, DriverState>::empty() ==> self.emitted@.len()
                    > base,
            decreases remaining,
        {
            if remaining == 0 {
                break ;
            }
            let id = match self.services.first_id() {
                Some(id) => id,
                None => {
                    proof {
                        self.lemma_empty_bridge();
                    }
                    unreached()
                },
            };
            let ghost prev_map = self.service_map();
            let ghost prev_emitted = self.emitted@;
            let step = self.step_service(id);
            proof {
                if self.emitted@.len() > prev_emitted.len() {
                    let b = self.emitted@.last();
                    assert(self.emitted@ =~= prev_emitted.push(b));
                    assert(self.emitted@.take(base) =~= prev_emitted.take(base));
                    assert(self.emitted@.skip(base) =~= prev_emitted.skip(base).push(b));
                    assert(self.notes@ =~= (pend0 + prev_emitted.skip(base)).push(b));
                    assert((pend0 + prev_emitted.skip(base)).push(b) =~= pend0 + self.emitted@.skip(
                        base,
                    ));
                }
            }
            match step {
                SharedStep::NotFound => {
                    proof {
                        assert(false);
                    }
                },
                SharedStep::Progressed => {
                    proof {
                        let o = choose|o: Result<(), ServiceError>|
                            !(#[trigger] step_state(prev_map[id], o) is Terminated)
                                && self.service_map() == prev_map.insert(
                                id,
                                step_state(prev_map[id], o),
                            );
                        assert(self.service_map().contains_key(id));
                    }
                },
                SharedStep::Completed(_) => {
                    let n = self.service_count();
                    if n == 0 {
                        break ;
                    }
                },
            }
            remaining = remaining - 1;
        }
        let n = self.service_count();
        let drained = n == 0;
        proof {
            let seg = self.emitted@.skip(base);
            assert forall|i: int| 0 <= i < seg.len() - 1 implies !#[trigger] seg[i] by {
                assert(seg[i] == self.emitted@[base + i]);
            }
            if seg.len() > 0 {
                assert(seg.last() == self.emitted@.last());
            }
        }
        drained
    }
}

} // verus!

use vstd::prelude::*;

use crate::errors::{FinalReport, ServiceError};
use crate::lifecycle::{next_call_of, step_state, Driver, DriverState, LifecycleCall};
use crate::registry::Registry;

verus! {

/// An isolated service gets exclusive, mutable access to itself: while it is
/// supervised nothing outside its reactor can reach it. Implement the five
/// lifecycle operations; the reactor drives them in the run-loop order.
pub trait IsolatedService {
    /// Runs exactly once, before anything else; failure skips the run loop.
    fn init(&mut self) -> Result<(), ServiceError>;

    /// The unit's primary work step; invoked repeatedly.
    fn main(&mut self) -> Result<(), ServiceError>;

    /// Post-step bookkeeping, run once after each successful `main`; its
    /// failure is treated like a `main` failure.
    fn repeat(&mut self) -> Result<(), ServiceError>;

    /// Offered the error of a failed `main` or `repeat`; success resumes the
    /// run loop, failure ends it.
    fn catch(&mut self, error: &ServiceError) -> Result<(), ServiceError>;

    /// Runs exactly once on the way out, whatever path led there.
    fn abort(&mut self) -> Result<(), ServiceError>;
}

/// Type-erased isolated service: any concrete implementation behind one
/// uniform handle, every call forwarded unchanged to the inner value.
pub struct DynamicIsolatedService(pub Box<dyn IsolatedService>);

impl DynamicIsolatedService {
    /// Erase a concrete service's type.
    pub fn from_service<S: IsolatedService + 'static>(service: S) -> DynamicIsolatedService {
        DynamicIsolatedService(Box::new(service))
    }
}

impl IsolatedService for DynamicIsolatedService {
    fn init(&mut self) -> Result<(), ServiceError> {
        self.0.init()
    }

    fn main(&mut self) -> Result<(), ServiceError> {
        self.0.main()
    }

    fn repeat(&mut self) -> Result<(), ServiceError> {
        self.0.repeat()
    }

    fn catch(&mut self, error: &ServiceError) -> Result<(), ServiceError> {
        self.0.catch(error)
    }

    fn abort(&mut self) -> Result<(), ServiceError> {
        self.0.abort()
    }
}

/// What one scheduling step of a supervised unit came to.
pub enum IsolatedStep<S> {
    /// No unit is registered under the id.
    NotFound,
    /// One lifecycle call was made; the unit stays registered.
    Progressed,
    /// The unit terminated: it was removed from the registry, its
    /// notification was emitted, and its value and final report come back.
    Completed(S, FinalReport),
}

struct IsolatedEntry<S> {
    service: S,
    driver: Driver,
}

/// Make the one lifecycle call the driver owes and advance it by the
/// outcome.
fn perform_isolated_call<S: IsolatedService>(service: &mut S, driver: &mut Driver)
    requires
        !(old(driver).state() is Terminated),
        old(driver).inv(),
    ensures
        final(driver).inv(),
        final(driver).calls() == old(driver).calls().push(
            next_call_of(old(driver).state())->Some_0,
        ),
        exists|o: Result<(), ServiceError>|
            final(driver).state() == #[trigger] step_state(old(driver).state(), o),
{
    let call = driver.next_call();
    match call {
        Some(LifecycleCall::Init) => {
            let r = service.init();
            driver.advance(r);
        },
        Some(LifecycleCall::Main) => {
            let r = service.main();
            driver.advance(r);
        },
        Some(LifecycleCall::Repeat) => {
            let r = service.repeat();
            driver.advance(r);
        },
        Some(LifecycleCall::Catch) => {
            let r = match driver.error_to_catch() {
                Some(e) => service.catch(e),
                None => unreached(),
            };
            driver.advance(r);
        },
        Some(LifecycleCall::Abort) => {
            let r = service.abort();
            driver.advance(r);
        },
        None => unreached(),
    }
}

/// Supervises isolated services: registers them by id, drives each one
/// through the run-loop algorithm, and emits one completion notification per
/// terminated unit, carrying whether the registry was empty right after that
/// removal.
pub struct IsolatedReactor<S: IsolatedService> {
    services: Registry<IsolatedEntry<S>>,
    notes: Vec<bool>,
    emitted: Ghost<Seq<bool>>,
}

/// Registration of isolated services, the shape shared by every reactor that
/// supervises them.
pub trait IsolatedReactorTrait<T: IsolatedService> {
    /// The reactor's own well-formedness; spawning preserves it.
    spec fn ready(&self) -> bool;

    fn spawn_service(&mut self, service: T, id: u64) -> (r: Result<(), ServiceError>)
        requires
            old(self).ready(),
        ensures
            final(self).ready(),
    ;
}

impl<S: IsolatedService> IsolatedReactorTrait<S> for IsolatedReactor<S> {
    open spec fn ready(&self) -> bool {
        self.wf()
    }

    fn spawn_service(&mut self, service: S, id: u64) -> Result<(), ServiceError> {
        self.register_service(service, id)
    }
}

impl<S: IsolatedService> IsolatedReactor<S> {
    /// Ids to the lifecycle position of the unit registered there.
    pub closed spec fn service_map(&self) -> Map<u64, DriverState> {
        self.services.as_map().map_values(|e: IsolatedEntry<S>| e.driver.state())
    }

    /// Notifications emitted but not yet consumed, oldest first.
    pub closed spec fn pending_notes(&self) -> Seq<bool> {
        self.notes@
    }

    /// Every notification ever emitted by this reactor, oldest first.
    pub closed spec fn emitted_notes(&self) -> Seq<bool> {
        self.emitted@
    }

    /// Registered ids are unique and every registered driver still owes a
    /// call.
    pub closed spec fn wf(&self) -> bool {
        &&& self.services.wf()
        &&& forall|id: u64|
            #![trigger self.service_map()[id]]
            self.service_map().contains_key(id) ==> !(self.service_map()[id] is Terminated)
                && self.entry_inv(id)
    }

    spec fn entry_inv(&self, id: u64) -> bool {
        self.services.as_map().contains_key(id) && self.services.as_map()[id].driver.inv()
    }

    proof fn lemma_empty_bridge(&self)
        ensures
            (self.services.as_map() == Map::<u64, IsolatedEntry<S>>::empty()) <==> (
            self.service_map() == Map::<u64, DriverState>::empty()),
    {
        if self.services.as_map() == Map::<u64, IsolatedEntry<S>>::empty() {
            assert(self.service_map() =~= Map::<u64, DriverState>::empty());
        }
        if self.service_map() == Map::<u64, DriverState>::empty() {
            assert forall|k: u64| !#[trigger] self.services.as_map().contains_key(k) by {
                if self.services.as_map().contains_key(k) {
                    assert(self.service_map().contains_key(k));
                }
            }
            assert(self.services.as_map() =~= Map::<u64, IsolatedEntry<S>>::empty());
        }
    }

    /// A reactor with no services and no notifications.
    pub fn new() -> (r: IsolatedReactor<S>)
        ensures
            r.wf(),
            r.service_map() == Map::<u64, DriverState>::empty(),
            r.pending_notes() == Seq::<bool>::empty(),
            r.emitted_notes() == Seq::<bool>::empty(),
    {
        let r = IsolatedReactor::<S> {
            services: Registry::new(),
            notes: Vec::new(),
            emitted: Ghost(Seq::empty()),
        };
        proof {
            assert(r.service_map() =~= Map::<u64, DriverState>::empty());
        }
        r
    }

    /// Register a service under an id and schedule it from the start of its
    /// lifecycle. Registration itself cannot fail here; registering an id
    /// that is still live is a caller bug and silently replaces the old
    /// entry. The unit does not run yet: it runs when it is next stepped.
    pub fn register_service(&mut self, service: S, id: u64) -> (r: Result<(), ServiceError>)
        requires
            old(self).wf(),
        ensures
            final(self).wf(),
            r is Ok,
            final(self).service_map() == old(self).service_map().insert(
                id,
                DriverState::Initializing,
            ),
            final(self).pending_notes() == old(self).pending_notes(),
            final(self).emitted_notes() == old(self).emitted_notes(),
    {
        let driver = Driver::new();
        self.services.insert(id, IsolatedEntry { service, driver });
        proof {
            assert(self.service_map() =~= old(self).service_map().insert(
                id,
                DriverState::Initializing,
            ));
            assert forall|k: u64|
                self.service_map().contains_key(k) implies !(#[trigger] self.service_map()[k]
                is Terminated) && self.entry_inv(k) by {
                if k != id {
                    assert(old(self).service_map().contains_key(k));
                    assert(!(old(self).service_map()[k] is Terminated));
                    assert(old(self).entry_inv(k));
                }
            }
        }
        Ok(())
    }

    /// How many units are currently registered.
    pub fn service_count(&self) -> (n: usize)
        requires
            self.wf(),
        ensures
            n == self.service_map().dom().len(),
            n == 0 <==> self.service_map() == Map::<u64, DriverState>::empty(),
    {
        proof {
            assert(self.service_map().dom() =~= self.services.as_map().dom());
            if self.services.as_map() == Map::<u64, IsolatedEntry<S>>::empty() {
                assert(self.service_map() =~= Map::<u64, DriverState>::empty());
            }
            if self.service_map() == Map::<u64, DriverState>::empty() {
                assert(self.services.as_map() =~= Map::<u64, IsolatedEntry<S>>::empty());
            }
        }
        self.services.len()
    }

    /// Consume the oldest pending completion notification, if one is there.
    pub fn recv_notification(&mut self) -> (r: Option<bool>)
        requires
            old(self).wf(),
        ensures
            final(self).wf(),
            final(self).service_map() == old(self).service_map(),
            final(self).emitted_notes() == old(self).emitted_notes(),
            r is Some <==> old(self).pending_notes().len() > 0,
            r matches Some(b) ==> b == old(self).pending_notes()[0] && final(self).pending_notes()
                == old(self).pending_notes().skip(1),
            r is None ==> final(self).pending_notes() == old(self).pending_notes(),
    {
        if self.notes.len() == 0 {
            None
        } else {
            let b = self.notes.remove(0);
            proof {
                assert(self.notes@ =~= old(self).notes@.skip(1));
            }
            Some(b)
        }
    }

    /// Drain pending completion notifications in delivery order, stopping
    /// once one reports the registry empty, or once none are left. Only the
    /// notification queue moves; no service runs.
    pub fn wait_all(&mut self)
        requires
            old(self).wf(),
        ensures
            final(self).wf(),
            final(self).service_map() == old(self).service_map(),
            final(self).emitted_notes() == old(self).emitted_notes(),
            final(self).pending_notes() == crate::notify::drained_notes(
                old(self).pending_notes(),
            ),
    {
        let ghost orig = self.notes@;
        let ghost svc0 = self.services;
        let ghost em0 = self.emitted@;
        loop
            invariant_except_break
                crate::notify::drained_notes(self.notes@) == crate::notify::drained_notes(orig),
            invariant
                self.services == svc0,
                self.emitted@ == em0,
            ensures
                self.services == svc0,
                self.emitted@ == em0,
                self.notes@ == crate::notify::drained_notes(orig),
            decreases self.notes@.len(),
        {
            if self.notes.len() == 0 {
                proof {
                    assert(crate::notify::drained_notes(self.notes@) =~= self.notes@);
                }
                break ;
            }
            let ghost prev = self.notes@;
            let b = self.notes.remove(0);
            proof {
                assert(self.notes@ =~= prev.skip(1));
            }
            if b {
                break ;
            }
        }
    }

    /// Step registered units, oldest registration first, until the registry
    /// drains or the fuel runs out; completed units are detached, their
    /// values dropped. Returns whether the registry drained. Of the
    /// notifications this emits, every one before the last reports the
    /// registry still occupied; the last reports empty exactly when the run
    /// drained it.
    pub fn run_all(&mut self, fuel: u64) -> (drained: bool)
        requires
            old(self).wf(),
        ensures
            final(self).wf(),
            drained == (final(self).service_map() == Map::<u64, DriverState>::empty()),
            final(self).emitted_notes().len() >= old(self).emitted_notes().len(),
            final(self).emitted_notes().take(old(self).emitted_notes().len() as int) == old(
                self,
            ).emitted_notes(),
            ({
                let seg = final(self).emitted_notes().skip(
                    old(self).emitted_notes().len() as int,
                );
                &&& final(self).pending_notes() == old(self).pending_notes() + seg
                &&& forall|i: int| #![trigger seg[i]] 0 <= i < seg.len() - 1 ==> !seg[i]
                &&& seg.len() > 0 ==> seg.last() == drained
                &&& drained && old(self).service_map() != Map::<u64, DriverState>::empty()
                    ==> seg.len() >= 1
            }),
    {
        let ghost base = self.emitted@.len() as int;
        let ghost pend0 = self.notes@;
        let ghost em0 = self.emitted@;
        let n0 = self.service_count();
        if n0 == 0 {
            proof {
                assert(self.emitted@.skip(base) =~= Seq::<bool>::empty());
                assert(self.notes@ =~= self.notes@ + Seq::<bool>::empty());
                assert(self.emitted@.take(base) =~= self.emitted@);
            }
            return true;
        }
        let mut remaining: u64 = fuel;
        loop
            invariant_except_break
                forall|i: int|
                    #![trigger self.emitted@[i]]
                    base <= i < self.emitted@.len() ==> !self.emitted@[i],
                self.service_map() != Map::<u64, DriverState>::empty(),
            invariant
                self.wf(),
                self.emitted@.len() >= base >= 0,
                self.emitted@.take(base) == em0,
                self.notes@ == pend0 + self.emitted@.skip(base),
            ensures
                self.wf(),
                self.emitted@.len() >= base,
                self.emitted@.take(base) == em0,
                self.notes@ == pend0 + self.emitted@.skip(base),
                forall|i: int|
                    #![trigger self.emitted@[i]]
                    base <= i < self.emitted@.len() - 1 ==> !self.emitted@[i],
                self.emitted@.len() > base ==> self.emitted@.last() == (self.service_map()
                    == Map::<u64, DriverState>::empty()),
                self.service_map() == Map::<u64, DriverState>::empty() ==> self.emitted@.len()
                    > base,
            decreases remaining,
        {
            if remaining == 0 {
                break ;
            }
            let id = match self.services.first_id() {
                Some(id) => id,
                None => {
                    proof {
                        self.lemma_empty_bridge();
                    }
                    unreached()
                },
            };
            let ghost prev_map = self.service_map();
            let ghost prev_emitted = self.emitted@;
            let step = self.step_service(id);
            proof {
                if self.emitted@.len() > prev_emitted.len() {
                    let b = self.emitted@.last();
                    assert(self.emitted@ =~= prev_emitted.push(b));
                    assert(self.emitted@.take(base) =~= prev_emitted.take(base));
                    assert(self.emitted@.skip(base) =~= prev_emitted.skip(base).push(b));
                    assert(self.notes@ =~= (pend0 + prev_emitted.skip(base)).push(b));
                    assert((pend0 + prev_emitted.skip(base)).push(b) =~= pend0 + self.emitted@.skip(
                        base,
                    ));
                }
            }
            match step {
                IsolatedStep::NotFound => {
                    proof {
                        assert(false);
                    }
                },
                IsolatedStep::Progressed => {
                    proof {
                        let o = choose|o: Result<(), ServiceError>|
                            !(#[trigger] step_state(prev_map[id], o) is Terminated)
                                && self.service_map() == prev_map.insert(
                                id,
                                step_state(prev_map[id], o),
                            );
                        assert(self.service_map().contains_key(id));
                    }
                },
                IsolatedStep::Completed(_, _) => {
                    let n = self.service_count();
                    if n == 0 {
                        break ;
                    }
                },
            }
            remaining = remaining - 1;
        }
        let n = self.service_count();
        let drained = n == 0;
        proof {
            let seg = self.emitted@.skip(base);
            assert forall|i: int| 0 <= i < seg.len() - 1 implies !#[trigger] seg[i] by {
                assert(seg[i] == self.emitted@[base + i]);
            }
            if seg.len() > 0 {
                assert(seg.last() == self.emitted@.last());
            }
        }
        drained
    }

    /// Drive the unit registered under `id` through one lifecycle call. If
    /// that call terminates the unit, the entry is removed and one
    /// notification is emitted, carrying whether the registry was left empty
    /// by that removal, as one step.
    pub fn step_service(&mut self, id: u64) -> (r: IsolatedStep<S>)
        requires
            old(self).wf(),
        ensures
            final(self).wf(),
            match r {
                IsolatedStep::NotFound => {
                    &&& !old(self).service_map().contains_key(id)
                    &&& final(self).service_map() == old(self).service_map()
                    &&& final(self).pending_notes() == old(self).pending_notes()
                    &&& final(self).emitted_notes() == old(self).emitted_notes()
                },
                IsolatedStep::Progressed => {
                    &&& old(self).service_map().contains_key(id)
                    &&& exists|o: Result<(), ServiceError>|
                        !(#[trigger] step_state(old(self).service_map()[id], o) is Terminated)
                            && final(self).service_map() == old(self).service_map().insert(
                            id,
                            step_state(old(self).service_map()[id], o),
                        )
                    &&& final(self).pending_notes() == old(self).pending_notes()
                    &&& final(self).emitted_notes() == old(self).emitted_notes()
                },
                IsolatedStep::Completed(_, rep) => {
                    &&& old(self).service_map().contains_key(id)
                    &&& exists|o: Result<(), ServiceError>|
                        #[trigger] step_state(old(self).service_map()[id], o)
                            == DriverState::Terminated(rep)
                    &&& final(self).service_map() == old(self).service_map().remove(id)
                    &&& final(self).pending_notes() == old(self).pending_notes().push(
                        final(self).service_map() == Map::<u64, DriverState>::empty(),
                    )
                    &&& final(self).emitted_notes() == old(self).emitted_notes().push(
                        final(self).service_map() == Map::<u64, DriverState>::empty(),
                    )
                },
            },
    {
        let entry_opt = self.services.remove(id);
        match entry_opt {
            None => {
                proof {
                    assert(!old(self).services.as_map().contains_key(id));
                    assert(!old(self).service_map().contains_key(id));
                    assert(self.services.as_map() =~= old(self).services.as_map());
                    assert(self.service_map() =~= old(self).service_map());
                    assert forall|k: u64|
                        self.service_map().contains_key(k) implies !(
                    #[trigger] self.service_map()[k] is Terminated) && self.entry_inv(k) by {
                        assert(old(self).service_map().contains_key(k));
                        assert(!(old(self).service_map()[k] is Terminated));
                        assert(old(self).entry_inv(k));
                    }
                }
                IsolatedStep::NotFound
            },
            Some(entry) => {
                let IsolatedEntry { mut service, mut driver } = entry;
                let ghost pre = driver.state();
                proof {
                    assert(old(self).service_map()[id] == pre);
                }
                perform_isolated_call(&mut service, &mut driver);
                if driver.is_terminated() {
                    let ghost dstate = driver.state();
                    let rep = driver.into_report();
                    let n = self.services.len();
                    let now_empty = n == 0;
                    self.notes.push(now_empty);
                    proof {
                        self.emitted@ = self.emitted@.push(now_empty);
                        assert(self.service_map() =~= old(self).service_map().remove(id));
                        if self.services.as_map() == Map::<u64, IsolatedEntry<S>>::empty() {
                            assert(self.service_map() =~= Map::<u64, DriverState>::empty());
                        }
                        if self.service_map() == Map::<u64, DriverState>::empty() {
                            assert(self.services.as_map() =~= Map::<u64, IsolatedEntry<S>>::empty());
                        }
                        assert(now_empty == (self.service_map() == Map::<u64, DriverState>::empty()));
                        let o = choose|o: Result<(), ServiceError>|
                            dstate == #[trigger] step_state(pre, o);
                        assert(step_state(old(self).service_map()[id], o)
                            == DriverState::Terminated(rep));
                        assert forall|k: u64|
                            self.service_map().contains_key(k) implies !(
                        #[trigger] self.service_map()[k] is Terminated) && self.entry_inv(k) by {
                            assert(old(self).service_map().contains_key(k));
                            assert(!(old(self).service_map()[k] is Terminated));
                            assert(old(self).entry_inv(k));
                        }
                    }
                    IsolatedStep::Completed(service, rep)
                } else {
                    self.services.insert(id, IsolatedEntry { service, driver });
                    proof {
                        let post = driver.state();
                        assert(self.service_map() =~= old(self).service_map().insert(id, post));
                        let o = choose|o: Result<(), ServiceError>|
                            driver.state() == #[trigger] step_state(pre, o);
                        assert(!(step_state(old(self).service_map()[id], o) is Terminated)
                            && self.service_map() == old(self).service_map().insert(
                            id,
                            step_state(old(self).service_map()[id], o),
                        ));
                        assert forall|k: u64|
                            self.service_map().contains_key(k) implies !(
                        #[trigger] self.service_map()[k] is Terminated) && self.entry_inv(k) by {
                            if k != id {
                                assert(old(self).service_map().contains_key(k));
                                assert(!(old(self).service_map()[k] is Terminated));
                                assert(old(self).entry_inv(k));
                            }
                        }
                    }
                    IsolatedStep::Progressed
                }
            },
        }
    }
}

} // verus!

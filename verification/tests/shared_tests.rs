use std::cell::Cell;

use capitan::errors::{FailureKind, ServiceError};
use capitan::shared::{
    DynamicSharedService, SharedReactor, SharedReactorTrait, SharedService, SharedStep,
};

fn err(code: u64) -> ServiceError {
    ServiceError::new(code, String::new())
}

/// Works through shared access, counting its steps internally, and fails
/// for good once it has done its quota of work.
struct MeteredService {
    quota: u32,
    main_seen: Cell<u32>,
}

impl MeteredService {
    fn new(quota: u32) -> MeteredService {
        MeteredService { quota, main_seen: Cell::new(0) }
    }
}

impl SharedService for MeteredService {
    fn init(&self) -> Result<(), ServiceError> {
        Ok(())
    }

    fn main(&self) -> Result<(), ServiceError> {
        let n = self.main_seen.get() + 1;
        self.main_seen.set(n);
        if n > self.quota {
            Err(err(40))
        } else {
            Ok(())
        }
    }

    fn repeat(&self) -> Result<(), ServiceError> {
        Ok(())
    }

    fn catch(&self, _error: &ServiceError) -> Result<(), ServiceError> {
        Err(err(41))
    }

    fn abort(&self) -> Result<(), ServiceError> {
        Ok(())
    }
}

fn run_shared_to_completion<S: SharedService>(
    reactor: &mut SharedReactor<S>,
    id: u64,
) -> capitan::errors::FinalReport {
    loop {
        match reactor.step_service(id) {
            SharedStep::Completed(report) => return report,
            SharedStep::Progressed => {},
            SharedStep::NotFound => panic!("service {} is not registered", id),
        }
    }
}

#[test]
fn observers_resolve_while_registered_and_fail_after_removal() {
    let mut reactor: SharedReactor<MeteredService> = SharedReactor::new();
    reactor.spawn_service(MeteredService::new(1), 1).unwrap();
    reactor.spawn_service(MeteredService::new(50), 2).unwrap();

    let observer = reactor.get_service(1).expect("id 1 is registered");
    {
        let strong = observer.upgrade().expect("a live service upgrades");
        assert_eq!(strong.main_seen.get(), 0);
    }

    let report = run_shared_to_completion(&mut reactor, 1);
    assert_eq!(report.kind, FailureKind::RecoveryFailure);
    assert_eq!(report.error.code, 40);

    assert!(reactor.get_service(1).is_none(), "a removed id no longer resolves");
    assert!(reactor.get_service(2).is_some(), "the sibling is untouched");
    assert!(observer.upgrade().is_none(), "an old observer cannot revive the value");
    let other = reactor.get_service(2).unwrap();
    assert!(other.upgrade().is_some());

    assert_eq!(reactor.recv_notification(), Some(false), "one unit still registered");
}

#[test]
fn observer_reads_concurrent_state_without_owning_it() {
    let mut reactor: SharedReactor<MeteredService> = SharedReactor::new();
    reactor.spawn_service(MeteredService::new(50), 7).unwrap();
    let observer = reactor.get_service(7).unwrap();

    // init
    match reactor.step_service(7) {
        SharedStep::Progressed => {},
        _ => panic!("init should only progress the unit"),
    }
    // two main steps with their repeats
    for _ in 0..4 {
        match reactor.step_service(7) {
            SharedStep::Progressed => {},
            _ => panic!("the unit is still inside its quota"),
        }
    }
    let strong = observer.upgrade().expect("still registered");
    assert_eq!(strong.main_seen.get(), 2, "the observer sees work done so far");
}

#[test]
fn shared_reactor_drains_and_notifies_like_the_isolated_one() {
    let mut reactor: SharedReactor<MeteredService> = SharedReactor::new();
    reactor.spawn_service(MeteredService::new(0), 1).unwrap();
    reactor.spawn_service(MeteredService::new(1), 2).unwrap();
    assert!(reactor.run_all(1000));
    assert_eq!(reactor.service_count(), 0);
    let mut notes: Vec<bool> = Vec::new();
    while let Some(b) = reactor.recv_notification() {
        notes.push(b);
    }
    assert_eq!(notes, vec![false, true]);
    assert!(reactor.get_service(1).is_none());
    assert!(reactor.get_service(2).is_none());
}

#[test]
fn dynamic_shared_wrapper_forwards_faithfully() {
    let mut reactor: SharedReactor<DynamicSharedService> = SharedReactor::new();
    let inner = MeteredService::new(1);
    reactor.spawn_service(DynamicSharedService::from_service(inner), 3).unwrap();
    let report = run_shared_to_completion(&mut reactor, 3);
    assert_eq!(report.kind, FailureKind::RecoveryFailure);
    assert_eq!(report.error.code, 40);
    assert_eq!(reactor.recv_notification(), Some(true));
}

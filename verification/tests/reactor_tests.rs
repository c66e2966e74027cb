use std::cell::RefCell;
use std::rc::Rc;

use capitan::errors::{FailureKind, ServiceError};
use capitan::isolated::{
    DynamicIsolatedService, IsolatedReactor, IsolatedReactorTrait, IsolatedService, IsolatedStep,
};

fn err(code: u64) -> ServiceError {
    ServiceError::new(code, String::new())
}

/// `main` always fails; `catch` always fails; `init` may be told to fail.
struct FailingService {
    init_ok: bool,
    init_calls: u32,
    main_calls: u32,
    catch_calls: u32,
    abort_calls: u32,
}

impl FailingService {
    fn new(init_ok: bool) -> FailingService {
        FailingService { init_ok, init_calls: 0, main_calls: 0, catch_calls: 0, abort_calls: 0 }
    }
}

impl IsolatedService for FailingService {
    fn init(&mut self) -> Result<(), ServiceError> {
        self.init_calls += 1;
        if self.init_ok {
            Ok(())
        } else {
            Err(err(100))
        }
    }

    fn main(&mut self) -> Result<(), ServiceError> {
        self.main_calls += 1;
        Err(err(1))
    }

    fn repeat(&mut self) -> Result<(), ServiceError> {
        Ok(())
    }

    fn catch(&mut self, _error: &ServiceError) -> Result<(), ServiceError> {
        self.catch_calls += 1;
        Err(err(2))
    }

    fn abort(&mut self) -> Result<(), ServiceError> {
        self.abort_calls += 1;
        Ok(())
    }
}

fn run_to_completion<S: IsolatedService>(
    reactor: &mut IsolatedReactor<S>,
    id: u64,
) -> (S, capitan::errors::FinalReport) {
    loop {
        match reactor.step_service(id) {
            IsolatedStep::Completed(service, report) => return (service, report),
            IsolatedStep::Progressed => {},
            IsolatedStep::NotFound => panic!("service {} is not registered", id),
        }
    }
}

#[test]
fn unrecoverable_service_runs_catch_and_abort_once() {
    let mut reactor: IsolatedReactor<FailingService> = IsolatedReactor::new();
    reactor.spawn_service(FailingService::new(true), 1).unwrap();
    assert_eq!(reactor.service_count(), 1);
    let (service, report) = run_to_completion(&mut reactor, 1);
    assert_eq!(service.init_calls, 1);
    assert_eq!(service.main_calls, 1);
    assert_eq!(service.catch_calls, 1);
    assert_eq!(service.abort_calls, 1);
    assert_eq!(report.kind, FailureKind::RecoveryFailure);
    assert_eq!(report.error.code, 1);
    assert_eq!(reactor.service_count(), 0);
    assert_eq!(reactor.recv_notification(), Some(true));
    assert_eq!(reactor.recv_notification(), None);
}

#[test]
fn notifications_hold_exactly_one_true_and_it_is_last() {
    let mut reactor: IsolatedReactor<FailingService> = IsolatedReactor::new();
    reactor.spawn_service(FailingService::new(true), 1).unwrap();
    reactor.spawn_service(FailingService::new(true), 2).unwrap();
    reactor.spawn_service(FailingService::new(true), 3).unwrap();
    let drained = reactor.run_all(1000);
    assert!(drained);
    assert_eq!(reactor.service_count(), 0);
    let mut notes: Vec<bool> = Vec::new();
    while let Some(b) = reactor.recv_notification() {
        notes.push(b);
    }
    assert_eq!(notes, vec![false, false, true]);
}

#[test]
fn wait_all_consumes_up_to_the_drain_signal() {
    let mut reactor: IsolatedReactor<FailingService> = IsolatedReactor::new();
    reactor.spawn_service(FailingService::new(true), 1).unwrap();
    reactor.spawn_service(FailingService::new(true), 2).unwrap();
    assert!(reactor.run_all(1000));
    reactor.wait_all();
    assert_eq!(reactor.recv_notification(), None);
}

#[test]
fn failed_init_still_gets_exactly_one_abort() {
    let mut reactor: IsolatedReactor<FailingService> = IsolatedReactor::new();
    reactor.spawn_service(FailingService::new(false), 1).unwrap();
    let (service, report) = run_to_completion(&mut reactor, 1);
    assert_eq!(service.init_calls, 1);
    assert_eq!(service.main_calls, 0, "a unit whose init failed never enters the run loop");
    assert_eq!(service.abort_calls, 1);
    assert_eq!(report.kind, FailureKind::InitFailure);
    assert_eq!(report.error.code, 100);
    assert_eq!(reactor.recv_notification(), Some(true));
}

/// Fails its first `main`, recovers, works a while, then fails for good.
struct RecoveringService {
    main_calls: u32,
    catch_calls: u32,
    abort_calls: u32,
}

impl IsolatedService for RecoveringService {
    fn init(&mut self) -> Result<(), ServiceError> {
        Ok(())
    }

    fn main(&mut self) -> Result<(), ServiceError> {
        self.main_calls += 1;
        if self.main_calls == 1 {
            Err(err(10))
        } else if self.main_calls < 5 {
            Ok(())
        } else {
            Err(err(11))
        }
    }

    fn repeat(&mut self) -> Result<(), ServiceError> {
        Ok(())
    }

    fn catch(&mut self, _error: &ServiceError) -> Result<(), ServiceError> {
        self.catch_calls += 1;
        if self.catch_calls == 1 {
            Ok(())
        } else {
            Err(err(12))
        }
    }

    fn abort(&mut self) -> Result<(), ServiceError> {
        self.abort_calls += 1;
        Ok(())
    }
}

#[test]
fn recovered_service_runs_main_again_and_ends_only_on_unrecovered_failure() {
    let mut reactor: IsolatedReactor<RecoveringService> = IsolatedReactor::new();
    reactor.spawn_service(
        RecoveringService { main_calls: 0, catch_calls: 0, abort_calls: 0 },
        1,
    ).unwrap();
    let (service, report) = run_to_completion(&mut reactor, 1);
    assert!(service.main_calls >= 2, "main runs again after a recovered failure");
    assert_eq!(service.main_calls, 5);
    assert_eq!(service.catch_calls, 2);
    assert_eq!(service.abort_calls, 1);
    assert_eq!(report.kind, FailureKind::RecoveryFailure);
    assert_eq!(report.error.code, 11, "the report carries the step error recovery could not clear");
}

/// Writes every lifecycle call into a shared log, then fails for good on
/// its second `main`.
struct TraceService {
    log: Rc<RefCell<Vec<&'static str>>>,
    main_calls: u32,
}

impl IsolatedService for TraceService {
    fn init(&mut self) -> Result<(), ServiceError> {
        self.log.borrow_mut().push("init");
        Ok(())
    }

    fn main(&mut self) -> Result<(), ServiceError> {
        self.log.borrow_mut().push("main");
        self.main_calls += 1;
        if self.main_calls == 1 {
            Err(err(21))
        } else {
            Err(err(22))
        }
    }

    fn repeat(&mut self) -> Result<(), ServiceError> {
        self.log.borrow_mut().push("repeat");
        Ok(())
    }

    fn catch(&mut self, error: &ServiceError) -> Result<(), ServiceError> {
        self.log.borrow_mut().push("catch");
        if error.code == 21 {
            Ok(())
        } else {
            Err(err(23))
        }
    }

    fn abort(&mut self) -> Result<(), ServiceError> {
        self.log.borrow_mut().push("abort");
        Ok(())
    }
}

#[test]
fn dynamic_wrapper_is_transparent() {
    // The same service driven bare and behind the type-erased adapter goes
    // through identical lifecycle calls to an identical final report.
    let bare_log: Rc<RefCell<Vec<&'static str>>> = Rc::new(RefCell::new(Vec::new()));
    let mut bare_reactor: IsolatedReactor<TraceService> = IsolatedReactor::new();
    bare_reactor.spawn_service(TraceService { log: Rc::clone(&bare_log), main_calls: 0 }, 1)
        .unwrap();
    let (_, bare_report) = run_to_completion(&mut bare_reactor, 1);

    let wrapped_log: Rc<RefCell<Vec<&'static str>>> = Rc::new(RefCell::new(Vec::new()));
    let mut wrapped_reactor: IsolatedReactor<DynamicIsolatedService> = IsolatedReactor::new();
    let inner = TraceService { log: Rc::clone(&wrapped_log), main_calls: 0 };
    wrapped_reactor.spawn_service(DynamicIsolatedService::from_service(inner), 1).unwrap();
    let (_, wrapped_report) = run_to_completion(&mut wrapped_reactor, 1);

    assert_eq!(*bare_log.borrow(), *wrapped_log.borrow());
    assert_eq!(
        *bare_log.borrow(),
        vec!["init", "main", "catch", "main", "catch", "abort"],
    );
    assert_eq!(bare_report, wrapped_report);
    assert_eq!(bare_report.kind, FailureKind::RecoveryFailure);
    assert_eq!(bare_report.error.code, 22);
}

#[test]
fn respawning_a_live_id_overwrites_the_entry() {
    let mut reactor: IsolatedReactor<RecoveringService> = IsolatedReactor::new();
    reactor.spawn_service(
        RecoveringService { main_calls: 0, catch_calls: 0, abort_calls: 0 },
        1,
    ).unwrap();
    // Stepping once puts the first unit past init.
    match reactor.step_service(1) {
        IsolatedStep::Progressed => {},
        _ => panic!("init should only progress the unit"),
    }
    // Registering the same id again is a caller bug the registry answers by
    // silent replacement: still one unit, and it is the fresh one.
    reactor.spawn_service(
        RecoveringService { main_calls: 0, catch_calls: 0, abort_calls: 0 },
        1,
    ).unwrap();
    assert_eq!(reactor.service_count(), 1);
    let (service, _) = run_to_completion(&mut reactor, 1);
    assert_eq!(service.main_calls, 5, "the replacement ran its own full lifecycle");
}

#[test]
fn an_id_can_be_taken_again_after_removal() {
    let mut reactor: IsolatedReactor<FailingService> = IsolatedReactor::new();
    reactor.spawn_service(FailingService::new(true), 1).unwrap();
    let (_, first) = run_to_completion(&mut reactor, 1);
    assert_eq!(first.kind, FailureKind::RecoveryFailure);
    assert_eq!(reactor.service_count(), 0);
    reactor.spawn_service(FailingService::new(true), 1).unwrap();
    assert_eq!(reactor.service_count(), 1);
    let (service, _) = run_to_completion(&mut reactor, 1);
    assert_eq!(service.main_calls, 1);
}

#[test]
fn an_empty_reactor_is_already_drained() {
    let mut reactor: IsolatedReactor<FailingService> = IsolatedReactor::new();
    assert!(reactor.run_all(10));
    assert_eq!(reactor.service_count(), 0);
    assert_eq!(reactor.recv_notification(), None);
    reactor.wait_all();
    assert_eq!(reactor.recv_notification(), None);
}

#[test]
fn run_all_without_fuel_leaves_services_registered() {
    let mut reactor: IsolatedReactor<FailingService> = IsolatedReactor::new();
    reactor.spawn_service(FailingService::new(true), 1).unwrap();
    assert!(!reactor.run_all(0));
    assert_eq!(reactor.service_count(), 1);
    assert_eq!(reactor.recv_notification(), None);
}

#[test]
fn stepping_an_unknown_id_reports_not_found() {
    let mut reactor: IsolatedReactor<FailingService> = IsolatedReactor::new();
    match reactor.step_service(9) {
        IsolatedStep::NotFound => {},
        _ => panic!("nothing is registered under id 9"),
    }
}

use capitan::errors::{FailureKind, ServiceError};
use capitan::lifecycle::{Driver, LifecycleCall};

fn err(code: u64) -> ServiceError {
    ServiceError::new(code, String::new())
}

#[test]
fn fresh_driver_owes_init() {
    let d = Driver::new();
    assert_eq!(d.next_call(), Some(LifecycleCall::Init));
    assert!(!d.is_terminated());
}

#[test]
fn init_failure_runs_abort_then_reports_init_error() {
    let d = capitan::lifecycle::replay(vec![Err(err(7)), Ok(())]);
    assert!(d.is_terminated());
    let report = d.into_report();
    assert_eq!(report.kind, FailureKind::InitFailure);
    assert_eq!(report.error.code, 7);
}

#[test]
fn abort_failure_supersedes_the_loop_error() {
    let d = capitan::lifecycle::replay(vec![Err(err(7)), Err(err(9))]);
    assert!(d.is_terminated());
    let report = d.into_report();
    assert_eq!(report.kind, FailureKind::AbortFailure);
    assert_eq!(report.error.code, 9);
}

#[test]
fn successful_main_is_followed_by_repeat() {
    let d = capitan::lifecycle::replay(vec![Ok(()), Ok(())]);
    assert!(!d.is_terminated());
    assert_eq!(d.next_call(), Some(LifecycleCall::Repeat));
}

#[test]
fn recovered_failure_resumes_at_main() {
    // init ok, main fails, catch succeeds: the loop is back before main.
    let d = capitan::lifecycle::replay(vec![Ok(()), Err(err(3)), Ok(())]);
    assert!(!d.is_terminated());
    assert_eq!(d.next_call(), Some(LifecycleCall::Main));
}

#[test]
fn failed_repeat_is_routed_through_catch() {
    // init ok, main ok, repeat fails: catch is owed next.
    let d = capitan::lifecycle::replay(vec![Ok(()), Ok(()), Err(err(4))]);
    assert!(!d.is_terminated());
    assert_eq!(d.next_call(), Some(LifecycleCall::Catch));
}

#[test]
fn unrecovered_failure_reports_the_step_error() {
    // init ok, main fails with 3, catch fails with 5, abort ok:
    // the reported error is the step error the recovery could not clear.
    let d = capitan::lifecycle::replay(vec![Ok(()), Err(err(3)), Err(err(5)), Ok(())]);
    assert!(d.is_terminated());
    let report = d.into_report();
    assert_eq!(report.kind, FailureKind::RecoveryFailure);
    assert_eq!(report.error.code, 3);
}

#[test]
fn driver_advance_walks_the_machine() {
    let mut d = Driver::new();
    d.advance(Ok(()));
    assert_eq!(d.next_call(), Some(LifecycleCall::Main));
    d.advance(Err(err(1)));
    assert_eq!(d.next_call(), Some(LifecycleCall::Catch));
    assert_eq!(d.error_to_catch().map(|e| e.code), Some(1));
    d.advance(Err(err(2)));
    assert_eq!(d.next_call(), Some(LifecycleCall::Abort));
    d.advance(Ok(()));
    assert_eq!(d.next_call(), None);
    assert!(d.is_terminated());
}

#[test]
fn wrapper_transparency_at_the_driver() {
    // The same outcome script always drives a unit to the same place:
    // whatever forwards calls unchanged cannot change the run.
    let script = || vec![Ok(()), Err(err(3)), Ok(()), Ok(()), Err(err(4)), Err(err(5)), Ok(())];
    let a = capitan::lifecycle::replay(script());
    let b = capitan::lifecycle::replay(script());
    assert_eq!(a.is_terminated(), b.is_terminated());
    let (ra, rb) = (a.into_report(), b.into_report());
    assert_eq!(ra, rb);
    assert_eq!(ra.kind, FailureKind::RecoveryFailure);
    assert_eq!(ra.error.code, 4);
}

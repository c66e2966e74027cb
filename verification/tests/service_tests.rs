use capitan::capitan::StdReactor;
use capitan::encryption::Encrypt;
use capitan::errors::{FailureKind, ServiceError};
use capitan::events::{Event, Respond};
use capitan::reactor::Reactor as ReactorInit;
use capitan::service::{DynamicService, Reactor, Service, ServiceStep};

fn err(code: u64) -> ServiceError {
    ServiceError::new(code, String::new())
}

struct OneShot {
    main_calls: u32,
    abort_calls: u32,
}

impl Service for OneShot {
    fn init(&mut self) -> Result<(), ServiceError> {
        Ok(())
    }

    fn main(&mut self) -> Result<(), ServiceError> {
        self.main_calls += 1;
        Err(err(30))
    }

    fn repeat(&mut self) -> Result<(), ServiceError> {
        Ok(())
    }

    fn catch(&mut self, _error: &ServiceError) -> Result<(), ServiceError> {
        Err(err(31))
    }

    fn abort(&mut self) -> Result<(), ServiceError> {
        self.abort_calls += 1;
        Ok(())
    }
}

#[test]
fn plain_reactor_supervises_to_completion() {
    let mut reactor: Reactor<OneShot> = Reactor::new();
    reactor.spawn_service(5, OneShot { main_calls: 0, abort_calls: 0 }).unwrap();
    assert_eq!(reactor.service_count(), 1);
    let (service, report) = loop {
        match reactor.step_service(5) {
            ServiceStep::Completed(service, report) => break (service, report),
            ServiceStep::Progressed => {},
            ServiceStep::NotFound => panic!("service 5 is not registered"),
        }
    };
    assert_eq!(service.main_calls, 1);
    assert_eq!(service.abort_calls, 1);
    assert_eq!(report.kind, FailureKind::RecoveryFailure);
    assert_eq!(report.error.code, 30);
    assert_eq!(reactor.service_count(), 0);
}

#[test]
fn plain_reactor_erases_types_too() {
    let mut reactor: Reactor<DynamicService> = Reactor::new();
    let inner = OneShot { main_calls: 0, abort_calls: 0 };
    reactor.spawn_service(1, DynamicService::from_service(inner)).unwrap();
    let report = loop {
        match reactor.step_service(1) {
            ServiceStep::Completed(_, report) => break report,
            ServiceStep::Progressed => {},
            ServiceStep::NotFound => panic!("service 1 is not registered"),
        }
    };
    assert_eq!(report.kind, FailureKind::RecoveryFailure);
    assert_eq!(report.error.code, 30);
}

#[test]
fn std_reactor_keeps_what_it_was_built_from() {
    let reactor: StdReactor<u32, &'static str> = StdReactor::init(7, vec!["a", "b"]);
    assert_eq!(reactor.metadata, 7);
    assert_eq!(reactor.services, vec!["a", "b"]);
}

struct Ping {
    value: u64,
}

impl Respond for Ping {
    type SteerMetadata = u64;

    type Output = u64;

    fn respond(self, metadata: &u64) -> u64 {
        self.value + *metadata
    }
}

impl Encrypt for Ping {
}

impl Event for Ping {
    type SteerMeta = u64;

    fn new(input: &u64) -> Ping {
        Ping { value: *input }
    }
}

#[test]
fn events_build_and_respond() {
    let ping = Ping::new(&4);
    assert_eq!(ping.value, 4);
    assert_eq!(ping.respond(&10), 14);
}

#[test]
fn events_carry_their_payload_through_the_cipher() {
    let bytes = vec![4u8, 0, 0, 0];
    let sealed = Ping::encrypt(bytes.clone(), b"k").unwrap();
    let opened = Ping::decrypt(sealed, b"k").unwrap();
    assert_eq!(opened, bytes);
}

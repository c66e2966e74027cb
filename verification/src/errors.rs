use vstd::prelude::*;

verus! {

/// The error value a lifecycle operation reports: a numeric code chosen by the
/// service author and a human-readable message.
#[derive(Debug, Clone, PartialEq, Eq)]
pub struct ServiceError {
    pub code: u64,
    pub message: String,
}

impl ServiceError {
    pub fn new(code: u64, message: String) -> (r: ServiceError)
        ensures
            r.code == code,
            r.message == message,
    {
        ServiceError { code, message }
    }
}

/// How a supervised unit's run came apart.
///
/// `StepFailure` is the transient kind: an error from `main` or `repeat` is
/// always routed through `catch` before it can become terminal. The other
/// three kinds classify a unit's final report.
#[derive(Debug, Clone, Copy, PartialEq, Eq, Structural)]
pub enum FailureKind {
    InitFailure,
    StepFailure,
    RecoveryFailure,
    AbortFailure,
}

/// The final word on a terminated unit: which kind of failure ended it and
/// the error value reported for it.
#[derive(Debug, Clone, PartialEq, Eq)]
pub struct FinalReport {
    pub kind: FailureKind,
    pub error: ServiceError,
}

} // verus!

use vstd::prelude::*;

use crate::errors::{FailureKind, FinalReport, ServiceError};

verus! {

/// The five operations of the lifecycle contract, named in the order a
/// reactor first reaches them.
#[derive(Debug, Clone, Copy, PartialEq, Eq, Structural)]
pub enum LifecycleCall {
    Init,
    Main,
    Repeat,
    Catch,
    Abort,
}

/// Why a unit is on its way out: its `init` failed, or a step failure could
/// not be recovered by `catch`. Either way the cause keeps the error that the
/// run loop ended with.
#[derive(Debug, PartialEq, Eq)]
pub enum TerminationCause {
    InitFailed(ServiceError),
    RecoveryFailed(ServiceError),
}

/// Where a supervised unit stands inside the run-loop algorithm.
///
/// `Initializing` awaits the one `init` call; `RunningMain` and
/// `RunningRepeat` are the two positions of the run loop; `Recovering` holds
/// the step error about to be handed to `catch`; `Terminating` awaits the one
/// `abort` call; `Terminated` carries the final report.
#[derive(Debug, PartialEq, Eq)]
pub enum DriverState {
    Initializing,
    RunningMain,
    RunningRepeat,
    Recovering(ServiceError),
    Terminating(TerminationCause),
    Terminated(FinalReport),
}

/// The lifecycle operation owed next in a given state, or `None` once the
/// unit has terminated.
pub open spec fn next_call_of(s: DriverState) -> Option<LifecycleCall> {
    match s {
        DriverState::Initializing => Some(LifecycleCall::Init),
        DriverState::RunningMain => Some(LifecycleCall::Main),
        DriverState::RunningRepeat => Some(LifecycleCall::Repeat),
        DriverState::Recovering(_) => Some(LifecycleCall::Catch),
        DriverState::Terminating(_) => Some(LifecycleCall::Abort),
        DriverState::Terminated(_) => None,
    }
}

/// The final report owed when `abort` itself succeeds: the error the run loop
/// ended with, classified by where it arose.
pub open spec fn report_of(c: TerminationCause) -> FinalReport {
    match c {
        TerminationCause::InitFailed(e) => FinalReport { kind: FailureKind::InitFailure, error: e },
        TerminationCause::RecoveryFailed(e) => FinalReport {
            kind: FailureKind::RecoveryFailure,
            error: e,
        },
    }
}

/// One transition of the run-loop state machine, given the outcome of the
/// lifecycle call that the old state owed.
///
/// A successful `main` is followed by `repeat`; a failure of either is handed
/// to `catch`; a successful `catch` resumes the loop at `main`, a failed one
/// ends the loop with the step error it was trying to recover; `abort` runs
/// exactly once on every path out, and its own failure supersedes the error
/// that ended the loop.
pub open spec fn step_state(s: DriverState, outcome: Result<(), ServiceError>) -> DriverState
    recommends
        !(s is Terminated),
{
    match s {
        DriverState::Initializing => match outcome {
            Ok(_) => DriverState::RunningMain,
            Err(e) => DriverState::Terminating(TerminationCause::InitFailed(e)),
        },
        DriverState::RunningMain => match outcome {
            Ok(_) => DriverState::RunningRepeat,
            Err(e) => DriverState::Recovering(e),
        },
        DriverState::RunningRepeat => match outcome {
            Ok(_) => DriverState::RunningMain,
            Err(e) => DriverState::Recovering(e),
        },
        DriverState::Recovering(step_error) => match outcome {
            Ok(_) => DriverState::RunningMain,
            Err(_) => DriverState::Terminating(TerminationCause::RecoveryFailed(step_error)),
        },
        DriverState::Terminating(cause) => match outcome {
            Ok(_) => DriverState::Terminated(report_of(cause)),
            Err(e) => DriverState::Terminated(
                FinalReport { kind: FailureKind::AbortFailure, error: e },
            ),
        },
        DriverState::Terminated(r) => DriverState::Terminated(r),
    }
}

/// How many times one lifecycle operation occurs in a call log.
pub open spec fn count_calls(s: Seq<LifecycleCall>, c: LifecycleCall) -> int
    decreases s.len(),
{
    if s.len() == 0 {
        0
    } else {
        count_calls(s.drop_last(), c) + if s.last() == c {
            1int
        } else {
            0int
        }
    }
}

/// Drives one supervised unit through the run-loop algorithm: it names the
/// lifecycle call owed next, and `advance` moves it by the outcome of that
/// call. The ghost call log records every lifecycle call the unit has been
/// driven through.
pub struct Driver {
    state: DriverState,
    calls: Ghost<Seq<LifecycleCall>>,
}

impl Driver {
    /// The driver's position in the run-loop state machine.
    pub closed spec fn state(&self) -> DriverState {
        self.state
    }

    /// The log of lifecycle calls made so far, oldest first.
    pub closed spec fn calls(&self) -> Seq<LifecycleCall> {
        self.calls@
    }

    /// A driver's call log stays in lock-step with its state: `abort` is in
    /// the log exactly once when the unit has terminated, never before, and a
    /// terminated log ends with it; nothing precedes `init`.
    pub open spec fn inv(&self) -> bool {
        &&& count_calls(self.calls(), LifecycleCall::Abort) == if self.state() is Terminated {
            1int
        } else {
            0int
        }
        &&& self.state() is Terminated ==> self.calls().len() > 0 && self.calls().last()
            == LifecycleCall::Abort
        &&& self.state() is Initializing ==> self.calls().len() == 0
    }

    /// A fresh driver: the unit was just registered and owes its one `init`.
    pub fn new() -> (d: Driver)
        ensures
            d.state() == DriverState::Initializing,
            d.calls() == Seq::<LifecycleCall>::empty(),
            d.inv(),
    {
        Driver { state: DriverState::Initializing, calls: Ghost(Seq::empty()) }
    }

    /// Which lifecycle call the owning reactor must make next, or `None` once
    /// the unit has terminated.
    pub fn next_call(&self) -> (c: Option<LifecycleCall>)
        ensures
            c == next_call_of(self.state()),
    {
        match &self.state {
            DriverState::Initializing => Some(LifecycleCall::Init),
            DriverState::RunningMain => Some(LifecycleCall::Main),
            DriverState::RunningRepeat => Some(LifecycleCall::Repeat),
            DriverState::Recovering(_) => Some(LifecycleCall::Catch),
            DriverState::Terminating(_) => Some(LifecycleCall::Abort),
            DriverState::Terminated(_) => None,
        }
    }

    /// The step error owed to `catch`, present exactly while recovering.
    pub fn error_to_catch(&self) -> (e: Option<&ServiceError>)
        ensures
            e is Some <==> self.state() is Recovering,
            e matches Some(err) ==> self.state() == DriverState::Recovering(*err),
    {
        match &self.state {
            DriverState::Recovering(err) => Some(err),
            _ => None,
        }
    }

    /// Whether the unit has terminated and carries its final report.
    pub fn is_terminated(&self) -> (r: bool)
        ensures
            r == (self.state() is Terminated),
    {
        match &self.state {
            DriverState::Terminated(_) => true,
            _ => false,
        }
    }

    /// The final report of a terminated unit.
    pub fn into_report(self) -> (r: FinalReport)
        requires
            self.state() is Terminated,
        ensures
            self.state() == DriverState::Terminated(r),
    {
        match self.state {
            DriverState::Terminated(r) => r,
            _ => unreached(),
        }
    }

    /// Apply the outcome of the lifecycle call this driver owed: the state
    /// takes exactly one transition of the run-loop machine and the owed call
    /// is appended to the log.
    pub fn advance(&mut self, outcome: Result<(), ServiceError>)
        requires
            !(old(self).state() is Terminated),
        ensures
            final(self).state() == step_state(old(self).state(), outcome),
            next_call_of(old(self).state()) matches Some(c) && final(self).calls() == old(
                self,
            ).calls().push(c),
            old(self).inv() ==> final(self).inv(),
    {
        let ghost pre = self.state;
        let ghost c = next_call_of(pre)->Some_0;
        proof {
            self.calls@ = self.calls@.push(c);
        }
        let mut taken = DriverState::Initializing;
        core::mem::swap(&mut taken, &mut self.state);
        let stepped = transition(taken, outcome);
        self.state = stepped;
        proof {
            assert(self.calls@.drop_last() == old(self).calls());
            assert(self.calls@.last() == c);
        }
    }
}

/// The state a unit reaches when, starting from `s`, each owed lifecycle
/// call returns the next outcome of the script; the run stops early if the
/// unit terminates first.
pub open spec fn run_driver(s: DriverState, outcomes: Seq<Result<(), ServiceError>>) -> DriverState
    decreases outcomes.len(),
{
    if outcomes.len() == 0 || s is Terminated {
        s
    } else {
        run_driver(step_state(s, outcomes[0]), outcomes.skip(1))
    }
}

/// The lifecycle calls made during that same scripted run, oldest first.
pub open spec fn trace_of(s: DriverState, outcomes: Seq<Result<(), ServiceError>>) -> Seq<
    LifecycleCall,
>
    decreases outcomes.len(),
{
    if outcomes.len() == 0 || s is Terminated {
        Seq::empty()
    } else {
        seq![next_call_of(s)->Some_0] + trace_of(step_state(s, outcomes[0]), outcomes.skip(1))
    }
}

proof fn lemma_count_concat(a: Seq<LifecycleCall>, b: Seq<LifecycleCall>, c: LifecycleCall)
    ensures
        count_calls(a + b, c) == count_calls(a, c) + count_calls(b, c),
    decreases b.len(),
{
    if b.len() == 0 {
        assert(a + b =~= a);
    } else {
        lemma_count_concat(a, b.drop_last(), c);
        assert((a + b).drop_last() =~= a + b.drop_last());
        assert((a + b).last() == b.last());
    }
}

proof fn lemma_count_singleton(c: LifecycleCall, x: LifecycleCall)
    ensures
        count_calls(seq![c], x) == if c == x {
            1int
        } else {
            0int
        },
{
    assert(seq![c].len() == 1);
    assert(seq![c].drop_last() =~= Seq::<LifecycleCall>::empty());
    assert(count_calls(seq![c].drop_last(), x) == 0) by {
        assert(seq![c].drop_last().len() == 0);
    }
    assert(seq![c].last() == c);
    assert(count_calls(seq![c], x) == count_calls(seq![c].drop_last(), x) + if seq![c].last() == x {
        1int
    } else {
        0int
    });
}

proof fn lemma_trace_aborts(s: DriverState, outcomes: Seq<Result<(), ServiceError>>)
    requires
        !(s is Terminated),
    ensures
        count_calls(trace_of(s, outcomes), LifecycleCall::Abort) == if run_driver(
            s,
            outcomes,
        ) is Terminated {
            1int
        } else {
            0int
        },
    decreases outcomes.len(),
{
    if outcomes.len() == 0 {
    } else {
        let c = next_call_of(s)->Some_0;
        let s2 = step_state(s, outcomes[0]);
        let tail = trace_of(s2, outcomes.skip(1));
        lemma_count_concat(seq![c], tail, LifecycleCall::Abort);
        lemma_count_singleton(c, LifecycleCall::Abort);
        if s2 is Terminated {
            assert(s is Terminating && c == LifecycleCall::Abort);
        } else {
            assert(c != LifecycleCall::Abort);
            lemma_trace_aborts(s2, outcomes.skip(1));
        }
    }
}

/// Law (abort unconditionality): on every scripted run that reaches
/// termination — whether the unit ran, failed without recovery, or failed in
/// `init` — `abort` appears in the call trace exactly once; on a run that has
/// not terminated it has not been called at all.
pub proof fn lemma_terminated_run_aborts_once(outcomes: Seq<Result<(), ServiceError>>)
    ensures
        count_calls(
            trace_of(DriverState::Initializing, outcomes),
            LifecycleCall::Abort,
        ) == if run_driver(DriverState::Initializing, outcomes) is Terminated {
            1int
        } else {
            0int
        },
{
    lemma_trace_aborts(DriverState::Initializing, outcomes);
}

/// Law (abort after a failed `init`): a unit whose `init` fails is driven
/// through exactly `init` then `abort` and terminates; its report is the
/// `init` error, unless `abort` itself fails, whose error then supersedes it.
pub proof fn lemma_init_failure_still_aborts(e: ServiceError, abort_outcome: Result<
    (),
    ServiceError,
>)
    ensures
        ({
            let outcomes = seq![Result::<(), ServiceError>::Err(e), abort_outcome];
            let fin = run_driver(DriverState::Initializing, outcomes);
            &&& trace_of(DriverState::Initializing, outcomes) == seq![
                LifecycleCall::Init,
                LifecycleCall::Abort,
            ]
            &&& fin is Terminated
            &&& abort_outcome matches Ok(_) ==> fin == DriverState::Terminated(
                FinalReport { kind: FailureKind::InitFailure, error: e },
            )
            &&& abort_outcome matches Err(ae) ==> fin == DriverState::Terminated(
                FinalReport { kind: FailureKind::AbortFailure, error: ae },
            )
        }),
{
    let outcomes = seq![Result::<(), ServiceError>::Err(e), abort_outcome];
    let s0 = DriverState::Initializing;
    let rest1 = outcomes.skip(1);
    assert(rest1 =~= seq![abort_outcome]);
    let rest2 = rest1.skip(1);
    assert(rest2 =~= Seq::<Result<(), ServiceError>>::empty());
    assert(outcomes[0] == Result::<(), ServiceError>::Err(e));
    let s1 = step_state(s0, outcomes[0]);
    assert(s1 == DriverState::Terminating(TerminationCause::InitFailed(e)));
    let s2 = step_state(s1, rest1[0]);
    assert(run_driver(s1, rest1) == run_driver(s2, rest2));
    assert(run_driver(s2, rest2) == s2);
    assert(run_driver(s0, outcomes) == run_driver(s1, rest1));
    assert(run_driver(s0, outcomes) == s2);
    assert(trace_of(s2, rest2) =~= Seq::<LifecycleCall>::empty());
    assert(trace_of(s1, rest1) =~= seq![LifecycleCall::Abort] + trace_of(s2, rest2));
    assert(trace_of(s1, rest1) =~= seq![LifecycleCall::Abort]);
    assert(trace_of(s0, outcomes) =~= seq![LifecycleCall::Init] + trace_of(s1, rest1));
    assert(trace_of(s0, outcomes) =~= seq![LifecycleCall::Init, LifecycleCall::Abort]);
}

/// Law (recovery loop): from the run position, a failed `main` whose error a
/// successful `catch` recovers puts the unit back before `main`, so `main`
/// runs a second time; the unit has not terminated.
pub proof fn lemma_recovery_resumes(e: ServiceError)
    ensures
        ({
            let outcomes = seq![
                Result::<(), ServiceError>::Err(e),
                Result::<(), ServiceError>::Ok(()),
                Result::<(), ServiceError>::Ok(()),
            ];
            let fin = run_driver(DriverState::RunningMain, outcomes);
            &&& trace_of(DriverState::RunningMain, outcomes) == seq![
                LifecycleCall::Main,
                LifecycleCall::Catch,
                LifecycleCall::Main,
            ]
            &&& count_calls(
                trace_of(DriverState::RunningMain, outcomes),
                LifecycleCall::Main,
            ) == 2
            &&& !(fin is Terminated)
            &&& fin == DriverState::RunningRepeat
        }),
{
    let outcomes = seq![
        Result::<(), ServiceError>::Err(e),
        Result::<(), ServiceError>::Ok(()),
        Result::<(), ServiceError>::Ok(()),
    ];
    let o1 = outcomes.skip(1);
    let o2 = o1.skip(1);
    let o3 = o2.skip(1);
    assert(o1 =~= seq![Result::<(), ServiceError>::Ok(()), Result::<(), ServiceError>::Ok(())]);
    assert(o2 =~= seq![Result::<(), ServiceError>::Ok(())]);
    assert(o3 =~= Seq::<Result<(), ServiceError>>::empty());
    let s0 = DriverState::RunningMain;
    assert(outcomes[0] == Result::<(), ServiceError>::Err(e));
    let s1 = step_state(s0, outcomes[0]);
    assert(s1 == DriverState::Recovering(e));
    let s2 = step_state(s1, o1[0]);
    assert(s2 == DriverState::RunningMain);
    let s3 = step_state(s2, o2[0]);
    assert(s3 == DriverState::RunningRepeat);
    assert(run_driver(s3, o3) == s3);
    assert(run_driver(s2, o2) == run_driver(s3, o3));
    assert(run_driver(s1, o1) == run_driver(s2, o2));
    assert(run_driver(s0, outcomes) == run_driver(s1, o1));
    assert(run_driver(s0, outcomes) == s3);
    let t = trace_of(s0, outcomes);
    assert(trace_of(s3, o3) =~= Seq::<LifecycleCall>::empty());
    assert(trace_of(s2, o2) =~= seq![LifecycleCall::Main]);
    assert(trace_of(s1, o1) =~= seq![LifecycleCall::Catch] + trace_of(s2, o2));
    assert(t =~= seq![LifecycleCall::Main] + trace_of(s1, o1));
    assert(t =~= seq![LifecycleCall::Main, LifecycleCall::Catch, LifecycleCall::Main]);
    assert(t.drop_last() =~= seq![LifecycleCall::Main, LifecycleCall::Catch]);
    assert(t.drop_last().drop_last() =~= seq![LifecycleCall::Main]);
    assert(t.drop_last().drop_last().drop_last() =~= Seq::<LifecycleCall>::empty());
    assert(t.last() == LifecycleCall::Main);
    assert(t.drop_last().last() == LifecycleCall::Catch);
    assert(t.drop_last().drop_last().last() == LifecycleCall::Main);
    assert(count_calls(t.drop_last().drop_last().drop_last(), LifecycleCall::Main) == 0);
    assert(count_calls(t.drop_last().drop_last(), LifecycleCall::Main) == 1);
    assert(count_calls(t.drop_last(), LifecycleCall::Main) == 1);
    assert(count_calls(t, LifecycleCall::Main) == 2);
}

/// A scripted run taken one outcome at a time lands where a run taken in one
/// piece does, and makes the same calls.
proof fn lemma_run_append(s: DriverState, a: Seq<Result<(), ServiceError>>, b: Seq<
    Result<(), ServiceError>,
>)
    ensures
        run_driver(s, a + b) == run_driver(run_driver(s, a), b),
        trace_of(s, a + b) == trace_of(s, a) + trace_of(run_driver(s, a), b),
    decreases a.len(),
{
    if a.len() == 0 {
        assert(a + b =~= b);
        assert(trace_of(s, a) =~= Seq::<LifecycleCall>::empty());
        assert(trace_of(s, a) + trace_of(run_driver(s, a), b) =~= trace_of(s, b));
    } else if s is Terminated {
        assert(run_driver(s, a) == s);
        assert(run_driver(s, a + b) == s);
        assert(trace_of(s, a + b) =~= Seq::<LifecycleCall>::empty());
        assert(trace_of(s, a) + trace_of(run_driver(s, a), b) =~= Seq::<LifecycleCall>::empty());
    } else {
        let s2 = step_state(s, a[0]);
        lemma_run_append(s2, a.skip(1), b);
        assert((a + b).skip(1) =~= a.skip(1) + b);
        assert((a + b)[0] == a[0]);
        assert(run_driver(s, a + b) == run_driver(s2, a.skip(1) + b));
        assert(trace_of(s, a + b) == seq![next_call_of(s)->Some_0] + trace_of(s2, a.skip(1) + b));
        assert(seq![next_call_of(s)->Some_0] + (trace_of(s2, a.skip(1)) + trace_of(
            run_driver(s2, a.skip(1)),
            b,
        )) =~= (seq![next_call_of(s)->Some_0] + trace_of(s2, a.skip(1))) + trace_of(
            run_driver(s2, a.skip(1)),
            b,
        ));
    }
}

/// Law (wrapper transparency): drives a fresh unit by a script of outcomes,
/// one `advance` per entry, stopping once it terminates. The state reached
/// and the calls made are exactly `run_driver` and `trace_of` of the script:
/// they are a function of the outcomes alone. An adapter that forwards every
/// lifecycle call unchanged leaves the outcomes unchanged, and so is driven
/// through identical calls to an identical final report.
pub fn replay(outcomes: Vec<Result<(), ServiceError>>) -> (d: Driver)
    ensures
        d.state() == run_driver(DriverState::Initializing, outcomes@),
        d.calls() == trace_of(DriverState::Initializing, outcomes@),
        d.inv(),
{
    let ghost all = outcomes@;
    let mut rest = outcomes;
    let mut d = Driver::new();
    let ghost mut done: int = 0;
    loop
        invariant
            0 <= done <= all.len(),
            rest@ == all.skip(done),
            d.state() == run_driver(DriverState::Initializing, all.take(done)),
            d.calls() == trace_of(DriverState::Initializing, all.take(done)),
            d.inv(),
        ensures
            d.state() == run_driver(DriverState::Initializing, all),
            d.calls() == trace_of(DriverState::Initializing, all),
            d.inv(),
        decreases all.len() - done,
    {
        if rest.len() == 0 {
            proof {
                assert(all.take(done) =~= all);
            }
            break ;
        }
        if d.is_terminated() {
            proof {
                lemma_run_append(DriverState::Initializing, all.take(done), all.skip(done));
                assert(all.take(done) + all.skip(done) =~= all);
            }
            break ;
        }
        let o = rest.remove(0);
        assert(o == all[done]);
        d.advance(o);
        proof {
            let s0 = DriverState::Initializing;
            let o_g = all[done];
            let pre = run_driver(s0, all.take(done));
            lemma_run_append(s0, all.take(done), seq![o_g]);
            assert(all.take(done) + seq![o_g] =~= all.take(done + 1));
            assert(seq![o_g].skip(1) =~= Seq::<Result<(), ServiceError>>::empty());
            assert(seq![o_g][0] == o_g);
            assert(seq![o_g].len() == 1);
            assert(!(pre is Terminated));
            assert(run_driver(pre, seq![o_g]) == run_driver(
                step_state(pre, o_g),
                seq![o_g].skip(1),
            ));
            assert(run_driver(step_state(pre, o_g), seq![o_g].skip(1)) == step_state(pre, o_g));
            assert(run_driver(pre, seq![o_g]) == step_state(pre, o_g));
            assert(trace_of(step_state(pre, o_g), seq![o_g].skip(1)) =~= Seq::<
                LifecycleCall,
            >::empty());
            assert(trace_of(pre, seq![o_g]) =~= seq![next_call_of(pre)->Some_0]);
            assert(trace_of(s0, all.take(done)).push(next_call_of(pre)->Some_0) =~= trace_of(
                s0,
                all.take(done),
            ) + seq![next_call_of(pre)->Some_0]);
            assert(rest@ =~= all.skip(done + 1));
            done = done + 1;
        }
    }
    d
}

/// One transition of the run-loop machine, on owned values.
fn transition(s: DriverState, outcome: Result<(), ServiceError>) -> (r: DriverState)
    requires
        !(s is Terminated),
    ensures
        r == step_state(s, outcome),
{
    match s {
        DriverState::Initializing => match outcome {
            Ok(_) => DriverState::RunningMain,
            Err(e) => DriverState::Terminating(TerminationCause::InitFailed(e)),
        },
        DriverState::RunningMain => match outcome {
            Ok(_) => DriverState::RunningRepeat,
            Err(e) => DriverState::Recovering(e),
        },
        DriverState::RunningRepeat => match outcome {
            Ok(_) => DriverState::RunningMain,
            Err(e) => DriverState::Recovering(e),
        },
        DriverState::Recovering(step_error) => match outcome {
            Ok(_) => DriverState::RunningMain,
            Err(_) => DriverState::Terminating(TerminationCause::RecoveryFailed(step_error)),
        },
        DriverState::Terminating(cause) => match outcome {
            Ok(_) => {
                let rep = match cause {
                    TerminationCause::InitFailed(e) => FinalReport {
                        kind: FailureKind::InitFailure,
                        error: e,
                    },
                    TerminationCause::RecoveryFailed(e) => FinalReport {
                        kind: FailureKind::RecoveryFailure,
                        error: e,
                    },
                };
                DriverState::Terminated(rep)
            },
            Err(e) => DriverState::Terminated(
                FinalReport { kind: FailureKind::AbortFailure, error: e },
            ),
        },
        DriverState::Terminated(_) => unreached(),
    }
}

} // verus!

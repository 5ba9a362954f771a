//! The decisions of the lifecycle runner. The caller launches and joins the
//! workers; this state machine says when to cancel, when to drain and what to report.
use vstd::prelude::*;
use crate::context::Context;

verus! {

/// Where a run stands.
#[derive(Debug, Clone, Copy, PartialEq, Eq, Structural)]
pub enum Phase {
    Starting,
    Running,
    Draining,
    ShuttingDown,
    Stopped,
}

/// How a worker ended.
#[derive(Debug, PartialEq, Eq)]
pub enum Exit {
    /// It returned success.
    Finished,
    /// It returned an error or terminated abnormally, as described.
    Failed(String),
}

/// What the caller does after a poll.
#[derive(Debug, Clone, Copy, PartialEq, Eq, Structural)]
pub enum Step {
    /// Sleep for the polling interval, then poll again.
    Wait,
    /// Join every remaining worker.
    Drain,
}

/// The failures of a run, by phase, in the order they were reaped.
#[derive(Debug, PartialEq, Eq)]
pub struct RunError {
    pub worker_errors: Vec<String>,
    pub shutdown_errors: Vec<String>,
}

/// The descriptions of the failures among `exits`, in order.
pub open spec fn failure_messages(exits: Seq<Exit>) -> Seq<Seq<char>>
    decreases exits.len(),
{
    if exits.len() == 0 {
        Seq::empty()
    } else {
        let rest = failure_messages(exits.drop_last());
        match exits.last() {
            Exit::Failed(m) => rest.push(m@),
            Exit::Finished => rest,
        }
    }
}

/// Some worker among `exits` failed.
pub open spec fn has_failure(exits: Seq<Exit>) -> bool {
    exists|i: int| 0 <= i < exits.len() && #[trigger] exits[i] is Failed
}

proof fn lemma_failures_bounded(exits: Seq<Exit>)
    ensures
        failure_messages(exits).len() <= exits.len(),
        failure_messages(exits).len() == 0 <==> !has_failure(exits),
    decreases exits.len(),
{
    if exits.len() > 0 {
        let init = exits.drop_last();
        lemma_failures_bounded(init);
        if has_failure(init) {
            let i = choose|i: int| 0 <= i < init.len() && #[trigger] init[i] is Failed;
            assert(exits[i] is Failed);
        }
        if has_failure(exits) && !(exits.last() is Failed) {
            let i = choose|i: int| 0 <= i < exits.len() && #[trigger] exits[i] is Failed;
            assert(init[i] is Failed);
        }
        if exits.last() is Failed {
            assert(exits[exits.len() - 1] is Failed);
        }
    }
}

/// Appends the descriptions of the failures among `exits` to `errors`.
fn collect_failures(exits: &Vec<Exit>, errors: &mut Vec<String>)
    ensures
        names_of(final(errors)@) == names_of(old(errors)@) + failure_messages(exits@),
        final(errors)@.len() == old(errors)@.len() + failure_messages(exits@).len(),
{
    let mut i: usize = 0;
    while i < exits.len()
        invariant
            i <= exits.len(),
            names_of(errors@) == names_of(old(errors)@) + failure_messages(exits@.subrange(0, i as int)),
        decreases exits.len() - i,
    {
        assert(exits@.subrange(0, i + 1).drop_last() == exits@.subrange(0, i as int));
        match &exits[i] {
            Exit::Failed(m) => {
                let ghost before = errors@;
                errors.push(m.clone());
                assert(names_of(errors@) =~= names_of(before).push(m@));
            },
            Exit::Finished => {},
        }
        i = i + 1;
    }
    assert(exits@.subrange(0, exits.len() as int) == exits@);
    assert(names_of(errors@).len() == errors@.len());
    assert(names_of(old(errors)@).len() == old(errors)@.len());
}

/// The strings of `v` as character sequences.
pub open spec fn names_of(v: Seq<String>) -> Seq<Seq<char>> {
    v.map_values(|s: String| s@)
}

/// The supervisor of one run: how many start-phase workers are still live and
/// what the failed ones reported.
pub struct Supervisor {
    phase: Phase,
    workers: usize,
    live: usize,
    errors: Vec<String>,
}

impl Supervisor {
    pub closed spec fn phase(&self) -> Phase {
        self.phase
    }

    /// Start-phase workers not reaped yet.
    pub closed spec fn live(&self) -> nat {
        self.live as nat
    }

    /// What the start-phase workers reaped with a failure reported, in order.
    pub closed spec fn errors(&self) -> Seq<Seq<char>> {
        names_of(self.errors@)
    }

    /// Live and failed workers together never outnumber the launched ones.
    pub closed spec fn wf(&self) -> bool {
        self.live + self.errors@.len() <= self.workers
    }

    /// Where the run stands.
    pub fn current_phase(&self) -> (p: Phase)
        ensures
            p == self.phase(),
    {
        self.phase
    }

    /// A run that is about to launch `workers` start-phase workers.
    pub fn new(workers: usize) -> (r: Self)
        ensures
            r.wf(),
            r.phase() == Phase::Starting,
            r.live() == workers,
            r.errors().len() == 0,
    {
        let r = Supervisor { phase: Phase::Starting, workers, live: workers, errors: Vec::new() };
        assert(r.errors() =~= Seq::empty());
        r
    }

    /// Every start-phase worker has been launched.
    pub fn launched(&mut self)
        requires
            old(self).wf(),
            old(self).phase() == Phase::Starting,
        ensures
            final(self).wf(),
            final(self).phase() == Phase::Running,
            final(self).live() == old(self).live(),
            final(self).errors() == old(self).errors(),
    {
        self.phase = Phase::Running;
    }

    /// One poll: `reaped` are the workers found terminated since the last poll.
    /// A failure among them cancels `ctx`, and with it every context derived from
    /// it; once `ctx` is done the run drains.
    pub fn poll(&mut self, ctx: &mut Context, reaped: &Vec<Exit>) -> (step: Step)
        requires
            old(self).wf(),
            old(self).phase() == Phase::Running,
            reaped.len() <= old(self).live(),
        ensures
            final(self).wf(),
            final(self).live() == old(self).live() - reaped@.len(),
            final(self).errors() == old(self).errors() + failure_messages(reaped@),
            has_failure(reaped@) ==> final(ctx).all_done() && step == Step::Drain,
            !has_failure(reaped@) ==> *final(ctx) == *old(ctx),
            step == Step::Drain <==> final(ctx).done(),
            step == Step::Drain ==> final(self).phase() == Phase::Draining,
            step == Step::Wait ==> final(self).phase() == Phase::Running,
    {
        proof {
            lemma_failures_bounded(reaped@);
        }
        let before = self.errors.len();
        collect_failures(reaped, &mut self.errors);
        self.live = self.live - reaped.len();
        if self.errors.len() > before {
            ctx.cancel();
        }
        if ctx.is_done() {
            self.phase = Phase::Draining;
            Step::Drain
        } else {
            Step::Wait
        }
    }

    /// Every remaining worker has been joined; `rest` is how they ended. Returns the
    /// fresh context for the shutdown phase, which the finished signal does not reach.
    pub fn drained(&mut self, rest: &Vec<Exit>) -> (shutdown_ctx: Context)
        requires
            old(self).wf(),
            old(self).phase() == Phase::Draining,
            rest.len() == old(self).live(),
        ensures
            final(self).wf(),
            final(self).phase() == Phase::ShuttingDown,
            final(self).live() == 0,
            final(self).errors() == old(self).errors() + failure_messages(rest@),
            !shutdown_ctx.done(),
            shutdown_ctx.children().len() == 0,
    {
        proof {
            lemma_failures_bounded(rest@);
        }
        collect_failures(rest, &mut self.errors);
        self.live = 0;
        self.phase = Phase::ShuttingDown;
        Context::new()
    }

    /// The shutdown-phase workers ended as `shutdown` says. The run is over: it
    /// succeeded when no worker of either phase failed, and otherwise reports
    /// every failure.
    pub fn finish(&mut self, shutdown: &Vec<Exit>) -> (r: Result<(), RunError>)
        requires
            old(self).wf(),
            old(self).phase() == Phase::ShuttingDown,
        ensures
            final(self).phase() == Phase::Stopped,
            r is Ok <==> old(self).errors().len() == 0 && failure_messages(shutdown@).len() == 0,
            r matches Err(e) ==> names_of(e.worker_errors@) == old(self).errors()
                && names_of(e.shutdown_errors@) == failure_messages(shutdown@),
    {
        let mut shutdown_errors: Vec<String> = Vec::new();
        collect_failures(shutdown, &mut shutdown_errors);
        assert(names_of(shutdown_errors@) =~= failure_messages(shutdown@));
        self.phase = Phase::Stopped;
        let mut worker_errors: Vec<String> = Vec::new();
        std::mem::swap(&mut worker_errors, &mut self.errors);
        if worker_errors.len() == 0 && shutdown_errors.len() == 0 {
            Ok(())
        } else {
            Err(RunError { worker_errors, shutdown_errors })
        }
    }
}

} // verus!

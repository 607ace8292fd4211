//! The installation executor, as a state machine.
//!
//! The executor decides; its caller acts. Each call of `Executor::step`
//! takes the result of the previous action and returns the next action to
//! perform. Steps run in plan order, and the first failed step ends the run.
use vstd::prelude::*;
use crate::model::copy_bytes;
use crate::resolve::{DriverRequirement, RequirementView, req_views};

verus! {

/// Where a run of the executor stands.
#[derive(Clone, Copy, Debug, PartialEq, Eq, Structural)]
pub enum Phase {
    /// About to start the next step, or to finish.
    Ready,
    /// Waiting to learn whether the current driver is a loadable kernel module.
    AwaitingModuleCheck,
    /// Waiting for the current driver's module enabling or package install.
    AwaitingInstall,
    /// Waiting for the boot image to be regenerated.
    AwaitingFinalize,
    /// Every step succeeded, and the boot image was regenerated if needed.
    Completed,
    /// A step failed; the remaining steps were not attempted.
    Failed,
    /// Every step succeeded but the boot image could not be regenerated.
    FinalizeFailed,
}

/// What the caller is to do next. Steps are given by their index in the plan.
#[derive(Clone, Copy, Debug, PartialEq, Eq, Structural)]
pub enum Action {
    /// Dry run: show that the step would install its driver; change nothing.
    Preview(usize),
    /// Find out whether the step's driver is a loadable kernel module.
    CheckModule(usize),
    /// Enable the step's driver as a kernel module.
    EnableModule(usize),
    /// Install the step's driver with the package manager.
    InstallPackage(usize),
    /// Regenerate the boot image.
    RegenerateBootImage,
    /// The run is over and succeeded.
    Finished,
    /// The run is over: the step failed.
    InstallFailed(usize),
    /// The run is over: the boot image could not be regenerated.
    FinalizeFailed,
    /// The event was not the one awaited: nothing to do.
    Idle,
}

/// What happened since the last action.
#[derive(Debug, PartialEq, Eq)]
pub enum Event {
    /// Go on: start the run, or continue after a preview.
    Proceed,
    /// The answer to `CheckModule`.
    ModuleCheck(bool),
    /// The result of `EnableModule` or `InstallPackage`, with the failure text.
    InstallResult(Result<(), Vec<u8>>),
    /// The result of `RegenerateBootImage`, with the failure text.
    FinalizeResult(Result<(), Vec<u8>>),
}

/// The result of one step.
#[derive(Clone, Debug, PartialEq, Eq)]
pub enum StepOutcome {
    Success,
    Failure(Vec<u8>),
}

/// The result of one step, with the driver it was for.
#[derive(Clone, Debug, PartialEq, Eq)]
pub struct ExecutionOutcome {
    pub driver_name: Vec<u8>,
    pub outcome: StepOutcome,
}

/// The mathematical value of an `ExecutionOutcome`: the failure text, if any.
pub struct OutcomeView {
    pub driver_name: Seq<u8>,
    pub failure: Option<Seq<u8>>,
}

impl View for ExecutionOutcome {
    type V = OutcomeView;

    open spec fn view(&self) -> OutcomeView {
        OutcomeView {
            driver_name: self.driver_name@,
            failure: match self.outcome {
                StepOutcome::Success => None,
                StepOutcome::Failure(t) => Some(t@),
            },
        }
    }
}

/// Drives an installation plan to its end.
pub struct Executor {
    plan: Vec<DriverRequirement>,
    dry_run: bool,
    next: usize,
    phase: Phase,
    outcomes: Vec<ExecutionOutcome>,
}

/// The mathematical value of an `Executor`.
pub struct ExecutorView {
    pub plan: Seq<RequirementView>,
    pub dry_run: bool,
    /// The index of the current step: the steps before it succeeded.
    pub next: int,
    pub phase: Phase,
    pub outcomes: Seq<OutcomeView>,
}

impl View for Executor {
    type V = ExecutorView;

    closed spec fn view(&self) -> ExecutorView {
        ExecutorView {
            plan: req_views(self.plan@),
            dry_run: self.dry_run,
            next: self.next as int,
            phase: self.phase,
            outcomes: self.outcomes@.map_values(|o: ExecutionOutcome| o@),
        }
    }
}

/// The outcome of a successful step for driver `name`.
pub open spec fn success(name: Seq<u8>) -> OutcomeView {
    OutcomeView { driver_name: name, failure: None }
}

/// The state and action when the executor is ready at its current step:
/// the step is previewed in a dry run and checked otherwise; past the last
/// step, the boot image is regenerated when the run was real and installed
/// something, and the run is finished when not.
pub open spec fn begin_step(s: ExecutorView) -> (ExecutorView, Action) {
    if s.next < s.plan.len() {
        if s.dry_run {
            (
                ExecutorView {
                    next: s.next + 1,
                    outcomes: s.outcomes.push(success(s.plan[s.next].driver_name)),
                    ..s
                },
                Action::Preview(s.next as usize),
            )
        } else {
            (ExecutorView { phase: Phase::AwaitingModuleCheck, ..s }, Action::CheckModule(s.next as usize))
        }
    } else if !s.dry_run && s.plan.len() > 0 {
        (ExecutorView { phase: Phase::AwaitingFinalize, ..s }, Action::RegenerateBootImage)
    } else {
        (ExecutorView { phase: Phase::Completed, ..s }, Action::Finished)
    }
}

/// The executor's transition on event `e`: the new state and the action.
/// An event that the current phase does not await changes nothing.
pub open spec fn advance(s: ExecutorView, e: Event) -> (ExecutorView, Action) {
    match (s.phase, e) {
        (Phase::Ready, Event::Proceed) => begin_step(s),
        (Phase::AwaitingModuleCheck, Event::ModuleCheck(is_module)) => (
            ExecutorView { phase: Phase::AwaitingInstall, ..s },
            if is_module {
                Action::EnableModule(s.next as usize)
            } else {
                Action::InstallPackage(s.next as usize)
            },
        ),
        (Phase::AwaitingInstall, Event::InstallResult(Ok(()))) => begin_step(
            ExecutorView {
                phase: Phase::Ready,
                next: s.next + 1,
                outcomes: s.outcomes.push(success(s.plan[s.next].driver_name)),
                ..s
            },
        ),
        (Phase::AwaitingInstall, Event::InstallResult(Err(reason))) => (
            ExecutorView {
                phase: Phase::Failed,
                outcomes: s.outcomes.push(
                    OutcomeView { driver_name: s.plan[s.next].driver_name, failure: Some(reason@) },
                ),
                ..s
            },
            Action::InstallFailed(s.next as usize),
        ),
        (Phase::AwaitingFinalize, Event::FinalizeResult(Ok(()))) => (
            ExecutorView { phase: Phase::Completed, ..s },
            Action::Finished,
        ),
        (Phase::AwaitingFinalize, Event::FinalizeResult(Err(_))) => (
            ExecutorView { phase: Phase::FinalizeFailed, ..s },
            Action::FinalizeFailed,
        ),
        _ => (s, Action::Idle),
    }
}

/// A consistent executor state: one outcome per step taken, each for its
/// step's driver; only the last may be a failure, and only when the run
/// failed. A dry run never waits on the system.
pub open spec fn consistent(s: ExecutorView) -> bool {
    &&& 0 <= s.next <= s.plan.len() <= usize::MAX
    &&& s.dry_run ==> (s.phase == Phase::Ready || s.phase == Phase::Completed)
    &&& (s.phase == Phase::AwaitingModuleCheck || s.phase == Phase::AwaitingInstall || s.phase == Phase::Failed)
        ==> s.next < s.plan.len()
    &&& (s.phase == Phase::AwaitingFinalize || s.phase == Phase::Completed || s.phase == Phase::FinalizeFailed)
        ==> s.next == s.plan.len()
    &&& s.outcomes.len() == if s.phase == Phase::Failed { s.next + 1 } else { s.next }
    &&& forall|k: int| 0 <= k < s.outcomes.len() ==> #[trigger] s.outcomes[k].driver_name == s.plan[k].driver_name
    &&& forall|k: int| 0 <= k < s.next ==> #[trigger] s.outcomes[k].failure is None
    &&& s.phase == Phase::Failed ==> s.outcomes[s.next].failure is Some
}

impl Executor {
    /// An executor at the start of `plan`, run for real or as a dry run.
    pub fn new(plan: Vec<DriverRequirement>, dry_run: bool) -> (r: Executor)
        ensures
            r@ == (ExecutorView {
                plan: req_views(plan@),
                dry_run,
                next: 0,
                phase: Phase::Ready,
                outcomes: Seq::empty(),
            }),
            consistent(r@),
    {
        let n = plan.len();
        let r = Executor { plan, dry_run, next: 0, phase: Phase::Ready, outcomes: Vec::new() };
        assert(r@.plan.len() == n);
        assert(r@.outcomes =~= Seq::<OutcomeView>::empty());
        r
    }

    /// The state's consistency, which every executor keeps.
    pub open spec fn wf(&self) -> bool {
        consistent(self@)
    }

    /// The plan being run.
    pub fn plan(&self) -> (r: &Vec<DriverRequirement>)
        ensures
            req_views(r@) == self@.plan,
    {
        &self.plan
    }

    /// Where the run stands.
    pub fn phase(&self) -> (r: Phase)
        ensures
            r == self@.phase,
    {
        self.phase
    }

    /// Whether this is a dry run.
    pub fn is_dry_run(&self) -> (r: bool)
        ensures
            r == self@.dry_run,
    {
        self.dry_run
    }

    /// The outcomes of the steps taken so far, in plan order.
    pub fn outcomes(&self) -> (r: &Vec<ExecutionOutcome>)
        ensures
            r@.map_values(|o: ExecutionOutcome| o@) == self@.outcomes,
    {
        &self.outcomes
    }

    fn record_success(&mut self)
        requires
            consistent(old(self)@),
            old(self)@.next < old(self)@.plan.len(),
            old(self)@.phase != Phase::Failed,
        ensures
            final(self)@ == (ExecutorView {
                next: old(self)@.next + 1,
                outcomes: old(self)@.outcomes.push(success(old(self)@.plan[old(self)@.next].driver_name)),
                ..old(self)@
            }),
    {
        let ghost before = self@;
        let n = self.plan.len();
        assert(self.next < n);
        assert(req_views(self.plan@)[self.next as int] == self.plan@[self.next as int]@);
        let name = copy_bytes(&self.plan[self.next].driver_name);
        let o = ExecutionOutcome { driver_name: name, outcome: StepOutcome::Success };
        self.outcomes.push(o);
        self.next = self.next + 1;
        assert(self@.outcomes =~= before.outcomes.push(success(before.plan[before.next].driver_name)));
    }

    fn begin(&mut self) -> (r: Action)
        requires
            consistent(old(self)@),
            old(self)@.phase == Phase::Ready,
        ensures
            (final(self)@, r) == begin_step(old(self)@),
    {
        if self.next < self.plan.len() {
            if self.dry_run {
                let i = self.next;
                self.record_success();
                Action::Preview(i)
            } else {
                self.phase = Phase::AwaitingModuleCheck;
                Action::CheckModule(self.next)
            }
        } else if !self.dry_run && self.plan.len() > 0 {
            self.phase = Phase::AwaitingFinalize;
            Action::RegenerateBootImage
        } else {
            self.phase = Phase::Completed;
            Action::Finished
        }
    }

    /// Takes the result of the previous action and returns the next action.
    pub fn step(&mut self, e: Event) -> (r: Action)
        requires
            old(self).wf(),
        ensures
            (final(self)@, r) == advance(old(self)@, e),
            final(self).wf(),
    {
        let ghost s = self@;
        let ghost ev = e;
        let r = match (self.phase, e) {
            (Phase::Ready, Event::Proceed) => self.begin(),
            (Phase::AwaitingModuleCheck, Event::ModuleCheck(is_module)) => {
                self.phase = Phase::AwaitingInstall;
                if is_module {
                    Action::EnableModule(self.next)
                } else {
                    Action::InstallPackage(self.next)
                }
            },
            (Phase::AwaitingInstall, Event::InstallResult(Ok(()))) => {
                self.phase = Phase::Ready;
                self.record_success();
                self.begin()
            },
            (Phase::AwaitingInstall, Event::InstallResult(Err(reason))) => {
                assert(req_views(self.plan@)[self.next as int] == self.plan@[self.next as int]@);
                let name = copy_bytes(&self.plan[self.next].driver_name);
                let ghost before = self.outcomes@;
                let o = ExecutionOutcome { driver_name: name, outcome: StepOutcome::Failure(reason) };
                let ghost ov = o@;
                self.outcomes.push(o);
                self.phase = Phase::Failed;
                assert(self.outcomes@.map_values(|o: ExecutionOutcome| o@) =~= before.map_values(
                    |o: ExecutionOutcome| o@,
                ).push(ov));
                Action::InstallFailed(self.next)
            },
            (Phase::AwaitingFinalize, Event::FinalizeResult(Ok(()))) => {
                self.phase = Phase::Completed;
                Action::Finished
            },
            (Phase::AwaitingFinalize, Event::FinalizeResult(Err(_))) => {
                self.phase = Phase::FinalizeFailed;
                Action::FinalizeFailed
            },
            _ => Action::Idle,
        };
        r
    }
}

/// The state after events `es`, one after the other, and the actions they gave.
pub open spec fn run(s: ExecutorView, es: Seq<Event>) -> (ExecutorView, Seq<Action>)
    decreases es.len(),
{
    if es.len() == 0 {
        (s, Seq::empty())
    } else {
        let (t, a) = advance(s, es[0]);
        let (u, rest) = run(t, es.drop_first());
        (u, seq![a].add(rest))
    }
}

/// An action that changes the system: a module enabled, a package
/// installed or the boot image regenerated.
pub open spec fn changes_system(a: Action) -> bool {
    match a {
        Action::EnableModule(_) | Action::InstallPackage(_) | Action::RegenerateBootImage => true,
        _ => false,
    }
}

proof fn lemma_begin_consistent(s: ExecutorView)
    requires
        consistent(s),
        s.phase == Phase::Ready,
    ensures
        consistent(begin_step(s).0),
        begin_step(s).0.plan == s.plan,
        begin_step(s).0.dry_run == s.dry_run,
{
    let t = begin_step(s).0;
    assert forall|k: int| 0 <= k < t.outcomes.len() implies #[trigger] t.outcomes[k].driver_name
        == t.plan[k].driver_name by {
        if k < s.outcomes.len() {
            assert(t.outcomes[k] == s.outcomes[k]);
        }
    }
    assert forall|k: int| 0 <= k < t.next implies #[trigger] t.outcomes[k].failure is None by {
        if k < s.outcomes.len() {
            assert(t.outcomes[k] == s.outcomes[k]);
        }
    }
}

/// Every transition keeps the executor's state consistent.
pub proof fn lemma_advance_consistent(s: ExecutorView, e: Event)
    requires
        consistent(s),
    ensures
        consistent(advance(s, e).0),
        advance(s, e).0.plan == s.plan,
        advance(s, e).0.dry_run == s.dry_run,
{
    let t = advance(s, e).0;
    match (s.phase, e) {
        (Phase::Ready, Event::Proceed) => {
            lemma_begin_consistent(s);
        },
        (Phase::AwaitingInstall, Event::InstallResult(Ok(()))) => {
            let m = ExecutorView {
                phase: Phase::Ready,
                next: s.next + 1,
                outcomes: s.outcomes.push(success(s.plan[s.next].driver_name)),
                ..s
            };
            assert(consistent(m)) by {
                assert forall|k: int| 0 <= k < m.outcomes.len() implies #[trigger] m.outcomes[k].driver_name
                    == m.plan[k].driver_name by {
                    if k < s.outcomes.len() {
                        assert(m.outcomes[k] == s.outcomes[k]);
                    }
                }
                assert forall|k: int| 0 <= k < m.next implies #[trigger] m.outcomes[k].failure is None by {
                    if k < s.outcomes.len() {
                        assert(m.outcomes[k] == s.outcomes[k]);
                    }
                }
            }
            lemma_begin_consistent(m);
        },
        (Phase::AwaitingInstall, Event::InstallResult(Err(reason))) => {
            assert forall|k: int| 0 <= k < t.outcomes.len() implies #[trigger] t.outcomes[k].driver_name
                == t.plan[k].driver_name by {
                if k < s.outcomes.len() {
                    assert(t.outcomes[k] == s.outcomes[k]);
                }
            }
            assert forall|k: int| 0 <= k < t.next implies #[trigger] t.outcomes[k].failure is None by {
                assert(t.outcomes[k] == s.outcomes[k]);
            }
        },
        _ => {},
    }
}

/// A dry run changes nothing: whatever events come, no action that it
/// gives enables a module, installs a package or regenerates the boot image.
pub proof fn lemma_dry_run_pure(s: ExecutorView, es: Seq<Event>)
    requires
        consistent(s),
        s.dry_run,
    ensures
        forall|i: int| 0 <= i < run(s, es).1.len() ==> !changes_system(#[trigger] run(s, es).1[i]),
        run(s, es).0.plan == s.plan,
    decreases es.len(),
{
    if es.len() > 0 {
        let (t, a) = advance(s, es[0]);
        lemma_advance_consistent(s, es[0]);
        lemma_dry_run_pure(t, es.drop_first());
        let acts = run(s, es).1;
        assert(acts == seq![a].add(run(t, es.drop_first()).1));
        assert forall|i: int| 0 <= i < acts.len() implies !changes_system(#[trigger] acts[i]) by {
            if i > 0 {
                assert(acts[i] == run(t, es.drop_first()).1[i - 1]);
            }
        }
    }
}

/// Once a run has failed, it stays failed and gives no action, whatever events come.
pub proof fn lemma_failed_stays_failed(s: ExecutorView, es: Seq<Event>)
    requires
        s.phase == Phase::Failed,
    ensures
        run(s, es).0 == s,
        forall|i: int| 0 <= i < run(s, es).1.len() ==> #[trigger] run(s, es).1[i] == Action::Idle,
    decreases es.len(),
{
    if es.len() > 0 {
        lemma_failed_stays_failed(s, es.drop_first());
        let acts = run(s, es).1;
        assert forall|i: int| 0 <= i < acts.len() implies #[trigger] acts[i] == Action::Idle by {
            if i > 0 {
                assert(acts[i] == run(s, es.drop_first()).1[i - 1]);
            }
        }
    }
}

/// Fail-fast: when a step's install fails, the run fails at that step with
/// the failure text recorded; after that no later step is attempted and the
/// boot image is not regenerated, whatever events come.
pub proof fn lemma_fail_fast(s: ExecutorView, reason: Vec<u8>, es: Seq<Event>)
    requires
        consistent(s),
        s.phase == Phase::AwaitingInstall,
    ensures
        ({
            let (t, a) = advance(s, Event::InstallResult(Err(reason)));
            &&& a == Action::InstallFailed(s.next as usize)
            &&& t.phase == Phase::Failed
            &&& t.next == s.next
            &&& t.outcomes.last().failure == Some(reason@)
            &&& run(t, es).0 == t
            &&& forall|i: int| 0 <= i < run(t, es).1.len() ==> #[trigger] run(t, es).1[i] == Action::Idle
        }),
{
    let t = advance(s, Event::InstallResult(Err(reason))).0;
    lemma_failed_stays_failed(t, es);
}

/// The boot image is regenerated only at the end of a real run that has a
/// step, once every step has succeeded.
pub proof fn lemma_finalize_after_success(s: ExecutorView, e: Event)
    requires
        consistent(s),
        advance(s, e).1 == Action::RegenerateBootImage,
    ensures
        !s.dry_run,
        s.plan.len() > 0,
        advance(s, e).0.next == s.plan.len(),
        advance(s, e).0.phase == Phase::AwaitingFinalize,
        forall|k: int| 0 <= k < s.plan.len() ==> #[trigger] advance(s, e).0.outcomes[k].failure is None,
{
    lemma_advance_consistent(s, e);
}

/// The plan step that an action previews or installs, if any.
pub open spec fn taken(a: Action) -> Option<int> {
    match a {
        Action::Preview(i) => Some(i as int),
        Action::EnableModule(i) => Some(i as int),
        Action::InstallPackage(i) => Some(i as int),
        _ => None,
    }
}

/// The plan steps that actions `acts` preview or install, in order.
pub open spec fn steps_of(acts: Seq<Action>) -> Seq<int>
    decreases acts.len(),
{
    if acts.len() == 0 {
        Seq::empty()
    } else {
        match taken(acts[0]) {
            Some(i) => seq![i].add(steps_of(acts.drop_first())),
            None => steps_of(acts.drop_first()),
        }
    }
}

/// The first step that the executor has not yet previewed or installed.
pub open spec fn first_untaken(s: ExecutorView) -> int {
    if s.phase == Phase::AwaitingInstall {
        s.next + 1
    } else {
        s.next
    }
}

/// Steps are taken in plan order, in a dry run and a real run alike: the
/// steps that a run previews (dry run) or installs (real run) are
/// consecutive plan indices from the first one not yet taken. From a new
/// executor they are 0, 1, 2, ... whichever the mode, so a dry run previews
/// the drivers in the order a real run installs them.
pub proof fn lemma_steps_in_plan_order(s: ExecutorView, es: Seq<Event>)
    requires
        consistent(s),
    ensures
        forall|k: int|
            0 <= k < steps_of(run(s, es).1).len() ==> #[trigger] steps_of(run(s, es).1)[k] == first_untaken(s) + k
                && steps_of(run(s, es).1)[k] < s.plan.len(),
    decreases es.len(),
{
    if es.len() > 0 {
        let (t, a) = advance(s, es[0]);
        let rest = run(t, es.drop_first()).1;
        lemma_advance_consistent(s, es[0]);
        lemma_steps_in_plan_order(t, es.drop_first());
        let acts = run(s, es).1;
        assert(acts == seq![a].add(rest));
        assert(acts.drop_first() =~= rest);
        assert(acts[0] == a);
        if t.phase == Phase::Failed && s.phase != Phase::Failed {
            lemma_failed_stays_failed(t, es.drop_first());
            assert(steps_of(rest) =~= Seq::<int>::empty()) by {
                lemma_no_steps(rest);
            }
        } else {
            assert(match taken(a) {
                Some(i) => i == first_untaken(s) && first_untaken(t) == i + 1 && i < s.plan.len(),
                None => first_untaken(t) == first_untaken(s),
            }) by {
                match (s.phase, es[0]) {
                    (Phase::Ready, Event::Proceed) => {},
                    (Phase::AwaitingModuleCheck, Event::ModuleCheck(_)) => {},
                    (Phase::AwaitingInstall, Event::InstallResult(Ok(()))) => {},
                    _ => {},
                }
            }
            let st = steps_of(acts);
            assert forall|k: int| 0 <= k < st.len() implies #[trigger] st[k] == first_untaken(s) + k && st[k] < s.plan.len() by {
                match taken(a) {
                    Some(i) => {
                        assert(st == seq![i].add(steps_of(rest)));
                        if k > 0 {
                            assert(st[k] == steps_of(rest)[k - 1]);
                        }
                    },
                    None => {
                        assert(st == steps_of(rest));
                    },
                }
            }
        }
    }
}

proof fn lemma_no_steps(acts: Seq<Action>)
    requires
        forall|i: int| 0 <= i < acts.len() ==> #[trigger] acts[i] == Action::Idle,
    ensures
        steps_of(acts).len() == 0,
    decreases acts.len(),
{
    if acts.len() > 0 {
        assert(acts[0] == Action::Idle);
        let d = acts.drop_first();
        assert forall|i: int| 0 <= i < d.len() implies #[trigger] d[i] == Action::Idle by {
            assert(d[i] == acts[i + 1]);
        }
        lemma_no_steps(d);
    }
}

} // verus!

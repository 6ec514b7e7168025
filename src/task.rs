//! Region tasks: one per (region, data kind), each owning at most one
//! in-flight pipeline run. The runtime reports events; the task decides.
use vstd::prelude::*;

verus! {

/// The data kind a task ingests.
#[derive(Clone, Copy, Debug, PartialEq, Eq, Structural)]
pub enum DataKind {
    History,
    Orders,
}

/// Where a region task stands.
#[derive(Clone, Copy, Debug, PartialEq, Eq, Structural)]
pub enum TaskState {
    /// No run in flight; a trigger starts one.
    Idle,
    /// A run is in flight; triggers are dropped.
    Running,
    /// Shut down; no trigger is accepted any more.
    Stopped,
}

/// What the runtime must do after a trigger.
#[derive(Clone, Copy, Debug, PartialEq, Eq, Structural)]
pub enum TaskAction {
    /// Spawn one pipeline run for the task's region.
    Spawn,
    /// Do nothing.
    Ignore,
}

/// The trigger message that a scheduler tick sends to a task.
#[derive(Clone, Copy, Debug, PartialEq, Eq, Structural)]
pub struct StartActor;

/// The notice that the run of a region's task has ended, successfully or not.
#[derive(Clone, Copy, Debug, PartialEq, Eq, Structural)]
pub struct MarketHistoryMessage {
    pub region_id: usize,
}

/// A region task as the contracts see it.
pub struct TaskView {
    pub region_id: usize,
    pub kind: DataKind,
    pub state: TaskState,
    /// How many runs the task has started.
    pub runs_started: nat,
}

/// A task after a trigger, and what the runtime must do.
pub open spec fn on_trigger(t: TaskView) -> (TaskView, TaskAction) {
    match t.state {
        TaskState::Idle => (
            TaskView { state: TaskState::Running, runs_started: t.runs_started + 1, ..t },
            TaskAction::Spawn,
        ),
        _ => (t, TaskAction::Ignore),
    }
}

/// A task after its run ended.
pub open spec fn on_finished(t: TaskView) -> TaskView {
    match t.state {
        TaskState::Running => TaskView { state: TaskState::Idle, ..t },
        _ => t,
    }
}

/// A task after `n` triggers with no run ending in between.
pub open spec fn triggered(t: TaskView, n: nat) -> TaskView
    decreases n,
{
    if n == 0 {
        t
    } else {
        on_trigger(triggered(t, (n - 1) as nat)).0
    }
}

/// The re-entrancy guard: triggers that reach a running task start nothing,
/// so a task that one trigger started has started exactly one run however
/// many triggers follow before that run ends.
pub proof fn lemma_no_second_run(t: TaskView, n: nat)
    ensures
        t.state == TaskState::Running ==> triggered(t, n) == t,
        t.state == TaskState::Idle && n >= 1 ==> triggered(t, n).state == TaskState::Running
            && triggered(t, n).runs_started == t.runs_started + 1,
        t.state == TaskState::Idle && n >= 1 ==> forall|k: nat|
            1 <= k < n ==> (#[trigger] on_trigger(triggered(t, k))).1 == TaskAction::Ignore,
    decreases n,
{
    if n > 0 {
        lemma_no_second_run(t, (n - 1) as nat);
        if t.state == TaskState::Idle && n >= 2 {
            lemma_no_second_run(t, 1);
        }
    }
}

/// The decisions of one region task.
pub struct RegionTask {
    region_id: usize,
    kind: DataKind,
    state: TaskState,
    runs_started: u64,
}

impl View for RegionTask {
    type V = TaskView;

    closed spec fn view(&self) -> TaskView {
        TaskView {
            region_id: self.region_id,
            kind: self.kind,
            state: self.state,
            runs_started: self.runs_started as nat,
        }
    }
}

impl RegionTask {
    /// An idle task for `region_id` that has started no run.
    pub fn new(region_id: usize, kind: DataKind) -> (r: Self)
        ensures
            r@ == (TaskView { region_id, kind, state: TaskState::Idle, runs_started: 0 }),
    {
        RegionTask { region_id, kind, state: TaskState::Idle, runs_started: 0 }
    }

    pub fn region_id(&self) -> (r: usize)
        ensures
            r == self@.region_id,
    {
        self.region_id
    }

    pub fn kind(&self) -> (r: DataKind)
        ensures
            r == self@.kind,
    {
        self.kind
    }

    pub fn state(&self) -> (r: TaskState)
        ensures
            r == self@.state,
    {
        self.state
    }

    /// How many runs the task has started.
    pub fn runs_started(&self) -> (r: u64)
        ensures
            r == self@.runs_started,
    {
        self.runs_started
    }

    /// A trigger: an idle task starts a run (the runtime spawns it); a
    /// running or stopped task drops the trigger.
    pub fn handle(&mut self, msg: StartActor) -> (r: TaskAction)
        requires
            old(self)@.state == TaskState::Idle ==> old(self)@.runs_started < u64::MAX,
        ensures
            (final(self)@, r) == on_trigger(old(self)@),
    {
        match self.state {
            TaskState::Idle => {
                self.state = TaskState::Running;
                self.runs_started = self.runs_started + 1;
                TaskAction::Spawn
            },
            _ => TaskAction::Ignore,
        }
    }

    /// The run ended, with success or error: a running task becomes idle.
    pub fn finished(&mut self)
        ensures
            final(self)@ == on_finished(old(self)@),
    {
        if self.state == TaskState::Running {
            self.state = TaskState::Idle;
        }
    }

    /// Shutdown: the task stops for good. Returns whether a run is in flight,
    /// which the runtime then aborts.
    pub fn stopping(&mut self) -> (abort: bool)
        ensures
            abort == (old(self)@.state == TaskState::Running),
            final(self)@ == (TaskView { state: TaskState::Stopped, ..old(self)@ }),
    {
        let abort = self.state == TaskState::Running;
        self.state = TaskState::Stopped;
        abort
    }
}

} // verus!

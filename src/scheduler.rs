//! The scheduler's fan-out: on each tick every registered region task of one
//! data kind is triggered, and each decides for itself whether to start a run.
use vstd::prelude::*;

use crate::task::{
    on_finished, on_trigger, DataKind, MarketHistoryMessage, RegionTask, StartActor, TaskAction,
    TaskState, TaskView,
};

verus! {

/// The regions whose tasks start a run on a tick, in task order.
pub open spec fn spawned_regions(tasks: Seq<TaskView>) -> Seq<usize>
    decreases tasks.len(),
{
    if tasks.len() == 0 {
        Seq::empty()
    } else {
        let prev = spawned_regions(tasks.drop_last());
        if tasks.last().state == TaskState::Idle {
            prev.push(tasks.last().region_id)
        } else {
            prev
        }
    }
}

/// The regions whose tasks have a run in flight, in task order.
pub open spec fn running_regions(tasks: Seq<TaskView>) -> Seq<usize>
    decreases tasks.len(),
{
    if tasks.len() == 0 {
        Seq::empty()
    } else {
        let prev = running_regions(tasks.drop_last());
        if tasks.last().state == TaskState::Running {
            prev.push(tasks.last().region_id)
        } else {
            prev
        }
    }
}

/// The region tasks of one data kind, one per region of the working set.
pub struct RegionTasks {
    tasks: Vec<RegionTask>,
}

impl View for RegionTasks {
    type V = Seq<TaskView>;

    closed spec fn view(&self) -> Seq<TaskView> {
        self.tasks@.map_values(|t: RegionTask| t@)
    }
}

impl RegionTasks {
    /// An idle task of kind `kind` for each region of `regions`, in order.
    pub fn new(regions: &Vec<usize>, kind: DataKind) -> (r: Self)
        ensures
            r@.len() == regions@.len(),
            forall|k: int|
                0 <= k < regions@.len() ==> #[trigger] r@[k] == (TaskView {
                    region_id: regions@[k],
                    kind,
                    state: TaskState::Idle,
                    runs_started: 0,
                }),
    {
        let mut tasks: Vec<RegionTask> = Vec::new();
        let mut i: usize = 0;
        while i < regions.len()
            invariant
                i <= regions@.len(),
                tasks@.len() == i,
                forall|k: int|
                    0 <= k < i ==> #[trigger] tasks@[k]@ == (TaskView {
                        region_id: regions@[k],
                        kind,
                        state: TaskState::Idle,
                        runs_started: 0,
                    }),
            decreases regions@.len() - i,
        {
            tasks.push(RegionTask::new(regions[i], kind));
            i = i + 1;
        }
        let r = RegionTasks { tasks };
        assert forall|k: int| 0 <= k < regions@.len() implies #[trigger] r@[k] == (TaskView {
            region_id: regions@[k],
            kind,
            state: TaskState::Idle,
            runs_started: 0,
        }) by {
            assert(r@[k] == r.tasks@[k]@);
        }
        r
    }

    /// The task at position `i`.
    pub fn get(&self, i: usize) -> (r: &RegionTask)
        requires
            i < self@.len(),
        ensures
            r@ == self@[i as int],
    {
        &self.tasks[i]
    }

    /// The number of tasks.
    pub fn len(&self) -> (r: usize)
        ensures
            r == self@.len(),
    {
        self.tasks.len()
    }

    /// A tick: every task is triggered. Returns the regions whose task starts
    /// a run, for the runtime to spawn; running and stopped tasks start none.
    pub fn on_tick(&mut self) -> (r: Vec<usize>)
        requires
            forall|k: int|
                0 <= k < old(self)@.len() && (#[trigger] old(self)@[k]).state == TaskState::Idle
                    ==> old(self)@[k].runs_started < u64::MAX,
        ensures
            final(self)@.len() == old(self)@.len(),
            forall|k: int|
                0 <= k < old(self)@.len() ==> #[trigger] final(self)@[k] == on_trigger(old(self)@[k]).0,
            r@ == spawned_regions(old(self)@),
    {
        let ghost begin = self@;
        let mut spawned: Vec<usize> = Vec::new();
        let mut i: usize = 0;
        while i < self.tasks.len()
            invariant
                i <= self.tasks@.len(),
                self.tasks@.len() == begin.len(),
                forall|k: int|
                    0 <= k < begin.len() && (#[trigger] begin[k]).state == TaskState::Idle
                        ==> begin[k].runs_started < u64::MAX,
                forall|k: int| 0 <= k < i ==> #[trigger] self.tasks@[k]@ == on_trigger(begin[k]).0,
                forall|k: int| i <= k < begin.len() ==> #[trigger] self.tasks@[k]@ == begin[k],
                spawned@ == spawned_regions(begin.take(i as int)),
            decreases self.tasks@.len() - i,
        {
            assert(self.tasks@[i as int]@ == begin[i as int]);
            let mut task = self.tasks.remove(i);
            let action = task.handle(StartActor);
            assert(begin.take(i + 1).drop_last() =~= begin.take(i as int));
            if action == TaskAction::Spawn {
                spawned.push(task.region_id());
            }
            self.tasks.insert(i, task);
            i = i + 1;
        }
        assert(begin.take(begin.len() as int) =~= begin);
        spawned
    }

    /// A trigger for the tasks of `region_id`. Returns whether one of them
    /// starts a run, for the runtime to spawn; other tasks are not touched.
    pub fn trigger(&mut self, region_id: usize) -> (r: bool)
        requires
            forall|k: int|
                0 <= k < old(self)@.len() && (#[trigger] old(self)@[k]).region_id == region_id
                    && old(self)@[k].state == TaskState::Idle ==> old(self)@[k].runs_started < u64::MAX,
        ensures
            final(self)@.len() == old(self)@.len(),
            forall|k: int|
                0 <= k < old(self)@.len() ==> #[trigger] final(self)@[k] == if old(self)@[k].region_id
                    == region_id {
                    on_trigger(old(self)@[k]).0
                } else {
                    old(self)@[k]
                },
            r == exists|k: int|
                0 <= k < old(self)@.len() && (#[trigger] old(self)@[k]).region_id == region_id
                    && old(self)@[k].state == TaskState::Idle,
    {
        let ghost begin = self@;
        let mut spawn = false;
        let mut i: usize = 0;
        while i < self.tasks.len()
            invariant
                i <= self.tasks@.len(),
                self.tasks@.len() == begin.len(),
                forall|k: int|
                    0 <= k < begin.len() && (#[trigger] begin[k]).region_id == region_id
                        && begin[k].state == TaskState::Idle ==> begin[k].runs_started < u64::MAX,
                forall|k: int|
                    0 <= k < i ==> #[trigger] self.tasks@[k]@ == if begin[k].region_id == region_id {
                        on_trigger(begin[k]).0
                    } else {
                        begin[k]
                    },
                forall|k: int| i <= k < begin.len() ==> #[trigger] self.tasks@[k]@ == begin[k],
                spawn == exists|k: int|
                    0 <= k < i && (#[trigger] begin[k]).region_id == region_id && begin[k].state
                        == TaskState::Idle,
            decreases self.tasks@.len() - i,
        {
            assert(self.tasks@[i as int]@ == begin[i as int]);
            if self.tasks[i].region_id() == region_id {
                let mut task = self.tasks.remove(i);
                if task.handle(StartActor) == TaskAction::Spawn {
                    spawn = true;
                }
                self.tasks.insert(i, task);
            }
            i = i + 1;
        }
        spawn
    }

    /// The run of `msg.region_id` ended: its running tasks become idle.
    pub fn finished(&mut self, msg: MarketHistoryMessage)
        ensures
            final(self)@.len() == old(self)@.len(),
            forall|k: int|
                0 <= k < old(self)@.len() ==> #[trigger] final(self)@[k] == if old(self)@[k].region_id
                    == msg.region_id {
                    on_finished(old(self)@[k])
                } else {
                    old(self)@[k]
                },
    {
        let ghost begin = self@;
        let mut i: usize = 0;
        while i < self.tasks.len()
            invariant
                i <= self.tasks@.len(),
                self.tasks@.len() == begin.len(),
                forall|k: int|
                    0 <= k < i ==> #[trigger] self.tasks@[k]@ == if begin[k].region_id
                        == msg.region_id {
                        on_finished(begin[k])
                    } else {
                        begin[k]
                    },
                forall|k: int| i <= k < begin.len() ==> #[trigger] self.tasks@[k]@ == begin[k],
            decreases self.tasks@.len() - i,
        {
            assert(self.tasks@[i as int]@ == begin[i as int]);
            if self.tasks[i].region_id() == msg.region_id {
                let mut task = self.tasks.remove(i);
                task.finished();
                self.tasks.insert(i, task);
            }
            i = i + 1;
        }
    }

    /// Shutdown: every task stops for good. Returns the regions whose run is
    /// in flight, for the runtime to abort.
    pub fn stopping(&mut self) -> (r: Vec<usize>)
        ensures
            final(self)@.len() == old(self)@.len(),
            forall|k: int|
                0 <= k < old(self)@.len() ==> #[trigger] final(self)@[k] == (TaskView {
                    state: TaskState::Stopped,
                    ..old(self)@[k]
                }),
            r@ == running_regions(old(self)@),
    {
        let ghost begin = self@;
        let mut running: Vec<usize> = Vec::new();
        let mut i: usize = 0;
        while i < self.tasks.len()
            invariant
                i <= self.tasks@.len(),
                self.tasks@.len() == begin.len(),
                forall|k: int|
                    0 <= k < i ==> #[trigger] self.tasks@[k]@ == (TaskView {
                        state: TaskState::Stopped,
                        ..begin[k]
                    }),
                forall|k: int| i <= k < begin.len() ==> #[trigger] self.tasks@[k]@ == begin[k],
                running@ == running_regions(begin.take(i as int)),
            decreases self.tasks@.len() - i,
        {
            assert(self.tasks@[i as int]@ == begin[i as int]);
            let mut task = self.tasks.remove(i);
            let abort = task.stopping();
            assert(begin.take(i + 1).drop_last() =~= begin.take(i as int));
            if abort {
                running.push(task.region_id());
            }
            self.tasks.insert(i, task);
            i = i + 1;
        }
        assert(begin.take(begin.len() as int) =~= begin);
        running
    }
}

/// A cron-driven trigger source for the tasks of one data kind.
pub struct UpdateScheduler {
    cron: String,
    recipients: Vec<usize>,
    stopped: bool,
}

impl UpdateScheduler {
    /// A running scheduler with the cron expression `cron` (seconds
    /// resolution) that triggers the tasks of `recipients`.
    pub fn new(cron: String, recipients: Vec<usize>) -> (r: Self)
        ensures
            r.cron()@ == cron@,
            r.recipients()@ == recipients@,
            !r.is_stopped(),
    {
        UpdateScheduler { cron, recipients, stopped: false }
    }

    pub closed spec fn cron(&self) -> String {
        self.cron
    }

    pub closed spec fn recipients(&self) -> Vec<usize> {
        self.recipients
    }

    pub closed spec fn is_stopped(&self) -> bool {
        self.stopped
    }

    /// The schedule expression.
    pub fn cron_expression(&self) -> (r: &String)
        ensures
            r@ == self.cron()@,
    {
        &self.cron
    }

    /// The regions to trigger on a tick: all of them while running, none
    /// once stopped.
    pub fn tick(&self) -> (r: Vec<usize>)
        ensures
            !self.is_stopped() ==> r@ == self.recipients()@,
            self.is_stopped() ==> r@.len() == 0,
    {
        let mut out: Vec<usize> = Vec::new();
        if self.stopped {
            return out;
        }
        let mut i: usize = 0;
        while i < self.recipients.len()
            invariant
                i <= self.recipients@.len(),
                out@ == self.recipients@.take(i as int),
            decreases self.recipients@.len() - i,
        {
            out.push(self.recipients[i]);
            assert(self.recipients@.take(i + 1) =~= self.recipients@.take(i as int).push(
                self.recipients@[i as int],
            ));
            i = i + 1;
        }
        assert(self.recipients@.take(self.recipients@.len() as int) =~= self.recipients@);
        out
    }

    /// Stops the timer; runs in flight are not affected.
    pub fn stopping(&mut self)
        ensures
            final(self).is_stopped(),
            final(self).cron() == old(self).cron(),
            final(self).recipients() == old(self).recipients(),
    {
        self.stopped = true;
    }
}

} // verus!

use noice::cache::Cache;
use noice::config::AppConfig;
use noice::scheduler::{RegionTasks, UpdateScheduler};
use noice::task::{DataKind, MarketHistoryMessage, RegionTask, StartActor, TaskAction, TaskState};

#[test]
fn a_second_trigger_while_running_starts_nothing() {
    let mut task = RegionTask::new(10000002, DataKind::History);
    assert_eq!(task.handle(StartActor), TaskAction::Spawn);
    assert_eq!(task.runs_started(), 1);
    assert_eq!(task.handle(StartActor), TaskAction::Ignore);
    assert_eq!(task.handle(StartActor), TaskAction::Ignore);
    assert_eq!(task.runs_started(), 1);
    assert_eq!(task.state(), TaskState::Running);
}

#[test]
fn a_finished_task_can_run_again() {
    let mut task = RegionTask::new(10000043, DataKind::Orders);
    task.handle(StartActor);
    task.finished();
    assert_eq!(task.state(), TaskState::Idle);
    assert_eq!(task.handle(StartActor), TaskAction::Spawn);
    assert_eq!(task.runs_started(), 2);
}

#[test]
fn a_stopped_task_accepts_no_trigger() {
    let mut task = RegionTask::new(10000002, DataKind::Orders);
    task.handle(StartActor);
    assert!(task.stopping());
    assert_eq!(task.state(), TaskState::Stopped);
    assert_eq!(task.handle(StartActor), TaskAction::Ignore);
    assert_eq!(task.runs_started(), 1);
    let mut idle = RegionTask::new(10000002, DataKind::Orders);
    assert!(!idle.stopping());
}

#[test]
fn a_tick_triggers_every_region_once() {
    let mut tasks = RegionTasks::new(&vec![10000002, 10000043], DataKind::Orders);
    assert_eq!(tasks.on_tick(), vec![10000002, 10000043]);
    assert_eq!(tasks.on_tick(), Vec::<usize>::new());
    tasks.finished(MarketHistoryMessage { region_id: 10000043 });
    assert_eq!(tasks.on_tick(), vec![10000043]);
    assert_eq!(tasks.get(0).runs_started(), 1);
    assert_eq!(tasks.get(1).runs_started(), 2);
    assert_eq!(tasks.stopping(), vec![10000002, 10000043]);
    assert_eq!(tasks.on_tick(), Vec::<usize>::new());
    assert_eq!(tasks.len(), 2);
}

#[test]
fn a_stopped_scheduler_triggers_nothing() {
    let mut scheduler = UpdateScheduler::new("0 0 12 * * * *".to_string(), vec![10000002, 10000043]);
    assert_eq!(scheduler.cron_expression(), "0 0 12 * * * *");
    assert_eq!(scheduler.tick(), vec![10000002, 10000043]);
    scheduler.stopping();
    assert_eq!(scheduler.tick(), Vec::<usize>::new());
}

#[test]
fn configured_region_ids() {
    let config = AppConfig::from_regions(vec![
        ("The Forge".to_string(), 10000002),
        ("Domain".to_string(), 10000043),
    ])
    .unwrap();
    assert_eq!(config.region_ids(), vec![10000002, 10000043]);
    let twice = AppConfig::from_regions(vec![
        ("The Forge".to_string(), 10000002),
        ("The Forge".to_string(), 10000043),
    ]);
    assert!(twice.is_none());
}

#[test]
fn a_cached_value_expires() {
    let mut cache: Cache<u32> = Cache::new(60);
    assert_eq!(cache.get_at(0), None);
    cache.set_at(7, 1000);
    assert_eq!(cache.get_at(1060), Some(&7));
    assert_eq!(cache.get_at(1061), None);
    assert!(cache.set(8));
    assert_eq!(cache.get(), Some(Some(&8)));
}

#[test]
fn a_trigger_reaches_only_its_region() {
    let mut tasks = RegionTasks::new(&vec![10000002, 10000043], DataKind::History);
    assert!(tasks.trigger(10000043));
    assert!(!tasks.trigger(10000043));
    assert_eq!(tasks.get(0).state(), TaskState::Idle);
    assert_eq!(tasks.get(1).state(), TaskState::Running);
    assert!(!tasks.trigger(12345));
    assert!(tasks.trigger(10000002));
}

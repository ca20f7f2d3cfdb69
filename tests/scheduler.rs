use planner::repetitions::{
    CustomRepetition, NoCustomRepetition, RepetitionCount, RepetitionType, WEEK_MILLIS,
};
use planner::schedulers::{
    BlockingScheduler, Lane, NextStep, ScheduledTask, SchedulerError, SchedulerReadingHandler,
};
use planner::sleeptype::{SleepType, SpinSettings, SpinStrategy};
use planner::timestamp::Timestamp;
use std::cmp::Ordering;

const NOW: i64 = 1_700_000_000_000;

fn ts(millis: i64) -> Timestamp {
    Timestamp { millis, offset: 0 }
}

fn task(payload: u32, millis: i64, repetition: RepetitionType) -> ScheduledTask<u32> {
    ScheduledTask::new(ts(millis), payload, repetition, SleepType::Native)
}

fn lane(name: &str, tasks: Vec<ScheduledTask<u32>>) -> Lane<u32> {
    Lane { name: name.to_string(), tasks }
}

/// Runs a lane to its end on a simulated clock, returning each firing's instant and payload.
fn run_simulated<C: CustomRepetition>(
    s: &mut BlockingScheduler<u32, C>,
    mode: &str,
    start: i64,
    max_firings: usize,
) -> Result<Vec<(i64, u32)>, SchedulerError> {
    let mut now = ts(start);
    let mut run = s.start_lane(mode, &now)?;
    let mut fired = Vec::new();
    while fired.len() < max_firings {
        match run.next_step(&now) {
            NextStep::Finished => break,
            NextStep::OutOfRange(d) => {
                s.finish_lane(mode, run);
                return Err(SchedulerError::DateOutOfRange(d));
            }
            NextStep::Sleep { millis, .. } => {
                now.millis += millis as i64;
                fired.push((now.millis, run.get_current_task().unwrap().task));
                s.update_after_firing(&mut run, &now);
            }
        }
    }
    s.finish_lane(mode, run);
    Ok(fired)
}

fn history(s: &BlockingScheduler<u32, impl CustomRepetition>, mode: &str) -> Vec<u32> {
    s.removed_from(mode).unwrap().iter().map(|t| t.task).collect()
}

fn lane_tasks(s: &BlockingScheduler<u32, impl CustomRepetition>, mode: &str) -> Vec<u32> {
    s.scheduled_tasks()
        .iter()
        .find(|l| l.name == mode)
        .unwrap()
        .tasks
        .iter()
        .map(|t| t.task)
        .collect()
}

#[test]
fn overdue_once_task_is_caught_up_and_never_fired() {
    let mut s = BlockingScheduler::new(
        vec![lane("daily", vec![task(1, NOW - 2_000, RepetitionType::Once)])],
        vec![],
    )
    .unwrap();
    let fired = run_simulated(&mut s, "daily", NOW, 10).unwrap();
    assert!(fired.is_empty());
    assert_eq!(history(&s, "daily"), vec![1]);
    assert!(lane_tasks(&s, "daily").is_empty());
}

#[test]
fn weekly_task_with_two_repetitions_fires_twice_a_week_apart() {
    let mut s = BlockingScheduler::new(
        vec![lane(
            "weekly",
            vec![task(7, NOW, RepetitionType::Weekly(RepetitionCount::Finite(2)))],
        )],
        vec![],
    )
    .unwrap();
    let fired = run_simulated(&mut s, "weekly", NOW, 10).unwrap();
    assert_eq!(fired.len(), 2);
    assert_eq!(fired[1].0 - fired[0].0, WEEK_MILLIS);
    assert_eq!(fired[0], (NOW + WEEK_MILLIS, 7));
    let removed = s.removed_from("weekly").unwrap();
    assert_eq!(removed.len(), 1);
    assert_eq!(removed[0].task, 7);
    assert_eq!(
        removed[0].repetition,
        RepetitionType::Weekly(RepetitionCount::Finite(0))
    );
    assert!(lane_tasks(&s, "weekly").is_empty());
}

#[test]
fn unknown_lane_is_reported_and_nothing_changes() {
    let mut s = BlockingScheduler::new(
        vec![lane("daily", vec![task(1, NOW + 10, RepetitionType::Once)])],
        vec![],
    )
    .unwrap();
    match s.start_lane("missing", &ts(NOW)) {
        Err(SchedulerError::UnknownLane(name)) => assert_eq!(name, "missing"),
        other => panic!("unexpected result: {:?}", other.map(|_| ())),
    }
    assert_eq!(lane_tasks(&s, "daily"), vec![1]);
    assert!(history(&s, "daily").is_empty());
    assert_eq!(s.scheduled_tasks().len(), 1);
    assert_eq!(s.removed_tasks().len(), 1);
}

#[test]
fn once_lane_empties_into_history_in_due_date_order() {
    let mut s = BlockingScheduler::new(
        vec![lane(
            "jobs",
            vec![
                task(3, NOW + 3_000, RepetitionType::Once),
                task(1, NOW + 1_000, RepetitionType::Once),
                task(0, NOW - 500, RepetitionType::Once),
                task(2, NOW + 2_000, RepetitionType::Once),
            ],
        )],
        vec![],
    )
    .unwrap();
    let fired = run_simulated(&mut s, "jobs", NOW, 10).unwrap();
    assert_eq!(fired, vec![(NOW + 1_000, 1), (NOW + 2_000, 2), (NOW + 3_000, 3)]);
    assert_eq!(history(&s, "jobs"), vec![0, 1, 2, 3]);
    assert!(lane_tasks(&s, "jobs").is_empty());
}

#[test]
fn tasks_due_together_keep_their_order() {
    let mut s = BlockingScheduler::new(
        vec![lane(
            "ties",
            vec![
                task(5, NOW + 1_000, RepetitionType::Once),
                task(6, NOW + 1_000, RepetitionType::Once),
                task(4, NOW + 500, RepetitionType::Once),
            ],
        )],
        vec![],
    )
    .unwrap();
    run_simulated(&mut s, "ties", NOW, 10).unwrap();
    assert_eq!(history(&s, "ties"), vec![4, 5, 6]);
}

#[test]
fn history_gains_an_entry_for_every_lane() {
    let old = vec![lane("archive", vec![task(9, NOW - 1, RepetitionType::Once)])];
    let s = BlockingScheduler::new(
        vec![lane("a", vec![]), lane("archive", vec![]), lane("b", vec![])],
        old,
    )
    .unwrap();
    let names: Vec<&str> = s.removed_tasks().iter().map(|l| l.name.as_str()).collect();
    assert_eq!(names, vec!["archive", "a", "b"]);
    assert_eq!(history(&s, "archive"), vec![9]);
    assert!(history(&s, "a").is_empty());
    assert!(history(&s, "b").is_empty());
    assert_eq!(s.removed_from("zzz").map(|v| v.len()), None);
}

#[test]
fn duplicate_lane_names_are_refused() {
    let r = BlockingScheduler::new(vec![lane("a", vec![]), lane("a", vec![])], vec![]);
    assert!(matches!(r, Err(SchedulerError::DuplicateLane(ref n)) if n == "a"));
    let r = BlockingScheduler::new(vec![], vec![lane("h", vec![]), lane("h", vec![])]);
    assert!(matches!(r, Err(SchedulerError::DuplicateLane(ref n)) if n == "h"));
}

#[test]
fn custom_task_without_handler_is_refused() {
    let mut s = BlockingScheduler::new(
        vec![lane("c", vec![task(1, NOW + 10, RepetitionType::Custom)])],
        vec![],
    )
    .unwrap();
    assert!(matches!(
        s.start_lane("c", &ts(NOW)),
        Err(SchedulerError::MisconfiguredCustomRepetition)
    ));
    assert_eq!(lane_tasks(&s, "c"), vec![1]);
}

#[test]
fn non_positive_gap_is_refused() {
    let rule = RepetitionType::ConstGap { gap: 0, count: RepetitionCount::Infinite };
    let mut s = BlockingScheduler::new(vec![lane("g", vec![task(1, NOW + 10, rule)])], vec![])
        .unwrap();
    assert!(matches!(s.start_lane("g", &ts(NOW)), Err(SchedulerError::InvalidGap)));
    assert_eq!(lane_tasks(&s, "g"), vec![1]);
}

#[test]
fn const_gap_task_fires_until_budget_is_used() {
    let rule = RepetitionType::ConstGap { gap: 1_000, count: RepetitionCount::Finite(3) };
    let mut s =
        BlockingScheduler::new(vec![lane("g", vec![task(1, NOW + 500, rule)])], vec![]).unwrap();
    let fired = run_simulated(&mut s, "g", NOW, 10).unwrap();
    assert_eq!(fired, vec![(NOW + 500, 1), (NOW + 1_500, 1), (NOW + 2_500, 1)]);
    assert_eq!(history(&s, "g"), vec![1]);
}

#[test]
fn catch_up_does_not_use_the_budget() {
    let rule = RepetitionType::ConstGap { gap: 1_000, count: RepetitionCount::Finite(2) };
    // Due 10.5 gaps ago: caught up to NOW + 500 without firing.
    let mut s =
        BlockingScheduler::new(vec![lane("g", vec![task(1, NOW - 10_500, rule)])], vec![])
            .unwrap();
    let fired = run_simulated(&mut s, "g", NOW, 10).unwrap();
    assert_eq!(fired, vec![(NOW + 500, 1), (NOW + 1_500, 1)]);
}

#[test]
fn date_behind_the_clock_is_out_of_range_and_progress_is_kept() {
    let mut s = BlockingScheduler::new(
        vec![lane(
            "late",
            vec![task(1, NOW + 100, RepetitionType::Once), task(2, NOW + 200, RepetitionType::Once)],
        )],
        vec![],
    )
    .unwrap();
    let mut run = s.start_lane("late", &ts(NOW)).unwrap();
    assert_eq!(
        run.next_step(&ts(NOW)),
        NextStep::Sleep { millis: 100, sleep_type: SleepType::Native }
    );
    s.update_after_firing(&mut run, &ts(NOW + 100));
    // The clock has moved past the second task before the runner looks again.
    assert_eq!(run.next_step(&ts(NOW + 250)), NextStep::OutOfRange(ts(NOW + 200)));
    s.finish_lane("late", run);
    assert_eq!(history(&s, "late"), vec![1]);
    assert_eq!(lane_tasks(&s, "late"), vec![2]);
}

#[test]
fn next_step_reports_the_sleep_type_of_the_earliest_task() {
    let spin = SleepType::SpinSleep(SpinSettings {
        native_accuracy_ns: 125_000,
        spin_strategy: SpinStrategy::SpinLoopHint,
    });
    let run = SchedulerReadingHandler::new(vec![
        ScheduledTask::new(ts(NOW + 90), 2u32, RepetitionType::Once, SleepType::Native),
        ScheduledTask::new(ts(NOW + 40), 1u32, RepetitionType::Once, spin),
    ]);
    assert_eq!(run.next_step(&ts(NOW)), NextStep::Sleep { millis: 40, sleep_type: spin });
    assert_eq!(run.get_current_task().unwrap().task, 1);
    let empty: SchedulerReadingHandler<u32> = SchedulerReadingHandler::new(vec![]);
    assert_eq!(empty.next_step(&ts(NOW)), NextStep::Finished);
    assert!(empty.get_current_task().is_none());
}

#[test]
fn catch_up_pass_moves_weekly_task_and_resorts() {
    let mut run = SchedulerReadingHandler::new(vec![
        task(1, NOW - 1_000, RepetitionType::Weekly(RepetitionCount::Finite(1))),
        task(2, NOW + 5_000, RepetitionType::Once),
    ]);
    run.update_outdated_tasks(&NoCustomRepetition, &ts(NOW));
    let order: Vec<u32> = run.current_tasks().iter().map(|t| t.task).collect();
    assert_eq!(order, vec![2, 1]);
    assert_eq!(run.current_tasks()[1].date, ts(NOW - 1_000 + WEEK_MILLIS));
    assert_eq!(
        run.current_tasks()[1].repetition,
        RepetitionType::Weekly(RepetitionCount::Finite(1))
    );
    assert!(run.removed_tasks().is_empty());
}

#[test]
fn fire_pass_removes_exhausted_task() {
    let mut run = SchedulerReadingHandler::new(vec![task(
        1,
        NOW,
        RepetitionType::Monthly(RepetitionCount::Finite(1)),
    )]);
    run.update_outdated_tasks_and_repetition_count(&NoCustomRepetition, &ts(NOW));
    assert!(run.current_tasks().is_empty());
    assert_eq!(run.removed_tasks().len(), 1);
    assert_eq!(
        run.removed_tasks()[0].repetition,
        RepetitionType::Monthly(RepetitionCount::Finite(0))
    );
}

#[test]
fn remove_task_moves_it_to_the_removed_tasks() {
    let mut run = SchedulerReadingHandler::new(vec![
        task(1, NOW, RepetitionType::Once),
        task(2, NOW + 1, RepetitionType::Once),
    ]);
    run.remove_task(1);
    assert_eq!(run.current_tasks().len(), 1);
    assert_eq!(run.removed_tasks()[0].task, 2);
}

#[test]
fn tasks_compare_by_due_date_only() {
    let a = task(9, NOW, RepetitionType::Once);
    let b = task(1, NOW, RepetitionType::Weekly(RepetitionCount::Infinite));
    let c = task(5, NOW + 1, RepetitionType::Once);
    assert_eq!(a.compare_due(&b), Ordering::Equal);
    assert_eq!(a.compare_due(&c), Ordering::Less);
    assert_eq!(c.compare_due(&b), Ordering::Greater);
}

#[test]
fn has_mode_tells_lanes_apart() {
    let s = BlockingScheduler::new(vec![lane("x", vec![])], vec![]).unwrap();
    assert!(s.has_mode("x"));
    assert!(!s.has_mode("y"));
}

/// Moves a task on by one hour, twice, then stops it.
struct Hourly;

impl CustomRepetition for Hourly {
    fn handles_custom(&self) -> bool {
        true
    }

    fn next_date(&self, _now: Timestamp, current: Timestamp) -> Option<Timestamp> {
        if current.millis >= NOW + 2 * 3_600_000 {
            None
        } else {
            Some(Timestamp { millis: current.millis + 3_600_000, offset: current.offset })
        }
    }

    fn is_available(&self) -> bool {
        true
    }

    fn update_date(&self, now: &Timestamp, current_date: &Timestamp) -> Option<Timestamp> {
        self.next_date(*now, *current_date)
    }
}

#[test]
fn custom_handler_decides_the_recurrence() {
    let mut s = BlockingScheduler::new_with_custom_repetition(
        vec![lane("c", vec![task(4, NOW, RepetitionType::Custom)])],
        vec![],
        Hourly,
    )
    .unwrap();
    let fired = run_simulated(&mut s, "c", NOW - 1, 10).unwrap();
    assert_eq!(
        fired,
        vec![(NOW, 4), (NOW + 3_600_000, 4), (NOW + 2 * 3_600_000, 4)]
    );
    assert_eq!(history(&s, "c"), vec![4]);
}

#[test]
fn rebuilding_from_own_lanes_and_history_changes_nothing() {
    let mut s = BlockingScheduler::new(
        vec![
            lane("a", vec![task(1, NOW - 5, RepetitionType::Once), task(2, NOW + 5, RepetitionType::Once)]),
            lane("b", vec![task(3, NOW + 9, RepetitionType::Weekly(RepetitionCount::Infinite))]),
        ],
        vec![],
    )
    .unwrap();
    let run = s.start_lane("a", &ts(NOW)).unwrap();
    s.finish_lane("a", run);
    let rebuilt =
        BlockingScheduler::new(s.scheduled_tasks().clone(), s.removed_tasks().clone()).unwrap();
    let names = |v: &Vec<Lane<u32>>| -> Vec<(String, Vec<u32>)> {
        v.iter().map(|l| (l.name.clone(), l.tasks.iter().map(|t| t.task).collect())).collect()
    };
    assert_eq!(names(rebuilt.scheduled_tasks()), names(s.scheduled_tasks()));
    assert_eq!(names(rebuilt.removed_tasks()), names(s.removed_tasks()));
    assert_eq!(names(s.removed_tasks()), vec![("a".to_string(), vec![1]), ("b".to_string(), vec![])]);
    assert_eq!(names(s.scheduled_tasks()), vec![("a".to_string(), vec![2]), ("b".to_string(), vec![3])]);
}

#[test]
fn negative_gap_is_refused() {
    let rule = RepetitionType::ConstGap { gap: -5, count: RepetitionCount::Finite(1) };
    let mut s = BlockingScheduler::new(vec![lane("n", vec![task(1, NOW, rule)])], vec![])
        .unwrap();
    assert!(matches!(s.start_lane("n", &ts(NOW)), Err(SchedulerError::InvalidGap)));
}

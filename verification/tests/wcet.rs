use lib::wcet::summarize;
use lib::{
    analyze_schedule, profile_task, AnalysisError, Duration, ScheduleConfig, StringHashMap,
    SystemConfig, TaskConfig,
};
use std::time::Instant;

// Helper to create a dummy ScheduleConfig
fn create_test_config(tick_rate_hz: u32, major_cycle_frames: usize) -> ScheduleConfig {
    ScheduleConfig {
        system: SystemConfig { tick_rate_hz, major_cycle_frames },
        tasks: vec![
            TaskConfig { name: "t1".to_string(), func: "t1_func".to_string(), frames: vec![0, 2] },
            TaskConfig { name: "t2".to_string(), func: "t2_func".to_string(), frames: vec![1] },
        ],
    }
}

#[test]
fn test_analyze_schedule_success() {
    let config = create_test_config(1000, 3); // 1 ms (1000 us) frame budget
    let mut task_wcets = StringHashMap::new();
    task_wcets.insert("t1".to_string(), Duration::from_micros(300));
    task_wcets.insert("t2".to_string(), Duration::from_micros(600));

    let res = analyze_schedule(&config, &task_wcets);
    assert!(res.is_ok());
    let report = res.unwrap();
    assert_eq!(report.has_overruns, false);

    // Frame 0 budget: 1ms. Contains t1 (300us). Remaining: 700us.
    assert_eq!(report.frame_reports[0].total_wcet, Duration::from_micros(300));
    assert_eq!(report.frame_reports[0].remaining, Duration::from_micros(700));
    assert_eq!(report.frame_reports[0].overrun, false);

    // Frame 1 budget: 1ms. Contains t2 (600us). Remaining: 400us.
    assert_eq!(report.frame_reports[1].total_wcet, Duration::from_micros(600));
    assert_eq!(report.frame_reports[1].remaining, Duration::from_micros(400));
    assert_eq!(report.frame_reports[1].overrun, false);

    // Frame 2 budget: 1ms. Contains t1 (300us). Remaining: 700us.
    assert_eq!(report.frame_reports[2].total_wcet, Duration::from_micros(300));
    assert_eq!(report.frame_reports[2].remaining, Duration::from_micros(700));
    assert_eq!(report.frame_reports[2].overrun, false);
}

#[test]
fn test_analyze_schedule_overrun() {
    let config = create_test_config(1000, 3);
    let mut task_wcets = StringHashMap::new();
    // t2 WCET is 1200us, which exceeds 1000us budget
    task_wcets.insert("t1".to_string(), Duration::from_micros(300));
    task_wcets.insert("t2".to_string(), Duration::from_micros(1200));

    let res = analyze_schedule(&config, &task_wcets);
    assert!(res.is_ok());
    let report = res.unwrap();
    assert_eq!(report.has_overruns, true);
    assert_eq!(report.frame_reports[1].overrun, true);
    assert_eq!(report.frame_reports[1].total_wcet, Duration::from_micros(1200));
}

#[test]
fn test_analyze_schedule_missing_task_wcet() {
    let config = create_test_config(1000, 3);
    let mut task_wcets = StringHashMap::new();
    task_wcets.insert("t1".to_string(), Duration::from_micros(300));
    // t2 WCET is missing!

    let res = analyze_schedule(&config, &task_wcets);
    assert_eq!(res, Err(AnalysisError::MissingTaskWcet("t2".to_string())));
}

#[test]
fn test_analyze_schedule_zero_tick_rate() {
    let config = create_test_config(0, 3);
    let mut task_wcets = StringHashMap::new();
    task_wcets.insert("t1".to_string(), Duration::from_micros(300));
    task_wcets.insert("t2".to_string(), Duration::from_micros(300));

    let res = analyze_schedule(&config, &task_wcets);
    assert_eq!(res, Err(AnalysisError::ZeroTickRate));
}

// A dummy workload for profiling
fn dummy_task() {
    // Spin for a tiny bit
    let start = Instant::now();
    while start.elapsed() < std::time::Duration::from_micros(10) {}
}

#[test]
fn test_profile_task_execution() {
    let stats = profile_task(dummy_task, 10);
    assert!(stats.min > Duration::from_secs(0));
    assert!(stats.max >= stats.min);
    assert!(stats.avg >= stats.min);
    assert!(stats.avg <= stats.max);
}

#[test]
fn test_profile_task_zero_iterations() {
    let stats = profile_task(dummy_task, 0);
    assert_eq!(stats.min, Duration::zero());
    assert_eq!(stats.max, Duration::zero());
    assert_eq!(stats.avg, Duration::zero());
}

#[test]
fn overrun_remaining_is_zero_and_fitting_frames_balance() {
    let config = create_test_config(1000, 3);
    let mut task_wcets = StringHashMap::new();
    task_wcets.insert("t1".to_string(), Duration::from_micros(1000));
    task_wcets.insert("t2".to_string(), Duration::from_micros(1001));

    let report = analyze_schedule(&config, &task_wcets).unwrap();
    assert_eq!(report.frame_reports.len(), 3);
    // Exactly at the budget is not an overrun.
    assert_eq!(report.frame_reports[0].overrun, false);
    assert_eq!(report.frame_reports[0].remaining, Duration::zero());
    assert_eq!(report.frame_reports[1].overrun, true);
    assert_eq!(report.frame_reports[1].remaining, Duration::zero());
    assert_eq!(report.has_overruns, true);
    for (i, fr) in report.frame_reports.iter().enumerate() {
        assert_eq!(fr.frame_index, i);
        assert_eq!(fr.budget, Duration::from_micros(1000));
    }
}

#[test]
fn frame_loads_sum_tasks_and_ignore_frames_outside_the_cycle() {
    let config = ScheduleConfig {
        system: SystemConfig { tick_rate_hz: 10, major_cycle_frames: 2 },
        tasks: vec![
            TaskConfig { name: "a".to_string(), func: "fa".to_string(), frames: vec![0, 1, 0, 7] },
            TaskConfig { name: "b".to_string(), func: "fb".to_string(), frames: vec![1] },
        ],
    };
    let mut task_wcets = StringHashMap::new();
    task_wcets.insert("a".to_string(), Duration::from_micros(20_000));
    task_wcets.insert("b".to_string(), Duration::from_micros(5_000));

    let report = analyze_schedule(&config, &task_wcets).unwrap();
    assert_eq!(report.frame_reports.len(), 2);
    // Frame 0 lists task a twice.
    assert_eq!(report.frame_reports[0].total_wcet, Duration::from_micros(40_000));
    assert_eq!(report.frame_reports[1].total_wcet, Duration::from_micros(25_000));
    // A 10 Hz tick gives a 100 ms frame.
    assert_eq!(report.frame_reports[0].budget, Duration::from_micros(100_000));
    assert_eq!(report.frame_reports[0].remaining, Duration::from_micros(60_000));
    assert_eq!(report.has_overruns, false);
}

#[test]
fn budget_is_a_whole_number_of_microseconds() {
    let config = ScheduleConfig {
        system: SystemConfig { tick_rate_hz: 3, major_cycle_frames: 1 },
        tasks: vec![],
    };
    let task_wcets = StringHashMap::new();
    let report = analyze_schedule(&config, &task_wcets).unwrap();
    assert_eq!(report.frame_reports[0].budget, Duration::from_micros(333_333));
    assert_eq!(report.frame_reports[0].total_wcet, Duration::zero());
}

#[test]
fn the_first_missing_task_is_reported() {
    let config = ScheduleConfig {
        system: SystemConfig { tick_rate_hz: 1000, major_cycle_frames: 1 },
        tasks: vec![
            TaskConfig { name: "x".to_string(), func: "fx".to_string(), frames: vec![0] },
            TaskConfig { name: "y".to_string(), func: "fy".to_string(), frames: vec![0] },
            TaskConfig { name: "z".to_string(), func: "fz".to_string(), frames: vec![0] },
        ],
    };
    let mut task_wcets = StringHashMap::new();
    task_wcets.insert("x".to_string(), Duration::from_micros(1));
    let res = analyze_schedule(&config, &task_wcets);
    assert_eq!(res, Err(AnalysisError::MissingTaskWcet("y".to_string())));
}

#[test]
fn zero_tick_rate_is_reported_before_missing_tasks() {
    let config = create_test_config(0, 3);
    let task_wcets = StringHashMap::new();
    assert_eq!(analyze_schedule(&config, &task_wcets), Err(AnalysisError::ZeroTickRate));
}

#[test]
fn empty_cycle_gives_an_empty_report() {
    let config = create_test_config(1000, 0);
    let mut task_wcets = StringHashMap::new();
    task_wcets.insert("t1".to_string(), Duration::from_micros(300));
    task_wcets.insert("t2".to_string(), Duration::from_micros(300));
    let report = analyze_schedule(&config, &task_wcets).unwrap();
    assert_eq!(report.frame_reports.len(), 0);
    assert_eq!(report.has_overruns, false);
}

#[test]
fn profile_stats_are_ordered() {
    let stats = profile_task(dummy_task, 3);
    assert!(stats.min <= stats.max);
    assert!(stats.min >= Duration::from_micros(10));
}

#[test]
fn summarize_gives_min_max_and_mean() {
    let samples = vec![
        Duration::from_micros(300),
        Duration::from_micros(100),
        Duration::from_micros(200),
    ];
    let stats = summarize(&samples);
    assert_eq!(stats.min, Duration::from_micros(100));
    assert_eq!(stats.max, Duration::from_micros(300));
    assert_eq!(stats.avg, Duration::from_micros(200));
}

#[test]
fn summarize_rounds_the_mean_down() {
    let samples = vec![Duration::from_micros(1), Duration::from_micros(2)];
    let stats = summarize(&samples);
    assert_eq!(stats.avg.as_nanos(), 1_500);
    let samples = vec![Duration::from_micros(1), Duration::from_micros(1), Duration::from_micros(2)];
    assert_eq!(summarize(&samples).avg.as_nanos(), 1_333);
}

#[test]
fn summarize_of_no_sample_is_zero() {
    let stats = summarize(&Vec::new());
    assert_eq!(stats.min, Duration::zero());
    assert_eq!(stats.max, Duration::zero());
    assert_eq!(stats.avg, Duration::zero());
}

#[test]
fn task_order_does_not_change_the_report() {
    let config = create_test_config(1000, 3);
    let reordered = ScheduleConfig {
        system: SystemConfig { tick_rate_hz: 1000, major_cycle_frames: 3 },
        tasks: vec![config.tasks[1].clone(), config.tasks[0].clone()],
    };
    let mut task_wcets = StringHashMap::new();
    task_wcets.insert("t1".to_string(), Duration::from_micros(300));
    task_wcets.insert("t2".to_string(), Duration::from_micros(1200));
    assert_eq!(
        analyze_schedule(&config, &task_wcets),
        analyze_schedule(&reordered, &task_wcets)
    );
}

#[test]
fn out_of_range_slots_do_not_change_the_report() {
    let config = create_test_config(1000, 3);
    let mut extended = config.clone();
    extended.tasks[0].frames.insert(1, 3);
    extended.tasks[0].frames.insert(0, 42);
    extended.tasks[1].frames.push(99);
    let mut task_wcets = StringHashMap::new();
    task_wcets.insert("t1".to_string(), Duration::from_micros(300));
    task_wcets.insert("t2".to_string(), Duration::from_micros(600));
    assert_eq!(
        analyze_schedule(&config, &task_wcets),
        analyze_schedule(&extended, &task_wcets)
    );
}

#[test]
fn longer_times_never_remove_an_overrun() {
    let config = create_test_config(1000, 3);
    let mut shorter = StringHashMap::new();
    shorter.insert("t1".to_string(), Duration::from_micros(300));
    shorter.insert("t2".to_string(), Duration::from_micros(1100));
    let mut longer = StringHashMap::new();
    longer.insert("t1".to_string(), Duration::from_micros(900));
    longer.insert("t2".to_string(), Duration::from_micros(1100));
    let r1 = analyze_schedule(&config, &shorter).unwrap();
    let r2 = analyze_schedule(&config, &longer).unwrap();
    for i in 0..3 {
        assert!(r1.frame_reports[i].total_wcet <= r2.frame_reports[i].total_wcet);
        assert!(r2.frame_reports[i].remaining <= r1.frame_reports[i].remaining);
        assert!(!r1.frame_reports[i].overrun || r2.frame_reports[i].overrun);
    }
    assert_eq!(r2.frame_reports[0].remaining, Duration::from_micros(100));
    assert!(r1.has_overruns && r2.has_overruns);
}

use lib::tasks::{demo_tick, dump_status, init, register_task, run_scheduler_once, TaskTable, MAX_TASKS};

#[test]
fn init_registers_idle_and_demo() {
    let mut t = TaskTable::new();
    init(&mut t);
    assert_eq!(dump_status(&t), vec![("idle", 0), ("demo", 0)]);
}

#[test]
fn empty_table_runs_nothing() {
    let mut t = TaskTable::new();
    assert_eq!(run_scheduler_once(&mut t), None);
    assert!(dump_status(&t).is_empty());
}

#[test]
fn round_robin_visits_every_task() {
    let mut t = TaskTable::new();
    init(&mut t);
    assert!(register_task(&mut t, "third"));
    let picks: Vec<Option<usize>> = (0..7).map(|_| run_scheduler_once(&mut t)).collect();
    assert_eq!(picks, vec![Some(0), Some(1), Some(2), Some(0), Some(1), Some(2), Some(0)]);
    assert_eq!(dump_status(&t), vec![("idle", 3), ("demo", 2), ("third", 2)]);
}

#[test]
fn registration_fails_when_full() {
    let mut t = TaskTable::new();
    for _ in 0..MAX_TASKS {
        assert!(register_task(&mut t, "t"));
    }
    assert!(!register_task(&mut t, "one too many"));
    assert_eq!(dump_status(&t).len(), MAX_TASKS);
}

#[test]
fn demo_reports_every_sixteenth_tick() {
    assert_eq!(demo_tick(0), (1, false));
    assert_eq!(demo_tick(15), (16, true));
    assert_eq!(demo_tick(31), (32, true));
}

#[test]
fn idle_and_demo_run_equally_often() {
    let mut t = TaskTable::new();
    init(&mut t);
    for _ in 0..2 * 25 {
        run_scheduler_once(&mut t);
    }
    assert_eq!(dump_status(&t), vec![("idle", 25), ("demo", 25)]);
}

#[test]
fn each_round_picks_every_slot_once() {
    let mut t = TaskTable::new();
    init(&mut t);
    assert!(register_task(&mut t, "third"));
    run_scheduler_once(&mut t);
    let mut picks: Vec<Option<usize>> = (0..3).map(|_| run_scheduler_once(&mut t)).collect();
    assert_eq!(picks, vec![Some(1), Some(2), Some(0)]);
    picks.sort();
    assert_eq!(picks, vec![Some(0), Some(1), Some(2)]);
}

#[test]
fn a_task_registered_after_init_starts_with_no_runs() {
    let mut t = TaskTable::new();
    init(&mut t);
    assert!(register_task(&mut t, "third"));
    assert_eq!(dump_status(&t), vec![("idle", 0), ("demo", 0), ("third", 0)]);
}

use kernel::process::ProcessId;
use kernel::scheduler::current::{self, CurrentMap};
use kernel::scheduler::task::{PriorityClass, Task, TaskId, TaskState};
use kernel::scheduler::{self, Sched, MAX_TASKS};

fn stacks() -> Vec<u64> {
    (0..MAX_TASKS as u64).map(|i| 0x10_0000 + (i + 1) * 0x4000).collect()
}

#[test]
fn spawn_hands_out_ids_in_order() {
    let mut s = Sched::new();
    let st = stacks();
    assert_eq!(scheduler::spawn(&mut s, "idle", PriorityClass::Background, 0x1000, &st), Some(TaskId(1)));
    assert_eq!(scheduler::spawn(&mut s, "shell", PriorityClass::Interactive, 0x2000, &st), Some(TaskId(2)));
    for i in 2..MAX_TASKS {
        assert_eq!(
            scheduler::spawn(&mut s, "worker", PriorityClass::Productive, 0x3000, &st),
            Some(TaskId(i as u32 + 1))
        );
    }
    assert_eq!(scheduler::spawn(&mut s, "extra", PriorityClass::RealTime, 0x4000, &st), None);
}

#[test]
fn nothing_runs_before_start() {
    let mut s = Sched::new();
    let st = stacks();
    scheduler::spawn(&mut s, "idle", PriorityClass::Background, 0x1000, &st);
    assert_eq!(scheduler::current_task_id(&s), None);
    assert_eq!(scheduler::on_tick(&mut s), None);
    assert_eq!(scheduler::tick_count(&s), 1);
    scheduler::start(&mut s);
    assert_eq!(scheduler::current_task_id(&s), Some(TaskId(1)));
}

#[test]
fn tick_switches_to_more_urgent_task() {
    let mut s = Sched::new();
    let st = stacks();
    scheduler::spawn(&mut s, "idle", PriorityClass::Background, 0x1000, &st);
    scheduler::spawn(&mut s, "shell", PriorityClass::Interactive, 0x2000, &st);
    scheduler::start(&mut s);
    assert_eq!(scheduler::on_tick(&mut s), Some((0, 1)));
    assert_eq!(scheduler::current_task_id(&s), Some(TaskId(2)));
    // The shell is running, so the only ready task is the idle one.
    assert_eq!(scheduler::on_tick(&mut s), Some((1, 0)));
    assert_eq!(scheduler::tick_count(&s), 2);
}

#[test]
fn lone_task_keeps_running() {
    let mut s = Sched::new();
    let st = stacks();
    scheduler::spawn(&mut s, "idle", PriorityClass::Background, 0x1000, &st);
    scheduler::start(&mut s);
    assert_eq!(scheduler::on_tick(&mut s), None);
    assert_eq!(scheduler::on_tick(&mut s), None);
    assert_eq!(scheduler::current_task_id(&s), Some(TaskId(1)));
    assert_eq!(scheduler::tick_count(&s), 2);
}

#[test]
fn round_robin_within_a_class() {
    let mut s = Sched::new();
    let st = stacks();
    scheduler::spawn(&mut s, "a", PriorityClass::Productive, 0x1000, &st);
    scheduler::spawn(&mut s, "b", PriorityClass::Productive, 0x1000, &st);
    scheduler::spawn(&mut s, "c", PriorityClass::Productive, 0x1000, &st);
    scheduler::start(&mut s);
    assert_eq!(scheduler::on_tick(&mut s), Some((0, 1)));
    assert_eq!(scheduler::on_tick(&mut s), Some((1, 2)));
    assert_eq!(scheduler::on_tick(&mut s), Some((2, 0)));
}

#[test]
fn blocked_task_is_skipped_until_unblocked() {
    let mut s = Sched::new();
    let st = stacks();
    scheduler::spawn(&mut s, "idle", PriorityClass::Background, 0x1000, &st);
    scheduler::spawn(&mut s, "rt", PriorityClass::RealTime, 0x2000, &st);
    scheduler::start(&mut s);
    assert_eq!(scheduler::on_tick(&mut s), Some((0, 1)));
    scheduler::block_current(&mut s);
    // The blocked real-time task gives way to the idle one.
    assert_eq!(scheduler::on_tick(&mut s), Some((1, 0)));
    assert_eq!(scheduler::on_tick(&mut s), None);
    scheduler::unblock(&mut s, TaskId(2));
    assert_eq!(scheduler::on_tick(&mut s), Some((0, 1)));
    assert_eq!(scheduler::current_task_id(&s), Some(TaskId(2)));
}

#[test]
fn unblocking_a_ready_or_unknown_task_changes_nothing() {
    let mut s = Sched::new();
    let st = stacks();
    scheduler::spawn(&mut s, "a", PriorityClass::Background, 0x1000, &st);
    scheduler::spawn(&mut s, "b", PriorityClass::Background, 0x1000, &st);
    scheduler::start(&mut s);
    scheduler::unblock(&mut s, TaskId(2));
    scheduler::unblock(&mut s, TaskId(9));
    assert_eq!(scheduler::on_tick(&mut s), Some((0, 1)));
}

#[test]
fn new_task_is_ready_with_no_ticks() {
    let t = Task::new(TaskId(3), "t", PriorityClass::RealTime, 0xdead, 0xbeef);
    assert_eq!(t.id, TaskId(3));
    assert_eq!(t.state, TaskState::Ready);
    assert_eq!(t.ticks, 0);
    assert_eq!(t.entry, 0xdead);
    assert_eq!(t.stack_top, 0xbeef);
    assert_eq!(t.priority, PriorityClass::RealTime);
}

#[test]
fn current_map_associates_and_removes() {
    let mut m = CurrentMap::new();
    assert_eq!(current::get_process(&m, TaskId(1)), None);
    current::associate(&mut m, TaskId(1), ProcessId(10));
    current::associate(&mut m, TaskId(2), ProcessId(20));
    assert_eq!(current::get_process(&m, TaskId(1)), Some(ProcessId(10)));
    assert_eq!(current::get_process(&m, TaskId(2)), Some(ProcessId(20)));
    current::remove(&mut m, TaskId(1));
    assert_eq!(current::get_process(&m, TaskId(1)), None);
    assert_eq!(current::get_process(&m, TaskId(2)), Some(ProcessId(20)));
    // A freed slot is reused.
    current::associate(&mut m, TaskId(3), ProcessId(30));
    assert_eq!(m.get_process(TaskId(3)), Some(ProcessId(30)));
}

#[test]
fn current_map_first_entry_wins() {
    let mut m = CurrentMap::new();
    m.associate(TaskId(5), ProcessId(1));
    m.associate(TaskId(5), ProcessId(2));
    assert_eq!(m.get_process(TaskId(5)), Some(ProcessId(1)));
    m.remove(TaskId(5));
    assert_eq!(m.get_process(TaskId(5)), Some(ProcessId(2)));
}

#[test]
fn current_map_holds_thirty_two_tasks() {
    let mut m = CurrentMap::new();
    for i in 1..=33u32 {
        m.associate(TaskId(i), ProcessId(i * 10));
    }
    assert_eq!(m.get_process(TaskId(32)), Some(ProcessId(320)));
    assert_eq!(m.get_process(TaskId(33)), None);
}

#[test]
fn current_process_follows_the_running_task() {
    let mut s = Sched::new();
    let st = stacks();
    let mut m = CurrentMap::new();
    scheduler::spawn(&mut s, "idle", PriorityClass::Background, 0x1000, &st);
    scheduler::spawn(&mut s, "user", PriorityClass::Interactive, 0x2000, &st);
    current::associate(&mut m, TaskId(2), ProcessId(7));
    assert_eq!(current::current_process(&s, &m), None);
    scheduler::start(&mut s);
    assert_eq!(current::current_process(&s, &m), None);
    scheduler::on_tick(&mut s);
    assert_eq!(current::current_process(&s, &m), Some(ProcessId(7)));
}

#[test]
fn precondition_checks() {
    let mut m = CurrentMap::new();
    assert!(m.can_associate());
    // Forgetting task 0 would match a free slot and take the count below zero.
    assert!(!m.can_remove(TaskId(0)));
    assert!(m.can_remove(TaskId(4)));
    m.associate(TaskId(4), ProcessId(1));
    assert!(m.can_remove(TaskId(4)));
    assert!(m.can_remove(TaskId(0)));
    let mut s = Sched::new();
    assert!(scheduler::can_tick(&s));
    scheduler::on_tick(&mut s);
    assert!(scheduler::can_tick(&s));
}

use task_core::manager::{block_current_and_run_next, ProgramImage, TaskManager};
use task_core::memory::{Segment, PTE_R};
use task_core::syscall::{sys_exit, sys_yield};
use task_core::task::{ResourceKind, TaskStatus};

fn tasks(n: usize) -> TaskManager {
    let mut m = TaskManager::new(0, 64);
    for _ in 0..n {
        let img = ProgramImage {
            segments: vec![Segment { start_va: 0x1000, end_va: 0x2000, perm: PTE_R }],
            entry: 0x1000,
            user_sp: 0x8000,
        };
        assert!(m.new_process(&img, None, 0).is_some());
    }
    assert!(m.is_idle());
    m.run_first_task();
    m
}

#[test]
fn yield_visits_ready_tasks_round_robin() {
    let mut m = tasks(4);
    let mut seen = vec![m.current_task];
    for _ in 0..8 {
        assert_eq!(sys_yield(&mut m), 0);
        seen.push(m.current_task);
    }
    assert_eq!(seen, vec![0, 1, 2, 3, 0, 1, 2, 3, 0]);
}

#[test]
fn dispatch_skips_blocked_and_exited() {
    let mut m = tasks(4);
    assert_eq!(sys_yield(&mut m), 0);
    assert_eq!(m.current_task, 1);
    assert!(block_current_and_run_next(&mut m));
    assert_eq!(m.tasks[1].inner.task_status, TaskStatus::Blocked);
    assert_eq!(m.current_task, 2);
    assert!(sys_exit(&mut m, 0));
    assert_eq!(m.current_task, 3);
    assert_eq!(sys_yield(&mut m), 0);
    assert_eq!(m.current_task, 0);
    assert_eq!(sys_yield(&mut m), 0);
    assert_eq!(m.current_task, 3);
    assert!(m.wakeup_task(1));
    assert!(!m.wakeup_task(2));
    assert_eq!(sys_yield(&mut m), 0);
    assert_eq!(m.current_task, 0);
    assert_eq!(sys_yield(&mut m), 0);
    assert_eq!(m.current_task, 1);
}

#[test]
fn single_task_yields_to_itself() {
    let mut m = tasks(1);
    assert_eq!(sys_yield(&mut m), 0);
    assert_eq!(m.current_task, 0);
    assert_eq!(m.tasks[0].inner.task_status, TaskStatus::Running);
}

#[test]
fn last_exit_leaves_nothing_to_run() {
    let mut m = tasks(2);
    assert!(sys_exit(&mut m, 1));
    assert_eq!(m.current_task, 1);
    assert!(!sys_exit(&mut m, 2));
    assert!(!m.has_current());
    assert_eq!(m.find_next_task(), None);
    assert_eq!(m.tasks[1].inner.exit_code, Some(2));
}

#[test]
fn exit_gives_frames_back() {
    let mut m = tasks(2);
    assert!(!m.frames.has_frames(63));
    assert!(m.frames.has_frames(62));
    assert!(sys_exit(&mut m, 0));
    assert!(m.frames.has_frames(63));
}

#[test]
fn resource_bookkeeping_moves_units() {
    let mut m = tasks(1);
    let t = &mut m.tasks[0];
    let inner = t.inner_exclusive_access();
    inner.mutex_alloc = vec![0, 0];
    inner.mutex_need = vec![0, 0];
    inner.record_need(ResourceKind::Mutex, 1);
    assert_eq!(inner.mutex_need, vec![0, 1]);
    inner.record_grant(ResourceKind::Mutex, 1);
    assert_eq!(inner.mutex_need, vec![0, 0]);
    assert_eq!(inner.mutex_alloc, vec![0, 1]);
    inner.record_release(ResourceKind::Mutex, 1);
    assert_eq!(inner.mutex_alloc, vec![0, 0]);
    assert!(inner.sem_alloc.is_empty());
}

#[test]
fn new_task_vectors_are_sized() {
    let m = tasks(1);
    let t = &m.tasks[0];
    assert_eq!(t.inner.mutex_alloc.len(), 0);
    assert_eq!(t.inner.get_status(), TaskStatus::Running);
    assert!(!t.inner.is_zombie());
}

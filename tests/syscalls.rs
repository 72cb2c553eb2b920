use task_core::manager::{ProgramImage, TaskManager};
use task_core::memory::{Segment, PTE_R, PTE_U, PTE_V, PTE_W, PTE_X};
use task_core::syscall::{
    sys_exec, sys_exit, sys_fork, sys_get_time, sys_getpid, sys_mmap, sys_munmap, sys_sbrk,
    sys_set_priority, sys_spawn, sys_task_info, sys_waitpid, sys_yield, TaskInfo, TimeVal,
};
use task_core::task::{TaskStatus, MAX_SYSCALL_NUM, REG_A0};

fn image(entry: usize) -> ProgramImage {
    ProgramImage {
        segments: vec![
            Segment { start_va: 0x10000, end_va: 0x12000, perm: PTE_R | PTE_X },
            Segment { start_va: 0x12000, end_va: 0x12800, perm: PTE_R | PTE_W },
            Segment { start_va: 0x1e000, end_va: 0x20000, perm: PTE_R | PTE_W },
        ],
        entry,
        user_sp: 0x20000,
    }
}

fn boot() -> TaskManager {
    let mut m = TaskManager::new(0x100, 0x400);
    assert_eq!(m.new_process(&image(0x10000), None, 0), Some(0));
    m.run_first_task();
    m
}

fn flags_at(m: &TaskManager, vpn: usize) -> Option<u8> {
    m.tasks[m.current_task].inner.memory_set.translate(vpn).map(|p| p.flags)
}

#[test]
fn mmap_munmap_scenario() {
    let mut m = boot();
    assert_eq!(sys_mmap(&mut m, 0x1000, 4096, 0x3), 0);
    assert_eq!(sys_mmap(&mut m, 0x1000, 4096, 0x3), -1);
    assert_eq!(sys_munmap(&mut m, 0x1000, 4096), 0);
    assert_eq!(sys_munmap(&mut m, 0x1000, 4096), -1);
}

#[test]
fn mmap_sets_port_bits_and_user() {
    let mut m = boot();
    assert_eq!(sys_mmap(&mut m, 0x40000, 8192, 0x5), 0);
    for vpn in [0x40usize, 0x41] {
        let pte = m.tasks[m.current_task].inner.memory_set.translate(vpn).unwrap();
        assert!(pte.is_valid());
        assert_eq!((pte.flags >> 1) & 0x7, 0x5);
        assert_ne!(pte.flags & PTE_U, 0);
    }
    assert_eq!(flags_at(&m, 0x42), None);
    assert_eq!(flags_at(&m, 0x3f), None);
}

#[test]
fn mmap_length_rounds_up_to_pages() {
    let mut m = boot();
    assert_eq!(sys_mmap(&mut m, 0x50000, 1, 0x1), 0);
    assert_eq!(flags_at(&m, 0x50), Some(PTE_V | PTE_R | PTE_U));
    assert_eq!(flags_at(&m, 0x51), None);
}

#[test]
fn munmap_clears_every_page() {
    let mut m = boot();
    assert_eq!(sys_mmap(&mut m, 0x40000, 3 * 4096, 0x7), 0);
    assert_eq!(sys_munmap(&mut m, 0x40000, 3 * 4096), 0);
    for vpn in 0x40usize..0x43 {
        assert_eq!(flags_at(&m, vpn), None);
    }
}

#[test]
fn mmap_over_mapped_page_changes_nothing() {
    let mut m = boot();
    assert_eq!(sys_mmap(&mut m, 0x40000, 2 * 4096, 0x3), 0);
    let before: Vec<_> = (0x3fusize..0x45).map(|v| m.tasks[0].inner.memory_set.translate(v)).collect();
    let free = m.frames.has_frames(0x300 - 2 - 5);
    assert_eq!(sys_mmap(&mut m, 0x3e000, 3 * 4096, 0x1), -1);
    assert_eq!(sys_mmap(&mut m, 0x41000, 4 * 4096, 0x1), -1);
    let after: Vec<_> = (0x3fusize..0x45).map(|v| m.tasks[0].inner.memory_set.translate(v)).collect();
    assert_eq!(before, after);
    assert_eq!(free, m.frames.has_frames(0x300 - 2 - 5));
}

#[test]
fn munmap_over_unmapped_page_changes_nothing() {
    let mut m = boot();
    assert_eq!(sys_mmap(&mut m, 0x40000, 2 * 4096, 0x3), 0);
    assert_eq!(sys_munmap(&mut m, 0x40000, 3 * 4096), -1);
    assert_eq!(sys_munmap(&mut m, 0x3f000, 2 * 4096), -1);
    assert_eq!(flags_at(&m, 0x40), Some(PTE_V | PTE_R | PTE_W | PTE_U));
    assert_eq!(flags_at(&m, 0x41), Some(PTE_V | PTE_R | PTE_W | PTE_U));
}

#[test]
fn mmap_rejects_bad_arguments() {
    let mut m = boot();
    assert_eq!(sys_mmap(&mut m, 0x40001, 4096, 0x3), -1);
    assert_eq!(sys_mmap(&mut m, 0x40000, 4096, 0x0), -1);
    assert_eq!(sys_mmap(&mut m, 0x40000, 4096, 0x8), -1);
    assert_eq!(sys_mmap(&mut m, 0x40000, 4096, 0xb), -1);
    assert_eq!(sys_mmap(&mut m, usize::MAX - 4095, 8192, 0x1), -1);
    assert_eq!(flags_at(&m, 0x40), None);
    assert_eq!(sys_munmap(&mut m, 0x10001, 4096), -1);
}

#[test]
fn mmap_fails_without_enough_frames() {
    let mut m = boot();
    // 0x300 frames, five of them hold the program
    assert_eq!(sys_mmap(&mut m, 0x100000, (0x300 - 5 + 1) * 4096, 0x3), -1);
    assert_eq!(sys_mmap(&mut m, 0x100000, (0x300 - 5) * 4096, 0x3), 0);
    assert_eq!(sys_mmap(&mut m, 0x800000, 4096, 0x3), -1);
    assert_eq!(sys_munmap(&mut m, 0x100000, 4096), 0);
    assert_eq!(sys_mmap(&mut m, 0x800000, 4096, 0x3), 0);
}

#[test]
fn zero_length_mmap_maps_nothing() {
    let mut m = boot();
    assert_eq!(sys_mmap(&mut m, 0x40000, 0, 0x3), 0);
    assert_eq!(flags_at(&m, 0x40), None);
    assert_eq!(sys_munmap(&mut m, 0x40000, 0), 0);
}

#[test]
fn waitpid_without_children() {
    let mut m = boot();
    let mut code = 55;
    assert_eq!(sys_waitpid(&mut m, -1, &mut code), -1);
    assert_eq!(sys_waitpid(&mut m, 3, &mut code), -1);
    assert_eq!(code, 55);
}

#[test]
fn waitpid_running_child_then_zombie() {
    let mut m = boot();
    let child = sys_fork(&mut m);
    assert_eq!(child, 1);
    let mut code = 0;
    assert_eq!(sys_waitpid(&mut m, -1, &mut code), -2);
    assert_eq!(sys_waitpid(&mut m, 1, &mut code), -2);
    assert_eq!(sys_waitpid(&mut m, 2, &mut code), -1);
    assert_eq!(sys_yield(&mut m), 0);
    assert_eq!(m.current_task, 1);
    assert_eq!(sys_getpid(&m), 1);
    assert!(sys_exit(&mut m, 7));
    assert_eq!(m.current_task, 0);
    assert_eq!(sys_waitpid(&mut m, -1, &mut code), 1);
    assert_eq!(code, 7);
    assert_eq!(m.tasks.len(), 1);
    assert_eq!(sys_waitpid(&mut m, -1, &mut code), -1);
}

#[test]
fn waitpid_reaps_first_zombie_in_order() {
    let mut m = boot();
    assert_eq!(sys_fork(&mut m), 1);
    assert_eq!(sys_fork(&mut m), 2);
    assert_eq!(sys_yield(&mut m), 0);
    assert!(sys_exit(&mut m, 11));
    assert_eq!(m.current_task, 2);
    assert!(sys_exit(&mut m, 22));
    assert_eq!(m.current_task, 0);
    let mut code = 0;
    assert_eq!(sys_waitpid(&mut m, 2, &mut code), 2);
    assert_eq!(code, 22);
    assert_eq!(sys_waitpid(&mut m, -1, &mut code), 1);
    assert_eq!(code, 11);
}

#[test]
fn fork_returns_child_pid_and_zero_to_child() {
    let mut m = boot();
    m.tasks[0].inner_exclusive_access().get_trap_cx().x[REG_A0] = 99;
    assert_eq!(sys_mmap(&mut m, 0x40000, 4096, 0x3), 0);
    let pid = sys_fork(&mut m);
    assert!(pid > 0);
    let child = m.tasks.last().unwrap();
    assert_eq!(child.pid as isize, pid);
    assert_eq!(child.inner.parent, Some(0));
    assert_eq!(child.inner.task_status, TaskStatus::Ready);
    assert_eq!(child.inner.trap_cx.x[REG_A0], 0);
    assert_eq!(child.inner.trap_cx.sepc, 0x10000);
    assert_eq!(m.tasks[0].inner.trap_cx.x[REG_A0], 99);
    let parent_pte = m.tasks[0].inner.memory_set.translate(0x40).unwrap();
    let child_pte = child.inner.memory_set.translate(0x40).unwrap();
    assert_eq!(parent_pte.flags, child_pte.flags);
    assert_ne!(parent_pte.ppn, child_pte.ppn);
    assert_eq!(child.get_user_token(), 1);
    assert_eq!(m.tasks[0].get_user_token(), 0);
    assert_eq!(sys_yield(&mut m), 0);
    assert_eq!(m.tasks[m.current_task].inner.trap_cx.x[REG_A0], 0);
}

#[test]
fn set_priority_checks_minimum() {
    let mut m = boot();
    let before = m.tasks[0].inner.priority;
    assert_eq!(sys_set_priority(&mut m, 1), -1);
    assert_eq!(m.tasks[0].inner.priority, before);
    assert_eq!(sys_set_priority(&mut m, 5), 5);
    assert_eq!(m.tasks[0].inner.priority, 5);
    assert_eq!(sys_set_priority(&mut m, 2), 2);
    assert_eq!(m.tasks[0].inner.priority, 2);
}

#[test]
fn sbrk_grows_and_shrinks_heap() {
    let mut m = boot();
    assert_eq!(sys_sbrk(&mut m, 4096), 0x20000);
    assert_eq!(flags_at(&m, 0x20), Some(PTE_V | PTE_R | PTE_W | PTE_U));
    assert_eq!(sys_sbrk(&mut m, 100), 0x21000);
    assert_eq!(flags_at(&m, 0x21), Some(PTE_V | PTE_R | PTE_W | PTE_U));
    assert_eq!(sys_sbrk(&mut m, -4196), 0x21064);
    assert_eq!(flags_at(&m, 0x20), None);
    assert_eq!(flags_at(&m, 0x21), None);
    assert_eq!(sys_sbrk(&mut m, -1), -1);
    assert_eq!(sys_sbrk(&mut m, 0), 0x20000);
}

#[test]
fn sbrk_fails_over_mapped_pages() {
    let mut m = boot();
    assert_eq!(sys_mmap(&mut m, 0x21000, 4096, 0x1), 0);
    assert_eq!(sys_sbrk(&mut m, 8192), -1);
    assert_eq!(sys_sbrk(&mut m, 4096), 0x20000);
}

#[test]
fn get_time_splits_seconds() {
    let mut ts = TimeVal { sec: 0, usec: 0 };
    assert_eq!(sys_get_time(&mut ts, 0, 3_500_042), 0);
    assert_eq!(ts, TimeVal { sec: 3, usec: 500_042 });
    assert_eq!(sys_get_time(&mut ts, 0, 999_999), 0);
    assert_eq!(ts, TimeVal { sec: 0, usec: 999_999 });
}

#[test]
fn task_info_reports_counts_and_time() {
    let mut m = TaskManager::new(0x100, 0x400);
    assert_eq!(m.new_process(&image(0x10000), None, 1000), Some(0));
    m.run_first_task();
    m.inc_syscall_times(169);
    m.inc_syscall_times(169);
    m.inc_syscall_times(64);
    let mut ti = TaskInfo { status: TaskStatus::Ready, syscall_times: [0; MAX_SYSCALL_NUM], time: 0 };
    assert_eq!(sys_task_info(&m, &mut ti, 1250), 0);
    assert_eq!(ti.status, TaskStatus::Running);
    assert_eq!(ti.syscall_times[169], 2);
    assert_eq!(ti.syscall_times[64], 1);
    assert_eq!(ti.syscall_times[0], 0);
    assert_eq!(ti.time, 250);
    let info = m.get_current_task();
    assert_eq!(info.time, 1000);
    assert_eq!(info.syscall_times[169], 2);
}

#[test]
fn exec_replaces_program() {
    let mut m = boot();
    assert_eq!(sys_exec(&mut m, None), -1);
    assert_eq!(m.tasks[0].inner.trap_cx.sepc, 0x10000);
    assert_eq!(sys_mmap(&mut m, 0x40000, 4096, 0x3), 0);
    let img = ProgramImage {
        segments: vec![Segment { start_va: 0x80000, end_va: 0x81000, perm: PTE_R | PTE_X }],
        entry: 0x80000,
        user_sp: 0x90000,
    };
    assert_eq!(sys_exec(&mut m, Some(&img)), 0);
    assert_eq!(m.tasks[0].inner.trap_cx.sepc, 0x80000);
    assert_eq!(m.tasks[0].inner.trap_cx.x[2], 0x90000);
    assert_eq!(flags_at(&m, 0x40), None);
    assert_eq!(flags_at(&m, 0x10), None);
    assert_eq!(flags_at(&m, 0x80), Some(PTE_V | PTE_R | PTE_X | PTE_U));
    assert_eq!(sys_getpid(&m), 0);
}

#[test]
fn exec_rejects_overlapping_segments() {
    let mut m = boot();
    let img = ProgramImage {
        segments: vec![
            Segment { start_va: 0x80000, end_va: 0x81800, perm: PTE_R },
            Segment { start_va: 0x81000, end_va: 0x82000, perm: PTE_R },
        ],
        entry: 0x80000,
        user_sp: 0x90000,
    };
    assert_eq!(sys_exec(&mut m, Some(&img)), -1);
    assert_eq!(flags_at(&m, 0x10), Some(PTE_V | PTE_R | PTE_X | PTE_U));
}

#[test]
fn spawn_starts_child() {
    let mut m = boot();
    assert_eq!(sys_spawn(&mut m, None, 5), -1);
    let pid = sys_spawn(&mut m, Some(&image(0x10400)), 5);
    assert_eq!(pid, 1);
    let child = m.tasks.last().unwrap();
    assert_eq!(child.inner.parent, Some(0));
    assert_eq!(child.inner.trap_cx.sepc, 0x10400);
    assert_eq!(child.inner.trap_cx.x[REG_A0], 0);
    assert_eq!(child.inner.start_time, 5);
    assert_eq!(child.inner.task_status, TaskStatus::Ready);
}

#[test]
fn translate_va_refuses_page_straddling_span() {
    let mut m = boot();
    assert_eq!(sys_mmap(&mut m, 0x40000, 4096, 0x3), 0);
    let ms = &m.tasks[0].inner.memory_set;
    let ppn = ms.translate(0x40).unwrap().ppn;
    assert_eq!(ms.translate_va(0x40010, 16), Some(ppn * 4096 + 0x10));
    assert_eq!(ms.translate_va(0x40ff0, 16), Some(ppn * 4096 + 0xff0));
    assert_eq!(ms.translate_va(0x40ff8, 16), None);
    assert_eq!(ms.translate_va(0x41000, 8), None);
}

#[test]
fn munmap_gives_frames_back() {
    let mut m = boot();
    // 0x300 frames, five of them hold the program
    assert_eq!(sys_mmap(&mut m, 0x100000, (0x300 - 5) * 4096, 0x3), 0);
    assert!(!m.frames.has_frames(1));
    assert_eq!(sys_munmap(&mut m, 0x100000 + 4096, 3 * 4096), 0);
    assert!(m.frames.has_frames(3));
    assert!(!m.frames.has_frames(4));
}

#[test]
fn program_pages_carry_segment_permissions() {
    let m = boot();
    assert_eq!(flags_at(&m, 0x10), Some(PTE_V | PTE_R | PTE_X | PTE_U));
    assert_eq!(flags_at(&m, 0x11), Some(PTE_V | PTE_R | PTE_X | PTE_U));
    assert_eq!(flags_at(&m, 0x12), Some(PTE_V | PTE_R | PTE_W | PTE_U));
    assert_eq!(flags_at(&m, 0x13), None);
    assert_eq!(flags_at(&m, 0x1e), Some(PTE_V | PTE_R | PTE_W | PTE_U));
}

#[test]
fn sbrk_shrink_restores_break() {
    let mut m = boot();
    assert_eq!(sys_sbrk(&mut m, 10000), 0x20000);
    assert_eq!(m.tasks[0].inner.program_brk, 0x20000 + 10000);
    assert_eq!(sys_sbrk(&mut m, -10000), 0x20000 + 10000);
    assert_eq!(m.tasks[0].inner.program_brk, 0x20000);
    assert_eq!(flags_at(&m, 0x20), None);
}

#[test]
fn waitpid_single_zombie_leaves_others() {
    let mut m = boot();
    assert_eq!(sys_fork(&mut m), 1);
    assert_eq!(sys_fork(&mut m), 2);
    assert_eq!(sys_yield(&mut m), 0);
    assert_eq!(m.current_task, 1);
    assert!(sys_exit(&mut m, -4));
    assert_eq!(m.current_task, 2);
    assert_eq!(sys_yield(&mut m), 0);
    assert_eq!(m.current_task, 0);
    let mut code = 0;
    assert_eq!(sys_waitpid(&mut m, -1, &mut code), 1);
    assert_eq!(code, -4);
    let pids: Vec<usize> = m.tasks.iter().map(|t| t.pid).collect();
    assert_eq!(pids, vec![0, 2]);
    assert_eq!(m.current_task, 0);
    assert_eq!(sys_waitpid(&mut m, -1, &mut code), -2);
}

//! Process-management system calls. Each takes the task table and the
//! already-translated user arguments, acts for the running task, and returns
//! the integer status the user sees.
use vstd::prelude::*;
use crate::memory::{PAGE_SIZE, page_ceil, seg_first, seg_last, seg_flags, flags_of, segs_ordered, pages_upto, in_segs, MemorySet};
use crate::manager::{
    TaskManager, ProgramImage, TaskInfoTMP, exit_current_and_run_next, suspend_current_and_run_next,
    is_next_ready, none_ready, statuses, with_status, with_space, with_heap, heap_flags, between, mmap_flags, range_first, range_end, lemma_update_wf,
};
use crate::task::{TaskControlBlock, TaskControlBlockInner, TaskStatus, TrapContext, MAX_SYSCALL_NUM, REG_A0};

verus! {

/// Microseconds in a second.
pub const USEC_PER_SEC: usize = 1_000_000;

/// Lowest priority a task can be given.
pub const MIN_PRIORITY: isize = 2;

/// A point in time as seconds and the microseconds past them.
#[derive(Clone, Copy, Debug, PartialEq, Eq, Structural)]
pub struct TimeVal {
    pub sec: usize,
    pub usec: usize,
}

/// What `sys_task_info` reports of the running task.
pub struct TaskInfo {
    /// Task status in its life cycle
    pub status: TaskStatus,
    /// The numbers of syscall called by task
    pub syscall_times: [u32; MAX_SYSCALL_NUM],
    /// Milliseconds since the task was created
    pub time: usize,
}

/// The task exits with `exit_code` and the next `Ready` task is dispatched;
/// `false` where there is none left, so that all work is done. The exiting
/// task never runs again.
pub fn sys_exit(m: &mut TaskManager, exit_code: i32) -> (r: bool)
    requires
        old(m).wf(),
        old(m).running(),
    ensures
        final(m).wf(),
        r == !none_ready(statuses(old(m).tasks@).update(old(m).current_task as int, TaskStatus::Exited)),
        r ==> final(m).running() && is_next_ready(statuses(old(m).tasks@).update(old(m).current_task as int,
            TaskStatus::Exited), old(m).current_task as int, final(m).current_task as int),
        final(m).status(old(m).current_task as int) == TaskStatus::Exited,
        final(m).tasks@[old(m).current_task as int].inner.exit_code == Some(exit_code),
{
    exit_current_and_run_next(m, exit_code)
}

/// The running task gives up the processor to the next `Ready` task, which
/// may be itself.
pub fn sys_yield(m: &mut TaskManager) -> (r: isize)
    requires
        old(m).wf(),
        old(m).running(),
    ensures
        r == 0,
        final(m).wf(),
        final(m).running(),
        is_next_ready(statuses(old(m).tasks@).update(old(m).current_task as int, TaskStatus::Ready),
            old(m).current_task as int, final(m).current_task as int),
        final(m).tasks@ == old(m).tasks@.update(old(m).current_task as int,
            with_status(old(m).tasks@[old(m).current_task as int], TaskStatus::Ready)).update(
            final(m).current_task as int, with_status(old(m).tasks@[final(m).current_task as int], TaskStatus::Running)),
{
    suspend_current_and_run_next(m);
    0
}

/// The pid of the running task.
pub fn sys_getpid(m: &TaskManager) -> (r: isize)
    requires
        m.wf(),
        m.running(),
    ensures
        r == m.tasks@[m.current_task as int].pid,
{
    proof {
        assert(m.task_wf(m.current_task as int));
    }
    m.tasks[m.current_task].pid as isize
}

/// Sets the running task's priority: `-1`, changing nothing, below the
/// lowest priority; else the priority given.
pub fn sys_set_priority(m: &mut TaskManager, prio: isize) -> (r: isize)
    requires
        old(m).wf(),
        old(m).running(),
    ensures
        final(m).wf(),
        final(m).running(),
        prio < MIN_PRIORITY ==> r == -1 && *final(m) == *old(m),
        prio >= MIN_PRIORITY ==> r == prio && final(m).only_current_is(old(m), ({
            let t = old(m).tasks@[old(m).current_task as int];
            TaskControlBlock { inner: TaskControlBlockInner { priority: prio, ..t.inner }, ..t }
        })),
        final(m).frames == old(m).frames,
{
    if prio < MIN_PRIORITY {
        return -1;
    }
    let cur = m.current_task;
    m.tasks[cur].inner.priority = prio;
    proof {
        assert(old(m).task_wf(cur as int));
        lemma_update_wf(old(m), m, cur as int);
        let t = old(m).tasks@[cur as int];
        assert(m.tasks@ =~= old(m).tasks@.update(cur as int,
            TaskControlBlock { inner: TaskControlBlockInner { priority: prio, ..t.inner }, ..t }));
    }
    prio
}

/// Fills `ts` with the time `now_us`, in microseconds, as seconds and the
/// microseconds past them.
pub fn sys_get_time(ts: &mut TimeVal, _tz: usize, now_us: usize) -> (r: isize)
    ensures
        r == 0,
        final(ts).sec == now_us / USEC_PER_SEC,
        final(ts).usec == now_us % USEC_PER_SEC,
{
    *ts = TimeVal { sec: now_us / USEC_PER_SEC, usec: now_us % USEC_PER_SEC };
    0
}

/// Fills `ti` with the running task's status, its system call counts and
/// the milliseconds from its creation to `now_ms` (zero if the clock reads
/// earlier).
pub fn sys_task_info(m: &TaskManager, ti: &mut TaskInfo, now_ms: usize) -> (r: isize)
    requires
        m.running(),
    ensures
        r == 0,
        final(ti).status == TaskStatus::Running,
        final(ti).syscall_times == m.tasks@[m.current_task as int].inner.syscall_times,
        ({
            let st = m.tasks@[m.current_task as int].inner.start_time;
            final(ti).time == if now_ms >= st { now_ms - st } else { 0 }
        }),
{
    let info: TaskInfoTMP = m.get_current_task();
    ti.status = m.tasks[m.current_task].inner.task_status;
    ti.syscall_times = info.syscall_times;
    ti.time = if now_ms >= info.time { now_ms - info.time } else { 0 };
    0
}

/// Maps `start .. start + len` for the running task with the read, write
/// and execute bits of `port` and user access. `-1`, changing nothing,
/// where `start` is not page aligned, `port` has a bit set above its low
/// three or none of them, the range overflows, a page in it is mapped, or
/// too few frames are free.
pub fn sys_mmap(m: &mut TaskManager, start: usize, len: usize, port: usize) -> (r: isize)
    requires
        old(m).wf(),
        old(m).running(),
    ensures
        final(m).wf(),
        final(m).running(),
        r == 0 || r == -1,
        r == 0 <==> {
            &&& start % PAGE_SIZE == 0
            &&& 1 <= port < 8
            &&& start + len <= usize::MAX
            &&& forall|v: usize| range_first(start) <= v < range_end(start, len) ==> !old(m).space().mapped(v)
            &&& range_end(start, len) - range_first(start) <= old(m).frames.available()
        },
        r == -1 ==> *final(m) == *old(m),
        r == 0 ==> {
            &&& final(m).only_current_is(old(m), with_space(old(m).tasks@[old(m).current_task as int], final(m).space()))
            &&& forall|v: usize| range_first(start) <= v < range_end(start, len) ==> (#[trigger] final(m).space().translate_spec(v)).is_some()
                && final(m).space().translate_spec(v).unwrap().flags == mmap_flags(port)
            &&& forall|v: usize| !(range_first(start) <= v < range_end(start, len)) ==> #[trigger] final(m).space().translate_spec(v)
                == old(m).space().translate_spec(v)
        },
{
    if start % PAGE_SIZE != 0 || port >= 8 || port == 0 {
        return -1;
    }
    m.mmap(start, len, port)
}

/// Unmaps `start .. start + len` of the running task and frees its frames.
/// `-1`, changing nothing, where `start` is not page aligned, the range
/// overflows, or a page in it is not mapped.
pub fn sys_munmap(m: &mut TaskManager, start: usize, len: usize) -> (r: isize)
    requires
        old(m).wf(),
        old(m).running(),
    ensures
        final(m).wf(),
        final(m).running(),
        r == 0 || r == -1,
        r == 0 <==> {
            &&& start % PAGE_SIZE == 0
            &&& start + len <= usize::MAX
            &&& forall|v: usize| range_first(start) <= v < range_end(start, len) ==> old(m).space().mapped(v)
        },
        r == -1 ==> *final(m) == *old(m),
        r == 0 ==> {
            &&& final(m).only_current_is(old(m), with_space(old(m).tasks@[old(m).current_task as int], final(m).space()))
            &&& forall|v: usize| range_first(start) <= v < range_end(start, len) ==> (#[trigger] final(m).space().translate_spec(v)).is_none()
            &&& final(m).frames.available() == old(m).frames.available() + (range_end(start, len) - range_first(start))
            &&& forall|v: usize| !(range_first(start) <= v < range_end(start, len)) ==> #[trigger] final(m).space().translate_spec(v)
                == old(m).space().translate_spec(v)
        },
{
    if start % PAGE_SIZE != 0 {
        return -1;
    }
    m.ummap(start, len)
}

/// Moves the running task's program break by `size` bytes and returns the
/// break before the move, or `-1`, changing nothing, where the move is not
/// possible (see `TaskManager::change_current_program_brk`) or the old
/// break does not fit the result.
pub fn sys_sbrk(m: &mut TaskManager, size: i32) -> (r: isize)
    requires
        old(m).wf(),
        old(m).running(),
    ensures
        final(m).wf(),
        final(m).running(),
        r == -1 ==> *final(m) == *old(m),
        r != -1 ==> ({
            let t = old(m).tasks@[old(m).current_task as int];
            let new_brk = t.inner.program_brk + size as int;
            let (old_top, new_top) = (page_ceil(t.inner.program_brk as int), page_ceil(new_brk));
            &&& r == t.inner.program_brk
            &&& final(m).tasks@[old(m).current_task as int].inner.program_brk == new_brk
            &&& final(m).only_current_is(old(m), with_heap(t, final(m).space(), new_brk as usize))
            &&& forall|v: usize| old_top <= v < new_top ==> (#[trigger] final(m).space().translate_spec(v)).is_some()
                && final(m).space().translate_spec(v).unwrap().flags == heap_flags()
            &&& forall|v: usize| new_top <= v < old_top ==> (#[trigger] final(m).space().translate_spec(v)).is_none()
            &&& forall|v: usize| !between(old_top, new_top, v as int) ==> #[trigger] final(m).space().translate_spec(v)
                == old(m).space().translate_spec(v)
        }),
        r != -1 <==> ({
            let t = old(m).tasks@[old(m).current_task as int];
            let new_brk = t.inner.program_brk + size as int;
            let (old_top, new_top) = (page_ceil(t.inner.program_brk as int), page_ceil(new_brk));
            &&& t.inner.program_brk <= isize::MAX
            &&& t.inner.heap_bottom <= new_brk <= usize::MAX
            &&& new_top > old_top ==> new_top - old_top <= old(m).frames.available()
                && forall|v: usize| old_top <= v < new_top ==> !old(m).space().mapped(v)
        }),
{
    if m.tasks[m.current_task].inner.program_brk > isize::MAX as usize {
        return -1;
    }
    match m.change_current_program_brk(size) {
        Some(old_brk) => old_brk as isize,
        None => -1,
    }
}

/// Copies the running process into a new `Ready` child: the same pages
/// with the same flags on new frames, the same registers except that the
/// child sees `0` as the call's result. Returns the child's pid, or `-1`,
/// changing nothing, where pids have run out or too few frames are free.
pub fn sys_fork(m: &mut TaskManager) -> (r: isize)
    requires
        old(m).wf(),
        old(m).running(),
    ensures
        final(m).wf(),
        final(m).running(),
        r == -1 <==> !(old(m).next_pid < isize::MAX && old(m).space().frame_count() <= old(m).frames.available()),
        r == -1 ==> *final(m) == *old(m),
        r != -1 ==> {
            let p = old(m).tasks@[old(m).current_task as int];
            let c = final(m).tasks@.last();
            &&& r > 0
            &&& r == old(m).next_pid
            &&& final(m).current_task == old(m).current_task
            &&& final(m).tasks@.len() == old(m).tasks@.len() + 1
            &&& final(m).tasks@.drop_last() == old(m).tasks@
            &&& final(m).frames.available() == old(m).frames.available() - p.inner.memory_set.frame_count()
            &&& c.pid == r
            &&& c.inner.parent == Some(p.pid)
            &&& c.inner.task_status == TaskStatus::Ready
            &&& c.inner.trap_cx.x@ == p.inner.trap_cx.x@.update(REG_A0 as int, 0)
            &&& c.inner.trap_cx.sepc == p.inner.trap_cx.sepc
            &&& c.inner.heap_bottom == p.inner.heap_bottom
            &&& c.inner.program_brk == p.inner.program_brk
            &&& forall|v: usize| #[trigger] flags_of(c.inner.memory_set.translate_spec(v))
                == flags_of(p.inner.memory_set.translate_spec(v))
            &&& c.inner.memory_set.frames_held().subset_of(old(m).frames.free())
        },
{
    let cur = m.current_task;
    proof {
        assert(old(m).task_wf(cur as int));
    }
    if m.next_pid >= isize::MAX as usize {
        return -1;
    }
    if !m.frames.has_frames(m.tasks[cur].inner.memory_set.frame_count_exec()) {
        return -1;
    }
    let pid = m.next_pid;
    let parent_pid = m.tasks[cur].pid;
    let ms = m.tasks[cur].inner.memory_set.duplicate(&mut m.frames, pid);
    let mut trap_cx = m.tasks[cur].inner.trap_cx;
    // the child returns from the same call, with 0 as its result
    trap_cx.set_return(0);
    let heap_bottom = m.tasks[cur].inner.heap_bottom;
    let start_time = m.tasks[cur].inner.start_time;
    let mut child = TaskControlBlock::new(pid, pid, Some(parent_pid), ms, trap_cx, heap_bottom, start_time, 0, 0);
    child.inner.program_brk = m.tasks[cur].inner.program_brk;
    m.next_pid = pid + 1;
    m.tasks.push(child);
    proof {
        assert(m.tasks@.drop_last() =~= old(m).tasks@);
        assert forall|i: int| 0 <= i < m.tasks@.len() implies #[trigger] m.task_wf(i) by {
            if i < old(m).tasks@.len() {
                assert(old(m).task_wf(i));
            }
        }
    }
    pid as isize
}

/// Replaces the running process's program with `image`: a new address
/// space of the image's pages, registers that start at its entry, and an
/// empty heap at its stack top. `-1`, changing nothing, where no image was
/// found, its segments are out of order, or too few frames are free.
pub fn sys_exec(m: &mut TaskManager, image: Option<&ProgramImage>) -> (r: isize)
    requires
        old(m).wf(),
        old(m).running(),
    ensures
        final(m).wf(),
        final(m).running(),
        r == 0 || r == -1,
        r == 0 <==> image.is_some() && {
            let segs = image.unwrap().segments@;
            &&& segs_ordered(segs)
            &&& pages_upto(segs, segs.len() as int) <= old(m).frames.available()
            &&& pages_upto(segs, segs.len() as int) <= usize::MAX
        },
        r == -1 ==> *final(m) == *old(m),
        r == 0 ==> {
            let (a, b) = (old(m).tasks@[old(m).current_task as int], final(m).tasks@[old(m).current_task as int]);
            let img = image.unwrap();
            &&& final(m).current_task == old(m).current_task
            &&& final(m).tasks@.len() == old(m).tasks@.len()
            &&& forall|i: int| 0 <= i < old(m).tasks@.len() && i != old(m).current_task ==> final(m).tasks@[i] == old(m).tasks@[i]
            &&& b.pid == a.pid
            &&& b.inner.parent == a.inner.parent
            &&& b.inner.task_status == TaskStatus::Running
            &&& b.inner.trap_cx.sepc == img.entry
            &&& b.inner.trap_cx.x@[2] == img.user_sp
            &&& b.inner.program_brk == img.user_sp
            &&& b.inner.heap_bottom == img.user_sp
            &&& forall|v: usize| (#[trigger] b.inner.memory_set.translate_spec(v)).is_some()
                <==> in_segs(img.segments@, img.segments@.len() as int, v)
            &&& forall|k: int, v: usize| #![trigger img.segments@[k], b.inner.memory_set.translate_spec(v)] 0 <= k < img.segments@.len() && seg_first(img.segments@[k]) <= v < seg_last(img.segments@[k])
                    ==> b.inner.memory_set.translate_spec(v).unwrap().flags == seg_flags(img.segments@[k])
        },
{
    let img = match image {
        Some(i) => i,
        None => {
            return -1;
        },
    };
    let cur = m.current_task;
    proof {
        assert(old(m).task_wf(cur as int));
    }
    let pid = m.tasks[cur].pid;
    let ms = match MemorySet::from_segments(&mut m.frames, pid, &img.segments) {
        Some(ms) => ms,
        None => {
            return -1;
        },
    };
    m.tasks[cur].inner.memory_set.recycle_data_pages(&mut m.frames);
    m.tasks[cur].inner.memory_set = ms;
    m.tasks[cur].inner.trap_cx = TrapContext::app_init_context(img.entry, img.user_sp);
    m.tasks[cur].inner.heap_bottom = img.user_sp;
    m.tasks[cur].inner.program_brk = img.user_sp;
    proof {
        lemma_update_wf(old(m), m, cur as int);
    }
    0
}

/// Starts `image` as a new `Ready` child of the running process, without
/// copying the parent, and returns its pid; `-1`, changing nothing, where
/// no image was found, pids have run out, its segments are out of order,
/// or too few frames are free.
pub fn sys_spawn(m: &mut TaskManager, image: Option<&ProgramImage>, now_ms: usize) -> (r: isize)
    requires
        old(m).wf(),
        old(m).running(),
    ensures
        final(m).wf(),
        final(m).running(),
        r == -1 <==> !(image.is_some() && old(m).next_pid < isize::MAX && {
            let segs = image.unwrap().segments@;
            &&& segs_ordered(segs)
            &&& pages_upto(segs, segs.len() as int) <= old(m).frames.available()
            &&& pages_upto(segs, segs.len() as int) <= usize::MAX
        }),
        r == -1 ==> *final(m) == *old(m),
        r != -1 ==> {
            let c = final(m).tasks@.last();
            let img = image.unwrap();
            &&& r > 0
            &&& r == old(m).next_pid
            &&& final(m).current_task == old(m).current_task
            &&& final(m).tasks@.drop_last() == old(m).tasks@
            &&& c.pid == r
            &&& c.inner.parent == Some(old(m).tasks@[old(m).current_task as int].pid)
            &&& c.inner.task_status == TaskStatus::Ready
            &&& c.inner.trap_cx.sepc == img.entry
            &&& forall|v: usize| (#[trigger] c.inner.memory_set.translate_spec(v)).is_some()
                <==> in_segs(img.segments@, img.segments@.len() as int, v)
            &&& forall|k: int, v: usize| #![trigger img.segments@[k], c.inner.memory_set.translate_spec(v)] 0 <= k < img.segments@.len() && seg_first(img.segments@[k]) <= v < seg_last(img.segments@[k])
                    ==> c.inner.memory_set.translate_spec(v).unwrap().flags == seg_flags(img.segments@[k])
        },
{
    let img = match image {
        Some(i) => i,
        None => {
            return -1;
        },
    };
    let cur = m.current_task;
    proof {
        assert(old(m).task_wf(cur as int));
    }
    let parent_pid = m.tasks[cur].pid;
    match m.new_process(img, Some(parent_pid), now_ms) {
        Some(pid) => {
            assert(m.tasks@[cur as int] == old(m).tasks@[cur as int]);
            pid as isize
        },
        None => -1,
    }
}

/// Task `i` is a child of the running process that `pid` selects: any
/// child where `pid` is `-1`, else the one with that pid.
pub open spec fn selected(m: &TaskManager, pid: isize, i: int) -> bool {
    &&& m.tasks@[i].inner.parent == Some(m.tasks@[m.current_task as int].pid)
    &&& (pid == -1 || m.tasks@[i].pid == pid as usize)
}

/// Task `i` is a selected child that has exited.
pub open spec fn selected_zombie(m: &TaskManager, pid: isize, i: int) -> bool {
    selected(m, pid, i) && m.tasks@[i].inner.task_status == TaskStatus::Exited
}

/// Reaps an exited child of the running process that `pid` selects: the
/// first in the task list. Its exit code goes to `exit_code_ptr`, it leaves
/// the task list, and its pid is returned. `-1` where no child is selected,
/// `-2` where none of those has exited; both change nothing.
pub fn sys_waitpid(m: &mut TaskManager, pid: isize, exit_code_ptr: &mut i32) -> (r: isize)
    requires
        old(m).wf(),
        old(m).running(),
    ensures
        final(m).wf(),
        final(m).running(),
        r == -1 <==> !exists|i: int| 0 <= i < old(m).tasks@.len() && selected(old(m), pid, i),
        r == -2 <==> (exists|i: int| 0 <= i < old(m).tasks@.len() && selected(old(m), pid, i))
            && !exists|i: int| 0 <= i < old(m).tasks@.len() && selected_zombie(old(m), pid, i),
        r == -1 || r == -2 || r >= 0,
        (exists|i: int| 0 <= i < old(m).tasks@.len() && selected_zombie(old(m), pid, i)) ==> r >= 0,
        r < 0 ==> *final(m) == *old(m) && *final(exit_code_ptr) == *old(exit_code_ptr),
        r >= 0 ==> exists|k: int| {
            &&& 0 <= k < old(m).tasks@.len()
            &&& selected_zombie(old(m), pid, k)
            &&& forall|j: int| 0 <= j < k ==> !selected_zombie(old(m), pid, j)
            &&& r == old(m).tasks@[k].pid
            &&& Some(*final(exit_code_ptr)) == old(m).tasks@[k].inner.exit_code
            &&& final(m).tasks@ == old(m).tasks@.remove(k)
            &&& final(m).tasks@[final(m).current_task as int] == old(m).tasks@[old(m).current_task as int]
            &&& final(m).frames == old(m).frames
            &&& final(m).next_pid == old(m).next_pid
        },
{
    let cur = m.current_task;
    let me = m.tasks[cur].pid;
    let mut any = false;
    let mut i: usize = 0;
    while i < m.tasks.len()
        invariant
            *m == *old(m),
            *exit_code_ptr == *old(exit_code_ptr),
            old(m).wf(),
            old(m).running(),
            cur == m.current_task,
            me == m.tasks@[cur as int].pid,
            i <= m.tasks@.len(),
            any == exists|k: int| 0 <= k < i && selected(m, pid, k),
            forall|k: int| 0 <= k < i ==> !selected_zombie(m, pid, k),
        decreases m.tasks@.len() - i,
    {
        let matches = m.tasks[i].inner.parent == Some(me) && (pid == -1 || m.tasks[i].pid == pid as usize);
        assert(matches == selected(m, pid, i as int));
        if matches {
            any = true;
            if m.tasks[i].inner.is_zombie() {
                let child = m.tasks.remove(i);
                if i < cur {
                    m.current_task = cur - 1;
                }
                proof {
                    let (a, b) = (old(m), &*m);
                    assert(a.task_wf(i as int));
                    assert(a.task_wf(cur as int));
                    assert(i != cur);
                    assert forall|j: int| 0 <= j < b.tasks@.len() implies #[trigger] b.task_wf(j) by {
                        if j < i {
                            assert(a.task_wf(j));
                        } else {
                            assert(a.task_wf(j + 1));
                        }
                    }
                }
                let code = match child.inner.exit_code {
                    Some(c) => c,
                    None => 0,
                };
                *exit_code_ptr = code;
                proof {
                    let k = i as int;
                    assert(child == old(m).tasks@[k]);
                    assert(old(m).task_wf(k));
                    assert(m.tasks@[m.current_task as int] == old(m).tasks@[cur as int]);
                    assert(selected_zombie(old(m), pid, k));
                }
                return child.pid as isize;
            }
        }
        i = i + 1;
    }
    if any {
        -2
    } else {
        -1
    }
}

} // verus!

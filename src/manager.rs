//! The scheduler and process table: every live task, the index of the one
//! that runs, the physical frames they draw from, and the transitions
//! between task states.
use vstd::prelude::*;
use crate::memory::{
    FrameAllocator, MemorySet, Segment, seg_first, seg_last, seg_flags, segs_ordered, pages_upto, in_segs, page_floor, page_ceil,
    floor_vpn, ceil_vpn, PTE_V, PTE_R, PTE_W, PTE_U,
};
use crate::task::{TaskControlBlock, TaskControlBlockInner, TaskStatus, TrapContext, MAX_SYSCALL_NUM};

verus! {

/// What the loader hands over for a program: its regions, where it starts,
/// and the top of its user stack.
pub struct ProgramImage {
    pub segments: Vec<Segment>,
    pub entry: usize,
    pub user_sp: usize,
}

/// All tasks, the one that runs, and the frames that back their memory.
pub struct TaskManager {
    /// task list, in creation order
    pub tasks: Vec<TaskControlBlock>,
    /// index of the `Running` task
    pub current_task: usize,
    /// physical frames not in use
    pub frames: FrameAllocator,
    /// the pid the next process gets
    pub next_pid: usize,
}

/// The statuses of a task list, in order.
pub open spec fn statuses(tasks: Seq<TaskControlBlock>) -> Seq<TaskStatus> {
    tasks.map_values(|t: TaskControlBlock| t.inner.task_status)
}

/// The index `d` places after `cur`, going round a list of `n`.
pub open spec fn circ(cur: int, d: int, n: int) -> int {
    if cur + d < n {
        cur + d
    } else {
        cur + d - n
    }
}

/// `j` is the first `Ready` index after `cur`, going round the list.
pub open spec fn is_next_ready(s: Seq<TaskStatus>, cur: int, j: int) -> bool {
    exists|d: int|
        1 <= d <= s.len() && j == circ(cur, d, s.len() as int) && s[j] == TaskStatus::Ready && forall|e: int|
            1 <= e < d ==> s[#[trigger] circ(cur, e, s.len() as int)] != TaskStatus::Ready
}

/// No task is `Ready`.
pub open spec fn none_ready(s: Seq<TaskStatus>) -> bool {
    forall|i: int| 0 <= i < s.len() ==> s[i] != TaskStatus::Ready
}

/// `n` statuses, all `Ready`.
pub open spec fn all_ready(n: nat) -> Seq<TaskStatus> {
    Seq::new(n, |i: int| TaskStatus::Ready)
}

/// The index dispatched before step `t` of a run that starts at `cur`.
pub open spec fn pick_before(cur: int, picks: Seq<int>, t: int) -> int {
    if t == 0 {
        cur
    } else {
        picks[t - 1]
    }
}

/// Where all `n` tasks take part, a run of yields visits them in circular
/// order: step `t` of a run that starts at `cur` dispatches the task
/// `t + 1` places after it, so every `n` steps each task runs once and the
/// order repeats.
pub proof fn lemma_round_robin_run(n: nat, cur: int, picks: Seq<int>)
    requires
        n >= 1,
        0 <= cur < n,
        forall|t: int| 0 <= t < picks.len() ==> is_next_ready(all_ready(n), #[trigger] pick_before(cur, picks, t), picks[t]),
    ensures
        forall|t: int| 0 <= t < picks.len() ==> #[trigger] picks[t] == (cur + t + 1) % (n as int),
    decreases picks.len(),
{
    if picks.len() > 0 {
        let k = picks.len() - 1;
        let prefix = picks.drop_last();
        assert forall|t: int| 0 <= t < prefix.len() implies is_next_ready(all_ready(n), #[trigger] pick_before(cur, prefix, t), prefix[t]) by {
            assert(pick_before(cur, prefix, t) == pick_before(cur, picks, t));
            assert(is_next_ready(all_ready(n), pick_before(cur, picks, t), picks[t]));
        }
        lemma_round_robin_run(n, cur, prefix);
        let prev = pick_before(cur, picks, k);
        assert(is_next_ready(all_ready(n), prev, picks[k]));
        assert(prev == (cur + k) % (n as int)) by {
            if k > 0 {
                assert(prefix[k - 1] == (cur + (k - 1) + 1) % (n as int));
            } else {
                assert(cur % (n as int) == cur) by (nonlinear_arith)
                    requires 0 <= cur < n;
            }
        }
        assert(0 <= prev < n) by (nonlinear_arith)
            requires prev == (cur + k) % (n as int), n >= 1;
        let s = all_ready(n);
        let d = choose|d: int| 1 <= d <= s.len() && picks[k] == circ(prev, d, s.len() as int) && s[picks[k]] == TaskStatus::Ready && forall|e: int|
            1 <= e < d ==> s[#[trigger] circ(prev, e, s.len() as int)] != TaskStatus::Ready;
        if d > 1 {
            assert(s[circ(prev, 1, n as int)] == TaskStatus::Ready);
        }
        assert(picks[k] == (cur + k + 1) % (n as int)) by (nonlinear_arith)
            requires picks[k] == (if prev + 1 < n { prev + 1 } else { prev + 1 - n }), prev == (cur + k) % (n as int), n >= 1, cur >= 0, k >= 0;
        assert forall|t: int| 0 <= t < picks.len() implies #[trigger] picks[t] == (cur + t + 1) % (n as int) by {
            if t < k {
                assert(prefix[t] == picks[t]);
            }
        }
    }
}

/// Changing one task keeps the table well formed where that task is, and
/// leaves none running where it was the running one and now is not.
pub proof fn lemma_update_wf(a: &TaskManager, b: &TaskManager, j: int)
    requires
        a.wf(),
        0 <= j < a.tasks@.len(),
        b.tasks@.len() == a.tasks@.len(),
        b.frames.wf(),
        b.next_pid == a.next_pid,
        b.current_task == a.current_task,
        forall|i: int| 0 <= i < a.tasks@.len() && i != j ==> b.tasks@[i] == a.tasks@[i],
        b.task_wf(j),
    ensures
        b.wf(),
        j == a.current_task && a.running() && b.status(j) != TaskStatus::Running ==> b.idle(),
        a.idle() && b.status(j) != TaskStatus::Running ==> b.idle(),
{
    assert forall|i: int| 0 <= i < b.tasks@.len() implies #[trigger] b.task_wf(i) by {
        if i != j {
            assert(a.task_wf(i));
        }
    }
    assert forall|i: int| 0 <= i < b.tasks@.len() && i != j implies b.status(i) != TaskStatus::Running
        || i == a.current_task by {
        assert(a.task_wf(i));
        assert(b.tasks@[i] == a.tasks@[i]);
    }
    if a.idle() {
        assert forall|i: int| 0 <= i < b.tasks@.len() && i != j implies b.status(i) != TaskStatus::Running by {
            assert(b.tasks@[i] == a.tasks@[i]);
        }
    }
}

/// Dispatch order is fixed by the statuses alone: the task chosen after
/// `cur` is the first `Ready` one going round the list, skipping every task
/// that is `Blocked`, `Exited` or running.
pub proof fn lemma_next_ready_unique(s: Seq<TaskStatus>, cur: int, d: int, j: int)
    requires
        0 <= cur < s.len(),
        1 <= d <= s.len(),
        s[circ(cur, d, s.len() as int)] == TaskStatus::Ready,
        forall|e: int| 1 <= e < d ==> s[#[trigger] circ(cur, e, s.len() as int)] != TaskStatus::Ready,
        is_next_ready(s, cur, j),
    ensures
        j == circ(cur, d, s.len() as int),
{
    let n = s.len() as int;
    let d2 = choose|d2: int| 1 <= d2 <= n && j == circ(cur, d2, n) && s[j] == TaskStatus::Ready && forall|e: int|
        1 <= e < d2 ==> s[#[trigger] circ(cur, e, n)] != TaskStatus::Ready;
    if d2 < d {
        assert(s[circ(cur, d2, n)] != TaskStatus::Ready);
    } else if d2 > d {
        assert(s[circ(cur, d, n)] != TaskStatus::Ready);
    }
}

/// Where every other task is `Ready`, the next one dispatched after `cur`
/// is its successor in the list, wrapping round at the end.
pub proof fn lemma_round_robin_successor(s: Seq<TaskStatus>, cur: int, j: int)
    requires
        0 <= cur < s.len(),
        s.len() >= 2,
        forall|i: int| 0 <= i < s.len() && i != cur ==> s[i] == TaskStatus::Ready,
        is_next_ready(s, cur, j),
    ensures
        j == if cur + 1 < s.len() { cur + 1 } else { 0 },
{
    assert(circ(cur, 1, s.len() as int) != cur);
    lemma_next_ready_unique(s, cur, 1, j);
}

/// The flags that `mmap` gives its pages for permission bits `port`:
/// read, write and execute from bits 0, 1 and 2, and always user access.
pub open spec fn mmap_flags(port: usize) -> u8 {
    PTE_V | ((port as u8) << 1u8) | PTE_U
}

/// The flags of heap pages.
pub open spec fn heap_flags() -> u8 {
    PTE_V | PTE_R | PTE_W | PTE_U
}

/// The pages `mmap` and `munmap` act on for the bytes `start .. start + len`.
pub open spec fn range_first(start: usize) -> int {
    page_floor(start as int)
}

pub open spec fn range_end(start: usize, len: usize) -> int {
    page_ceil(start as int + len as int)
}

/// The permission bits of an `mmap` page are `port`, with user access,
/// in a valid entry.
pub proof fn lemma_mmap_flags(port: usize)
    requires
        1 <= port < 8,
    ensures
        (mmap_flags(port) >> 1u8) & 7u8 == port as u8,
        mmap_flags(port) & PTE_U != 0,
        mmap_flags(port) & PTE_V != 0,
{
    let p = port as u8;
    assert(p < 8);
    assert(((1u8 | (p << 1u8) | 16u8) >> 1u8) & 7u8 == p) by (bit_vector)
        requires p < 8;
    assert((1u8 | (p << 1u8) | 16u8) & 16u8 != 0) by (bit_vector);
    assert((1u8 | (p << 1u8) | 16u8) & 1u8 != 0) by (bit_vector);
}

/// `b` is `a` with another address space.
pub open spec fn with_space(a: TaskControlBlock, ms: MemorySet) -> TaskControlBlock {
    TaskControlBlock { inner: TaskControlBlockInner { memory_set: ms, ..a.inner }, ..a }
}

/// `a` with another address space and program break.
pub open spec fn with_heap(a: TaskControlBlock, ms: MemorySet, brk: usize) -> TaskControlBlock {
    TaskControlBlock { inner: TaskControlBlockInner { memory_set: ms, program_brk: brk, ..a.inner }, ..a }
}

/// `v` lies between `a` and `b`, whichever is larger.
pub open spec fn between(a: int, b: int, v: int) -> bool {
    if a <= b {
        a <= v < b
    } else {
        b <= v < a
    }
}

/// What the running task reports of itself.
pub struct TaskInfoTMP {
    /// Task status in its life cycle
    pub status: TaskStatus,
    /// The numbers of syscall called by task
    pub syscall_times: [u32; MAX_SYSCALL_NUM],
    /// When the task was created
    pub time: usize,
}

/// `t` with its status set to `st`.
pub open spec fn with_status(t: TaskControlBlock, st: TaskStatus) -> TaskControlBlock {
    TaskControlBlock { inner: TaskControlBlockInner { task_status: st, ..t.inner }, ..t }
}

impl TaskManager {
    pub open spec fn status(&self, i: int) -> TaskStatus {
        self.tasks@[i].inner.task_status
    }

    /// The invariant of the task table.
    pub open spec fn wf(&self) -> bool {
        &&& self.frames.wf()
        &&& self.next_pid <= isize::MAX
        &&& self.tasks@.len() > 0 ==> self.current_task < self.tasks@.len()
        &&& self.tasks@.len() == 0 ==> self.current_task == 0
        &&& forall|i: int| 0 <= i < self.tasks@.len() ==> #[trigger] self.task_wf(i)
    }

    /// What holds of the task at `i`.
    pub open spec fn task_wf(&self, i: int) -> bool {
        &&& self.tasks@[i].inner.memory_set.wf()
        &&& self.tasks@[i].pid < self.next_pid
        &&& self.tasks@[i].inner.task_status == TaskStatus::Exited ==> self.tasks@[i].inner.exit_code.is_some()
        &&& self.tasks@[i].inner.task_status == TaskStatus::Running ==> i == self.current_task
    }

    /// The address space of the running task.
    pub open spec fn space(&self) -> MemorySet {
        self.tasks@[self.current_task as int].inner.memory_set
    }

    /// Only the running task changed, and in it only what `t` says.
    pub open spec fn only_current_is(&self, old: &TaskManager, t: TaskControlBlock) -> bool {
        &&& self.tasks@ == old.tasks@.update(old.current_task as int, t)
        &&& self.current_task == old.current_task
        &&& self.next_pid == old.next_pid
    }

    /// A task runs, at `current_task`.
    pub open spec fn running(&self) -> bool {
        &&& self.current_task < self.tasks@.len()
        &&& self.status(self.current_task as int) == TaskStatus::Running
    }

    /// No task runs.
    pub open spec fn idle(&self) -> bool {
        forall|i: int| 0 <= i < self.tasks@.len() ==> self.status(i) != TaskStatus::Running
    }

    /// Whether a task runs.
    pub fn has_current(&self) -> (r: bool)
        ensures
            r == self.running(),
    {
        self.current_task < self.tasks.len() && self.tasks[self.current_task].inner.task_status == TaskStatus::Running
    }

    /// Whether no task runs.
    pub fn is_idle(&self) -> (r: bool)
        ensures
            r == self.idle(),
    {
        let mut i: usize = 0;
        while i < self.tasks.len()
            invariant
                i <= self.tasks@.len(),
                forall|k: int| 0 <= k < i ==> self.status(k) != TaskStatus::Running,
            decreases self.tasks@.len() - i,
        {
            if self.tasks[i].inner.task_status == TaskStatus::Running {
                assert(self.status(i as int) == TaskStatus::Running);
                return false;
            }
            i = i + 1;
        }
        true
    }

    /// An empty table drawing on the physical frames `first_frame .. end_frame`.
    pub fn new(first_frame: usize, end_frame: usize) -> (r: TaskManager)
        ensures
            r.wf(),
            r.tasks@.len() == 0,
            r.frames.available() == if first_frame <= end_frame { end_frame - first_frame } else { 0 },
    {
        TaskManager {
            tasks: Vec::new(),
            current_task: 0,
            frames: FrameAllocator::new(first_frame, end_frame),
            next_pid: 0,
        }
    }

    /// Find next task to run and return its index: the first `Ready` task
    /// after the current one, going round the list.
    pub fn find_next_task(&self) -> (r: Option<usize>)
        requires
            self.current_task < self.tasks@.len(),
        ensures
            r.is_some() ==> is_next_ready(statuses(self.tasks@), self.current_task as int, r.unwrap() as int),
            r.is_none() ==> none_ready(statuses(self.tasks@)),
    {
        let n = self.tasks.len();
        let cur = self.current_task;
        let ghost s = statuses(self.tasks@);
        let mut k: usize = 0;
        while k < n
            invariant
                n == self.tasks@.len(),
                s == statuses(self.tasks@),
                s.len() == n,
                cur == self.current_task,
                cur < n,
                k <= n,
                forall|e: int| 1 <= e <= k ==> s[#[trigger] circ(cur as int, e, n as int)] != TaskStatus::Ready,
            decreases n - k,
        {
            let d = k + 1;
            let id = if d < n - cur { cur + d } else { d - (n - cur) };
            assert(id == circ(cur as int, d as int, n as int));
            if self.tasks[id].inner.task_status == TaskStatus::Ready {
                assert(is_next_ready(s, cur as int, id as int)) by {
                    assert(s[id as int] == TaskStatus::Ready);
                    assert(forall|e: int| 1 <= e < d ==> s[#[trigger] circ(cur as int, e, n as int)] != TaskStatus::Ready);
                    assert(1 <= d <= s.len() && id == circ(cur as int, d as int, s.len() as int));
                }
                return Some(id);
            }
            k = k + 1;
        }
        proof {
            assert forall|i: int| 0 <= i < s.len() implies s[i] != TaskStatus::Ready by {
                if i > cur {
                    assert(i == circ(cur as int, i - cur, n as int));
                } else {
                    assert(i == circ(cur as int, i + n - cur, n as int));
                }
            }
        }
        None
    }

    /// Marks task 0 `Running` and makes it the current task.
    pub fn run_first_task(&mut self)
        requires
            old(self).wf(),
            old(self).idle(),
            old(self).tasks@.len() > 0,
            old(self).status(0) == TaskStatus::Ready,
        ensures
            final(self).wf(),
            final(self).running(),
            final(self).current_task == 0,
            final(self).tasks@ == old(self).tasks@.update(0, with_status(old(self).tasks@[0], TaskStatus::Running)),
            final(self).frames == old(self).frames,
            final(self).next_pid == old(self).next_pid,
    {
        self.tasks[0].inner.task_status = TaskStatus::Running;
        self.current_task = 0;
        assert(self.tasks@ =~= old(self).tasks@.update(0, with_status(old(self).tasks@[0], TaskStatus::Running)));
        assert forall|i: int| 0 <= i < self.tasks@.len() implies #[trigger] self.task_wf(i) by {
            assert(old(self).task_wf(i));
            assert(old(self).status(i) != TaskStatus::Running);
        }
    }

    /// Dispatches the first `Ready` task after the current one, going round
    /// the list; `false` where no task is `Ready`, which leaves all as it was.
    pub fn run_next_task(&mut self) -> (r: bool)
        requires
            old(self).wf(),
            old(self).idle(),
            old(self).current_task < old(self).tasks@.len(),
        ensures
            final(self).wf(),
            r == !none_ready(statuses(old(self).tasks@)),
            r ==> {
                &&& is_next_ready(statuses(old(self).tasks@), old(self).current_task as int, final(self).current_task as int)
                &&& final(self).running()
                &&& final(self).tasks@ == old(self).tasks@.update(final(self).current_task as int,
                    with_status(old(self).tasks@[final(self).current_task as int], TaskStatus::Running))
                &&& final(self).frames == old(self).frames
                &&& final(self).next_pid == old(self).next_pid
            },
            !r ==> *final(self) == *old(self),
    {
        match self.find_next_task() {
            Some(next) => {
                proof {
                    let s = statuses(old(self).tasks@);
                    let d = choose|d: int| 1 <= d <= s.len() && next == circ(old(self).current_task as int, d, s.len() as int)
                        && s[next as int] == TaskStatus::Ready && forall|e: int|
                        1 <= e < d ==> s[#[trigger] circ(old(self).current_task as int, e, s.len() as int)] != TaskStatus::Ready;
                    assert(s[next as int] == TaskStatus::Ready);
                }
                self.tasks[next].inner.task_status = TaskStatus::Running;
                self.current_task = next;
                assert(self.tasks@ =~= old(self).tasks@.update(next as int, with_status(old(self).tasks@[next as int], TaskStatus::Running)));
                assert forall|i: int| 0 <= i < self.tasks@.len() implies #[trigger] self.task_wf(i) by {
                    assert(old(self).task_wf(i));
                    assert(old(self).status(i) != TaskStatus::Running);
                }
                true
            },
            None => {
                proof {
                    if self.tasks@.len() > 0 {
                        let s = statuses(self.tasks@);
                        assert(s[self.current_task as int] != TaskStatus::Ready);
                    }
                }
                false
            },
        }
    }

    /// Sets the status of the running task, which then no longer runs.
    pub fn mark_current(&mut self, st: TaskStatus)
        requires
            old(self).wf(),
            old(self).running(),
            st == TaskStatus::Ready || st == TaskStatus::Blocked,
        ensures
            final(self).wf(),
            final(self).idle(),
            final(self).current_task == old(self).current_task,
            final(self).tasks@ == old(self).tasks@.update(old(self).current_task as int,
                with_status(old(self).tasks@[old(self).current_task as int], st)),
            final(self).frames == old(self).frames,
            final(self).next_pid == old(self).next_pid,
    {
        let cur = self.current_task;
        self.tasks[cur].inner.task_status = st;
        assert(self.tasks@ =~= old(self).tasks@.update(cur as int, with_status(old(self).tasks@[cur as int], st)));
        proof {
            assert(old(self).task_wf(cur as int));
            lemma_update_wf(old(self), self, cur as int);
        }
    }

    /// Change the status of current `Running` task into `Ready`.
    pub fn mark_current_suspended(&mut self)
        requires
            old(self).wf(),
            old(self).running(),
        ensures
            final(self).wf(),
            final(self).idle(),
            final(self).current_task == old(self).current_task,
            final(self).tasks@ == old(self).tasks@.update(old(self).current_task as int,
                with_status(old(self).tasks@[old(self).current_task as int], TaskStatus::Ready)),
            final(self).frames == old(self).frames,
            final(self).next_pid == old(self).next_pid,
    {
        self.mark_current(TaskStatus::Ready);
    }

    /// Change the status of current `Running` task into `Exited`, record
    /// its exit code and give back the frames of its address space.
    pub fn mark_current_exited(&mut self, exit_code: i32)
        requires
            old(self).wf(),
            old(self).running(),
        ensures
            final(self).wf(),
            final(self).idle(),
            final(self).current_task == old(self).current_task,
            final(self).tasks@.len() == old(self).tasks@.len(),
            final(self).next_pid == old(self).next_pid,
            forall|i: int| 0 <= i < old(self).tasks@.len() && i != old(self).current_task ==>
                final(self).tasks@[i] == old(self).tasks@[i],
            ({
                let (a, b) = (old(self).tasks@[old(self).current_task as int], final(self).tasks@[old(self).current_task as int]);
                &&& b.pid == a.pid
                &&& b.inner.parent == a.inner.parent
                &&& b.inner.task_status == TaskStatus::Exited
                &&& b.inner.exit_code == Some(exit_code)
                &&& b.inner.memory_set.frame_count() == 0
                &&& forall|v: usize| (#[trigger] b.inner.memory_set.translate_spec(v)).is_none()
            }),
            final(self).frames.available() == old(self).frames.available()
                + old(self).tasks@[old(self).current_task as int].inner.memory_set.frame_count(),
    {
        let cur = self.current_task;
        self.tasks[cur].inner.task_status = TaskStatus::Exited;
        self.tasks[cur].inner.exit_code = Some(exit_code);
        assert(old(self).task_wf(cur as int));
        self.tasks[cur].inner.memory_set.recycle_data_pages(&mut self.frames);
        proof {
            lemma_update_wf(old(self), self, cur as int);
        }
    }

    /// Makes a `Blocked` task `Ready` again.
    pub fn wakeup_task(&mut self, idx: usize) -> (r: bool)
        requires
            old(self).wf(),
        ensures
            final(self).wf(),
            r == (idx < old(self).tasks@.len() && old(self).status(idx as int) == TaskStatus::Blocked),
            r ==> final(self).tasks@ == old(self).tasks@.update(idx as int, with_status(old(self).tasks@[idx as int], TaskStatus::Ready)),
            !r ==> final(self).tasks@ == old(self).tasks@,
            final(self).current_task == old(self).current_task,
            final(self).frames == old(self).frames,
            final(self).next_pid == old(self).next_pid,
    {
        if idx < self.tasks.len() && self.tasks[idx].inner.task_status == TaskStatus::Blocked {
            self.tasks[idx].inner.task_status = TaskStatus::Ready;
            assert(self.tasks@ =~= old(self).tasks@.update(idx as int, with_status(old(self).tasks@[idx as int], TaskStatus::Ready)));
            proof {
                assert(old(self).task_wf(idx as int));
                lemma_update_wf(old(self), self, idx as int);
            }
            true
        } else {
            false
        }
    }
}


/// Suspend the current 'Running' task and run the next task in task list.
/// The suspended task is itself `Ready`, so some task is always dispatched.
pub fn suspend_current_and_run_next(m: &mut TaskManager)
    requires
        old(m).wf(),
        old(m).running(),
    ensures
        final(m).wf(),
        final(m).running(),
        is_next_ready(statuses(old(m).tasks@).update(old(m).current_task as int, TaskStatus::Ready),
            old(m).current_task as int, final(m).current_task as int),
        final(m).tasks@ == old(m).tasks@.update(old(m).current_task as int,
            with_status(old(m).tasks@[old(m).current_task as int], TaskStatus::Ready)).update(
            final(m).current_task as int, with_status(old(m).tasks@[final(m).current_task as int], TaskStatus::Running)),
        final(m).frames == old(m).frames,
        final(m).next_pid == old(m).next_pid,
{
    let ghost cur = m.current_task as int;
    m.mark_current_suspended();
    let ghost mid = m.tasks@;
    assert(statuses(mid) =~= statuses(old(m).tasks@).update(cur, TaskStatus::Ready));
    let found = m.run_next_task();
    proof {
        if !found {
            assert(statuses(mid)[cur] == TaskStatus::Ready);
        }
        let j = m.current_task as int;
        if j != cur {
            assert(mid[j] == old(m).tasks@[j]);
        }
        assert(with_status(mid[j], TaskStatus::Running) == with_status(old(m).tasks@[j], TaskStatus::Running));
    }
}

/// Block the current 'Running' task until it is woken, and run the next
/// `Ready` one; `false` where there is none.
pub fn block_current_and_run_next(m: &mut TaskManager) -> (r: bool)
    requires
        old(m).wf(),
        old(m).running(),
    ensures
        final(m).wf(),
        r == !none_ready(statuses(old(m).tasks@).update(old(m).current_task as int, TaskStatus::Blocked)),
        r ==> final(m).running() && is_next_ready(statuses(old(m).tasks@).update(old(m).current_task as int,
            TaskStatus::Blocked), old(m).current_task as int, final(m).current_task as int),
        final(m).status(old(m).current_task as int) == TaskStatus::Blocked,
        final(m).tasks@.len() == old(m).tasks@.len(),
{
    let ghost cur = m.current_task as int;
    m.mark_current(TaskStatus::Blocked);
    assert(statuses(m.tasks@) =~= statuses(old(m).tasks@).update(cur, TaskStatus::Blocked));
    m.run_next_task()
}

/// Exit the current 'Running' task and run the next `Ready` one; `false`
/// where there is none, and then all work is done.
pub fn exit_current_and_run_next(m: &mut TaskManager, exit_code: i32) -> (r: bool)
    requires
        old(m).wf(),
        old(m).running(),
    ensures
        final(m).wf(),
        r == !none_ready(statuses(old(m).tasks@).update(old(m).current_task as int, TaskStatus::Exited)),
        r ==> final(m).running() && is_next_ready(statuses(old(m).tasks@).update(old(m).current_task as int,
            TaskStatus::Exited), old(m).current_task as int, final(m).current_task as int),
        final(m).status(old(m).current_task as int) == TaskStatus::Exited,
        final(m).tasks@[old(m).current_task as int].inner.exit_code == Some(exit_code),
        final(m).tasks@.len() == old(m).tasks@.len(),
{
    let ghost cur = m.current_task as int;
    m.mark_current_exited(exit_code);
    assert(statuses(m.tasks@) =~= statuses(old(m).tasks@).update(cur, TaskStatus::Exited));
    m.run_next_task()
}


impl TaskManager {
    /// Maps the pages of `start .. start + len` for the running task with
    /// permission bits `port`: `-1`, changing nothing, where the range
    /// overflows, a page in it is mapped, or too few frames are free.
    pub fn mmap(&mut self, start: usize, len: usize, port: usize) -> (r: isize)
        requires
            old(self).wf(),
            old(self).running(),
            1 <= port < 8,
        ensures
            final(self).wf(),
            final(self).running(),
            r == 0 || r == -1,
            r == 0 <==> {
                &&& start + len <= usize::MAX
                &&& forall|v: usize| range_first(start) <= v < range_end(start, len) ==> !old(self).space().mapped(v)
                &&& range_end(start, len) - range_first(start) <= old(self).frames.available()
            },
            r == -1 ==> *final(self) == *old(self),
            r == 0 ==> {
                &&& final(self).only_current_is(old(self), with_space(old(self).tasks@[old(self).current_task as int], final(self).space()))
                &&& final(self).space().token_spec() == old(self).space().token_spec()
                &&& forall|v: usize| range_first(start) <= v < range_end(start, len) ==> (#[trigger] final(self).space().translate_spec(v)).is_some()
                    && final(self).space().translate_spec(v).unwrap().flags == mmap_flags(port)
                &&& forall|v: usize| !(range_first(start) <= v < range_end(start, len)) ==> #[trigger] final(self).space().translate_spec(v)
                    == old(self).space().translate_spec(v)
            },
    {
        if start > usize::MAX - len {
            return -1;
        }
        let cur = self.current_task;
        let first = floor_vpn(start);
        let end = ceil_vpn(start + len);
        assert(first <= end) by (nonlinear_arith)
            requires first == page_floor(start as int), end == page_ceil(start + len), len >= 0;
        proof {
            assert(old(self).task_wf(cur as int));
        }
        if self.tasks[cur].inner.memory_set.any_mapped(first, end) {
            return -1;
        }
        if !self.frames.has_frames(end - first) {
            return -1;
        }
        let flags = PTE_V | ((port as u8) << 1u8) | PTE_U;
        proof {
            lemma_mmap_flags(port);
        }
        self.tasks[cur].inner.memory_set.insert_framed_area(&mut self.frames, first, end, flags);
        proof {
            lemma_update_wf(old(self), self, cur as int);
            assert(self.tasks@ =~= old(self).tasks@.update(cur as int, with_space(old(self).tasks@[cur as int], self.space())));
        }
        0
    }

    /// Unmaps the pages of `start .. start + len` of the running task: `-1`,
    /// changing nothing, where the range overflows or a page in it is not
    /// mapped.
    pub fn ummap(&mut self, start: usize, len: usize) -> (r: isize)
        requires
            old(self).wf(),
            old(self).running(),
        ensures
            final(self).wf(),
            final(self).running(),
            r == 0 || r == -1,
            r == 0 <==> {
                &&& start + len <= usize::MAX
                &&& forall|v: usize| range_first(start) <= v < range_end(start, len) ==> old(self).space().mapped(v)
            },
            r == -1 ==> *final(self) == *old(self),
            r == 0 ==> {
                &&& final(self).only_current_is(old(self), with_space(old(self).tasks@[old(self).current_task as int], final(self).space()))
                &&& final(self).space().token_spec() == old(self).space().token_spec()
                &&& forall|v: usize| range_first(start) <= v < range_end(start, len) ==> (#[trigger] final(self).space().translate_spec(v)).is_none()
                &&& forall|v: usize| !(range_first(start) <= v < range_end(start, len)) ==> #[trigger] final(self).space().translate_spec(v)
                    == old(self).space().translate_spec(v)
                &&& final(self).frames.available() == old(self).frames.available() + (range_end(start, len) - range_first(start))
            },
    {
        if start > usize::MAX - len {
            return -1;
        }
        let cur = self.current_task;
        let first = floor_vpn(start);
        let end = ceil_vpn(start + len);
        proof {
            assert(old(self).task_wf(cur as int));
        }
        if !self.tasks[cur].inner.memory_set.all_mapped(first, end) {
            return -1;
        }
        let mut v = first;
        assert(self.tasks@ =~= old(self).tasks@.update(cur as int, with_space(old(self).tasks@[cur as int], self.space())));
        while v < end
            invariant
                first <= v <= end,
                first == range_first(start),
                end == range_end(start, len),
                cur == old(self).current_task,
                cur < old(self).tasks@.len(),
                old(self).wf(),
                old(self).running(),
                self.current_task == cur,
                self.next_pid == old(self).next_pid,
                self.tasks@ == old(self).tasks@.update(cur as int, with_space(old(self).tasks@[cur as int], self.space())),
                self.space().wf(),
                self.frames.wf(),
                self.space().token_spec() == old(self).space().token_spec(),
                self.frames.available() == old(self).frames.available() + (v - first),
                forall|u: usize| first <= u < end ==> old(self).space().mapped(u),
                forall|u: usize| first <= u < v ==> (#[trigger] self.space().translate_spec(u)).is_none(),
                forall|u: usize| !(first <= u < v) ==> #[trigger] self.space().translate_spec(u)
                    == old(self).space().translate_spec(u),
            decreases end - v,
        {
            assert(old(self).space().mapped(v));
            assert(self.space().translate_spec(v) == old(self).space().translate_spec(v));
            self.tasks[cur].inner.memory_set.unmap_page(&mut self.frames, v);
            assert(self.tasks@ =~= old(self).tasks@.update(cur as int, with_space(old(self).tasks@[cur as int], self.space())));
            v = v + 1;
        }
        proof {
            assert(self.tasks@[cur as int].inner.memory_set == self.space());
            assert(self.task_wf(cur as int));
            lemma_update_wf(old(self), self, cur as int);
        }
        0
    }

    /// Moves the running task's program break by `size` bytes, mapping or
    /// unmapping the heap pages in between. Returns the break before the
    /// move, or `None`, changing nothing, where the new break would lie
    /// below the heap's bottom or past the address space, a page to be added
    /// is mapped already, or too few frames are free.
    pub fn change_current_program_brk(&mut self, size: i32) -> (r: Option<usize>)
        requires
            old(self).wf(),
            old(self).running(),
        ensures
            final(self).wf(),
            final(self).running(),
            ({
                let t = old(self).tasks@[old(self).current_task as int];
                let brk = t.inner.program_brk as int;
                let new_brk = brk + size as int;
                let (old_top, new_top) = (page_ceil(brk), page_ceil(new_brk));
                &&& r.is_some() <==> {
                    &&& t.inner.heap_bottom <= new_brk <= usize::MAX
                    &&& new_top > old_top ==> new_top - old_top <= old(self).frames.available()
                        && forall|v: usize| old_top <= v < new_top ==> !old(self).space().mapped(v)
                }
                &&& r.is_none() ==> *final(self) == *old(self)
                &&& r.is_some() ==> {
                    &&& r.unwrap() == brk
                    &&& final(self).only_current_is(old(self), with_heap(t, final(self).space(), new_brk as usize))
                    &&& final(self).space().token_spec() == old(self).space().token_spec()
                    &&& forall|v: usize| old_top <= v < new_top ==> (#[trigger] final(self).space().translate_spec(v)).is_some()
                        && final(self).space().translate_spec(v).unwrap().flags == heap_flags()
                    &&& forall|v: usize| new_top <= v < old_top ==> (#[trigger] final(self).space().translate_spec(v)).is_none()
                    &&& forall|v: usize| !between(old_top, new_top, v as int) ==> #[trigger] final(self).space().translate_spec(v)
                        == old(self).space().translate_spec(v)
                }
            }),
    {
        let cur = self.current_task;
        let old_brk = self.tasks[cur].inner.program_brk;
        let bottom = self.tasks[cur].inner.heap_bottom;
        let new_brk: usize;
        if size >= 0 {
            let inc = size as usize;
            if old_brk > usize::MAX - inc {
                return None;
            }
            new_brk = old_brk + inc;
        } else {
            let dec = (-(size as i64)) as usize;
            if old_brk < dec || old_brk - dec < bottom {
                return None;
            }
            new_brk = old_brk - dec;
        }
        if new_brk < bottom {
            return None;
        }
        let old_top = ceil_vpn(old_brk);
        let new_top = ceil_vpn(new_brk);
        proof {
            assert(old(self).task_wf(cur as int));
        }
        if new_top > old_top {
            if self.tasks[cur].inner.memory_set.any_mapped(old_top, new_top) {
                return None;
            }
            if !self.frames.has_frames(new_top - old_top) {
                return None;
            }
            let flags = PTE_V | PTE_R | PTE_W | PTE_U;
            assert(flags & PTE_V != 0) by (bit_vector)
                requires flags == 1u8 | 2u8 | 4u8 | 16u8;
            self.tasks[cur].inner.memory_set.insert_framed_area(&mut self.frames, old_top, new_top, flags);
        } else if new_top < old_top {
            self.tasks[cur].inner.memory_set.delete_framed_area(&mut self.frames, new_top, old_top);
        }
        self.tasks[cur].inner.program_brk = new_brk;
        proof {
            lemma_update_wf(old(self), self, cur as int);
            assert(self.tasks@ =~= old(self).tasks@.update(cur as int,
                with_heap(old(self).tasks@[cur as int], self.space(), new_brk)));
        }
        Some(old_brk)
    }

    /// Counts one more call of system call `syscall_id` by the running
    /// task; the count stays at its maximum once there.
    pub fn inc_syscall_times(&mut self, syscall_id: usize)
        requires
            old(self).wf(),
            old(self).running(),
            syscall_id < MAX_SYSCALL_NUM,
        ensures
            final(self).wf(),
            final(self).running(),
            ({
                let (a, b) = (old(self).tasks@[old(self).current_task as int], final(self).tasks@[old(self).current_task as int]);
                let n = a.inner.syscall_times@[syscall_id as int];
                &&& b.inner.syscall_times@ == a.inner.syscall_times@.update(syscall_id as int,
                    if n < u32::MAX { (n + 1) as u32 } else { n })
                &&& final(self).only_current_is(old(self), TaskControlBlock {
                    inner: TaskControlBlockInner { syscall_times: b.inner.syscall_times, ..a.inner }, ..a })
            }),
            final(self).frames == old(self).frames,
    {
        let cur = self.current_task;
        let n = self.tasks[cur].inner.syscall_times[syscall_id];
        let next = if n < u32::MAX { n + 1 } else { n };
        self.tasks[cur].inner.syscall_times[syscall_id] = next;
        proof {
            assert(old(self).task_wf(cur as int));
            lemma_update_wf(old(self), self, cur as int);
            let (a, b) = (old(self).tasks@[cur as int], self.tasks@[cur as int]);
            assert(self.tasks@ =~= old(self).tasks@.update(cur as int, TaskControlBlock {
                inner: TaskControlBlockInner { syscall_times: b.inner.syscall_times, ..a.inner }, ..a }));
        }
    }

    /// The running task's status, system call counts and start time.
    pub fn get_current_task(&self) -> (r: TaskInfoTMP)
        requires
            self.running(),
        ensures
            r.status == TaskStatus::Running,
            r.syscall_times == self.tasks@[self.current_task as int].inner.syscall_times,
            r.time == self.tasks@[self.current_task as int].inner.start_time,
    {
        let cur = self.current_task;
        TaskInfoTMP {
            status: TaskStatus::Running,
            syscall_times: self.tasks[cur].inner.syscall_times,
            time: self.tasks[cur].inner.start_time,
        }
    }

    /// Get the current 'Running' task's trap context.
    pub fn get_current_trap_cx(&mut self) -> (r: &mut TrapContext)
        requires
            old(self).running(),
        ensures
            *r == old(self).tasks@[old(self).current_task as int].inner.trap_cx,
            final(self).tasks@ == old(self).tasks@.update(old(self).current_task as int, ({
                let t = old(self).tasks@[old(self).current_task as int];
                TaskControlBlock { inner: TaskControlBlockInner { trap_cx: *final(r), ..t.inner }, ..t }
            })),
            final(self).current_task == old(self).current_task,
            final(self).frames == old(self).frames,
            final(self).next_pid == old(self).next_pid,
    {
        let cur = self.current_task;
        self.tasks[cur].inner.get_trap_cx()
    }

    /// Get the current 'Running' task's token.
    pub fn get_current_token(&self) -> (r: usize)
        requires
            self.running(),
        ensures
            r == self.space().token_spec(),
    {
        self.tasks[self.current_task].get_user_token()
    }

    /// Creates a `Ready` process running `image`, the child of `parent`
    /// where that is given, and returns its pid: `None`, changing nothing,
    /// where pids have run out, the image's segments are out of order, or
    /// too few frames are free.
    pub fn new_process(&mut self, image: &ProgramImage, parent: Option<usize>, now_ms: usize) -> (r: Option<usize>)
        requires
            old(self).wf(),
        ensures
            final(self).wf(),
            r.is_some() <==> {
                &&& old(self).next_pid < isize::MAX
                &&& segs_ordered(image.segments@)
                &&& pages_upto(image.segments@, image.segments@.len() as int) <= old(self).frames.available()
                &&& pages_upto(image.segments@, image.segments@.len() as int) <= usize::MAX
            },
            r.is_none() ==> *final(self) == *old(self),
            r.is_some() ==> {
                let t = final(self).tasks@.last();
                &&& r.unwrap() == old(self).next_pid
                &&& final(self).next_pid == old(self).next_pid + 1
                &&& final(self).current_task == old(self).current_task
                &&& final(self).tasks@.len() == old(self).tasks@.len() + 1
                &&& final(self).tasks@.drop_last() == old(self).tasks@
                &&& t.pid == r.unwrap()
                &&& t.inner.parent == parent
                &&& t.inner.task_status == TaskStatus::Ready
                &&& t.inner.trap_cx.sepc == image.entry
                &&& t.inner.trap_cx.x@[2] == image.user_sp
                &&& t.inner.program_brk == image.user_sp
                &&& t.inner.start_time == now_ms
                &&& forall|v: usize| (#[trigger] t.inner.memory_set.translate_spec(v)).is_some()
                    <==> in_segs(image.segments@, image.segments@.len() as int, v)
                &&& forall|k: int, v: usize| #![trigger image.segments@[k], t.inner.memory_set.translate_spec(v)] 0 <= k < image.segments@.len() && seg_first(image.segments@[k]) <= v < seg_last(image.segments@[k])
                    ==> t.inner.memory_set.translate_spec(v).unwrap().flags == seg_flags(image.segments@[k])
            },
    {
        if self.next_pid >= isize::MAX as usize {
            return None;
        }
        let pid = self.next_pid;
        let ms = match MemorySet::from_segments(&mut self.frames, pid, &image.segments) {
            Some(ms) => ms,
            None => {
                return None;
            },
        };
        let trap_cx = TrapContext::app_init_context(image.entry, image.user_sp);
        let t = TaskControlBlock::new(pid, pid, parent, ms, trap_cx, image.user_sp, now_ms, 0, 0);
        self.next_pid = pid + 1;
        self.tasks.push(t);
        proof {
            assert(self.tasks@.drop_last() =~= old(self).tasks@);
            assert forall|i: int| 0 <= i < self.tasks@.len() implies #[trigger] self.task_wf(i) by {
                if i < old(self).tasks@.len() {
                    assert(old(self).task_wf(i));
                }
            }
        }
        Some(pid)
    }
}

} // verus!

//! Task control blocks: the saved contexts, status, accounting and
//! resource bookkeeping of one schedulable task, together with the address
//! space of the process it runs in.
use vstd::prelude::*;
use crate::memory::MemorySet;

verus! {

/// Number of distinct system call ids that are counted per task.
pub const MAX_SYSCALL_NUM: usize = 500;

/// Index of the argument / return-value register `a0` in a trap context.
pub const REG_A0: usize = 10;

/// Priority a task starts with.
pub const DEFAULT_PRIORITY: isize = 16;

/// Index of the stack pointer register `sp` in a trap context.
pub const REG_SP: usize = 2;

/// Where a task stands in its life cycle.
#[derive(Clone, Copy, Debug, PartialEq, Eq, Structural)]
pub enum TaskStatus {
    /// ready to run
    Ready,
    /// running
    Running,
    /// waiting for a resource
    Blocked,
    /// finished, waiting to be reaped
    Exited,
}

/// Kernel registers saved across a cooperative switch: the resume address,
/// the kernel stack pointer and the callee-saved registers.
#[derive(Clone, Copy, Debug)]
pub struct TaskContext {
    pub ra: usize,
    pub sp: usize,
    pub s: [usize; 12],
}

impl TaskContext {
    /// A context with every register zero.
    pub fn zero_init() -> (r: TaskContext)
        ensures
            r.ra == 0,
            r.sp == 0,
    {
        TaskContext { ra: 0, sp: 0, s: [0usize; 12] }
    }

    /// A context that resumes at `ra` on the kernel stack whose top is `kstack_ptr`.
    pub fn goto_trap_return(ra: usize, kstack_ptr: usize) -> (r: TaskContext)
        ensures
            r.ra == ra,
            r.sp == kstack_ptr,
    {
        TaskContext { ra, sp: kstack_ptr, s: [0usize; 12] }
    }
}

/// User registers saved on a trap, with the return address.
#[derive(Clone, Copy, Debug)]
pub struct TrapContext {
    pub x: [usize; 32],
    pub sstatus: usize,
    pub sepc: usize,
}

impl TrapContext {
    /// The context that starts a program at `entry` with user stack `sp`.
    pub fn app_init_context(entry: usize, sp: usize) -> (r: TrapContext)
        ensures
            r.sepc == entry,
            r.x@[REG_SP as int] == sp,
            r.x@[REG_A0 as int] == 0,
    {
        let mut x = [0usize; 32];
        x[REG_SP] = sp;
        TrapContext { x, sstatus: 0, sepc: entry }
    }

    /// Sets the register that carries a system call's result.
    pub fn set_return(&mut self, value: usize)
        ensures
            final(self).x@ == old(self).x@.update(REG_A0 as int, value),
            final(self).sepc == old(self).sepc,
            final(self).sstatus == old(self).sstatus,
    {
        self.x[REG_A0] = value;
    }
}


/// Which kind of synchronisation resource a bookkeeping entry is about.
#[derive(Clone, Copy, Debug, PartialEq, Eq, Structural)]
pub enum ResourceKind {
    Mutex,
    Semaphore,
}

/// The mutable state of a task.
pub struct TaskControlBlockInner {
    /// Saved user registers.
    pub trap_cx: TrapContext,
    /// Saved kernel registers.
    pub task_cx: TaskContext,
    /// Where the task stands in its life cycle.
    pub task_status: TaskStatus,
    /// Set when the task exits.
    pub exit_code: Option<i32>,
    /// How often each system call was made.
    pub syscall_times: [u32; MAX_SYSCALL_NUM],
    /// When the task was created, in milliseconds.
    pub start_time: usize,
    /// Scheduling priority.
    pub priority: isize,
    /// The address space the task runs in.
    pub memory_set: MemorySet,
    /// Lowest address of the heap.
    pub heap_bottom: usize,
    /// Current end of the heap.
    pub program_brk: usize,
    /// Pid of the parent process; it does not keep the parent alive.
    pub parent: Option<usize>,
    /// `mutex_alloc[id]`: units of mutex `id` held.
    pub mutex_alloc: Vec<usize>,
    /// `mutex_need[id]`: units of mutex `id` waited for.
    pub mutex_need: Vec<usize>,
    /// `sem_alloc[id]`: units of semaphore `id` held.
    pub sem_alloc: Vec<usize>,
    /// `sem_need[id]`: units of semaphore `id` waited for.
    pub sem_need: Vec<usize>,
}

/// The allocation and need vectors of one resource kind.
pub open spec fn alloc_of(t: &TaskControlBlockInner, kind: ResourceKind) -> Seq<usize> {
    match kind {
        ResourceKind::Mutex => t.mutex_alloc@,
        ResourceKind::Semaphore => t.sem_alloc@,
    }
}

pub open spec fn need_of(t: &TaskControlBlockInner, kind: ResourceKind) -> Seq<usize> {
    match kind {
        ResourceKind::Mutex => t.mutex_need@,
        ResourceKind::Semaphore => t.sem_need@,
    }
}

/// Nothing but the vectors of `kind` differ between `a` and `b`.
pub open spec fn same_but_resources(a: &TaskControlBlockInner, b: &TaskControlBlockInner, kind: ResourceKind) -> bool {
    &&& a.task_status == b.task_status
    &&& a.exit_code == b.exit_code
    &&& a.priority == b.priority
    &&& a.parent == b.parent
    &&& a.program_brk == b.program_brk
    &&& kind == ResourceKind::Mutex ==> a.sem_alloc@ == b.sem_alloc@ && a.sem_need@ == b.sem_need@
    &&& kind == ResourceKind::Semaphore ==> a.mutex_alloc@ == b.mutex_alloc@ && a.mutex_need@ == b.mutex_need@
}

impl TaskControlBlockInner {
    /// The saved user registers.
    pub fn get_trap_cx(&mut self) -> (r: &mut TrapContext)
        ensures
            *r == old(self).trap_cx,
            *final(self) == (TaskControlBlockInner { trap_cx: *final(r), ..*old(self) }),
    {
        &mut self.trap_cx
    }

    /// The task's status.
    pub fn get_status(&self) -> (r: TaskStatus)
        ensures
            r == self.task_status,
    {
        self.task_status
    }

    /// Whether the task has exited and waits to be reaped.
    pub fn is_zombie(&self) -> (r: bool)
        ensures
            r == (self.task_status == TaskStatus::Exited),
    {
        self.task_status == TaskStatus::Exited
    }

    /// Records that the task is about to wait for one unit of resource `id`.
    pub fn record_need(&mut self, kind: ResourceKind, id: usize)
        requires
            id < need_of(old(self), kind).len(),
            need_of(old(self), kind)[id as int] < usize::MAX,
        ensures
            need_of(final(self), kind) == need_of(old(self), kind).update(id as int,
                (need_of(old(self), kind)[id as int] + 1) as usize),
            alloc_of(final(self), kind) == alloc_of(old(self), kind),
            same_but_resources(old(self), final(self), kind),
    {
        match kind {
            ResourceKind::Mutex => {
                let n = self.mutex_need[id];
                self.mutex_need.set(id, n + 1);
            },
            ResourceKind::Semaphore => {
                let n = self.sem_need[id];
                self.sem_need.set(id, n + 1);
            },
        }
    }

    /// Records that a unit of resource `id` the task waited for was granted.
    pub fn record_grant(&mut self, kind: ResourceKind, id: usize)
        requires
            id < need_of(old(self), kind).len(),
            id < alloc_of(old(self), kind).len(),
            need_of(old(self), kind)[id as int] > 0,
            alloc_of(old(self), kind)[id as int] < usize::MAX,
        ensures
            need_of(final(self), kind) == need_of(old(self), kind).update(id as int,
                (need_of(old(self), kind)[id as int] - 1) as usize),
            alloc_of(final(self), kind) == alloc_of(old(self), kind).update(id as int,
                (alloc_of(old(self), kind)[id as int] + 1) as usize),
            same_but_resources(old(self), final(self), kind),
    {
        match kind {
            ResourceKind::Mutex => {
                let n = self.mutex_need[id];
                self.mutex_need.set(id, n - 1);
                let a = self.mutex_alloc[id];
                self.mutex_alloc.set(id, a + 1);
            },
            ResourceKind::Semaphore => {
                let n = self.sem_need[id];
                self.sem_need.set(id, n - 1);
                let a = self.sem_alloc[id];
                self.sem_alloc.set(id, a + 1);
            },
        }
    }

    /// Records that the task gave back a unit of resource `id`.
    pub fn record_release(&mut self, kind: ResourceKind, id: usize)
        requires
            id < alloc_of(old(self), kind).len(),
            alloc_of(old(self), kind)[id as int] > 0,
        ensures
            alloc_of(final(self), kind) == alloc_of(old(self), kind).update(id as int,
                (alloc_of(old(self), kind)[id as int] - 1) as usize),
            need_of(final(self), kind) == need_of(old(self), kind),
            same_but_resources(old(self), final(self), kind),
    {
        match kind {
            ResourceKind::Mutex => {
                let a = self.mutex_alloc[id];
                self.mutex_alloc.set(id, a - 1);
            },
            ResourceKind::Semaphore => {
                let a = self.sem_alloc[id];
                self.sem_alloc.set(id, a - 1);
            },
        }
    }
}

/// One schedulable task and the process it belongs to.
pub struct TaskControlBlock {
    /// Process id.
    pub pid: usize,
    /// Top of the task's kernel stack.
    pub kstack: usize,
    /// The mutable state.
    pub inner: TaskControlBlockInner,
}

impl TaskControlBlock {
    /// A new `Ready` task running in `memory_set` from `trap_cx`, whose
    /// bookkeeping vectors are sized for `mutex_num` mutexes and `sem_num`
    /// semaphores, all zero.
    pub fn new(
        pid: usize,
        kstack: usize,
        parent: Option<usize>,
        memory_set: MemorySet,
        trap_cx: TrapContext,
        heap_bottom: usize,
        start_time: usize,
        mutex_num: usize,
        sem_num: usize,
    ) -> (r: TaskControlBlock)
        ensures
            r.pid == pid,
            r.kstack == kstack,
            r.inner.parent == parent,
            r.inner.memory_set == memory_set,
            r.inner.trap_cx == trap_cx,
            r.inner.task_status == TaskStatus::Ready,
            r.inner.exit_code.is_none(),
            r.inner.heap_bottom == heap_bottom,
            r.inner.program_brk == heap_bottom,
            r.inner.start_time == start_time,
            r.inner.priority == DEFAULT_PRIORITY,
            r.inner.task_cx.ra == 0,
            r.inner.task_cx.sp == kstack,
            r.inner.syscall_times@ == Seq::new(MAX_SYSCALL_NUM as nat, |i: int| 0u32),
            r.inner.mutex_alloc@ == Seq::new(mutex_num as nat, |i: int| 0usize),
            r.inner.mutex_need@ == Seq::new(mutex_num as nat, |i: int| 0usize),
            r.inner.sem_alloc@ == Seq::new(sem_num as nat, |i: int| 0usize),
            r.inner.sem_need@ == Seq::new(sem_num as nat, |i: int| 0usize),
    {
        let syscall_times = [0u32; MAX_SYSCALL_NUM];
        assert(syscall_times@ =~= Seq::new(MAX_SYSCALL_NUM as nat, |i: int| 0u32));
        let mutex_alloc = vec![0usize; mutex_num];
        let mutex_need = vec![0usize; mutex_num];
        let sem_alloc = vec![0usize; sem_num];
        let sem_need = vec![0usize; sem_num];
        assert(mutex_alloc@ =~= Seq::new(mutex_num as nat, |i: int| 0usize));
        assert(mutex_need@ =~= Seq::new(mutex_num as nat, |i: int| 0usize));
        assert(sem_alloc@ =~= Seq::new(sem_num as nat, |i: int| 0usize));
        assert(sem_need@ =~= Seq::new(sem_num as nat, |i: int| 0usize));
        TaskControlBlock {
            pid,
            kstack,
            inner: TaskControlBlockInner {
                trap_cx,
                task_cx: TaskContext::goto_trap_return(0, kstack),
                task_status: TaskStatus::Ready,
                exit_code: None,
                syscall_times,
                start_time,
                priority: DEFAULT_PRIORITY,
                memory_set,
                heap_bottom,
                program_brk: heap_bottom,
                parent,
                mutex_alloc,
                mutex_need,
                sem_alloc,
                sem_need,
            },
        }
    }

    /// Exclusive access to the mutable state.
    pub fn inner_exclusive_access(&mut self) -> (r: &mut TaskControlBlockInner)
        ensures
            *r == old(self).inner,
            final(self).inner == *final(r),
            final(self).pid == old(self).pid,
            final(self).kstack == old(self).kstack,
    {
        &mut self.inner
    }

    /// The token of the address space the task runs in.
    pub fn get_user_token(&self) -> (r: usize)
        ensures
            r == self.inner.memory_set.token_spec(),
    {
        self.inner.memory_set.token()
    }

    /// The process id.
    pub fn getpid(&self) -> (r: usize)
        ensures
            r == self.pid,
    {
        self.pid
    }
}

} // verus!

//! Per-task introspection state: life-cycle status, per-syscall invocation
//! counters, start time, and the task's address space.
use crate::vma::AddressSpace;
use crate::vma::MapPermission;
use crate::MAX_SYSCALL_NUM;
use vstd::prelude::*;

verus! {

/// A task's place in its life cycle. All transitions but the one at task exit
/// are driven by the scheduler, outside this subsystem.
#[derive(Clone, Copy, PartialEq, Eq, Structural, Debug)]
pub enum TaskStatus {
    UnInit,
    Ready,
    Running,
    Exited,
}

/// The per-task state this subsystem reads and maintains. The scheduler owns
/// one of these per task and hands it to each syscall the task issues; only
/// the owning task's syscalls ever mutate it.
pub struct TaskControl {
    pub status: TaskStatus,
    pub syscall_times: Vec<u32>,
    pub start_ms: usize,
    pub space: AddressSpace,
}

impl TaskControl {
    /// One counter per syscall id, and a well-formed address space.
    pub open spec fn wf(self) -> bool {
        self.syscall_times@.len() == MAX_SYSCALL_NUM && self.space.wf()
    }

    /// A task that starts running at time `start_ms` with an empty address
    /// space whose heap may occupy `[heap_bottom, heap_limit]`.
    pub fn new(start_ms: usize, heap_bottom: usize, heap_limit: usize) -> (t: TaskControl)
        requires
            heap_bottom <= heap_limit,
            heap_limit <= isize::MAX as usize,
        ensures
            t.wf(),
            t.status == TaskStatus::Running,
            t.start_ms == start_ms,
            forall|i: int| 0 <= i < MAX_SYSCALL_NUM ==> t.syscall_times@[i] == 0,
            t.space.mapped() == Map::<int, MapPermission>::empty(),
            t.space.heap_bottom == heap_bottom,
            t.space.program_brk == heap_bottom,
            t.space.heap_limit == heap_limit,
    {
        let mut times: Vec<u32> = Vec::new();
        let mut i: usize = 0;
        while i < MAX_SYSCALL_NUM
            invariant
                i <= MAX_SYSCALL_NUM,
                times@.len() == i,
                forall|k: int| 0 <= k < i ==> times@[k] == 0,
            decreases MAX_SYSCALL_NUM - i,
        {
            times.push(0);
            i += 1;
        }
        TaskControl {
            status: TaskStatus::Running,
            syscall_times: times,
            start_ms,
            space: AddressSpace::new(heap_bottom, heap_limit),
        }
    }

    /// Records one invocation of the syscall with id `syscall_id`: its counter
    /// goes up by exactly one and every other counter is untouched.
    pub fn count_syscall(&mut self, syscall_id: usize)
        requires
            old(self).wf(),
            syscall_id < MAX_SYSCALL_NUM,
            old(self).syscall_times@[syscall_id as int] < u32::MAX,
        ensures
            final(self).wf(),
            final(self).syscall_times@[syscall_id as int] == old(self).syscall_times@[syscall_id as int]
                + 1,
            forall|j: int|
                0 <= j < MAX_SYSCALL_NUM && j != syscall_id ==> final(self).syscall_times@[j] == old(
                    self,
                ).syscall_times@[j],
            final(self).status == old(self).status,
            final(self).start_ms == old(self).start_ms,
            final(self).space == old(self).space,
    {
        let c = self.syscall_times[syscall_id];
        self.syscall_times[syscall_id] = c + 1;
    }

    /// The number of times the task has issued the syscall with id `syscall_id`.
    pub fn get_syscall_count(&self, syscall_id: usize) -> (r: u32)
        requires
            self.wf(),
            syscall_id < MAX_SYSCALL_NUM,
        ensures
            r == self.syscall_times@[syscall_id as int],
    {
        self.syscall_times[syscall_id]
    }

    /// The task's current life-cycle status.
    pub fn get_status(&self) -> (r: TaskStatus)
        ensures
            r == self.status,
    {
        self.status
    }

    /// The millisecond clock reading taken when the task started.
    pub fn get_start_time(&self) -> (r: usize)
        ensures
            r == self.start_ms,
    {
        self.start_ms
    }
}

} // verus!

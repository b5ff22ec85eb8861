//! The syscall layer: validates raw machine-word arguments, drives the VMA
//! table and the task state, and assembles the structured results that the
//! external user-memory copy primitive writes back to the caller.
use crate::task::TaskControl;
use crate::task::TaskStatus;
use crate::vma::insert_range;
use crate::vma::remove_range;
use crate::vma::MapPermission;
use crate::MAX_SYSCALL_NUM;
use crate::PAGE_SIZE;
use vstd::arithmetic::div_mod::lemma_fundamental_div_mod;
use vstd::prelude::*;

verus! {

/// A clock reading split into whole seconds and the microseconds within the
/// current second, in the two-machine-word wire layout the caller expects.
#[derive(Clone, Copy, PartialEq, Eq, Structural, Debug)]
pub struct TimeVal {
    pub sec: usize,
    pub usec: usize,
}

/// What the task-info syscall reports: the task's status, its full syscall
/// counter array, and how long it has been running, in milliseconds.
pub struct TaskInfo {
    pub status: TaskStatus,
    pub syscall_times: Vec<u32>,
    pub time: usize,
}

impl TaskInfo {
    pub open spec fn wf(self) -> bool {
        self.syscall_times@.len() == MAX_SYSCALL_NUM
    }
}

/// The terminate signal an exiting task hands to the scheduler's dispatch
/// loop; control never returns to the task that produced it.
#[derive(Clone, Copy, PartialEq, Eq, Structural, Debug)]
pub struct ExitSignal {
    pub code: i32,
}

/// `a` is a multiple of the page size.
pub open spec fn page_aligned(a: usize) -> bool {
    a % PAGE_SIZE == 0
}

/// Some bit above the three protection bits is set.
pub open spec fn prot_has_reserved_bits(prot: usize) -> bool {
    prot & !0x7 != 0
}

/// None of the read/write/execute bits is set.
pub open spec fn prot_empty(prot: usize) -> bool {
    prot & 0x7 == 0
}

/// The permission set a protection mask asks for; regions mapped through the
/// syscall layer are always user-accessible.
pub open spec fn perm_of_prot(prot: usize) -> MapPermission {
    MapPermission {
        readable: prot & 0x1 != 0,
        writable: prot & 0x2 != 0,
        executable: prot & 0x4 != 0,
        user: true,
    }
}

/// The first virtual page of a byte range starting at `start`.
pub open spec fn vpn_of(start: usize) -> int {
    start as int / PAGE_SIZE as int
}

/// How many whole pages cover `len` bytes.
pub open spec fn pages_for(len: usize) -> int {
    if len as int % PAGE_SIZE as int == 0 {
        len as int / PAGE_SIZE as int
    } else {
        len as int / PAGE_SIZE as int + 1
    }
}

/// No page of `[svpn, svpn + n)` is mapped in `m`.
pub open spec fn range_free(m: Map<int, MapPermission>, svpn: int, n: int) -> bool {
    forall|p: int| svpn <= p < svpn + n ==> !(#[trigger] m.dom().contains(p))
}

/// Every page of `[svpn, svpn + n)` is mapped in `m`.
pub open spec fn range_mapped(m: Map<int, MapPermission>, svpn: int, n: int) -> bool {
    forall|p: int| svpn <= p < svpn + n ==> #[trigger] m.dom().contains(p)
}

/// When a map request succeeds: aligned start, no reserved and at least one
/// protection bit, and no requested page already mapped.
pub open spec fn mmap_ok(m: Map<int, MapPermission>, start: usize, len: usize, prot: usize) -> bool {
    &&& page_aligned(start)
    &&& !prot_has_reserved_bits(prot)
    &&& !prot_empty(prot)
    &&& range_free(m, vpn_of(start), pages_for(len))
}

/// The table after a successful map request.
pub open spec fn mmap_result(
    m: Map<int, MapPermission>,
    start: usize,
    len: usize,
    prot: usize,
) -> Map<int, MapPermission> {
    if pages_for(len) == 0 {
        m
    } else {
        insert_range(m, vpn_of(start), vpn_of(start) + pages_for(len) - 1, perm_of_prot(prot))
    }
}

/// When an unmap request succeeds: aligned start and every requested page
/// currently mapped.
pub open spec fn munmap_ok(m: Map<int, MapPermission>, start: usize, len: usize) -> bool {
    &&& page_aligned(start)
    &&& range_mapped(m, vpn_of(start), pages_for(len))
}

/// The table after a successful unmap request.
pub open spec fn munmap_result(m: Map<int, MapPermission>, start: usize, len: usize) -> Map<
    int,
    MapPermission,
> {
    if pages_for(len) == 0 {
        m
    } else {
        remove_range(m, vpn_of(start), vpn_of(start) + pages_for(len) - 1)
    }
}

/// The whole seconds of a microsecond clock reading.
pub open spec fn time_sec(us: usize) -> int {
    us as int / 1_000_000
}

/// The sub-second microseconds of a microsecond clock reading.
pub open spec fn time_usec(us: usize) -> int {
    us as int % 1_000_000
}

/// Page indices and page counts derived from byte arguments stay far below
/// the address-width limit, so their sums never overflow.
proof fn lemma_vpn_count_bound(start: usize, len: usize)
    ensures
        0 <= vpn_of(start),
        0 <= pages_for(len),
        vpn_of(start) + pages_for(len) <= usize::MAX,
{
    let ps = PAGE_SIZE as int;
    let q1 = start as int / ps;
    let r1 = start as int % ps;
    let q2 = len as int / ps;
    let r2 = len as int % ps;
    lemma_fundamental_div_mod(start as int, ps);
    lemma_fundamental_div_mod(len as int, ps);
    assert(q1 >= 0 && q2 >= 0 && q1 + q2 + 2 <= usize::MAX) by (nonlinear_arith)
        requires
            start as int == ps * q1 + r1,
            len as int == ps * q2 + r2,
            0 <= r1 < ps,
            0 <= r2 < ps,
            ps == 4096,
            start as int <= usize::MAX,
            len as int <= usize::MAX,
            usize::MAX >= 65535,
    ;
}

/// Requests the map syscall: adds the page range covering `[start, start + len)`
/// with the permission `prot` asks for, tagged user-accessible. Fails with
/// `-1` and no state change when `start` is misaligned, `prot` has a reserved
/// bit set or no access bit set, or any requested page is already mapped.
/// Backing the new range with physical frames is the external memory
/// manager's work and is not modelled here.
pub fn sys_mmap(task: &mut TaskControl, start: usize, len: usize, prot: usize) -> (r: isize)
    requires
        old(task).wf(),
    ensures
        final(task).wf(),
        r == 0 || r == -1,
        (r == 0) == mmap_ok(old(task).space.mapped(), start, len, prot),
        final(task).space.mapped() == if r == 0 {
            mmap_result(old(task).space.mapped(), start, len, prot)
        } else {
            old(task).space.mapped()
        },
        final(task).space.program_brk == old(task).space.program_brk,
        final(task).space.heap_bottom == old(task).space.heap_bottom,
        final(task).space.heap_limit == old(task).space.heap_limit,
        final(task).status == old(task).status,
        final(task).syscall_times == old(task).syscall_times,
        final(task).start_ms == old(task).start_ms,
{
    if start % PAGE_SIZE != 0 {
        return -1;
    }
    if prot & !0x7 != 0 {
        return -1;
    }
    if prot & 0x7 == 0 {
        return -1;
    }
    proof {
        lemma_vpn_count_bound(start, len);
    }
    let start_vpn = start / PAGE_SIZE;
    let page_count = len / PAGE_SIZE + if len % PAGE_SIZE != 0 {
        1
    } else {
        0
    };
    if task.space.overlaps(start_vpn, page_count) {
        return -1;
    }
    if page_count > 0 {
        let permission = MapPermission {
            readable: prot & 0x1 != 0,
            writable: prot & 0x2 != 0,
            executable: prot & 0x4 != 0,
            user: true,
        };
        proof {
            assert(prot & 0x1 != 0 || prot & 0x2 != 0 || prot & 0x4 != 0) by (bit_vector)
                requires
                    prot & 0x7 != 0usize,
            ;
        }
        task.space.insert(start_vpn, start_vpn + (page_count - 1), permission);
    }
    0
}

/// Requests the unmap syscall: deletes exactly the page range covering
/// `[start, start + len)`, releasing split or trimmed regions precisely.
/// Fails with `-1` and no state change when `start` is misaligned or any
/// requested page is not currently mapped.
pub fn sys_munmap(task: &mut TaskControl, start: usize, len: usize) -> (r: isize)
    requires
        old(task).wf(),
    ensures
        final(task).wf(),
        r == 0 || r == -1,
        (r == 0) == munmap_ok(old(task).space.mapped(), start, len),
        final(task).space.mapped() == if r == 0 {
            munmap_result(old(task).space.mapped(), start, len)
        } else {
            old(task).space.mapped()
        },
        final(task).space.program_brk == old(task).space.program_brk,
        final(task).space.heap_bottom == old(task).space.heap_bottom,
        final(task).space.heap_limit == old(task).space.heap_limit,
        final(task).status == old(task).status,
        final(task).syscall_times == old(task).syscall_times,
        final(task).start_ms == old(task).start_ms,
{
    if start % PAGE_SIZE != 0 {
        return -1;
    }
    proof {
        lemma_vpn_count_bound(start, len);
    }
    let start_vpn = start / PAGE_SIZE;
    let page_count = len / PAGE_SIZE + if len % PAGE_SIZE != 0 {
        1
    } else {
        0
    };
    let mut i: usize = 0;
    while i < page_count
        invariant
            old(task).wf(),
            *task == *old(task),
            i <= page_count,
            start_vpn == vpn_of(start),
            page_count == pages_for(len),
            start_vpn + page_count <= usize::MAX,
            forall|k: int|
                0 <= k < i ==> #[trigger] old(task).space.mapped().dom().contains(start_vpn + k),
        decreases page_count - i,
    {
        if !task.space.contains_mapping(start_vpn + i) {
            proof {
                assert(!old(task).space.mapped().dom().contains(start_vpn + i as int));
            }
            return -1;
        }
        i += 1;
    }
    if page_count > 0 {
        proof {
            let ghost m0 = old(task).space.mapped();
            assert forall|p: int|
                start_vpn <= p <= start_vpn + (page_count - 1) implies #[trigger] m0.dom().contains(
                p,
            ) by {
                let k = p - start_vpn;
                assert(old(task).space.mapped().dom().contains(start_vpn + k));
            }
        }
        task.space.remove(start_vpn, start_vpn + (page_count - 1));
    }
    0
}

/// Requests the program-break syscall: moves the heap top by `size` bytes.
/// Returns the previous break on success and `-1` with no state change when
/// the new break would leave the valid heap range.
pub fn sys_sbrk(task: &mut TaskControl, size: i32) -> (r: isize)
    requires
        old(task).wf(),
    ensures
        final(task).wf(),
        final(task).space.mapped() == old(task).space.mapped(),
        final(task).space.heap_bottom == old(task).space.heap_bottom,
        final(task).space.heap_limit == old(task).space.heap_limit,
        final(task).status == old(task).status,
        final(task).syscall_times == old(task).syscall_times,
        final(task).start_ms == old(task).start_ms,
        (old(task).space.heap_bottom <= old(task).space.program_brk + size
            <= old(task).space.heap_limit) ==> (r == old(task).space.program_brk as isize
            && final(task).space.program_brk == old(task).space.program_brk + size),
        !(old(task).space.heap_bottom <= old(task).space.program_brk + size
            <= old(task).space.heap_limit) ==> (r == -1 && final(task).space.program_brk
            == old(task).space.program_brk),
{
    match task.space.change_program_brk(size) {
        Some(old_brk) => old_brk as isize,
        None => -1,
    }
}

/// Requests the time syscall: splits the microsecond clock reading `now_us`
/// into the `{seconds, microseconds}` pair written back to the caller, and
/// always returns `0`. Reading the clock and copying the pair into user
/// memory across page boundaries are the external collaborators' work.
pub fn sys_get_time(ts: &mut TimeVal, now_us: usize) -> (r: isize)
    ensures
        r == 0,
        final(ts).sec == time_sec(now_us),
        final(ts).usec == time_usec(now_us),
{
    ts.sec = now_us / 1_000_000;
    ts.usec = now_us % 1_000_000;
    0
}

/// Requests the task-info syscall: fills the caller's buffer with the task's
/// status, its full syscall counter array, and its elapsed running time at
/// the millisecond clock reading `now_ms`, and always returns `0`. The
/// monotonic clock never runs behind a task's start time.
pub fn sys_task_info(ti: &mut TaskInfo, task: &TaskControl, now_ms: usize) -> (r: isize)
    requires
        task.wf(),
        now_ms >= task.start_ms,
    ensures
        r == 0,
        final(ti).wf(),
        final(ti).status == task.status,
        final(ti).syscall_times@ == task.syscall_times@,
        final(ti).time == now_ms - task.start_ms,
{
    let mut counter: Vec<u32> = Vec::new();
    let mut id: usize = 0;
    while id < MAX_SYSCALL_NUM
        invariant
            task.wf(),
            id <= MAX_SYSCALL_NUM,
            counter@.len() == id,
            forall|k: int| 0 <= k < id ==> counter@[k] == task.syscall_times@[k],
        decreases MAX_SYSCALL_NUM - id,
    {
        counter.push(task.get_syscall_count(id));
        id += 1;
    }
    proof {
        assert(counter@ =~= task.syscall_times@);
    }
    ti.status = task.get_status();
    ti.syscall_times = counter;
    ti.time = now_ms - task.get_start_time();
    0
}

/// The yield syscall: the task volunteers the rest of its time slice. The
/// handoff to the scheduler happens outside this subsystem; once the task is
/// rescheduled the syscall resumes and returns `0` with no task state changed.
pub fn sys_yield() -> (r: isize)
    ensures
        r == 0,
{
    0
}

/// The exit syscall: marks the task exited with the given code and hands the
/// scheduler a terminate signal. Control never resumes in the exited task;
/// reaching the code after the scheduler handoff is an unreachable-state
/// fault in the scheduler, not here.
pub fn sys_exit(task: &mut TaskControl, exit_code: i32) -> (r: ExitSignal)
    requires
        old(task).wf(),
    ensures
        final(task).wf(),
        final(task).status == TaskStatus::Exited,
        r.code == exit_code,
        final(task).syscall_times == old(task).syscall_times,
        final(task).start_ms == old(task).start_ms,
        final(task).space == old(task).space,
{
    task.status = TaskStatus::Exited;
    ExitSignal { code: exit_code }
}

} // verus!

use vmcore::syscall::sys_exit;
use vmcore::syscall::sys_get_time;
use vmcore::syscall::sys_mmap;
use vmcore::syscall::sys_munmap;
use vmcore::syscall::sys_sbrk;
use vmcore::syscall::sys_task_info;
use vmcore::syscall::sys_yield;
use vmcore::syscall::TaskInfo;
use vmcore::syscall::TimeVal;
use vmcore::task::TaskControl;
use vmcore::task::TaskStatus;
use vmcore::MAX_SYSCALL_NUM;

fn fresh_task() -> TaskControl {
    TaskControl::new(100, 0x100000, 0x200000)
}

#[test]
fn map_unmap_scenario() {
    let mut task = fresh_task();
    assert_eq!(sys_mmap(&mut task, 0x1000, 0x2000, 0b011), 0);
    assert_eq!(sys_mmap(&mut task, 0x1000, 0x1000, 0b001), -1);
    assert_eq!(sys_munmap(&mut task, 0x1000, 0x1000), 0);
    assert_eq!(sys_munmap(&mut task, 0x1000, 0x1000), -1);
    assert_eq!(sys_munmap(&mut task, 0x2000, 0x1000), 0);
}

#[test]
fn remap_same_range_fails_and_keeps_permissions() {
    let mut task = fresh_task();
    assert_eq!(sys_mmap(&mut task, 0x3000, 0x1000, 0b001), 0);
    let regions_before = task.space.regions.clone();
    assert_eq!(sys_mmap(&mut task, 0x3000, 0x1000, 0b111), -1);
    assert_eq!(task.space.regions, regions_before);
    assert_eq!(task.space.regions.len(), 1);
    let region = task.space.regions[0];
    assert!(region.perm.readable);
    assert!(!region.perm.writable);
    assert!(!region.perm.executable);
    assert!(region.perm.user);
}

#[test]
fn misaligned_start_fails_map_and_unmap() {
    let mut task = fresh_task();
    assert_eq!(sys_mmap(&mut task, 0x1001, 0x1000, 0b011), -1);
    assert_eq!(sys_mmap(&mut task, 0xfff, 0, 0b111), -1);
    assert_eq!(sys_munmap(&mut task, 0x1001, 0x1000), -1);
    assert_eq!(sys_munmap(&mut task, 0x1, 0), -1);
    assert!(!task.space.contains_mapping(1));
}

#[test]
fn invalid_prot_fails() {
    let mut task = fresh_task();
    assert_eq!(sys_mmap(&mut task, 0x1000, 0x1000, 0b000), -1);
    assert_eq!(sys_mmap(&mut task, 0x1000, 0x1000, 0b1000), -1);
    assert_eq!(sys_mmap(&mut task, 0x1000, 0x1000, 0b1001), -1);
    assert!(!task.space.contains_mapping(1));
}

#[test]
fn unmap_with_gap_fails_and_changes_nothing() {
    let mut task = fresh_task();
    assert_eq!(sys_mmap(&mut task, 0x1000, 0x2000, 0b011), 0);
    // pages 1 and 2 mapped, page 3 is not: unmapping 1..=3 must fail whole
    assert_eq!(sys_munmap(&mut task, 0x1000, 0x3000), -1);
    assert!(task.space.contains_mapping(1));
    assert!(task.space.contains_mapping(2));
    assert!(!task.space.contains_mapping(3));
}

#[test]
fn map_unmap_releases_range_completely() {
    let mut task = fresh_task();
    assert_eq!(sys_mmap(&mut task, 0x5000, 0x2000, 0b011), 0);
    assert_eq!(sys_munmap(&mut task, 0x5000, 0x2000), 0);
    assert!(!task.space.contains_mapping(5));
    assert!(!task.space.contains_mapping(6));
    assert_eq!(sys_mmap(&mut task, 0x5000, 0x2000, 0b100), 0);
    assert!(task.space.contains_mapping(5));
    assert!(task.space.contains_mapping(6));
}

#[test]
fn unmap_middle_splits_region() {
    let mut task = fresh_task();
    assert_eq!(sys_mmap(&mut task, 0x1000, 0x4000, 0b011), 0);
    assert_eq!(sys_munmap(&mut task, 0x2000, 0x2000), 0);
    assert!(task.space.contains_mapping(1));
    assert!(!task.space.contains_mapping(2));
    assert!(!task.space.contains_mapping(3));
    assert!(task.space.contains_mapping(4));
    assert_eq!(task.space.regions.len(), 2);
    for region in task.space.regions.iter() {
        assert!(region.perm.readable && region.perm.writable && region.perm.user);
    }
}

#[test]
fn unmap_trims_region_edges() {
    let mut task = fresh_task();
    assert_eq!(sys_mmap(&mut task, 0x1000, 0x3000, 0b001), 0);
    assert_eq!(sys_munmap(&mut task, 0x1000, 0x1000), 0);
    assert!(!task.space.contains_mapping(1));
    assert!(task.space.contains_mapping(2));
    assert!(task.space.contains_mapping(3));
    assert_eq!(sys_munmap(&mut task, 0x3000, 0x1000), 0);
    assert!(task.space.contains_mapping(2));
    assert!(!task.space.contains_mapping(3));
}

#[test]
fn map_rounds_length_up_to_pages() {
    let mut task = fresh_task();
    assert_eq!(sys_mmap(&mut task, 0x1000, 0x1001, 0b001), 0);
    assert!(task.space.contains_mapping(1));
    assert!(task.space.contains_mapping(2));
    assert!(!task.space.contains_mapping(3));
}

#[test]
fn map_and_unmap_of_empty_range_succeed() {
    let mut task = fresh_task();
    assert_eq!(sys_mmap(&mut task, 0x1000, 0, 0b001), 0);
    assert!(!task.space.contains_mapping(1));
    assert_eq!(sys_munmap(&mut task, 0x1000, 0), 0);
}

#[test]
fn sbrk_moves_break_within_heap_range() {
    let mut task = fresh_task();
    assert_eq!(sys_sbrk(&mut task, 0), 0x100000);
    assert_eq!(sys_sbrk(&mut task, 0x1000), 0x100000);
    assert_eq!(sys_sbrk(&mut task, 0), 0x101000);
    assert_eq!(sys_sbrk(&mut task, -0x800), 0x101000);
    assert_eq!(sys_sbrk(&mut task, 0), 0x100800);
}

#[test]
fn sbrk_rejects_break_outside_heap_range() {
    let mut task = fresh_task();
    assert_eq!(sys_sbrk(&mut task, -1), -1);
    assert_eq!(sys_sbrk(&mut task, i32::MIN), -1);
    assert_eq!(sys_sbrk(&mut task, i32::MAX), -1);
    assert_eq!(sys_sbrk(&mut task, 0), 0x100000);
}

#[test]
fn get_time_splits_microseconds() {
    let mut ts = TimeVal { sec: 0, usec: 0 };
    assert_eq!(sys_get_time(&mut ts, 1_234_567), 0);
    assert_eq!(ts.sec, 1);
    assert_eq!(ts.usec, 234_567);
    assert_eq!(sys_get_time(&mut ts, 999_999), 0);
    assert_eq!(ts.sec, 0);
    assert_eq!(ts.usec, 999_999);
}

#[test]
fn get_time_pairs_non_decreasing() {
    let readings = [0usize, 1, 999_999, 1_000_000, 1_000_001, 5_500_000];
    let mut ts = TimeVal { sec: 0, usec: 0 };
    let mut last = (0usize, 0usize);
    for &us in readings.iter() {
        assert_eq!(sys_get_time(&mut ts, us), 0);
        assert!((ts.sec, ts.usec) >= last);
        last = (ts.sec, ts.usec);
    }
}

#[test]
fn syscall_counters_increment_once_per_invocation() {
    let mut task = fresh_task();
    task.count_syscall(222);
    task.count_syscall(222);
    task.count_syscall(124);
    assert_eq!(task.get_syscall_count(222), 2);
    assert_eq!(task.get_syscall_count(124), 1);
    assert_eq!(task.get_syscall_count(0), 0);
    assert_eq!(task.get_syscall_count(MAX_SYSCALL_NUM - 1), 0);
}

#[test]
fn task_info_reports_status_counters_and_elapsed_time() {
    let mut task = fresh_task();
    task.count_syscall(410);
    let mut ti = TaskInfo {
        status: TaskStatus::UnInit,
        syscall_times: Vec::new(),
        time: 0,
    };
    assert_eq!(sys_task_info(&mut ti, &task, 160), 0);
    assert_eq!(ti.status, TaskStatus::Running);
    assert_eq!(ti.time, 60);
    assert_eq!(ti.syscall_times.len(), MAX_SYSCALL_NUM);
    assert_eq!(ti.syscall_times[410], 1);
    assert_eq!(ti.syscall_times[222], 0);
}

#[test]
fn yield_returns_zero() {
    assert_eq!(sys_yield(), 0);
}

#[test]
fn exit_marks_task_exited_and_keeps_code() {
    let mut task = fresh_task();
    let signal = sys_exit(&mut task, 7);
    assert_eq!(signal.code, 7);
    assert_eq!(task.get_status(), TaskStatus::Exited);
}

#[test]
fn new_task_starts_running_with_empty_space() {
    let task = fresh_task();
    assert_eq!(task.get_status(), TaskStatus::Running);
    assert_eq!(task.get_start_time(), 100);
    assert!(!task.space.contains_mapping(0x100));
    assert_eq!(task.space.regions.len(), 0);
    for id in 0..MAX_SYSCALL_NUM {
        assert_eq!(task.get_syscall_count(id), 0);
    }
}

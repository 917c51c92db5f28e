use rcore_os::syscall::process::sys_set_priority;
use rcore_os::task::manager::{ReadyTask, TaskManager, BIG_STRIDE};
use rcore_os::task::task::{TaskContext, TaskControlBlock, TaskStatus, SYSCALL_ID_CNT};

fn task(pid: usize, stride: usize, pass: usize) -> ReadyTask {
    ReadyTask { pid, stride, pass, prio: 16 }
}

#[test]
fn fetch_from_empty_queue() {
    let mut m = TaskManager::new();
    assert_eq!(m.fetch(), None);
}

#[test]
fn fetch_takes_smallest_stride_first_among_equals() {
    let mut m = TaskManager::new();
    m.add(task(1, 5, 10));
    m.add(task(2, 3, 7));
    m.add(task(3, 3, 1));
    m.add(task(4, 9, 2));
    assert_eq!(m.fetch(), Some(task(2, 10, 7)));
    assert_eq!(m.fetch(), Some(task(3, 4, 1)));
    assert_eq!(m.fetch(), Some(task(1, 15, 10)));
    assert_eq!(m.fetch(), Some(task(4, 11, 2)));
    assert_eq!(m.fetch(), None);
}

#[test]
fn added_task_comes_back_advanced() {
    let mut m = TaskManager::new();
    m.add(task(7, 100, 25));
    assert_eq!(m.fetch(), Some(task(7, 125, 25)));
}

#[test]
fn stride_wraps_at_the_top() {
    let mut m = TaskManager::new();
    m.add(task(1, usize::MAX, 2));
    assert_eq!(m.fetch(), Some(task(1, 1, 2)));
}

#[test]
fn all_strides_at_max_take_the_first() {
    let mut m = TaskManager::new();
    m.add(task(1, usize::MAX, 0));
    m.add(task(2, usize::MAX, 0));
    assert_eq!(m.fetch().map(|t| t.pid), Some(1));
}

#[test]
fn stride_scheduling_favours_high_priority() {
    let mut m = TaskManager::new();
    let mut hi = task(1, 0, 0);
    let mut lo = task(2, 0, 0);
    assert_eq!(sys_set_priority(&mut hi, 10), 10);
    assert_eq!(sys_set_priority(&mut lo, 2), 2);
    m.add(hi);
    m.add(lo);
    let mut runs = [0usize; 3];
    for _ in 0..60 {
        let t = m.fetch().unwrap();
        runs[t.pid] += 1;
        m.add(t);
    }
    assert!(runs[1] > 4 * runs[2]);
}

#[test]
fn set_priority_rejects_low_values() {
    let mut t = task(1, 4, 5);
    assert_eq!(sys_set_priority(&mut t, 1), -1);
    assert_eq!(sys_set_priority(&mut t, 0), -1);
    assert_eq!(sys_set_priority(&mut t, -3), -1);
    assert_eq!(t, task(1, 4, 5));
}

#[test]
fn set_priority_sets_pass() {
    let mut t = task(1, 4, 5);
    assert_eq!(sys_set_priority(&mut t, 4), 4);
    assert_eq!(t.prio, 4);
    assert_eq!(t.pass, BIG_STRIDE / 4);
    assert_eq!(t.pass, 25);
    assert_eq!(sys_set_priority(&mut t, 3), 3);
    assert_eq!(t.pass, 33);
    assert_eq!(t.stride, 4);
}

#[test]
fn task_control_block_holds_counts() {
    let tcb = TaskControlBlock {
        task_status: TaskStatus::Ready,
        task_cx: TaskContext::zero_init(),
        syscall_cnt: [0; SYSCALL_ID_CNT],
    };
    let copy = tcb;
    assert_eq!(copy.task_status, TaskStatus::Ready);
    assert_eq!(copy.task_cx.ra, 0);
    assert_eq!(copy.task_cx.s, [0; 12]);
    assert_eq!(copy.syscall_cnt.len(), 512);
}

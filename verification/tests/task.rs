use rcore_os::config::kernel_stack_position;
use rcore_os::common::{SYSCALL_GET_TIME, SYSCALL_WRITE, SYSCALL_YIELD};
use rcore_os::mm::address::PhysPageNum;
use rcore_os::task::context::TaskContext;
use rcore_os::task::task::{TaskControlBlock, TaskStatus};
use rcore_os::task::{
    app_table_entries,    current_trap_cx, current_user_token, TaskLoad, exit_current_and_run_next, get_task_info, metric_kernel_time,
    metric_sys_call, metric_user_time, run_first_task, suspend_current_and_run_next, TaskManager,
};

fn unloaded_task(i: usize) -> TaskControlBlock<()> {
    let mut t = TaskControlBlock::new(());
    let name = format!("app_{}", i).into_bytes();
    t.set_app_info(0x8040_0000 + i * 0x2_0000, name, 0x8040_0000 + i * 0x2_0000 + 0x1000);
    t
}

fn manager(n: usize) -> TaskManager<()> {
    let loads: Vec<TaskLoad> = (0..n)
        .map(|i| TaskLoad { trap_cx_ppn: PhysPageNum(0x90000 + i), user_sp: 0x1_0000, user_token: 0x8000_0000_0009_0000 + i })
        .collect();
    TaskManager::new((0..n).map(unloaded_task).collect(), &loads, 0x8020_1000)
}

#[test]
fn loaded_tasks_are_ready_on_their_kernel_stacks() {
    let m = manager(3);
    for i in 0..3 {
        let t = m.task(i);
        assert_eq!(t.status, TaskStatus::Ready);
        assert_eq!(t.cx.ra, 0x8020_1000);
        assert_eq!(t.cx.sp, kernel_stack_position(i).1);
        assert_eq!(t.trap_cx_ppn, PhysPageNum(0x90000 + i));
        assert_eq!(t.base_size, 0x1_0000);
    }
    assert_eq!(m.current_task(), 0);
    assert_eq!(m.last_switch(), 0);
}

#[test]
fn contexts() {
    let z = TaskContext::zero_init();
    assert_eq!((z.ra, z.sp, z.s), (0, 0, [0; 12]));
    let c = TaskContext::goto_trap_return(0x8020_1000, 0x4000);
    assert_eq!((c.ra, c.sp, c.s), (0x8020_1000, 0x4000, [0; 12]));
}

#[test]
fn control_block_accounting() {
    let mut t = TaskControlBlock::new(());
    assert_eq!(t.status, TaskStatus::UnInit);
    assert!(!t.app_range_valid());
    t.set_app_info(0x2000, b"hello".to_vec(), 0x1000);
    assert!(!t.app_range_valid());
    assert_eq!(t.app_size(), 0usize.wrapping_sub(0x1000));
    t.set_app_info(0x1000, b"hello".to_vec(), 0x3000);
    assert!(t.app_range_valid());
    assert_eq!(t.app_size(), 0x2000);
    t.update_user_time(5);
    t.update_user_time(7);
    t.update_kernel_time(3);
    assert_eq!((t.user_time, t.kernel_time), (12, 3));
    t.metric_sys_call(SYSCALL_YIELD);
    t.metric_sys_call(SYSCALL_YIELD);
    t.metric_sys_call(12345);
    assert_eq!(t.sys_call[2].times, 2);
    assert_eq!(t.sys_call.iter().map(|c| c.times).sum::<usize>(), 2);
    t.set_status(TaskStatus::Exited);
    assert_eq!(t.status, TaskStatus::Exited);
}

#[test]
fn round_robin_visits_every_task() {
    let mut m = manager(3);
    assert_eq!(run_first_task(&mut m, 0), 0);
    assert_eq!(m.task(0).status, TaskStatus::Running);
    assert_eq!(suspend_current_and_run_next(&mut m, 10), Some(1));
    assert_eq!(m.task(0).status, TaskStatus::Ready);
    assert_eq!(m.task(1).status, TaskStatus::Running);
    assert_eq!(suspend_current_and_run_next(&mut m, 20), Some(2));
    assert_eq!(suspend_current_and_run_next(&mut m, 30), Some(0));
    assert_eq!(m.current_task(), 0);
}

#[test]
fn exited_tasks_are_skipped_and_the_last_one_ends_the_run() {
    let mut m = manager(3);
    run_first_task(&mut m, 0);
    assert_eq!(exit_current_and_run_next(&mut m, 1), Some(1));
    assert_eq!(m.task(0).status, TaskStatus::Exited);
    assert_eq!(suspend_current_and_run_next(&mut m, 2), Some(2));
    // task 0 has exited: after task 2 comes task 1
    assert_eq!(suspend_current_and_run_next(&mut m, 3), Some(1));
    assert_eq!(exit_current_and_run_next(&mut m, 4), Some(2));
    // the only task left keeps running when it yields
    assert_eq!(suspend_current_and_run_next(&mut m, 5), Some(2));
    assert_eq!(m.task(2).status, TaskStatus::Running);
    assert_eq!(exit_current_and_run_next(&mut m, 6), None);
    assert!((0..3).all(|i| m.task(i).status == TaskStatus::Exited));
}

#[test]
fn time_is_split_between_user_and_kernel() {
    let mut m = manager(2);
    run_first_task(&mut m, 100);
    metric_user_time(&mut m, 150);
    metric_kernel_time(&mut m, 170);
    metric_user_time(&mut m, 200);
    assert_eq!((m.task(0).user_time, m.task(0).kernel_time), (80, 20));
    // switching away accounts the kernel time up to the switch
    suspend_current_and_run_next(&mut m, 210);
    assert_eq!(m.task(0).kernel_time, 30);
    metric_user_time(&mut m, 260);
    assert_eq!(m.task(1).user_time, 50);
    // every period since the first task started is accounted to exactly one task
    let total: usize = (0..2).map(|i| m.task(i).user_time + m.task(i).kernel_time).sum();
    assert_eq!(total, 260 - 100);
}

#[test]
fn system_calls_are_counted_for_the_current_task() {
    let mut m = manager(2);
    run_first_task(&mut m, 0);
    metric_sys_call(&mut m, SYSCALL_WRITE);
    metric_sys_call(&mut m, SYSCALL_WRITE);
    metric_sys_call(&mut m, SYSCALL_GET_TIME);
    let info = get_task_info(&m, 0).unwrap();
    assert_eq!(info.id, 0);
    assert_eq!(info.name.len(), 5);
    let counted: Vec<(usize, usize)> = info.recorded_calls().iter().map(|c| (c.id, c.times)).collect();
    assert_eq!(counted[0], (SYSCALL_WRITE, 2));
    assert_eq!(counted[3], (SYSCALL_GET_TIME, 1));
    let other = get_task_info(&m, 1).unwrap();
    assert!(other.recorded_calls().iter().all(|c| c.times == 0));
    assert!(get_task_info(&m, 2).is_none());
}

#[test]
fn current_task_addresses() {
    let mut m = manager(2);
    run_first_task(&mut m, 0);
    assert_eq!(current_user_token(&m), 0x8000_0000_0009_0000);
    assert_eq!(current_trap_cx(&m), PhysPageNum(0x90000));
    suspend_current_and_run_next(&mut m, 1);
    assert_eq!(current_user_token(&m), 0x8000_0000_0009_0001);
    assert_eq!(m.task_count(), 2);
    assert_eq!(m.find_next_task(), Some(0));
}

#[test]
fn app_table_is_read_in_pairs() {
    let words = vec![0x8040_0000, 0x8030_0000, 0x8041_0000, 0x8030_0010, 0x8042_0000];
    let entries = app_table_entries(&words, 2);
    assert_eq!(entries, vec![(0x8040_0000, 0x8030_0000, 0x8041_0000), (0x8041_0000, 0x8030_0010, 0x8042_0000)]);
    assert!(app_table_entries(&vec![0], 0).is_empty());
}

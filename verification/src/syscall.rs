//! System calls: decoding a request and the results the kernel hands back.
use vstd::prelude::*;

use crate::common::{SYSCALL_EXIT, SYSCALL_GET_TIME, SYSCALL_TASK_INFO, SYSCALL_WRITE, SYSCALL_YIELD};
use crate::task::task::TaskStatus;
use crate::task::{exit_current_and_run_next, next_ready, suspend_current_and_run_next, switched, TaskManager};
use crate::timer::get_time_ms;

verus! {

/// A system call with its arguments.
#[derive(Clone, Copy, PartialEq, Eq, Structural, Debug)]
pub enum SyscallRequest {
    Write { fd: usize, buf: usize, len: usize },
    Exit { code: usize },
    Yield,
    TaskInfo { id: usize, info: usize },
    GetTime,
}

/// The request that system call `syscall_id` makes with the arguments `args`; nothing
/// for a call the kernel does not know.
pub fn decode_syscall(syscall_id: usize, args: [usize; 3]) -> (r: Option<SyscallRequest>)
    ensures
        r == (if syscall_id == SYSCALL_WRITE {
            Some(SyscallRequest::Write { fd: args@[0], buf: args@[1], len: args@[2] })
        } else if syscall_id == SYSCALL_EXIT {
            Some(SyscallRequest::Exit { code: args@[0] })
        } else if syscall_id == SYSCALL_YIELD {
            Some(SyscallRequest::Yield)
        } else if syscall_id == SYSCALL_TASK_INFO {
            Some(SyscallRequest::TaskInfo { id: args@[0], info: args@[1] })
        } else if syscall_id == SYSCALL_GET_TIME {
            Some(SyscallRequest::GetTime)
        } else {
            None
        }),
{
    match syscall_id {
        SYSCALL_WRITE => Some(SyscallRequest::Write { fd: args[0], buf: args[1], len: args[2] }),
        SYSCALL_EXIT => Some(SyscallRequest::Exit { code: args[0] }),
        SYSCALL_YIELD => Some(SyscallRequest::Yield),
        SYSCALL_TASK_INFO => Some(SyscallRequest::TaskInfo { id: args[0], info: args[1] }),
        SYSCALL_GET_TIME => Some(SyscallRequest::GetTime),
        _ => None,
    }
}

/// The time in milliseconds, at timer count `ticks`.
pub fn sys_get_time(ticks: usize) -> (r: isize)
    ensures
        r == ticks / 12_500,
{
    let ms = get_time_ms(ticks);
    assert(ms <= usize::MAX / 12_500);
    ms as isize
}

/// The current task yields at timer count `now`; it gets 0 once it runs again.
pub fn sys_yield<M>(manager: &mut TaskManager<M>, now: usize) -> (r: isize)
    requires
        old(manager).wf(),
        old(manager).num_app() > 0,
        now >= old(manager).stop_watch(),
        old(manager).tasks()[old(manager).current()].kernel_time + (now - old(manager).stop_watch()) <= usize::MAX,
    ensures
        r == 0,
        final(manager).wf(),
        exists|nx: Option<usize>| #[trigger] switched(*old(manager), *final(manager), TaskStatus::Ready, now, nx) && nx is Some,
        next_ready(
            old(manager).statuses().update(old(manager).current(), TaskStatus::Ready),
            old(manager).current(),
        ) == Some(final(manager).current()),
        final(manager).tasks()[final(manager).current()].status == TaskStatus::Running,
        final(manager).stop_watch() == now,
{
    suspend_current_and_run_next(manager, now);
    0
}

/// The current task exits at timer count `now`; returns the task to run next, or
/// nothing when every task has exited.
pub fn sys_exit<M>(manager: &mut TaskManager<M>, now: usize) -> (r: Option<usize>)
    requires
        old(manager).wf(),
        old(manager).num_app() > 0,
        now >= old(manager).stop_watch(),
        old(manager).tasks()[old(manager).current()].kernel_time + (now - old(manager).stop_watch()) <= usize::MAX,
    ensures
        final(manager).wf(),
        switched(*old(manager), *final(manager), TaskStatus::Exited, now, r),
        r matches Some(nx) ==> next_ready(
            old(manager).statuses().update(old(manager).current(), TaskStatus::Exited),
            old(manager).current(),
        ) == Some(nx as int) && final(manager).current() == nx,
        r is None <==> next_ready(
            old(manager).statuses().update(old(manager).current(), TaskStatus::Exited),
            old(manager).current(),
        ) is None,
        final(manager).stop_watch() == now,
{
    exit_current_and_run_next(manager, now)
}

/// The answer to a request for memory: the bytes granted, or -1 when none were.
pub fn sys_mem_apply(applied: Option<usize>) -> (r: isize)
    requires
        applied matches Some(n) ==> n <= isize::MAX,
    ensures
        r == (match applied {
            Some(n) => n as int,
            None => -1,
        }),
{
    match applied {
        Some(n) => n as isize,
        None => -1,
    }
}

/// The answer to a request for task information: 0 when it was found and copied, -1
/// when there is no such task.
pub fn sys_task_info(found: bool) -> (r: isize)
    ensures
        r == (if found { 0int } else { -1int }),
{
    if found {
        0
    } else {
        -1
    }
}

} // verus!

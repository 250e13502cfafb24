//! The control block of one task: its state, saved context, address space, the
//! place of its image and its time and system-call accounting.
use vstd::prelude::*;

use super::context::TaskContext;
use crate::common::{counted_syscalls, syscall_list, SyscallInfo, MAX_SYSCALL_NUM};
use crate::mm::address::PhysPageNum;

verus! {

#[derive(Clone, Copy, PartialEq, Eq, Structural, Debug)]
pub enum TaskStatus {
    UnInit,
    Ready,
    Running,
    Exited,
}

/// The counters after one more call of `id`: the first counter for `id` counts one
/// more; without such a counter nothing changes.
pub open spec fn counted_call(calls: Seq<SyscallInfo>, id: usize) -> Seq<SyscallInfo> {
    if exists|i: int| 0 <= i < calls.len() && calls[i].id == id {
        let i = choose|i: int|
            0 <= i < calls.len() && calls[i].id == id && forall|j: int| 0 <= j < i ==> calls[j].id != id;
        calls.update(i, SyscallInfo { id, times: (calls[i].times + 1) as usize })
    } else {
        calls
    }
}

/// The first counter for `id` exists and is full.
pub open spec fn call_counter_full(calls: Seq<SyscallInfo>, id: usize) -> bool {
    exists|i: int|
        0 <= i < calls.len() && calls[i].id == id && (forall|j: int| 0 <= j < i ==> calls[j].id != id)
            && calls[i].times == usize::MAX
}

/// An image range that can be loaded: it is set and does not run backwards.
pub open spec fn valid_app_range(range: (usize, usize)) -> bool {
    !((range.0 == 0 && range.1 == 0) || range.0 > range.1)
}

/// A task. `memory_set` is its address space, which the logic here only carries.
pub struct TaskControlBlock<M> {
    pub status: TaskStatus,
    pub cx: TaskContext,
    pub memory_set: M,
    /// The frame that holds the task's trap context.
    pub trap_cx_ppn: PhysPageNum,
    /// The top of the user stack when the task was loaded.
    pub base_size: usize,
    /// The `satp` value of the task's address space.
    pub user_token: usize,
    /// Where the task's image lies: `[start, end)`.
    pub app_range: (usize, usize),
    pub app_name: Vec<u8>,
    pub user_time: usize,
    pub kernel_time: usize,
    pub sys_call: [SyscallInfo; MAX_SYSCALL_NUM],
}

impl<M> TaskControlBlock<M> {
    /// A task that is not loaded yet, with the given address space, no image, no
    /// time and fresh system-call counters.
    pub fn new(memory_set: M) -> (r: Self)
        ensures
            r.status == TaskStatus::UnInit,
            r.cx.ra == 0 && r.cx.sp == 0 && r.cx.s@ == Seq::new(12, |i: int| 0usize),
            r.memory_set == memory_set,
            r.trap_cx_ppn == PhysPageNum(0),
            r.base_size == 0,
            r.user_token == 0,
            r.app_range.0 == 0 && r.app_range.1 == 0,
            r.app_name@ == Seq::<u8>::empty(),
            r.user_time == 0,
            r.kernel_time == 0,
            forall|i: int| 0 <= i < 5 ==> #[trigger] r.sys_call@[i] == (SyscallInfo { id: counted_syscalls()[i], times: 0 }),
            forall|i: int| 5 <= i < MAX_SYSCALL_NUM ==> #[trigger] r.sys_call@[i] == (SyscallInfo { id: 0, times: 0 }),
    {
        Self {
            status: TaskStatus::UnInit,
            cx: TaskContext::zero_init(),
            memory_set,
            trap_cx_ppn: PhysPageNum(0),
            base_size: 0,
            user_token: 0,
            app_range: (0, 0),
            app_name: Vec::new(),
            user_time: 0,
            kernel_time: 0,
            sys_call: syscall_list(),
        }
    }

    /// Records where the task's image lies, `[start, end)`, and its name.
    pub fn set_app_info(&mut self, start: usize, name: Vec<u8>, end: usize)
        ensures
            *final(self) == (TaskControlBlock { app_range: (start, end), app_name: name, ..*old(self) }),
    {
        self.app_range = (start, end);
        self.app_name = name;
    }

    /// Whether the image range can be loaded: it is set and does not run backwards.
    pub fn app_range_valid(&self) -> (r: bool)
        ensures
            r == valid_app_range(self.app_range),
    {
        !((self.app_range.0 == 0 && self.app_range.1 == 0) || self.app_range.0 > self.app_range.1)
    }

    /// The size of the image, computed modulo the word size.
    pub fn app_size(&self) -> (r: usize)
        ensures
            r == (if self.app_range.1 >= self.app_range.0 {
                self.app_range.1 - self.app_range.0
            } else {
                self.app_range.1 - self.app_range.0 + usize::MAX + 1
            }),
    {
        self.app_range.1.wrapping_sub(self.app_range.0)
    }

    /// The task was loaded: it is ready to run from `trap_return` on its kernel stack.
    pub fn set_to_ready(
        &mut self,
        trap_cx_ppn: PhysPageNum,
        user_sp: usize,
        user_token: usize,
        kernel_stack_top: usize,
        trap_return: usize,
    )
        requires
            valid_app_range(old(self).app_range),
        ensures
            final(self).status == TaskStatus::Ready,
            final(self).trap_cx_ppn == trap_cx_ppn,
            final(self).base_size == user_sp,
            final(self).user_token == user_token,
            final(self).cx.ra == trap_return,
            final(self).cx.sp == kernel_stack_top,
            final(self).cx.s@ == Seq::new(12, |i: int| 0usize),
            final(self).app_range.0 == old(self).app_range.0,
            final(self).app_range.1 == old(self).app_range.1,
            final(self).app_name == old(self).app_name,
            final(self).user_time == old(self).user_time,
            final(self).kernel_time == old(self).kernel_time,
            final(self).sys_call == old(self).sys_call,
            final(self).memory_set == old(self).memory_set,
    {
        self.trap_cx_ppn = trap_cx_ppn;
        self.base_size = user_sp;
        self.user_token = user_token;
        self.cx = TaskContext::goto_trap_return(trap_return, kernel_stack_top);
        self.status = TaskStatus::Ready;
    }

    pub fn set_status(&mut self, status: TaskStatus)
        ensures
            *final(self) == (TaskControlBlock { status, ..*old(self) }),
    {
        self.status = status;
    }

    pub fn update_user_time(&mut self, duration: usize)
        requires
            old(self).user_time + duration <= usize::MAX,
        ensures
            *final(self) == (TaskControlBlock { user_time: (old(self).user_time + duration) as usize, ..*old(self) }),
    {
        self.user_time += duration;
    }

    pub fn update_kernel_time(&mut self, duration: usize)
        requires
            old(self).kernel_time + duration <= usize::MAX,
        ensures
            *final(self) == (TaskControlBlock { kernel_time: (old(self).kernel_time + duration) as usize, ..*old(self) }),
    {
        self.kernel_time += duration;
    }

    /// Counts one call of the system call `id` in its counter, if it has one.
    pub fn metric_sys_call(&mut self, id: usize)
        requires
            !call_counter_full(old(self).sys_call@, id),
        ensures
            final(self).sys_call@ == counted_call(old(self).sys_call@, id),
            *final(self) == (TaskControlBlock { sys_call: final(self).sys_call, ..*old(self) }),
    {
        let mut i: usize = 0;
        while i < MAX_SYSCALL_NUM
            invariant
                i <= MAX_SYSCALL_NUM,
                !call_counter_full(old(self).sys_call@, id),
                *self == *old(self),
                forall|j: int| 0 <= j < i ==> #[trigger] self.sys_call@[j].id != id,
            decreases MAX_SYSCALL_NUM - i,
        {
            if self.sys_call[i].id == id {
                let ghost calls = old(self).sys_call@;
                proof {
                    assert(0 <= i < calls.len() && calls[i as int].id == id);
                    assert(forall|j: int| 0 <= j < i ==> #[trigger] calls[j].id != id) by {
                        assert forall|j: int| 0 <= j < i implies #[trigger] calls[j].id != id by {
                            assert(self.sys_call@[j].id != id);
                        }
                    }
                    let k = choose|k: int|
                        0 <= k < calls.len() && calls[k].id == id && forall|j: int| 0 <= j < k ==> calls[j].id != id;
                    assert(k == i) by {
                        if k < i {
                            assert(calls[k].id != id);
                        } else if k > i {
                            assert(calls[i as int].id != id);
                        }
                    }
                    if calls[i as int].times == usize::MAX {
                        assert(call_counter_full(calls, id)) by {
                            let w = i as int;
                            assert(0 <= w < calls.len() && calls[w].id == id && (forall|j: int| 0 <= j < w ==> calls[j].id != id)
                                && calls[w].times == usize::MAX);
                        }
                    }
                }
                let c = self.sys_call[i];
                self.sys_call.set(i, SyscallInfo { id: c.id, times: c.times + 1 });
                assert(self.sys_call@ =~= counted_call(calls, id));
                return;
            }
            i = i + 1;
        }
        assert(!exists|k: int| 0 <= k < old(self).sys_call@.len() && old(self).sys_call@[k].id == id);
    }
}

} // verus!

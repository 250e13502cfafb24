//! Tasks: their control blocks and the round-robin manager that switches between
//! them and accounts their time.
use vstd::prelude::*;

pub mod context;
pub mod task;

use crate::common::{TaskInfo, MAX_APP_NAME_LEN};
use crate::config::{kernel_stack_position, KERNEL_STACK_SIZE, PAGE_SIZE, TRAMPOLINE};
use crate::mm::address::PhysPageNum;
use context::TaskContext;
use task::{call_counter_full, counted_call, valid_app_range, TaskControlBlock, TaskStatus};

verus! {

/// Task `current + k` (counting round) is ready.
pub open spec fn ready_at(st: Seq<TaskStatus>, current: int, k: int) -> bool {
    st[(current + k) % (st.len() as int)] == TaskStatus::Ready
}

/// The task to run after `current`: the first ready one met when counting round from
/// the task after `current` up to `current` itself; none when no task is ready.
pub open spec fn next_ready(st: Seq<TaskStatus>, current: int) -> Option<int> {
    if exists|k: int| 1 <= k <= st.len() && #[trigger] ready_at(st, current, k) {
        let k = choose|k: int|
            1 <= k <= st.len() && #[trigger] ready_at(st, current, k) && forall|j: int|
                1 <= j < k ==> !#[trigger] ready_at(st, current, j);
        Some((current + k) % (st.len() as int))
    } else {
        None
    }
}

/// A control block with another state.
pub open spec fn with_status<M>(t: TaskControlBlock<M>, s: TaskStatus) -> TaskControlBlock<M> {
    TaskControlBlock { status: s, ..t }
}

/// `new` is `old` after its current task was left in state `status`, the kernel
/// accounting period ending at `now` was added to that task's kernel time, and the
/// manager switched to task `r`, the next ready one, which then runs; with no ready
/// task, `r` is nothing and the current task stays. No other task changes.
pub open spec fn switched<M>(old: TaskManager<M>, new: TaskManager<M>, status: TaskStatus, now: usize, r: Option<
    usize,
>) -> bool {
    let cur = old.current();
    let left = TaskControlBlock {
        status,
        kernel_time: (old.tasks()[cur].kernel_time + (now - old.stop_watch())) as usize,
        ..old.tasks()[cur]
    };
    let ts = old.tasks().update(cur, left);
    let st = old.statuses().update(cur, status);
    &&& new.num_app() == old.num_app()
    &&& new.stop_watch() == now
    &&& r matches Some(nx) ==> {
        &&& next_ready(st, cur) == Some(nx as int)
        &&& new.tasks() == ts.update(nx as int, with_status(ts[nx as int], TaskStatus::Running))
        &&& new.current() == nx
    }
    &&& r is None ==> {
        &&& next_ready(st, cur) is None
        &&& new.tasks() == ts
        &&& new.current() == cur
    }
}

/// What loading one application gave: the frame of its trap context, the top of its
/// user stack and the `satp` value of its address space.
#[derive(Clone, Copy, PartialEq, Eq, Structural, Debug)]
pub struct TaskLoad {
    pub trap_cx_ppn: PhysPageNum,
    pub user_sp: usize,
    pub user_token: usize,
}

/// `r` is task `t`, number `i`, once loaded as `load` says: ready, with a zeroed
/// context that returns through `trap_return` on kernel stack `i`, whose top lies `i`
/// stack slots below the trampoline.
pub open spec fn loaded_task<M>(r: TaskControlBlock<M>, t: TaskControlBlock<M>, load: TaskLoad, trap_return: usize, i: int) -> bool {
    &&& r == TaskControlBlock {
        status: TaskStatus::Ready,
        trap_cx_ppn: load.trap_cx_ppn,
        base_size: load.user_sp,
        user_token: load.user_token,
        cx: r.cx,
        ..t
    }
    &&& r.cx.ra == trap_return
    &&& r.cx.sp == TRAMPOLINE - i * (KERNEL_STACK_SIZE + PAGE_SIZE)
    &&& r.cx.s@ == Seq::new(12, |k: int| 0usize)
}

/// The manager of all tasks. `stop_watch` is the time of the last switch between user
/// and kernel accounting.
pub struct TaskManager<M> {
    num_app: usize,
    current_task: usize,
    tasks: Vec<TaskControlBlock<M>>,
    stop_watch: usize,
}

impl<M> TaskManager<M> {
    pub closed spec fn num_app(&self) -> nat {
        self.num_app as nat
    }

    pub closed spec fn current(&self) -> int {
        self.current_task as int
    }

    pub closed spec fn tasks(&self) -> Seq<TaskControlBlock<M>> {
        self.tasks@
    }

    pub closed spec fn stop_watch(&self) -> usize {
        self.stop_watch
    }

    pub open spec fn statuses(&self) -> Seq<TaskStatus> {
        Seq::new(self.tasks().len(), |i: int| self.tasks()[i].status)
    }

    /// One control block per application; the current task is one of them; no task
    /// but the current one runs.
    pub closed spec fn wf(&self) -> bool {
        &&& self.tasks@.len() == self.num_app
        &&& (self.num_app > 0 ==> self.current_task < self.num_app)
        &&& forall|i: int|
            0 <= i < self.tasks@.len() && #[trigger] self.tasks@[i].status == TaskStatus::Running
                ==> i == self.current_task
    }

    /// The manager of the applications `tasks`, each loaded as `loads` says: task `i`
    /// is ready, with its trap context in `loads[i].trap_cx_ppn`, its user stack top
    /// `loads[i].user_sp`, its address space `loads[i].user_token`, and a context that
    /// returns through `trap_return` on kernel stack `i` (see `kernel_stack_position`).
    /// The first task is current and the accounting starts at 0.
    pub fn new(tasks: Vec<TaskControlBlock<M>>, loads: &Vec<TaskLoad>, trap_return: usize) -> (r: Self)
        requires
            tasks@.len() == loads@.len(),
            forall|i: int| 0 <= i < tasks@.len() ==> #[trigger] valid_app_range(tasks@[i].app_range),
            tasks@.len() * (KERNEL_STACK_SIZE + PAGE_SIZE) + KERNEL_STACK_SIZE <= TRAMPOLINE,
        ensures
            r.wf(),
            r.num_app() == tasks@.len(),
            r.current() == 0,
            r.stop_watch() == 0,
            forall|i: int| 0 <= i < tasks@.len() ==> loaded_task(#[trigger] r.tasks()[i], tasks@[i], loads@[i], trap_return, i),
    {
        let n = tasks.len();
        let mut tasks = tasks;
        let ghost orig = tasks@;
        let mut i: usize = 0;
        while i < n
            invariant
                n == orig.len(),
                n == loads@.len(),
                tasks@.len() == n,
                i <= n,
                forall|j: int| 0 <= j < n ==> #[trigger] valid_app_range(orig[j].app_range),
                n * (KERNEL_STACK_SIZE + PAGE_SIZE) + KERNEL_STACK_SIZE <= TRAMPOLINE,
                forall|j: int| 0 <= j < i ==> loaded_task(#[trigger] tasks@[j], orig[j], loads@[j], trap_return, j),
                forall|j: int| i <= j < n ==> #[trigger] tasks@[j] == orig[j],
            decreases n - i,
        {
            assert(i * (KERNEL_STACK_SIZE + PAGE_SIZE) <= n * (KERNEL_STACK_SIZE + PAGE_SIZE)) by (nonlinear_arith)
                requires
                    i <= n,
            ;
            let (_, top) = kernel_stack_position(i);
            let load = loads[i];
            assert(tasks@[i as int] == orig[i as int]);
            tasks[i].set_to_ready(load.trap_cx_ppn, load.user_sp, load.user_token, top, trap_return);
            proof {
                assert(loaded_task(tasks@[i as int], orig[i as int], loads@[i as int], trap_return, i as int));
            }
            i = i + 1;
        }
        let r = TaskManager { num_app: n, current_task: 0, tasks, stop_watch: 0 };
        assert forall|j: int| 0 <= j < r.tasks@.len() && #[trigger] r.tasks@[j].status == TaskStatus::Running implies j
            == 0 by {
            assert(loaded_task(r.tasks@[j], orig[j], loads@[j], trap_return, j));
        }
        r
    }

    /// The number of tasks.
    pub fn task_count(&self) -> (r: usize)
        ensures
            r == self.num_app(),
    {
        self.num_app
    }

    /// The index of the current task.
    pub fn current_task(&self) -> (r: usize)
        ensures
            r == self.current(),
    {
        self.current_task
    }

    /// When the current accounting period began.
    pub fn last_switch(&self) -> (r: usize)
        ensures
            r == self.stop_watch(),
    {
        self.stop_watch
    }

    /// The control block of task `i`.
    pub fn task(&self, i: usize) -> (r: &TaskControlBlock<M>)
        requires
            i < self.tasks().len(),
        ensures
            *r == self.tasks()[i as int],
    {
        &self.tasks[i]
    }

    /// The address space of the current task, to change it.
    pub fn current_memory_set(&mut self) -> (r: &mut M)
        requires
            old(self).wf(),
            old(self).num_app() > 0,
        ensures
            *r == old(self).tasks()[old(self).current()].memory_set,
            final(self).tasks() == old(self).tasks().update(
                old(self).current(),
                TaskControlBlock { memory_set: *final(r), ..old(self).tasks()[old(self).current()] },
            ),
            final(self).num_app() == old(self).num_app(),
            final(self).current() == old(self).current(),
            final(self).stop_watch() == old(self).stop_watch(),
    {
        let cur = self.current_task;
        &mut self.tasks[cur].memory_set
    }

    /// Starts a new accounting period at `now`; returns the length of the one that
    /// ends.
    fn refresh_stop_watch(&mut self, now: usize) -> (r: usize)
        requires
            now >= old(self).stop_watch(),
        ensures
            r == now - old(self).stop_watch(),
            final(self).stop_watch() == now,
            final(self).tasks() == old(self).tasks(),
            final(self).num_app() == old(self).num_app(),
            final(self).current() == old(self).current(),
    {
        let start_at = self.stop_watch;
        self.stop_watch = now;
        self.stop_watch - start_at
    }

    /// Gives the current task the state `status`.
    fn mark_task_status(&mut self, status: TaskStatus)
        requires
            old(self).wf(),
            old(self).num_app() > 0,
            status != TaskStatus::Running,
        ensures
            final(self).wf(),
            final(self).tasks() == old(self).tasks().update(
                old(self).current(),
                with_status(old(self).tasks()[old(self).current()], status),
            ),
            final(self).num_app() == old(self).num_app(),
            final(self).current() == old(self).current(),
            final(self).stop_watch() == old(self).stop_watch(),
    {
        let cur = self.current_task;
        self.tasks[cur].set_status(status);
        assert(self.tasks@ =~= old(self).tasks@.update(cur as int, with_status(old(self).tasks@[cur as int], status)));
    }

    /// The task to run after the current one (see `next_ready`).
    pub fn find_next_task(&self) -> (r: Option<usize>)
        requires
            self.wf(),
        ensures
            r matches Some(i) ==> next_ready(self.statuses(), self.current()) == Some(i as int),
            r is None ==> next_ready(self.statuses(), self.current()) is None,
    {
        let n = self.num_app;
        let current = self.current_task;
        let ghost st = self.statuses();
        let mut offset: usize = 0;
        while offset < n
            invariant
                self.wf(),
                n == self.num_app(),
                current == self.current(),
                st == self.statuses(),
                st.len() == n,
                offset <= n,
                forall|j: int| 1 <= j <= offset ==> !#[trigger] ready_at(st, current as int, j),
            decreases n - offset,
        {
            let k = offset + 1;
            let app_id = if current >= n - k {
                current - (n - k)
            } else {
                current + k
            };
            assert(app_id == (current + k) % (n as int)) by {
                if current >= n - k {
                    assert(current + k - n < n);
                    assert((current + k) % (n as int) == current + k - n) by {
                        vstd::arithmetic::div_mod::lemma_mod_add_multiples_vanish((current + k - n) as int, n as int);
                        vstd::arithmetic::div_mod::lemma_small_mod((current + k - n) as nat, n as nat);
                    }
                } else {
                    vstd::arithmetic::div_mod::lemma_small_mod((current + k) as nat, n as nat);
                }
            }
            let ready = match self.tasks[app_id].status {
                TaskStatus::Ready => true,
                _ => false,
            };
            assert(st[app_id as int] == self.tasks@[app_id as int].status);
            if ready {
                proof {
                    let kk = k as int;
                    assert(ready_at(st, current as int, kk));
                    let c = choose|c: int|
                        1 <= c <= st.len() && #[trigger] ready_at(st, current as int, c) && forall|j: int|
                            1 <= j < c ==> !#[trigger] ready_at(st, current as int, j);
                    assert(c == kk) by {
                        if c < kk {
                            assert(!ready_at(st, current as int, c));
                        } else if c > kk {
                            assert(!ready_at(st, current as int, kk));
                        }
                    }
                }
                return Some(app_id);
            }
            offset = offset + 1;
        }
        None
    }

    /// Starts the current task at `now`: it runs, and an accounting period begins.
    /// Returns the index of the task to switch to.
    pub fn run_first_task(&mut self, now: usize) -> (r: usize)
        requires
            old(self).wf(),
            old(self).num_app() > 0,
            now >= old(self).stop_watch(),
        ensures
            final(self).wf(),
            r == old(self).current(),
            final(self).tasks() == old(self).tasks().update(
                old(self).current(),
                with_status(old(self).tasks()[old(self).current()], TaskStatus::Running),
            ),
            final(self).stop_watch() == now,
            final(self).num_app() == old(self).num_app(),
            final(self).current() == old(self).current(),
    {
        let cur = self.current_task;
        self.tasks[cur].set_status(TaskStatus::Running);
        assert(self.tasks@ =~= old(self).tasks@.update(
            cur as int,
            with_status(old(self).tasks@[cur as int], TaskStatus::Running),
        ));
        self.refresh_stop_watch(now);
        cur
    }

    /// Ends the accounting period at `now` and adds it to the current task's user
    /// time.
    pub fn metric_user_time(&mut self, now: usize)
        requires
            old(self).wf(),
            old(self).num_app() > 0,
            now >= old(self).stop_watch(),
            old(self).tasks()[old(self).current()].user_time + (now - old(self).stop_watch()) <= usize::MAX,
        ensures
            final(self).wf(),
            final(self).tasks() == old(self).tasks().update(
                old(self).current(),
                TaskControlBlock {
                    user_time: (old(self).tasks()[old(self).current()].user_time + (now - old(self).stop_watch())) as usize,
                    ..old(self).tasks()[old(self).current()]
                },
            ),
            final(self).stop_watch() == now,
            final(self).num_app() == old(self).num_app(),
            final(self).current() == old(self).current(),
    {
        let cur = self.current_task;
        let duration = self.refresh_stop_watch(now);
        self.tasks[cur].update_user_time(duration);
        assert(self.tasks@ =~= old(self).tasks@.update(
            cur as int,
            TaskControlBlock { user_time: (old(self).tasks@[cur as int].user_time + duration) as usize, ..old(self).tasks@[cur as int] },
        ));
    }

    /// Ends the accounting period at `now` and adds it to the current task's kernel
    /// time.
    pub fn metric_kernel_time(&mut self, now: usize)
        requires
            old(self).wf(),
            old(self).num_app() > 0,
            now >= old(self).stop_watch(),
            old(self).tasks()[old(self).current()].kernel_time + (now - old(self).stop_watch()) <= usize::MAX,
        ensures
            final(self).wf(),
            final(self).tasks() == old(self).tasks().update(
                old(self).current(),
                TaskControlBlock {
                    kernel_time: (old(self).tasks()[old(self).current()].kernel_time + (now - old(self).stop_watch())) as usize,
                    ..old(self).tasks()[old(self).current()]
                },
            ),
            final(self).stop_watch() == now,
            final(self).num_app() == old(self).num_app(),
            final(self).current() == old(self).current(),
    {
        let cur = self.current_task;
        let duration = self.refresh_stop_watch(now);
        self.tasks[cur].update_kernel_time(duration);
        assert(self.tasks@ =~= old(self).tasks@.update(
            cur as int,
            TaskControlBlock { kernel_time: (old(self).tasks@[cur as int].kernel_time + duration) as usize, ..old(self).tasks@[cur as int] },
        ));
    }

    /// Leaves the current task in state `status` (ready or exited), ends its kernel
    /// accounting period at `now`, and switches to the next ready task, which then
    /// runs. Returns that task, or nothing when no task is ready.
    #[verifier::rlimit(40)]
    pub fn run_next_task(&mut self, status: TaskStatus, now: usize) -> (r: Option<usize>)
        requires
            old(self).wf(),
            old(self).num_app() > 0,
            status == TaskStatus::Ready || status == TaskStatus::Exited,
            now >= old(self).stop_watch(),
            old(self).tasks()[old(self).current()].kernel_time + (now - old(self).stop_watch()) <= usize::MAX,
        ensures
            final(self).wf(),
            switched(*old(self), *final(self), status, now, r),
    {
        let ghost cur = old(self).current();
        let ghost left = TaskControlBlock {
            status,
            kernel_time: (old(self).tasks()[cur].kernel_time + (now - old(self).stop_watch())) as usize,
            ..old(self).tasks()[cur]
        };
        self.mark_task_status(status);
        self.metric_kernel_time(now);
        let ghost ts = self.tasks@;
        assert(ts =~= old(self).tasks().update(cur, left));
        assert(self.statuses() =~= old(self).statuses().update(cur, status));
        match self.find_next_task() {
            Some(next) => {
                self.tasks[next].set_status(TaskStatus::Running);
                self.current_task = next;
                assert(self.tasks@ =~= ts.update(next as int, with_status(ts[next as int], TaskStatus::Running)));
                assert forall|i: int|
                    0 <= i < self.tasks@.len() && #[trigger] self.tasks@[i].status == TaskStatus::Running implies i
                        == self.current_task by {
                    if i != next {
                        assert(self.tasks@[i] == ts[i]);
                        if i != cur {
                            assert(ts[i] == old(self).tasks@[i]);
                        }
                    }
                }
                Some(next)
            },
            None => None,
        }
    }

    /// Counts one call of the system call `id` for the current task.
    pub fn metric_sys_call(&mut self, id: usize)
        requires
            old(self).wf(),
            old(self).num_app() > 0,
            !call_counter_full(old(self).tasks()[old(self).current()].sys_call@, id),
        ensures
            final(self).wf(),
            final(self).tasks().len() == old(self).tasks().len(),
            final(self).tasks()[old(self).current()].sys_call@ == counted_call(
                old(self).tasks()[old(self).current()].sys_call@,
                id,
            ),
            final(self).tasks() == old(self).tasks().update(
                old(self).current(),
                TaskControlBlock {
                    sys_call: final(self).tasks()[old(self).current()].sys_call,
                    ..old(self).tasks()[old(self).current()]
                },
            ),
            final(self).stop_watch() == old(self).stop_watch(),
            final(self).num_app() == old(self).num_app(),
            final(self).current() == old(self).current(),
    {
        let cur = self.current_task;
        self.tasks[cur].metric_sys_call(id);
        assert(self.tasks@ =~= old(self).tasks@.update(
            cur as int,
            TaskControlBlock { sys_call: self.tasks@[cur as int].sys_call, ..old(self).tasks@[cur as int] },
        ));
    }

    /// What the kernel reports of task `app_id`; nothing for an unknown task.
    pub fn get_task_info(&self, app_id: usize) -> (r: Option<TaskInfo>)
        requires
            self.wf(),
        ensures
            app_id >= self.num_app() ==> r is None,
            app_id < self.num_app() ==> (r matches Some(ts) && {
                let t = self.tasks()[app_id as int];
                &&& ts.id == app_id
                &&& ts.name.wf()
                &&& ts.name.bytes() == t.app_name@.take(
                    if t.app_name@.len() < MAX_APP_NAME_LEN - 1 { t.app_name@.len() as int } else { MAX_APP_NAME_LEN - 1 },
                )
                &&& ts.call == t.sys_call
                &&& ts.time == t.user_time
            }),
    {
        if app_id >= self.num_app {
            return None;
        }
        let task = &self.tasks[app_id];
        let mut ts = TaskInfo::default();
        ts.id = app_id;
        ts.name.write(task.app_name.as_slice());
        ts.call = task.sys_call;
        ts.time = task.user_time;
        Some(ts)
    }

    /// The `satp` value of the current task's address space.
    pub fn get_current_token(&self) -> (r: usize)
        requires
            self.wf(),
            self.num_app() > 0,
        ensures
            r == self.tasks()[self.current()].user_token,
    {
        self.tasks[self.current_task].user_token
    }

    /// The frame that holds the current task's trap context.
    pub fn get_current_trap_cx(&self) -> (r: PhysPageNum)
        requires
            self.wf(),
            self.num_app() > 0,
        ensures
            r == self.tasks()[self.current()].trap_cx_ppn,
    {
        self.tasks[self.current_task].trap_cx_ppn
    }
}

/// Starts the current task (see `TaskManager::run_first_task`).
pub fn run_first_task<M>(manager: &mut TaskManager<M>, now: usize) -> (r: usize)
    requires
        old(manager).wf(),
        old(manager).num_app() > 0,
        now >= old(manager).stop_watch(),
    ensures
        final(manager).wf(),
        r == old(manager).current(),
        final(manager).tasks() == old(manager).tasks().update(
            old(manager).current(),
            with_status(old(manager).tasks()[old(manager).current()], TaskStatus::Running),
        ),
        final(manager).stop_watch() == now,
        final(manager).current() == old(manager).current(),
{
    manager.run_first_task(now)
}

/// The current task gives up the processor: it stays ready and the next ready task
/// runs, which may be itself. There always is one.
pub fn suspend_current_and_run_next<M>(manager: &mut TaskManager<M>, now: usize) -> (r: Option<usize>)
    requires
        old(manager).wf(),
        old(manager).num_app() > 0,
        now >= old(manager).stop_watch(),
        old(manager).tasks()[old(manager).current()].kernel_time + (now - old(manager).stop_watch()) <= usize::MAX,
    ensures
        final(manager).wf(),
        switched(*old(manager), *final(manager), TaskStatus::Ready, now, r),
        r is Some,
        r matches Some(nx) ==> next_ready(
            old(manager).statuses().update(old(manager).current(), TaskStatus::Ready),
            old(manager).current(),
        ) == Some(nx as int),
        final(manager).tasks()[old(manager).current()].status == (if r == Some(old(manager).current() as usize) {
            TaskStatus::Running
        } else {
            TaskStatus::Ready
        }),
        r matches Some(nx) ==> final(manager).current() == nx && final(manager).tasks()[nx as int].status == TaskStatus::Running,
        final(manager).stop_watch() == now,
{
    proof {
        let cur = old(manager).current();
        let st = old(manager).statuses().update(cur, TaskStatus::Ready);
        law_ready_task_continues(st, cur);
    }
    manager.run_next_task(TaskStatus::Ready, now)
}

/// The current task ends: it is exited and the next ready task runs. Returns that
/// task, or nothing when every task has exited.
pub fn exit_current_and_run_next<M>(manager: &mut TaskManager<M>, now: usize) -> (r: Option<usize>)
    requires
        old(manager).wf(),
        old(manager).num_app() > 0,
        now >= old(manager).stop_watch(),
        old(manager).tasks()[old(manager).current()].kernel_time + (now - old(manager).stop_watch()) <= usize::MAX,
    ensures
        final(manager).wf(),
        switched(*old(manager), *final(manager), TaskStatus::Exited, now, r),
        r matches Some(nx) ==> next_ready(
            old(manager).statuses().update(old(manager).current(), TaskStatus::Exited),
            old(manager).current(),
        ) == Some(nx as int),
        r is None <==> next_ready(
            old(manager).statuses().update(old(manager).current(), TaskStatus::Exited),
            old(manager).current(),
        ) is None,
        final(manager).tasks()[old(manager).current()].status == (if r == Some(old(manager).current() as usize) {
            TaskStatus::Running
        } else {
            TaskStatus::Exited
        }),
        r matches Some(nx) ==> final(manager).current() == nx && final(manager).tasks()[nx as int].status == TaskStatus::Running,
        r is None ==> final(manager).current() == old(manager).current(),
        final(manager).stop_watch() == now,
{
    manager.run_next_task(TaskStatus::Exited, now)
}

/// What the kernel reports of task `app_id` (see `TaskManager::get_task_info`).
pub fn get_task_info<M>(manager: &TaskManager<M>, app_id: usize) -> (r: Option<TaskInfo>)
    requires
        manager.wf(),
    ensures
        r is Some <==> app_id < manager.num_app(),
        r matches Some(ts) ==> {
            let t = manager.tasks()[app_id as int];
            &&& ts.id == app_id
            &&& ts.name.wf()
            &&& ts.name.bytes() == t.app_name@.take(
                if t.app_name@.len() < MAX_APP_NAME_LEN - 1 { t.app_name@.len() as int } else { MAX_APP_NAME_LEN - 1 },
            )
            &&& ts.call == t.sys_call
            &&& ts.time == t.user_time
        },
{
    manager.get_task_info(app_id)
}

/// Adds the period that ends at `now` to the current task's user time.
pub fn metric_user_time<M>(manager: &mut TaskManager<M>, now: usize)
    requires
        old(manager).wf(),
        old(manager).num_app() > 0,
        now >= old(manager).stop_watch(),
        old(manager).tasks()[old(manager).current()].user_time + (now - old(manager).stop_watch()) <= usize::MAX,
    ensures
        final(manager).wf(),
        final(manager).tasks() == old(manager).tasks().update(
            old(manager).current(),
            TaskControlBlock {
                user_time: (old(manager).tasks()[old(manager).current()].user_time + (now - old(manager).stop_watch())) as usize,
                ..old(manager).tasks()[old(manager).current()]
            },
        ),
        final(manager).stop_watch() == now,
        final(manager).current() == old(manager).current(),
{
    manager.metric_user_time(now)
}

/// Adds the period that ends at `now` to the current task's kernel time.
pub fn metric_kernel_time<M>(manager: &mut TaskManager<M>, now: usize)
    requires
        old(manager).wf(),
        old(manager).num_app() > 0,
        now >= old(manager).stop_watch(),
        old(manager).tasks()[old(manager).current()].kernel_time + (now - old(manager).stop_watch()) <= usize::MAX,
    ensures
        final(manager).wf(),
        final(manager).tasks() == old(manager).tasks().update(
            old(manager).current(),
            TaskControlBlock {
                kernel_time: (old(manager).tasks()[old(manager).current()].kernel_time + (now - old(manager).stop_watch())) as usize,
                ..old(manager).tasks()[old(manager).current()]
            },
        ),
        final(manager).stop_watch() == now,
        final(manager).current() == old(manager).current(),
{
    manager.metric_kernel_time(now)
}

/// Counts one call of the system call `id` for the current task.
pub fn metric_sys_call<M>(manager: &mut TaskManager<M>, id: usize)
    requires
        old(manager).wf(),
        old(manager).num_app() > 0,
        !call_counter_full(old(manager).tasks()[old(manager).current()].sys_call@, id),
    ensures
        final(manager).wf(),
        final(manager).tasks()[old(manager).current()].sys_call@ == counted_call(
            old(manager).tasks()[old(manager).current()].sys_call@,
            id,
        ),
        final(manager).tasks() == old(manager).tasks().update(
            old(manager).current(),
            TaskControlBlock {
                sys_call: final(manager).tasks()[old(manager).current()].sys_call,
                ..old(manager).tasks()[old(manager).current()]
            },
        ),
        final(manager).current() == old(manager).current(),
        final(manager).stop_watch() == old(manager).stop_watch(),
{
    manager.metric_sys_call(id)
}

/// The `satp` value of the current task's address space.
pub fn current_user_token<M>(manager: &TaskManager<M>) -> (r: usize)
    requires
        manager.wf(),
        manager.num_app() > 0,
    ensures
        r == manager.tasks()[manager.current()].user_token,
{
    manager.get_current_token()
}

/// The frame that holds the current task's trap context.
pub fn current_trap_cx<M>(manager: &TaskManager<M>) -> (r: PhysPageNum)
    requires
        manager.wf(),
        manager.num_app() > 0,
    ensures
        r == manager.tasks()[manager.current()].trap_cx_ppn,
{
    manager.get_current_trap_cx()
}

/// The task chosen to run next is ready.
pub proof fn law_next_is_ready(st: Seq<TaskStatus>, current: int, i: int)
    requires
        next_ready(st, current) == Some(i),
        0 <= current,
    ensures
        0 <= i < st.len(),
        st[i] == TaskStatus::Ready,
{
    let k = choose|k: int|
        1 <= k <= st.len() && #[trigger] ready_at(st, current, k) && forall|j: int|
            1 <= j < k ==> !#[trigger] ready_at(st, current, j);
    lemma_first_ready_exists(st, current);
}

/// No ready task is passed over: the chosen task is the first ready one met when
/// counting round from the task after `current`.
pub proof fn law_no_ready_task_skipped(st: Seq<TaskStatus>, current: int, i: int)
    requires
        next_ready(st, current) == Some(i),
    ensures
        exists|k: int|
            1 <= k <= st.len() && (current + k) % (st.len() as int) == i && #[trigger] ready_at(st, current, k)
                && forall|j: int| 1 <= j < k ==> !#[trigger] ready_at(st, current, j),
{
    lemma_first_ready_exists(st, current);
}

/// While the current task is ready, the manager always finds a task to run.
pub proof fn law_ready_task_continues(st: Seq<TaskStatus>, current: int)
    requires
        0 <= current < st.len(),
        st[current] == TaskStatus::Ready,
    ensures
        next_ready(st, current) is Some,
{
    let n = st.len() as int;
    assert((current + n) % n == current) by {
        vstd::arithmetic::div_mod::lemma_mod_add_multiples_vanish(current, n);
        vstd::arithmetic::div_mod::lemma_small_mod(current as nat, n as nat);
    }
    assert(ready_at(st, current, n));
}

/// When some task is ready, a first one counting round from `current` exists.
proof fn lemma_first_ready_exists(st: Seq<TaskStatus>, current: int)
    ensures
        (exists|k: int| 1 <= k <= st.len() && #[trigger] ready_at(st, current, k)) ==> exists|k: int|
            1 <= k <= st.len() && #[trigger] ready_at(st, current, k) && forall|j: int|
                1 <= j < k ==> !#[trigger] ready_at(st, current, j),
{
    if exists|k: int| 1 <= k <= st.len() && #[trigger] ready_at(st, current, k) {
        let w = choose|k: int| 1 <= k <= st.len() && #[trigger] ready_at(st, current, k);
        lemma_first_below(st, current, w);
    }
}

proof fn lemma_first_below(st: Seq<TaskStatus>, current: int, w: int)
    requires
        1 <= w <= st.len(),
        ready_at(st, current, w),
    ensures
        exists|k: int|
            1 <= k <= st.len() && #[trigger] ready_at(st, current, k) && forall|j: int|
                1 <= j < k ==> !#[trigger] ready_at(st, current, j),
    decreases w,
{
    if exists|j: int| 1 <= j < w && #[trigger] ready_at(st, current, j) {
        let j = choose|j: int| 1 <= j < w && #[trigger] ready_at(st, current, j);
        lemma_first_below(st, current, j);
    } else {
        assert(forall|j: int| 1 <= j < w ==> !#[trigger] ready_at(st, current, j));
    }
}

/// A well-formed manager has one control block per application, and while there is
/// an application the current task is one of them.
pub proof fn law_current_task_exists<M>(manager: &TaskManager<M>)
    requires
        manager.wf(),
    ensures
        manager.tasks().len() == manager.num_app(),
        manager.num_app() > 0 ==> 0 <= manager.current() < manager.tasks().len(),
{
}

/// Of a well-formed manager, no task but the current one runs.
pub proof fn law_single_running<M>(manager: &TaskManager<M>, i: int)
    requires
        manager.wf(),
        0 <= i < manager.tasks().len(),
        manager.tasks()[i].status == TaskStatus::Running,
    ensures
        i == manager.current(),
{
}

/// The applications that the kernel image links in, from the words that follow their
/// number: for each application its start and the address of its name, then the end
/// of the last one. Application `i` runs from its start to the next start (or the end).
/// Returns `(start, name address, end)` for each.
pub fn app_table_entries(words: &Vec<usize>, num_app: usize) -> (r: Vec<(usize, usize, usize)>)
    requires
        words@.len() >= 2 * num_app + 1,
    ensures
        r@.len() == num_app,
        forall|i: int|
            0 <= i < num_app ==> #[trigger] r@[i] == (words@[2 * i], words@[2 * i + 1], words@[2 * i + 2]),
{
    let mut entries: Vec<(usize, usize, usize)> = Vec::new();
    let len = words.len();
    let mut i: usize = 0;
    while i < num_app
        invariant
            i <= num_app,
            len == words@.len(),
            words@.len() >= 2 * num_app + 1,
            entries@.len() == i,
            forall|k: int|
                0 <= k < i ==> #[trigger] entries@[k] == (words@[2 * k], words@[2 * k + 1], words@[2 * k + 2]),
        decreases num_app - i,
    {
        entries.push((words[2 * i], words[2 * i + 1], words[2 * i + 2]));
        i = i + 1;
    }
    entries
}

/// The user and kernel time accounted to all of `tasks`.
pub open spec fn accounted_time<M>(tasks: Seq<TaskControlBlock<M>>) -> int
    decreases tasks.len(),
{
    if tasks.len() == 0 {
        0
    } else {
        accounted_time(tasks.drop_last()) + tasks.last().user_time + tasks.last().kernel_time
    }
}

/// Every accounting step adds the time that passed exactly once: replacing one task
/// by one whose user and kernel time together grew by `d` (and whose state may have
/// changed) adds `d` to the time accounted to all tasks. The manager's accounting
/// operations replace tasks only so, with `d` the length of the period that ends.
pub proof fn law_time_accounted_once<M>(tasks: Seq<TaskControlBlock<M>>, i: int, t: TaskControlBlock<M>, d: int)
    requires
        0 <= i < tasks.len(),
        t.user_time + t.kernel_time == tasks[i].user_time + tasks[i].kernel_time + d,
    ensures
        accounted_time(tasks.update(i, t)) == accounted_time(tasks) + d,
    decreases tasks.len(),
{
    let u = tasks.update(i, t);
    if i == tasks.len() - 1 {
        assert(u.drop_last() =~= tasks.drop_last());
    } else {
        assert(u.drop_last() =~= tasks.drop_last().update(i, t));
        law_time_accounted_once(tasks.drop_last(), i, t, d);
    }
}

/// A task that has exited stays exited: a switch changes only the task that is left
/// and the ready task that is chosen.
pub proof fn law_exited_stays_exited<M>(
    old: TaskManager<M>,
    new: TaskManager<M>,
    status: TaskStatus,
    now: usize,
    r: Option<usize>,
    j: int,
)
    requires
        old.wf(),
        old.num_app() > 0,
        switched(old, new, status, now, r),
        0 <= j < old.tasks().len(),
        old.tasks()[j].status == TaskStatus::Exited,
        j == old.current() ==> status == TaskStatus::Exited,
    ensures
        new.tasks()[j].status == TaskStatus::Exited,
{
    let cur = old.current();
    let st = old.statuses().update(cur, status);
    if let Some(nx) = r {
        law_next_is_ready(st, cur, nx as int);
        assert(st[j] == TaskStatus::Exited);
    }
}

} // verus!

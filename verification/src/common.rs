//! Types shared by the kernel and user programs: a fixed-capacity C string, the
//! per-system-call counters and the task information that the kernel reports.
use vstd::array::{array_fill_for_copy_types, ArrayAdditionalExecFns};
use vstd::prelude::*;

verus! {

pub const MAX_SYSCALL_NUM: usize = 16;

pub const MAX_APP_NAME_LEN: usize = 32;

pub const SYSCALL_WRITE: usize = 64;

pub const SYSCALL_EXIT: usize = 93;

pub const SYSCALL_YIELD: usize = 124;

pub const SYSCALL_GET_TIME: usize = 169;

pub const SYSCALL_TASK_INFO: usize = 410;

/// A string of at most `LEN - 1` bytes stored inline.
#[derive(Clone, Copy)]
pub struct CString<const LEN: usize> {
    inner: [u8; LEN],
    len: usize,
}

impl<const LEN: usize> CString<LEN> {
    /// The bytes of the string.
    pub closed spec fn bytes(&self) -> Seq<u8> {
        self.inner@.take(self.len as int)
    }

    /// The stored bytes, including those past the string.
    pub closed spec fn storage(&self) -> Seq<u8> {
        self.inner@
    }

    pub closed spec fn wf(&self) -> bool {
        self.len < LEN
    }

    /// Stores `s`, cut to at most `LEN - 1` bytes; the bytes past it keep their values.
    pub fn write(&mut self, s: &[u8])
        requires
            LEN >= 1,
        ensures
            final(self).wf(),
            final(self).bytes() == s@.take(if s@.len() < LEN - 1 { s@.len() as int } else { LEN - 1 }),
            final(self).storage().len() == LEN,
            forall|i: int|
                final(self).bytes().len() <= i < LEN ==> #[trigger] final(self).storage()[i] == old(self).storage()[i],
    {
        let input = s;
        let len = if input.len() < LEN - 1 {
            input.len()
        } else {
            LEN - 1
        };
        self.len = len;
        let mut i: usize = 0;
        while i < len
            invariant
                i <= len,
                len <= input@.len(),
                len < LEN,
                self.len == len,
                self.inner@.len() == LEN,
                forall|j: int| 0 <= j < i ==> #[trigger] self.inner@[j] == input@[j],
                forall|j: int| i <= j < LEN ==> #[trigger] self.inner@[j] == old(self).inner@[j],
            decreases len - i,
        {
            self.inner.set(i, input[i]);
            i = i + 1;
        }
        assert(self.bytes() =~= input@.take(len as int));
    }

    /// The bytes of the string, copied out.
    pub fn as_bytes(&self) -> (r: Vec<u8>)
        requires
            self.wf(),
        ensures
            r@ == self.bytes(),
    {
        let mut r: Vec<u8> = Vec::new();
        let mut i: usize = 0;
        while i < self.len
            invariant
                self.len < LEN,
                i <= self.len,
                self.inner@.len() == LEN,
                r@ == self.inner@.take(i as int),
            decreases self.len - i,
        {
            r.push(self.inner[i]);
            i = i + 1;
            assert(r@ =~= self.inner@.take(i as int));
        }
        r
    }

    /// Number of bytes in the string.
    pub fn len(&self) -> (r: usize)
        ensures
            self.wf() ==> r == self.bytes().len() && r < LEN,
    {
        self.len
    }
}

impl<const LEN: usize> Default for CString<LEN> {
    /// The empty string over zeroed storage.
    fn default() -> (r: Self)
        ensures
            r.bytes() == Seq::<u8>::empty(),
            r.storage() == Seq::new(LEN as nat, |i: int| 0u8),
            LEN >= 1 ==> r.wf(),
    {
        let r = Self { inner: array_fill_for_copy_types(0u8), len: 0 };
        assert(r.bytes() =~= Seq::<u8>::empty());
        assert(r.storage() =~= Seq::new(LEN as nat, |i: int| 0u8));
        r
    }
}

/// How often the system call `id` was made.
#[derive(Clone, Copy, PartialEq, Eq, Structural)]
pub struct SyscallInfo {
    pub id: usize,
    pub times: usize,
}

impl Default for SyscallInfo {
    fn default() -> (r: Self)
        ensures
            r == (SyscallInfo { id: 0, times: 0 }),
    {
        SyscallInfo { id: 0, times: 0 }
    }
}

impl vstd::std_specs::convert::FromSpecImpl<usize> for SyscallInfo {
    open spec fn obeys_from_spec() -> bool {
        true
    }

    open spec fn from_spec(v: usize) -> Self {
        SyscallInfo { id: v, times: 0 }
    }
}

/// A counter for the system call `id` that has not counted yet.
impl From<usize> for SyscallInfo {
    fn from(id: usize) -> (r: Self) {
        Self { id, times: 0 }
    }
}

/// What the kernel reports of a task: its id, name, system call counts and the time
/// (in microseconds) it ran in user mode.
pub struct TaskInfo {
    pub id: usize,
    pub name: CString<MAX_APP_NAME_LEN>,
    pub call: [SyscallInfo; MAX_SYSCALL_NUM],
    pub time: usize,
}

impl Default for TaskInfo {
    fn default() -> (r: Self)
        ensures
            r.id == 0,
            r.time == 0,
            r.name.bytes() == Seq::<u8>::empty(),
            r.name.wf(),
            r.call@ == Seq::new(MAX_SYSCALL_NUM as nat, |i: int| SyscallInfo { id: 0, times: 0 }),
    {
        let r = TaskInfo {
            id: 0,
            name: CString::default(),
            call: array_fill_for_copy_types(SyscallInfo { id: 0, times: 0 }),
            time: 0,
        };
        assert(r.call@ =~= Seq::new(MAX_SYSCALL_NUM as nat, |i: int| SyscallInfo { id: 0, times: 0 }));
        r
    }
}

impl TaskInfo {
    /// The counters up to the first unused one (id 0): the system calls to report.
    pub fn recorded_calls(&self) -> (r: Vec<SyscallInfo>)
        ensures
            r.len() <= MAX_SYSCALL_NUM,
            forall|i: int| 0 <= i < r.len() ==> #[trigger] r@[i] == self.call@[i] && r@[i].id != 0,
            r.len() < MAX_SYSCALL_NUM ==> self.call@[r.len() as int].id == 0,
    {
        let mut r: Vec<SyscallInfo> = Vec::new();
        let mut i: usize = 0;
        while i < MAX_SYSCALL_NUM
            invariant
                i <= MAX_SYSCALL_NUM,
                r.len() == i,
                forall|j: int| 0 <= j < i ==> #[trigger] r@[j] == self.call@[j] && r@[j].id != 0,
            decreases MAX_SYSCALL_NUM - i,
        {
            if self.call[i].id == 0 {
                return r;
            }
            r.push(self.call[i]);
            i = i + 1;
        }
        r
    }
}

/// The system calls that the kernel counts, in this order.
pub open spec fn counted_syscalls() -> Seq<usize> {
    seq![SYSCALL_WRITE, SYSCALL_EXIT, SYSCALL_YIELD, SYSCALL_GET_TIME, SYSCALL_TASK_INFO]
}

/// Fresh counters: one for each system call the kernel knows, then unused ones.
pub fn syscall_list() -> (r: [SyscallInfo; MAX_SYSCALL_NUM])
    ensures
        forall|i: int| 0 <= i < 5 ==> #[trigger] r@[i] == (SyscallInfo { id: counted_syscalls()[i], times: 0 }),
        forall|i: int| 5 <= i < MAX_SYSCALL_NUM ==> #[trigger] r@[i] == (SyscallInfo { id: 0, times: 0 }),
{
    let mut call: [SyscallInfo; MAX_SYSCALL_NUM] = array_fill_for_copy_types(SyscallInfo::default());
    call.set(0, SyscallInfo::from(SYSCALL_WRITE));
    call.set(1, SyscallInfo::from(SYSCALL_EXIT));
    call.set(2, SyscallInfo::from(SYSCALL_YIELD));
    call.set(3, SyscallInfo::from(SYSCALL_GET_TIME));
    call.set(4, SyscallInfo::from(SYSCALL_TASK_INFO));
    call
}

/// The name of a system call, empty for an unknown one.
pub fn syscall_desc(val: usize) -> (r: &'static str)
    ensures
        val == SYSCALL_WRITE ==> r == "write",
        val == SYSCALL_EXIT ==> r == "exit",
        val == SYSCALL_YIELD ==> r == "yield",
        val == SYSCALL_GET_TIME ==> r == "get_time",
        val == SYSCALL_TASK_INFO ==> r == "task_info",
        !counted_syscalls().contains(val) ==> r == "",
{
    match val {
        SYSCALL_WRITE => "write",
        SYSCALL_EXIT => "exit",
        SYSCALL_YIELD => "yield",
        SYSCALL_GET_TIME => "get_time",
        SYSCALL_TASK_INFO => "task_info",
        _ => "",
    }
}

} // verus!

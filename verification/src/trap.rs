//! Traps: where the trap context lives and what the kernel does with each trap.
use vstd::prelude::*;

use crate::config::{PAGE_SIZE, TRAP_CONTEXT};

verus! {

/// The stack pointer from which the trap context is pushed: the trap context page
/// serves as a stack, so the context (of `cx_size` bytes) sits at the end of the page.
pub fn get_trap_cx_sp(cx_size: usize) -> (r: usize)
    requires
        cx_size <= PAGE_SIZE,
    ensures
        r == TRAP_CONTEXT + PAGE_SIZE - cx_size,
{
    TRAP_CONTEXT + PAGE_SIZE - cx_size
}

/// The causes of a trap that the kernel tells apart.
#[derive(Clone, Copy, PartialEq, Eq, Structural, Debug)]
pub enum TrapCause {
    UserEnvCall,
    StoreFault,
    StorePageFault,
    IllegalInstruction,
    SupervisorTimer,
    Other,
}

/// The cause that `scause` names: whether the trap is an interrupt, and its code.
/// The codes are those of the RISC-V privileged architecture.
pub fn trap_cause(interrupt: bool, code: usize) -> (r: TrapCause)
    ensures
        r == (if interrupt {
            if code == 5 { TrapCause::SupervisorTimer } else { TrapCause::Other }
        } else if code == 8 {
            TrapCause::UserEnvCall
        } else if code == 7 {
            TrapCause::StoreFault
        } else if code == 15 {
            TrapCause::StorePageFault
        } else if code == 2 {
            TrapCause::IllegalInstruction
        } else {
            TrapCause::Other
        }),
{
    if interrupt {
        if code == 5 {
            TrapCause::SupervisorTimer
        } else {
            TrapCause::Other
        }
    } else {
        match code {
            8 => TrapCause::UserEnvCall,
            7 => TrapCause::StoreFault,
            15 => TrapCause::StorePageFault,
            2 => TrapCause::IllegalInstruction,
            _ => TrapCause::Other,
        }
    }
}

/// What the kernel does with a trap from user mode.
#[derive(Clone, Copy, PartialEq, Eq, Structural, Debug)]
pub enum UserTrapAction {
    /// Step over the `ecall` and serve the system call.
    Syscall,
    /// The application did something forbidden: it ends.
    KillApp,
    /// The time slice is over: set the next timer interrupt and run the next task.
    Reschedule,
    /// The kernel cannot handle it: it stops.
    Unsupported,
}

/// What the kernel does with a trap from the kernel itself.
#[derive(Clone, Copy, PartialEq, Eq, Structural, Debug)]
pub enum KernelTrapAction {
    /// Note the interrupt and set the next one.
    TimerTick,
    /// A store failed in the kernel: it stops.
    PageFault,
    /// The kernel cannot handle it: it stops.
    Unknown,
}

pub fn user_trap_action(cause: TrapCause) -> (r: UserTrapAction)
    ensures
        r == (match cause {
            TrapCause::UserEnvCall => UserTrapAction::Syscall,
            TrapCause::StoreFault | TrapCause::StorePageFault | TrapCause::IllegalInstruction => UserTrapAction::KillApp,
            TrapCause::SupervisorTimer => UserTrapAction::Reschedule,
            TrapCause::Other => UserTrapAction::Unsupported,
        }),
{
    match cause {
        TrapCause::UserEnvCall => UserTrapAction::Syscall,
        TrapCause::StoreFault | TrapCause::StorePageFault => UserTrapAction::KillApp,
        TrapCause::IllegalInstruction => UserTrapAction::KillApp,
        TrapCause::SupervisorTimer => UserTrapAction::Reschedule,
        _ => UserTrapAction::Unsupported,
    }
}

pub fn kernel_trap_action(cause: TrapCause) -> (r: KernelTrapAction)
    ensures
        r == (match cause {
            TrapCause::SupervisorTimer => KernelTrapAction::TimerTick,
            TrapCause::StoreFault | TrapCause::StorePageFault => KernelTrapAction::PageFault,
            _ => KernelTrapAction::Unknown,
        }),
{
    match cause {
        TrapCause::SupervisorTimer => KernelTrapAction::TimerTick,
        TrapCause::StoreFault | TrapCause::StorePageFault => KernelTrapAction::PageFault,
        _ => KernelTrapAction::Unknown,
    }
}

/// The instruction after the `ecall` at `sepc`, where the application goes on.
pub fn after_ecall(sepc: usize) -> (r: usize)
    requires
        sepc + 4 <= usize::MAX,
    ensures
        r == sepc + 4,
{
    sepc + 4
}

} // verus!

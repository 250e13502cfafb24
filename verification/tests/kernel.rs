use rcore_os::config::{kernel_stack_position, KERNEL_STACK_SIZE, PAGE_SIZE, TRAMPOLINE, TRAP_CONTEXT};
use rcore_os::logging::{log_allow, log_level, Level, LogMetaInfo, DEBUG_LEVEL, ERROR_LEVEL, INFO_LEVEL, TRACE_LEVEL, WARN_LEVEL};
use rcore_os::syscall::{decode_syscall, sys_get_time, sys_mem_apply, sys_task_info, SyscallRequest};
use rcore_os::timer::{get_time_ms, get_time_us, set_next_trigger};
use rcore_os::trap::{after_ecall, trap_cause, get_trap_cx_sp, kernel_trap_action, user_trap_action, KernelTrapAction, TrapCause, UserTrapAction};
use rcore_os::user::{HeapGrowth, MAX_APPLY_HEAP};
use rcore_os::utils::Address;

#[test]
fn kernel_stacks_are_laid_out_below_the_trampoline() {
    assert_eq!(kernel_stack_position(0), (TRAMPOLINE - KERNEL_STACK_SIZE, TRAMPOLINE));
    let (bottom, top) = kernel_stack_position(2);
    assert_eq!(top, TRAMPOLINE - 2 * (KERNEL_STACK_SIZE + PAGE_SIZE));
    assert_eq!(bottom, top - KERNEL_STACK_SIZE);
    // a guard page separates the stacks of neighbouring applications
    let (bottom0, _) = kernel_stack_position(0);
    let (_, top1) = kernel_stack_position(1);
    assert_eq!(bottom0 - top1, PAGE_SIZE);
    assert_eq!(TRAMPOLINE, 0xffff_ffff_ffff_f000);
    assert_eq!(TRAP_CONTEXT, 0xffff_ffff_ffff_e000);
}

#[test]
fn timer_conversions() {
    assert_eq!(get_time_ms(12_500_000), 1000);
    assert_eq!(get_time_ms(12_499), 0);
    assert_eq!(get_time_us(25), 2);
    assert_eq!(set_next_trigger(1000), 126_000);
    assert_eq!(sys_get_time(25_000), 2);
}

#[test]
fn trap_decisions() {
    assert_eq!(user_trap_action(TrapCause::UserEnvCall), UserTrapAction::Syscall);
    assert_eq!(user_trap_action(TrapCause::StoreFault), UserTrapAction::KillApp);
    assert_eq!(user_trap_action(TrapCause::StorePageFault), UserTrapAction::KillApp);
    assert_eq!(user_trap_action(TrapCause::IllegalInstruction), UserTrapAction::KillApp);
    assert_eq!(user_trap_action(TrapCause::SupervisorTimer), UserTrapAction::Reschedule);
    assert_eq!(user_trap_action(TrapCause::Other), UserTrapAction::Unsupported);
    assert_eq!(kernel_trap_action(TrapCause::SupervisorTimer), KernelTrapAction::TimerTick);
    assert_eq!(kernel_trap_action(TrapCause::StorePageFault), KernelTrapAction::PageFault);
    assert_eq!(kernel_trap_action(TrapCause::UserEnvCall), KernelTrapAction::Unknown);
    assert_eq!(trap_cause(false, 8), TrapCause::UserEnvCall);
    assert_eq!(trap_cause(false, 7), TrapCause::StoreFault);
    assert_eq!(trap_cause(false, 15), TrapCause::StorePageFault);
    assert_eq!(trap_cause(false, 2), TrapCause::IllegalInstruction);
    assert_eq!(trap_cause(true, 5), TrapCause::SupervisorTimer);
    assert_eq!(trap_cause(true, 8), TrapCause::Other);
    assert_eq!(trap_cause(false, 5), TrapCause::Other);
    assert_eq!(after_ecall(0x1000), 0x1004);
    assert_eq!(get_trap_cx_sp(272), TRAMPOLINE - 272);
}

#[test]
fn syscall_decoding() {
    assert_eq!(decode_syscall(64, [1, 0x1000, 5]), Some(SyscallRequest::Write { fd: 1, buf: 0x1000, len: 5 }));
    assert_eq!(decode_syscall(93, [3, 0, 0]), Some(SyscallRequest::Exit { code: 3 }));
    assert_eq!(decode_syscall(124, [0, 0, 0]), Some(SyscallRequest::Yield));
    assert_eq!(decode_syscall(169, [0, 0, 0]), Some(SyscallRequest::GetTime));
    assert_eq!(decode_syscall(410, [2, 0x2000, 0]), Some(SyscallRequest::TaskInfo { id: 2, info: 0x2000 }));
    assert_eq!(decode_syscall(7, [0, 0, 0]), None);
    assert_eq!(sys_mem_apply(Some(4096)), 4096);
    assert_eq!(sys_mem_apply(None), -1);
    assert_eq!(sys_task_info(true), 0);
    assert_eq!(sys_task_info(false), -1);
}

static WARN: Level = Level { level: WARN_LEVEL, color: 93, tag: "WARN" };

#[test]
fn log_levels() {
    let info = Level::new(INFO_LEVEL, 34, "INFO");
    assert!(log_allow(&info, INFO_LEVEL));
    assert!(!log_allow(&info, WARN_LEVEL));
    assert!(log_allow(&WARN, INFO_LEVEL));
    let meta = LogMetaInfo::new(&WARN, "main.rs", 7);
    assert_eq!((meta.level.tag, meta.file, meta.line), ("WARN", "main.rs", 7));
}

#[test]
fn heap_growth_stops_at_the_limit() {
    let mut g = HeapGrowth::new();
    assert!(g.may_apply());
    assert_eq!(g.record(-1), None);
    assert_eq!(g.record(0), None);
    for _ in 0..16 {
        assert!(g.may_apply());
        assert_eq!(g.record(4096), Some(4096));
    }
    assert!(!g.may_apply());
    assert_eq!(MAX_APPLY_HEAP, 16 * 4096);
}

#[test]
fn address_steps_over_values() {
    let mut a: Address<u64> = Address::new(0x1000);
    a.add(1);
    assert_eq!(a.get_addr(), 0x1008);
    let mut b: Address<u8> = Address::new(0x1000);
    b.add(3);
    assert_eq!(b.get_addr(), 0x1003);
}

#[test]
fn log_level_from_setting() {
    assert_eq!(log_level(Some("ERROR")), ERROR_LEVEL);
    assert_eq!(log_level(Some("WARN")), WARN_LEVEL);
    assert_eq!(log_level(Some("INFO")), INFO_LEVEL);
    assert_eq!(log_level(Some("DEBUG")), DEBUG_LEVEL);
    assert_eq!(log_level(Some("TRACE")), TRACE_LEVEL);
    assert_eq!(log_level(Some("error")), INFO_LEVEL);
    assert_eq!(log_level(None), INFO_LEVEL);
}

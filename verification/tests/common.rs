use rcore_os::common::{
    syscall_desc, syscall_list, CString, SyscallInfo, TaskInfo, MAX_APP_NAME_LEN, SYSCALL_EXIT, SYSCALL_GET_TIME,
    SYSCALL_TASK_INFO, SYSCALL_WRITE, SYSCALL_YIELD,
};

#[test]
fn test_syscall_list() {
    let call = syscall_list();
    let ids: Vec<usize> = call.iter().map(|c| c.id).collect();
    assert_eq!(&ids[..5], &[SYSCALL_WRITE, SYSCALL_EXIT, SYSCALL_YIELD, SYSCALL_GET_TIME, SYSCALL_TASK_INFO]);
    assert!(ids[5..].iter().all(|&id| id == 0));
    assert!(call.iter().all(|c| c.times == 0));
}

#[test]
fn syscall_names() {
    assert_eq!(syscall_desc(SYSCALL_WRITE), "write");
    assert_eq!(syscall_desc(SYSCALL_EXIT), "exit");
    assert_eq!(syscall_desc(SYSCALL_YIELD), "yield");
    assert_eq!(syscall_desc(SYSCALL_GET_TIME), "get_time");
    assert_eq!(syscall_desc(SYSCALL_TASK_INFO), "task_info");
    assert_eq!(syscall_desc(1), "");
}

#[test]
fn cstring_keeps_at_most_len_minus_one_bytes() {
    let mut s: CString<8> = CString::default();
    assert_eq!(s.len(), 0);
    s.write(b"hello");
    assert_eq!(s.len(), 5);
    s.write(b"a much longer name");
    assert_eq!(s.len(), 7);
    s.write(b"");
    assert_eq!(s.len(), 0);
}

#[test]
fn syscall_info_from_id() {
    let c = SyscallInfo::from(SYSCALL_YIELD);
    assert_eq!((c.id, c.times), (SYSCALL_YIELD, 0));
    let d = SyscallInfo::default();
    assert_eq!((d.id, d.times), (0, 0));
}

#[test]
fn task_info_reports_calls_until_the_first_unused() {
    let mut info = TaskInfo::default();
    assert_eq!(info.name.len(), 0);
    assert!(info.recorded_calls().is_empty());
    info.call = syscall_list();
    info.call[2].times = 3;
    let calls = info.recorded_calls();
    assert_eq!(calls.len(), 5);
    assert_eq!(calls[2].times, 3);
    assert_eq!(MAX_APP_NAME_LEN, 32);
}

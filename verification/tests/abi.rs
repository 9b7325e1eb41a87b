use lib::abi::{dispatch_syscall, read_result, write_result, SyscallAction, SYS_EXIT, SYS_READ, SYS_WRITE};

#[test]
fn syscall_numbers_are_defined() {
    assert_eq!(SYS_WRITE, 1);
    assert_eq!(SYS_EXIT, 2);
    assert_eq!(SYS_READ, 3);
}

#[test]
fn write_to_stdout_is_dispatched() {
    match dispatch_syscall(SYS_WRITE, 1, 0x8000, 12) {
        SyscallAction::WriteStdout { ptr, len } => {
            assert_eq!(ptr, 0x8000);
            assert_eq!(len, 12);
        }
        _ => panic!("expected a write"),
    }
    assert_eq!(write_result(12), 12);
}

#[test]
fn write_to_other_descriptor_fails() {
    assert!(matches!(dispatch_syscall(SYS_WRITE, 2, 0x8000, 12), SyscallAction::Return(usize::MAX)));
}

#[test]
fn write_from_null_fails() {
    assert!(matches!(dispatch_syscall(SYS_WRITE, 1, 0, 12), SyscallAction::Return(usize::MAX)));
}

#[test]
fn exit_carries_status() {
    assert!(matches!(dispatch_syscall(SYS_EXIT, 7, 0, 0), SyscallAction::Exit { status: 7 }));
}

#[test]
fn read_from_stdin_is_dispatched() {
    assert!(matches!(dispatch_syscall(SYS_READ, 0, 0x9000, 1), SyscallAction::ReadStdin { ptr: 0x9000 }));
    assert_eq!(read_result(true), 1);
    assert_eq!(read_result(false), 0);
}

#[test]
fn read_with_bad_arguments_returns_zero() {
    assert!(matches!(dispatch_syscall(SYS_READ, 1, 0x9000, 1), SyscallAction::Return(0)));
    assert!(matches!(dispatch_syscall(SYS_READ, 0, 0, 1), SyscallAction::Return(0)));
    assert!(matches!(dispatch_syscall(SYS_READ, 0, 0x9000, 0), SyscallAction::Return(0)));
}

#[test]
fn unknown_syscall_is_reported() {
    assert!(matches!(
        dispatch_syscall(42, 0, 0, 0),
        SyscallAction::Unknown { result: usize::MAX }
    ));
    assert!(matches!(
        dispatch_syscall(4, 1, 0x9000, 3),
        SyscallAction::Unknown { result: usize::MAX }
    ));
}

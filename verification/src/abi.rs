//! The system call interface offered to user code.
use vstd::prelude::*;

verus! {

/// Writes bytes to a file descriptor.
pub const SYS_WRITE: usize = 1;

/// Ends the calling program.
pub const SYS_EXIT: usize = 2;

/// Reads bytes from a file descriptor.
pub const SYS_READ: usize = 3;

/// What the kernel does for a system call.
pub enum SyscallAction {
    /// Send `len` bytes starting at `ptr` to the console; the call returns `len`.
    WriteStdout { ptr: usize, len: usize },
    /// Report the exit status and halt.
    Exit { status: usize },
    /// Read at most one byte from the console into `ptr`; the call returns the
    /// number of bytes read.
    ReadStdin { ptr: usize },
    /// Do nothing and return the value.
    Return(usize),
    /// Report an unknown system call; the call returns `result`.
    Unknown { result: usize },
}

/// What a system call with number `syscall` and arguments `arg0` to `arg2` does: a
/// write to standard output (descriptor 1) from a non-null buffer, a read from
/// standard input (descriptor 0) into a non-null buffer of positive length, or an
/// exit; a write that is not such fails with `usize::MAX`, a read that is not such
/// returns zero, and any other number is unknown and returns `usize::MAX`.
pub open spec fn syscall_action(syscall: usize, arg0: usize, arg1: usize, arg2: usize) -> SyscallAction {
    if syscall == SYS_WRITE {
        if arg0 == 1 && arg1 != 0 {
            SyscallAction::WriteStdout { ptr: arg1, len: arg2 }
        } else {
            SyscallAction::Return(usize::MAX)
        }
    } else if syscall == SYS_EXIT {
        SyscallAction::Exit { status: arg0 }
    } else if syscall == SYS_READ {
        if arg0 == 0 && arg1 != 0 && arg2 > 0 {
            SyscallAction::ReadStdin { ptr: arg1 }
        } else {
            SyscallAction::Return(0)
        }
    } else {
        SyscallAction::Unknown { result: usize::MAX }
    }
}

/// What each system call is dispatched as. A write is sent to the console exactly
/// when it goes to descriptor 1 from a non-null buffer, whatever its length, and
/// otherwise fails with `usize::MAX`. A read is taken from the console exactly when
/// it comes from descriptor 0 into a non-null buffer of any positive length, and
/// otherwise returns zero. An exit carries its first argument as the status. Any
/// other number is unknown and returns `usize::MAX`. The third argument matters only
/// as a write's length and as whether a read's length is zero.
pub proof fn lemma_syscall_dispatch(syscall: usize, arg0: usize, arg1: usize, arg2: usize)
    ensures
        syscall == 1 ==> (syscall_action(syscall, arg0, arg1, arg2) is WriteStdout <==> (arg0
            == 1 && arg1 != 0)),
        syscall == 1 && arg0 == 1 && arg1 != 0 ==> syscall_action(syscall, arg0, arg1, arg2)
            == (SyscallAction::WriteStdout { ptr: arg1, len: arg2 }),
        syscall == 1 && !(arg0 == 1 && arg1 != 0) ==> syscall_action(syscall, arg0, arg1, arg2)
            == SyscallAction::Return(usize::MAX),
        syscall == 2 ==> syscall_action(syscall, arg0, arg1, arg2) == (SyscallAction::Exit {
            status: arg0,
        }),
        syscall == 3 ==> (syscall_action(syscall, arg0, arg1, arg2) is ReadStdin <==> (arg0
            == 0 && arg1 != 0 && arg2 > 0)),
        syscall == 3 && arg0 == 0 && arg1 != 0 && arg2 > 0 ==> syscall_action(
            syscall,
            arg0,
            arg1,
            arg2,
        ) == (SyscallAction::ReadStdin { ptr: arg1 }),
        syscall == 3 && !(arg0 == 0 && arg1 != 0 && arg2 > 0) ==> syscall_action(
            syscall,
            arg0,
            arg1,
            arg2,
        ) == SyscallAction::Return(0),
        syscall != 1 && syscall != 2 && syscall != 3 ==> syscall_action(syscall, arg0, arg1, arg2)
            == (SyscallAction::Unknown { result: usize::MAX }),
{
}

/// Two reads from descriptor 0 into the same non-null buffer are dispatched alike
/// whatever their positive lengths.
pub proof fn lemma_read_length_ignored(ptr: usize, len1: usize, len2: usize)
    requires
        ptr != 0,
        len1 > 0,
        len2 > 0,
    ensures
        syscall_action(SYS_READ, 0, ptr, len1) == syscall_action(SYS_READ, 0, ptr, len2),
        syscall_action(SYS_READ, 0, ptr, len1) == (SyscallAction::ReadStdin { ptr }),
{
}

/// Decides what a system call does; see [`syscall_action`].
pub fn dispatch_syscall(syscall: usize, arg0: usize, arg1: usize, arg2: usize) -> (action: SyscallAction)
    ensures
        action == syscall_action(syscall, arg0, arg1, arg2),
{
    match syscall {
        SYS_WRITE => {
            let fd = arg0;
            let ptr = arg1;
            let len = arg2;
            if fd == 1 && ptr != 0 {
                SyscallAction::WriteStdout { ptr, len }
            } else {
                SyscallAction::Return(usize::MAX)
            }
        },
        SYS_EXIT => SyscallAction::Exit { status: arg0 },
        SYS_READ => {
            let fd = arg0;
            let ptr = arg1;
            let len = arg2;
            if fd == 0 && ptr != 0 && len > 0 {
                SyscallAction::ReadStdin { ptr }
            } else {
                SyscallAction::Return(0)
            }
        },
        _ => SyscallAction::Unknown { result: usize::MAX },
    }
}

/// The value a read from standard input returns: one when a byte was read, zero
/// otherwise.
pub fn read_result(byte_read: bool) -> (result: usize)
    ensures
        result == if byte_read {
            1usize
        } else {
            0usize
        },
{
    if byte_read {
        1
    } else {
        0
    }
}

/// The value a write to standard output returns: the length asked for.
pub fn write_result(len: usize) -> (result: usize)
    ensures
        result == len,
{
    len
}

} // verus!

//! Checks on pointers handed to the kernel by user code.
use vstd::prelude::*;

verus! {

/// First address past the user half of the address space.
pub const USER_SPACE_END: u64 = 0x0000_8000_0000_0000;

/// Largest transfer a system call accepts.
pub const MAX_SYSCALL_TRANSFER: usize = 65536;

#[derive(Debug, Clone, Copy, PartialEq, Eq, Structural)]
pub enum UserPtrError {
    Null,
    KernelSpace,
    Overflow,
    CrossesBoundary,
    TooLarge,
}

/// The verdict on the user range `[ptr, ptr + len)`; the checks apply in
/// this order.
pub open spec fn range_check(ptr: u64, len: usize) -> Result<(), UserPtrError> {
    if ptr == 0 {
        Err(UserPtrError::Null)
    } else if len > MAX_SYSCALL_TRANSFER {
        Err(UserPtrError::TooLarge)
    } else if ptr + len > u64::MAX {
        Err(UserPtrError::Overflow)
    } else if ptr >= USER_SPACE_END {
        Err(UserPtrError::KernelSpace)
    } else if ptr + len > USER_SPACE_END {
        Err(UserPtrError::CrossesBoundary)
    } else {
        Ok(())
    }
}

/// Checks that `[ptr, ptr + len)` is a non-null range of user memory no
/// longer than `MAX_SYSCALL_TRANSFER`.
pub fn validate_range(ptr: u64, len: usize) -> (r: Result<(), UserPtrError>)
    ensures
        r == range_check(ptr, len),
        r is Ok ==> 0 < ptr && ptr + len <= USER_SPACE_END && len <= MAX_SYSCALL_TRANSFER,
{
    if ptr == 0 {
        return Err(UserPtrError::Null);
    }
    if len > MAX_SYSCALL_TRANSFER {
        return Err(UserPtrError::TooLarge);
    }
    let end = match ptr.checked_add(len as u64) {
        Some(e) => e,
        None => {
            return Err(UserPtrError::Overflow);
        },
    };
    if ptr >= USER_SPACE_END {
        return Err(UserPtrError::KernelSpace);
    }
    if end > USER_SPACE_END {
        return Err(UserPtrError::CrossesBoundary);
    }
    Ok(())
}

/// Checks a user range the kernel is about to read.
pub fn validate_user_read(ptr: u64, len: usize) -> (r: Result<(), UserPtrError>)
    ensures
        r == range_check(ptr, len),
{
    validate_range(ptr, len)
}

/// Checks a user range the kernel is about to write.
pub fn validate_user_write(ptr: u64, len: usize) -> (r: Result<(), UserPtrError>)
    ensures
        r == range_check(ptr, len),
{
    validate_range(ptr, len)
}

} // verus!

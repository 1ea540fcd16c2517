use kernel::mm::user_ptr::{
    validate_range, validate_user_read, validate_user_write, UserPtrError, MAX_SYSCALL_TRANSFER, USER_SPACE_END,
};
use kernel::mm::vmm::Vmm;

#[test]
fn valid_user_range_passes() {
    assert_eq!(validate_range(0x1000, 16), Ok(()));
    assert_eq!(validate_user_read(0x40_0000, MAX_SYSCALL_TRANSFER), Ok(()));
    assert_eq!(validate_user_write(USER_SPACE_END - 4, 4), Ok(()));
}

#[test]
fn null_pointer_is_refused() {
    assert_eq!(validate_range(0, 0), Err(UserPtrError::Null));
    assert_eq!(validate_user_read(0, 8), Err(UserPtrError::Null));
}

#[test]
fn oversized_transfer_is_refused() {
    assert_eq!(validate_range(0x1000, MAX_SYSCALL_TRANSFER + 1), Err(UserPtrError::TooLarge));
    // The size check comes before the address check.
    assert_eq!(validate_range(USER_SPACE_END, MAX_SYSCALL_TRANSFER + 1), Err(UserPtrError::TooLarge));
}

#[test]
fn wrapping_range_is_refused() {
    assert_eq!(validate_range(u64::MAX - 2, 8), Err(UserPtrError::Overflow));
}

#[test]
fn kernel_addresses_are_refused() {
    assert_eq!(validate_range(USER_SPACE_END, 1), Err(UserPtrError::KernelSpace));
    assert_eq!(validate_user_write(0xFFFF_8000_0000_0000, 8), Err(UserPtrError::KernelSpace));
}

#[test]
fn range_crossing_into_kernel_is_refused() {
    assert_eq!(validate_range(USER_SPACE_END - 4, 5), Err(UserPtrError::CrossesBoundary));
}

#[test]
fn vmm_starts_closed_and_records_offset() {
    let mut v = Vmm::new();
    assert!(!v.is_ready());
    v.init(None);
    assert!(!v.is_ready());
    assert_eq!(v.physical_memory_offset(), 0);
    v.init(Some(0xFFFF_8000_0000_0000));
    assert!(v.is_ready());
    assert_eq!(v.physical_memory_offset(), 0xFFFF_8000_0000_0000);
    assert_eq!(v.phys_to_virt(0x20_1000), 0xFFFF_8000_0020_1000);
}

#[test]
fn identity_window_maps_to_itself() {
    let mut v = Vmm::new();
    v.init(Some(0));
    assert_eq!(v.phys_to_virt(0x1234), 0x1234);
}

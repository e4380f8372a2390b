use kernel_core::mem::bump_alloc::{align_ptr, BumpAlloc};

#[test]
fn test_align_ptr() {
    assert_eq!(align_ptr(0, 8), Some(0));
    assert_eq!(align_ptr(1, 8), Some(8));
    assert_eq!(align_ptr(8, 8), Some(8));
    assert_eq!(align_ptr(9, 8), Some(16));
    assert_eq!(align_ptr(4095, 4096), Some(4096));
    assert_eq!(align_ptr(17, 1), Some(17));
    assert_eq!(align_ptr(usize::MAX, 1), Some(usize::MAX));
    assert_eq!(align_ptr(usize::MAX - 7, 8), Some(usize::MAX - 7));
    assert_eq!(align_ptr(usize::MAX - 6, 8), None);
}

#[test]
fn test_bump_alloc_slices() {
    let mut bump = BumpAlloc::new(0x1001, 0x1000);
    assert_eq!(bump.position(), 0x1001);
    assert!(bump.ptr_in_bounds());

    // Three bytes, then a u64 slice, which is aligned to 8
    assert_eq!(bump.alloc_slice::<u8>(3), 0x1001);
    assert_eq!(bump.position(), 0x1004);
    assert_eq!(bump.alloc_slice::<u64>(10), 0x1008);
    assert_eq!(bump.position(), 0x1008 + 80);
    assert_eq!(bump.alloc_slice::<u16>(1), 0x1058);
    assert_eq!(bump.alloc_slice::<u32>(0), 0x105c);
    assert_eq!(bump.position(), 0x105c);
}

#[test]
fn test_bump_alloc_bounds() {
    // The buffer's last byte is at 0x10ff
    let bump = BumpAlloc::new(0x1000, 0x100);
    assert!(bump.slice_in_bounds::<u8>(0xff));
    assert!(!bump.slice_in_bounds::<u8>(0x100));
    assert!(bump.slice_in_bounds::<u64>(31));
    assert!(!bump.slice_in_bounds::<u64>(32));
    assert!(!bump.slice_in_bounds::<u64>(usize::MAX));

    let mut bump = BumpAlloc::new(0x1000, 0x100);
    bump.alloc_slice_mock::<u8>(0xff);
    assert!(bump.ptr_in_bounds());
    assert!(bump.slice_in_bounds::<u8>(0));
    assert!(!bump.slice_in_bounds::<u8>(1));
    assert!(!bump.slice_in_bounds::<u16>(0));
}

#[test]
fn test_mock_and_actual_pass_agree() {
    let mut mock = BumpAlloc::new(0x7003, 0x10000);
    let mut actual = BumpAlloc::new(0x7003, 0x10000);

    mock.alloc_slice_mock::<u64>(65);
    mock.alloc_slice_mock::<u8>(5);
    mock.alloc_slice_mock::<u32>(7);
    mock.alloc_slice_mock::<u64>(1);

    assert_eq!(actual.alloc_slice::<u64>(65), 0x7008);
    assert_eq!(actual.alloc_slice::<u8>(5), 0x7008 + 520);
    assert_eq!(actual.alloc_slice::<u32>(7), 0x7218);
    assert_eq!(actual.alloc_slice::<u64>(1), 0x7238);

    assert_eq!(mock.position(), actual.position());
    assert_eq!(actual.position(), 0x7240);
}

#[test]
fn test_mock_allocation_may_reach_past_the_buffer() {
    // The buffer's last byte is at 0x10ff
    let mut bump = BumpAlloc::new(0x1000, 0x100);
    assert!(!bump.slice_in_bounds::<u64>(1000));
    assert!(bump.mock_in_bounds::<u64>(1000));
    bump.alloc_slice_mock::<u64>(1000);
    assert_eq!(bump.position(), 0x1000 + 8000);

    // The next allocation would start past the buffer
    assert!(!bump.ptr_in_bounds());
    assert!(!bump.mock_in_bounds::<u8>(0));

    // The end of a slice has to lie within the address space
    let bump = BumpAlloc::new(0x1000, 0x100);
    assert!(bump.mock_in_bounds::<u8>(usize::MAX - 0x1000));
    assert!(!bump.mock_in_bounds::<u8>(usize::MAX - 0xfff));
    assert!(!bump.mock_in_bounds::<u64>(usize::MAX / 4));
}

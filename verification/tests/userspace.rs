use kernel::loader::segments::PAGE_PRESENT;
use kernel::loader::{self, SegmentSpec, USER_CODE_BASE};
use kernel::userspace::{bootstrap_code_size, bootstrap_image};

#[test]
fn bootstrap_code_size_is_clamped() {
    assert_eq!(bootstrap_code_size(100, 50), 64);
    assert_eq!(bootstrap_code_size(0, 10), 64);
    assert_eq!(bootstrap_code_size(0x1000, 0x10c8), 200);
    assert_eq!(bootstrap_code_size(0, 10_000), 4096);
}

#[test]
fn bootstrap_image_loads_as_one_code_segment() {
    let code = [0x90u8; 70];
    let img = bootstrap_image(&code);
    assert_eq!(img.len(), 96 + 70);
    assert_eq!(&img[0..4], b"ABO\0");
    assert_eq!(&img[8..17], b"AsterInit");
    assert_eq!(&img[96..], &code[..]);
    let plan = loader::load(&img);
    assert_eq!(
        plan.segments,
        vec![SegmentSpec { vaddr: USER_CODE_BASE, mem_size: 70, file_off: 96, file_size: 70, flags: PAGE_PRESENT }]
    );
    assert_eq!(plan.outcome, Ok((USER_CODE_BASE, USER_CODE_BASE + 70)));
}

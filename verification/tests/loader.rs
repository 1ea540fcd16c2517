use kernel::loader::abo::{self, build_header, build_segment_entry, Manifest, FLAG_NATIVE, FLAG_WASM, SEG_FLAG_R, SEG_FLAG_W, SEG_FLAG_X};
use kernel::loader::segments::{
    page_flags, segment_pages, stack_layout, validate_segment, PageCopy, PAGE_NO_EXECUTE, PAGE_PRESENT, PAGE_WRITABLE,
    STACK_PAGE_FLAGS,
};
use kernel::loader::{self, elf, finish_load, loaded, LoadError, LoadedBinary, SegmentSpec, USER_STACK_BASE, USER_STACK_SIZE, USER_STACK_TOP};

const UUID: [u8; 16] = [7; 16];

/// An ABO image with one segment table at 64 and the given entries,
/// followed by `payload`.
fn abo_image(flags: u32, entries: &[[u8; 32]], entry_offset: u32, payload: &[u8]) -> Vec<u8> {
    let mut img = build_header(UUID, flags, 0, 0, 64, entries.len() as u32, entry_offset).to_vec();
    for e in entries {
        img.extend_from_slice(e);
    }
    img.extend_from_slice(payload);
    img
}

fn one_segment_abo() -> Vec<u8> {
    let seg = build_segment_entry(0x40_0000, 0x2000, 96, 4, SEG_FLAG_R | SEG_FLAG_X);
    abo_image(FLAG_NATIVE, &[seg], 0x10, &[0x90, 0x90, 0xeb, 0xfe])
}

#[test]
fn abo_plan_for_one_code_segment() {
    let img = one_segment_abo();
    assert_eq!(img.len(), 100);
    let plan = loader::load(&img);
    assert_eq!(
        plan.segments,
        vec![SegmentSpec { vaddr: 0x40_0000, mem_size: 0x2000, file_off: 96, file_size: 4, flags: PAGE_PRESENT }]
    );
    assert_eq!(plan.outcome, Ok((0x40_0010, 0x40_2000)));
    let direct = abo::load(&img);
    assert_eq!(direct.segments, plan.segments);
    assert_eq!(direct.outcome, plan.outcome);
}

#[test]
fn abo_header_bytes_are_little_endian() {
    let h = build_header(UUID, 3, 0x11, 0x22, 0x40, 2, 0x1234);
    assert_eq!(&h[0..4], b"ABO\0");
    assert_eq!(&h[4..8], &[0, 0, 0, 0]);
    assert_eq!(&h[8..24], &UUID);
    assert_eq!(&h[24..28], &[3, 0, 0, 0]);
    assert_eq!(&h[28..32], &[0x11, 0, 0, 0]);
    assert_eq!(&h[40..44], &[2, 0, 0, 0]);
    assert_eq!(&h[44..48], &[0x34, 0x12, 0, 0]);
    assert!(h[48..].iter().all(|&b| b == 0));
    let s = build_segment_entry(0x0102_0304_0506_0708, 1, 2, 3, 4);
    assert_eq!(&s[0..8], &[8, 7, 6, 5, 4, 3, 2, 1]);
    assert_eq!(&s[24..32], &[3, 0, 0, 0, 4, 0, 0, 0]);
}

#[test]
fn abo_data_segment_is_writable_and_not_executable() {
    let code = build_segment_entry(0x40_0000, 0x1000, 128, 0, SEG_FLAG_R | SEG_FLAG_X);
    let data = build_segment_entry(0x60_0000, 0x3000, 128, 0, SEG_FLAG_R | SEG_FLAG_W);
    let bss = build_segment_entry(0x70_0000, 0, 128, 0, SEG_FLAG_R | SEG_FLAG_W);
    let img = abo_image(FLAG_NATIVE, &[data, code, bss], 0, &[]);
    let plan = loader::load(&img);
    assert_eq!(plan.segments.len(), 2);
    assert_eq!(plan.segments[0].flags, PAGE_PRESENT | PAGE_WRITABLE | PAGE_NO_EXECUTE);
    assert_eq!(plan.segments[1].vaddr, 0x40_0000);
    // The entry is taken in the first executable segment; the end of data is
    // the highest segment end, empty segments included.
    assert_eq!(plan.outcome, Ok((0x40_0000, 0x70_0000)));
}

#[test]
fn short_images_are_too_small() {
    assert_eq!(loader::load(&[]).outcome, Err(LoadError::TooSmall));
    assert_eq!(loader::load(b"ABO").outcome, Err(LoadError::TooSmall));
    assert_eq!(loader::load(b"ABO\0rest").outcome, Err(LoadError::TooSmall));
    assert_eq!(loader::load(b"\x7fELF").outcome, Err(LoadError::TooSmall));
}

#[test]
fn unknown_magic_is_unsupported() {
    let plan = loader::load(&[0u8; 128]);
    assert!(plan.segments.is_empty());
    assert_eq!(plan.outcome, Err(LoadError::UnsupportedFormat));
    let mut img = one_segment_abo();
    img[3] = b'X';
    assert_eq!(abo::load(&img).outcome, Err(LoadError::BadMagic));
}

#[test]
fn abo_errors() {
    let mut img = one_segment_abo();
    img[4] = 1;
    assert_eq!(loader::load(&img).outcome, Err(LoadError::UnsupportedVersion));

    let seg = build_segment_entry(0x40_0000, 0x1000, 96, 0, SEG_FLAG_X);
    assert_eq!(loader::load(&abo_image(0, &[seg], 0, &[])).outcome, Err(LoadError::UnsupportedFormat));
    assert_eq!(loader::load(&abo_image(FLAG_WASM, &[seg], 0, &[])).outcome, Err(LoadError::InvalidEntryPoint));
    assert_eq!(loader::load(&abo_image(FLAG_NATIVE, &[], 0, &[])).outcome, Err(LoadError::BadSegmentTable));

    let mut short_table = abo_image(FLAG_NATIVE, &[seg], 0, &[]);
    short_table.truncate(90);
    assert_eq!(loader::load(&short_table).outcome, Err(LoadError::BadSegmentTable));

    let out_of_file = build_segment_entry(0x40_0000, 0x1000, 96, 64, SEG_FLAG_X);
    assert_eq!(loader::load(&abo_image(FLAG_NATIVE, &[out_of_file], 0, &[])).outcome, Err(LoadError::SegmentOutOfFile));

    let wrapping = build_segment_entry(0x40_0000, 0x1000, u64::MAX, 1, SEG_FLAG_X);
    assert_eq!(loader::load(&abo_image(FLAG_NATIVE, &[wrapping], 0, &[])).outcome, Err(LoadError::SegmentOverflow));

    let kernel = build_segment_entry(0xFFFF_8000_0000_0000, 0x1000, 96, 0, SEG_FLAG_X);
    assert_eq!(loader::load(&abo_image(FLAG_NATIVE, &[kernel], 0, &[])).outcome, Err(LoadError::VaddrInKernelSpace));

    let huge = build_segment_entry(0x40_0000, u64::MAX, 96, 0, SEG_FLAG_X);
    assert_eq!(loader::load(&abo_image(FLAG_NATIVE, &[huge], 0, &[])).outcome, Err(LoadError::SegmentOverflow));

    let no_code = build_segment_entry(0x40_0000, 0x1000, 96, 0, SEG_FLAG_R);
    let plan = loader::load(&abo_image(FLAG_NATIVE, &[no_code], 0, &[]));
    assert_eq!(plan.segments.len(), 1);
    assert_eq!(plan.outcome, Err(LoadError::InvalidEntryPoint));

    let code = build_segment_entry(0x40_0000, 0x1000, 96, 0, SEG_FLAG_X);
    assert_eq!(
        loader::load(&abo_image(FLAG_NATIVE, &[code], 0x7FFF_0000, &[])).outcome,
        Ok((0x7FFF_0000 + 0x40_0000, 0x40_1000))
    );
}

#[test]
fn abo_entry_in_stack_area_is_refused() {
    let code = build_segment_entry(USER_STACK_BASE - 0x1000, 0x1000, 96, 0, SEG_FLAG_X);
    let plan = loader::load(&abo_image(FLAG_NATIVE, &[code], 0x1000, &[]));
    assert_eq!(plan.segments.len(), 1);
    assert_eq!(plan.outcome, Err(LoadError::InvalidEntryPoint));
}

#[test]
fn abo_manifest_out_of_file_is_refused() {
    let seg = build_segment_entry(0x40_0000, 0x1000, 96, 0, SEG_FLAG_X);
    let mut img = build_header(UUID, FLAG_NATIVE, 90, 20, 64, 1, 0).to_vec();
    img.extend_from_slice(&seg);
    assert_eq!(loader::load(&img).outcome, Err(LoadError::SegmentOutOfFile));
}

#[test]
fn abo_with_manifest_loads() {
    let manifest = b"NAME=demo\nCAP_REQ=ipc:send\n";
    let seg = build_segment_entry(0x40_0000, 0x1000, 0, 0, SEG_FLAG_X);
    let mut img = build_header(UUID, FLAG_NATIVE, 96, manifest.len() as u32, 64, 1, 8).to_vec();
    img.extend_from_slice(&seg);
    img.extend_from_slice(manifest);
    assert_eq!(loader::load(&img).outcome, Ok((0x40_0008, 0x40_1000)));
}

#[test]
fn manifest_lines() {
    let m = Manifest::new(b"NAME=x\nCAP_REQ=net\nSANDBOX=no_network\nCAP_REQ=fs\nCAP_REQ=");
    let caps = m.cap_required();
    assert_eq!(caps, vec![&b"net"[..], &b"fs"[..], &b""[..]]);
    assert!(m.has_sandbox(b"no_network"));
    assert!(!m.has_sandbox(b"no_net"));
    assert!(!m.has_sandbox(b"x"));
    assert_eq!(m.lines_with_prefix(b"NAME="), vec![&b"x"[..]]);
    assert!(Manifest::new(b"").cap_required().is_empty());
}

fn elf_image(e_type: u16, entry: u64, p_vaddr: u64, p_flags: u32) -> Vec<u8> {
    let mut img = vec![0u8; 128];
    img[0..4].copy_from_slice(b"\x7fELF");
    img[4] = 2;
    img[5] = 1;
    img[16..18].copy_from_slice(&e_type.to_le_bytes());
    img[18..20].copy_from_slice(&62u16.to_le_bytes());
    img[24..32].copy_from_slice(&entry.to_le_bytes());
    img[32..40].copy_from_slice(&64u64.to_le_bytes());
    img[54..56].copy_from_slice(&56u16.to_le_bytes());
    img[56..58].copy_from_slice(&1u16.to_le_bytes());
    let ph = 64;
    img[ph..ph + 4].copy_from_slice(&1u32.to_le_bytes());
    img[ph + 4..ph + 8].copy_from_slice(&p_flags.to_le_bytes());
    img[ph + 8..ph + 16].copy_from_slice(&120u64.to_le_bytes());
    img[ph + 16..ph + 24].copy_from_slice(&p_vaddr.to_le_bytes());
    img[ph + 32..ph + 40].copy_from_slice(&8u64.to_le_bytes());
    img[ph + 40..ph + 48].copy_from_slice(&0x1000u64.to_le_bytes());
    img
}

#[test]
fn elf_executable_plan() {
    let img = elf_image(2, 0x40_1000, 0x40_1000, 5);
    let plan = loader::load(&img);
    assert_eq!(
        plan.segments,
        vec![SegmentSpec { vaddr: 0x40_1000, mem_size: 0x1000, file_off: 120, file_size: 8, flags: PAGE_PRESENT }]
    );
    assert_eq!(plan.outcome, Ok((0x40_1000, 0x40_2000)));
}

#[test]
fn elf_shared_object_is_placed_at_code_base() {
    let img = elf_image(3, 0x10, 0x1000, 6);
    let plan = elf::load(&img);
    assert_eq!(plan.segments[0].vaddr, 0x40_1000);
    assert_eq!(plan.segments[0].flags, PAGE_PRESENT | PAGE_WRITABLE | PAGE_NO_EXECUTE);
    assert_eq!(plan.outcome, Ok((0x40_0010, 0x40_2000)));
}

#[test]
fn elf_header_errors() {
    let good = elf_image(2, 0x40_1000, 0x40_1000, 5);
    let mut img = good.clone();
    img[4] = 1;
    assert_eq!(loader::load(&img).outcome, Err(LoadError::UnsupportedArch));
    let mut img = good.clone();
    img[5] = 2;
    assert_eq!(loader::load(&img).outcome, Err(LoadError::UnsupportedFormat));
    let mut img = good.clone();
    img[16] = 1;
    assert_eq!(loader::load(&img).outcome, Err(LoadError::UnsupportedFormat));
    let mut img = good.clone();
    img[18] = 3;
    assert_eq!(loader::load(&img).outcome, Err(LoadError::UnsupportedArch));
    let mut img = good.clone();
    img[54] = 32;
    assert_eq!(loader::load(&img).outcome, Err(LoadError::BadSegmentTable));
    let mut img = good.clone();
    img[32] = 100;
    assert_eq!(loader::load(&img).outcome, Err(LoadError::BadSegmentTable));
    let mut img = good.clone();
    img.truncate(60);
    assert_eq!(elf::load(&img).outcome, Err(LoadError::TooSmall));
    let mut img = good.clone();
    img[1] = b'e';
    assert_eq!(elf::load(&img).outcome, Err(LoadError::BadMagic));
}

#[test]
fn elf_segment_errors() {
    let good = elf_image(2, 0x40_1000, 0x40_1000, 5);
    let mut none = good.clone();
    none[56] = 0;
    assert_eq!(loader::load(&none).outcome, Err(LoadError::BadSegmentTable));
    let mut not_load = good.clone();
    not_load[64] = 4;
    assert_eq!(loader::load(&not_load).outcome, Err(LoadError::BadSegmentTable));
    let kernel = elf_image(2, 0x40_1000, 0xFFFF_8000_0000_0000, 5);
    assert_eq!(loader::load(&kernel).outcome, Err(LoadError::VaddrInKernelSpace));
    let mut past_end = good.clone();
    past_end[64 + 32] = 9;
    assert_eq!(loader::load(&past_end).outcome, Err(LoadError::SegmentOutOfFile));
    let zero_entry = elf_image(2, 0, 0x40_1000, 5);
    let plan = loader::load(&zero_entry);
    assert_eq!(plan.segments.len(), 1);
    assert_eq!(plan.outcome, Err(LoadError::InvalidEntryPoint));
    let stack_entry = elf_image(2, USER_STACK_BASE, 0x40_1000, 5);
    assert_eq!(loader::load(&stack_entry).outcome, Err(LoadError::InvalidEntryPoint));
}

#[test]
fn pages_of_a_segment() {
    let seg = SegmentSpec { vaddr: 0x40_0000, mem_size: 0x2000, file_off: 96, file_size: 4, flags: PAGE_PRESENT };
    assert_eq!(
        segment_pages(&seg),
        vec![
            PageCopy { vaddr: 0x40_0000, copy_len: 4, file_offset: 0, page_offset: 0 },
            PageCopy { vaddr: 0x40_1000, copy_len: 0, file_offset: 0, page_offset: 0 },
        ]
    );
    // An unaligned segment whose data straddles a page boundary.
    let seg = SegmentSpec { vaddr: 0x40_0ff0, mem_size: 0x20, file_off: 0, file_size: 0x18, flags: PAGE_PRESENT };
    assert_eq!(
        segment_pages(&seg),
        vec![
            PageCopy { vaddr: 0x40_0000, copy_len: 0x10, file_offset: 0, page_offset: 0xff0 },
            PageCopy { vaddr: 0x40_1000, copy_len: 0x8, file_offset: 0x10, page_offset: 0 },
        ]
    );
}

#[test]
fn segment_validation() {
    assert_eq!(validate_segment(0, 0), Ok(()));
    assert_eq!(validate_segment(0x40_0000, 0x1000), Ok(()));
    assert_eq!(validate_segment(0, 1), Err(LoadError::VaddrInKernelSpace));
    assert_eq!(validate_segment(0x0000_8000_0000_0000, 1), Err(LoadError::VaddrInKernelSpace));
    assert_eq!(validate_segment(0x0000_7FFF_FFFF_F000, 0x2000), Err(LoadError::VaddrInKernelSpace));
    assert_eq!(validate_segment(0x1000, usize::MAX), Err(LoadError::SegmentOverflow));
}

#[test]
fn page_flag_combinations() {
    assert_eq!(page_flags(false, true), PAGE_PRESENT);
    assert_eq!(page_flags(true, true), PAGE_PRESENT | PAGE_WRITABLE);
    assert_eq!(page_flags(false, false), PAGE_PRESENT | PAGE_NO_EXECUTE);
    assert_eq!(page_flags(true, false), 0x8000_0000_0000_0003);
}

#[test]
fn stack_and_loaded_binary() {
    assert_eq!(stack_layout(USER_STACK_BASE, USER_STACK_SIZE), (32, USER_STACK_TOP - 16));
    assert_eq!(stack_layout(0x1000, 0x1008), (1, 0x1ff0));
    assert_eq!(
        loaded(0x40_0010, USER_STACK_TOP - 16, 0x40_2001),
        LoadedBinary { entry: 0x40_0010, stack_top: USER_STACK_TOP - 16, brk: 0x40_3000 }
    );
    assert_eq!(loaded(1, 2, 0x5000).brk, 0x5000);
    assert_eq!(loaded(1, 2, 0).brk, 0);
}

#[test]
fn finishing_a_load() {
    assert_eq!(STACK_PAGE_FLAGS, 0x8000_0000_0000_0007);
    assert_eq!(finish_load(Err(LoadError::BadMagic), true), Err(LoadError::BadMagic));
    assert_eq!(finish_load(Ok((0x40_0010, 0x40_2001)), false), Err(LoadError::StackMappingFailed));
    assert_eq!(
        finish_load(Ok((0x40_0010, 0x40_2001)), true),
        Ok(LoadedBinary { entry: 0x40_0010, stack_top: 0x7FFF_F001_FFF0, brk: 0x40_3000 })
    );
    let plan = loader::load(&one_segment_abo());
    assert_eq!(
        finish_load(plan.outcome, true),
        Ok(LoadedBinary { entry: 0x40_0010, stack_top: USER_STACK_TOP - 16, brk: 0x40_2000 })
    );
}

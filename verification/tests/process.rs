use kernel::mm::pmm::{self, MemoryRegion, MemoryRegionKind, Pmm};
use kernel::process::{self, Process, ProcessId, ProcessState, ProcessTable};

fn pmm_with(start: u64, end: u64) -> Pmm {
    let mut p = Pmm::new();
    pmm::init(&mut p, &[MemoryRegion { start, end, kind: MemoryRegionKind::Usable }]);
    p
}

#[test]
fn create_places_page_table_in_lowest_free_frame() {
    let mut p = pmm_with(0x20_0000, 0x21_0000);
    let mut t = ProcessTable::new();
    let pid = process::create(&mut t, &mut p, "init").unwrap();
    assert_eq!(pid, ProcessId(1));
    let proc = t.get(pid).unwrap();
    assert_eq!(proc.id, ProcessId(1));
    assert_eq!(proc.name, "init");
    assert_eq!(proc.state, ProcessState::Running);
    assert_eq!(proc.cr3, 0x20_0000);
    assert_eq!(pmm::free_frames(&p), 15);
    let pid2 = process::create(&mut t, &mut p, "shell").unwrap();
    assert_eq!(pid2, ProcessId(2));
    assert_eq!(t.get(pid2).unwrap().cr3, 0x20_1000);
    assert_eq!(t.get(ProcessId(1)).unwrap().name, "init");
}

#[test]
fn create_without_frames_fails_but_uses_an_id() {
    let mut p = Pmm::new();
    let mut t = ProcessTable::new();
    assert_eq!(process::create(&mut t, &mut p, "a"), None);
    assert!(t.get(ProcessId(1)).is_none());
    p.free(600);
    assert_eq!(process::create(&mut t, &mut p, "b"), Some(ProcessId(2)));
    assert_eq!(t.get(ProcessId(2)).unwrap().cr3, 600 * 4096);
}

#[test]
fn unknown_process_is_not_found() {
    let t = ProcessTable::new();
    assert!(t.get(ProcessId(0)).is_none());
    assert!(t.get(ProcessId(5)).is_none());
}

#[test]
fn process_new_takes_one_frame() {
    let mut p = pmm_with(0x30_0000, 0x30_2000);
    let proc = Process::new(ProcessId(9), "x", &mut p).unwrap();
    assert_eq!(proc.cr3, 0x30_0000);
    assert_eq!(proc.id, ProcessId(9));
    assert_eq!(pmm::free_frames(&p), 1);
    let mut empty = Pmm::new();
    assert!(Process::new(ProcessId(1), "y", &mut empty).is_none());
}

#[test]
fn table_holds_sixteen_processes() {
    let mut p = pmm_with(0x20_0000, 0x40_0000);
    let mut t = ProcessTable::new();
    for i in 1..=16u32 {
        assert_eq!(process::create(&mut t, &mut p, "p"), Some(ProcessId(i)));
    }
    for i in 1..=16u32 {
        assert_eq!(t.get(ProcessId(i)).unwrap().cr3, 0x20_0000 + (i as u64 - 1) * 0x1000);
    }
}

#[test]
fn can_create_needs_a_slot_when_frames_are_left() {
    let mut p = pmm_with(0x20_0000, 0x40_0000);
    let mut t = ProcessTable::new();
    assert!(t.can_create(&p));
    for _ in 0..16 {
        process::create(&mut t, &mut p, "p");
    }
    assert!(!t.can_create(&p));
    let empty = Pmm::new();
    assert!(t.can_create(&empty));
}

#[test]
fn exited_process_becomes_a_zombie() {
    let mut p = pmm_with(0x20_0000, 0x21_0000);
    let mut t = ProcessTable::new();
    let a = process::create(&mut t, &mut p, "a").unwrap();
    let b = process::create(&mut t, &mut p, "b").unwrap();
    process::mark_exit(&mut t, a);
    let pa = t.get(a).unwrap();
    assert_eq!(pa.state, ProcessState::Zombie);
    assert_eq!(pa.name, "a");
    assert_eq!(pa.cr3, 0x20_0000);
    assert_eq!(t.get(b).unwrap().state, ProcessState::Running);
    process::mark_exit(&mut t, ProcessId(77));
    assert!(t.get(ProcessId(77)).is_none());
}

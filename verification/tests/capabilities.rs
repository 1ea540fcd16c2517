use kernel::capabilities::{self, CapabilityId, CapabilityKind, Rights, Table};

#[test]
fn self_test() {
    let mut caps = Table::new();
    let cap = capabilities::create(&mut caps, CapabilityKind::Service { service_id: 1 }, Rights::read(), 2);
    assert!(cap.is_some());
    let id = cap.unwrap();
    assert!(capabilities::check(&caps, id, Rights::read()));
    assert!(!capabilities::check(&caps, id, Rights::write()));
    capabilities::revoke(&mut caps, id);
    assert!(!capabilities::check(&caps, id, Rights::read()));
}

#[test]
fn rights_contains_and_intersect() {
    let rw = Rights::read() | Rights::write();
    assert_eq!(rw, Rights(3));
    assert!(rw.contains(Rights::read()));
    assert!(rw.contains(Rights::none()));
    assert!(!Rights::read().contains(rw));
    assert_eq!(rw.intersect(Rights::write() | Rights::send()), Rights::write());
    assert_eq!(Rights::grant().0, 32);
    assert_eq!(Rights::revoke().0, 64);
    assert_eq!(Rights::execute().0, 4);
}

#[test]
fn ids_are_handed_out_in_order() {
    let mut caps = Table::new();
    let a = capabilities::create(&mut caps, CapabilityKind::Irq { irq_number: 3 }, Rights::read(), 0);
    let b = capabilities::create(&mut caps, CapabilityKind::Irq { irq_number: 4 }, Rights::read(), 0);
    assert_eq!(a, Some(CapabilityId(1)));
    assert_eq!(b, Some(CapabilityId(2)));
}

#[test]
fn table_holds_sixty_four_capabilities() {
    let mut caps = Table::new();
    for i in 0..64u64 {
        let r = capabilities::create(&mut caps, CapabilityKind::StorageObject { object_id: i }, Rights::read(), 0);
        assert_eq!(r, Some(CapabilityId(i + 1)));
    }
    let r = capabilities::create(&mut caps, CapabilityKind::StorageObject { object_id: 99 }, Rights::read(), 0);
    assert_eq!(r, None);
    // Revoked slots are not reused.
    assert!(capabilities::revoke(&mut caps, CapabilityId(5)));
    let r = capabilities::create(&mut caps, CapabilityKind::StorageObject { object_id: 99 }, Rights::read(), 0);
    assert_eq!(r, None);
}

#[test]
fn revoke_unknown_id_fails() {
    let mut caps = Table::new();
    assert!(!capabilities::revoke(&mut caps, CapabilityId(7)));
    assert!(!capabilities::check(&caps, CapabilityId(0), Rights::none()));
}

#[test]
fn revoke_only_touches_its_capability() {
    let mut caps = Table::new();
    let a = capabilities::create(&mut caps, CapabilityKind::Service { service_id: 1 }, Rights::read(), 0).unwrap();
    let b = capabilities::create(&mut caps, CapabilityKind::Service { service_id: 2 }, Rights::write(), 0).unwrap();
    assert!(capabilities::revoke(&mut caps, a));
    assert!(!capabilities::check(&caps, a, Rights::none()));
    assert!(capabilities::check(&caps, b, Rights::write()));
}

#[test]
fn delegate_attenuates() {
    let mut caps = Table::new();
    let parent = capabilities::create(
        &mut caps,
        CapabilityKind::PhysicalMemory { base: 0x1000, size: 0x2000 },
        Rights::read() | Rights::write() | Rights::grant(),
        2,
    )
    .unwrap();
    let child = capabilities::delegate(&mut caps, parent, Rights::read() | Rights::execute()).unwrap();
    assert!(capabilities::check(&caps, child, Rights::read()));
    assert!(!capabilities::check(&caps, child, Rights::write()));
    assert!(!capabilities::check(&caps, child, Rights::execute()));
    let e = caps.get(child).unwrap();
    assert_eq!(e.delegation_depth, 1);
    assert_eq!(e.kind, CapabilityKind::PhysicalMemory { base: 0x1000, size: 0x2000 });
    let grandchild = capabilities::delegate(&mut caps, child, Rights::read()).unwrap();
    assert_eq!(caps.get(grandchild).unwrap().delegation_depth, 0);
    assert_eq!(capabilities::delegate(&mut caps, grandchild, Rights::read()), None);
}

#[test]
fn delegate_from_revoked_fails() {
    let mut caps = Table::new();
    let parent = capabilities::create(&mut caps, CapabilityKind::GpuContext { context_id: 9 }, Rights::read(), 3).unwrap();
    capabilities::revoke(&mut caps, parent);
    assert_eq!(capabilities::delegate(&mut caps, parent, Rights::read()), None);
}

#[test]
fn entry_empty_is_unused() {
    let e = capabilities::Entry::empty();
    assert!(!e.used);
    assert!(!e.revoked);
    assert_eq!(e.id, 0);
    assert_eq!(e.rights, Rights::none());
}

#[test]
fn revoking_twice_runs_the_count_down() {
    let mut caps = Table::new();
    assert!(caps.can_revoke(CapabilityId(1)));
    let id = capabilities::create(&mut caps, CapabilityKind::Service { service_id: 1 }, Rights::read(), 0).unwrap();
    assert!(caps.can_revoke(id));
    assert!(capabilities::revoke(&mut caps, id));
    // The id stays issued; a second revoke would take the count below zero.
    assert!(!caps.can_revoke(id));
    assert!(caps.can_revoke(CapabilityId(2)));
}

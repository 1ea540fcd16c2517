use kernel::capabilities::{self, CapabilityId, CapabilityKind, Rights, Table};
use kernel::ipc::{self, EndpointId, IpcError, Message, MessageKind, Registry};

fn msg(byte: u8) -> Message {
    Message::with_data(MessageKind::Notification, 7, &[byte, byte])
}

#[test]
fn create_endpoint_issues_send_and_receive_caps() {
    let mut reg = Registry::new();
    let mut caps = Table::new();
    let (ep, s, r) = ipc::create_endpoint(&mut reg, &mut caps).unwrap();
    assert_eq!(ep, EndpointId(1));
    assert_eq!(s, CapabilityId(1));
    assert_eq!(r, CapabilityId(2));
    assert!(capabilities::check(&caps, s, Rights::send()));
    assert!(!capabilities::check(&caps, s, Rights::receive()));
    assert!(capabilities::check(&caps, r, Rights::receive()));
    assert_eq!(caps.get(s).unwrap().delegation_depth, 4);
    assert_eq!(caps.get(r).unwrap().kind, CapabilityKind::IpcEndpoint { endpoint_id: 1 });
}

#[test]
fn send_then_recv_in_order() {
    let mut reg = Registry::new();
    let mut caps = Table::new();
    let (ep, s, r) = ipc::create_endpoint_for(&mut reg, &mut caps, 42).unwrap();
    assert_eq!(ipc::send(&mut reg, &caps, s, ep, msg(1)), Ok(()));
    assert_eq!(ipc::send(&mut reg, &caps, s, ep, msg(2)), Ok(()));
    let a = ipc::recv(&mut reg, &caps, r, ep).ok().unwrap();
    let b = ipc::recv(&mut reg, &caps, r, ep).ok().unwrap();
    assert_eq!(a.data[0], 1);
    assert_eq!(b.data[0], 2);
    assert!(matches!(ipc::recv(&mut reg, &caps, r, ep), Err(IpcError::WouldBlock)));
}

#[test]
fn wrong_capability_is_denied() {
    let mut reg = Registry::new();
    let mut caps = Table::new();
    let (ep, s, r) = ipc::create_endpoint(&mut reg, &mut caps).unwrap();
    assert_eq!(ipc::send(&mut reg, &caps, r, ep, msg(1)), Err(IpcError::PermissionDenied));
    assert!(matches!(ipc::recv(&mut reg, &caps, s, ep), Err(IpcError::PermissionDenied)));
    assert!(matches!(ipc::recv_unchecked(&mut reg, ep), Err(IpcError::WouldBlock)));
}

#[test]
fn queue_holds_sixteen_messages() {
    let mut reg = Registry::new();
    let mut caps = Table::new();
    let (ep, _, _) = ipc::create_endpoint(&mut reg, &mut caps).unwrap();
    for i in 0..16u8 {
        assert_eq!(ipc::send_unchecked(&mut reg, ep, msg(i)), Ok(()));
    }
    assert_eq!(ipc::send_unchecked(&mut reg, ep, msg(99)), Err(IpcError::QueueFull));
    for i in 0..16u8 {
        assert_eq!(ipc::recv_unchecked(&mut reg, ep).ok().unwrap().data[0], i);
    }
    // The ring wraps round.
    assert_eq!(ipc::send_unchecked(&mut reg, ep, msg(100)), Ok(()));
    assert_eq!(ipc::recv_unchecked(&mut reg, ep).ok().unwrap().data[0], 100);
}

#[test]
fn unknown_endpoint_is_invalid() {
    let mut reg = Registry::new();
    assert_eq!(ipc::send_unchecked(&mut reg, EndpointId(3), msg(1)), Err(IpcError::InvalidEndpoint));
    assert!(matches!(ipc::recv_unchecked(&mut reg, EndpointId(0)), Err(IpcError::InvalidEndpoint)));
}

#[test]
fn destroy_needs_revoke_right() {
    let mut reg = Registry::new();
    let mut caps = Table::new();
    let (ep, s, _) = ipc::create_endpoint(&mut reg, &mut caps).unwrap();
    assert_eq!(ipc::destroy(&mut reg, &mut caps, s, ep), Err(IpcError::PermissionDenied));
    let admin = capabilities::create(&mut caps, CapabilityKind::IpcEndpoint { endpoint_id: ep.0 }, Rights::revoke(), 0).unwrap();
    assert_eq!(ipc::destroy(&mut reg, &mut caps, admin, ep), Ok(()));
    assert!(!capabilities::check(&caps, admin, Rights::revoke()));
    assert_eq!(ipc::send(&mut reg, &caps, s, ep, msg(1)), Err(IpcError::InvalidEndpoint));
    // The slot is free again and ids keep growing.
    let (ep2, _, _) = ipc::create_endpoint(&mut reg, &mut caps).unwrap();
    assert_eq!(ep2, EndpointId(2));
}

#[test]
fn sixteen_endpoints_at_most() {
    let mut reg = Registry::new();
    for i in 0..16u64 {
        assert_eq!(reg.create(i), Some(EndpointId(i + 1)));
    }
    assert_eq!(reg.create(0), None);
}

#[test]
fn endpoint_fails_when_capabilities_run_out() {
    let mut reg = Registry::new();
    let mut caps = Table::new();
    for _ in 0..63 {
        capabilities::create(&mut caps, CapabilityKind::Service { service_id: 0 }, Rights::read(), 0);
    }
    // The endpoint is opened and its send capability issued, but no room is
    // left for the receive capability.
    assert!(ipc::create_endpoint(&mut reg, &mut caps).is_none());
    assert_eq!(ipc::send_unchecked(&mut reg, EndpointId(1), msg(1)), Ok(()));
    assert!(capabilities::check(&caps, CapabilityId(64), Rights::send()));
}

#[test]
fn message_with_data_truncates_to_48_bytes() {
    let src: Vec<u8> = (0..60u8).collect();
    let m = Message::with_data(MessageKind::Request, 5, &src);
    assert_eq!(m.data_len, 48);
    assert_eq!(m.data[47], 47);
    assert_eq!(m.sender, 5);
    let short = Message::with_data(MessageKind::Reply, 0, &[9, 8, 7]);
    assert_eq!(short.data_len, 3);
    assert_eq!(&short.data[..4], &[9, 8, 7, 0]);
    let e = Message::empty(MessageKind::Error, 1);
    assert_eq!(e.data_len, 0);
    assert!(e.data.iter().all(|&b| b == 0));
}

#[test]
fn fresh_registry_can_open_endpoints() {
    let mut reg = Registry::new();
    assert!(reg.can_create());
    for i in 0..16u64 {
        reg.create(i);
    }
    assert!(reg.can_create());
}

use kernel::capabilities::{self, CapabilityKind, Rights, Table};
use kernel::ipc::{self, EndpointId, MessageKind, Registry};
use kernel::process::ProcessId;
use kernel::scheduler::current::{self, CurrentMap};
use kernel::scheduler::task::{PriorityClass, TaskId};
use kernel::scheduler::{self, Sched, MAX_TASKS};
use kernel::syscall::{
    self, decode, sys_cap_revoke, sys_endpoint_create, sys_ipc_recv, sys_ipc_send, sys_ipc_send_payload, sys_log,
    sys_yield, Syscall, EAGAIN, EFAULT, ENOMEM, ENOSYS, LOG_MAX, SEND_DATA_LEN,
};

#[test]
fn decode_maps_numbers_to_calls() {
    assert_eq!(decode(0, 0x1000, 5, 9, 9), Syscall::Log { ptr: 0x1000, len: 5 });
    assert_eq!(decode(1, 1, 2, 3, 4), Syscall::Yield);
    assert_eq!(decode(2, 42, 0, 0, 0), Syscall::Exit { code: 42 });
    assert_eq!(decode(3, 1, 2, 3, 4), Syscall::IpcSend { cap: 1, endpoint: 2, data_ptr: 3 });
    assert_eq!(
        decode(4, 1, 2, 3, 4),
        Syscall::IpcRecv { buf_ptr: 1, endpoint: 2, buf_len: 3, out_len_ptr: 4 }
    );
    assert_eq!(decode(5, 0, 0, 0, 0), Syscall::Unknown);
    assert_eq!(decode(6, 7, 0, 0, 0), Syscall::CapRevoke { cap: 7 });
    assert_eq!(decode(7, 0, 0, 0, 0), Syscall::Unknown);
    assert_eq!(decode(8, 3, 0, 0, 0), Syscall::EndpointCreate { flags: 3 });
    assert_eq!(decode(99, 0, 0, 0, 0), Syscall::Unknown);
    assert_eq!(syscall::SYS_ENDPOINT_CREATE, 8);
}

#[test]
fn log_caps_length_and_checks_pointer() {
    assert_eq!(sys_log(0x1000, 10), Ok(10));
    assert_eq!(sys_log(0x1000, 10_000), Ok(LOG_MAX as usize));
    assert_eq!(sys_log(0, 10), Err(EFAULT));
    assert_eq!(sys_log(0xFFFF_8000_0000_0000, 10), Err(EFAULT));
    assert_eq!(sys_log(0x0000_7FFF_FFFF_FFF0, 32), Err(EFAULT));
    assert_eq!(sys_yield(), 0);
}

#[test]
fn send_payload_length() {
    assert_eq!(sys_ipc_send_payload(0), Ok(0));
    assert_eq!(sys_ipc_send_payload(0x2000), Ok(SEND_DATA_LEN));
    assert_eq!(sys_ipc_send_payload(0x0000_7FFF_FFFF_FFF0), Err(EFAULT));
}

fn running_user_task(sched: &mut Sched, map: &mut CurrentMap) {
    let stacks = vec![0x9000u64; MAX_TASKS];
    scheduler::spawn(sched, "user", PriorityClass::Interactive, 0x40_0000, &stacks);
    scheduler::start(sched);
    current::associate(map, TaskId(1), ProcessId(3));
}

#[test]
fn send_and_receive_through_system_calls() {
    let mut reg = Registry::new();
    let mut caps = Table::new();
    let mut sched = Sched::new();
    let mut map = CurrentMap::new();
    running_user_task(&mut sched, &mut map);
    let ep = sys_endpoint_create(&mut reg, &mut caps, 0);
    assert_eq!(ep, 1);
    // Capability 1 sends, capability 2 receives.
    assert_eq!(sys_ipc_send(&mut reg, &caps, &sched, &map, 2, 1, &[1, 2, 3]), ENOSYS);
    assert_eq!(sys_ipc_send(&mut reg, &caps, &sched, &map, 1, 1, &[1, 2, 3]), 0);
    assert_eq!(sys_ipc_send(&mut reg, &caps, &sched, &map, 1, 5, &[1]), EAGAIN);

    let act = sys_ipc_recv(&mut reg, 0x3000, 1, 2, 0x4000);
    assert_eq!(act.code, 0);
    let m = act.message.unwrap();
    assert_eq!(m.kind, MessageKind::Request);
    assert_eq!(m.sender, 3);
    assert_eq!(m.data_len, 3);
    assert_eq!(&m.data[..4], &[1, 2, 3, 0]);
    assert_eq!(act.copy_len, 2);
    assert!(act.write_len);

    let empty = sys_ipc_recv(&mut reg, 0x3000, 1, 16, 0);
    assert_eq!(empty.code, EAGAIN);
    assert!(empty.message.is_none());
}

#[test]
fn receive_checks_buffer_first() {
    let mut reg = Registry::new();
    let mut caps = Table::new();
    let (ep, _, _) = ipc::create_endpoint(&mut reg, &mut caps).unwrap();
    ipc::send_unchecked(&mut reg, ep, kernel::ipc::Message::with_data(MessageKind::Reply, 0, &[5; 10])).unwrap();
    let bad = sys_ipc_recv(&mut reg, 0, ep.0, 8, 0);
    assert_eq!(bad.code, EFAULT);
    assert!(bad.message.is_none());
    // The message is still queued; a zero-length buffer is not checked.
    let act = sys_ipc_recv(&mut reg, 0, ep.0, 0, 0);
    assert_eq!(act.code, 0);
    assert_eq!(act.copy_len, 0);
    assert!(!act.write_len);
    assert_eq!(sys_ipc_recv(&mut reg, 0x3000, EndpointId(9).0, 8, 0).code, EAGAIN);
}

#[test]
fn sender_is_zero_without_a_process() {
    let mut reg = Registry::new();
    let mut caps = Table::new();
    let sched = Sched::new();
    let map = CurrentMap::new();
    sys_endpoint_create(&mut reg, &mut caps, 0);
    assert_eq!(sys_ipc_send(&mut reg, &caps, &sched, &map, 1, 1, &[]), 0);
    let m = ipc::recv_unchecked(&mut reg, EndpointId(1)).ok().unwrap();
    assert_eq!(m.sender, 0);
    assert_eq!(m.data_len, 0);
}

#[test]
fn exit_reports_the_running_process() {
    let mut sched = Sched::new();
    let mut map = CurrentMap::new();
    assert_eq!(syscall::sys_exit(&sched, &map, 0), None);
    running_user_task(&mut sched, &mut map);
    assert_eq!(syscall::sys_exit(&sched, &map, 7), Some(ProcessId(3)));
}

#[test]
fn revoke_call_codes() {
    let mut caps = Table::new();
    let id = capabilities::create(&mut caps, CapabilityKind::Service { service_id: 1 }, Rights::read(), 0).unwrap();
    assert_eq!(sys_cap_revoke(&mut caps, 99), ENOSYS);
    assert_eq!(sys_cap_revoke(&mut caps, id.0), 0);
    assert!(!capabilities::check(&caps, id, Rights::read()));
}

#[test]
fn endpoint_create_runs_out() {
    let mut reg = Registry::new();
    let mut caps = Table::new();
    for i in 1..=16i64 {
        assert_eq!(sys_endpoint_create(&mut reg, &mut caps, 0), i);
    }
    assert_eq!(sys_endpoint_create(&mut reg, &mut caps, 0), ENOMEM);
}

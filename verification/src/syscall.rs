//! The system-call layer: decoding a call and what each handler decides.
//! Reading and writing user memory is left to the caller, which hands the
//! handlers the bytes it read and carries out the copies they ask for.
use vstd::prelude::*;
use crate::capabilities::{self, CapabilityId, Table, TableView};
use crate::ipc::{self, spec_create_endpoint, EndpointId, IpcError, Message, MessageKind, Registry, RegistryView};
use crate::mm::user_ptr::{range_check, validate_user_read, validate_user_write};
use crate::process::ProcessId;
use crate::scheduler::Sched;
use crate::scheduler::current::{current_process, CurrentMap};

verus! {

pub const SYS_LOG: u64 = 0;

pub const SYS_YIELD: u64 = 1;

pub const SYS_EXIT: u64 = 2;

pub const SYS_IPC_SEND: u64 = 3;

pub const SYS_IPC_RECV: u64 = 4;

pub const SYS_CAP_CREATE: u64 = 5;

pub const SYS_CAP_REVOKE: u64 = 6;

pub const SYS_MEM_MAP: u64 = 7;

pub const SYS_ENDPOINT_CREATE: u64 = 8;

/// Error code: bad user address.
pub const EFAULT: i64 = -14;

/// Error code: try again (queue full, empty, or endpoint unknown).
pub const EAGAIN: i64 = -11;

/// Error code: out of memory (no endpoint or capability slot left).
pub const ENOMEM: i64 = -12;

/// Error code: no such system call, or not permitted.
pub const ENOSYS: i64 = -1;

/// A decoded system call with its arguments.
#[derive(Debug, Clone, Copy, PartialEq, Eq, Structural)]
pub enum Syscall {
    Log { ptr: u64, len: u64 },
    Yield,
    Exit { code: u64 },
    IpcSend { cap: u64, endpoint: u64, data_ptr: u64 },
    IpcRecv { buf_ptr: u64, endpoint: u64, buf_len: u64, out_len_ptr: u64 },
    CapRevoke { cap: u64 },
    EndpointCreate { flags: u64 },
    Unknown,
}

/// Which handler call number `nr` reaches; capability creation and memory
/// mapping have numbers but no handler yet.
pub open spec fn spec_decode(nr: u64, a1: u64, a2: u64, a3: u64, a4: u64) -> Syscall {
    if nr == SYS_LOG {
        Syscall::Log { ptr: a1, len: a2 }
    } else if nr == SYS_YIELD {
        Syscall::Yield
    } else if nr == SYS_EXIT {
        Syscall::Exit { code: a1 }
    } else if nr == SYS_IPC_SEND {
        Syscall::IpcSend { cap: a1, endpoint: a2, data_ptr: a3 }
    } else if nr == SYS_IPC_RECV {
        Syscall::IpcRecv { buf_ptr: a1, endpoint: a2, buf_len: a3, out_len_ptr: a4 }
    } else if nr == SYS_CAP_REVOKE {
        Syscall::CapRevoke { cap: a1 }
    } else if nr == SYS_ENDPOINT_CREATE {
        Syscall::EndpointCreate { flags: a1 }
    } else {
        Syscall::Unknown
    }
}

/// Decodes a call from its number and first four arguments.
pub fn decode(nr: u64, a1: u64, a2: u64, a3: u64, a4: u64) -> (r: Syscall)
    ensures
        r == spec_decode(nr, a1, a2, a3, a4),
{
    match nr {
        SYS_LOG => Syscall::Log { ptr: a1, len: a2 },
        SYS_YIELD => Syscall::Yield,
        SYS_EXIT => Syscall::Exit { code: a1 },
        SYS_IPC_SEND => Syscall::IpcSend { cap: a1, endpoint: a2, data_ptr: a3 },
        SYS_IPC_RECV => Syscall::IpcRecv { buf_ptr: a1, endpoint: a2, buf_len: a3, out_len_ptr: a4 },
        SYS_CAP_REVOKE => Syscall::CapRevoke { cap: a1 },
        SYS_ENDPOINT_CREATE => Syscall::EndpointCreate { flags: a1 },
        _ => Syscall::Unknown,
    }
}

/// Bytes a log call writes at most.
pub const LOG_MAX: u64 = 256;

/// The log call: how many bytes at `ptr` to write out (and to return), or
/// the error code when they are not user memory.
pub fn sys_log(ptr: u64, len: u64) -> (r: Result<usize, i64>)
    ensures
        ({
            let n = if len < LOG_MAX {
                len
            } else {
                LOG_MAX
            };
            match r {
                Ok(k) => k == n && range_check(ptr, n as usize) is Ok,
                Err(code) => code == EFAULT && range_check(ptr, n as usize) is Err,
            }
        }),
{
    let n: u64 = if len < LOG_MAX {
        len
    } else {
        LOG_MAX
    };
    match validate_user_read(ptr, n as usize) {
        Ok(()) => Ok(n as usize),
        Err(_) => Err(EFAULT),
    }
}

/// The yield call; it does not reschedule yet.
pub fn sys_yield() -> (r: i64)
    ensures
        r == 0,
{
    0
}

/// The exit call: the process of the running task, which the caller marks
/// exited before halting.
pub fn sys_exit(sched: &Sched, map: &CurrentMap, code: u64) -> (r: Option<ProcessId>)
    requires
        sched@.wf(),
        map@.wf(),
    ensures
        r == match sched@.current_task_id() {
            Some(t) => map@.get_process(t),
            None => None,
        },
{
    current_process(sched, map)
}

/// Bytes of message payload a send call reads.
pub const SEND_DATA_LEN: usize = 48;

/// First step of the send call: how many payload bytes to read at
/// `data_ptr` (none for a null pointer), or the error code when they are
/// not user memory.
pub fn sys_ipc_send_payload(data_ptr: u64) -> (r: Result<usize, i64>)
    ensures
        data_ptr == 0 ==> r == Ok::<usize, i64>(0),
        data_ptr != 0 ==> match r {
            Ok(n) => n == SEND_DATA_LEN && range_check(data_ptr, SEND_DATA_LEN) is Ok,
            Err(code) => code == EFAULT && range_check(data_ptr, SEND_DATA_LEN) is Err,
        },
{
    if data_ptr == 0 {
        return Ok(0);
    }
    match validate_user_read(data_ptr, SEND_DATA_LEN) {
        Ok(()) => Ok(SEND_DATA_LEN),
        Err(_) => Err(EFAULT),
    }
}

/// The message a send call builds from the payload it read.
pub open spec fn send_message(sender: u64, data: Seq<u8>, m: Message) -> bool {
    &&& m.kind == MessageKind::Request
    &&& m.sender == sender
    &&& m.data_len == if data.len() < 48 {
        data.len()
    } else {
        48
    }
    &&& m.data@ == Seq::new(
        48,
        |i: int|
            if i < m.data_len {
                data[i]
            } else {
                0u8
            },
    )
}

/// The request a send call builds.
pub open spec fn request_from(sender: u64, data: Seq<u8>) -> Message {
    choose|m: Message| send_message(sender, data, m)
}

proof fn lemma_request_from(sender: u64, data: Seq<u8>, m: Message)
    requires
        send_message(sender, data, m),
    ensures
        request_from(sender, data) == m,
{
    let c = request_from(sender, data);
    assert(send_message(sender, data, c));
    assert(c.data@ =~= m.data@);
    broadcast use vstd::array::axiom_array_ext_equal;
    assert(c.data == m.data);
}

/// The process of the running task as a sender id, 0 when there is none.
pub open spec fn sender_of(sched: crate::scheduler::SchedView, map: crate::scheduler::current::CurrentMapView) -> u64 {
    match sched.current_task_id() {
        Some(t) => match map.get_process(t) {
            Some(p) => p.0 as u64,
            None => 0,
        },
        None => 0,
    }
}

/// The send call, once the payload is read: sends a request from the
/// process of the running task (0 if none) and returns 0, -1 when the
/// capability does not grant sending, or `EAGAIN` when the endpoint is
/// unknown or full.
pub fn sys_ipc_send(
    registry: &mut Registry,
    caps: &Table,
    sched: &Sched,
    map: &CurrentMap,
    cap_id: u64,
    endpoint_id: u64,
    data: &[u8],
) -> (r: i64)
    requires
        old(registry).wf(),
        caps@.wf(),
        sched@.wf(),
        map@.wf(),
    ensures
        final(registry).wf(),
        final(registry)@.wf(),
        !caps@.permits(cap_id, capabilities::Rights::spec_send()) ==> r == ENOSYS
            && final(registry)@ == old(registry)@,
        send_message(sender_of(sched@, map@), data@, request_from(sender_of(sched@, map@), data@)),
        caps@.permits(cap_id, capabilities::Rights::spec_send()) ==> {
            let m = request_from(sender_of(sched@, map@), data@);
            &&& final(registry)@ == old(registry)@.send(endpoint_id, m).0
            &&& r == match old(registry)@.send(endpoint_id, m).1 {
                Ok(_) => 0i64,
                Err(_) => EAGAIN,
            }
        },
{
    let sender: u64 = match current_process(sched, map) {
        Some(p) => p.0 as u64,
        None => 0,
    };
    let msg = Message::with_data(MessageKind::Request, sender, data);
    assert(send_message(sender_of(sched@, map@), data@, msg));
    let r = match ipc::send(registry, caps, CapabilityId(cap_id), EndpointId(endpoint_id), msg) {
        Ok(()) => 0,
        Err(IpcError::PermissionDenied) => ENOSYS,
        Err(_) => EAGAIN,
    };
    proof {
        lemma_request_from(sender_of(sched@, map@), data@, msg);
    }
    r
}

/// What a receive call asks its caller to do: return `code`, and, when a
/// message arrived, copy `copy_len` bytes of its payload to the user
/// buffer and, if `write_len`, store `copy_len` as a `u32` at the out
/// pointer.
pub struct RecvAction {
    pub code: i64,
    pub message: Option<Message>,
    pub copy_len: usize,
    pub write_len: bool,
}

/// The receive call: checks the user buffer (at most 48 bytes of it), then
/// takes a message from the endpoint without checking any capability.
pub fn sys_ipc_recv(registry: &mut Registry, buf_ptr: u64, endpoint_id: u64, buf_len: u64, out_len_ptr: u64) -> (r:
    RecvAction)
    requires
        old(registry).wf(),
    ensures
        final(registry).wf(),
        final(registry)@.wf(),
        ({
            let checked = if buf_len < 48 {
                buf_len
            } else {
                48
            };
            if buf_len > 0 && range_check(buf_ptr, checked as usize) is Err {
                r.code == EFAULT && r.message is None && final(registry)@ == old(registry)@
            } else {
                match old(registry)@.recv(endpoint_id).1 {
                    Ok(m) => {
                        &&& final(registry)@ == old(registry)@.recv(endpoint_id).0
                        &&& r.code == 0
                        &&& r.message == Some(m)
                        &&& r.copy_len == if (m.data_len as u64) < buf_len {
                            m.data_len as u64
                        } else {
                            buf_len
                        }
                        &&& r.write_len == (out_len_ptr != 0 && range_check(out_len_ptr, 4) is Ok)
                    },
                    Err(_) => r.code == EAGAIN && r.message is None && final(registry)@ == old(
                        registry,
                    )@,
                }
            }
        }),
{
    proof {
        registry.lemma_view_wf();
    }
    if buf_len > 0 {
        let checked: u64 = if buf_len < 48 {
            buf_len
        } else {
            48
        };
        if validate_user_write(buf_ptr, checked as usize).is_err() {
            return RecvAction { code: EFAULT, message: None, copy_len: 0, write_len: false };
        }
    }
    match ipc::recv_unchecked(registry, EndpointId(endpoint_id)) {
        Ok(msg) => {
            let copy_len: u64 = if (msg.data_len as u64) < buf_len {
                msg.data_len as u64
            } else {
                buf_len
            };
            let write_len = out_len_ptr != 0 && validate_user_write(out_len_ptr, 4).is_ok();
            RecvAction { code: 0, message: Some(msg), copy_len: copy_len as usize, write_len }
        },
        Err(_) => RecvAction { code: EAGAIN, message: None, copy_len: 0, write_len: false },
    }
}

/// The revoke call: 0 when the capability was issued, -1 otherwise.
pub fn sys_cap_revoke(caps: &mut Table, cap_id: u64) -> (r: i64)
    requires
        old(caps)@.wf(),
        old(caps)@.issued(cap_id) ==> old(caps)@.count > 0,
    ensures
        final(caps)@.wf(),
        final(caps)@ == old(caps)@.revoke(cap_id).0,
        r == if old(caps)@.issued(cap_id) {
            0i64
        } else {
            ENOSYS
        },
{
    if capabilities::revoke(caps, CapabilityId(cap_id)) {
        0
    } else {
        ENOSYS
    }
}

/// The endpoint-creation call: the new endpoint's id, or `ENOMEM`.
pub fn sys_endpoint_create(registry: &mut Registry, caps: &mut Table, flags: u64) -> (r: i64)
    requires
        old(registry).wf(),
        old(caps)@.wf(),
        old(registry)@.has_free() ==> old(registry)@.next_id < u64::MAX,
    ensures
        final(registry).wf(),
        final(registry)@.wf(),
        final(caps)@.wf(),
        ({
            let (reg2, caps2, out) = spec_create_endpoint(old(registry)@, old(caps)@, 0);
            &&& final(registry)@ == reg2
            &&& final(caps)@ == caps2
            &&& r == match out {
                Some((ep, _, _)) => ep.0 as i64,
                None => ENOMEM,
            }
        }),
{
    match ipc::create_endpoint(registry, caps) {
        Some((ep, _send, _recv)) => ep.0 as i64,
        None => ENOMEM,
    }
}

/// The sender a send call stamps on its message is the process recorded for
/// the running task: the task in the scheduler's current slot, once it has
/// started, looked up at the first map entry with its id. With no running
/// task, or no entry for it, the sender is 0.
pub proof fn lemma_sender_is_running_process(
    sched: crate::scheduler::SchedView,
    map: crate::scheduler::current::CurrentMapView,
)
    requires
        sched.wf(),
        map.wf(),
    ensures
        ({
            let running = sched.started && sched.tasks[sched.current as int] is Some;
            let tid = sched.tasks[sched.current as int].unwrap().id.0;
            &&& running && (exists|k: int| 0 <= k < 32 && #[trigger] map.entries[k].0 == tid) ==> exists|k: int|
                0 <= k < 32 && #[trigger] map.entries[k].0 == tid && (forall|j: int|
                    0 <= j < k ==> map.entries[j].0 != tid) && sender_of(sched, map) == map.entries[k].1 as u64
            &&& !(running && (exists|k: int| 0 <= k < 32 && #[trigger] map.entries[k].0 == tid))
                ==> sender_of(sched, map) == 0
        }),
{
    let tid = sched.tasks[sched.current as int].unwrap().id.0;
    if sched.started && sched.tasks[sched.current as int] is Some && map.has(tid) {
        crate::scheduler::current::lemma_first(map, tid);
        assert(map.entries[map.first(tid)].0 == tid);
    }
}

} // verus!

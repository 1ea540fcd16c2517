//! Message-passing IPC: bounded FIFO queues behind endpoint ids, guarded by
//! capabilities.
use vstd::prelude::*;
use crate::capabilities::{self, CapabilityId, CapabilityKind, Rights, Table, TableView};

verus! {

/// Messages a queue holds at most.
pub const QUEUE_DEPTH: usize = 16;

/// Endpoints a registry holds at most.
pub const MAX_ENDPOINTS: usize = 16;

/// Payload bytes a message carries at most.
pub const MESSAGE_DATA: usize = 48;

#[derive(Debug, Clone, Copy, PartialEq, Eq, Structural)]
pub struct EndpointId(pub u64);

#[derive(Debug, Clone, Copy, PartialEq, Eq, Structural)]
pub enum MessageKind {
    Request,
    Reply,
    Notification,
    Error,
}

#[derive(Clone, Copy)]
pub struct Message {
    pub kind: MessageKind,
    pub sender: u64,
    pub data: [u8; 48],
    pub data_len: u8,
}

impl Message {
    pub fn empty(kind: MessageKind, sender: u64) -> (m: Message)
        ensures
            m.kind == kind,
            m.sender == sender,
            m.data_len == 0,
            m.data@ == Seq::new(48, |i: int| 0u8),
    {
        let m = Message { kind, sender, data: [0u8; 48], data_len: 0 };
        assert(m.data@ =~= Seq::new(48, |i: int| 0u8));
        m
    }

    /// A message whose payload is the first (at most 48) bytes of `src`,
    /// zero-filled after them.
    pub fn with_data(kind: MessageKind, sender: u64, src: &[u8]) -> (m: Message)
        ensures
            m.kind == kind,
            m.sender == sender,
            m.data_len == if src@.len() < 48 {
                src@.len()
            } else {
                48
            },
            m.data@ == Seq::new(
                48,
                |i: int|
                    if i < m.data_len {
                        src@[i]
                    } else {
                        0u8
                    },
            ),
    {
        let mut m = Message::empty(kind, sender);
        let n: usize = if src.len() < 48 {
            src.len()
        } else {
            48
        };
        let mut i: usize = 0;
        while i < n
            invariant
                n <= 48,
                n <= src@.len(),
                0 <= i <= n,
                m.kind == kind,
                m.sender == sender,
                m.data@.len() == 48,
                forall|j: int|
                    0 <= j < 48 ==> #[trigger] m.data@[j] == if j < i {
                        src@[j]
                    } else {
                        0u8
                    },
            decreases n - i,
        {
            m.data[i] = src[i];
            i = i + 1;
        }
        m.data_len = n as u8;
        assert(m.data@ =~= Seq::new(
            48,
            |j: int|
                if j < m.data_len {
                    src@[j]
                } else {
                    0u8
                },
        ));
        m
    }
}

/// The model of one endpoint slot: whether it is in use, its id and owner,
/// and the messages waiting in it, oldest first.
#[verifier::ext_equal]
pub struct QueueView {
    pub id: u64,
    pub used: bool,
    pub owner: u64,
    pub msgs: Seq<Message>,
}

impl QueueView {
    pub open spec fn empty() -> QueueView {
        QueueView { id: 0, used: false, owner: 0, msgs: Seq::empty() }
    }

    /// Appends `msg`, unless the queue already holds `QUEUE_DEPTH` messages.
    pub open spec fn push(self, msg: Message) -> (QueueView, bool) {
        if self.msgs.len() >= QUEUE_DEPTH {
            (self, false)
        } else {
            (QueueView { msgs: self.msgs.push(msg), ..self }, true)
        }
    }

    /// Takes the oldest message, if any.
    pub open spec fn pop(self) -> (QueueView, Option<Message>) {
        if self.msgs.len() == 0 {
            (self, None)
        } else {
            (QueueView { msgs: self.msgs.drop_first(), ..self }, Some(self.msgs[0]))
        }
    }
}

/// A ring buffer of messages.
#[derive(Clone, Copy)]
pub struct Queue {
    id: u64,
    used: bool,
    msgs: [Message; 16],
    head: usize,
    tail: usize,
    count: usize,
    owner: u64,
}

impl View for Queue {
    type V = QueueView;

    closed spec fn view(&self) -> QueueView {
        QueueView {
            id: self.id,
            used: self.used,
            owner: self.owner,
            msgs: Seq::new(self.count as nat, |k: int| self.msgs@[(self.head + k) % 16]),
        }
    }
}

impl Queue {
    pub closed spec fn wf(&self) -> bool {
        &&& self.head < QUEUE_DEPTH
        &&& self.tail < QUEUE_DEPTH
        &&& self.count <= QUEUE_DEPTH
        &&& self.tail == (self.head + self.count) % 16
    }

    /// A well-formed queue holds at most `QUEUE_DEPTH` messages.
    pub proof fn lemma_bounded(&self)
        requires
            self.wf(),
        ensures
            self@.msgs.len() <= QUEUE_DEPTH,
    {
    }

    pub fn empty() -> (q: Queue)
        ensures
            q.wf(),
            q@ == QueueView::empty(),
    {
        let m = Message::empty(MessageKind::Request, 0);
        let q = Queue {
            id: 0,
            used: false,
            msgs: [m, m, m, m, m, m, m, m, m, m, m, m, m, m, m, m],
            head: 0,
            tail: 0,
            count: 0,
            owner: 0,
        };
        assert(q@.msgs =~= Seq::<Message>::empty());
        q
    }

    pub fn push(&mut self, msg: Message) -> (r: bool)
        requires
            old(self).wf(),
        ensures
            final(self).wf(),
            final(self)@.msgs.len() <= QUEUE_DEPTH,
            (final(self)@, r) == old(self)@.push(msg),
    {
        if self.count >= QUEUE_DEPTH {
            return false;
        }
        let ghost v = self@;
        self.msgs[self.tail] = msg;
        self.tail = (self.tail + 1) % QUEUE_DEPTH;
        self.count = self.count + 1;
        assert(self@.msgs =~= v.msgs.push(msg)) by {
            assert forall|k: int| 0 <= k < self.count implies #[trigger] self@.msgs[k] == v.msgs.push(
                msg,
            )[k] by {
                if k < self.count - 1 {
                    assert((self.head + k) % 16 != (self.head + self.count - 1) % 16);
                }
            }
        }
        assert(self@ =~= v.push(msg).0);
        true
    }

    pub fn pop(&mut self) -> (r: Option<Message>)
        requires
            old(self).wf(),
        ensures
            final(self).wf(),
            final(self)@.msgs.len() <= QUEUE_DEPTH,
            (final(self)@, r) == old(self)@.pop(),
    {
        if self.count == 0 {
            return None;
        }
        let ghost v = self@;
        let msg = self.msgs[self.head];
        self.head = (self.head + 1) % QUEUE_DEPTH;
        self.count = self.count - 1;
        assert(self@.msgs =~= v.msgs.drop_first()) by {
            assert forall|k: int| 0 <= k < self.count implies #[trigger] self@.msgs[k]
                == v.msgs.drop_first()[k] by {
                assert(((old(self).head + 1) % 16 + k) % 16 == (old(self).head + (k + 1)) % 16);
            }
        }
        assert(self@ =~= v.pop().0);
        Some(msg)
    }
}

#[derive(Debug, Clone, Copy, PartialEq, Eq, Structural)]
pub enum IpcError {
    PermissionDenied,
    InvalidEndpoint,
    QueueFull,
    WouldBlock,
}

/// The model of the endpoint registry: its slots and the next id to hand out.
#[verifier::ext_equal]
pub struct RegistryView {
    pub slots: Seq<QueueView>,
    pub next_id: u64,
}

impl RegistryView {
    /// Unused slots are blank; used slots carry distinct ids, all below
    /// `next_id`, and at most `QUEUE_DEPTH` messages.
    pub open spec fn wf(self) -> bool {
        &&& self.slots.len() == MAX_ENDPOINTS
        &&& self.next_id >= 1
        &&& forall|i: int|
            0 <= i < MAX_ENDPOINTS && !(#[trigger] self.slots[i]).used ==> self.slots[i]
                == QueueView::empty()
        &&& forall|i: int|
            0 <= i < MAX_ENDPOINTS && (#[trigger] self.slots[i]).used ==> 1 <= self.slots[i].id
                < self.next_id && self.slots[i].msgs.len() <= QUEUE_DEPTH
        &&& forall|i: int, j: int|
            0 <= i < MAX_ENDPOINTS && 0 <= j < MAX_ENDPOINTS && i != j && (#[trigger] self.slots[i]).used
                && (#[trigger] self.slots[j]).used ==> self.slots[i].id != self.slots[j].id
    }

    /// Slot `i` is the endpoint `id`.
    pub open spec fn holds(self, i: int, id: u64) -> bool {
        0 <= i < MAX_ENDPOINTS && self.slots[i].used && self.slots[i].id == id
    }

    /// Some slot is the endpoint `id`.
    pub open spec fn has(self, id: u64) -> bool {
        exists|i: int| self.holds(i, id)
    }

    /// The slot of endpoint `id`.
    pub open spec fn slot(self, id: u64) -> int {
        choose|i: int| self.holds(i, id)
    }

    /// The messages waiting at endpoint `id`.
    pub open spec fn queue(self, id: u64) -> Seq<Message> {
        self.slots[self.slot(id)].msgs
    }

    pub open spec fn has_free(self) -> bool {
        exists|i: int| 0 <= i < MAX_ENDPOINTS && !self.slots[i].used
    }

    /// The lowest unused slot.
    pub open spec fn first_free(self) -> int {
        choose|i: int|
            0 <= i < MAX_ENDPOINTS && !self.slots[i].used && forall|j: int|
                0 <= j < i ==> (#[trigger] self.slots[j]).used
    }

    /// Opens an endpoint owned by `owner` in the lowest free slot.
    pub open spec fn create(self, owner: u64) -> (RegistryView, Option<EndpointId>) {
        if self.has_free() {
            let q = QueueView { id: self.next_id, used: true, owner, msgs: Seq::empty() };
            (
                RegistryView {
                    slots: self.slots.update(self.first_free(), q),
                    next_id: (self.next_id + 1) as u64,
                },
                Some(EndpointId(self.next_id)),
            )
        } else {
            (self, None)
        }
    }

    /// Queues `msg` at endpoint `id`.
    pub open spec fn send(self, id: u64, msg: Message) -> (RegistryView, Result<(), IpcError>) {
        if !self.has(id) {
            (self, Err(IpcError::InvalidEndpoint))
        } else {
            let (q, ok) = self.slots[self.slot(id)].push(msg);
            if ok {
                (RegistryView { slots: self.slots.update(self.slot(id), q), ..self }, Ok(()))
            } else {
                (self, Err(IpcError::QueueFull))
            }
        }
    }

    /// Takes the oldest message waiting at endpoint `id`.
    pub open spec fn recv(self, id: u64) -> (RegistryView, Result<Message, IpcError>) {
        if !self.has(id) {
            (self, Err(IpcError::InvalidEndpoint))
        } else {
            let (q, m) = self.slots[self.slot(id)].pop();
            match m {
                Some(m) => (
                    RegistryView { slots: self.slots.update(self.slot(id), q), ..self },
                    Ok(m),
                ),
                None => (self, Err(IpcError::WouldBlock)),
            }
        }
    }

    /// Closes endpoint `id`, dropping its messages; nothing happens for an
    /// unknown id.
    pub open spec fn destroy(self, id: u64) -> RegistryView {
        if self.has(id) {
            RegistryView { slots: self.slots.update(self.slot(id), QueueView::empty()), ..self }
        } else {
            self
        }
    }
}

/// The table of endpoints.
pub struct Registry {
    queues: Vec<Queue>,
    next_id: u64,
}

impl View for Registry {
    type V = RegistryView;

    closed spec fn view(&self) -> RegistryView {
        RegistryView { slots: self.queues@.map_values(|q: Queue| q@), next_id: self.next_id }
    }
}

proof fn lemma_slot_unique(r: RegistryView, i: int, id: u64)
    requires
        r.wf(),
        r.holds(i, id),
    ensures
        r.has(id),
        r.slot(id) == i,
{
    assert(r.holds(r.slot(id), id));
}

proof fn lemma_min_free_from(r: RegistryView, i: int, w: int)
    requires
        r.slots.len() == MAX_ENDPOINTS,
        0 <= i <= w < MAX_ENDPOINTS,
        !r.slots[w].used,
        forall|j: int| 0 <= j < i ==> (#[trigger] r.slots[j]).used,
    ensures
        exists|k: int|
            0 <= k < MAX_ENDPOINTS && !r.slots[k].used && forall|j: int|
                0 <= j < k ==> (#[trigger] r.slots[j]).used,
    decreases w - i,
{
    if !r.slots[i].used {
        assert(0 <= i < MAX_ENDPOINTS && !r.slots[i].used && forall|j: int|
            0 <= j < i ==> (#[trigger] r.slots[j]).used);
    } else {
        lemma_min_free_from(r, i + 1, w);
    }
}

/// When some slot is free, `first_free` is the lowest one.
proof fn lemma_first_free(r: RegistryView)
    requires
        r.slots.len() == MAX_ENDPOINTS,
        r.has_free(),
    ensures
        0 <= r.first_free() < MAX_ENDPOINTS,
        !r.slots[r.first_free()].used,
        forall|j: int| 0 <= j < r.first_free() ==> (#[trigger] r.slots[j]).used,
{
    let w = choose|i: int| 0 <= i < MAX_ENDPOINTS && !r.slots[i].used;
    lemma_min_free_from(r, 0, w);
}

impl Registry {
    pub closed spec fn wf(&self) -> bool {
        &&& self@.wf()
        &&& self.queues.len() == MAX_ENDPOINTS
        &&& forall|i: int| 0 <= i < MAX_ENDPOINTS ==> (#[trigger] self.queues@[i]).wf()
    }

    pub fn new() -> (r: Registry)
        ensures
            r.wf(),
            r@.wf(),
            r@.next_id == 1,
            forall|i: int| 0 <= i < MAX_ENDPOINTS ==> #[trigger] r@.slots[i] == QueueView::empty(),
    {
        let mut queues: Vec<Queue> = Vec::new();
        while queues.len() < MAX_ENDPOINTS
            invariant
                queues.len() <= MAX_ENDPOINTS,
                forall|i: int|
                    0 <= i < queues.len() ==> (#[trigger] queues@[i]).wf() && queues@[i]@
                        == QueueView::empty(),
            decreases MAX_ENDPOINTS - queues.len(),
        {
            queues.push(Queue::empty());
        }
        let r = Registry { queues, next_id: 1 };
        r
    }

    /// A well-formed registry has a well-formed view.
    pub proof fn lemma_view_wf(&self)
        requires
            self.wf(),
        ensures
            self@.wf(),
    {
    }

    /// The slot holding endpoint `id`, if any.
    fn position(&self, id: EndpointId) -> (r: Option<usize>)
        requires
            self.wf(),
        ensures
            match r {
                Some(i) => self@.has(id.0) && self@.slot(id.0) == i,
                None => !self@.has(id.0),
            },
    {
        let mut i: usize = 0;
        while i < self.queues.len()
            invariant
                self.wf(),
                0 <= i <= MAX_ENDPOINTS,
                forall|j: int| 0 <= j < i ==> !self@.holds(j, id.0),
            decreases MAX_ENDPOINTS - i,
        {
            if self.queues[i].used && self.queues[i].id == id.0 {
                proof {
                    assert(self@.holds(i as int, id.0));
                    lemma_slot_unique(self@, i as int, id.0);
                }
                return Some(i);
            }
            proof {
                assert(!self@.holds(i as int, id.0));
            }
            i = i + 1;
        }
        None
    }

    /// Whether `create` may be called: opening an endpoint draws an id,
    /// which must not wrap.
    pub fn can_create(&self) -> (r: bool)
        requires
            self.wf(),
        ensures
            r == (self@.has_free() ==> self@.next_id < u64::MAX),
    {
        if self.next_id < u64::MAX {
            return true;
        }
        let mut i: usize = 0;
        while i < self.queues.len()
            invariant
                self.wf(),
                self@.next_id == u64::MAX,
                0 <= i <= MAX_ENDPOINTS,
                forall|j: int| 0 <= j < i ==> (#[trigger] self@.slots[j]).used,
            decreases MAX_ENDPOINTS - i,
        {
            if !self.queues[i].used {
                assert(!self@.slots[i as int].used);
                return false;
            }
            i = i + 1;
        }
        true
    }

    pub fn create(&mut self, owner: u64) -> (r: Option<EndpointId>)
        requires
            old(self).wf(),
            old(self)@.has_free() ==> old(self)@.next_id < u64::MAX,
        ensures
            final(self).wf(),
            final(self)@.wf(),
            (final(self)@, r) == old(self)@.create(owner),
    {
        let ghost v = self@;
        let mut i: usize = 0;
        while i < self.queues.len()
            invariant
                self@ == v,
                old(self)@ == v,
                self.wf(),
                v.has_free() ==> v.next_id < u64::MAX,
                0 <= i <= MAX_ENDPOINTS,
                forall|j: int| 0 <= j < i ==> (#[trigger] v.slots[j]).used,
            decreases MAX_ENDPOINTS - i,
        {
            if !self.queues[i].used {
                assert(v.has_free()) by {
                    assert(!v.slots[i as int].used);
                }
                assert(v.first_free() == i) by {
                    let k = v.first_free();
                    if k < i {
                        assert(v.slots[k].used);
                    }
                    if k > i {
                        assert(!v.slots[i as int].used);
                    }
                }
                let mut q = self.queues[i];
                q.id = self.next_id;
                q.used = true;
                q.owner = owner;
                self.queues.set(i, q);
                self.next_id = self.next_id + 1;
                assert(self@ =~= v.create(owner).0) by {
                    assert(self@.slots =~= v.create(owner).0.slots);
                }
                return Some(EndpointId(q.id));
            }
            i = i + 1;
        }
        assert(!v.has_free());
        None
    }

    pub fn destroy(&mut self, id: EndpointId)
        requires
            old(self).wf(),
        ensures
            final(self).wf(),
            final(self)@.wf(),
            final(self)@ == old(self)@.destroy(id.0),
    {
        match self.position(id) {
            Some(i) => {
                let ghost v = self@;
                self.queues.set(i, Queue::empty());
                assert(self@ =~= v.destroy(id.0)) by {
                    assert(self@.slots =~= v.destroy(id.0).slots);
                }
            },
            None => {},
        }
    }

    /// Queues `msg` at endpoint `id`.
    pub fn push_to(&mut self, id: EndpointId, msg: Message) -> (r: Result<(), IpcError>)
        requires
            old(self).wf(),
        ensures
            final(self).wf(),
            final(self)@.wf(),
            (final(self)@, r) == old(self)@.send(id.0, msg),
    {
        match self.position(id) {
            None => Err(IpcError::InvalidEndpoint),
            Some(i) => {
                let ghost v = self@;
                let mut q = self.queues[i];
                if q.push(msg) {
                    self.queues.set(i, q);
                    assert(self@ =~= v.send(id.0, msg).0) by {
                        assert(self@.slots =~= v.send(id.0, msg).0.slots);
                    }
                    Ok(())
                } else {
                    Err(IpcError::QueueFull)
                }
            },
        }
    }

    /// Takes the oldest message waiting at endpoint `id`.
    pub fn pop_from(&mut self, id: EndpointId) -> (r: Result<Message, IpcError>)
        requires
            old(self).wf(),
        ensures
            final(self).wf(),
            final(self)@.wf(),
            (final(self)@, r) == old(self)@.recv(id.0),
    {
        match self.position(id) {
            None => Err(IpcError::InvalidEndpoint),
            Some(i) => {
                let ghost v = self@;
                let mut q = self.queues[i];
                match q.pop() {
                    Some(m) => {
                        self.queues.set(i, q);
                        assert(self@ =~= v.recv(id.0).0) by {
                            assert(self@.slots =~= v.recv(id.0).0.slots);
                        }
                        Ok(m)
                    },
                    None => Err(IpcError::WouldBlock),
                }
            },
        }
    }
}

/// Result of opening an endpoint for `owner` with a send capability
/// (delegable four levels) and a receive capability (not delegable). A
/// capability that cannot be issued makes the whole call fail, but what was
/// already done stays done.
pub open spec fn spec_create_endpoint(reg: RegistryView, caps: TableView, owner: u64) -> (
    RegistryView,
    TableView,
    Option<(EndpointId, CapabilityId, CapabilityId)>,
) {
    let (reg2, e) = reg.create(owner);
    match e {
        None => (reg, caps, None),
        Some(ep) => {
            let kind = CapabilityKind::IpcEndpoint { endpoint_id: ep.0 };
            let (caps1, s) = caps.insert(kind, Rights::spec_send(), 4);
            match s {
                None => (reg2, caps1, None),
                Some(send_cap) => {
                    let (caps2, r) = caps1.insert(kind, Rights::spec_receive(), 0);
                    match r {
                        None => (reg2, caps2, None),
                        Some(recv_cap) => (reg2, caps2, Some((ep, send_cap, recv_cap))),
                    }
                },
            }
        },
    }
}

/// Opens an endpoint owned by no one (owner 0).
pub fn create_endpoint(registry: &mut Registry, caps: &mut Table) -> (r: Option<
    (EndpointId, CapabilityId, CapabilityId),
>)
    requires
        old(registry).wf(),
        old(caps)@.wf(),
        old(registry)@.has_free() ==> old(registry)@.next_id < u64::MAX,
    ensures
        final(registry).wf(),
        final(registry)@.wf(),
        final(caps)@.wf(),
        (final(registry)@, final(caps)@, r) == spec_create_endpoint(old(registry)@, old(caps)@, 0),
{
    create_endpoint_for(registry, caps, 0)
}

/// Opens an endpoint owned by `owner`, with a send and a receive capability.
pub fn create_endpoint_for(registry: &mut Registry, caps: &mut Table, owner: u64) -> (r: Option<
    (EndpointId, CapabilityId, CapabilityId),
>)
    requires
        old(registry).wf(),
        old(caps)@.wf(),
        old(registry)@.has_free() ==> old(registry)@.next_id < u64::MAX,
    ensures
        final(registry).wf(),
        final(registry)@.wf(),
        final(caps)@.wf(),
        (final(registry)@, final(caps)@, r) == spec_create_endpoint(
            old(registry)@,
            old(caps)@,
            owner,
        ),
{
    let id = match registry.create(owner) {
        Some(id) => id,
        None => {
            return None;
        },
    };
    let send_cap = match capabilities::create(
        caps,
        CapabilityKind::IpcEndpoint { endpoint_id: id.0 },
        Rights::send(),
        4,
    ) {
        Some(c) => c,
        None => {
            return None;
        },
    };
    let recv_cap = match capabilities::create(
        caps,
        CapabilityKind::IpcEndpoint { endpoint_id: id.0 },
        Rights::receive(),
        0,
    ) {
        Some(c) => c,
        None => {
            return None;
        },
    };
    Some((id, send_cap, recv_cap))
}

/// Queues `msg` at `endpoint` if `cap` grants the right to send.
pub fn send(registry: &mut Registry, caps: &Table, cap: CapabilityId, endpoint: EndpointId, msg: Message) -> (r:
    Result<(), IpcError>)
    requires
        old(registry).wf(),
        caps@.wf(),
    ensures
        final(registry).wf(),
        final(registry)@.wf(),
        if caps@.permits(cap.0, Rights::spec_send()) {
            (final(registry)@, r) == old(registry)@.send(endpoint.0, msg)
        } else {
            r == Err::<(), IpcError>(IpcError::PermissionDenied) && final(registry)@ == old(
                registry,
            )@
        },
{
    if !capabilities::check(caps, cap, Rights::send()) {
        return Err(IpcError::PermissionDenied);
    }
    registry.push_to(endpoint, msg)
}

/// Takes the oldest message at `endpoint` if `cap` grants the right to
/// receive.
pub fn recv(registry: &mut Registry, caps: &Table, cap: CapabilityId, endpoint: EndpointId) -> (r:
    Result<Message, IpcError>)
    requires
        old(registry).wf(),
        caps@.wf(),
    ensures
        final(registry).wf(),
        final(registry)@.wf(),
        if caps@.permits(cap.0, Rights::spec_receive()) {
            (final(registry)@, r) == old(registry)@.recv(endpoint.0)
        } else {
            r == Err::<Message, IpcError>(IpcError::PermissionDenied) && final(registry)@ == old(
                registry,
            )@
        },
{
    if !capabilities::check(caps, cap, Rights::receive()) {
        return Err(IpcError::PermissionDenied);
    }
    registry.pop_from(endpoint)
}

/// Closes `endpoint` and revokes `cap`, if `cap` grants the right to revoke.
pub fn destroy(registry: &mut Registry, caps: &mut Table, cap: CapabilityId, endpoint: EndpointId) -> (r:
    Result<(), IpcError>)
    requires
        old(registry).wf(),
        old(caps)@.wf(),
        old(caps)@.permits(cap.0, Rights::spec_revoke()) ==> old(caps)@.count > 0,
    ensures
        final(registry).wf(),
        final(registry)@.wf(),
        final(caps)@.wf(),
        if old(caps)@.permits(cap.0, Rights::spec_revoke()) {
            &&& r == Ok::<(), IpcError>(())
            &&& final(registry)@ == old(registry)@.destroy(endpoint.0)
            &&& final(caps)@ == old(caps)@.revoke(cap.0).0
        } else {
            &&& r == Err::<(), IpcError>(IpcError::PermissionDenied)
            &&& final(registry)@ == old(registry)@
            &&& final(caps)@ == old(caps)@
        },
{
    if !capabilities::check(caps, cap, Rights::revoke()) {
        return Err(IpcError::PermissionDenied);
    }
    registry.destroy(endpoint);
    capabilities::revoke(caps, cap);
    Ok(())
}

/// Queues `msg` at `endpoint` without checking any capability.
pub fn send_unchecked(registry: &mut Registry, endpoint: EndpointId, msg: Message) -> (r: Result<
    (),
    IpcError,
>)
    requires
        old(registry).wf(),
    ensures
        final(registry).wf(),
        final(registry)@.wf(),
        (final(registry)@, r) == old(registry)@.send(endpoint.0, msg),
{
    registry.push_to(endpoint, msg)
}

/// Takes the oldest message at `endpoint` without checking any capability.
pub fn recv_unchecked(registry: &mut Registry, endpoint: EndpointId) -> (r: Result<
    Message,
    IpcError,
>)
    requires
        old(registry).wf(),
    ensures
        final(registry).wf(),
        final(registry)@.wf(),
        (final(registry)@, r) == old(registry)@.recv(endpoint.0),
{
    registry.pop_from(endpoint)
}

/// Messages leave an endpoint in the order they arrived: a message sent to
/// an empty endpoint is the next one received there, and sending behind
/// waiting messages does not change which one is received next. Sending
/// touches no other endpoint.
pub proof fn lemma_send_then_recv(r: RegistryView, id: u64, msg: Message, other: u64)
    requires
        r.wf(),
        r.send(id, msg).1 is Ok,
    ensures
        r.send(id, msg).0.wf(),
        r.send(id, msg).0.has(id),
        r.send(id, msg).0.queue(id) == r.queue(id).push(msg),
        r.send(id, msg).0.recv(id).1 == if r.queue(id).len() == 0 {
            Ok::<Message, IpcError>(msg)
        } else {
            Ok::<Message, IpcError>(r.queue(id)[0])
        },
        other != id ==> (r.send(id, msg).0.has(other) == r.has(other)),
        other != id && r.has(other) ==> r.send(id, msg).0.queue(other) == r.queue(other),
{
    let i = r.slot(id);
    let r2 = r.send(id, msg).0;
    assert(r.holds(i, id));
    assert(r2.holds(i, id));
    assert(r2.wf());
    lemma_slot_unique(r2, i, id);
    if other != id && r.has(other) {
        let j = r.slot(other);
        assert(r.holds(j, other));
        assert(r2.holds(j, other));
        lemma_slot_unique(r2, j, other);
    }
    if other != id && r2.has(other) {
        let j = r2.slot(other);
        assert(r2.holds(j, other));
        assert(r.holds(j, other));
    }
}

/// An endpoint refuses a message exactly when it already holds
/// `QUEUE_DEPTH` of them, and receiving from an empty endpoint would block.
pub proof fn lemma_queue_bounds(r: RegistryView, id: u64, msg: Message)
    requires
        r.wf(),
        r.has(id),
    ensures
        (r.send(id, msg).1 == Err::<(), IpcError>(IpcError::QueueFull)) <==> r.queue(id).len()
            == QUEUE_DEPTH,
        (r.recv(id).1 == Err::<Message, IpcError>(IpcError::WouldBlock)) <==> r.queue(id).len()
            == 0,
{
    let i = r.slot(id);
    assert(r.holds(i, id));
}

/// After an endpoint is destroyed nothing can be sent to or received from
/// it, and every other endpoint is as it was.
pub proof fn lemma_destroy_closes(r: RegistryView, id: u64, msg: Message, other: u64)
    requires
        r.wf(),
    ensures
        r.destroy(id).wf(),
        !r.destroy(id).has(id),
        r.destroy(id).send(id, msg).1 == Err::<(), IpcError>(IpcError::InvalidEndpoint),
        r.destroy(id).recv(id).1 == Err::<Message, IpcError>(IpcError::InvalidEndpoint),
        other != id ==> r.destroy(id).has(other) == r.has(other),
        other != id && r.has(other) ==> r.destroy(id).queue(other) == r.queue(other),
{
    let r2 = r.destroy(id);
    if r.has(id) {
        let i = r.slot(id);
        assert(r.holds(i, id));
        if r2.has(id) {
            let k = r2.slot(id);
            assert(r2.holds(k, id));
            assert(r.holds(k, id));
        }
    }
    if other != id && r.has(other) {
        let j = r.slot(other);
        assert(r.holds(j, other));
        assert(r2.holds(j, other));
        lemma_slot_unique(r2, j, other);
    }
    if other != id && r2.has(other) {
        let j = r2.slot(other);
        assert(r2.holds(j, other));
        assert(r.holds(j, other));
    }
}

/// A newly opened endpoint is fresh and empty, its send capability grants
/// sending but not receiving, and its receive capability grants receiving
/// but not sending.
pub proof fn lemma_create_endpoint_caps(reg: RegistryView, caps: TableView, owner: u64)
    requires
        reg.wf(),
        caps.wf(),
        reg.next_id < u64::MAX,
        spec_create_endpoint(reg, caps, owner).2 is Some,
    ensures
        ({
            let (reg2, caps2, r) = spec_create_endpoint(reg, caps, owner);
            let (ep, s, rc) = r.unwrap();
            &&& !reg.has(ep.0)
            &&& reg2.has(ep.0)
            &&& reg2.queue(ep.0).len() == 0
            &&& caps2.permits(s.0, Rights::spec_send())
            &&& !caps2.permits(s.0, Rights::spec_receive())
            &&& caps2.permits(rc.0, Rights::spec_receive())
            &&& !caps2.permits(rc.0, Rights::spec_send())
            &&& caps2.lookup(s.0).unwrap().kind == CapabilityKind::IpcEndpoint { endpoint_id: ep.0 }
            &&& caps2.lookup(rc.0).unwrap().kind == CapabilityKind::IpcEndpoint {
                endpoint_id: ep.0,
            }
        }),
{
    let (reg2, e) = reg.create(owner);
    let ep = e.unwrap();
    let i = reg.first_free();
    assert(reg.has_free());
    lemma_first_free(reg);
    assert(reg2.wf());
    assert(0 <= i < MAX_ENDPOINTS && !reg.slots[i].used);
    assert(reg2.holds(i, ep.0));
    lemma_slot_unique(reg2, i, ep.0);
    if reg.has(ep.0) {
        assert(reg.holds(reg.slot(ep.0), ep.0));
    }
    assert(8u32 & 16u32 != 16u32) by (bit_vector);
    assert(16u32 & 8u32 != 8u32) by (bit_vector);
    assert(8u32 & 8u32 == 8u32) by (bit_vector);
    assert(16u32 & 16u32 == 16u32) by (bit_vector);
    let kind = CapabilityKind::IpcEndpoint { endpoint_id: ep.0 };
    let (caps1, sc) = caps.insert(kind, Rights::spec_send(), 4);
    let (caps2, rc) = caps1.insert(kind, Rights::spec_receive(), 0);
    capabilities::lemma_insert_wf(caps, kind, Rights::spec_send(), 4);
    capabilities::lemma_insert_wf(caps1, kind, Rights::spec_receive(), 0);
    assert(!reg.has(ep.0));
    assert(reg2.has(ep.0));
    assert(reg2.queue(ep.0).len() == 0);
    assert(caps2.permits(sc.unwrap().0, Rights::spec_send()));
    assert(caps2.permits(rc.unwrap().0, Rights::spec_receive()));
}

} // verus!

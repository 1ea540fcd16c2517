//! Capabilities: unforgeable ids naming a kernel object together with the
//! rights the holder has over it.
use vstd::prelude::*;
use vstd::set_lib::{lemma_int_range, lemma_len_subset, set_int_range};

verus! {

/// Number of slots of a capability table.
pub const MAX_CAPS: usize = 64;

#[derive(Debug, Clone, Copy, PartialEq, Eq, Structural)]
pub struct CapabilityId(pub u64);

/// A set of rights, one bit each.
#[derive(Debug, Clone, Copy, PartialEq, Eq, Structural)]
pub struct Rights(pub u32);

impl Rights {
    pub open spec fn spec_none() -> Rights {
        Rights(0)
    }

    #[verifier::when_used_as_spec(spec_none)]
    pub fn none() -> (r: Rights)
        ensures
            r == Rights::spec_none(),
    {
        Rights(0)
    }

    pub open spec fn spec_read() -> Rights {
        Rights(1)
    }

    #[verifier::when_used_as_spec(spec_read)]
    pub fn read() -> (r: Rights)
        ensures
            r == Rights::spec_read(),
    {
        Rights(1)
    }

    pub open spec fn spec_write() -> Rights {
        Rights(2)
    }

    #[verifier::when_used_as_spec(spec_write)]
    pub fn write() -> (r: Rights)
        ensures
            r == Rights::spec_write(),
    {
        Rights(2)
    }

    pub open spec fn spec_execute() -> Rights {
        Rights(4)
    }

    #[verifier::when_used_as_spec(spec_execute)]
    pub fn execute() -> (r: Rights)
        ensures
            r == Rights::spec_execute(),
    {
        Rights(4)
    }

    pub open spec fn spec_send() -> Rights {
        Rights(8)
    }

    #[verifier::when_used_as_spec(spec_send)]
    pub fn send() -> (r: Rights)
        ensures
            r == Rights::spec_send(),
    {
        Rights(8)
    }

    pub open spec fn spec_receive() -> Rights {
        Rights(16)
    }

    #[verifier::when_used_as_spec(spec_receive)]
    pub fn receive() -> (r: Rights)
        ensures
            r == Rights::spec_receive(),
    {
        Rights(16)
    }

    pub open spec fn spec_grant() -> Rights {
        Rights(32)
    }

    #[verifier::when_used_as_spec(spec_grant)]
    pub fn grant() -> (r: Rights)
        ensures
            r == Rights::spec_grant(),
    {
        Rights(32)
    }

    pub open spec fn spec_revoke() -> Rights {
        Rights(64)
    }

    #[verifier::when_used_as_spec(spec_revoke)]
    pub fn revoke() -> (r: Rights)
        ensures
            r == Rights::spec_revoke(),
    {
        Rights(64)
    }

    /// Every right of `other` is among those of `self`.
    pub open spec fn includes(self, other: Rights) -> bool {
        self.0 & other.0 == other.0
    }

    pub fn contains(self, other: Rights) -> (r: bool)
        ensures
            r == self.includes(other),
    {
        (self.0 & other.0) == other.0
    }

    pub fn intersect(self, other: Rights) -> (r: Rights)
        ensures
            r.0 == self.0 & other.0,
    {
        Rights(self.0 & other.0)
    }
}

impl core::ops::BitOr for Rights {
    type Output = Self;

    fn bitor(self, rhs: Self) -> (r: Self) {
        Rights(self.0 | rhs.0)
    }
}

impl vstd::std_specs::ops::BitOrSpecImpl for Rights {
    open spec fn obeys_bitor_spec() -> bool {
        true
    }

    open spec fn bitor_req(self, rhs: Rights) -> bool {
        true
    }

    open spec fn bitor_spec(self, rhs: Rights) -> Rights {
        Rights(self.0 | rhs.0)
    }
}

#[derive(Debug, Clone, Copy, PartialEq, Eq, Structural)]
pub enum CapabilityKind {
    PhysicalMemory { base: u64, size: u64 },
    IpcEndpoint { endpoint_id: u64 },
    StorageObject { object_id: u64 },
    GpuContext { context_id: u32 },
    Service { service_id: u32 },
    Irq { irq_number: u8 },
}

/// One slot of a capability table.
#[derive(Clone, Copy)]
pub struct Entry {
    pub id: u64,
    pub kind: CapabilityKind,
    pub rights: Rights,
    pub delegation_depth: u8,
    pub revoked: bool,
    pub used: bool,
}

impl Entry {
    pub open spec fn spec_empty() -> Entry {
        Entry {
            id: 0,
            kind: CapabilityKind::Service { service_id: 0 },
            rights: Rights(0),
            delegation_depth: 0,
            revoked: false,
            used: false,
        }
    }

    pub fn empty() -> (e: Entry)
        ensures
            e == Entry::spec_empty(),
    {
        Entry {
            id: 0,
            kind: CapabilityKind::Service { service_id: 0 },
            rights: Rights::none(),
            delegation_depth: 0,
            revoked: false,
            used: false,
        }
    }
}

/// The mathematical model of a capability table.
#[verifier::ext_equal]
pub struct TableView {
    pub entries: Seq<Entry>,
    pub next_id: u64,
    pub count: usize,
}

impl TableView {
    /// Slots are handed out in order and never given back: slot `i` is used
    /// exactly when `i + 1` has been issued, and then holds id `i + 1`. The
    /// count never exceeds the number of live capabilities (revoking an id
    /// that is already revoked lowers it again).
    pub open spec fn wf(self) -> bool {
        &&& self.entries.len() == MAX_CAPS
        &&& 1 <= self.next_id <= MAX_CAPS + 1
        &&& self.count <= MAX_CAPS
        &&& self.count <= self.live().len()
        &&& forall|i: int|
            0 <= i < MAX_CAPS ==> (#[trigger] self.entries[i]).used == (i < self.next_id - 1)
        &&& forall|i: int|
            0 <= i < MAX_CAPS && (#[trigger] self.entries[i]).used ==> self.entries[i].id == i + 1
    }

    /// The slots of capabilities issued and not revoked.
    pub open spec fn live(self) -> Set<int> {
        Set::new(|i: int| 0 <= i < MAX_CAPS && self.entries[i].used && !self.entries[i].revoked)
    }

    /// The id has been handed out (it may have been revoked since).
    pub open spec fn issued(self, id: u64) -> bool {
        1 <= id < self.next_id
    }

    /// The entry of a capability that was issued and not revoked.
    pub open spec fn lookup(self, id: u64) -> Option<Entry> {
        if self.issued(id) && !self.entries[id - 1].revoked {
            Some(self.entries[id - 1])
        } else {
            None
        }
    }

    /// The capability is live and carries every right of `required`.
    pub open spec fn permits(self, id: u64, required: Rights) -> bool {
        match self.lookup(id) {
            Some(e) => e.rights.includes(required),
            None => false,
        }
    }

    /// Result of issuing a new capability.
    pub open spec fn insert(self, kind: CapabilityKind, rights: Rights, depth: u8) -> (
        TableView,
        Option<CapabilityId>,
    ) {
        if self.count >= MAX_CAPS || self.next_id > MAX_CAPS {
            (self, None)
        } else {
            let e = Entry {
                id: self.next_id,
                kind,
                rights,
                delegation_depth: depth,
                revoked: false,
                used: true,
            };
            (
                TableView {
                    entries: self.entries.update(self.next_id - 1, e),
                    next_id: (self.next_id + 1) as u64,
                    count: (self.count + 1) as usize,
                },
                Some(CapabilityId(self.next_id)),
            )
        }
    }

    /// Result of revoking `id`: any issued id is marked revoked (again, if it
    /// already was) and the count drops by one.
    pub open spec fn revoke(self, id: u64) -> (TableView, bool) {
        if self.issued(id) {
            let e = self.entries[id - 1];
            (
                TableView {
                    entries: self.entries.update(id - 1, Entry { revoked: true, ..e }),
                    next_id: self.next_id,
                    count: (self.count - 1) as usize,
                },
                true,
            )
        } else {
            (self, false)
        }
    }

    /// Result of delegating `parent` with at most the rights `reduced`.
    pub open spec fn delegate(self, parent: u64, reduced: Rights) -> (TableView, Option<CapabilityId>) {
        match self.lookup(parent) {
            None => (self, None),
            Some(e) => if e.delegation_depth == 0 {
                (self, None)
            } else {
                self.insert(
                    e.kind,
                    Rights(e.rights.0 & reduced.0),
                    (e.delegation_depth - 1) as u8,
                )
            },
        }
    }
}

/// A table of capabilities.
pub struct Table {
    entries: Vec<Entry>,
    next_id: u64,
    count: usize,
}

impl View for Table {
    type V = TableView;

    closed spec fn view(&self) -> TableView {
        TableView { entries: self.entries@, next_id: self.next_id, count: self.count }
    }
}

impl Table {
    pub fn new() -> (t: Table)
        ensures
            t@.wf(),
            t@.next_id == 1,
            t@.count == 0,
            forall|id: u64| !(#[trigger] t@.issued(id)),
    {
        let mut entries: Vec<Entry> = Vec::new();
        while entries.len() < MAX_CAPS
            invariant
                entries.len() <= MAX_CAPS,
                forall|i: int| 0 <= i < entries.len() ==> #[trigger] entries@[i] == Entry::spec_empty(),
            decreases MAX_CAPS - entries.len(),
        {
            entries.push(Entry::empty());
        }
        Table { entries, next_id: 1, count: 0 }
    }

    pub fn insert(&mut self, kind: CapabilityKind, rights: Rights, depth: u8) -> (r: Option<
        CapabilityId,
    >)
        requires
            old(self)@.wf(),
        ensures
            (final(self)@, r) == old(self)@.insert(kind, rights, depth),
            final(self)@.wf(),
    {
        if self.count >= MAX_CAPS {
            return None;
        }
        let ghost v = self@;
        let mut i: usize = 0;
        while i < self.entries.len()
            invariant
                self@ == v,
                old(self)@ == v,
                v.wf(),
                v.count < MAX_CAPS,
                0 <= i <= MAX_CAPS,
                forall|j: int| 0 <= j < i ==> (#[trigger] v.entries[j]).used,
            decreases MAX_CAPS - i,
        {
            if !self.entries[i].used {
                assert(i == v.next_id - 1) by {
                    if i > v.next_id - 1 {
                        assert(v.entries[v.next_id - 1].used);
                    }
                }
                let e = Entry {
                    id: self.next_id,
                    kind,
                    rights,
                    delegation_depth: depth,
                    revoked: false,
                    used: true,
                };
                self.entries.set(i, e);
                self.next_id = self.next_id + 1;
                self.count = self.count + 1;
                assert(self@ =~= v.insert(kind, rights, depth).0);
                assert(v.insert(kind, rights, depth).1 == Some(CapabilityId(e.id)));
                proof {
                    lemma_insert_wf(v, kind, rights, depth);
                }
                return Some(CapabilityId(e.id));
            }
            i = i + 1;
        }
        assert(v.next_id > MAX_CAPS) by {
            if v.next_id <= MAX_CAPS {
                assert(!v.entries[v.next_id - 1].used);
            }
        }
        None
    }

    pub fn get(&self, id: CapabilityId) -> (r: Option<&Entry>)
        requires
            self@.wf(),
        ensures
            match r {
                Some(e) => self@.lookup(id.0) == Some(*e),
                None => self@.lookup(id.0).is_none(),
            },
    {
        let mut i: usize = 0;
        while i < self.entries.len()
            invariant
                self@.wf(),
                0 <= i <= MAX_CAPS,
                forall|j: int|
                    0 <= j < i ==> !((#[trigger] self@.entries[j]).used && !self@.entries[j].revoked
                        && self@.entries[j].id == id.0),
            decreases MAX_CAPS - i,
        {
            let e = &self.entries[i];
            if e.used && !e.revoked && e.id == id.0 {
                return Some(e);
            }
            i = i + 1;
        }
        proof {
            if self@.lookup(id.0).is_some() {
                assert(self@.entries[id.0 - 1].used);
            }
        }
        None
    }

    /// Whether `revoke(id)` may be called: revoking an issued id takes one
    /// off the count, which must not go below zero.
    pub fn can_revoke(&self, id: CapabilityId) -> (r: bool)
        requires
            self@.wf(),
        ensures
            r == (self@.issued(id.0) ==> self@.count > 0),
    {
        !(1 <= id.0 && id.0 < self.next_id) || self.count > 0
    }

    pub fn revoke(&mut self, id: CapabilityId) -> (r: bool)
        requires
            old(self)@.wf(),
            old(self)@.issued(id.0) ==> old(self)@.count > 0,
        ensures
            (final(self)@, r) == old(self)@.revoke(id.0),
            final(self)@.wf(),
    {
        let ghost v = self@;
        let mut i: usize = 0;
        while i < self.entries.len()
            invariant
                self@ == v,
                old(self)@ == v,
                v.wf(),
                v.issued(id.0) ==> v.count > 0,
                0 <= i <= MAX_CAPS,
                forall|j: int|
                    0 <= j < i ==> !((#[trigger] v.entries[j]).used && v.entries[j].id == id.0),
            decreases MAX_CAPS - i,
        {
            if self.entries[i].used && self.entries[i].id == id.0 {
                let mut e = self.entries[i];
                e.revoked = true;
                self.entries.set(i, e);
                self.count = self.count - 1;
                assert(i == id.0 - 1);
                assert(self@ =~= v.revoke(id.0).0);
                proof {
                    lemma_revoke_wf(v, id.0);
                }
                return true;
            }
            i = i + 1;
        }
        proof {
            if v.issued(id.0) {
                assert(v.entries[id.0 - 1].used);
            }
        }
        false
    }
}

/// Issues a new capability.
pub fn create(table: &mut Table, kind: CapabilityKind, rights: Rights, delegation_depth: u8) -> (r:
    Option<CapabilityId>)
    requires
        old(table)@.wf(),
    ensures
        (final(table)@, r) == old(table)@.insert(kind, rights, delegation_depth),
        final(table)@.wf(),
{
    table.insert(kind, rights, delegation_depth)
}

/// Whether `id` is live and carries every right of `required`.
pub fn check(table: &Table, id: CapabilityId, required: Rights) -> (r: bool)
    requires
        table@.wf(),
    ensures
        r == table@.permits(id.0, required),
{
    match table.get(id) {
        Some(e) => e.rights.contains(required),
        None => false,
    }
}

/// Marks the capability revoked; `false` when the id was never issued.
pub fn revoke(table: &mut Table, id: CapabilityId) -> (r: bool)
    requires
        old(table)@.wf(),
        old(table)@.issued(id.0) ==> old(table)@.count > 0,
    ensures
        (final(table)@, r) == old(table)@.revoke(id.0),
        final(table)@.wf(),
{
    table.revoke(id)
}

/// Issues a child of `parent` holding the parent's rights restricted to
/// `reduced_rights`, one delegation level further down.
pub fn delegate(table: &mut Table, parent: CapabilityId, reduced_rights: Rights) -> (r: Option<
    CapabilityId,
>)
    requires
        old(table)@.wf(),
    ensures
        (final(table)@, r) == old(table)@.delegate(parent.0, reduced_rights),
        final(table)@.wf(),
{
    let (kind, depth, actual) = match table.get(parent) {
        None => {
            return None;
        },
        Some(e) => {
            if e.delegation_depth == 0 {
                return None;
            }
            (e.kind, e.delegation_depth - 1, e.rights.intersect(reduced_rights))
        },
    };
    table.insert(kind, actual, depth)
}

/// A freshly created capability grants exactly the rights it was created
/// with, carries a never-issued id, and leaves every other capability as it
/// was.
pub proof fn lemma_create_then_check(
    t: TableView,
    kind: CapabilityKind,
    rights: Rights,
    depth: u8,
    required: Rights,
    other: u64,
)
    requires
        t.wf(),
        t.insert(kind, rights, depth).1 is Some,
    ensures
        ({
            let (t2, r) = t.insert(kind, rights, depth);
            let id = r.unwrap().0;
            &&& !t.issued(id)
            &&& t2.permits(id, required) == rights.includes(required)
            &&& t2.lookup(id).unwrap().kind == kind
            &&& t2.lookup(id).unwrap().delegation_depth == depth
            &&& other != id ==> t2.lookup(other) == t.lookup(other)
        }),
{
}

/// Once revoked, a capability grants nothing; revoking touches no other
/// capability, and it succeeds exactly for ids that were issued.
pub proof fn lemma_revoke_then_check(t: TableView, id: u64, required: Rights, other: u64)
    requires
        t.wf(),
        t.issued(id) ==> t.count > 0,
    ensures
        !t.revoke(id).0.permits(id, required),
        t.revoke(id).0.wf(),
        t.revoke(id).1 == t.issued(id),
        other != id ==> t.revoke(id).0.lookup(other) == t.lookup(other),
{
    lemma_revoke_wf(t, id);
}

/// Delegation only attenuates: the child names the same object, one level
/// further down, and every right it grants is granted by the parent and
/// lies within the requested reduction. A parent at depth 0, or one that is
/// not live, cannot be delegated.
pub proof fn lemma_delegate_attenuates(t: TableView, parent: u64, reduced: Rights, required: Rights)
    requires
        t.wf(),
    ensures
        ({
            let (t2, r) = t.delegate(parent, reduced);
            &&& r is Some <==> (t.lookup(parent) is Some && t.lookup(parent).unwrap().delegation_depth
                > 0 && t.count < MAX_CAPS && t.next_id <= MAX_CAPS)
            &&& r is Some ==> {
                let child = r.unwrap().0;
                let p = t.lookup(parent).unwrap();
                &&& t2.lookup(child).unwrap().kind == p.kind
                &&& t2.lookup(child).unwrap().delegation_depth + 1 == p.delegation_depth
                &&& t2.permits(child, required) ==> t.permits(parent, required)
                    && reduced.includes(required)
                &&& t2.lookup(parent) == t.lookup(parent)
            }
        }),
{
    let (t2, r) = t.delegate(parent, reduced);
    if r is Some {
        let p = t.lookup(parent).unwrap();
        let a = p.rights.0;
        let b = reduced.0;
        let q = required.0;
        assert((a & b) & q == q ==> a & q == q && b & q == q) by (bit_vector);
    }
}

proof fn lemma_live_bounded(t: TableView)
    requires
        t.entries.len() == MAX_CAPS,
        forall|i: int|
            0 <= i < MAX_CAPS ==> (#[trigger] t.entries[i]).used == (i < t.next_id - 1),
        1 <= t.next_id,
    ensures
        t.live().finite(),
        t.live().len() <= t.next_id - 1,
        t.live().len() <= MAX_CAPS,
{
    let hi = if t.next_id - 1 <= MAX_CAPS {
        t.next_id - 1
    } else {
        MAX_CAPS as int
    };
    lemma_int_range(0, hi);
    assert(t.live().subset_of(set_int_range(0, hi)));
    lemma_len_subset(t.live(), set_int_range(0, hi));
}

/// Issuing a capability keeps a table well formed.
pub proof fn lemma_insert_wf(t: TableView, kind: CapabilityKind, rights: Rights, depth: u8)
    requires
        t.wf(),
    ensures
        t.insert(kind, rights, depth).0.wf(),
{
    if !(t.count >= MAX_CAPS || t.next_id > MAX_CAPS) {
        let t2 = t.insert(kind, rights, depth).0;
        let i = t.next_id - 1;
        lemma_live_bounded(t);
        assert(!t.live().contains(i));
        assert(t2.live() =~= t.live().insert(i));
    }
}

/// Revoking a capability (with the count able to drop) keeps a table well
/// formed.
pub proof fn lemma_revoke_wf(t: TableView, id: u64)
    requires
        t.wf(),
        t.issued(id) ==> t.count > 0,
    ensures
        t.revoke(id).0.wf(),
{
    if t.issued(id) {
        let t2 = t.revoke(id).0;
        let i = id - 1;
        lemma_live_bounded(t);
        assert(t2.live() =~= t.live().remove(i));
    }
}

/// While fewer than `MAX_CAPS` capabilities have been issued, issuing
/// another succeeds, with the next id in order.
pub proof fn lemma_create_succeeds(t: TableView, kind: CapabilityKind, rights: Rights, depth: u8)
    requires
        t.wf(),
        t.next_id <= MAX_CAPS,
    ensures
        t.count < MAX_CAPS,
        t.insert(kind, rights, depth).1 == Some(CapabilityId(t.next_id)),
{
    lemma_live_bounded(t);
}

} // verus!

//! Processes: an id, a state, a name and the top-level page table of the
//! process's address space.
use vstd::prelude::*;
use crate::mm::pmm::{alloc_frame, has_allocatable, is_lowest_allocatable, Pmm, PAGE_SIZE};
use crate::mm::vmm::phys_addr;

verus! {

#[derive(Debug, Clone, Copy, PartialEq, Eq, Structural)]
pub struct ProcessId(pub u32);

#[derive(Debug, Clone, Copy, PartialEq, Eq, Structural)]
pub enum ProcessState {
    Running,
    Suspended,
    Zombie,
}

pub const USER_STACK_TOP: u64 = 0x0000_7FFF_FFFF_F000;

pub const USER_STACK_SIZE: u64 = 0x10000;

pub const USER_CODE_BASE: u64 = 0x0000_0000_0040_0000;

/// Processes a table holds at most.
pub const MAX_PROCESSES: usize = 16;

#[derive(Clone, Copy)]
pub struct Process {
    pub id: ProcessId,
    pub state: ProcessState,
    pub name: &'static str,
    /// Physical address of the top-level page table.
    pub cr3: u64,
}

impl Process {
    /// A running process whose top-level page table lives in the frame
    /// `pmm` hands out; none when no frame is free.
    pub fn new(id: ProcessId, name: &'static str, pmm: &mut Pmm) -> (r: Option<Process>)
        requires
            old(pmm).wf(),
        ensures
            final(pmm).wf(),
        final(pmm)@.finite(),
            final(pmm)@.finite(),
            match r {
                Some(p) => {
                    &&& p.id == id
                    &&& p.name == name
                    &&& p.state == ProcessState::Running
                    &&& p.cr3 % PAGE_SIZE == 0
                    &&& is_lowest_allocatable(old(pmm)@, (p.cr3 / PAGE_SIZE) as int)
                    &&& final(pmm)@ == old(pmm)@.remove((p.cr3 / PAGE_SIZE) as int)
                    &&& final(pmm)@.len() + 1 == old(pmm)@.len()
                },
                None => !has_allocatable(old(pmm)@) && final(pmm)@ == old(pmm)@,
            },
    {
        let l4_phys = match alloc_frame(pmm) {
            Some(a) => a,
            None => {
                return None;
            },
        };
        let cr3 = phys_addr(l4_phys);
        Some(Process { id, state: ProcessState::Running, name, cr3 })
    }
}

/// The model of the process table.
#[verifier::ext_equal]
pub struct ProcessTableView {
    pub procs: Seq<Option<Process>>,
    pub next_id: u32,
}

impl ProcessTableView {
    /// Every process has an id below `next_id`, and no two share one.
    pub open spec fn wf(self) -> bool {
        &&& self.procs.len() == MAX_PROCESSES
        &&& forall|i: int|
            0 <= i < MAX_PROCESSES && (#[trigger] self.procs[i]) is Some
                ==> self.procs[i].unwrap().id.0 < self.next_id
        &&& forall|i: int, j: int|
            0 <= i < MAX_PROCESSES && 0 <= j < MAX_PROCESSES && i != j && (#[trigger] self.procs[i]) is Some
                && (#[trigger] self.procs[j]) is Some ==> self.procs[i].unwrap().id != self.procs[j].unwrap().id
    }

    pub open spec fn holds(self, i: int, id: ProcessId) -> bool {
        0 <= i < MAX_PROCESSES && self.procs[i] is Some && self.procs[i].unwrap().id == id
    }

    pub open spec fn has(self, id: ProcessId) -> bool {
        exists|i: int| self.holds(i, id)
    }

    /// The process with this id.
    pub open spec fn get(self, id: ProcessId) -> Option<Process> {
        if self.has(id) {
            self.procs[choose|i: int| self.holds(i, id)]
        } else {
            None
        }
    }

    pub open spec fn has_free(self) -> bool {
        exists|i: int| 0 <= i < MAX_PROCESSES && self.procs[i] is None
    }

    /// The lowest empty slot.
    pub open spec fn first_free(self) -> int {
        choose|i: int|
            0 <= i < MAX_PROCESSES && self.procs[i] is None && forall|j: int|
                0 <= j < i ==> (#[trigger] self.procs[j]) is Some
    }

    /// The table with `p` in the lowest empty slot.
    pub open spec fn insert(self, p: Process) -> ProcessTableView {
        ProcessTableView { procs: self.procs.update(self.first_free(), Some(p)), ..self }
    }

    /// The table with process `id`, if any, put in state `st`.
    pub open spec fn with_state(self, id: ProcessId, st: ProcessState) -> ProcessTableView {
        if self.has(id) {
            let i = choose|i: int| self.holds(i, id);
            ProcessTableView {
                procs: self.procs.update(i, Some(Process { state: st, ..self.procs[i].unwrap() })),
                ..self
            }
        } else {
            self
        }
    }
}

proof fn lemma_first_free_from(t: ProcessTableView, i: int, w: int)
    requires
        t.procs.len() == MAX_PROCESSES,
        0 <= i <= w < MAX_PROCESSES,
        t.procs[w] is None,
        forall|j: int| 0 <= j < i ==> (#[trigger] t.procs[j]) is Some,
    ensures
        exists|k: int|
            0 <= k < MAX_PROCESSES && t.procs[k] is None && forall|j: int|
                0 <= j < k ==> (#[trigger] t.procs[j]) is Some,
    decreases w - i,
{
    if t.procs[i] is None {
        assert(forall|j: int| 0 <= j < i ==> (#[trigger] t.procs[j]) is Some);
    } else {
        lemma_first_free_from(t, i + 1, w);
    }
}

proof fn lemma_first_free(t: ProcessTableView)
    requires
        t.procs.len() == MAX_PROCESSES,
        t.has_free(),
    ensures
        0 <= t.first_free() < MAX_PROCESSES,
        t.procs[t.first_free()] is None,
        forall|j: int| 0 <= j < t.first_free() ==> (#[trigger] t.procs[j]) is Some,
{
    let w = choose|i: int| 0 <= i < MAX_PROCESSES && t.procs[i] is None;
    lemma_first_free_from(t, 0, w);
}

proof fn lemma_get_slot(t: ProcessTableView, i: int, id: ProcessId)
    requires
        t.wf(),
        t.holds(i, id),
    ensures
        t.get(id) == t.procs[i],
{
    let k = choose|k: int| t.holds(k, id);
    assert(t.holds(k, id));
}

/// The table of processes.
pub struct ProcessTable {
    procs: Vec<Option<Process>>,
    next_id: u32,
}

impl View for ProcessTable {
    type V = ProcessTableView;

    closed spec fn view(&self) -> ProcessTableView {
        ProcessTableView { procs: self.procs@, next_id: self.next_id }
    }
}

impl ProcessTable {
    pub fn new() -> (t: ProcessTable)
        ensures
            t@.wf(),
            t@.next_id == 1,
            forall|i: int| 0 <= i < MAX_PROCESSES ==> (#[trigger] t@.procs[i]) is None,
    {
        let mut procs: Vec<Option<Process>> = Vec::new();
        while procs.len() < MAX_PROCESSES
            invariant
                procs.len() <= MAX_PROCESSES,
                forall|i: int| 0 <= i < procs.len() ==> (#[trigger] procs@[i]) is None,
            decreases MAX_PROCESSES - procs.len(),
        {
            procs.push(None);
        }
        ProcessTable { procs, next_id: 1 }
    }

    /// Puts `proc` in the lowest empty slot and returns its id.
    fn insert(&mut self, proc: Process) -> (r: ProcessId)
        requires
            old(self)@.wf(),
            old(self)@.has_free(),
            proc.id.0 < old(self)@.next_id,
            !old(self)@.has(proc.id),
        ensures
            final(self)@ == old(self)@.insert(proc),
            final(self)@.wf(),
            r == proc.id,
    {
        let ghost v = self@;
        proof {
            lemma_first_free(v);
        }
        let mut i: usize = 0;
        while i < MAX_PROCESSES
            invariant
                self@ == v,
                old(self)@ == v,
                v.wf(),
                v.has_free(),
                0 <= v.first_free() < MAX_PROCESSES,
                v.procs[v.first_free()] is None,
                forall|j: int| 0 <= j < v.first_free() ==> (#[trigger] v.procs[j]) is Some,
                proc.id.0 < v.next_id,
                !v.has(proc.id),
                0 <= i <= v.first_free(),
            decreases MAX_PROCESSES - i,
        {
            if self.procs[i].is_none() {
                assert(i == v.first_free());
                self.procs.set(i, Some(proc));
                proof {
                    assert forall|j: int| 0 <= j < MAX_PROCESSES && j != i && (#[trigger] v.procs[j]) is Some
                        implies v.procs[j].unwrap().id != proc.id by {
                        assert(!v.holds(j, proc.id));
                    }
                }
                assert(self@ =~= v.insert(proc));
                return proc.id;
            }
            i = i + 1;
        }
        proof {
            assert(false);
        }
        proc.id
    }

    /// The process with id `id`.
    pub fn get(&self, id: ProcessId) -> (r: Option<Process>)
        requires
            self@.wf(),
        ensures
            r == self@.get(id),
    {
        let mut i: usize = 0;
        while i < MAX_PROCESSES
            invariant
                self@.wf(),
                0 <= i <= MAX_PROCESSES,
                forall|j: int| 0 <= j < i ==> !self@.holds(j, id),
            decreases MAX_PROCESSES - i,
        {
            match self.procs[i] {
                Some(p) => {
                    if p.id == id {
                        proof {
                            lemma_get_slot(self@, i as int, id);
                        }
                        return Some(p);
                    }
                },
                None => {},
            }
            assert(!self@.holds(i as int, id));
            i = i + 1;
        }
        None
    }

    /// Whether `create` may be called: a process id must be left, and a
    /// page table that can be had must find a slot.
    pub fn can_create(&self, pmm: &Pmm) -> (r: bool)
        requires
            self@.wf(),
            pmm.wf(),
        ensures
            r == (self@.next_id < u32::MAX && (has_allocatable(pmm@) ==> self@.has_free())),
    {
        if self.next_id == u32::MAX {
            return false;
        }
        if !pmm.can_allocate() {
            return true;
        }
        let mut i: usize = 0;
        while i < MAX_PROCESSES
            invariant
                self@.wf(),
                self@.next_id < u32::MAX,
                has_allocatable(pmm@),
                0 <= i <= MAX_PROCESSES,
                forall|j: int| 0 <= j < i ==> (#[trigger] self@.procs[j]) is Some,
            decreases MAX_PROCESSES - i,
        {
            if self.procs[i].is_none() {
                assert(self@.procs[i as int] is None);
                return true;
            }
            i = i + 1;
        }
        false
    }

    /// Hands out the next process id.
    fn next_id(&mut self) -> (r: ProcessId)
        requires
            old(self)@.wf(),
            old(self)@.next_id < u32::MAX,
        ensures
            r.0 == old(self)@.next_id,
            final(self)@ == (ProcessTableView { next_id: (old(self)@.next_id + 1) as u32, ..old(self)@ }),
            final(self)@.wf(),
    {
        let id = ProcessId(self.next_id);
        self.next_id = self.next_id + 1;
        id
    }
}

/// Creates a running process named `name`. Its id is drawn first, so an id
/// is used up even when no frame is left for the page table.
pub fn create(table: &mut ProcessTable, pmm: &mut Pmm, name: &'static str) -> (r: Option<ProcessId>)
    requires
        old(table)@.wf(),
        old(pmm).wf(),
        old(table)@.next_id < u32::MAX,
        has_allocatable(old(pmm)@) ==> old(table)@.has_free(),
    ensures
        final(table)@.wf(),
        final(pmm).wf(),
        final(pmm)@.finite(),
        final(table)@.next_id == old(table)@.next_id + 1,
        match r {
            Some(pid) => {
                let p = final(table)@.get(pid).unwrap();
                &&& pid.0 == old(table)@.next_id
                &&& !old(table)@.has(pid)
                &&& final(table)@.get(pid) is Some
                &&& p.id == pid
                &&& p.name == name
                &&& p.state == ProcessState::Running
                &&& p.cr3 % PAGE_SIZE == 0
                &&& is_lowest_allocatable(old(pmm)@, (p.cr3 / PAGE_SIZE) as int)
                &&& final(pmm)@ == old(pmm)@.remove((p.cr3 / PAGE_SIZE) as int)
                &&& final(pmm)@.len() + 1 == old(pmm)@.len()
                &&& final(table)@ == (ProcessTableView { next_id: final(table)@.next_id, ..old(table)@.insert(p) })
            },
            None => {
                &&& !has_allocatable(old(pmm)@)
                &&& final(pmm)@ == old(pmm)@
                &&& final(table)@.procs == old(table)@.procs
            },
        },
{
    let ghost v = table@;
    let id = table.next_id();
    let proc = match Process::new(id, name, pmm) {
        Some(p) => p,
        None => {
            return None;
        },
    };
    proof {
        if table@.has(id) {
            let k = choose|k: int| table@.holds(k, id);
            assert(table@.holds(k, id));
        }
    }
    let r = table.insert(proc);
    proof {
        lemma_first_free(v);
        let f = v.first_free();
        assert(table@.holds(f, id));
        lemma_get_slot(table@, f, id);
        assert(!v.has(id)) by {
            if v.has(id) {
                let k = choose|k: int| v.holds(k, id);
                assert(v.holds(k, id));
            }
        }
    }
    Some(r)
}

/// Marks process `id` exited: it stays in the table as a zombie. Nothing
/// happens for an unknown id.
pub fn mark_exit(table: &mut ProcessTable, id: ProcessId)
    requires
        old(table)@.wf(),
    ensures
        final(table)@.wf(),
        final(table)@ == old(table)@.with_state(id, ProcessState::Zombie),
{
    let ghost v = table@;
    let mut i: usize = 0;
    while i < MAX_PROCESSES
        invariant
            table@ == v,
            old(table)@ == v,
            v.wf(),
            0 <= i <= MAX_PROCESSES,
            forall|j: int| 0 <= j < i ==> !v.holds(j, id),
        decreases MAX_PROCESSES - i,
    {
        match table.procs[i] {
            Some(p) => {
                if p.id == id {
                    proof {
                        assert(v.holds(i as int, id));
                        let k = choose|k: int| v.holds(k, id);
                        assert(v.holds(k, id));
                        if k != i {
                            assert(v.procs[k] is Some && v.procs[i as int] is Some);
                        }
                        assert(k == i);
                    }
                    table.procs.set(i, Some(Process { state: ProcessState::Zombie, ..p }));
                    assert(table@ =~= v.with_state(id, ProcessState::Zombie));
                    return;
                }
            },
            None => {},
        }
        assert(!v.holds(i as int, id));
        i = i + 1;
    }
    proof {
        if v.has(id) {
            let k = choose|k: int| v.holds(k, id);
            assert(v.holds(k, id));
        }
    }
}

/// A process placed in a table can be found there by its id, and every
/// other id finds what it found before.
pub proof fn lemma_insert_then_get(t: ProcessTableView, p: Process, other: ProcessId)
    requires
        t.wf(),
        t.has_free(),
        p.id.0 < t.next_id,
        !t.has(p.id),
        other != p.id,
    ensures
        t.insert(p).wf(),
        t.insert(p).get(p.id) == Some(p),
        t.insert(p).get(other) == t.get(other),
{
    lemma_first_free(t);
    let f = t.first_free();
    let t2 = t.insert(p);
    assert forall|j: int| 0 <= j < MAX_PROCESSES && j != f && (#[trigger] t.procs[j]) is Some
        implies t.procs[j].unwrap().id != p.id by {
        assert(!t.holds(j, p.id));
    }
    assert(t2.wf());
    assert(t2.holds(f, p.id));
    lemma_get_slot(t2, f, p.id);
    if t.has(other) {
        let k = choose|k: int| t.holds(k, other);
        assert(t.holds(k, other));
        lemma_get_slot(t, k, other);
        assert(t2.holds(k, other));
        lemma_get_slot(t2, k, other);
    }
    if t2.has(other) {
        let k = choose|k: int| t2.holds(k, other);
        assert(t2.holds(k, other));
        assert(t.holds(k, other));
    }
}

/// An exited process stays in the table with its id, name and page table,
/// now a zombie; every other id finds what it found before.
pub proof fn lemma_exit_then_get(t: ProcessTableView, id: ProcessId, other: ProcessId)
    requires
        t.wf(),
        other != id,
    ensures
        t.with_state(id, ProcessState::Zombie).wf(),
        t.with_state(id, ProcessState::Zombie).get(id) == match t.get(id) {
            Some(p) => Some(Process { state: ProcessState::Zombie, ..p }),
            None => None,
        },
        t.with_state(id, ProcessState::Zombie).get(other) == t.get(other),
{
    let t2 = t.with_state(id, ProcessState::Zombie);
    if t.has(id) {
        let i = choose|i: int| t.holds(i, id);
        assert(t.holds(i, id));
        lemma_get_slot(t, i, id);
        assert(t2.wf());
        assert(t2.holds(i, id));
        lemma_get_slot(t2, i, id);
        if t.has(other) {
            let k = choose|k: int| t.holds(k, other);
            assert(t.holds(k, other));
            lemma_get_slot(t, k, other);
            assert(t2.holds(k, other));
            lemma_get_slot(t2, k, other);
        }
        if t2.has(other) {
            let k = choose|k: int| t2.holds(k, other);
            assert(t2.holds(k, other));
            assert(t.holds(k, other));
        }
    }
}

} // verus!

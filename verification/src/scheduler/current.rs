//! Which process each task runs on behalf of.
use vstd::prelude::*;
use vstd::set_lib::{lemma_int_range, lemma_len_subset, set_int_range};
use crate::process::ProcessId;
use crate::scheduler::task::TaskId;
use crate::scheduler::{current_task_id, Sched};

verus! {

/// Slots of the task-to-process map.
pub const MAP_SLOTS: usize = 32;

/// The model of the map: pairs `(task, process)` by slot, a task id of 0
/// marking a free slot, and the number of taken slots.
#[verifier::ext_equal]
pub struct CurrentMapView {
    pub entries: Seq<(u32, u32)>,
    pub count: usize,
}

impl CurrentMapView {
    /// The slots in use.
    pub open spec fn occupied(self) -> Set<int> {
        Set::new(|i: int| 0 <= i < MAP_SLOTS && self.entries[i].0 != 0)
    }

    pub open spec fn wf(self) -> bool {
        self.entries.len() == MAP_SLOTS
    }

    /// `count` is the number of slots in use; recording and forgetting
    /// tasks other than 0 keep it so.
    pub open spec fn counted(self) -> bool {
        self.count == self.occupied().len()
    }

    /// Some slot has task id `key` (a free slot, for 0).
    pub open spec fn has(self, key: u32) -> bool {
        exists|i: int| 0 <= i < MAP_SLOTS && self.entries[i].0 == key
    }

    /// The first slot with task id `key`.
    pub open spec fn first(self, key: u32) -> int {
        choose|i: int|
            0 <= i < MAP_SLOTS && self.entries[i].0 == key && forall|j: int|
                0 <= j < i ==> (#[trigger] self.entries[j]).0 != key
    }

    /// Records `task` in the first free slot; nothing happens when none is
    /// free.
    pub open spec fn associate(self, task: TaskId, p: ProcessId) -> CurrentMapView {
        if self.has(0) {
            CurrentMapView {
                entries: self.entries.update(self.first(0), (task.0, p.0)),
                count: (self.count + 1) as usize,
            }
        } else {
            self
        }
    }

    /// Frees the first slot of `task`.
    pub open spec fn remove(self, task: TaskId) -> CurrentMapView {
        if self.has(task.0) {
            CurrentMapView {
                entries: self.entries.update(self.first(task.0), (0u32, 0u32)),
                count: (self.count - 1) as usize,
            }
        } else {
            self
        }
    }

    /// The process of the first slot of `task`.
    pub open spec fn get_process(self, task: TaskId) -> Option<ProcessId> {
        if self.has(task.0) {
            Some(ProcessId(self.entries[self.first(task.0)].1))
        } else {
            None
        }
    }
}

proof fn lemma_first_from(v: CurrentMapView, key: u32, i: int, w: int)
    requires
        v.entries.len() == MAP_SLOTS,
        0 <= i <= w < MAP_SLOTS,
        v.entries[w].0 == key,
        forall|j: int| 0 <= j < i ==> (#[trigger] v.entries[j]).0 != key,
    ensures
        exists|k: int|
            0 <= k < MAP_SLOTS && v.entries[k].0 == key && forall|j: int|
                0 <= j < k ==> (#[trigger] v.entries[j]).0 != key,
    decreases w - i,
{
    if v.entries[i].0 == key {
        assert(forall|j: int| 0 <= j < i ==> (#[trigger] v.entries[j]).0 != key);
    } else {
        lemma_first_from(v, key, i + 1, w);
    }
}

/// When `key` occurs, `first(key)` is its lowest slot.
pub proof fn lemma_first(v: CurrentMapView, key: u32)
    requires
        v.entries.len() == MAP_SLOTS,
        v.has(key),
    ensures
        0 <= v.first(key) < MAP_SLOTS,
        v.entries[v.first(key)].0 == key,
        forall|j: int| 0 <= j < v.first(key) ==> (#[trigger] v.entries[j]).0 != key,
{
    let w = choose|i: int| 0 <= i < MAP_SLOTS && v.entries[i].0 == key;
    lemma_first_from(v, key, 0, w);
}

proof fn lemma_occupied_bounded(v: CurrentMapView)
    ensures
        v.occupied().finite(),
        v.occupied().len() <= MAP_SLOTS,
{
    lemma_int_range(0, MAP_SLOTS as int);
    assert(v.occupied().subset_of(set_int_range(0, MAP_SLOTS as int)));
    lemma_len_subset(v.occupied(), set_int_range(0, MAP_SLOTS as int));
}

/// The task-to-process map.
pub struct CurrentMap {
    entries: Vec<(u32, u32)>,
    count: usize,
}

impl View for CurrentMap {
    type V = CurrentMapView;

    closed spec fn view(&self) -> CurrentMapView {
        CurrentMapView { entries: self.entries@, count: self.count }
    }
}

impl CurrentMap {
    pub fn new() -> (m: CurrentMap)
        ensures
            m@.wf(),
            m@.counted(),
            m@.count == 0,
            forall|i: int| 0 <= i < MAP_SLOTS ==> #[trigger] m@.entries[i] == (0u32, 0u32),
    {
        let mut entries: Vec<(u32, u32)> = Vec::new();
        while entries.len() < MAP_SLOTS
            invariant
                entries.len() <= MAP_SLOTS,
                forall|i: int| 0 <= i < entries.len() ==> #[trigger] entries@[i] == (0u32, 0u32),
            decreases MAP_SLOTS - entries.len(),
        {
            entries.push((0, 0));
        }
        let m = CurrentMap { entries, count: 0 };
        assert(m@.occupied() =~= Set::<int>::empty());
        assert(m@.counted());
        m
    }

    /// The lowest slot whose task id is `key`.
    fn position(&self, key: u32) -> (r: Option<usize>)
        requires
            self@.wf(),
        ensures
            match r {
                Some(i) => self@.has(key) && self@.first(key) == i,
                None => !self@.has(key),
            },
    {
        let mut i: usize = 0;
        while i < MAP_SLOTS
            invariant
                self@.wf(),
                0 <= i <= MAP_SLOTS,
                forall|j: int| 0 <= j < i ==> (#[trigger] self@.entries[j]).0 != key,
            decreases MAP_SLOTS - i,
        {
            if self.entries[i].0 == key {
                proof {
                    lemma_first(self@, key);
                    let f = self@.first(key);
                    if f < i {
                        assert(self@.entries[f].0 != key);
                    }
                    if f > i {
                        assert(self@.entries[i as int].0 == key);
                    }
                }
                return Some(i);
            }
            i = i + 1;
        }
        None
    }

    /// Whether `associate` may be called: recording a task adds one to the
    /// count, which must not wrap.
    pub fn can_associate(&self) -> (r: bool)
        requires
            self@.wf(),
        ensures
            r == (self@.has(0) ==> self@.count < usize::MAX),
    {
        self.count < usize::MAX || self.position(0).is_none()
    }

    /// Whether `remove(task)` may be called: forgetting a task takes one off
    /// the count, which must not go below zero.
    pub fn can_remove(&self, task: TaskId) -> (r: bool)
        requires
            self@.wf(),
        ensures
            r == (self@.has(task.0) ==> self@.count > 0),
    {
        self.count > 0 || self.position(task.0).is_none()
    }

    pub fn associate(&mut self, task: TaskId, p: ProcessId)
        requires
            old(self)@.wf(),
            old(self)@.has(0) ==> old(self)@.count < usize::MAX,
        ensures
            final(self)@.wf(),
            final(self)@ == old(self)@.associate(task, p),
            task.0 != 0 && old(self)@.counted() ==> final(self)@.counted(),
    {
        proof {
            if task.0 != 0 && old(self)@.counted() {
                lemma_count_tracks_slots(old(self)@, task, p);
            }
        }
        match self.position(0) {
            Some(i) => {
                let ghost v = self@;
                self.entries.set(i, (task.0, p.0));
                self.count = self.count + 1;
                assert(self@ =~= v.associate(task, p));
            },
            None => {},
        }
    }

    pub fn get_process(&self, task: TaskId) -> (r: Option<ProcessId>)
        requires
            self@.wf(),
        ensures
            r == self@.get_process(task),
    {
        match self.position(task.0) {
            Some(i) => Some(ProcessId(self.entries[i].1)),
            None => None,
        }
    }

    pub fn remove(&mut self, task: TaskId)
        requires
            old(self)@.wf(),
            old(self)@.has(task.0) ==> old(self)@.count > 0,
        ensures
            final(self)@.wf(),
            final(self)@ == old(self)@.remove(task),
            task.0 != 0 && old(self)@.counted() ==> final(self)@.counted(),
    {
        proof {
            if task.0 != 0 && old(self)@.counted() {
                lemma_count_tracks_slots(old(self)@, task, ProcessId(0));
            }
        }
        match self.position(task.0) {
            Some(i) => {
                let ghost v = self@;
                self.entries.set(i, (0, 0));
                self.count = self.count - 1;
                assert(self@ =~= v.remove(task));
            },
            None => {},
        }
    }
}

/// Records that `task` runs on behalf of `proc`.
pub fn associate(map: &mut CurrentMap, task: TaskId, proc: ProcessId)
    requires
        old(map)@.wf(),
        old(map)@.has(0) ==> old(map)@.count < usize::MAX,
    ensures
        final(map)@.wf(),
        final(map)@ == old(map)@.associate(task, proc),
        task.0 != 0 && old(map)@.counted() ==> final(map)@.counted(),
{
    map.associate(task, proc)
}

/// Forgets the process of `task`.
pub fn remove(map: &mut CurrentMap, task: TaskId)
    requires
        old(map)@.wf(),
        old(map)@.has(task.0) ==> old(map)@.count > 0,
    ensures
        final(map)@.wf(),
        final(map)@ == old(map)@.remove(task),
        task.0 != 0 && old(map)@.counted() ==> final(map)@.counted(),
{
    map.remove(task)
}

/// The process `task` runs on behalf of.
pub fn get_process(map: &CurrentMap, task: TaskId) -> (r: Option<ProcessId>)
    requires
        map@.wf(),
    ensures
        r == map@.get_process(task),
{
    map.get_process(task)
}

/// The process of the running task.
pub fn current_process(sched: &Sched, map: &CurrentMap) -> (r: Option<ProcessId>)
    requires
        sched@.wf(),
        map@.wf(),
    ensures
        r == match sched@.current_task_id() {
            Some(t) => map@.get_process(t),
            None => None,
        },
{
    match current_task_id(sched) {
        Some(t) => get_process(map, t),
        None => None,
    }
}

/// A task recorded in a map where it was absent is found again with the
/// process it was recorded with; other tasks keep their processes. Once a
/// task recorded once is removed, it has no process, and other tasks keep
/// theirs.
pub proof fn lemma_associate_then_get(v: CurrentMapView, t: TaskId, p: ProcessId, other: TaskId)
    requires
        v.wf(),
        t.0 != 0,
        other.0 != 0,
        other != t,
    ensures
        v.has(0) && !v.has(t.0) ==> v.associate(t, p).get_process(t) == Some(p),
        v.associate(t, p).get_process(other) == v.get_process(other),
        (forall|i: int, j: int|
            0 <= i < MAP_SLOTS && 0 <= j < MAP_SLOTS && v.entries[i].0 == t.0 && v.entries[j].0
                == t.0 ==> i == j) ==> v.remove(t).get_process(t) is None,
        v.remove(t).get_process(other) == v.get_process(other),
{
    let a = v.associate(t, p);
    if v.has(0) {
        lemma_first(v, 0);
        let f = v.first(0);
        if !v.has(t.0) {
            assert(a.has(t.0)) by {
                assert(a.entries[f].0 == t.0);
            }
            lemma_first(a, t.0);
            let g = a.first(t.0);
            if g != f {
                assert(v.entries[g].0 == t.0);
            }
        }
        if v.has(other.0) {
            lemma_first(v, other.0);
            let h = v.first(other.0);
            assert(a.entries[h].0 == other.0);
            lemma_first(a, other.0);
            let h2 = a.first(other.0);
            if h2 < h {
                assert(a.entries[h2] == v.entries[h2]);
            }
            if h < h2 {
                assert(a.entries[h].0 == other.0);
            }
        }
        if a.has(other.0) {
            lemma_first(a, other.0);
            let h2 = a.first(other.0);
            assert(v.entries[h2].0 == other.0);
        }
    }
    let r = v.remove(t);
    if v.has(t.0) {
        lemma_first(v, t.0);
        let f = v.first(t.0);
        if v.has(other.0) {
            lemma_first(v, other.0);
            let h = v.first(other.0);
            assert(r.entries[h].0 == other.0);
            lemma_first(r, other.0);
            let h2 = r.first(other.0);
            if h2 < h {
                assert(r.entries[h2] == v.entries[h2]);
            }
            if h < h2 {
                assert(r.entries[h].0 == other.0);
            }
        }
        if r.has(other.0) {
            lemma_first(r, other.0);
            let h2 = r.first(other.0);
            assert(v.entries[h2].0 == other.0);
        }
        if r.has(t.0) {
            lemma_first(r, t.0);
            let g = r.first(t.0);
            assert(v.entries[g].0 == t.0);
        }
    }
}

/// While the count of used slots is exact, it is at most `MAP_SLOTS` and
/// positive whenever a task other than 0 is recorded, so neither recording
/// nor forgetting can overflow it; recording and forgetting tasks other
/// than 0 keep it exact.
pub proof fn lemma_count_tracks_slots(v: CurrentMapView, t: TaskId, p: ProcessId)
    requires
        v.wf(),
        v.counted(),
        t.0 != 0,
    ensures
        v.count <= MAP_SLOTS,
        v.has(t.0) ==> v.count > 0,
        v.associate(t, p).counted(),
        v.remove(t).counted(),
{
    lemma_occupied_bounded(v);
    if v.has(0) {
        lemma_first(v, 0);
        let f = v.first(0);
        assert(!v.occupied().contains(f));
        assert(v.associate(t, p).occupied() =~= v.occupied().insert(f));
    }
    if v.has(t.0) {
        lemma_first(v, t.0);
        let f = v.first(t.0);
        assert(v.occupied().contains(f));
        assert(v.remove(t).occupied() =~= v.occupied().remove(f));
    }
}

} // verus!

//! The round-robin, priority-class scheduler.
pub mod current;
pub mod task;

use vstd::prelude::*;
use self::task::{rank, PriorityClass, Task, TaskId, TaskState};

verus! {

/// Task slots.
pub const MAX_TASKS: usize = 16;

/// The model of the scheduler.
#[verifier::ext_equal]
pub struct SchedView {
    pub tasks: Seq<Option<Task>>,
    pub current: usize,
    pub next_id: u32,
    pub tick_count: u64,
    pub started: bool,
}

impl SchedView {
    /// Slots fill in order and are never emptied; the task in slot `i` has
    /// id `i + 1`; until the scheduler starts, slot 0 is the current one.
    pub open spec fn wf(self) -> bool {
        &&& self.tasks.len() == MAX_TASKS
        &&& self.current < MAX_TASKS
        &&& !self.started ==> self.current == 0
        &&& 1 <= self.next_id <= MAX_TASKS + 1
        &&& forall|i: int|
            0 <= i < MAX_TASKS ==> ((#[trigger] self.tasks[i]) is Some <==> i < self.next_id - 1)
        &&& forall|i: int|
            0 <= i < MAX_TASKS && (#[trigger] self.tasks[i]) is Some ==> self.tasks[i].unwrap().id.0
                == i + 1
    }

    /// The `k`-th slot visited when looking for a successor of the current
    /// task: the one after it first, wrapping round to the current one last.
    pub open spec fn slot_after(self, k: int) -> int {
        (self.current + 1 + k) % (MAX_TASKS as int)
    }

    /// Slot `i` holds a ready task of the class of rank `c`.
    pub open spec fn ready_in(self, i: int, c: int) -> bool {
        &&& self.tasks[i] is Some
        &&& rank(self.tasks[i].unwrap().priority) == c
        &&& self.tasks[i].unwrap().state == TaskState::Ready
    }

    /// `(c, k)` is the first ready task met when the classes are served in
    /// order and, within a class, slots are visited from the current one on.
    pub open spec fn first_choice(self, c: int, k: int) -> bool {
        &&& 0 <= c < 4
        &&& 0 <= k < MAX_TASKS
        &&& self.ready_in(self.slot_after(k), c)
        &&& forall|c2: int, k2: int|
            0 <= c2 < 4 && 0 <= k2 < MAX_TASKS && (c2 < c || (c2 == c && k2 < k)) ==> !#[trigger] self.ready_in(self.slot_after(k2), c2)
    }

    pub open spec fn any_ready(self) -> bool {
        exists|c: int, k: int| 0 <= c < 4 && 0 <= k < MAX_TASKS && self.ready_in(self.slot_after(k), c)
    }

    /// The slot to run next: the first ready task of the most urgent class
    /// that has one, looking from the slot after the current one; the
    /// current slot when no task is ready.
    pub open spec fn pick(self) -> int {
        if self.any_ready() {
            let (c, k) = choose|c: int, k: int| self.first_choice(c, k);
            self.slot_after(k)
        } else {
            self.current as int
        }
    }

    /// The tasks with the one in slot `i`, if any, put in state `st`.
    pub open spec fn with_state(self, i: int, st: TaskState) -> Seq<Option<Task>> {
        match self.tasks[i] {
            Some(t) => self.tasks.update(i, Some(Task { state: st, ..t })),
            None => self.tasks,
        }
    }

    pub open spec fn spawn(
        self,
        name: &'static str,
        priority: PriorityClass,
        entry: u64,
        stack_tops: Seq<u64>,
    ) -> (SchedView, Option<TaskId>) {
        if self.next_id <= MAX_TASKS {
            let i = self.next_id - 1;
            let t = Task::spec_new(TaskId(self.next_id), name, priority, entry, stack_tops[i]);
            (
                SchedView {
                    tasks: self.tasks.update(i, Some(t)),
                    next_id: (self.next_id + 1) as u32,
                    ..self
                },
                Some(TaskId(self.next_id)),
            )
        } else {
            (self, None)
        }
    }

    pub open spec fn start(self) -> SchedView {
        SchedView { tasks: self.with_state(0, TaskState::Running), started: true, ..self }
    }

    pub open spec fn block_current(self) -> SchedView {
        SchedView { tasks: self.with_state(self.current as int, TaskState::Blocked), ..self }
    }

    /// A blocked task with this id becomes ready; nothing else changes.
    pub open spec fn unblock(self, id: TaskId) -> SchedView {
        if 1 <= id.0 < self.next_id && self.tasks[id.0 - 1].unwrap().state == TaskState::Blocked {
            SchedView { tasks: self.with_state(id.0 - 1, TaskState::Ready), ..self }
        } else {
            self
        }
    }

    /// One timer tick: counts it, charges it to the current task, and, when
    /// another slot is picked, moves the current task from running to ready
    /// and makes the picked one run. The pair of slots to switch between is
    /// returned when both hold a task.
    pub open spec fn on_tick(self) -> (SchedView, Option<(usize, usize)>) {
        let v1 = SchedView { tick_count: (self.tick_count + 1) as u64, ..self };
        if !self.started {
            (v1, None)
        } else {
            let cur = self.current as int;
            let tasks2 = match self.tasks[cur] {
                Some(t) => self.tasks.update(cur, Some(Task { ticks: (t.ticks + 1) as u64, ..t })),
                None => self.tasks,
            };
            let v2 = SchedView { tasks: tasks2, ..v1 };
            let next = v2.pick();
            if next == cur {
                (v2, None)
            } else {
                let tasks3 = if v2.tasks[cur] is Some && v2.tasks[cur].unwrap().state
                    == TaskState::Running {
                    v2.with_state(cur, TaskState::Ready)
                } else {
                    v2.tasks
                };
                let v3 = SchedView { tasks: tasks3, ..v2 };
                let v4 = SchedView {
                    tasks: v3.with_state(next, TaskState::Running),
                    current: next as usize,
                    ..v3
                };
                (
                    v4,
                    if self.tasks[cur] is Some && self.tasks[next] is Some {
                        Some((cur as usize, next as usize))
                    } else {
                        None
                    },
                )
            }
        }
    }

    /// The id of the running task, once the scheduler has started.
    pub open spec fn current_task_id(self) -> Option<TaskId> {
        if !self.started {
            None
        } else {
            match self.tasks[self.current as int] {
                Some(t) => Some(t.id),
                None => None,
            }
        }
    }
}

proof fn lemma_first_choice_unique(v: SchedView, c: int, k: int)
    requires
        v.first_choice(c, k),
    ensures
        v.any_ready(),
        v.pick() == v.slot_after(k),
{
    assert(v.ready_in(v.slot_after(k), c));
    let (c2, k2) = choose|c2: int, k2: int| v.first_choice(c2, k2);
    assert(v.first_choice(c2, k2));
    if c2 < c || (c2 == c && k2 < k) {
        assert(!v.ready_in(v.slot_after(k2), c2));
    } else if c < c2 || (c == c2 && k < k2) {
        assert(!v.ready_in(v.slot_after(k), c));
    }
}

/// The scheduler.
pub struct Sched {
    tasks: Vec<Option<Task>>,
    current: usize,
    next_id: u32,
    tick_count: u64,
    started: bool,
}

impl View for Sched {
    type V = SchedView;

    closed spec fn view(&self) -> SchedView {
        SchedView {
            tasks: self.tasks@,
            current: self.current,
            next_id: self.next_id,
            tick_count: self.tick_count,
            started: self.started,
        }
    }
}

impl Sched {
    pub fn new() -> (s: Sched)
        ensures
            s@.wf(),
            s@.current == 0,
            s@.next_id == 1,
            s@.tick_count == 0,
            !s@.started,
    {
        let mut tasks: Vec<Option<Task>> = Vec::new();
        while tasks.len() < MAX_TASKS
            invariant
                tasks.len() <= MAX_TASKS,
                forall|i: int| 0 <= i < tasks.len() ==> (#[trigger] tasks@[i]) is None,
            decreases MAX_TASKS - tasks.len(),
        {
            tasks.push(None);
        }
        Sched { tasks, current: 0, next_id: 1, tick_count: 0, started: false }
    }

    /// The slot to run next.
    pub fn pick_next(&self) -> (r: usize)
        requires
            self@.wf(),
        ensures
            r == self@.pick(),
            r < MAX_TASKS,
    {
        let classes = [
            PriorityClass::RealTime,
            PriorityClass::Interactive,
            PriorityClass::Productive,
            PriorityClass::Background,
        ];
        let start = (self.current + 1) % MAX_TASKS;
        let mut c: usize = 0;
        while c < 4
            invariant
                self@.wf(),
                start == (self.current + 1) % (MAX_TASKS as int),
                0 <= c <= 4,
                forall|i: int| 0 <= i < 4 ==> rank(#[trigger] classes@[i]) == i,
                forall|c2: int, k2: int|
                    0 <= c2 < c && 0 <= k2 < MAX_TASKS ==> !#[trigger] self@.ready_in(self@.slot_after(k2), c2),
            decreases 4 - c,
        {
            let class = classes[c];
            let mut k: usize = 0;
            while k < MAX_TASKS
                invariant
                    self@.wf(),
                    start == (self.current + 1) % (MAX_TASKS as int),
                    0 <= c < 4,
                    0 <= k <= MAX_TASKS,
                    rank(class) == c,
                    forall|i: int| 0 <= i < 4 ==> rank(#[trigger] classes@[i]) == i,
                    forall|c2: int, k2: int|
                        0 <= c2 < c && 0 <= k2 < MAX_TASKS ==> !#[trigger] self@.ready_in(self@.slot_after(k2), c2),
                    forall|k2: int| 0 <= k2 < k ==> !#[trigger] self@.ready_in(self@.slot_after(k2), c as int),
                decreases MAX_TASKS - k,
            {
                let i = (start + k) % MAX_TASKS;
                assert(i == self@.slot_after(k as int));
                match self.tasks[i] {
                    Some(t) => {
                        if t.priority == class && t.state == TaskState::Ready {
                            proof {
                                assert(self@.first_choice(c as int, k as int));
                                lemma_first_choice_unique(self@, c as int, k as int);
                            }
                            return i;
                        }
                    },
                    None => {},
                }
                k = k + 1;
            }
            c = c + 1;
        }
        self.current
    }
}

impl Sched {
    /// Puts the task in slot `i`, if any, in state `st`.
    fn set_state(&mut self, i: usize, st: TaskState)
        requires
            old(self)@.wf(),
            i < MAX_TASKS,
        ensures
            final(self)@ == (SchedView { tasks: old(self)@.with_state(i as int, st), ..old(self)@ }),
            final(self)@.wf(),
    {
        match self.tasks[i] {
            Some(t) => {
                let ghost v = self@;
                self.tasks.set(i, Some(Task { state: st, ..t }));
                assert(self@ =~= SchedView { tasks: v.with_state(i as int, st), ..v });
            },
            None => {
                assert(self@ =~= SchedView { tasks: self@.with_state(i as int, st), ..self@ });
            },
        }
    }
}

/// Places a new ready task in the first free slot; `stack_tops[i]` is the
/// top of the stack reserved for slot `i`.
pub fn spawn(
    sched: &mut Sched,
    name: &'static str,
    priority: PriorityClass,
    entry: u64,
    stack_tops: &[u64],
) -> (r: Option<TaskId>)
    requires
        old(sched)@.wf(),
        stack_tops@.len() == MAX_TASKS,
    ensures
        final(sched)@.wf(),
        (final(sched)@, r) == old(sched)@.spawn(name, priority, entry, stack_tops@),
{
    let ghost v = sched@;
    let mut i: usize = 0;
    while i < MAX_TASKS
        invariant
            sched@ == v,
            old(sched)@ == v,
            v.wf(),
            stack_tops@.len() == MAX_TASKS,
            0 <= i <= MAX_TASKS,
            forall|j: int| 0 <= j < i ==> (#[trigger] v.tasks[j]) is Some,
        decreases MAX_TASKS - i,
    {
        if sched.tasks[i].is_none() {
            assert(i == v.next_id - 1) by {
                if i > v.next_id - 1 {
                    assert(v.tasks[v.next_id - 1] is Some);
                }
            }
            let stack_top = stack_tops[i];
            let id = TaskId(sched.next_id);
            sched.next_id = sched.next_id + 1;
            sched.tasks.set(i, Some(Task::new(id, name, priority, entry, stack_top)));
            assert(sched@ =~= v.spawn(name, priority, entry, stack_tops@).0);
            return Some(id);
        }
        i = i + 1;
    }
    assert(v.next_id > MAX_TASKS) by {
        if v.next_id <= MAX_TASKS {
            assert(v.tasks[v.next_id - 1] is None);
        }
    }
    None
}

/// Marks the task in slot 0 running and lets the timer switch tasks.
pub fn start(sched: &mut Sched)
    requires
        old(sched)@.wf(),
    ensures
        final(sched)@.wf(),
        final(sched)@ == old(sched)@.start(),
{
    sched.set_state(0, TaskState::Running);
    sched.started = true;
    assert(sched@ =~= old(sched)@.start());
}

/// Timer ticks counted so far.
pub fn tick_count(sched: &Sched) -> (r: u64)
    ensures
        r == sched@.tick_count,
{
    sched.tick_count
}

/// Marks the current task blocked.
pub fn block_current(sched: &mut Sched)
    requires
        old(sched)@.wf(),
    ensures
        final(sched)@.wf(),
        final(sched)@ == old(sched)@.block_current(),
{
    let cur = sched.current;
    sched.set_state(cur, TaskState::Blocked);
}

/// Makes the blocked task `id` ready again.
pub fn unblock(sched: &mut Sched, id: TaskId)
    requires
        old(sched)@.wf(),
    ensures
        final(sched)@.wf(),
        final(sched)@ == old(sched)@.unblock(id),
{
    let ghost v = sched@;
    let mut i: usize = 0;
    while i < MAX_TASKS
        invariant
            sched@ == v,
            old(sched)@ == v,
            v.wf(),
            0 <= i <= MAX_TASKS,
            forall|j: int|
                0 <= j < i && (#[trigger] v.tasks[j]) is Some ==> !(v.tasks[j].unwrap().id == id
                    && v.tasks[j].unwrap().state == TaskState::Blocked),
        decreases MAX_TASKS - i,
    {
        match sched.tasks[i] {
            Some(t) => {
                if t.id == id && t.state == TaskState::Blocked {
                    sched.set_state(i, TaskState::Ready);
                    return;
                }
            },
            None => {},
        }
        i = i + 1;
    }
    proof {
        if 1 <= id.0 < v.next_id {
            assert(v.tasks[id.0 - 1] is Some);
        }
    }
}

/// Whether `on_tick` may be called: neither the tick counter nor the
/// running task's count of ticks may wrap.
pub fn can_tick(sched: &Sched) -> (r: bool)
    requires
        sched@.wf(),
    ensures
        r == (sched@.tick_count < u64::MAX && (sched@.started && sched@.tasks[sched@.current as int] is Some
            ==> sched@.tasks[sched@.current as int].unwrap().ticks < u64::MAX)),
{
    if sched.tick_count == u64::MAX {
        return false;
    }
    if !sched.started {
        return true;
    }
    match sched.tasks[sched.current] {
        Some(t) => t.ticks < u64::MAX,
        None => true,
    }
}

/// Handles one timer tick; returns the slots to switch from and to.
pub fn on_tick(sched: &mut Sched) -> (r: Option<(usize, usize)>)
    requires
        old(sched)@.wf(),
        old(sched)@.tick_count < u64::MAX,
        old(sched)@.started && old(sched)@.tasks[old(sched)@.current as int] is Some ==> old(
            sched,
        )@.tasks[old(sched)@.current as int].unwrap().ticks < u64::MAX,
    ensures
        final(sched)@.wf(),
        (final(sched)@, r) == old(sched)@.on_tick(),
{
    let ghost v = sched@;
    sched.tick_count = sched.tick_count + 1;
    if !sched.started {
        assert(sched@ =~= v.on_tick().0);
        return None;
    }
    let cur = sched.current;
    match sched.tasks[cur] {
        Some(t) => {
            sched.tasks.set(cur, Some(Task { ticks: t.ticks + 1, ..t }));
        },
        None => {},
    }
    let ghost v2 = sched@;
    let next = sched.pick_next();
    if next == cur {
        assert(sched@ =~= v.on_tick().0);
        return None;
    }
    match sched.tasks[cur] {
        Some(t) => {
            if t.state == TaskState::Running {
                sched.set_state(cur, TaskState::Ready);
            }
        },
        None => {},
    }
    sched.set_state(next, TaskState::Running);
    sched.current = next;
    assert(sched@ =~= v.on_tick().0);
    if sched.tasks[cur].is_none() || sched.tasks[next].is_none() {
        return None;
    }
    Some((cur, next))
}

/// The id of the running task, once the scheduler has started.
pub fn current_task_id(sched: &Sched) -> (r: Option<TaskId>)
    requires
        sched@.wf(),
    ensures
        r == sched@.current_task_id(),
{
    if !sched.started {
        return None;
    }
    match sched.tasks[sched.current] {
        Some(t) => Some(t.id),
        None => None,
    }
}

proof fn lemma_slot_reached(v: SchedView, j: int)
    requires
        v.wf(),
        0 <= j < MAX_TASKS,
    ensures
        ({
            let k = (j - v.current - 1 + 32) % 16;
            0 <= k < MAX_TASKS && v.slot_after(k) == j
        }),
{
}

/// The scheduler always picks a ready task of the most urgent class that
/// has one; only when no task is ready does it stay on the current slot.
pub proof fn lemma_pick_most_urgent(v: SchedView)
    requires
        v.wf(),
    ensures
        0 <= v.pick() < MAX_TASKS,
        v.any_ready() ==> {
            &&& v.tasks[v.pick()] is Some
            &&& v.tasks[v.pick()].unwrap().state == TaskState::Ready
            &&& forall|j: int|
                0 <= j < MAX_TASKS && (#[trigger] v.tasks[j]) is Some && v.tasks[j].unwrap().state
                    == TaskState::Ready ==> rank(v.tasks[v.pick()].unwrap().priority) <= rank(
                    v.tasks[j].unwrap().priority,
                )
        },
        !v.any_ready() ==> v.pick() == v.current && forall|j: int|
            0 <= j < MAX_TASKS && (#[trigger] v.tasks[j]) is Some ==> v.tasks[j].unwrap().state
                != TaskState::Ready,
{
    if v.any_ready() {
        let (c, k) = choose|c: int, k: int| v.first_choice(c, k);
        let w = choose|c: int, k: int|
            0 <= c < 4 && 0 <= k < MAX_TASKS && v.ready_in(v.slot_after(k), c);
        lemma_min_choice_exists(v, w.0, w.1);
        assert(v.first_choice(c, k));
        assert forall|j: int|
            0 <= j < MAX_TASKS && (#[trigger] v.tasks[j]) is Some && v.tasks[j].unwrap().state
                == TaskState::Ready implies rank(v.tasks[v.pick()].unwrap().priority) <= rank(
            v.tasks[j].unwrap().priority,
        ) by {
            lemma_slot_reached(v, j);
            let kj = (j - v.current - 1 + 32) % 16;
            let cj = rank(v.tasks[j].unwrap().priority);
            assert(v.ready_in(v.slot_after(kj), cj));
            if cj < c {
                assert(!v.ready_in(v.slot_after(kj), cj));
            }
        }
    } else {
        assert forall|j: int|
            0 <= j < MAX_TASKS && (#[trigger] v.tasks[j]) is Some implies v.tasks[j].unwrap().state
            != TaskState::Ready by {
            lemma_slot_reached(v, j);
            let kj = (j - v.current - 1 + 32) % 16;
            let cj = rank(v.tasks[j].unwrap().priority);
            if v.tasks[j].unwrap().state == TaskState::Ready {
                assert(v.ready_in(v.slot_after(kj), cj));
            }
        }
    }
}

proof fn lemma_min_choice_from(v: SchedView, c: int, k: int, c0: int, k0: int)
    requires
        0 <= c <= c0 < 4,
        0 <= k < MAX_TASKS,
        0 <= k0 < MAX_TASKS,
        c == c0 ==> k <= k0,
        v.ready_in(v.slot_after(k0), c0),
        forall|c2: int, k2: int|
            0 <= c2 < 4 && 0 <= k2 < MAX_TASKS && (c2 < c || (c2 == c && k2 < k)) ==> !#[trigger] v.ready_in(v.slot_after(k2), c2),
    ensures
        exists|c1: int, k1: int| v.first_choice(c1, k1),
    decreases c0 - c, MAX_TASKS - k,
{
    if v.ready_in(v.slot_after(k), c) {
        assert(v.first_choice(c, k));
    } else if k + 1 < MAX_TASKS {
        lemma_min_choice_from(v, c, k + 1, c0, k0);
    } else {
        lemma_min_choice_from(v, c + 1, 0, c0, k0);
    }
}

proof fn lemma_min_choice_exists(v: SchedView, c0: int, k0: int)
    requires
        0 <= c0 < 4,
        0 <= k0 < MAX_TASKS,
        v.ready_in(v.slot_after(k0), c0),
    ensures
        exists|c1: int, k1: int| v.first_choice(c1, k1),
{
    lemma_min_choice_from(v, 0, 0, c0, k0);
}

/// A tick is always counted. When it switches tasks, the task switched to
/// was ready and is now the running, current one, and the one switched from
/// is no longer running.
pub proof fn lemma_tick_switches_to_ready(v: SchedView)
    requires
        v.wf(),
        v.tick_count < u64::MAX,
    ensures
        v.on_tick().0.tick_count == v.tick_count + 1,
        v.on_tick().1 matches Some((from, to)) ==> {
            &&& from == v.current
            &&& to != from
            &&& v.tasks[to as int].unwrap().state == TaskState::Ready
            &&& v.on_tick().0.current == to
            &&& v.on_tick().0.tasks[to as int].unwrap().state == TaskState::Running
            &&& v.on_tick().0.tasks[from as int].unwrap().state != TaskState::Running
        },
        v.on_tick().1 is None && v.on_tick().0.current != v.current ==> v.started,
{
    if v.started && v.on_tick().1 is Some {
        let cur = v.current as int;
        let tasks2 = match v.tasks[cur] {
            Some(t) => v.tasks.update(cur, Some(Task { ticks: (t.ticks + 1) as u64, ..t })),
            None => v.tasks,
        };
        let v2 = SchedView { tasks: tasks2, tick_count: (v.tick_count + 1) as u64, ..v };
        assert(v2.wf());
        lemma_pick_most_urgent(v2);
        let next = v2.pick();
        assert(v2.any_ready()) by {
            if !v2.any_ready() {
                assert(v2.pick() == v2.current);
            }
        }
        assert(v2.tasks[next].unwrap().state == v.tasks[next].unwrap().state);
    }
}

/// Blocking the running task and then unblocking it by its id makes it
/// ready again, leaving every other slot as it was.
pub proof fn lemma_block_then_unblock(v: SchedView, j: int)
    requires
        v.wf(),
        v.tasks[v.current as int] is Some,
        0 <= j < MAX_TASKS,
    ensures
        ({
            let id = v.tasks[v.current as int].unwrap().id;
            let w = v.block_current().unblock(id);
            &&& w.tasks[v.current as int].unwrap().state == TaskState::Ready
            &&& j != v.current ==> w.tasks[j] == v.tasks[j]
        }),
{
}

/// Starting the scheduler runs the task in slot 0, the first one spawned,
/// and makes it the current task.
pub proof fn lemma_start_runs_first(v: SchedView)
    requires
        v.wf(),
        !v.started,
        v.next_id > 1,
    ensures
        v.start().wf(),
        v.start().current == 0,
        v.start().current_task_id() == Some(TaskId(1)),
        v.start().tasks[0].unwrap().state == TaskState::Running,
{
    assert(v.tasks[0] is Some);
}

/// A tick changes task states only by switching: the running task it
/// switches away from becomes ready again, the task it switches to runs,
/// and every other task keeps its state. In particular a tick never blocks
/// a task; only `block_current` does.
pub proof fn lemma_tick_preempts_to_ready(v: SchedView, i: int)
    requires
        v.wf(),
        0 <= i < MAX_TASKS,
    ensures
        ({
            let w = v.on_tick().0;
            &&& w.tasks[i] is Some == v.tasks[i] is Some
            &&& w.current != v.current && i == v.current && v.tasks[i] is Some && v.tasks[i].unwrap().state
                == TaskState::Running ==> w.tasks[i].unwrap().state == TaskState::Ready
            &&& i != v.current && i != w.current && v.tasks[i] is Some ==> w.tasks[i].unwrap().state
                == v.tasks[i].unwrap().state
            &&& w.tasks[i] is Some && w.tasks[i].unwrap().state == TaskState::Blocked ==> v.tasks[i].unwrap().state
                == TaskState::Blocked
        }),
{
    if v.started {
        let cur = v.current as int;
        let tasks2 = match v.tasks[cur] {
            Some(t) => v.tasks.update(cur, Some(Task { ticks: (t.ticks + 1) as u64, ..t })),
            None => v.tasks,
        };
        let v2 = SchedView { tasks: tasks2, tick_count: (v.tick_count + 1) as u64, ..v };
        assert(v2.wf());
        lemma_pick_most_urgent(v2);
        assert(v2.tasks[i] is Some == v.tasks[i] is Some);
        assert(v2.tasks[i] is Some ==> v2.tasks[i].unwrap().state == v.tasks[i].unwrap().state);
    }
}

} // verus!

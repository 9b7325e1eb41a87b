//! A table of at most eight cooperative tasks run round robin.
use vstd::prelude::*;

verus! {

/// Number of task slots.
pub const MAX_TASKS: usize = 8;

/// A task slot: its name, how many times it has run, and whether it is in use.
pub struct Task {
    pub name: &'static str,
    pub runs: usize,
    pub active: bool,
}

impl Task {
    /// An unused slot.
    pub fn empty() -> (task: Self)
        ensures
            task.name@ == ""@,
            task.runs == 0,
            !task.active,
    {
        Task { name: "", runs: 0, active: false }
    }
}

/// The task slots, the number of registered tasks, and the position the round robin
/// resumes from.
pub struct TaskTable {
    tasks: Vec<Task>,
    task_count: usize,
    current_index: usize,
}

/// The name and run count of each active task among the first `n` slots, in slot
/// order.
pub open spec fn active_entries(tasks: Seq<Task>, n: nat) -> Seq<(&'static str, usize)>
    decreases n,
{
    if n == 0 {
        Seq::empty()
    } else {
        let rest = active_entries(tasks, (n - 1) as nat);
        let t = tasks[n - 1];
        if t.active {
            rest.push((t.name, t.runs))
        } else {
            rest
        }
    }
}

impl TaskTable {
    pub closed spec fn slots(self) -> Seq<Task> {
        self.tasks@
    }

    pub closed spec fn count(self) -> nat {
        self.task_count as nat
    }

    pub closed spec fn cursor(self) -> nat {
        self.current_index as nat
    }

    /// The table's invariant: eight slots, at most eight registered tasks, and the
    /// round robin resumes from a registered slot, or from the first one.
    pub open spec fn wf(self) -> bool {
        &&& self.slots().len() == MAX_TASKS
        &&& self.count() <= MAX_TASKS
        &&& (self.cursor() == 0 || self.cursor() < self.count())
    }

    /// The number of registered tasks.
    pub fn task_count(&self) -> (count: usize)
        ensures
            count == self.count(),
    {
        self.task_count
    }

    /// Whether the next round-robin step can count its run: the table is empty, or
    /// the run count of the slot it picks is below `usize::MAX`.
    pub fn can_step(&self) -> (ok: bool)
        requires
            self.wf(),
        ensures
            ok == (self.count() == 0 || self.slots()[(self.cursor() % self.count()) as int].runs
                < usize::MAX),
    {
        if self.task_count == 0 {
            return true;
        }
        let index = self.current_index % self.task_count;
        self.tasks[index].runs < usize::MAX
    }

    /// A table of unused slots.
    pub fn new() -> (table: Self)
        ensures
            table.wf(),
            table.count() == 0,
            table.cursor() == 0,
            forall|i: int|
                0 <= i < MAX_TASKS ==> !(#[trigger] table.slots()[i]).active && table.slots()[i].runs
                    == 0 && table.slots()[i].name@ == ""@,
    {
        let mut tasks: Vec<Task> = Vec::new();
        let mut k: usize = 0;
        while k < MAX_TASKS
            invariant
                k <= MAX_TASKS,
                tasks@.len() == k,
                forall|i: int|
                    0 <= i < k ==> !(#[trigger] tasks@[i]).active && tasks@[i].runs == 0
                        && tasks@[i].name@ == ""@,
            decreases MAX_TASKS - k,
        {
            tasks.push(Task::empty());
            k += 1;
        }
        TaskTable { tasks, task_count: 0, current_index: 0 }
    }
}

/// Registers a task named `name` in the next free slot; fails when all slots are
/// taken.
pub fn register_task(table: &mut TaskTable, name: &'static str) -> (registered: bool)
    requires
        old(table).wf(),
    ensures
        final(table).wf(),
        final(table).cursor() == old(table).cursor(),
        registered == (old(table).count() < MAX_TASKS),
        registered ==> final(table).count() == old(table).count() + 1 && final(table).slots()
            == old(table).slots().update(
            old(table).count() as int,
            Task { name, runs: 0, active: true },
        ),
        !registered ==> *final(table) == *old(table),
{
    if table.task_count >= MAX_TASKS {
        return false;
    }
    let slot = table.task_count;
    table.tasks.set(slot, Task { name, runs: 0, active: true });
    table.task_count = table.task_count + 1;
    true
}

/// Empties the table and registers the idle task and the demo task.
pub fn init(table: &mut TaskTable)
    requires
        old(table).wf(),
    ensures
        final(table).wf(),
        final(table).count() == 2,
        final(table).cursor() == 0,
        final(table).slots()[0].name@ == "idle"@,
        final(table).slots()[1].name@ == "demo"@,
        forall|i: int| 0 <= i < 2 ==> (#[trigger] final(table).slots()[i]).active && final(table).slots()[i].runs == 0,
        forall|i: int|
            2 <= i < MAX_TASKS ==> !(#[trigger] final(table).slots()[i]).active
                && final(table).slots()[i].runs == 0 && final(table).slots()[i].name@ == ""@,
{
    table.task_count = 0;
    table.current_index = 0;
    let mut k: usize = 0;
    while k < MAX_TASKS
        invariant
            k <= MAX_TASKS,
            table.tasks@.len() == MAX_TASKS,
            table.task_count == 0,
            table.current_index == 0,
            forall|i: int|
                0 <= i < k ==> !(#[trigger] table.tasks@[i]).active && table.tasks@[i].runs == 0
                    && table.tasks@[i].name@ == ""@,
        decreases MAX_TASKS - k,
    {
        table.tasks.set(k, Task::empty());
        k += 1;
    }
    let _ = register_task(table, "idle");
    let _ = register_task(table, "demo");
}

/// Runs one round-robin step: picks the slot after the one picked last (modulo the
/// number of tasks); when that task is active its run count goes up by one and its
/// slot is returned so that it can be run.
pub fn run_scheduler_once(table: &mut TaskTable) -> (picked: Option<usize>)
    requires
        old(table).wf(),
        old(table).count() > 0 ==> old(table).slots()[(old(table).cursor() % old(table).count()) as int].runs
            < usize::MAX,
    ensures
        final(table).wf(),
        final(table).count() == old(table).count(),
        final(table).slots() == step_slots(old(table).slots(), old(table).count(), old(table).cursor()),
        old(table).count() > 0 ==> final(table).cursor() == cursor_after(
            old(table).count(),
            old(table).cursor(),
            1,
        ),
        old(table).count() == 0 ==> picked is None && *final(table) == *old(table),
        old(table).count() > 0 ==> {
            let i = (old(table).cursor() % old(table).count()) as int;
            let t = old(table).slots()[i];
            &&& final(table).cursor() == (i + 1) % (old(table).count() as int)
            &&& t.active ==> picked == Some(i as usize) && final(table).slots() == old(
                table,
            ).slots().update(i, Task { name: t.name, runs: (t.runs + 1) as usize, active: true })
            &&& !t.active ==> picked is None && final(table).slots() == old(table).slots()
        },
{
    if table.task_count == 0 {
        return None;
    }
    let index = table.current_index % table.task_count;
    proof {
        assert(cursor_after(old(table).count(), old(table).cursor(), 0) == old(table).cursor());
    }
    table.current_index = (index + 1) % table.task_count;
    let name = table.tasks[index].name;
    let runs = table.tasks[index].runs;
    if table.tasks[index].active {
        table.tasks.set(index, Task { name, runs: runs + 1, active: true });
        Some(index)
    } else {
        None
    }
}

/// The name and run count of every active registered task, in slot order.
pub fn dump_status(table: &TaskTable) -> (entries: Vec<(&'static str, usize)>)
    requires
        table.wf(),
    ensures
        entries@ == active_entries(table.slots(), table.count()),
{
    let mut entries: Vec<(&'static str, usize)> = Vec::new();
    let mut i: usize = 0;
    while i < table.task_count
        invariant
            table.wf(),
            i <= table.count(),
            entries@ == active_entries(table.slots(), i as nat),
        decreases table.count() - i,
    {
        if table.tasks[i].active {
            entries.push((table.tasks[i].name, table.tasks[i].runs));
        }
        i += 1;
    }
    entries
}

/// One step of the demo task's counter: the tick after `tick`, and whether that tick
/// is reported (every sixteenth).
pub fn demo_tick(tick: usize) -> (step: (usize, bool))
    requires
        tick < usize::MAX,
    ensures
        step.0 == tick + 1,
        step.1 == ((tick + 1) % 16 == 0),
{
    let next = tick + 1;
    (next, next % 16 == 0)
}

/// Where the round robin resumes after `k` steps over `n` tasks from `cursor`: each
/// step picks the slot `cursor % n` and moves the cursor to the slot after it.
pub open spec fn cursor_after(n: nat, cursor: nat, k: nat) -> nat
    decreases k,
{
    if k == 0 {
        cursor
    } else {
        ((cursor_after(n, cursor, (k - 1) as nat) % n + 1) % n) as nat
    }
}

/// The slots after one round-robin step over `n` tasks from `cursor`: the task in
/// the slot `cursor % n` runs once more when it is active.
pub open spec fn step_slots(slots: Seq<Task>, n: nat, cursor: nat) -> Seq<Task> {
    if n == 0 {
        slots
    } else {
        let i = (cursor % n) as int;
        let t = slots[i];
        if t.active {
            slots.update(i, Task { name: t.name, runs: (t.runs + 1) as usize, active: true })
        } else {
            slots
        }
    }
}

/// The slots after `k` round-robin steps over `n` tasks from `cursor`.
pub open spec fn run_slots(slots: Seq<Task>, n: nat, cursor: nat, k: nat) -> Seq<Task>
    decreases k,
{
    if k == 0 {
        slots
    } else {
        let prev = (k - 1) as nat;
        step_slots(run_slots(slots, n, cursor, prev), n, cursor_after(n, cursor, prev))
    }
}

/// Step `k` of the round robin over `n` tasks from a cursor below `n` picks slot
/// `(cursor + k) % n`.
pub proof fn lemma_round_robin(n: nat, cursor: nat, k: nat)
    requires
        n > 0,
        cursor < n,
    ensures
        cursor_after(n, cursor, k) == (cursor + k) % n,
    decreases k,
{
    if k == 0 {
        vstd::arithmetic::div_mod::lemma_small_mod(cursor, n);
    } else {
        lemma_round_robin(n, cursor, (k - 1) as nat);
        let prev = cursor_after(n, cursor, (k - 1) as nat);
        vstd::arithmetic::div_mod::lemma_small_mod(prev, n);
        vstd::arithmetic::div_mod::lemma_add_mod_noop((cursor + k - 1) as int, 1, n as int);
        if n > 1 {
            vstd::arithmetic::div_mod::lemma_small_mod(1, n);
        } else {
            assert(1nat % 1nat == 0);
        }
        assert(prev % n == prev);
        let a = (cursor + k - 1) as int;
        assert(prev as int == a % (n as int));
        assert(((a % (n as int)) + (1int % (n as int))) % (n as int) == (a + 1) % (n as int));
        assert((prev as int + 1) % (n as int) == (a + 1) % (n as int));
        assert(cursor_after(n, cursor, k) == ((prev % n + 1) % n) as nat);
    }
}

/// The round robin is fair: within any `n` consecutive steps over `n` tasks every
/// slot is picked.
pub proof fn lemma_round_robin_fair(n: nat, cursor: nat, slot: nat)
    requires
        n > 0,
        cursor < n,
        slot < n,
    ensures
        exists|j: nat| j < n && #[trigger] cursor_after(n, cursor, j) == slot,
{
    let j: nat = if slot >= cursor {
        (slot - cursor) as nat
    } else {
        (slot + n - cursor) as nat
    };
    lemma_round_robin(n, cursor, j);
    if slot >= cursor {
        vstd::arithmetic::div_mod::lemma_small_mod(slot, n);
    } else {
        vstd::arithmetic::div_mod::lemma_mod_add_multiples_vanish(slot as int, n as int);
        vstd::arithmetic::div_mod::lemma_small_mod(slot, n);
    }
    assert(cursor_after(n, cursor, j) == slot);
}

/// The step, among the first `n` of a round robin over `n` tasks from `cursor`, that
/// picks slot `i`.
spec fn pick_step(n: nat, cursor: nat, i: nat) -> nat {
    if i >= cursor {
        (i - cursor) as nat
    } else {
        (i + n - cursor) as nat
    }
}

proof fn lemma_pick(n: nat, cursor: nat, k: nat)
    requires
        n > 0,
        cursor < n,
        k < n,
    ensures
        cursor_after(n, cursor, k) == if cursor + k < n {
            cursor + k
        } else {
            (cursor + k - n) as nat
        },
        cursor_after(n, cursor, k) < n,
        pick_step(n, cursor, cursor_after(n, cursor, k)) == k,
{
    lemma_round_robin(n, cursor, k);
    if cursor + k < n {
        vstd::arithmetic::div_mod::lemma_small_mod(cursor + k, n);
    } else {
        vstd::arithmetic::div_mod::lemma_mod_add_multiples_vanish((cursor + k - n) as int, n as int);
        vstd::arithmetic::div_mod::lemma_small_mod((cursor + k - n) as nat, n);
    }
}

/// Within any `n` consecutive steps of the round robin over `n` tasks, no slot is
/// picked twice; with [`lemma_round_robin_fair`], each slot is picked exactly once.
pub proof fn lemma_round_robin_once(n: nat, cursor: nat, j1: nat, j2: nat)
    requires
        n > 0,
        cursor < n,
        j1 < n,
        j2 < n,
        cursor_after(n, cursor, j1) == cursor_after(n, cursor, j2),
    ensures
        j1 == j2,
{
    lemma_pick(n, cursor, j1);
    lemma_pick(n, cursor, j2);
}

proof fn lemma_partial_round(slots: Seq<Task>, n: nat, cursor: nat, k: nat)
    requires
        n > 0,
        n <= slots.len(),
        cursor < n,
        k <= n,
        forall|i: int| 0 <= i < n ==> #[trigger] slots[i].runs < usize::MAX,
    ensures
        run_slots(slots, n, cursor, k).len() == slots.len(),
        forall|i: int|
            0 <= i < slots.len() ==> {
                let t = #[trigger] run_slots(slots, n, cursor, k)[i];
                &&& t.name == slots[i].name
                &&& t.active == slots[i].active
                &&& t.runs == if i < n && slots[i].active && pick_step(n, cursor, i as nat) < k {
                    slots[i].runs + 1
                } else {
                    slots[i].runs as int
                }
            },
    decreases k,
{
    if k > 0 {
        let prev = (k - 1) as nat;
        lemma_partial_round(slots, n, cursor, prev);
        lemma_pick(n, cursor, prev);
        let r = run_slots(slots, n, cursor, prev);
        let p = cursor_after(n, cursor, prev);
        vstd::arithmetic::div_mod::lemma_small_mod(p, n);
        assert(run_slots(slots, n, cursor, k) == step_slots(r, n, p));
        assert forall|i: int| 0 <= i < slots.len() implies {
            let t = #[trigger] run_slots(slots, n, cursor, k)[i];
            &&& t.name == slots[i].name
            &&& t.active == slots[i].active
            &&& t.runs == if i < n && slots[i].active && pick_step(n, cursor, i as nat) < k {
                slots[i].runs + 1
            } else {
                slots[i].runs as int
            }
        } by {
            assert(r[i].name == slots[i].name);
            if i < n {
                assert(slots[i].runs < usize::MAX);
            }
            if i != p as int && i < n {
                assert(pick_step(n, cursor, i as nat) != prev);
            }
        }
    }
}

/// Running `a` round-robin steps and then `b` more from where they left off is
/// running `a + b` steps.
pub proof fn lemma_run_split(slots: Seq<Task>, n: nat, cursor: nat, a: nat, b: nat)
    ensures
        run_slots(slots, n, cursor, a + b) == run_slots(
            run_slots(slots, n, cursor, a),
            n,
            cursor_after(n, cursor, a),
            b,
        ),
        cursor_after(n, cursor, a + b) == cursor_after(n, cursor_after(n, cursor, a), b),
    decreases b,
{
    if b > 0 {
        lemma_run_split(slots, n, cursor, a, (b - 1) as nat);
        assert((a + b - 1) as nat == a + (b - 1) as nat);
    }
}

/// Each round of `n` round-robin steps over `n` tasks, from a cursor below `n`,
/// runs every active task among them exactly once: after `q` rounds each such
/// task has run `q` more times, the other slots are as they were, and the round
/// robin resumes where it started.
pub proof fn lemma_round_robin_runs(slots: Seq<Task>, n: nat, cursor: nat, q: nat)
    requires
        n > 0,
        n <= slots.len(),
        cursor < n,
        forall|i: int| 0 <= i < n ==> #[trigger] slots[i].runs + q <= usize::MAX,
    ensures
        cursor_after(n, cursor, q * n) == cursor,
        run_slots(slots, n, cursor, q * n).len() == slots.len(),
        forall|i: int|
            0 <= i < slots.len() ==> {
                let t = #[trigger] run_slots(slots, n, cursor, q * n)[i];
                &&& t.name == slots[i].name
                &&& t.active == slots[i].active
                &&& t.runs == if i < n && slots[i].active {
                    slots[i].runs + q
                } else {
                    slots[i].runs as int
                }
            },
    decreases q,
{
    if q == 0 {
        assert(q * n == 0) by (nonlinear_arith)
            requires
                q == 0,
        ;
    } else {
        let q1 = (q - 1) as nat;
        lemma_round_robin_runs(slots, n, cursor, q1);
        assert(q * n == q1 * n + n) by (nonlinear_arith)
            requires
                q1 == q - 1,
        ;
        let r = run_slots(slots, n, cursor, q1 * n);
        lemma_run_split(slots, n, cursor, q1 * n, n);
        lemma_round_robin(n, cursor, n);
        vstd::arithmetic::div_mod::lemma_mod_add_multiples_vanish(cursor as int, n as int);
        vstd::arithmetic::div_mod::lemma_small_mod(cursor, n);
        assert forall|i: int| 0 <= i < n implies #[trigger] r[i].runs < usize::MAX by {
            assert(slots[i].runs + q <= usize::MAX);
        }
        lemma_partial_round(r, n, cursor, n);
        assert forall|i: int| 0 <= i < slots.len() implies {
            let t = #[trigger] run_slots(slots, n, cursor, q * n)[i];
            &&& t.name == slots[i].name
            &&& t.active == slots[i].active
            &&& t.runs == if i < n && slots[i].active {
                slots[i].runs + q
            } else {
                slots[i].runs as int
            }
        } by {
            assert(r[i] == run_slots(slots, n, cursor, q1 * n)[i]);
            assert(run_slots(r, n, cursor, n)[i].runs == run_slots(slots, n, cursor, q * n)[i].runs);
        }
    }
}

/// After the table is set up with the idle and the demo task, `2 * m` round-robin
/// steps have run each of the two tasks `m` times.
pub proof fn lemma_idle_and_demo_share(slots: Seq<Task>, m: nat)
    requires
        slots.len() == MAX_TASKS,
        forall|i: int| 0 <= i < 2 ==> (#[trigger] slots[i]).active && slots[i].runs == 0,
        m <= usize::MAX,
    ensures
        run_slots(slots, 2, 0, 2 * m)[0].runs == m,
        run_slots(slots, 2, 0, 2 * m)[1].runs == m,
{
    assert(slots[0].active && slots[1].active);
    lemma_round_robin_runs(slots, 2, 0, m);
    assert(m * 2 == 2 * m);
    assert(run_slots(slots, 2, 0, m * 2)[0].runs == m);
    assert(run_slots(slots, 2, 0, m * 2)[1].runs == m);
}

} // verus!

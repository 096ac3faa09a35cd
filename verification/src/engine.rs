//! The bounded-concurrency scheduler state machine.
//!
//! The engine holds the authoritative record of a run: one phase per task,
//! the number of concurrency permits in use, and the failure set. A host
//! harness performs the actual spawning and waiting and reports each
//! lifecycle event back; every decision and every record is made here.

use vstd::prelude::*;

verus! {

/// The lifecycle state of one task.
#[derive(Clone, Copy, Debug, PartialEq, Eq, Structural)]
pub enum TaskPhase {
    /// Not yet reached by the scheduler.
    Queued,
    /// Reached in list order; waiting for a concurrency permit.
    AwaitingPermit,
    /// Holds a permit; the interpreter process is being launched.
    Spawning,
    /// Holds a permit; the process is live and has not yet exited.
    Running,
    /// The process exited with a success status.
    Succeeded,
    /// The process exited with a non-success status, or its completion
    /// could not be observed.
    Failed,
    /// The interpreter could not be launched at all, or a sink file could
    /// not be created.
    SpawnError,
}

/// Whether a task in phase `p` holds a concurrency permit: from just before
/// the spawn until the process has exited.
pub open spec fn holds_permit(p: TaskPhase) -> bool {
    p is Spawning || p is Running
}

/// Whether phase `p` is terminal.
pub open spec fn is_terminal(p: TaskPhase) -> bool {
    p is Succeeded || p is Failed || p is SpawnError
}

/// Whether phase `p` counts the task into the failure set.
pub open spec fn is_failed_phase(p: TaskPhase) -> bool {
    p is Failed || p is SpawnError
}

/// Whether phase `p` is terminal, as executable code.
pub fn phase_is_terminal(p: TaskPhase) -> (b: bool)
    ensures
        b == is_terminal(p),
{
    match p {
        TaskPhase::Succeeded => true,
        TaskPhase::Failed => true,
        TaskPhase::SpawnError => true,
        _ => false,
    }
}

/// Whether phase `p` counts as failed, as executable code.
pub fn phase_is_failed(p: TaskPhase) -> (b: bool)
    ensures
        b == is_failed_phase(p),
{
    match p {
        TaskPhase::Failed => true,
        TaskPhase::SpawnError => true,
        _ => false,
    }
}

/// The number of tasks in `s` that hold a permit: the count of processes
/// spawned and not yet exited.
pub open spec fn in_flight_count(s: Seq<TaskPhase>) -> nat
    decreases s.len(),
{
    if s.len() == 0 {
        0
    } else {
        in_flight_count(s.drop_last()) + (if holds_permit(s.last()) {
            1nat
        } else {
            0nat
        })
    }
}

proof fn lemma_in_flight_push(s: Seq<TaskPhase>, p: TaskPhase)
    ensures
        in_flight_count(s.push(p)) == in_flight_count(s) + (if holds_permit(p) {
            1nat
        } else {
            0nat
        }),
{
    assert(s.push(p).drop_last() =~= s);
    assert(s.push(p).last() == p);
}

proof fn lemma_in_flight_update(s: Seq<TaskPhase>, i: int, p: TaskPhase)
    requires
        0 <= i < s.len(),
    ensures
        in_flight_count(s.update(i, p)) == in_flight_count(s) - (if holds_permit(s[i]) {
            1int
        } else {
            0int
        }) + (if holds_permit(p) {
            1int
        } else {
            0int
        }),
    decreases s.len(),
{
    let t = s.update(i, p);
    if i == s.len() - 1 {
        assert(t.drop_last() =~= s.drop_last());
        assert(t.last() == p);
    } else {
        assert(t.drop_last() =~= s.drop_last().update(i, p));
        assert(t.last() == s.last());
        lemma_in_flight_update(s.drop_last(), i, p);
        assert(s.drop_last()[i] == s[i]);
    }
}

/// The ordinals below `n` whose phase counts as failed, in ascending order.
pub open spec fn failed_ordinals_below(s: Seq<TaskPhase>, n: int) -> Seq<usize>
    decreases n,
{
    if n <= 0 {
        Seq::empty()
    } else if is_failed_phase(s[n - 1]) {
        failed_ordinals_below(s, n - 1).push((n - 1) as usize)
    } else {
        failed_ordinals_below(s, n - 1)
    }
}

/// The final failure report of a run: every failed ordinal, in ascending
/// order.
pub open spec fn failed_report(s: Seq<TaskPhase>) -> Seq<usize> {
    failed_ordinals_below(s, s.len() as int)
}

/// What the failure report contains: exactly the ordinals whose phase
/// counts as failed, each once, in strictly ascending order; and it is
/// empty exactly when no task failed.
pub proof fn lemma_failed_report_members(s: Seq<TaskPhase>, n: int)
    requires
        0 <= n <= s.len(),
        n <= usize::MAX,
    ensures
        forall|o: usize|
            #[trigger] failed_ordinals_below(s, n).contains(o) <==> (o as int) < n
                && is_failed_phase(s[o as int]),
        forall|k1: int, k2: int|
            0 <= k1 < k2 < failed_ordinals_below(s, n).len() ==> failed_ordinals_below(s, n)[k1]
                < failed_ordinals_below(s, n)[k2],
        failed_ordinals_below(s, n).len() == 0 <==> (forall|q: int|
            0 <= q < n ==> !is_failed_phase(s[q])),
    decreases n,
{
    if n > 0 {
        lemma_failed_report_members(s, n - 1);
        let pre = failed_ordinals_below(s, n - 1);
        let cur = failed_ordinals_below(s, n);
        if is_failed_phase(s[n - 1]) {
            assert(cur == pre.push((n - 1) as usize));
            assert forall|o: usize| #[trigger] cur.contains(o) implies (o as int) < n
                && is_failed_phase(s[o as int]) by {
                let idx = choose|idx: int| 0 <= idx < cur.len() && cur[idx] == o;
                if idx < pre.len() {
                    assert(pre[idx] == o);
                    assert(pre.contains(o));
                }
            }
            assert forall|o: usize| (o as int) < n && is_failed_phase(s[o as int]) implies #[trigger] cur.contains(
                o,
            ) by {
                if (o as int) < n - 1 {
                    assert(pre.contains(o));
                    let idx = choose|idx: int| 0 <= idx < pre.len() && pre[idx] == o;
                    assert(cur[idx] == o);
                } else {
                    assert(cur[pre.len() as int] == o);
                }
            }
            assert forall|k1: int, k2: int| 0 <= k1 < k2 < cur.len() implies cur[k1] < cur[k2] by {
                assert(cur[k1] == pre[k1]);
                if k2 == cur.len() - 1 {
                    assert(pre.contains(pre[k1]));
                    assert((pre[k1] as int) < n - 1);
                } else {
                    assert(cur[k2] == pre[k2]);
                }
            }
            assert(cur.len() > 0);
            assert(is_failed_phase(s[n - 1]));
        } else {
            assert(cur == pre);
        }
    }
}

proof fn lemma_failed_below_congruence(a: Seq<TaskPhase>, b: Seq<TaskPhase>, n: int)
    requires
        n <= a.len(),
        n <= b.len(),
        forall|i: int| 0 <= i < n ==> (is_failed_phase(a[i]) <==> is_failed_phase(b[i])),
    ensures
        failed_ordinals_below(a, n) == failed_ordinals_below(b, n),
    decreases n,
{
    if n > 0 {
        lemma_failed_below_congruence(a, b, n - 1);
    }
}

/// The failure report depends only on which tasks failed: two runs over the
/// same number of tasks whose tasks classify identically — whatever the
/// destination directories or the interleavings that led to them — produce
/// identical reports.
pub proof fn lemma_report_depends_only_on_outcomes(a: Seq<TaskPhase>, b: Seq<TaskPhase>)
    requires
        a.len() == b.len(),
        forall|i: int| 0 <= i < a.len() ==> (is_failed_phase(a[i]) <==> is_failed_phase(b[i])),
    ensures
        failed_report(a) == failed_report(b),
{
    lemma_failed_below_congruence(a, b, a.len() as int);
}

/// The failure-aggregation invariant: `failed` holds exactly the ordinals
/// whose phase counts as failed, each at most once.
spec fn failure_record_ok(phases: Seq<TaskPhase>, failed: Seq<usize>) -> bool {
    &&& forall|k: int|
        0 <= k < failed.len() ==> ((#[trigger] failed[k]) as int) < phases.len() && is_failed_phase(
            phases[failed[k] as int],
        )
    &&& forall|q: int|
        0 <= q < phases.len() && is_failed_phase(#[trigger] phases[q]) ==> failed.contains(
            q as usize,
        )
    &&& forall|k1: int, k2: int|
        #![trigger failed[k1], failed[k2]]
        0 <= k1 < k2 < failed.len() ==> failed[k1] != failed[k2]
}

proof fn lemma_failed_clauses_keep(phases: Seq<TaskPhase>, failed: Seq<usize>, i: int, p: TaskPhase)
    requires
        0 <= i < phases.len(),
        !is_failed_phase(phases[i]),
        !is_failed_phase(p),
        failure_record_ok(phases, failed),
    ensures
        failure_record_ok(phases.update(i, p), failed),
{
    let up = phases.update(i, p);
    assert forall|k: int| 0 <= k < failed.len() implies (failed[k] as int) < up.len()
        && is_failed_phase(up[failed[k] as int]) by {
        assert((failed[k] as int) != i);
    }
    assert forall|q: int| 0 <= q < up.len() && is_failed_phase(up[q]) implies failed.contains(
        q as usize,
    ) by {
        assert(q != i);
        assert(is_failed_phase(phases[q]));
    }
}

proof fn lemma_failed_clauses_record(
    phases: Seq<TaskPhase>,
    failed: Seq<usize>,
    i: usize,
    p: TaskPhase,
)
    requires
        (i as int) < phases.len(),
        !is_failed_phase(phases[i as int]),
        is_failed_phase(p),
        failure_record_ok(phases, failed),
    ensures
        failure_record_ok(phases.update(i as int, p), failed.push(i)),
{
    let up = phases.update(i as int, p);
    let fp = failed.push(i);
    assert forall|k: int| 0 <= k < fp.len() implies ((fp[k]) as int) < up.len() && is_failed_phase(
        up[fp[k] as int],
    ) by {
        if k < failed.len() {
            assert(fp[k] == failed[k]);
            assert(failed[k] != i);
        } else {
            assert(fp[k] == i);
        }
    }
    assert forall|q: int| 0 <= q < up.len() && is_failed_phase(up[q]) implies fp.contains(
        q as usize,
    ) by {
        if q != i as int {
            assert(is_failed_phase(phases[q]));
            assert(failed.contains(q as usize));
            let idx = choose|idx: int| 0 <= idx < failed.len() && failed[idx] == q as usize;
            assert(fp[idx] == q as usize);
        } else {
            assert(fp[failed.len() as int] == q as usize);
        }
    }
    assert forall|k1: int, k2: int|
        #![trigger fp[k1], fp[k2]]
    0 <= k1 < k2 < fp.len() implies fp[k1] != fp[k2] by {
        if k2 == fp.len() - 1 {
            assert(fp[k1] == failed[k1]);
            assert(failed[k1] != i);
        } else {
            assert(fp[k1] == failed[k1]);
            assert(fp[k2] == failed[k2]);
        }
    }
}

/// The authoritative state of one run: the scheduler, the counting
/// semaphore and the failure aggregator.
pub struct Scheduler {
    max_parallel: usize,
    in_flight: usize,
    phases: Vec<TaskPhase>,
    failed: Vec<usize>,
    commands: Vec<String>,
}

impl Scheduler {
    /// The phase of every task, by ordinal.
    pub closed spec fn phases_seq(self) -> Seq<TaskPhase> {
        self.phases@
    }

    /// The submitted command list.
    pub closed spec fn commands_seq(self) -> Seq<String> {
        self.commands@
    }

    /// The number of tasks in the run.
    pub open spec fn task_count(self) -> nat {
        self.phases_seq().len()
    }

    /// The concurrency budget: the semaphore's permit count.
    pub closed spec fn max_parallel_spec(self) -> nat {
        self.max_parallel as nat
    }

    /// The number of permits currently held.
    pub closed spec fn in_flight_spec(self) -> nat {
        self.in_flight as nat
    }

    /// The failed ordinals in the order their failures were discovered.
    pub closed spec fn failed_seq(self) -> Seq<usize> {
        self.failed@
    }

    /// The phase of task `i`.
    #[verifier::inline]
    pub open spec fn phase_of(self, i: int) -> TaskPhase {
        self.phases_seq()[i]
    }

    /// Well-formedness, established by `new` and preserved by every
    /// transition: the budget is positive; the permit counter equals the
    /// number of tasks holding a permit and never exceeds the budget; and
    /// the failure set holds exactly the ordinals whose phase counts as
    /// failed, each at most once.
    pub closed spec fn wf(self) -> bool {
        &&& self.max_parallel >= 1
        &&& self.phases@.len() == self.commands@.len()
        &&& self.in_flight as nat == in_flight_count(self.phases@)
        &&& self.in_flight <= self.max_parallel
        &&& failure_record_ok(self.phases@, self.failed@)
    }

    /// Whether every task has reached a terminal phase.
    pub open spec fn all_done(self) -> bool {
        forall|i: int| 0 <= i < self.task_count() ==> is_terminal(self.phase_of(i))
    }

    /// A fresh run over `commands` with a budget of `max_parallel` permits:
    /// every task `Queued`, no permit held, no failure recorded.
    pub fn new(commands: Vec<String>, max_parallel: usize) -> (s: Scheduler)
        requires
            max_parallel >= 1,
        ensures
            s.wf(),
            s.task_count() == commands@.len(),
            s.commands_seq() == commands@,
            s.max_parallel_spec() == max_parallel as nat,
            s.in_flight_spec() == 0,
            s.failed_seq() == Seq::<usize>::empty(),
            forall|i: int| 0 <= i < s.task_count() ==> s.phase_of(i) is Queued,
    {
        let n = commands.len();
        let mut phases: Vec<TaskPhase> = Vec::new();
        let mut i: usize = 0;
        while i < n
            invariant
                i <= n,
                phases@.len() == i as nat,
                in_flight_count(phases@) == 0,
                forall|j: int| 0 <= j < i ==> phases@[j] is Queued,
            decreases n - i,
        {
            proof {
                lemma_in_flight_push(phases@, TaskPhase::Queued);
            }
            phases.push(TaskPhase::Queued);
            i = i + 1;
        }
        Scheduler { max_parallel, in_flight: 0, phases, failed: Vec::new(), commands }
    }

    /// The number of tasks in the run.
    pub fn num_tasks(&self) -> (n: usize)
        ensures
            n as nat == self.task_count(),
    {
        self.phases.len()
    }

    /// The concurrency budget.
    pub fn max_parallel(&self) -> (m: usize)
        ensures
            m as nat == self.max_parallel_spec(),
    {
        self.max_parallel
    }

    /// The number of permits currently held.
    pub fn in_flight_now(&self) -> (c: usize)
        ensures
            c as nat == self.in_flight_spec(),
    {
        self.in_flight
    }

    /// The number of permits still available.
    pub fn available_permits(&self) -> (c: usize)
        requires
            self.wf(),
        ensures
            c as nat == self.max_parallel_spec() - self.in_flight_spec(),
    {
        self.max_parallel - self.in_flight
    }

    /// The phase of task `i`.
    pub fn phase(&self, i: usize) -> (p: TaskPhase)
        requires
            i < self.task_count(),
        ensures
            p == self.phase_of(i as int),
    {
        self.phases[i]
    }

    /// The command text of task `i`.
    pub fn command(&self, i: usize) -> (c: &String)
        requires
            self.wf(),
            i < self.task_count(),
        ensures
            c == self.commands_seq()[i as int],
    {
        &self.commands[i]
    }

    /// The failed ordinals discovered so far, in discovery order.
    pub fn failed_so_far(&self) -> (f: &Vec<usize>)
        ensures
            f@ == self.failed_seq(),
    {
        &self.failed
    }

    /// The scheduler has reached task `i` in list order; the task now waits
    /// for a concurrency permit. Tasks are initiated in submission order,
    /// so every earlier task has already been initiated.
    pub fn begin_wait_for_permit(&mut self, i: usize)
        requires
            old(self).wf(),
            i < old(self).task_count(),
            old(self).phase_of(i as int) is Queued,
            forall|j: int| 0 <= j < i ==> !(old(self).phase_of(j) is Queued),
        ensures
            final(self).wf(),
            final(self).phases_seq() == old(self).phases_seq().update(
                i as int,
                TaskPhase::AwaitingPermit,
            ),
            final(self).failed_seq() == old(self).failed_seq(),
            final(self).in_flight_spec() == old(self).in_flight_spec(),
            final(self).max_parallel_spec() == old(self).max_parallel_spec(),
            final(self).commands_seq() == old(self).commands_seq(),
            final(self).task_count() == old(self).task_count(),
    {
        proof {
            lemma_in_flight_update(self.phases@, i as int, TaskPhase::AwaitingPermit);
            lemma_failed_clauses_keep(self.phases@, self.failed@, i as int, TaskPhase::AwaitingPermit);
        }
        self.phases[i] = TaskPhase::AwaitingPermit;
    }

    /// The semaphore has granted task `i` a permit; the task moves on to
    /// spawning. The permit counter must be below the budget — permits may
    /// not be over-granted.
    pub fn grant_permit(&mut self, i: usize)
        requires
            old(self).wf(),
            i < old(self).task_count(),
            old(self).phase_of(i as int) is AwaitingPermit,
            old(self).in_flight_spec() < old(self).max_parallel_spec(),
        ensures
            final(self).wf(),
            final(self).phases_seq() == old(self).phases_seq().update(
                i as int,
                TaskPhase::Spawning,
            ),
            final(self).failed_seq() == old(self).failed_seq(),
            final(self).in_flight_spec() == old(self).in_flight_spec() + 1,
            final(self).max_parallel_spec() == old(self).max_parallel_spec(),
            final(self).commands_seq() == old(self).commands_seq(),
            final(self).task_count() == old(self).task_count(),
    {
        proof {
            lemma_in_flight_update(self.phases@, i as int, TaskPhase::Spawning);
            lemma_failed_clauses_keep(self.phases@, self.failed@, i as int, TaskPhase::Spawning);
        }
        self.phases[i] = TaskPhase::Spawning;
        self.in_flight = self.in_flight + 1;
    }

    /// The interpreter process of task `i` is live: the task is running,
    /// its permit still held.
    pub fn note_spawned(&mut self, i: usize)
        requires
            old(self).wf(),
            i < old(self).task_count(),
            old(self).phase_of(i as int) is Spawning,
        ensures
            final(self).wf(),
            final(self).phases_seq() == old(self).phases_seq().update(i as int, TaskPhase::Running),
            final(self).failed_seq() == old(self).failed_seq(),
            final(self).in_flight_spec() == old(self).in_flight_spec(),
            final(self).max_parallel_spec() == old(self).max_parallel_spec(),
            final(self).commands_seq() == old(self).commands_seq(),
            final(self).task_count() == old(self).task_count(),
    {
        proof {
            lemma_in_flight_update(self.phases@, i as int, TaskPhase::Running);
            lemma_failed_clauses_keep(self.phases@, self.failed@, i as int, TaskPhase::Running);
        }
        self.phases[i] = TaskPhase::Running;
    }

    /// Task `i` could not be spawned — the interpreter did not launch, or a
    /// sink file could not be created. The task is terminal, its failure is
    /// recorded, and the just-acquired permit is released at once, since no
    /// process consumes it.
    pub fn note_spawn_failed(&mut self, i: usize)
        requires
            old(self).wf(),
            i < old(self).task_count(),
            old(self).phase_of(i as int) is Spawning,
        ensures
            final(self).wf(),
            final(self).phases_seq() == old(self).phases_seq().update(
                i as int,
                TaskPhase::SpawnError,
            ),
            final(self).failed_seq() == old(self).failed_seq().push(i),
            final(self).in_flight_spec() == old(self).in_flight_spec() - 1,
            final(self).max_parallel_spec() == old(self).max_parallel_spec(),
            final(self).commands_seq() == old(self).commands_seq(),
            final(self).task_count() == old(self).task_count(),
    {
        proof {
            lemma_in_flight_update(self.phases@, i as int, TaskPhase::SpawnError);
            lemma_failed_clauses_record(self.phases@, self.failed@, i, TaskPhase::SpawnError);
        }
        self.phases[i] = TaskPhase::SpawnError;
        self.failed.push(i);
        self.in_flight = self.in_flight - 1;
    }

    /// The process of task `i` has exited; `success` tells whether its exit
    /// status was success. A non-success exit is recorded in the failure
    /// set. The permit is released at this instant, not before.
    pub fn note_exit(&mut self, i: usize, success: bool)
        requires
            old(self).wf(),
            i < old(self).task_count(),
            old(self).phase_of(i as int) is Running,
        ensures
            final(self).wf(),
            final(self).phases_seq() == old(self).phases_seq().update(
                i as int,
                if success {
                    TaskPhase::Succeeded
                } else {
                    TaskPhase::Failed
                },
            ),
            final(self).failed_seq() == if success {
                old(self).failed_seq()
            } else {
                old(self).failed_seq().push(i)
            },
            final(self).in_flight_spec() == old(self).in_flight_spec() - 1,
            final(self).max_parallel_spec() == old(self).max_parallel_spec(),
            final(self).commands_seq() == old(self).commands_seq(),
            final(self).task_count() == old(self).task_count(),
    {
        if success {
            proof {
                lemma_in_flight_update(self.phases@, i as int, TaskPhase::Succeeded);
                lemma_failed_clauses_keep(self.phases@, self.failed@, i as int, TaskPhase::Succeeded);
            }
            self.phases[i] = TaskPhase::Succeeded;
        } else {
            proof {
                lemma_in_flight_update(self.phases@, i as int, TaskPhase::Failed);
                lemma_failed_clauses_record(self.phases@, self.failed@, i, TaskPhase::Failed);
            }
            self.phases[i] = TaskPhase::Failed;
            self.failed.push(i);
        }
        self.in_flight = self.in_flight - 1;
    }

    /// The completion of task `i` could not be observed: the unit of
    /// concurrency supervising it was lost. Counted conservatively as a
    /// failure, so an unresolvable wait is never silently dropped from the
    /// report.
    pub fn note_wait_lost(&mut self, i: usize)
        requires
            old(self).wf(),
            i < old(self).task_count(),
            old(self).phase_of(i as int) is Running,
        ensures
            final(self).wf(),
            final(self).phases_seq() == old(self).phases_seq().update(i as int, TaskPhase::Failed),
            final(self).failed_seq() == old(self).failed_seq().push(i),
            final(self).in_flight_spec() == old(self).in_flight_spec() - 1,
            final(self).max_parallel_spec() == old(self).max_parallel_spec(),
            final(self).commands_seq() == old(self).commands_seq(),
            final(self).task_count() == old(self).task_count(),
    {
        self.note_exit(i, false);
    }

    /// Whether every task has reached a terminal phase, as executable code.
    pub fn all_terminated(&self) -> (b: bool)
        ensures
            b == self.all_done(),
    {
        let n = self.phases.len();
        let mut i: usize = 0;
        while i < n
            invariant
                i <= n,
                n as nat == self.task_count(),
                forall|j: int| 0 <= j < i ==> is_terminal(self.phase_of(j)),
            decreases n - i,
        {
            if !phase_is_terminal(self.phases[i]) {
                proof {
                    assert(!is_terminal(self.phase_of(i as int)));
                }
                return false;
            }
            i = i + 1;
        }
        true
    }

    /// The final report of the run: the failed ordinals in ascending order
    /// and the derived process exit code — 1 exactly when some task failed,
    /// 0 otherwise.
    pub fn finalize(&self) -> (r: (Vec<usize>, i32))
        requires
            self.wf(),
            self.all_done(),
        ensures
            r.0@ == failed_report(self.phases_seq()),
            forall|o: usize|
                #[trigger] r.0@.contains(o) <==> (o as int) < self.task_count() && is_failed_phase(
                    self.phase_of(o as int),
                ),
            forall|k1: int, k2: int| 0 <= k1 < k2 < r.0@.len() ==> r.0@[k1] < r.0@[k2],
            (r.1 == 1) <==> (exists|i: int|
                0 <= i < self.task_count() && is_failed_phase(#[trigger] self.phase_of(i))),
            (r.1 == 0) <==> (forall|i: int|
                0 <= i < self.task_count() ==> !is_failed_phase(#[trigger] self.phase_of(i))),
            r.1 == 0 || r.1 == 1,
            forall|o: usize| r.0@.contains(o) <==> #[trigger] self.failed_seq().contains(o),
    {
        let n = self.phases.len();
        let mut ords: Vec<usize> = Vec::new();
        let mut i: usize = 0;
        while i < n
            invariant
                i <= n,
                n as nat == self.task_count(),
                ords@ == failed_ordinals_below(self.phases_seq(), i as int),
            decreases n - i,
        {
            if phase_is_failed(self.phases[i]) {
                ords.push(i);
            }
            i = i + 1;
        }
        proof {
            lemma_failed_report_members(self.phases_seq(), n as int);
            if ords@.len() > 0 {
                assert(ords@.contains(ords@[0]));
                assert(is_failed_phase(self.phase_of(ords@[0] as int)));
            } else {
                assert forall|q: int|
                    0 <= q < self.task_count() implies !is_failed_phase(
                    #[trigger] self.phase_of(q),
                ) by {
                    assert(!is_failed_phase(self.phases_seq()[q]));
                }
            }
            assert forall|o: usize| #[trigger] self.failed_seq().contains(o) implies ords@.contains(
                o,
            ) by {
                let idx = choose|idx: int|
                    0 <= idx < self.failed_seq().len() && self.failed_seq()[idx] == o;
                assert(is_failed_phase(self.phases_seq()[o as int]));
            }
            assert forall|o: usize| ords@.contains(o) implies #[trigger] self.failed_seq().contains(
                o,
            ) by {
                assert(is_failed_phase(self.phases_seq()[o as int]));
            }
        }
        let code: i32 = if ords.len() > 0 {
            1
        } else {
            0
        };
        (ords, code)
    }
}

/// The semaphore invariant: in a well-formed scheduler, never do more tasks hold
/// a spawned-but-not-exited process than `max_parallel` allows.
pub proof fn lemma_bounded_concurrency(s: Scheduler)
    requires
        s.wf(),
    ensures
        in_flight_count(s.phases_seq()) <= s.max_parallel_spec(),
{
}

} // verus!

//! The task scheduler as a state machine: it queues operation requests,
//! decides which may start (bounded workers, one task per destination at a
//! time, submission order within a destination), and records retries,
//! failures and cancellation. Whoever runs the workers performs the I/O of
//! each started task and reports back.

use vstd::prelude::*;

use crate::location::{Location, LocationView};

verus! {

/// What an operation does.
#[derive(Clone, Copy, Debug, PartialEq, Eq, Structural)]
pub enum OpKind {
    Cut,
    Copy,
    Link,
    HardLink,
    Delete,
    Trash,
}

/// One filesystem operation. `to` is the location the operation writes: the
/// destination of a cut, copy or link, the target itself of a delete or trash.
#[derive(Clone, Debug)]
pub struct Request {
    pub kind: OpKind,
    pub from: Location,
    pub to: Location,
    pub force: bool,
    pub follow: bool,
    pub relative: bool,
}

#[derive(Clone, Copy, Debug, PartialEq, Eq, Structural)]
pub enum TaskState {
    Queued,
    Running,
    Succeeded,
    Failed,
    Cancelled,
}

/// How one attempt of a running task ended, as its worker reports it.
#[derive(Clone, Copy, Debug, PartialEq, Eq, Structural)]
pub enum Outcome {
    /// The operation completed.
    Done,
    /// A transient error (interrupted call, resource busy).
    Transient,
    /// An unrecoverable error (permission, space, conflict).
    Fatal,
    /// The worker saw the cancel request and stopped at a step boundary.
    Stopped,
}

/// What the worker of a reported task is to do next.
#[derive(Clone, Copy, Debug, PartialEq, Eq, Structural)]
pub enum Directive {
    /// The report did not concern a running task.
    Ignored,
    /// Run the operation again.
    Retry,
    /// Nothing more: the task reached a final state.
    Finished,
    /// The task is cancelled; remove what it partially wrote at `to`.
    RemovePartial,
}

/// What a cancel request did.
#[derive(Clone, Copy, Debug, PartialEq, Eq, Structural)]
pub enum CancelOutcome {
    /// No task with that id is queued or running.
    NotFound,
    /// The task was queued: it is cancelled and never runs.
    Immediate,
    /// The task is running: its worker is asked to stop.
    Requested,
}

/// A task owned by the scheduler.
#[derive(Clone, Debug)]
pub struct Task {
    pub id: u64,
    pub req: Request,
    pub state: TaskState,
    pub retries: u32,
    pub cancel_requested: bool,
    /// Bytes (or items) done so far, as the worker last reported.
    pub processed: u64,
    /// Bytes (or items) in all, where known; 0 when not.
    pub total: u64,
}

/// Counts of tasks by state.
#[derive(Clone, Copy, Debug, PartialEq, Eq, Structural)]
pub struct Summary {
    pub queued: usize,
    pub running: usize,
    pub succeeded: usize,
    pub failed: usize,
    pub cancelled: usize,
    /// Progress over all tasks, saturating at the largest `u64`.
    pub processed: u64,
    pub total: u64,
}

pub open spec fn is_terminal(s: TaskState) -> bool {
    s == TaskState::Succeeded || s == TaskState::Failed || s == TaskState::Cancelled
}

/// How many of `ts` are in state `s`.
pub open spec fn count_state(ts: Seq<Task>, s: TaskState) -> nat
    decreases ts.len(),
{
    if ts.len() == 0 {
        0
    } else {
        count_state(ts.drop_last(), s) + if ts.last().state == s {
            1nat
        } else {
            0nat
        }
    }
}

/// The sum of the progress made by `ts`.
pub open spec fn sum_processed(ts: Seq<Task>) -> nat
    decreases ts.len(),
{
    if ts.len() == 0 {
        0
    } else {
        sum_processed(ts.drop_last()) + ts.last().processed as nat
    }
}

/// The sum of the amounts of work `ts` announced.
pub open spec fn sum_total(ts: Seq<Task>) -> nat
    decreases ts.len(),
{
    if ts.len() == 0 {
        0
    } else {
        sum_total(ts.drop_last()) + ts.last().total as nat
    }
}

pub open spec fn capped(n: nat) -> u64 {
    if n > u64::MAX {
        u64::MAX
    } else {
        n as u64
    }
}

/// `ts` without its tasks in a final state.
pub open spec fn live(ts: Seq<Task>) -> Seq<Task>
    decreases ts.len(),
{
    if ts.len() == 0 {
        ts
    } else if is_terminal(ts.last().state) {
        live(ts.drop_last())
    } else {
        live(ts.drop_last()).push(ts.last())
    }
}

/// The abstract state of a scheduler.
pub struct SchedulerView {
    pub tasks: Seq<Task>,
    pub workers: nat,
    pub max_retries: nat,
    pub next_id: nat,
}

impl SchedulerView {
    /// No running task writes to the same location as the queued task `i`.
    pub open spec fn destination_free(self, i: int) -> bool {
        forall|k: int|
            0 <= k < self.tasks.len() && (#[trigger] self.tasks[k]).state == TaskState::Running
                ==> self.tasks[k].req.to@ != self.tasks[i].req.to@
    }

    /// Task `i` may start now.
    pub open spec fn eligible(self, i: int) -> bool {
        &&& 0 <= i < self.tasks.len()
        &&& self.tasks[i].state == TaskState::Queued
        &&& count_state(self.tasks, TaskState::Running) < self.workers
        &&& self.destination_free(i)
    }

    /// Task `i` exists and has id `id`.
    pub open spec fn holds_id(self, i: int, id: u64) -> bool {
        0 <= i < self.tasks.len() && self.tasks[i].id == id
    }

    /// Two running tasks never write to the same location.
    pub open spec fn exclusive_destinations(self) -> bool {
        forall|i: int, j: int|
            0 <= i < self.tasks.len() && 0 <= j < self.tasks.len() && i != j && (
            #[trigger] self.tasks[i]).state == TaskState::Running && (#[trigger] self.tasks[j]).state
                == TaskState::Running ==> self.tasks[i].req.to@ != self.tasks[j].req.to@
    }

    pub open spec fn invariants_hold(self) -> bool {
        &&& self.workers > 0
        &&& count_state(self.tasks, TaskState::Running) <= self.workers
        &&& self.exclusive_destinations()
        &&& forall|i: int, j: int|
            0 <= i < j < self.tasks.len() ==> (#[trigger] self.tasks[i]).id < (
            #[trigger] self.tasks[j]).id
        &&& forall|i: int| 0 <= i < self.tasks.len() ==> (#[trigger] self.tasks[i]).id < self.next_id
    }
}

/// The task `t` with its state replaced.
pub open spec fn with_state(t: Task, s: TaskState) -> Task {
    Task { state: s, ..t }
}

/// The state of task `t` after its worker reported `o`, and the directive.
pub open spec fn after_report(t: Task, o: Outcome, max_retries: nat) -> (Task, Directive) {
    match o {
        Outcome::Done => (with_state(t, TaskState::Succeeded), Directive::Finished),
        Outcome::Fatal => (with_state(t, TaskState::Failed), Directive::Finished),
        Outcome::Transient => if t.retries < max_retries {
            (Task { retries: (t.retries + 1) as u32, ..t }, Directive::Retry)
        } else {
            (with_state(t, TaskState::Failed), Directive::Finished)
        },
        Outcome::Stopped => (
            Task { state: TaskState::Cancelled, cancel_requested: false, ..t },
            match t.req.kind {
                OpKind::Copy | OpKind::Link | OpKind::HardLink => Directive::RemovePartial,
                _ => Directive::Finished,
            },
        ),
    }
}

/// Queued and running file operations, with their workers' limit and retry
/// budget.
pub struct Scheduler {
    tasks: Vec<Task>,
    workers: usize,
    max_retries: u32,
    next_id: u64,
}

impl View for Scheduler {
    type V = SchedulerView;

    closed spec fn view(&self) -> SchedulerView {
        SchedulerView {
            tasks: self.tasks@,
            workers: self.workers as nat,
            max_retries: self.max_retries as nat,
            next_id: self.next_id as nat,
        }
    }
}

proof fn lemma_count_update(ts: Seq<Task>, i: int, t: Task, s: TaskState)
    requires
        0 <= i < ts.len(),
    ensures
        count_state(ts.update(i, t), s) + (if ts[i].state == s {
            1int
        } else {
            0int
        }) == count_state(ts, s) + (if t.state == s {
            1int
        } else {
            0int
        }),
    decreases ts.len(),
{
    if i < ts.len() - 1 {
        lemma_count_update(ts.drop_last(), i, t, s);
        assert(ts.update(i, t).drop_last() =~= ts.drop_last().update(i, t));
    } else {
        assert(ts.update(i, t).drop_last() =~= ts.drop_last());
    }
}

proof fn lemma_count_push(ts: Seq<Task>, t: Task, s: TaskState)
    ensures
        count_state(ts.push(t), s) == count_state(ts, s) + if t.state == s {
            1nat
        } else {
            0nat
        },
{
    assert(ts.push(t).drop_last() =~= ts);
}

proof fn lemma_count_bound(ts: Seq<Task>, s: TaskState)
    ensures
        count_state(ts, s) <= ts.len(),
    decreases ts.len(),
{
    if ts.len() > 0 {
        lemma_count_bound(ts.drop_last(), s);
    }
}

/// Two running tasks never write to the same location.
pub proof fn law_destinations_exclusive(v: SchedulerView, i: int, j: int)
    requires
        v.invariants_hold(),
        0 <= i < v.tasks.len(),
        0 <= j < v.tasks.len(),
        i != j,
        v.tasks[i].state == TaskState::Running,
        v.tasks[j].state == TaskState::Running,
    ensures
        v.tasks[i].req.to@ != v.tasks[j].req.to@,
{
}

/// Within one destination, tasks start in the order they were submitted:
/// whenever a later task may start, so may every earlier queued task with
/// the same destination, and `start_next` takes the earliest.
pub proof fn law_destination_order(v: SchedulerView, k: int, i: int)
    requires
        0 <= k < i < v.tasks.len(),
        v.tasks[k].state == TaskState::Queued,
        v.tasks[k].req.to@ == v.tasks[i].req.to@,
        v.eligible(i),
    ensures
        v.eligible(k),
{
}

/// A task that is no longer queued, a cancelled one among them, is never
/// started again: `start_next` only starts eligible tasks.
pub proof fn law_cancelled_never_starts(v: SchedulerView, i: int)
    requires
        0 <= i < v.tasks.len(),
        v.tasks[i].state != TaskState::Queued,
    ensures
        !v.eligible(i),
{
}

/// A task that fails leaves every other task as it was, and every task that
/// could start before still can.
pub proof fn law_failure_isolated(v: SchedulerView, i: int, j: int)
    requires
        0 <= i < v.tasks.len(),
        0 <= j < v.tasks.len(),
        i != j,
        v.tasks[i].state == TaskState::Running,
    ensures
        ({
            let w = SchedulerView {
                tasks: v.tasks.update(i, with_state(v.tasks[i], TaskState::Failed)),
                ..v
            };
            &&& w.tasks[j] == v.tasks[j]
            &&& w.tasks[i].state == TaskState::Failed
            &&& v.eligible(j) ==> w.eligible(j)
        }),
{
    let t = with_state(v.tasks[i], TaskState::Failed);
    lemma_count_update(v.tasks, i, t, TaskState::Running);
}

/// What `live` keeps comes from `ts` in order, with every running task.
proof fn lemma_live(ts: Seq<Task>)
    requires
        forall|i: int, j: int| 0 <= i < j < ts.len() ==> (#[trigger] ts[i]).id < (#[trigger] ts[j]).id,
    ensures
        forall|p: int|
            0 <= p < live(ts).len() ==> exists|j: int| 0 <= j < ts.len() && ts[j] == #[trigger] live(ts)[p],
        forall|p: int, q: int|
            0 <= p < q < live(ts).len() ==> (#[trigger] live(ts)[p]).id < (#[trigger] live(ts)[q]).id,
        count_state(live(ts), TaskState::Running) == count_state(ts, TaskState::Running),
    decreases ts.len(),
{
    if ts.len() > 0 {
        let d = ts.drop_last();
        let l = ts.last();
        assert forall|i: int, j: int| 0 <= i < j < d.len() implies (#[trigger] d[i]).id < (
        #[trigger] d[j]).id by {
            assert(ts[i] == d[i] && ts[j] == d[j]);
        }
        lemma_live(d);
        let n = live(d);
        assert forall|p: int|
            0 <= p < n.len() implies exists|j: int| 0 <= j < ts.len() && ts[j] == #[trigger] n[p] by {
            let j = choose|j: int| 0 <= j < d.len() && d[j] == #[trigger] n[p];
            assert(ts[j] == n[p]);
        }
        if !is_terminal(l.state) {
            lemma_count_push(n, l, TaskState::Running);
            let r = n.push(l);
            assert forall|p: int|
                0 <= p < r.len() implies exists|j: int| 0 <= j < ts.len() && ts[j] == #[trigger] r[p] by {
                if p < n.len() {
                    assert(r[p] == n[p]);
                } else {
                    assert(ts[ts.len() - 1] == r[p]);
                }
            }
            assert forall|p: int, q: int| 0 <= p < q < r.len() implies (#[trigger] r[p]).id < (
            #[trigger] r[q]).id by {
                if q == n.len() {
                    let j = choose|j: int| 0 <= j < d.len() && d[j] == #[trigger] n[p];
                    assert(ts[j] == r[p]);
                    assert(ts[ts.len() - 1] == r[q]);
                } else {
                    assert(r[p] == n[p] && r[q] == n[q]);
                }
            }
        }
    }
}

/// Ids name at most one task.
pub proof fn lemma_id_unique(v: SchedulerView, i: int, k: int, id: u64)
    requires
        v.invariants_hold(),
        v.holds_id(i, id),
        v.holds_id(k, id),
    ensures
        i == k,
{
    if i < k {
        assert(v.tasks[i].id < v.tasks[k].id);
    } else if k < i {
        assert(v.tasks[k].id < v.tasks[i].id);
    }
}

impl Scheduler {
    /// A scheduler with no task, `workers` workers and up to `max_retries`
    /// retries per task.
    pub fn new(workers: usize, max_retries: u32) -> (r: Scheduler)
        requires
            workers > 0,
        ensures
            r@.invariants_hold(),
            r@.tasks.len() == 0,
            r@.workers == workers,
            r@.max_retries == max_retries,
    {
        Scheduler { tasks: Vec::new(), workers, max_retries, next_id: 0 }
    }

    pub fn len(&self) -> (r: usize)
        ensures
            r == self@.tasks.len(),
    {
        self.tasks.len()
    }

    /// The tasks, oldest first.
    pub fn tasks(&self) -> (r: &Vec<Task>)
        ensures
            r@ == self@.tasks,
    {
        &self.tasks
    }

    /// Queues `req` and returns the id of its task.
    pub fn submit(&mut self, req: Request) -> (id: u64)
        requires
            old(self)@.invariants_hold(),
            old(self)@.next_id < u64::MAX,
        ensures
            final(self)@.invariants_hold(),
            final(self)@.tasks == old(self)@.tasks.push(
                Task {
                    id,
                    req,
                    state: TaskState::Queued,
                    retries: 0,
                    cancel_requested: false,
                    processed: 0,
                    total: 0,
                },
            ),
            id == old(self)@.next_id,
            final(self)@.next_id == old(self)@.next_id + 1,
            final(self)@.workers == old(self)@.workers,
            final(self)@.max_retries == old(self)@.max_retries,
    {
        let id = self.next_id;
        let t = Task {
            id,
            req,
            state: TaskState::Queued,
            retries: 0,
            cancel_requested: false,
            processed: 0,
            total: 0,
        };
        proof {
            lemma_count_push(self.tasks@, t, TaskState::Running);
        }
        self.tasks.push(t);
        self.next_id = id + 1;
        id
    }

    /// Where the task with id `id` stands.
    fn index_of(&self, id: u64) -> (r: Option<usize>)
        ensures
            r matches Some(i) ==> self@.holds_id(i as int, id),
            r is None ==> forall|i: int| !self@.holds_id(i, id),
    {
        let mut i: usize = 0;
        while i < self.tasks.len()
            invariant
                i <= self.tasks.len(),
                forall|k: int| 0 <= k < i ==> self.tasks@[k].id != id,
            decreases self.tasks.len() - i,
        {
            if self.tasks[i].id == id {
                return Some(i);
            }
            i += 1;
        }
        None
    }

    /// How many tasks are running.
    fn running(&self) -> (r: usize)
        ensures
            r == count_state(self@.tasks, TaskState::Running),
    {
        let mut n: usize = 0;
        let mut i: usize = 0;
        while i < self.tasks.len()
            invariant
                i <= self.tasks.len(),
                n == count_state(self.tasks@.subrange(0, i as int), TaskState::Running),
                n <= i,
            decreases self.tasks.len() - i,
        {
            proof {
                assert(self.tasks@.subrange(0, i + 1).drop_last() =~= self.tasks@.subrange(0, i as int));
            }
            if self.tasks[i].state == TaskState::Running {
                n += 1;
            }
            i += 1;
        }
        assert(self.tasks@.subrange(0, i as int) =~= self.tasks@);
        n
    }

    /// Whether no running task writes where task `i` writes.
    fn destination_free(&self, i: usize) -> (r: bool)
        requires
            i < self@.tasks.len(),
        ensures
            r == self@.destination_free(i as int),
    {
        let mut k: usize = 0;
        while k < self.tasks.len()
            invariant
                i < self.tasks.len(),
                k <= self.tasks.len(),
                forall|q: int|
                    0 <= q < k && (#[trigger] self.tasks@[q]).state == TaskState::Running
                        ==> self.tasks@[q].req.to@ != self.tasks@[i as int].req.to@,
            decreases self.tasks.len() - k,
        {
            if self.tasks[k].state == TaskState::Running && self.tasks[k].req.to.same(
                &self.tasks[i].req.to,
            ) {
                return false;
            }
            k += 1;
        }
        true
    }

    /// Starts the oldest task that may run now and returns its id; the
    /// caller then performs its operation.
    pub fn start_next(&mut self) -> (r: Option<u64>)
        requires
            old(self)@.invariants_hold(),
        ensures
            final(self)@.invariants_hold(),
            final(self)@.workers == old(self)@.workers,
            final(self)@.max_retries == old(self)@.max_retries,
            final(self)@.next_id == old(self)@.next_id,
            r is None <==> forall|i: int| !old(self)@.eligible(i),
            r is None ==> final(self)@.tasks == old(self)@.tasks,
            r matches Some(id) ==> exists|i: int|
                {
                    &&& #[trigger] old(self)@.eligible(i)
                    &&& forall|k: int| 0 <= k < i ==> !old(self)@.eligible(k)
                    &&& old(self)@.tasks[i].id == id
                    &&& final(self)@.tasks == old(self)@.tasks.update(
                        i,
                        with_state(old(self)@.tasks[i], TaskState::Running),
                    )
                },
    {
        let running = self.running();
        if running >= self.workers {
            return None;
        }
        let mut i: usize = 0;
        while i < self.tasks.len()
            invariant
                *self == *old(self),
                old(self)@.invariants_hold(),
                running == count_state(self@.tasks, TaskState::Running),
                running < self.workers,
                i <= self.tasks.len(),
                forall|k: int| 0 <= k < i ==> !self@.eligible(k),
            decreases self.tasks.len() - i,
        {
            if self.tasks[i].state == TaskState::Queued && self.destination_free(i) {
                let ghost ts = self.tasks@;
                let ghost t = with_state(ts[i as int], TaskState::Running);
                self.tasks[i].state = TaskState::Running;
                proof {
                    assert(self.tasks@ =~= ts.update(i as int, t));
                    lemma_count_update(ts, i as int, t, TaskState::Running);
                    let ov = old(self)@;
                    assert(ts == ov.tasks);
                    assert(ov.invariants_hold());
                    assert(ov.eligible(i as int));
                    let nv = self@;
                    assert(nv.tasks == ts.update(i as int, t));
                    assert forall|p: int, q: int|
                        0 <= p < nv.tasks.len() && 0 <= q < nv.tasks.len() && p != q && (
                        #[trigger] nv.tasks[p]).state == TaskState::Running && (
                        #[trigger] nv.tasks[q]).state == TaskState::Running implies nv.tasks[p].req.to@
                        != nv.tasks[q].req.to@ by {
                        if p == i {
                            assert(ts[q] == nv.tasks[q]);
                            assert(ov.tasks[q].state == TaskState::Running);
                            assert(ov.destination_free(i as int));
                        } else if q == i {
                            assert(ts[p] == nv.tasks[p]);
                            assert(ov.tasks[p].state == TaskState::Running);
                            assert(ov.destination_free(i as int));
                        } else {
                            assert(ts[p] == nv.tasks[p] && ts[q] == nv.tasks[q]);
                            assert(ov.exclusive_destinations());
                        }
                    }
                    assert forall|p: int, q: int|
                        0 <= p < q < nv.tasks.len() implies (#[trigger] nv.tasks[p]).id < (
                        #[trigger] nv.tasks[q]).id by {
                        assert(ov.tasks[p].id < ov.tasks[q].id);
                    }
                }
                return Some(self.tasks[i].id);
            }
            i += 1;
        }
        None
    }

    /// Cancels the task with id `id`: at once if it is queued, by asking its
    /// worker to stop if it is running.
    pub fn cancel(&mut self, id: u64) -> (r: CancelOutcome)
        requires
            old(self)@.invariants_hold(),
        ensures
            final(self)@.invariants_hold(),
            final(self)@.workers == old(self)@.workers,
            final(self)@.max_retries == old(self)@.max_retries,
            final(self)@.next_id == old(self)@.next_id,
            r == CancelOutcome::NotFound ==> final(self)@.tasks == old(self)@.tasks,
            r == CancelOutcome::NotFound <==> forall|i: int|
                old(self)@.holds_id(i, id) ==> is_terminal(old(self)@.tasks[i].state),
            forall|i: int|
                #![trigger old(self)@.holds_id(i, id)]
                old(self)@.holds_id(i, id) && old(self)@.tasks[i].state == TaskState::Queued ==> r
                    == CancelOutcome::Immediate && final(self)@.tasks == old(self)@.tasks.update(
                    i,
                    with_state(old(self)@.tasks[i], TaskState::Cancelled),
                ),
            forall|i: int|
                #![trigger old(self)@.holds_id(i, id)]
                old(self)@.holds_id(i, id) && old(self)@.tasks[i].state == TaskState::Running ==> r
                    == CancelOutcome::Requested && final(self)@.tasks == old(self)@.tasks.update(
                    i,
                    Task { cancel_requested: true, ..old(self)@.tasks[i] },
                ),
    {
        let ghost ts = self.tasks@;
        match self.index_of(id) {
            None => CancelOutcome::NotFound,
            Some(i) => {
                proof {
                    assert forall|k: int| self@.holds_id(k, id) implies k == i by {
                        lemma_id_unique(self@, k, i as int, id);
                    }
                }
                if self.tasks[i].state == TaskState::Queued {
                    let ghost t = with_state(ts[i as int], TaskState::Cancelled);
                    self.tasks[i].state = TaskState::Cancelled;
                    proof {
                        assert(self.tasks@ =~= ts.update(i as int, t));
                        lemma_count_update(ts, i as int, t, TaskState::Running);
                    }
                    CancelOutcome::Immediate
                } else if self.tasks[i].state == TaskState::Running {
                    let ghost t = Task { cancel_requested: true, ..ts[i as int] };
                    self.tasks[i].cancel_requested = true;
                    proof {
                        assert(self.tasks@ =~= ts.update(i as int, t));
                        lemma_count_update(ts, i as int, t, TaskState::Running);
                    }
                    CancelOutcome::Requested
                } else {
                    CancelOutcome::NotFound
                }
            },
        }
    }

    /// Records how the current attempt of task `id` ended and tells its
    /// worker what to do next. Only running tasks are affected.
    pub fn report(&mut self, id: u64, o: Outcome) -> (r: Directive)
        requires
            old(self)@.invariants_hold(),
        ensures
            final(self)@.invariants_hold(),
            final(self)@.workers == old(self)@.workers,
            final(self)@.max_retries == old(self)@.max_retries,
            final(self)@.next_id == old(self)@.next_id,
            (r == Directive::Ignored) <==> forall|i: int|
                old(self)@.holds_id(i, id) ==> old(self)@.tasks[i].state != TaskState::Running,
            r == Directive::Ignored ==> final(self)@.tasks == old(self)@.tasks,
            forall|i: int|
                #![trigger old(self)@.holds_id(i, id)]
                old(self)@.holds_id(i, id) && old(self)@.tasks[i].state == TaskState::Running ==> {
                    let (t, d) = after_report(old(self)@.tasks[i], o, old(self)@.max_retries as nat);
                    &&& r == d
                    &&& final(self)@.tasks == old(self)@.tasks.update(i, t)
                },
    {
        let ghost ts = self.tasks@;
        let i = match self.index_of(id) {
            None => {
                return Directive::Ignored;
            },
            Some(i) => i,
        };
        proof {
            assert forall|k: int| self@.holds_id(k, id) implies k == i by {
                lemma_id_unique(self@, k, i as int, id);
            }
        }
        if self.tasks[i].state != TaskState::Running {
            return Directive::Ignored;
        }
        let ghost (t, d) = after_report(ts[i as int], o, self.max_retries as nat);
        let r = match o {
            Outcome::Done => {
                self.tasks[i].state = TaskState::Succeeded;
                Directive::Finished
            },
            Outcome::Fatal => {
                self.tasks[i].state = TaskState::Failed;
                Directive::Finished
            },
            Outcome::Transient => {
                if self.tasks[i].retries < self.max_retries {
                    self.tasks[i].retries = self.tasks[i].retries + 1;
                    Directive::Retry
                } else {
                    self.tasks[i].state = TaskState::Failed;
                    Directive::Finished
                }
            },
            Outcome::Stopped => {
                self.tasks[i].state = TaskState::Cancelled;
                self.tasks[i].cancel_requested = false;
                match self.tasks[i].req.kind {
                    OpKind::Copy | OpKind::Link | OpKind::HardLink => Directive::RemovePartial,
                    _ => Directive::Finished,
                }
            },
        };
        proof {
            assert(self.tasks@ =~= ts.update(i as int, t));
            lemma_count_update(ts, i as int, t, TaskState::Running);
            let nv = self@;
            let ov = old(self)@;
            assert(ov.tasks == ts);
            assert forall|p: int, q: int|
                0 <= p < nv.tasks.len() && 0 <= q < nv.tasks.len() && p != q && (
                #[trigger] nv.tasks[p]).state == TaskState::Running && (
                #[trigger] nv.tasks[q]).state == TaskState::Running implies nv.tasks[p].req.to@
                != nv.tasks[q].req.to@ by {
                assert(ov.tasks[p].state == TaskState::Running);
                assert(ov.tasks[q].state == TaskState::Running);
            }
            assert forall|p: int, q: int|
                0 <= p < q < nv.tasks.len() implies (#[trigger] nv.tasks[p]).id < (
                #[trigger] nv.tasks[q]).id by {
                assert(ov.tasks[p].id < ov.tasks[q].id);
            }
        }
        r
    }

    /// Counts the tasks by state.
    pub fn summary(&self) -> (r: Summary)
        ensures
            r.queued == count_state(self@.tasks, TaskState::Queued),
            r.running == count_state(self@.tasks, TaskState::Running),
            r.succeeded == count_state(self@.tasks, TaskState::Succeeded),
            r.failed == count_state(self@.tasks, TaskState::Failed),
            r.cancelled == count_state(self@.tasks, TaskState::Cancelled),
            r.processed == capped(sum_processed(self@.tasks)),
            r.total == capped(sum_total(self@.tasks)),
    {
        let mut r = Summary {
            queued: 0,
            running: 0,
            succeeded: 0,
            failed: 0,
            cancelled: 0,
            processed: 0,
            total: 0,
        };
        let mut i: usize = 0;
        while i < self.tasks.len()
            invariant
                i <= self.tasks.len(),
                r.queued == count_state(self.tasks@.subrange(0, i as int), TaskState::Queued),
                r.running == count_state(self.tasks@.subrange(0, i as int), TaskState::Running),
                r.succeeded == count_state(self.tasks@.subrange(0, i as int), TaskState::Succeeded),
                r.failed == count_state(self.tasks@.subrange(0, i as int), TaskState::Failed),
                r.cancelled == count_state(self.tasks@.subrange(0, i as int), TaskState::Cancelled),
                r.queued + r.running + r.succeeded + r.failed + r.cancelled == i,
                r.processed == capped(sum_processed(self.tasks@.subrange(0, i as int))),
                r.total == capped(sum_total(self.tasks@.subrange(0, i as int))),
            decreases self.tasks.len() - i,
        {
            r.processed = r.processed.saturating_add(self.tasks[i].processed);
            r.total = r.total.saturating_add(self.tasks[i].total);
            proof {
                assert(self.tasks@.subrange(0, i + 1).drop_last() =~= self.tasks@.subrange(0, i as int));
            }
            match self.tasks[i].state {
                TaskState::Queued => r.queued = r.queued + 1,
                TaskState::Running => r.running = r.running + 1,
                TaskState::Succeeded => r.succeeded = r.succeeded + 1,
                TaskState::Failed => r.failed = r.failed + 1,
                TaskState::Cancelled => r.cancelled = r.cancelled + 1,
            }
            i += 1;
        }
        assert(self.tasks@.subrange(0, i as int) =~= self.tasks@);
        r
    }

    /// Records the progress of running task `id`; `false` when no such task
    /// is running.
    pub fn advance(&mut self, id: u64, processed: u64, total: u64) -> (r: bool)
        requires
            old(self)@.invariants_hold(),
        ensures
            final(self)@.invariants_hold(),
            final(self)@.workers == old(self)@.workers,
            final(self)@.max_retries == old(self)@.max_retries,
            final(self)@.next_id == old(self)@.next_id,
            !r <==> forall|i: int|
                old(self)@.holds_id(i, id) ==> old(self)@.tasks[i].state != TaskState::Running,
            !r ==> final(self)@.tasks == old(self)@.tasks,
            forall|i: int|
                #![trigger old(self)@.holds_id(i, id)]
                old(self)@.holds_id(i, id) && old(self)@.tasks[i].state == TaskState::Running ==> r
                    && final(self)@.tasks == old(self)@.tasks.update(
                    i,
                    Task { processed, total, ..old(self)@.tasks[i] },
                ),
    {
        let ghost ts = self.tasks@;
        let i = match self.index_of(id) {
            None => {
                return false;
            },
            Some(i) => i,
        };
        proof {
            assert forall|k: int| self@.holds_id(k, id) implies k == i by {
                lemma_id_unique(self@, k, i as int, id);
            }
        }
        if self.tasks[i].state != TaskState::Running {
            return false;
        }
        let ghost t = Task { processed, total, ..ts[i as int] };
        self.tasks[i].processed = processed;
        self.tasks[i].total = total;
        proof {
            assert(self.tasks@ =~= ts.update(i as int, t));
            lemma_count_update(ts, i as int, t, TaskState::Running);
            let nv = self@;
            let ov = old(self)@;
            assert(ov.tasks == ts);
            assert forall|p: int, q: int|
                0 <= p < nv.tasks.len() && 0 <= q < nv.tasks.len() && p != q && (
                #[trigger] nv.tasks[p]).state == TaskState::Running && (
                #[trigger] nv.tasks[q]).state == TaskState::Running implies nv.tasks[p].req.to@
                != nv.tasks[q].req.to@ by {
                assert(ov.tasks[p].state == TaskState::Running);
                assert(ov.tasks[q].state == TaskState::Running);
            }
            assert forall|p: int, q: int|
                0 <= p < q < nv.tasks.len() implies (#[trigger] nv.tasks[p]).id < (
                #[trigger] nv.tasks[q]).id by {
                assert(ov.tasks[p].id < ov.tasks[q].id);
            }
        }
        true
    }

    /// Discards the tasks in a final state, once their results were seen.
    pub fn purge(&mut self)
        requires
            old(self)@.invariants_hold(),
        ensures
            final(self)@.invariants_hold(),
            final(self)@.tasks == live(old(self)@.tasks),
            final(self)@.workers == old(self)@.workers,
            final(self)@.max_retries == old(self)@.max_retries,
            final(self)@.next_id == old(self)@.next_id,
    {
        let ghost ts = self.tasks@;
        let mut i: usize = 0;
        let ghost mut k: int = 0;
        while i < self.tasks.len()
            invariant
                self.workers == old(self).workers,
                self.max_retries == old(self).max_retries,
                self.next_id == old(self).next_id,
                ts == old(self)@.tasks,
                0 <= k <= ts.len(),
                i <= self.tasks.len(),
                self.tasks@.len() - i == ts.len() - k,
                self.tasks@.subrange(0, i as int) == live(ts.subrange(0, k)),
                self.tasks@.subrange(i as int, self.tasks@.len() as int) == ts.subrange(k, ts.len() as int),
            decreases self.tasks.len() - i,
        {
            let ghost pre = self.tasks@;
            let ghost i0 = i as int;
            let ghost tail = pre.subrange(i0, pre.len() as int);
            proof {
                assert(tail == ts.subrange(k, ts.len() as int));
                assert(ts[k] == tail[0]);
                assert(ts.subrange(0, k + 1).drop_last() =~= ts.subrange(0, k));
                assert(ts.subrange(0, k + 1).last() == ts[k]);
            }
            let st = self.tasks[i].state;
            if st == TaskState::Queued || st == TaskState::Running {
                i += 1;
                proof {
                    assert(self.tasks@.subrange(0, i as int) =~= pre.subrange(0, i0).push(ts[k]));
                }
            } else {
                self.tasks.remove(i);
                proof {
                    assert(self.tasks@.subrange(0, i as int) =~= pre.subrange(0, i0));
                }
            }
            proof {
                let vt = self.tasks@.subrange(i as int, self.tasks@.len() as int);
                let ot = ts.subrange(k + 1, ts.len() as int);
                assert(vt.len() == ot.len());
                assert forall|m: int| 0 <= m < vt.len() implies #[trigger] vt[m] == ot[m] by {
                    assert(tail[m + 1] == ts.subrange(k, ts.len() as int)[m + 1]);
                    assert(tail[m + 1] == pre[i0 + 1 + m]);
                }
                assert(vt =~= ot);
                k = k + 1;
            }
        }
        proof {
            assert(self.tasks@.subrange(0, i as int) =~= self.tasks@);
            assert(ts.subrange(0, k) =~= ts);
            lemma_live(ts);
            let nv = self@;
            assert forall|p: int, q: int|
                0 <= p < nv.tasks.len() && 0 <= q < nv.tasks.len() && p != q && (
                #[trigger] nv.tasks[p]).state == TaskState::Running && (
                #[trigger] nv.tasks[q]).state == TaskState::Running implies nv.tasks[p].req.to@
                != nv.tasks[q].req.to@ by {
                let jp = choose|j: int| 0 <= j < ts.len() && ts[j] == #[trigger] nv.tasks[p];
                let jq = choose|j: int| 0 <= j < ts.len() && ts[j] == #[trigger] nv.tasks[q];
                if p < q {
                    assert(nv.tasks[p].id < nv.tasks[q].id);
                } else {
                    assert(nv.tasks[q].id < nv.tasks[p].id);
                }
                assert(jp != jq);
            }
            assert forall|p: int| 0 <= p < nv.tasks.len() implies (#[trigger] nv.tasks[p]).id
                < nv.next_id by {
                let jp = choose|j: int| 0 <= j < ts.len() && ts[j] == #[trigger] nv.tasks[p];
                assert(ts[jp].id < nv.next_id);
            }
        }
    }

    /// Whether the worker of task `id` has been asked to stop; workers check
    /// this between steps.
    pub fn is_cancel_requested(&self, id: u64) -> (r: bool)
        requires
            self@.invariants_hold(),
        ensures
            r <==> exists|i: int| self@.holds_id(i, id) && self@.tasks[i].cancel_requested,
    {
        match self.index_of(id) {
            None => false,
            Some(i) => {
                proof {
                    assert forall|k: int| self@.holds_id(k, id) implies k == i by {
                        lemma_id_unique(self@, k, i as int, id);
                    }
                }
                self.tasks[i].cancel_requested
            },
        }
    }
}

} // verus!

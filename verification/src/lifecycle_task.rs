//! Observation of selected outer actor polls and wake requests.
//!
//! Only anonymous ordinals and fixed role and outcome codes are recorded. The
//! stages are `async_task_register`, `async_task_wake`, `async_task_poll_begin`,
//! `async_task_poll_end`, `async_task_terminal` and `async_task_coverage`; their
//! only fields are `task_id`, `task_role`, `task_poll`, `task_wakes` and
//! `task_outcome`. A coverage record invalidates the diagnostic, never the
//! observed work.
//!
//! Each function here is one step of an observed task. The caller holds the
//! task's lock for the step, and publishes the rows of the sink, wakes the
//! upstream and drops a retired waker once the lock is released.

use crate::sharing::share;
use std::sync::Arc;
use vstd::prelude::*;

verus! {

/// The number of observed states that are retained at once, stale wakers included.
pub const RETAINED_LIMIT: usize = 256;

/// Closed actor categories; no context labels or peer identities are recorded.
#[derive(Clone, Copy, Debug, PartialEq, Eq, Structural)]
pub enum Role {
    /// Marshal actor.
    Marshal,
    /// Simplex voter actor.
    Voter,
    /// Simplex resolver actor.
    Resolver,
    /// Simplex batch verifier actor.
    Batcher,
    /// Authenticated peer sender loop.
    PeerSend,
    /// Authenticated peer receiver loop.
    PeerReceive,
}

impl Role {
    /// The number that stands for the role in a record.
    pub open spec fn spec_code(self) -> u64 {
        match self {
            Role::Marshal => 1,
            Role::Voter => 2,
            Role::Resolver => 3,
            Role::Batcher => 4,
            Role::PeerSend => 5,
            Role::PeerReceive => 6,
        }
    }

    /// Returns the number that stands for the role in a record.
    pub fn code(self) -> (code: u64)
        ensures
            code == self.spec_code(),
    {
        match self {
            Role::Marshal => 1,
            Role::Voter => 2,
            Role::Resolver => 3,
            Role::Batcher => 4,
            Role::PeerSend => 5,
            Role::PeerReceive => 6,
        }
    }
}

/// Two roles never share a code.
pub proof fn law_role_codes_are_distinct(a: Role, b: Role)
    ensures
        a.spec_code() == b.spec_code() ==> a == b,
{
}

/// What happened to an observed task.
#[derive(Clone, Copy, Debug, PartialEq, Eq, Structural)]
pub enum Record {
    /// A task, with its role, is observed from here on.
    Register(u64, u64),
    /// A task was woken for the given poll, for the first time since the last one began.
    Wake(u64, u64),
    /// A poll of a task begins, after the given number of wakes.
    Begin(u64, u64, u64),
    /// A poll of a task ended, with the given outcome.
    End(u64, u64, u64),
    /// A task ended, with the given outcome.
    Terminal(u64, u64),
    /// Observation is incomplete, for the given reason.
    Coverage(u64),
}

/// The retained states are at their limit.
pub const COVERAGE_RETAINED: u64 = 3;

/// The task identifiers are exhausted.
pub const COVERAGE_TASKS: u64 = 4;

/// The polls of a task are too many to count.
pub const COVERAGE_POLLS: u64 = 5;

/// The wakes of a task, or its polls at a wake, are too many to count.
pub const COVERAGE_WAKES: u64 = 6;

/// The poll left the future pending.
pub const OUTCOME_PENDING: u64 = 0;

/// The future is complete.
pub const OUTCOME_READY: u64 = 1;

/// The future was dropped, or its poll unwound, before it was complete.
pub const OUTCOME_CANCELLED: u64 = 2;

/// Returns the outcome of a poll that returned, by whether the future is complete.
pub fn poll_outcome(ready: bool) -> (outcome: u64)
    ensures
        outcome == (if ready {
            OUTCOME_READY
        } else {
            OUTCOME_PENDING
        }),
{
    if ready {
        OUTCOME_READY
    } else {
        OUTCOME_PENDING
    }
}

/// A record in the form that a collector admits.
#[derive(Clone, Copy, Debug, PartialEq, Eq)]
pub struct Row {
    pub stage: &'static str,
    pub task_id: Option<u64>,
    pub task_role: Option<u64>,
    pub task_poll: Option<u64>,
    pub task_wakes: Option<u64>,
    pub task_outcome: Option<u64>,
}

impl Record {
    /// The row that stands for the record.
    pub open spec fn spec_row(self) -> Row {
        match self {
            Record::Register(task, role) => Row {
                stage: "async_task_register",
                task_id: Some(task),
                task_role: Some(role),
                task_poll: None,
                task_wakes: None,
                task_outcome: None,
            },
            Record::Wake(task, poll) => Row {
                stage: "async_task_wake",
                task_id: Some(task),
                task_role: None,
                task_poll: Some(poll),
                task_wakes: None,
                task_outcome: None,
            },
            Record::Begin(task, poll, wakes) => Row {
                stage: "async_task_poll_begin",
                task_id: Some(task),
                task_role: None,
                task_poll: Some(poll),
                task_wakes: Some(wakes),
                task_outcome: None,
            },
            Record::End(task, poll, outcome) => Row {
                stage: "async_task_poll_end",
                task_id: Some(task),
                task_role: None,
                task_poll: Some(poll),
                task_wakes: None,
                task_outcome: Some(outcome),
            },
            Record::Terminal(task, outcome) => Row {
                stage: "async_task_terminal",
                task_id: Some(task),
                task_role: None,
                task_poll: None,
                task_wakes: None,
                task_outcome: Some(outcome),
            },
            Record::Coverage(outcome) => Row {
                stage: "async_task_coverage",
                task_id: None,
                task_role: None,
                task_poll: None,
                task_wakes: None,
                task_outcome: Some(outcome),
            },
        }
    }

    /// Returns the row that stands for the record.
    pub fn row(self) -> (row: Row)
        ensures
            row == self.spec_row(),
    {
        let mut row = Row {
            stage: "async_task_coverage",
            task_id: None,
            task_role: None,
            task_poll: None,
            task_wakes: None,
            task_outcome: None,
        };
        match self {
            Record::Register(task, role) => {
                row.stage = "async_task_register";
                row.task_id = Some(task);
                row.task_role = Some(role);
            },
            Record::Wake(task, poll) => {
                row.stage = "async_task_wake";
                row.task_id = Some(task);
                row.task_poll = Some(poll);
            },
            Record::Begin(task, poll, wakes) => {
                row.stage = "async_task_poll_begin";
                row.task_id = Some(task);
                row.task_poll = Some(poll);
                row.task_wakes = Some(wakes);
            },
            Record::End(task, poll, outcome) => {
                row.stage = "async_task_poll_end";
                row.task_id = Some(task);
                row.task_poll = Some(poll);
                row.task_outcome = Some(outcome);
            },
            Record::Terminal(task, outcome) => {
                row.stage = "async_task_terminal";
                row.task_id = Some(task);
                row.task_outcome = Some(outcome);
            },
            Record::Coverage(outcome) => {
                row.task_outcome = Some(outcome);
            },
        }
        row
    }
}

/// The stages that a collector admits.
pub open spec fn admitted(stage: Seq<char>) -> bool {
    ||| stage == "async_task_register"@
    ||| stage == "async_task_wake"@
    ||| stage == "async_task_poll_begin"@
    ||| stage == "async_task_poll_end"@
    ||| stage == "async_task_terminal"@
    ||| stage == "async_task_coverage"@
}

/// Every row carries an admitted stage, and two records with the same row are the
/// same record.
pub proof fn law_rows_are_admitted_and_faithful(a: Record, b: Record)
    ensures
        admitted(a.spec_row().stage@),
        a.spec_row() == b.spec_row() ==> a == b,
{
    reveal_strlit("async_task_register");
    reveal_strlit("async_task_wake");
    reveal_strlit("async_task_poll_begin");
    reveal_strlit("async_task_poll_end");
    reveal_strlit("async_task_terminal");
    reveal_strlit("async_task_coverage");
    assert("async_task_register"@.len() == 19);
    assert("async_task_wake"@.len() == 15);
    assert("async_task_poll_begin"@.len() == 21);
    assert("async_task_poll_end"@.len() == 19);
    assert("async_task_terminal"@.len() == 19);
    assert("async_task_coverage"@.len() == 19);
    assert("async_task_register"@[11] == 'r');
    assert("async_task_poll_end"@[11] == 'p');
    assert("async_task_terminal"@[11] == 't');
    assert("async_task_coverage"@[11] == 'c');
}

/// The rows that stand for the records, in order.
pub open spec fn rows(records: Seq<Record>) -> Seq<Row> {
    records.map_values(|record: Record| record.spec_row())
}

/// Collects rows, in the order in which they are to be published.
pub struct Sink {
    rows: Vec<Row>,
}

impl View for Sink {
    type V = Seq<Row>;

    closed spec fn view(&self) -> Seq<Row> {
        self.rows@
    }
}

impl Sink {
    /// Returns a sink without rows.
    pub fn new() -> (sink: Self)
        ensures
            sink@ == Seq::<Row>::empty(),
    {
        Sink { rows: Vec::new() }
    }

    /// Adds the row that stands for the record.
    pub fn emit(&mut self, record: Record)
        ensures
            final(self)@ == old(self)@ + rows(seq![record]),
    {
        self.rows.push(record.row());
        assert(rows(seq![record]) =~= seq![record.spec_row()]);
        assert(self@ =~= old(self)@ + rows(seq![record]));
    }

    /// Hands out the rows, in order.
    pub fn into_rows(self) -> (rows: Vec<Row>)
        ensures
            rows@ == self@,
    {
        self.rows
    }
}

/// How many states are retained, how many may be, and the next task identifier.
#[derive(Debug)]
pub struct Accounting {
    pub retained: usize,
    pub next: u64,
    pub limit: usize,
}

impl Accounting {
    /// The retained states are within the limit, and identifiers are positive.
    pub open spec fn wf(self) -> bool {
        &&& self.retained <= self.limit
        &&& 1 <= self.next
    }

    /// A further task can be observed.
    pub open spec fn admits(self) -> bool {
        self.retained < self.limit && self.next < u64::MAX
    }

    /// Why a further task cannot be observed.
    pub open spec fn refusal(self) -> Record {
        Record::Coverage(
            if self.retained >= self.limit {
                COVERAGE_RETAINED
            } else {
                COVERAGE_TASKS
            },
        )
    }

    /// The accounting once a further task is asked for.
    pub open spec fn after_capture(self) -> Accounting {
        if self.admits() {
            Accounting {
                retained: (self.retained + 1) as usize,
                next: (self.next + 1) as u64,
                limit: self.limit,
            }
        } else {
            self
        }
    }

    /// The accounting once a retained state is gone.
    pub open spec fn after_release(self) -> Accounting {
        Accounting { retained: (self.retained - 1) as usize, next: self.next, limit: self.limit }
    }

    /// Returns the accounting of no retained state.
    pub fn new(limit: usize) -> (accounting: Self)
        ensures
            accounting.wf(),
            accounting.retained == 0,
            accounting.next == 1,
            accounting.limit == limit,
    {
        Accounting { retained: 0, next: 1, limit }
    }

    /// Accounts for the last reference to a retained state being dropped.
    pub fn release(&mut self)
        requires
            old(self).retained > 0,
        ensures
            *final(self) == old(self).after_release(),
    {
        self.retained = self.retained - 1;
    }
}

/// The progress of an observed task, with the waker of its last poll.
pub struct State<W> {
    pub upstream: Option<Arc<W>>,
    pub poll: u64,
    pub wakes: u64,
    pub done: bool,
}

/// What an observed future shares with the wakers that it hands out.
pub struct Shared<W> {
    pub task: u64,
    pub state: State<W>,
}

/// A future with the state of its observation.
pub struct Observed<F, W> {
    pub future: F,
    pub shared: Shared<W>,
}

/// A future, observed or as it was.
pub enum Capture<F, W> {
    Disabled(F),
    Enabled(Observed<F, W>),
}

/// The least of `n + 1` and the largest `u64`.
pub open spec fn saturating_succ(n: u64) -> u64 {
    if n == u64::MAX {
        n
    } else {
        (n + 1) as u64
    }
}

impl<W> Shared<W> {
    /// A task that was never polled or woken.
    pub open spec fn fresh(task: u64) -> Shared<W> {
        Shared { task, state: State { upstream: None, poll: 0, wakes: 0, done: false } }
    }

    /// The task after a wake.
    pub open spec fn after_wake(self) -> Shared<W> {
        if self.state.done {
            self
        } else {
            Shared {
                task: self.task,
                state: State { wakes: saturating_succ(self.state.wakes), ..self.state },
            }
        }
    }

    /// The records of a wake: a completed task has none, the first wake since the
    /// last poll began is recorded, and a wake that cannot be counted is too.
    pub open spec fn wake_records(self) -> Seq<Record> {
        if self.state.done {
            seq![]
        } else {
            (if self.state.wakes == u64::MAX || self.state.poll == u64::MAX {
                seq![Record::Coverage(COVERAGE_WAKES)]
            } else {
                seq![]
            }) + (if self.state.wakes == 0 {
                seq![Record::Wake(self.task, saturating_succ(self.state.poll))]
            } else {
                seq![]
            })
        }
    }

    /// The task with another waker upstream.
    pub open spec fn after_replace(self, upstream: Arc<W>) -> Shared<W> {
        Shared { task: self.task, state: State { upstream: Some(upstream), ..self.state } }
    }

    /// The task once a poll has begun.
    pub open spec fn after_begin(self) -> Shared<W> {
        Shared {
            task: self.task,
            state: State { poll: saturating_succ(self.state.poll), wakes: 0, ..self.state },
        }
    }

    /// The records of a poll that begins.
    pub open spec fn begin_records(self) -> Seq<Record> {
        (if self.state.poll == u64::MAX {
            seq![Record::Coverage(COVERAGE_POLLS)]
        } else {
            seq![]
        }) + seq![Record::Begin(self.task, saturating_succ(self.state.poll), self.state.wakes)]
    }

    /// The task once it has ended.
    pub open spec fn after_finish(self) -> Shared<W> {
        if self.state.done {
            self
        } else {
            Shared { task: self.task, state: State { upstream: None, done: true, ..self.state } }
        }
    }

    /// The records of a task that ends: none if it had ended before.
    pub open spec fn finish_records(self, outcome: u64) -> Seq<Record> {
        if self.state.done {
            seq![]
        } else {
            seq![Record::Terminal(self.task, outcome)]
        }
    }

    /// The upstream waker of a task that has not ended.
    pub open spec fn live_upstream(self) -> Option<Arc<W>> {
        if self.state.done {
            None
        } else {
            self.state.upstream
        }
    }

    /// The task once a poll has ended with the given outcome.
    pub open spec fn after_end(self, outcome: u64) -> Shared<W> {
        if outcome == OUTCOME_PENDING {
            self
        } else {
            self.after_finish()
        }
    }

    /// The records of a poll that ends.
    pub open spec fn end_records(self, poll: u64, outcome: u64) -> Seq<Record> {
        seq![Record::End(self.task, poll, outcome)] + (if outcome == OUTCOME_PENDING {
            seq![]
        } else {
            self.finish_records(outcome)
        })
    }
}

/// Observes the future as a task with the next identifier, or hands it back as it
/// is, with a coverage record, where the retained states are at their limit or the
/// identifiers are exhausted.
pub fn capture<F, W>(role: Role, future: F, accounting: &mut Accounting, sink: &mut Sink) -> (captured:
    Capture<F, W>)
    ensures
        *final(accounting) == old(accounting).after_capture(),
        old(accounting).admits() ==> {
            &&& captured == Capture::<F, W>::Enabled(
                Observed { future, shared: Shared::fresh(old(accounting).next) },
            )
            &&& final(sink)@ == old(sink)@ + rows(
                seq![Record::Register(old(accounting).next, role.spec_code())],
            )
        },
        !old(accounting).admits() ==> {
            &&& captured == Capture::<F, W>::Disabled(future)
            &&& final(sink)@ == old(sink)@ + rows(seq![old(accounting).refusal()])
        },
{
    if accounting.retained >= accounting.limit {
        sink.emit(Record::Coverage(COVERAGE_RETAINED));
        return Capture::Disabled(future);
    }
    let task: u64 = accounting.next;
    match task.checked_add(1) {
        None => {
            sink.emit(Record::Coverage(COVERAGE_TASKS));
            Capture::Disabled(future)
        },
        Some(next) => {
            accounting.retained = accounting.retained + 1;
            accounting.next = next;
            let state = State { upstream: None, poll: 0, wakes: 0, done: false };
            sink.emit(Record::Register(task, role.code()));
            Capture::Enabled(Observed { future, shared: Shared { task, state } })
        },
    }
}

/// Returns whether the runtime setting asks for observation.
pub fn selected(setting: Option<&str>) -> (selected: bool)
    ensures
        selected == (setting matches Some(value) && value@ == "selected_v1"@),
{
    match setting {
        Some(value) => value.to_owned() == "selected_v1".to_owned(),
        None => false,
    }
}

/// Observes the future where the diagnostic is `enabled`, as far as [`capture`] does,
/// and otherwise hands it back as it is, with no record.
pub fn observe<F, W>(
    role: Role,
    future: F,
    enabled: bool,
    accounting: &mut Accounting,
    sink: &mut Sink,
) -> (captured: Capture<F, W>)
    ensures
        !enabled ==> {
            &&& captured == Capture::<F, W>::Disabled(future)
            &&& *final(accounting) == *old(accounting)
            &&& final(sink)@ == old(sink)@
        },
        enabled && old(accounting).admits() ==> {
            &&& captured == Capture::<F, W>::Enabled(
                Observed { future, shared: Shared::fresh(old(accounting).next) },
            )
            &&& *final(accounting) == old(accounting).after_capture()
            &&& final(sink)@ == old(sink)@ + rows(
                seq![Record::Register(old(accounting).next, role.spec_code())],
            )
        },
        enabled && !old(accounting).admits() ==> {
            &&& captured == Capture::<F, W>::Disabled(future)
            &&& *final(accounting) == *old(accounting)
            &&& final(sink)@ == old(sink)@ + rows(seq![old(accounting).refusal()])
        },
{
    if !enabled {
        return Capture::Disabled(future);
    }
    capture(role, future, accounting, sink)
}

impl<W> Shared<W> {
    /// Counts a wake of the task, and returns the upstream waker that it is to be
    /// passed on to. A task that has ended is not woken.
    pub fn wake_by_ref(&mut self, sink: &mut Sink) -> (upstream: Option<Arc<W>>)
        ensures
            *final(self) == old(self).after_wake(),
            final(sink)@ == old(sink)@ + rows(old(self).wake_records()),
            upstream == old(self).live_upstream(),
    {
        if self.state.done {
            assert(sink@ =~= old(sink)@ + rows(old(self).wake_records()));
            return None;
        }
        let first = self.state.wakes == 0;
        let overflow = self.state.wakes == u64::MAX || self.state.poll == u64::MAX;
        self.state.wakes = self.state.wakes.saturating_add(1);
        let poll: u64 = self.state.poll.saturating_add(1);
        if overflow {
            sink.emit(Record::Coverage(COVERAGE_WAKES));
        }
        if first {
            sink.emit(Record::Wake(self.task, poll));
        }
        assert(sink@ =~= old(sink)@ + rows(old(self).wake_records()));
        match &self.state.upstream {
            Some(upstream) => Some(share(upstream)),
            None => None,
        }
    }

    /// Returns whether the upstream waker has to be replaced by that of a new poll:
    /// where there is none yet, or it would not wake the same task.
    pub fn replaces_upstream<S: Fn(&W) -> bool>(&self, will_wake: S) -> (replace: bool)
        requires
            !self.state.done,
            self.state.upstream matches Some(upstream) ==> call_requires(will_wake, (&*upstream,)),
        ensures
            self.state.upstream is None ==> replace,
            self.state.upstream matches Some(upstream) ==> call_ensures(
                will_wake,
                (&*upstream,),
                !replace,
            ),
    {
        match &self.state.upstream {
            Some(upstream) => !will_wake(&**upstream),
            None => true,
        }
    }

    /// Makes the waker of a new poll the upstream one, and returns the one before.
    pub fn replace_upstream(&mut self, replacement: Arc<W>) -> (retired: Option<Arc<W>>)
        requires
            !old(self).state.done,
        ensures
            *final(self) == old(self).after_replace(replacement),
            final(self).state.poll == old(self).state.poll,
            final(self).state.wakes == old(self).state.wakes,
            retired == old(self).state.upstream,
    {
        let retired = self.state.upstream.take();
        self.state.upstream = Some(replacement);
        retired
    }

    /// Begins a poll, which the returned guard has to end.
    pub fn begin_poll(&mut self, sink: &mut Sink) -> (guard: PollGuard)
        requires
            !old(self).state.done,
        ensures
            *final(self) == old(self).after_begin(),
            final(sink)@ == old(sink)@ + rows(old(self).begin_records()),
            guard == (PollGuard { poll: saturating_succ(old(self).state.poll), ended: false }),
    {
        let overflow = self.state.poll == u64::MAX;
        self.state.poll = self.state.poll.saturating_add(1);
        let wakes: u64 = self.state.wakes;
        self.state.wakes = 0;
        if overflow {
            sink.emit(Record::Coverage(COVERAGE_POLLS));
        }
        sink.emit(Record::Begin(self.task, self.state.poll, wakes));
        assert(sink@ =~= old(sink)@ + rows(old(self).begin_records()));
        PollGuard { poll: self.state.poll, ended: false }
    }

    /// Ends the task, unless it has ended before, and returns the retired waker.
    pub fn finish(&mut self, outcome: u64, sink: &mut Sink) -> (retired: Option<Arc<W>>)
        ensures
            *final(self) == old(self).after_finish(),
            final(sink)@ == old(sink)@ + rows(old(self).finish_records(outcome)),
            retired == old(self).live_upstream(),
    {
        if self.state.done {
            assert(sink@ =~= old(sink)@ + rows(old(self).finish_records(outcome)));
            return None;
        }
        self.state.done = true;
        let retired = self.state.upstream.take();
        sink.emit(Record::Terminal(self.task, outcome));
        retired
    }

    /// Ends the task of a future that is dropped, unless it has ended before, and
    /// returns the retired waker.
    pub fn abandon(&mut self, sink: &mut Sink) -> (retired: Option<Arc<W>>)
        ensures
            *final(self) == old(self).after_finish(),
            final(sink)@ == old(sink)@ + rows(old(self).finish_records(OUTCOME_CANCELLED)),
            retired == old(self).live_upstream(),
    {
        self.finish(OUTCOME_CANCELLED, sink)
    }
}

/// A poll that has begun, and whether its end was recorded.
#[derive(Debug)]
pub struct PollGuard {
    pub poll: u64,
    pub ended: bool,
}

impl PollGuard {
    /// Ends the poll, and the task with it unless the future is still pending, and
    /// returns the retired waker.
    pub fn end<W>(&mut self, shared: &mut Shared<W>, outcome: u64, sink: &mut Sink) -> (retired:
        Option<Arc<W>>)
        ensures
            *final(self) == (PollGuard { poll: old(self).poll, ended: true }),
            *final(shared) == old(shared).after_end(outcome),
            final(sink)@ == old(sink)@ + rows(old(shared).end_records(old(self).poll, outcome)),
            retired == (if outcome == OUTCOME_PENDING {
                None
            } else {
                old(shared).live_upstream()
            }),
    {
        self.ended = true;
        sink.emit(Record::End(shared.task, self.poll, outcome));
        let retired = if outcome != OUTCOME_PENDING {
            shared.finish(outcome, sink)
        } else {
            None
        };
        assert(sink@ =~= old(sink)@ + rows(old(shared).end_records(old(self).poll, outcome)));
        retired
    }

    /// Ends the poll as cancelled, unless its end was recorded before: a poll that
    /// unwinds never records it otherwise.
    pub fn close<W>(&mut self, shared: &mut Shared<W>, sink: &mut Sink) -> (retired: Option<Arc<W>>)
        ensures
            *final(self) == (PollGuard { poll: old(self).poll, ended: true }),
            old(self).ended ==> {
                &&& *final(shared) == *old(shared)
                &&& final(sink)@ == old(sink)@
                &&& retired is None
            },
            !old(self).ended ==> {
                &&& *final(shared) == old(shared).after_end(OUTCOME_CANCELLED)
                &&& final(sink)@ == old(sink)@ + rows(
                    old(shared).end_records(old(self).poll, OUTCOME_CANCELLED),
                )
                &&& retired == old(shared).live_upstream()
            },
    {
        if !self.ended {
            self.end(shared, OUTCOME_CANCELLED, sink)
        } else {
            None
        }
    }
}

/// A step of an observed task.
pub ghost enum Step<W> {
    /// A wake arrives.
    Wake,
    /// The waker of a new poll replaces the upstream one.
    Replace(Arc<W>),
    /// A poll begins.
    Begin,
    /// The given poll ends with the given outcome.
    End(u64, u64),
    /// The task ends with the given outcome.
    Finish(u64),
}

impl<W> Step<W> {
    /// The outcome that the step ends the task with, if it ends it and nothing has
    /// ended it before.
    pub open spec fn outcome(self) -> Option<u64> {
        match self {
            Step::Finish(outcome) => Some(outcome),
            Step::End(_, outcome) if outcome != OUTCOME_PENDING => Some(outcome),
            _ => None,
        }
    }

    /// The step ends the task, if nothing has ended it before.
    pub open spec fn ends(self) -> bool {
        self.outcome() is Some
    }
}

/// The first of the steps that end the task is at the index.
pub open spec fn ends_first<W>(steps: Seq<Step<W>>, index: int) -> bool {
    &&& 0 <= index < steps.len()
    &&& steps[index].ends()
    &&& forall|i: int| 0 <= i < index ==> !#[trigger] steps[i].ends()
}

impl<W> Shared<W> {
    /// The task after a step.
    pub open spec fn after(self, step: Step<W>) -> Shared<W> {
        match step {
            Step::Wake => self.after_wake(),
            Step::Replace(upstream) => self.after_replace(upstream),
            Step::Begin => self.after_begin(),
            Step::End(_, outcome) => self.after_end(outcome),
            Step::Finish(_) => self.after_finish(),
        }
    }

    /// The records of a step.
    pub open spec fn records(self, step: Step<W>) -> Seq<Record> {
        match step {
            Step::Wake => self.wake_records(),
            Step::Replace(_) => seq![],
            Step::Begin => self.begin_records(),
            Step::End(poll, outcome) => self.end_records(poll, outcome),
            Step::Finish(outcome) => self.finish_records(outcome),
        }
    }

    /// The task after the steps, in order.
    pub open spec fn after_all(self, steps: Seq<Step<W>>) -> Shared<W>
        decreases steps.len(),
    {
        if steps.len() == 0 {
            self
        } else {
            self.after_all(steps.drop_last()).after(steps.last())
        }
    }

    /// The step can be taken: a task that has ended is not polled again.
    pub open spec fn admits(self, step: Step<W>) -> bool {
        step is Begin || step is Replace ==> !self.state.done
    }

    /// Each of the steps can be taken when its turn comes.
    pub open spec fn admits_all(self, steps: Seq<Step<W>>) -> bool
        decreases steps.len(),
    {
        steps.len() > 0 ==> {
            &&& self.admits_all(steps.drop_last())
            &&& self.after_all(steps.drop_last()).admits(steps.last())
        }
    }

    /// The records of the steps, in order.
    pub open spec fn all_records(self, steps: Seq<Step<W>>) -> Seq<Record>
        decreases steps.len(),
    {
        if steps.len() == 0 {
            seq![]
        } else {
            self.all_records(steps.drop_last()) + self.after_all(steps.drop_last()).records(
                steps.last(),
            )
        }
    }
}

/// How many of the records satisfy the predicate.
pub open spec fn count(records: Seq<Record>, wanted: spec_fn(Record) -> bool) -> nat
    decreases records.len(),
{
    if records.len() == 0 {
        0
    } else {
        count(records.drop_last(), wanted) + (if wanted(records.last()) {
            1nat
        } else {
            0
        })
    }
}

proof fn lemma_count_add(a: Seq<Record>, b: Seq<Record>, wanted: spec_fn(Record) -> bool)
    ensures
        count(a + b, wanted) == count(a, wanted) + count(b, wanted),
    decreases b.len(),
{
    if b.len() == 0 {
        assert(a + b =~= a);
    } else {
        assert((a + b).drop_last() =~= a + b.drop_last());
        lemma_count_add(a, b.drop_last(), wanted);
    }
}

/// The records that end a task.
pub open spec fn is_terminal() -> spec_fn(Record) -> bool {
    |record: Record| record is Terminal
}

/// The records that report incomplete observation.
pub open spec fn is_coverage() -> spec_fn(Record) -> bool {
    |record: Record| record is Coverage
}

/// Whatever happens to a task, in whatever order, it is recorded as ended once if
/// it has ended and never if it has not, with the outcome of the first step that
/// ended it. No step reopens it, and its identifier stays the same.
pub proof fn law_tasks_end_once<W>(shared: Shared<W>, steps: Seq<Step<W>>)
    requires
        !shared.state.done,
    ensures
        count(shared.all_records(steps), is_terminal()) == (if shared.after_all(steps).state.done {
            1nat
        } else {
            0
        }),
        shared.after_all(steps).state.done <==> exists|i: int|
            0 <= i < steps.len() && #[trigger] steps[i].ends(),
        forall|i: int, k: int|
            #![trigger ends_first(steps, i), shared.all_records(steps)[k]]
            ends_first(steps, i) && 0 <= k < shared.all_records(steps).len()
                && shared.all_records(steps)[k] is Terminal ==> shared.all_records(steps)[k]
                == Record::Terminal(shared.task, steps[i].outcome()->0),
        shared.after_all(steps).task == shared.task,
    decreases steps.len(),
{
    reveal_with_fuel(count, 4);
    if steps.len() > 0 {
        let before = steps.drop_last();
        let last = steps.last();
        law_tasks_end_once(shared, before);
        lemma_count_add(
            shared.all_records(before),
            shared.after_all(before).records(last),
            is_terminal(),
        );
        if shared.after_all(before).state.done {
            let i = choose|i: int| 0 <= i < before.len() && #[trigger] before[i].ends();
            assert(steps[i].ends());
        }
        if exists|i: int| 0 <= i < steps.len() && #[trigger] steps[i].ends() {
            let i = choose|i: int| 0 <= i < steps.len() && #[trigger] steps[i].ends();
            assert(i < before.len() ==> before[i].ends());
        }
        if last.ends() {
            assert(steps[steps.len() - 1].ends());
        }
        let earlier = shared.all_records(before);
        let records = shared.all_records(steps);
        assert forall|i: int, k: int|
            #![trigger ends_first(steps, i), records[k]]
            ends_first(steps, i) && 0 <= k < records.len() && records[k] is Terminal implies records[k]
            == Record::Terminal(shared.task, steps[i].outcome()->0) by {
            if i < before.len() {
                assert(before[i].ends());
                assert forall|j: int| 0 <= j < i implies !#[trigger] before[j].ends() by {
                    assert(before[j] == steps[j]);
                }
                assert(ends_first(before, i));
                assert(shared.after_all(before).state.done);
            } else {
                assert forall|j: int| 0 <= j < before.len() implies !#[trigger] before[j].ends() by {
                    assert(!steps[j].ends());
                }
                assert(!shared.after_all(before).state.done);
                lemma_counted(earlier, is_terminal(), k);
            }
            if k < earlier.len() {
                assert(records[k] == earlier[k]);
            } else {
                assert(records[k] == shared.after_all(before).records(last)[k - earlier.len()]);
            }
        }
    }
}

/// What satisfies the predicate is counted.
proof fn lemma_counted(records: Seq<Record>, wanted: spec_fn(Record) -> bool, k: int)
    ensures
        0 <= k < records.len() && wanted(records[k]) ==> count(records, wanted) > 0,
    decreases records.len(),
{
    if records.len() > 0 {
        lemma_counted(records.drop_last(), wanted, k);
    }
}

/// A task that has ended is not polled or woken again: after the record of its end
/// there is none but that of the end of a poll that had begun before.
pub proof fn law_no_poll_follows_the_end<W>(shared: Shared<W>, steps: Seq<Step<W>>)
    requires
        !shared.state.done,
        shared.admits_all(steps),
    ensures
        forall|i: int, k: int|
            0 <= i < k < shared.all_records(steps).len() && (#[trigger] shared.all_records(
                steps,
            )[i]) is Terminal ==> (#[trigger] shared.all_records(steps)[k]) is End,
    decreases steps.len(),
{
    if steps.len() > 0 {
        let before = steps.drop_last();
        let last = steps.last();
        law_no_poll_follows_the_end(shared, before);
        law_tasks_end_once(shared, before);
        let earlier = shared.all_records(before);
        let later = shared.after_all(before).records(last);
        let records = shared.all_records(steps);
        assert(records == earlier + later);
        assert forall|i: int, k: int|
            0 <= i < k < records.len() && (#[trigger] records[i]) is Terminal implies (
        #[trigger] records[k]) is End by {
            if i < earlier.len() {
                lemma_counted(earlier, is_terminal(), i);
                assert(shared.after_all(before).state.done);
            }
            if k >= earlier.len() {
                assert(records[k] == later[k - earlier.len()]);
            }
        }
    }
}

/// The given number of wakes.
pub open spec fn wakes<W>(n: nat) -> Seq<Step<W>> {
    Seq::new(n, |i: int| Step::<W>::Wake)
}

/// Wakes between two polls coalesce into one record, of the poll that comes next,
/// while each of them is passed on to the same upstream waker; the next poll
/// reports how many there were.
pub proof fn law_wakes_coalesce<W>(shared: Shared<W>, n: nat)
    requires
        !shared.state.done,
        shared.state.wakes == 0,
        shared.state.poll < u64::MAX,
        0 < n <= u64::MAX,
    ensures
        shared.all_records(wakes(n)) == seq![
            Record::Wake(shared.task, (shared.state.poll + 1) as u64),
        ],
        shared.after_all(wakes(n)).live_upstream() == shared.live_upstream(),
        shared.after_all(wakes(n)).begin_records() == seq![
            Record::Begin(shared.task, (shared.state.poll + 1) as u64, n as u64),
        ],
    decreases n,
{
    let before = wakes::<W>((n - 1) as nat);
    assert(wakes::<W>(n).drop_last() =~= before);
    assert(wakes::<W>(n).last() == Step::<W>::Wake);
    if n == 1 {
        assert(before.len() == 0);
    } else {
        law_wakes_coalesce(shared, (n - 1) as nat);
    }
    lemma_wakes_counted(shared, n);
    lemma_wakes_counted(shared, (n - 1) as nat);
    assert(shared.after_all(before).wake_records() =~= (if n == 1 {
        seq![Record::Wake(shared.task, (shared.state.poll + 1) as u64)]
    } else {
        seq![]
    }));
    assert(shared.all_records(wakes(n)) == shared.all_records(before) + shared.after_all(
        before,
    ).wake_records());
    assert(shared.all_records(wakes(n)) =~= seq![
        Record::Wake(shared.task, (shared.state.poll + 1) as u64),
    ]);
    assert(shared.after_all(wakes(n)).begin_records() =~= seq![
        Record::Begin(shared.task, (shared.state.poll + 1) as u64, n as u64),
    ]);
}

proof fn lemma_wakes_counted<W>(shared: Shared<W>, n: nat)
    requires
        !shared.state.done,
        shared.state.wakes + n <= u64::MAX,
    ensures
        shared.after_all(wakes(n)) == (Shared {
            task: shared.task,
            state: State { wakes: (shared.state.wakes + n) as u64, ..shared.state },
        }),
    decreases n,
{
    if n > 0 {
        assert(wakes::<W>(n).drop_last() =~= wakes::<W>((n - 1) as nat));
        lemma_wakes_counted(shared, (n - 1) as nat);
    }
}

/// A wake or an end that comes after the task has ended changes nothing and
/// records nothing.
pub proof fn law_late_wakes_are_silent<W>(shared: Shared<W>, outcome: u64)
    requires
        shared.state.done,
    ensures
        shared.after_wake() == shared,
        shared.wake_records() == Seq::<Record>::empty(),
        shared.after_finish() == shared,
        shared.finish_records(outcome) == Seq::<Record>::empty(),
        shared.live_upstream() is None,
{
}

/// The coverage of a task is complete as long as its polls and wakes can be counted.
pub proof fn law_coverage_is_complete_below_the_limits<W>(shared: Shared<W>, steps: Seq<Step<W>>)
    requires
        shared.state.poll + shared.state.wakes + steps.len() < u64::MAX,
    ensures
        count(shared.all_records(steps), is_coverage()) == 0,
        shared.after_all(steps).state.poll + shared.after_all(steps).state.wakes
            <= shared.state.poll + shared.state.wakes + steps.len(),
    decreases steps.len(),
{
    reveal_with_fuel(count, 4);
    if steps.len() > 0 {
        let before = steps.drop_last();
        law_coverage_is_complete_below_the_limits(shared, before);
        lemma_count_add(
            shared.all_records(before),
            shared.after_all(before).records(steps.last()),
            is_coverage(),
        );
    }
}

/// How many of the steps begin a poll.
pub open spec fn polls<W>(steps: Seq<Step<W>>) -> nat
    decreases steps.len(),
{
    if steps.len() == 0 {
        0
    } else {
        polls(steps.drop_last()) + (if steps.last() is Begin {
            1nat
        } else {
            0
        })
    }
}

/// Polls are numbered one after the other, whatever happens between them, so that
/// a poll without a wake stays distinct from the one before.
pub proof fn law_polls_are_numbered<W>(shared: Shared<W>, steps: Seq<Step<W>>)
    requires
        shared.state.poll + steps.len() < u64::MAX,
    ensures
        polls(steps) <= steps.len(),
        shared.after_all(steps).state.poll == shared.state.poll + polls(steps),
        shared.after_all(steps).begin_records() == seq![
            Record::Begin(
                shared.after_all(steps).task,
                (shared.state.poll + polls(steps) + 1) as u64,
                shared.after_all(steps).state.wakes,
            ),
        ],
    decreases steps.len(),
{
    if steps.len() > 0 {
        law_polls_are_numbered(shared, steps.drop_last());
    }
    let after = shared.after_all(steps);
    assert(after.begin_records() =~= seq![
        Record::Begin(after.task, (after.state.poll + 1) as u64, after.state.wakes),
    ]);
}

proof fn lemma_steps_add<W>(shared: Shared<W>, a: Seq<Step<W>>, b: Seq<Step<W>>)
    ensures
        shared.after_all(a + b) == shared.after_all(a).after_all(b),
        shared.all_records(a + b) == shared.all_records(a) + shared.after_all(a).all_records(b),
    decreases b.len(),
{
    if b.len() == 0 {
        assert(a + b =~= a);
    } else {
        assert((a + b).drop_last() =~= a + b.drop_last());
        lemma_steps_add(shared, a, b.drop_last());
        assert(shared.all_records(a + b) =~= shared.all_records(a) + shared.after_all(
            a,
        ).all_records(b));
    }
}

proof fn lemma_one_step<W>(shared: Shared<W>, step: Step<W>)
    ensures
        shared.after_all(seq![step]) == shared.after(step),
        shared.all_records(seq![step]) == shared.records(step),
{
    reveal_with_fuel(Shared::after_all, 2);
    reveal_with_fuel(Shared::all_records, 2);
    assert(seq![step].drop_last() =~= Seq::empty());
    assert(shared.all_records(seq![step]) =~= shared.records(step));
}

/// A poll is recorded by its beginning and its end, with one number. Wakes that
/// arrive while it runs are recorded between the two, as those of the next poll, and
/// a task that the poll completes is recorded as ended after it.
pub proof fn law_polls_are_bracketed<W>(shared: Shared<W>, n: nat, outcome: u64)
    requires
        !shared.state.done,
        shared.state.poll + 1 < u64::MAX,
        n <= u64::MAX,
    ensures
        ({
            let poll = (shared.state.poll + 1) as u64;
            shared.all_records(seq![Step::Begin] + wakes(n) + seq![Step::End(poll, outcome)])
                == seq![Record::Begin(shared.task, poll, shared.state.wakes)] + (if n == 0 {
                seq![]
            } else {
                seq![Record::Wake(shared.task, (poll + 1) as u64)]
            }) + seq![Record::End(shared.task, poll, outcome)] + (if outcome == OUTCOME_PENDING {
                seq![]
            } else {
                seq![Record::Terminal(shared.task, outcome)]
            })
        }),
{
    let poll = (shared.state.poll + 1) as u64;
    let begin = seq![Step::<W>::Begin];
    let end = seq![Step::<W>::End(poll, outcome)];
    let begun = shared.after_begin();
    lemma_one_step(shared, Step::Begin);
    lemma_steps_add(shared, begin, wakes(n));
    lemma_steps_add(shared, begin + wakes(n), end);
    lemma_wakes_counted(begun, n);
    if n > 0 {
        law_wakes_coalesce(begun, n);
    }
    lemma_one_step(begun.after_all(wakes(n)), Step::End(poll, outcome));
    assert(shared.begin_records() =~= seq![Record::Begin(shared.task, poll, shared.state.wakes)]);
    assert(shared.all_records(begin + wakes(n) + end) =~= seq![
        Record::Begin(shared.task, poll, shared.state.wakes),
    ] + (if n == 0 {
        seq![]
    } else {
        seq![Record::Wake(shared.task, (poll + 1) as u64)]
    }) + seq![Record::End(shared.task, poll, outcome)] + (if outcome == OUTCOME_PENDING {
        seq![]
    } else {
        seq![Record::Terminal(shared.task, outcome)]
    }));
}

/// Once a waker is upstream, every wake is passed on to it and to no other, until
/// another one replaces it or the task ends.
pub proof fn law_wakes_reach_the_last_waker<W>(
    shared: Shared<W>,
    upstream: Arc<W>,
    steps: Seq<Step<W>>,
)
    requires
        !shared.state.done,
        forall|i: int| 0 <= i < steps.len() ==> !((#[trigger] steps[i]) is Replace),
    ensures
        shared.after_replace(upstream).after_all(steps).live_upstream() == (if shared.after_replace(
            upstream,
        ).after_all(steps).state.done {
            None
        } else {
            Some(upstream)
        }),
    decreases steps.len(),
{
    if steps.len() > 0 {
        let before = steps.drop_last();
        assert forall|i: int| 0 <= i < before.len() implies !((#[trigger] before[i]) is Replace) by {
            assert(before[i] == steps[i]);
        }
        law_wakes_reach_the_last_waker(shared, upstream, before);
        assert(steps[steps.len() - 1] == steps.last());
    }
}

/// The codes that a collector knows: roles count from one, outcomes from zero, and
/// coverage failures from three, and at most 256 states are retained.
pub proof fn law_codes_are_fixed()
    ensures
        Role::Marshal.spec_code() == 1,
        Role::Voter.spec_code() == 2,
        Role::Resolver.spec_code() == 3,
        Role::Batcher.spec_code() == 4,
        Role::PeerSend.spec_code() == 5,
        Role::PeerReceive.spec_code() == 6,
        OUTCOME_PENDING == 0,
        OUTCOME_READY == 1,
        OUTCOME_CANCELLED == 2,
        COVERAGE_RETAINED == 3,
        COVERAGE_TASKS == 4,
        COVERAGE_POLLS == 5,
        COVERAGE_WAKES == 6,
        RETAINED_LIMIT == 256,
{
}

/// A row names the stage of its record, and carries the numbers of the record under their
/// own names and no others.
pub proof fn law_rows_carry_the_numbers_of_their_record(a: u64, b: u64, c: u64)
    ensures
        ({
            let register = Record::Register(a, b).spec_row();
            let wake = Record::Wake(a, b).spec_row();
            let begin = Record::Begin(a, b, c).spec_row();
            let end = Record::End(a, b, c).spec_row();
            let terminal = Record::Terminal(a, b).spec_row();
            let coverage = Record::Coverage(a).spec_row();
            &&& register.stage@ == "async_task_register"@
            &&& (register.task_id, register.task_role) == (Some(a), Some(b))
            &&& (register.task_poll, register.task_wakes) == (None::<u64>, None::<u64>)
            &&& register.task_outcome is None
            &&& wake.stage@ == "async_task_wake"@
            &&& (wake.task_id, wake.task_poll) == (Some(a), Some(b))
            &&& (wake.task_role, wake.task_wakes) == (None::<u64>, None::<u64>)
            &&& wake.task_outcome is None
            &&& begin.stage@ == "async_task_poll_begin"@
            &&& (begin.task_id, begin.task_poll) == (Some(a), Some(b))
            &&& begin.task_wakes == Some(c)
            &&& (begin.task_role, begin.task_outcome) == (None::<u64>, None::<u64>)
            &&& end.stage@ == "async_task_poll_end"@
            &&& (end.task_id, end.task_poll) == (Some(a), Some(b))
            &&& end.task_outcome == Some(c)
            &&& (end.task_role, end.task_wakes) == (None::<u64>, None::<u64>)
            &&& terminal.stage@ == "async_task_terminal"@
            &&& (terminal.task_id, terminal.task_outcome) == (Some(a), Some(b))
            &&& (terminal.task_role, terminal.task_poll) == (None::<u64>, None::<u64>)
            &&& terminal.task_wakes is None
            &&& coverage.stage@ == "async_task_coverage"@
            &&& coverage.task_outcome == Some(a)
            &&& (coverage.task_id, coverage.task_role) == (None::<u64>, None::<u64>)
            &&& (coverage.task_poll, coverage.task_wakes) == (None::<u64>, None::<u64>)
        }),
{
}

/// Every record has a row of its own, in order.
pub proof fn law_every_record_has_its_row(records: Seq<Record>, more: Seq<Record>)
    ensures
        rows(records).len() == records.len(),
        forall|i: int|
            0 <= i < records.len() ==> #[trigger] rows(records)[i] == records[i].spec_row(),
        rows(records + more) == rows(records) + rows(more),
{
    assert(rows(records + more) =~= rows(records) + rows(more));
}

/// A task is observed exactly if fewer states are retained than allowed and identifiers
/// last. It then takes up one state and one identifier, and otherwise nothing, and which
/// of the two was wanting is told, the limit first. A state that is released makes room
/// for another task, with the next identifier.
pub proof fn law_tasks_are_observed_while_there_is_room(accounting: Accounting)
    ensures
        accounting.retained < accounting.limit && accounting.next < u64::MAX ==> {
            &&& accounting.admits()
            &&& accounting.after_capture().retained == accounting.retained + 1
            &&& accounting.after_capture().next == accounting.next + 1
            &&& accounting.after_capture().limit == accounting.limit
            &&& accounting.after_capture().after_release() == (Accounting {
                next: (accounting.next + 1) as u64,
                ..accounting
            })
        },
        accounting.retained >= accounting.limit || accounting.next == u64::MAX ==> {
            &&& !accounting.admits()
            &&& accounting.after_capture() == accounting
        },
        accounting.retained >= accounting.limit ==> accounting.refusal() == Record::Coverage(3),
        accounting.retained < accounting.limit ==> accounting.refusal() == Record::Coverage(4),
        0 < accounting.retained <= accounting.limit && accounting.next < u64::MAX ==> {
            &&& accounting.after_release().admits()
            &&& accounting.after_release().retained == accounting.retained - 1
            &&& accounting.after_release().next == accounting.next
            &&& accounting.after_release().limit == accounting.limit
        },
{
}

/// Each step changes only what it is about. A new waker changes nothing but where wakes
/// are passed on to. A wake is counted, and passed on to the waker upstream. A poll takes
/// the wakes, and counts itself. The end of a task lets go of the waker, and the end of a
/// poll that leaves the future pending changes nothing. What has ended stays as it is.
pub proof fn law_steps_change_what_they_are_about<W>(
    shared: Shared<W>,
    upstream: Arc<W>,
    outcome: u64,
)
    ensures
        ({
            let replaced = shared.after_replace(upstream);
            let woken = shared.after_wake();
            let begun = shared.after_begin();
            let ended = shared.after_finish();
            &&& replaced.task == shared.task
            &&& replaced.state.upstream == Some(upstream)
            &&& replaced.state.poll == shared.state.poll
            &&& replaced.state.wakes == shared.state.wakes
            &&& replaced.state.done == shared.state.done
            &&& replaced.begin_records() == shared.begin_records()
            &&& replaced.wake_records() == shared.wake_records()
            &&& woken.task == shared.task
            &&& woken.state.upstream == shared.state.upstream
            &&& woken.state.poll == shared.state.poll
            &&& woken.state.done == shared.state.done
            &&& !shared.state.done && shared.state.wakes < u64::MAX ==> woken.state.wakes
                == shared.state.wakes + 1
            &&& shared.state.done || shared.state.wakes == u64::MAX ==> woken.state.wakes
                == shared.state.wakes
            &&& begun.task == shared.task
            &&& begun.state.upstream == shared.state.upstream
            &&& begun.state.done == shared.state.done
            &&& begun.state.wakes == 0
            &&& shared.state.poll < u64::MAX ==> begun.state.poll == shared.state.poll + 1
            &&& shared.state.poll == u64::MAX ==> begun.state.poll == u64::MAX
            &&& ended.task == shared.task
            &&& ended.state.done
            &&& !shared.state.done ==> ended.state.upstream is None
            &&& ended.state.poll == shared.state.poll
            &&& ended.state.wakes == shared.state.wakes
            &&& shared.state.done ==> ended == shared
            &&& shared.after_end(0) == shared
            &&& outcome != 0 ==> shared.after_end(outcome) == ended
            &&& shared.state.done ==> shared.live_upstream() is None
            &&& !shared.state.done ==> shared.live_upstream() == shared.state.upstream
        }),
{
}

/// What each step of a task that has not ended records. The first wake since a poll began
/// is recorded for the next poll, and a further one is not. A poll that begins is recorded
/// with the wakes since the last one. A poll that ends is recorded, and then the end of
/// the task if the future is not pending. A count that is exhausted is reported first, and
/// no record is lost to it.
pub proof fn law_records_tell_the_step<W>(shared: Shared<W>, poll: u64, outcome: u64)
    requires
        !shared.state.done,
    ensures
        ({
            let task = shared.task;
            let polls = shared.state.poll;
            let wakes = shared.state.wakes;
            let next = if polls == u64::MAX {
                polls
            } else {
                (polls + 1) as u64
            };
            &&& wakes == 0 && polls < u64::MAX ==> shared.wake_records() == seq![
                Record::Wake(task, next),
            ]
            &&& 0 < wakes < u64::MAX && polls < u64::MAX ==> shared.wake_records() == Seq::<
                Record,
            >::empty()
            &&& wakes == 0 && polls == u64::MAX ==> shared.wake_records() == seq![
                Record::Coverage(6),
                Record::Wake(task, next),
            ]
            &&& wakes > 0 && (wakes == u64::MAX || polls == u64::MAX) ==> shared.wake_records()
                == seq![Record::Coverage(6)]
            &&& polls < u64::MAX ==> shared.begin_records() == seq![
                Record::Begin(task, next, wakes),
            ]
            &&& polls == u64::MAX ==> shared.begin_records() == seq![
                Record::Coverage(5),
                Record::Begin(task, next, wakes),
            ]
            &&& shared.finish_records(outcome) == seq![Record::Terminal(task, outcome)]
            &&& shared.end_records(poll, 0) == seq![Record::End(task, poll, 0)]
            &&& outcome != 0 ==> shared.end_records(poll, outcome) == seq![
                Record::End(task, poll, outcome),
                Record::Terminal(task, outcome),
            ]
        }),
{
    let task = shared.task;
    let next = saturating_succ(shared.state.poll);
    let none = Seq::<Record>::empty();
    let wake = seq![Record::Wake(task, next)];
    let begin = seq![Record::Begin(task, next, shared.state.wakes)];
    let end = seq![Record::End(task, poll, outcome)];
    assert(none + wake =~= wake);
    assert(none + none =~= none);
    assert(none + begin =~= begin);
    assert(seq![Record::Coverage(6)] + none =~= seq![Record::Coverage(6)]);
    assert(seq![Record::Coverage(6)] + wake =~= seq![Record::Coverage(6), wake[0]]);
    assert(seq![Record::Coverage(5)] + begin =~= seq![Record::Coverage(5), begin[0]]);
    assert(seq![Record::End(task, poll, 0)] + none =~= seq![Record::End(task, poll, 0)]);
    assert(end + seq![Record::Terminal(task, outcome)] =~= seq![
        end[0],
        Record::Terminal(task, outcome),
    ]);
}

/// A task that is observed from now on has no waker, polls or wakes, and has not ended.
/// A task that has ended records nothing but the end of a poll.
pub proof fn law_tasks_start_afresh<W>(task: u64, shared: Shared<W>, poll: u64, outcome: u64)
    ensures
        Shared::<W>::fresh(task).task == task,
        Shared::<W>::fresh(task).state.upstream is None,
        Shared::<W>::fresh(task).state.poll == 0,
        Shared::<W>::fresh(task).state.wakes == 0,
        !Shared::<W>::fresh(task).state.done,
        shared.state.done ==> shared.end_records(poll, outcome) == seq![
            Record::End(shared.task, poll, outcome),
        ],
{
    assert(seq![Record::End(shared.task, poll, outcome)] + Seq::<Record>::empty() =~= seq![
        Record::End(shared.task, poll, outcome),
    ]);
}

/// Every step can be taken of a task that has not ended, and every one but a new poll of
/// one that has.
pub proof fn law_steps_can_be_taken<W>(shared: Shared<W>, steps: Seq<Step<W>>, step: Step<W>)
    ensures
        !shared.state.done ==> shared.admits(step),
        step is Wake || step is End || step is Finish ==> shared.admits(step),
        shared.admits_all(Seq::<Step<W>>::empty()),
        shared.after_all(Seq::<Step<W>>::empty()) == shared,
        shared.after_all(steps.push(step)) == shared.after_all(steps).after(step),
        shared.admits_all(steps) && shared.after_all(steps).admits(step) ==> shared.admits_all(
            steps.push(step),
        ),
{
    assert(steps.push(step).drop_last() =~= steps);
}

/// How many of the steps are wakes since the last poll began, or since the first of them.
pub open spec fn wakes_since_begin<W>(steps: Seq<Step<W>>) -> nat
    decreases steps.len(),
{
    if steps.len() == 0 {
        0
    } else {
        match steps.last() {
            Step::Begin => 0,
            Step::Wake => wakes_since_begin(steps.drop_last()) + 1,
            _ => wakes_since_begin(steps.drop_last()),
        }
    }
}

/// The waker that was last put upstream in the course of the steps, or else the given one.
pub open spec fn last_waker<W>(steps: Seq<Step<W>>, upstream: Option<Arc<W>>) -> Option<Arc<W>>
    decreases steps.len(),
{
    if steps.len() == 0 {
        upstream
    } else {
        match steps.last() {
            Step::Replace(replacement) => Some(replacement),
            _ => last_waker(steps.drop_last(), upstream),
        }
    }
}

/// A poll that begins is recorded with its own number and with as many wakes as arrived
/// since the poll before began, and the next wake is passed on to the last waker that was
/// put upstream, whatever else happened in between, new wakers included, as long as the
/// task has not ended and its polls and wakes can be counted.
pub proof fn law_next_poll_reports_the_wakes_since_the_last<W>(
    shared: Shared<W>,
    steps: Seq<Step<W>>,
)
    requires
        !shared.state.done,
        shared.state.poll + shared.state.wakes + steps.len() < u64::MAX,
        forall|i: int| 0 <= i < steps.len() ==> !(#[trigger] steps[i]).ends(),
    ensures
        ({
            let after = shared.after_all(steps);
            let reported = wakes_since_begin(steps) + (if polls(steps) == 0 {
                shared.state.wakes as nat
            } else {
                0
            });
            let number = shared.state.poll + polls(steps) + 1;
            &&& !after.state.done
            &&& after.begin_records() == seq![
                Record::Begin(shared.task, number as u64, reported as u64),
            ]
            &&& after.wake_records() == (if reported == 0 {
                seq![Record::Wake(shared.task, number as u64)]
            } else {
                seq![]
            })
            &&& after.live_upstream() == last_waker(steps, shared.state.upstream)
        }),
{
    lemma_counted_steps(shared, steps);
    let after = shared.after_all(steps);
    law_records_tell_the_step(after, 0, 0);
}

proof fn lemma_counted_steps<W>(shared: Shared<W>, steps: Seq<Step<W>>)
    requires
        !shared.state.done,
        shared.state.poll + shared.state.wakes + steps.len() < u64::MAX,
        forall|i: int| 0 <= i < steps.len() ==> !(#[trigger] steps[i]).ends(),
    ensures
        !shared.after_all(steps).state.done,
        shared.after_all(steps).task == shared.task,
        polls(steps) <= steps.len(),
        wakes_since_begin(steps) <= steps.len(),
        shared.after_all(steps).state.poll == shared.state.poll + polls(steps),
        shared.after_all(steps).state.wakes == wakes_since_begin(steps) + (if polls(steps) == 0 {
            shared.state.wakes as nat
        } else {
            0
        }),
        shared.after_all(steps).state.upstream == last_waker(steps, shared.state.upstream),
    decreases steps.len(),
{
    if steps.len() > 0 {
        let before = steps.drop_last();
        assert forall|i: int| 0 <= i < before.len() implies !(#[trigger] before[i]).ends() by {
            assert(before[i] == steps[i]);
        }
        lemma_counted_steps(shared, before);
        assert(steps[steps.len() - 1] == steps.last());
    }
}

/// A request to observe a task, or the end of a retained state.
pub ghost enum Claim {
    Capture,
    Release,
}

impl Accounting {
    /// The accounting after the claims, in order.
    pub open spec fn after_claims(self, claims: Seq<Claim>) -> Accounting
        decreases claims.len(),
    {
        if claims.len() == 0 {
            self
        } else {
            let before = self.after_claims(claims.drop_last());
            match claims.last() {
                Claim::Capture => before.after_capture(),
                Claim::Release => before.after_release(),
            }
        }
    }

    /// The identifiers given out for the claims, in order.
    pub open spec fn tasks(self, claims: Seq<Claim>) -> Seq<u64>
        decreases claims.len(),
    {
        if claims.len() == 0 {
            seq![]
        } else {
            let before = self.after_claims(claims.drop_last());
            if claims.last() is Capture && before.admits() {
                self.tasks(claims.drop_last()).push(before.next)
            } else {
                self.tasks(claims.drop_last())
            }
        }
    }

    /// Only a state that is retained is released.
    pub open spec fn balanced(self, claims: Seq<Claim>) -> bool
        decreases claims.len(),
    {
        claims.len() > 0 ==> {
            &&& self.balanced(claims.drop_last())
            &&& claims.last() is Release ==> self.after_claims(claims.drop_last()).retained > 0
        }
    }
}

/// However tasks come and go, the retained states never exceed the limit, and the
/// identifiers are positive and increase, so that no two tasks share one.
pub proof fn law_retained_is_bounded_and_tasks_are_distinct(
    accounting: Accounting,
    claims: Seq<Claim>,
)
    requires
        accounting.wf(),
        accounting.balanced(claims),
    ensures
        accounting.after_claims(claims).wf(),
        accounting.after_claims(claims).limit == accounting.limit,
        accounting.next <= accounting.after_claims(claims).next,
        forall|i: int|
            0 <= i < accounting.tasks(claims).len() ==> 1 <= accounting.next
                <= #[trigger] accounting.tasks(claims)[i] < accounting.after_claims(claims).next,
        forall|i: int, j: int|
            0 <= i < j < accounting.tasks(claims).len() ==> accounting.tasks(claims)[i]
                < accounting.tasks(claims)[j],
    decreases claims.len(),
{
    if claims.len() > 0 {
        let earlier = claims.drop_last();
        law_retained_is_bounded_and_tasks_are_distinct(accounting, earlier);
        let before = accounting.after_claims(earlier);
        let tasks = accounting.tasks(earlier);
        assert(accounting.tasks(claims) == (if claims.last() is Capture && before.admits() {
            tasks.push(before.next)
        } else {
            tasks
        }));
        assert(before.next <= accounting.after_claims(claims).next);
    }
}

} // verus!

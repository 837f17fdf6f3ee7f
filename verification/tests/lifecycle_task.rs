use futures::future::poll_fn;
use lifecycle::lifecycle_task::{
    capture, observe, poll_outcome, selected, Accounting, Capture, PollGuard, Record, Role, Row,
    Shared, Sink, State, OUTCOME_CANCELLED, OUTCOME_PENDING, OUTCOME_READY, RETAINED_LIMIT,
};
use std::future::Future;
use std::pin::Pin;
use std::sync::atomic::{AtomicBool, AtomicUsize, Ordering};
use std::sync::{Arc, Mutex, Weak};
use std::task::{Context, Poll, Wake, Waker};

type Rows = Arc<Mutex<Vec<Row>>>;
type Ledger = Arc<Mutex<Accounting>>;

fn setup(limit: usize) -> (Ledger, Rows) {
    (
        Arc::new(Mutex::new(Accounting::new(limit))),
        Arc::new(Mutex::new(Vec::new())),
    )
}

fn publish(rows: &Rows, sink: Sink) {
    rows.lock().unwrap().extend(sink.into_rows());
}

fn retained(accounting: &Ledger) -> usize {
    accounting.lock().unwrap().retained
}

struct Counter(AtomicUsize);

impl Wake for Counter {
    fn wake(self: Arc<Self>) {
        self.0.fetch_add(1, Ordering::SeqCst);
    }
}

fn counter() -> (Arc<Counter>, Waker) {
    let counter = Arc::new(Counter(AtomicUsize::new(0)));
    (counter.clone(), Waker::from(counter))
}

/// The wakers of a task refer to this.
struct Proxy {
    shared: Mutex<Shared<Waker>>,
    accounting: Ledger,
    rows: Rows,
}

impl Wake for Proxy {
    fn wake(self: Arc<Self>) {
        self.wake_by_ref();
    }

    fn wake_by_ref(self: &Arc<Self>) {
        let mut sink = Sink::new();
        let upstream = self.shared.lock().unwrap().wake_by_ref(&mut sink);
        publish(&self.rows, sink);
        if let Some(upstream) = upstream {
            upstream.wake_by_ref();
        }
    }
}

impl Drop for Proxy {
    fn drop(&mut self) {
        self.accounting.lock().unwrap().release();
    }
}

enum Task<F> {
    Plain(Pin<Box<F>>),
    Observed(Pin<Box<F>>, Arc<Proxy>),
}

impl<F: Future> Task<F> {
    fn new(role: Role, future: F, accounting: &Ledger, rows: &Rows) -> Self {
        let mut sink = Sink::new();
        let captured = capture(role, future, &mut accounting.lock().unwrap(), &mut sink);
        publish(rows, sink);
        match captured {
            Capture::Disabled(future) => Task::Plain(Box::pin(future)),
            Capture::Enabled(observed) => Task::Observed(
                Box::pin(observed.future),
                Arc::new(Proxy {
                    shared: Mutex::new(observed.shared),
                    accounting: accounting.clone(),
                    rows: rows.clone(),
                }),
            ),
        }
    }

    fn poll(&mut self, waker: &Waker) -> Poll<F::Output> {
        match self {
            Task::Plain(future) => future.as_mut().poll(&mut Context::from_waker(waker)),
            Task::Observed(future, proxy) => {
                let own = Waker::from(proxy.clone());
                let replace = proxy
                    .shared
                    .lock()
                    .unwrap()
                    .replaces_upstream(|old: &Waker| old.will_wake(waker));
                if replace {
                    let replacement = Arc::new(waker.clone());
                    let retired = proxy.shared.lock().unwrap().replace_upstream(replacement);
                    drop(retired);
                }
                let mut sink = Sink::new();
                let mut guard = proxy.shared.lock().unwrap().begin_poll(&mut sink);
                publish(&proxy.rows, sink);
                let result = future.as_mut().poll(&mut Context::from_waker(&own));
                let outcome = poll_outcome(result.is_ready());
                let mut sink = Sink::new();
                let retired = guard.end(&mut proxy.shared.lock().unwrap(), outcome, &mut sink);
                publish(&proxy.rows, sink);
                drop(retired);
                result
            }
        }
    }
}

impl<F> Drop for Task<F> {
    fn drop(&mut self) {
        if let Task::Observed(_, proxy) = self {
            let mut sink = Sink::new();
            let retired = proxy.shared.lock().unwrap().abandon(&mut sink);
            publish(&proxy.rows, sink);
            drop(retired);
        }
    }
}

fn pending(saved: Arc<Mutex<Option<Waker>>>) -> impl Future<Output = ()> {
    poll_fn(move |cx| {
        *saved.lock().unwrap() = Some(cx.waker().clone());
        Poll::Pending
    })
}

fn occurrences(rows: &Rows, record: Record) -> usize {
    rows.lock().unwrap().iter().filter(|row| **row == record.row()).count()
}

fn position(rows: &Rows, record: Record) -> usize {
    rows.lock()
        .unwrap()
        .iter()
        .position(|row| *row == record.row())
        .unwrap()
}

fn staged(rows: &Rows, stage: &str) -> usize {
    rows.lock().unwrap().iter().filter(|row| row.stage == stage).count()
}

#[test]
fn lifecycle_task_wakes_coalesce_without_coalescing_notifications() {
    let (accounting, rows) = setup(256);
    let saved = Arc::new(Mutex::new(None));
    let mut task = Task::new(Role::Voter, pending(saved.clone()), &accounting, &rows);
    let (counter, waker) = counter();
    assert!(task.poll(&waker).is_pending());
    let proxy = saved.lock().unwrap().clone().unwrap();
    for _ in 0..8 {
        let proxy = proxy.clone();
        for _ in 0..1000 {
            proxy.wake_by_ref();
        }
    }
    assert!(task.poll(&waker).is_pending());
    assert_eq!(counter.0.load(Ordering::SeqCst), 8000);
    assert_eq!(occurrences(&rows, Record::Wake(1, 2)), 1);
    assert_eq!(occurrences(&rows, Record::Begin(1, 2, 8000)), 1);
    drop(task);
    assert_eq!(retained(&accounting), 1);
    drop(proxy);
    *saved.lock().unwrap() = None;
    assert_eq!(retained(&accounting), 0);
}

#[test]
fn lifecycle_task_self_wake_and_spurious_polls_remain_distinct() {
    let (accounting, rows) = setup(256);
    let mut calls = 0;
    let future = poll_fn(move |cx| {
        calls += 1;
        if calls == 1 {
            cx.waker().wake_by_ref();
        }
        if calls == 3 {
            Poll::Ready(7)
        } else {
            Poll::Pending
        }
    });
    let mut task = Task::new(Role::Resolver, future, &accounting, &rows);
    let (_, waker) = counter();
    assert!(task.poll(&waker).is_pending());
    assert!(task.poll(&waker).is_pending());
    assert_eq!(task.poll(&waker), Poll::Ready(7));
    assert_eq!(occurrences(&rows, Record::Begin(1, 1, 0)), 1);
    assert_eq!(occurrences(&rows, Record::Begin(1, 2, 1)), 1);
    assert_eq!(occurrences(&rows, Record::Begin(1, 3, 0)), 1);
    assert!(
        position(&rows, Record::Wake(1, 2)) < position(&rows, Record::End(1, 1, 0)),
        "wake during poll must not be counted as all waiting"
    );
}

#[test]
fn lifecycle_task_cap_counts_stale_wakers_and_returns_original_future() {
    let (accounting, rows) = setup(1);
    let saved = Arc::new(Mutex::new(None));
    let mut task = Task::new(Role::PeerSend, pending(saved.clone()), &accounting, &rows);
    let (_, waker) = counter();
    assert!(task.poll(&waker).is_pending());
    drop(task);
    let mut task = Task::new(Role::PeerReceive, std::future::ready(9), &accounting, &rows);
    assert!(matches!(&task, Task::Plain(_)));
    assert_eq!(task.poll(&waker), Poll::Ready(9));
    assert_eq!(occurrences(&rows, Record::Coverage(3)), 1);
    *saved.lock().unwrap() = None;
    assert_eq!(retained(&accounting), 0);
}

#[test]
fn lifecycle_task_ready_cancel_unpolled_and_panic_end_once() {
    for outcome in 0..4 {
        let (accounting, rows) = setup(256);
        let future = poll_fn(move |_| {
            if outcome == 1 {
                Poll::Ready(())
            } else {
                Poll::Pending
            }
        });
        let mut task = Task::new(Role::Batcher, future, &accounting, &rows);
        let (_, waker) = counter();
        if outcome == 3 {
            // A poll that unwinds drops its guard without having ended it.
            let Task::Observed(_, proxy) = &task else {
                unreachable!()
            };
            let mut sink = Sink::new();
            let mut shared = proxy.shared.lock().unwrap();
            let mut guard = shared.begin_poll(&mut sink);
            guard.close(&mut shared, &mut sink);
            guard.close(&mut shared, &mut sink);
            drop(shared);
            publish(&rows, sink);
        } else if outcome != 2 {
            let result = task.poll(&waker);
            assert_eq!(result.is_ready(), outcome == 1);
        }
        drop(task);
        assert_eq!(staged(&rows, "async_task_terminal"), 1);
        assert_eq!(staged(&rows, "async_task_poll_end"), usize::from(outcome != 2));
        assert_eq!(retained(&accounting), 0);
    }
}

#[test]
fn lifecycle_task_replacement_and_callbacks_do_not_hold_state_lock() {
    struct Reentrant {
        proxy: Arc<Proxy>,
        calls: AtomicUsize,
    }
    impl Wake for Reentrant {
        fn wake(self: Arc<Self>) {
            assert!(self.proxy.shared.try_lock().is_ok());
            self.calls.fetch_add(1, Ordering::SeqCst);
        }
    }
    impl Drop for Reentrant {
        fn drop(&mut self) {
            assert!(self.proxy.shared.try_lock().is_ok());
        }
    }
    let (accounting, rows) = setup(256);
    let saved = Arc::new(Mutex::new(None));
    let mut task = Task::new(Role::Marshal, pending(saved.clone()), &accounting, &rows);
    let Task::Observed(_, shared) = &task else {
        unreachable!()
    };
    let shared = shared.clone();
    let upstream = Arc::new(Reentrant {
        proxy: shared.clone(),
        calls: AtomicUsize::new(0),
    });
    let waker = Waker::from(upstream.clone());
    assert!(task.poll(&waker).is_pending());
    let proxy = saved.lock().unwrap().clone().unwrap();
    proxy.wake_by_ref();
    assert_eq!(upstream.calls.load(Ordering::SeqCst), 1);
    let (_, replacement) = counter();
    assert!(task.poll(&replacement).is_pending());
    proxy.wake_by_ref();
    assert_eq!(upstream.calls.load(Ordering::SeqCst), 1);
    drop(task);
    drop(waker);
    drop(upstream);
    drop(shared);
    drop(proxy);
    *saved.lock().unwrap() = None;
    assert_eq!(retained(&accounting), 0);
    assert_eq!(staged(&rows, "async_task_terminal"), 1);
}

#[test]
fn lifecycle_task_late_wake_after_terminal_does_not_reopen_task() {
    let (accounting, rows) = setup(256);
    let saved = Arc::new(Mutex::new(None));
    let saved_future = saved.clone();
    let mut calls = 0;
    let inner = poll_fn(move |cx| {
        *saved_future.lock().unwrap() = Some(cx.waker().clone());
        calls += 1;
        if calls == 2 {
            Poll::Ready(())
        } else {
            Poll::Pending
        }
    });
    let mut task = Task::new(Role::Marshal, inner, &accounting, &rows);
    let (counter, waker) = counter();
    assert!(task.poll(&waker).is_pending());
    let proxy = saved.lock().unwrap().clone().unwrap();
    let Task::Observed(_, shared) = &task else {
        unreachable!()
    };
    // The wake is counted before the second poll and published only after it.
    let shared = shared.clone();
    let mut late = Sink::new();
    shared.shared.lock().unwrap().wake_by_ref(&mut late);
    assert!(task.poll(&waker).is_ready());
    publish(&rows, late);
    assert!(position(&rows, Record::Terminal(1, 1)) < position(&rows, Record::Wake(1, 2)));
    proxy.wake();
    assert_eq!(counter.0.load(Ordering::SeqCst), 0);
    drop(task);
    assert_eq!(staged(&rows, "async_task_terminal"), 1);
    assert_eq!(staged(&rows, "async_task_wake"), 1);
}

#[test]
fn lifecycle_task_late_wake_emission_is_explicitly_ambiguous() {
    let (accounting, rows) = setup(256);
    let saved = Arc::new(Mutex::new(None));
    let mut task = Task::new(Role::Marshal, pending(saved.clone()), &accounting, &rows);
    let (_, waker) = counter();
    assert!(task.poll(&waker).is_pending());
    let Task::Observed(_, shared) = &task else {
        unreachable!()
    };
    // A prior executor notification can allow polling before this wake is emitted.
    let shared = shared.clone();
    let mut late = Sink::new();
    shared.shared.lock().unwrap().wake_by_ref(&mut late);
    assert!(task.poll(&waker).is_pending());
    publish(&rows, late);
    assert!(
        position(&rows, Record::Begin(1, 2, 1)) < position(&rows, Record::Wake(1, 2)),
        "consumer must reject an exact wait for this generation"
    );
}

#[test]
fn lifecycle_task_counter_exhaustion_fails_coverage_without_losing_work() {
    let (accounting, rows) = setup(256);
    accounting.lock().unwrap().next = u64::MAX;
    let mut task = Task::new(Role::Marshal, std::future::ready(19), &accounting, &rows);
    let (_, waker) = counter();
    assert_eq!(task.poll(&waker), Poll::Ready(19));
    assert_eq!(*rows.lock().unwrap(), vec![Record::Coverage(4).row()]);
    assert_eq!(retained(&accounting), 0);
    let (accounting, rows) = setup(256);
    let saved = Arc::new(Mutex::new(None));
    let mut task = Task::new(Role::Voter, pending(saved.clone()), &accounting, &rows);
    let (counter, waker) = counter();
    assert!(task.poll(&waker).is_pending());
    let Task::Observed(_, proxy) = &task else {
        unreachable!()
    };
    {
        let mut shared = proxy.shared.lock().unwrap();
        shared.state.poll = u64::MAX;
        shared.state.wakes = u64::MAX;
    }
    saved.lock().unwrap().as_ref().unwrap().wake_by_ref();
    assert_eq!(counter.0.load(Ordering::SeqCst), 1);
    assert!(task.poll(&waker).is_pending());
    assert_eq!(occurrences(&rows, Record::Coverage(5)), 1);
    assert_eq!(occurrences(&rows, Record::Coverage(6)), 1);
}

#[test]
fn lifecycle_task_trace_dispatch_and_fields_survive_foreign_thread_wake() {
    let (accounting, rows) = setup(256);
    let saved = Arc::new(Mutex::new(None));
    let mut task = Task::new(Role::Marshal, pending(saved.clone()), &accounting, &rows);
    let (_, waker) = counter();
    assert!(task.poll(&waker).is_pending());
    let proxy = saved.lock().unwrap().clone().unwrap();
    proxy.wake();
    assert!(task.poll(&waker).is_pending());
    drop(task);
    let rows = rows.lock().unwrap();
    assert!(rows.iter().any(|row| row.stage == "async_task_wake"
        && row.task_id == Some(1)
        && row.task_poll == Some(2)));
    assert_eq!(
        rows.iter().filter(|row| row.stage == "async_task_terminal").count(),
        1
    );
    assert_eq!(rows[0].task_role, Some(Role::Marshal.code()));
}

#[test]
fn roles_have_fixed_codes() {
    let roles = [
        Role::Marshal,
        Role::Voter,
        Role::Resolver,
        Role::Batcher,
        Role::PeerSend,
        Role::PeerReceive,
    ];
    for (i, role) in roles.iter().enumerate() {
        assert_eq!(role.code(), i as u64 + 1);
    }
}

#[test]
fn rows_carry_only_the_fields_of_their_stage() {
    let empty = Row {
        stage: "",
        task_id: None,
        task_role: None,
        task_poll: None,
        task_wakes: None,
        task_outcome: None,
    };
    assert_eq!(
        Record::Register(1, 2).row(),
        Row { stage: "async_task_register", task_id: Some(1), task_role: Some(2), ..empty }
    );
    assert_eq!(
        Record::Wake(1, 2).row(),
        Row { stage: "async_task_wake", task_id: Some(1), task_poll: Some(2), ..empty }
    );
    assert_eq!(
        Record::Begin(1, 2, 3).row(),
        Row {
            stage: "async_task_poll_begin",
            task_id: Some(1),
            task_poll: Some(2),
            task_wakes: Some(3),
            ..empty
        }
    );
    assert_eq!(
        Record::End(1, 2, 0).row(),
        Row {
            stage: "async_task_poll_end",
            task_id: Some(1),
            task_poll: Some(2),
            task_outcome: Some(0),
            ..empty
        }
    );
    assert_eq!(
        Record::Terminal(1, 2).row(),
        Row { stage: "async_task_terminal", task_id: Some(1), task_outcome: Some(2), ..empty }
    );
    assert_eq!(
        Record::Coverage(6).row(),
        Row { stage: "async_task_coverage", task_outcome: Some(6), ..empty }
    );
}

#[test]
fn only_the_selected_setting_enables_observation() {
    assert!(selected(Some("selected_v1")));
    assert!(!selected(Some("selected_v2")));
    assert!(!selected(Some("")));
    assert!(!selected(None));
    let mut accounting = Accounting::new(RETAINED_LIMIT);
    let mut sink = Sink::new();
    let captured: Capture<u8, ()> = observe(Role::Voter, 5, false, &mut accounting, &mut sink);
    assert!(matches!(captured, Capture::Disabled(5)));
    let captured: Capture<u8, ()> = observe(Role::Voter, 5, true, &mut accounting, &mut sink);
    let Capture::Enabled(observed) = captured else {
        panic!("expected an observed future");
    };
    assert_eq!(observed.future, 5);
    assert_eq!((accounting.retained, accounting.next), (1, 2));
    assert_eq!(sink.into_rows(), vec![Record::Register(1, 2).row()]);
}

#[test]
fn abandoned_task_ends_as_cancelled_and_retires_its_waker() {
    let mut accounting = Accounting::new(2);
    let mut sink = Sink::new();
    let captured: Capture<u8, u32> = capture(Role::Batcher, 1, &mut accounting, &mut sink);
    let Capture::Enabled(mut observed) = captured else {
        panic!("expected an observed future");
    };
    assert!(observed.shared.replaces_upstream(|_: &u32| true));
    assert!(observed.shared.replace_upstream(Arc::new(3)).is_none());
    assert!(!observed.shared.replaces_upstream(|old: &u32| *old == 3));
    assert!(observed.shared.replaces_upstream(|old: &u32| *old == 4));
    let retired = observed.shared.abandon(&mut sink);
    assert_eq!(retired, Some(Arc::new(3)));
    assert_eq!(observed.shared.abandon(&mut sink), None);
    assert_eq!(
        sink.into_rows(),
        vec![
            Record::Register(1, 4).row(),
            Record::Terminal(1, OUTCOME_CANCELLED).row(),
        ]
    );
}

#[test]
fn woken_upstream_is_the_same_allocation() {
    let waker = Arc::new(9u32);
    let mut shared = Shared {
        task: 1,
        state: State { upstream: Some(waker.clone()), poll: 1, wakes: 0, done: false },
    };
    let mut sink = Sink::new();
    let upstream = shared.wake_by_ref(&mut sink).unwrap();
    assert!(Arc::ptr_eq(&upstream, &waker));
    assert_eq!(shared.state.wakes, 1);
}

#[test]
fn guards_end_a_poll_with_its_outcome() {
    let mut shared: Shared<u32> = Shared {
        task: 4,
        state: State { upstream: None, poll: 0, wakes: 0, done: false },
    };
    let mut sink = Sink::new();
    let mut guard: PollGuard = shared.begin_poll(&mut sink);
    guard.end(&mut shared, OUTCOME_PENDING, &mut sink);
    assert!(!shared.state.done);
    let mut guard = shared.begin_poll(&mut sink);
    guard.end(&mut shared, OUTCOME_READY, &mut sink);
    assert!(shared.state.done && guard.ended);
    assert_eq!(
        sink.into_rows(),
        vec![
            Record::Begin(4, 1, 0).row(),
            Record::End(4, 1, 0).row(),
            Record::Begin(4, 2, 0).row(),
            Record::End(4, 2, 1).row(),
            Record::Terminal(4, 1).row(),
        ]
    );
}

/// The state of a task whose wakers are foreign.
struct ForeignTask {
    shared: Mutex<Shared<Foreign>>,
    accounting: Ledger,
    rows: Rows,
}

impl ForeignTask {
    fn wake_by_ref(&self) {
        let mut sink = Sink::new();
        let upstream = self.shared.lock().unwrap().wake_by_ref(&mut sink);
        publish(&self.rows, sink);
        if let Some(upstream) = upstream {
            upstream.0.callback(&upstream.0.wakes);
        }
    }

    fn poll(&self, waker: &Foreign) {
        let replace = self
            .shared
            .lock()
            .unwrap()
            .replaces_upstream(|old: &Foreign| Arc::ptr_eq(&old.0, &waker.0));
        if replace {
            let replacement = Arc::new(waker.clone());
            let retired = self.shared.lock().unwrap().replace_upstream(replacement);
            drop(retired);
        }
        let mut sink = Sink::new();
        let mut guard = self.shared.lock().unwrap().begin_poll(&mut sink);
        let retired =
            guard.end(&mut self.shared.lock().unwrap(), poll_outcome(false), &mut sink);
        publish(&self.rows, sink);
        drop(retired);
    }

    fn abandon(&self) {
        let mut sink = Sink::new();
        let retired = self.shared.lock().unwrap().abandon(&mut sink);
        publish(&self.rows, sink);
        drop(retired);
    }
}

impl Drop for ForeignTask {
    fn drop(&mut self) {
        self.accounting.lock().unwrap().release();
    }
}

/// Counts the callbacks of a waker, each of which re-enters the task.
struct Callbacks {
    task: Weak<ForeignTask>,
    clones: AtomicUsize,
    wakes: AtomicUsize,
    drops: AtomicUsize,
    active: AtomicBool,
}

impl Callbacks {
    fn callback(&self, counter: &AtomicUsize) {
        counter.fetch_add(1, Ordering::SeqCst);
        if let Some(task) = self.task.upgrade() {
            assert!(task.shared.try_lock().is_ok(), "foreign callback under state lock");
            if !self.active.swap(true, Ordering::SeqCst) {
                task.wake_by_ref();
                self.active.store(false, Ordering::SeqCst);
            }
        }
    }
}

struct Foreign(Arc<Callbacks>);

impl Foreign {
    fn new(task: &Arc<ForeignTask>) -> Self {
        Foreign(Arc::new(Callbacks {
            task: Arc::downgrade(task),
            clones: AtomicUsize::new(0),
            wakes: AtomicUsize::new(0),
            drops: AtomicUsize::new(0),
            active: AtomicBool::new(false),
        }))
    }
}

impl Clone for Foreign {
    fn clone(&self) -> Self {
        self.0.callback(&self.0.clones);
        Foreign(self.0.clone())
    }
}

impl Drop for Foreign {
    fn drop(&mut self) {
        self.0.callback(&self.0.drops);
    }
}

#[test]
fn lifecycle_task_foreign_raw_waker_callbacks_reenter_safely() {
    let (accounting, rows) = setup(256);
    let mut sink = Sink::new();
    let captured = capture(Role::Marshal, (), &mut accounting.lock().unwrap(), &mut sink);
    let Capture::Enabled(observed) = captured else {
        unreachable!()
    };
    let task = Arc::new(ForeignTask {
        shared: Mutex::new(observed.shared),
        accounting: accounting.clone(),
        rows: rows.clone(),
    });
    let old_waker = Foreign::new(&task);
    let old = old_waker.0.clone();
    task.poll(&old_waker);
    task.poll(&old_waker);
    task.wake_by_ref();
    assert_eq!(old.clones.load(Ordering::SeqCst), 1);
    let new_waker = Foreign::new(&task);
    let new = new_waker.0.clone();
    task.poll(&new_waker);
    assert_eq!(old.drops.load(Ordering::SeqCst), 1);
    task.abandon();
    assert_eq!(new.drops.load(Ordering::SeqCst), 1);
    drop(task);
    drop(old_waker);
    drop(new_waker);
    assert_eq!(retained(&accounting), 0);
    assert_eq!(staged(&rows, "async_task_terminal"), 1);
}

#[test]
fn first_end_decides_the_outcome() {
    for (first, second) in [(OUTCOME_READY, OUTCOME_CANCELLED), (OUTCOME_CANCELLED, OUTCOME_READY)] {
        let mut shared: Shared<u32> = Shared {
            task: 3,
            state: State { upstream: None, poll: 0, wakes: 0, done: false },
        };
        let mut sink = Sink::new();
        let mut guard = shared.begin_poll(&mut sink);
        guard.end(&mut shared, first, &mut sink);
        shared.finish(second, &mut sink);
        shared.wake_by_ref(&mut sink);
        assert_eq!(
            sink.into_rows(),
            vec![
                Record::Begin(3, 1, 0).row(),
                Record::End(3, 1, first).row(),
                Record::Terminal(3, first).row(),
            ]
        );
    }
}

//! The task-scheduling engine of the installer: named setup steps (`Task`),
//! the bounded-concurrency dispatcher (`TaskSchedule`) and the `Installer`
//! facade that owns both together with the installation metadata.

use vstd::prelude::*;
use vstd::string::StringExecFns;
use core::time::Duration;

verus! {

/// A descriptive failure raised by a setup step, or by the engine around one.
#[derive(Debug, Clone, PartialEq, Eq)]
pub struct TaskError {
    pub message: String,
}

impl TaskError {
    /// Builds an error carrying the given description.
    pub fn new(message: &str) -> (r: Self)
        ensures
            r.message@ == message@,
    {
        TaskError { message: String::from_str(message) }
    }

    /// The description carried by this error.
    pub fn message(&self) -> (r: String)
        ensures
            r@ == self.message@,
    {
        self.message.clone()
    }
}

/// One named, identified unit of work of the installation: a caller-assigned
/// identifier, a human label, and the step to execute against the shared
/// installation target.
#[derive(Clone)]
pub struct Task<B> {
    pub task_id: u16,
    pub name: String,
    pub body: B,
}

impl<B> Task<B> {
    /// Creates a task from its identifier, its label and the step to run.
    pub fn new(task_id: u16, name: &str, func: B) -> (t: Self)
        ensures
            t.task_id == task_id,
            t.name@ == name@,
            t.body == func,
    {
        Task { task_id, name: String::from_str(name), body: func }
    }

    /// The task's label.
    pub fn name(&self) -> (r: String)
        ensures
            r@ == self.name@,
    {
        self.name.clone()
    }

    /// The task's identifier.
    pub fn id(&self) -> (r: u16)
        ensures
            r == self.task_id,
    {
        self.task_id
    }

    /// Runs the step once against the given target handle. On success the
    /// identifying pair comes back; on failure the pair comes back with the
    /// step's error, so a caller can tell which task failed.
    pub fn run<DB>(self, database: DB) -> (r: Result<(String, u16), ((String, u16), TaskError)>) where
        B: FnOnce(DB) -> Result<(), TaskError>,

        requires
            call_requires(self.body, (database,)),
        ensures
            match r {
                Ok(p) => p.0@ == self.name@ && p.1 == self.task_id && call_ensures(
                    self.body,
                    (database,),
                    Ok::<(), TaskError>(()),
                ),
                Err(pe) => pe.0.0@ == self.name@ && pe.0.1 == self.task_id && call_ensures(
                    self.body,
                    (database,),
                    Err::<(), TaskError>(pe.1),
                ),
            },
    {
        let Task { task_id, name, body } = self;
        let res = body(database);
        match res {
            Ok(_u) => Ok((name, task_id)),
            Err(e) => Err(((name, task_id), e)),
        }
    }
}

/// What a completed task reports back to the dispatcher, and what the whole
/// run returns: the identifying pair of a success, or the failing task's pair
/// with its error.
pub type TaskResult = Result<(String, u16), ((String, u16), TaskError)>;

/// One step of a dispatcher run, as recorded by its trace: a task handed to a
/// worker, or an observation on the completion channel (`None` when the wait
/// timed out).
pub enum DispatchStep<B> {
    Launched(Task<B>),
    Observed(Option<TaskResult>),
}

/// The order in which a run hands out registered tasks: last registered,
/// first dispatched.
pub open spec fn dispatch_order<B>(tasks: Seq<Task<B>>) -> Seq<Task<B>>
    decreases tasks.len(),
{
    if tasks.len() == 0 {
        Seq::empty()
    } else {
        seq![tasks.last()] + dispatch_order(tasks.drop_last())
    }
}

/// The tasks a trace has handed to workers, in order.
pub open spec fn launches_of<B>(tr: Seq<DispatchStep<B>>) -> Seq<Task<B>>
    decreases tr.len(),
{
    if tr.len() == 0 {
        Seq::empty()
    } else {
        match tr.last() {
            DispatchStep::Launched(t) => launches_of(tr.drop_last()).push(t),
            DispatchStep::Observed(_) => launches_of(tr.drop_last()),
        }
    }
}

/// How many successful completions a trace has observed.
pub open spec fn success_count_of<B>(tr: Seq<DispatchStep<B>>) -> nat
    decreases tr.len(),
{
    if tr.len() == 0 {
        0
    } else {
        match tr.last() {
            DispatchStep::Observed(ev) => if ev matches Some(Ok(_)) {
                success_count_of(tr.drop_last()) + 1
            } else {
                success_count_of(tr.drop_last())
            },
            DispatchStep::Launched(_) => success_count_of(tr.drop_last()),
        }
    }
}

/// At every instant of the trace, the tasks handed out and not yet observed
/// complete never exceed the concurrency width.
pub open spec fn bounded_in_flight<B>(tr: Seq<DispatchStep<B>>, thread_count: u8) -> bool {
    forall|k: int|
        0 <= k <= tr.len() ==> #[trigger] launches_of(tr.take(k)).len() <= success_count_of(
            tr.take(k),
        ) + thread_count
}

/// At every instant of the trace, no more completions have been observed than
/// tasks handed out: the dispatcher only waits while work is in flight.
pub open spec fn completions_follow_launches<B>(tr: Seq<DispatchStep<B>>) -> bool {
    forall|k: int|
        0 <= k <= tr.len() ==> success_count_of(tr.take(k)) <= #[trigger] launches_of(
            tr.take(k),
        ).len()
}

/// Dispatch is a stack over registration: the tasks handed out are a prefix of
/// the registered tasks in reverse order, each registered task at most once.
pub open spec fn lifo_dispatch<B>(tr: Seq<DispatchStep<B>>, registered: Seq<Task<B>>) -> bool {
    launches_of(tr).is_prefix_of(dispatch_order(registered))
}

/// Every observation in the trace is one the completion receiver may report.
pub open spec fn events_from_recv<B, R: Fn() -> Option<TaskResult>>(
    tr: Seq<DispatchStep<B>>,
    recv: R,
) -> bool {
    forall|i: int|
        0 <= i < tr.len() ==> match #[trigger] tr[i] {
            DispatchStep::Observed(ev) => call_ensures(recv, (), ev),
            DispatchStep::Launched(_) => true,
        }
}

/// Every task the trace hands out goes through the launch action, paired with
/// some clone of the shared target handle.
pub open spec fn launches_through<B, DB, L: Fn(Task<B>, DB)>(
    tr: Seq<DispatchStep<B>>,
    launch: L,
) -> bool {
    forall|i: int|
        0 <= i < tr.len() ==> match #[trigger] tr[i] {
            DispatchStep::Launched(t) => exists|db: DB| call_ensures(launch, (t, db), ()),
            DispatchStep::Observed(_) => true,
        }
}

/// A failure or a timed-out wait ends the run at once: every observation
/// before the last one is a success, so nothing is dispatched after a failure
/// is reported.
pub open spec fn failures_terminal<B>(tr: Seq<DispatchStep<B>>) -> bool {
    forall|i: int|
        0 <= i < tr.len() - 1 ==> match #[trigger] tr[i] {
            DispatchStep::Observed(ev) => ev matches Some(Ok(_)),
            DispatchStep::Launched(_) => true,
        }
}

/// The success-shaped empty result: the marker a run returns when it stops
/// without a failing task but also without a final completed task to name.
pub open spec fn empty_marker(p: (String, u16)) -> bool {
    p.0@ == Seq::<char>::empty() && p.1 == 0
}

/// How a run's return value relates to its trace: a failure is the last
/// observation, verbatim; the empty marker comes from a timed-out wait —
/// which the engine reaches only after filling the width with launches as
/// far as the registered tasks allowed — or from a run with nothing to
/// dispatch; any other success is the last observed completion, after every
/// registered task was handed out and every one of them reported success.
pub open spec fn run_result_of<B>(
    tr: Seq<DispatchStep<B>>,
    registered: Seq<Task<B>>,
    thread_count: u8,
    r: TaskResult,
) -> bool {
    match r {
        Err(f) => tr.len() > 0 && tr.last() == DispatchStep::<B>::Observed(Some(Err(f))),
        Ok(p) => (tr.len() == 0 && empty_marker(p) && (thread_count == 0 || registered.len() == 0))
            || (tr.len() > 0 && tr.last() == DispatchStep::<B>::Observed(None) && empty_marker(p)
            && launches_of(tr).len() == vstd::math::min(
            success_count_of(tr) + thread_count,
            registered.len() as int,
        )) || (tr.len() > 0 && tr.last() == DispatchStep::<B>::Observed(Some(Ok(p)))
            && launches_of(tr) == dispatch_order(registered) && success_count_of(tr)
            == registered.len()),
    }
}

/// Everything a finished run guarantees about itself, stated over the trace of
/// launches and observations that explains it.
pub open spec fn valid_run<B, DB, L: Fn(Task<B>, DB), R: Fn() -> Option<TaskResult>>(
    schedule: TaskSchedule<B>,
    tr: Seq<DispatchStep<B>>,
    r: TaskResult,
    launch: L,
    recv: R,
) -> bool {
    &&& bounded_in_flight(tr, schedule.thread_count)
    &&& completions_follow_launches(tr)
    &&& lifo_dispatch(tr, schedule.tasks@)
    &&& events_from_recv(tr, recv)
    &&& launches_through(tr, launch)
    &&& failures_terminal(tr)
    &&& run_result_of(tr, schedule.tasks@, schedule.thread_count, r)
}

proof fn lemma_dispatch_order_len<B>(tasks: Seq<Task<B>>)
    ensures
        dispatch_order(tasks).len() == tasks.len(),
    decreases tasks.len(),
{
    if tasks.len() > 0 {
        lemma_dispatch_order_len(tasks.drop_last());
    }
}

proof fn lemma_dispatch_order_index<B>(tasks: Seq<Task<B>>, i: int)
    requires
        0 <= i < tasks.len(),
    ensures
        dispatch_order(tasks)[i] == tasks[tasks.len() - 1 - i],
    decreases tasks.len(),
{
    lemma_dispatch_order_len(tasks);
    if i > 0 {
        lemma_dispatch_order_len(tasks.drop_last());
        lemma_dispatch_order_index(tasks.drop_last(), i - 1);
    }
}

proof fn lemma_take_is_prefix<A>(s: Seq<A>, k: int)
    requires
        0 <= k <= s.len(),
    ensures
        s.take(k).is_prefix_of(s),
{
    assert(s.take(k) =~= s.subrange(0, s.take(k).len() as int));
}

proof fn lemma_counts_push_launched<B>(tr: Seq<DispatchStep<B>>, t: Task<B>)
    ensures
        launches_of(tr.push(DispatchStep::Launched(t))) == launches_of(tr).push(t),
        success_count_of(tr.push(DispatchStep::Launched(t))) == success_count_of(tr),
{
    let tr2 = tr.push(DispatchStep::Launched(t));
    assert(tr2.drop_last() =~= tr);
}

proof fn lemma_counts_push_observed<B>(tr: Seq<DispatchStep<B>>, ev: Option<TaskResult>)
    ensures
        launches_of(tr.push(DispatchStep::Observed(ev))) == launches_of(tr),
        success_count_of(tr.push(DispatchStep::Observed(ev))) == success_count_of(tr) + (
        if ev matches Some(Ok(_)) {
            1nat
        } else {
            0nat
        }),
{
    let tr2 = tr.push(DispatchStep::Observed(ev));
    assert(tr2.drop_last() =~= tr);
}

proof fn lemma_prefix_counts_extend<B>(
    tr: Seq<DispatchStep<B>>,
    step: DispatchStep<B>,
    thread_count: u8,
)
    requires
        bounded_in_flight(tr, thread_count),
        completions_follow_launches(tr),
        launches_of(tr.push(step)).len() <= success_count_of(tr.push(step)) + thread_count,
        success_count_of(tr.push(step)) <= launches_of(tr.push(step)).len(),
    ensures
        bounded_in_flight(tr.push(step), thread_count),
        completions_follow_launches(tr.push(step)),
{
    let tr2 = tr.push(step);
    assert forall|k: int| 0 <= k <= tr2.len() implies launches_of(tr2.take(k)).len()
        <= success_count_of(tr2.take(k)) + thread_count && success_count_of(tr2.take(k))
        <= launches_of(tr2.take(k)).len() by {
        if k <= tr.len() {
            assert(tr2.take(k) =~= tr.take(k));
            assert(launches_of(tr.take(k)).len() <= success_count_of(tr.take(k)) + thread_count);
            assert(success_count_of(tr.take(k)) <= launches_of(tr.take(k)).len());
        } else {
            assert(tr2.take(k) =~= tr2);
        }
    }
}

/// Dispatch order is registration order reversed: a run hands tasks out from
/// the last registered back to the first, so with a width of one the tasks
/// run exactly in reverse registration order.
pub proof fn lemma_dispatch_order_reverses<B>(tasks: Seq<Task<B>>)
    ensures
        dispatch_order(tasks).len() == tasks.len(),
        forall|i: int|
            0 <= i < tasks.len() ==> #[trigger] dispatch_order(tasks)[i] == tasks[tasks.len() - 1
                - i],
        dispatch_order(tasks) == tasks.reverse(),
{
    lemma_dispatch_order_len(tasks);
    assert forall|i: int| 0 <= i < tasks.len() implies #[trigger] dispatch_order(tasks)[i]
        == tasks[tasks.len() - 1 - i] by {
        lemma_dispatch_order_index(tasks, i);
    }
    assert(dispatch_order(tasks) =~= tasks.reverse());
}

/// A fully drained run hands out every registered task exactly once: what it
/// dispatches is, as a multiset, exactly what was registered.
pub proof fn lemma_full_dispatch_exactly_once<B>(tasks: Seq<Task<B>>)
    ensures
        dispatch_order(tasks).to_multiset() == tasks.to_multiset(),
{
    lemma_dispatch_order_reverses(tasks);
    tasks.lemma_reverse_to_multiset();
}

/// Every observation in the trace so far reported a success: the shape a
/// trace keeps for as long as the drain loop keeps going.
spec fn observed_all_success<B>(tr: Seq<DispatchStep<B>>) -> bool {
    forall|i: int|
        0 <= i < tr.len() ==> match #[trigger] tr[i] {
            DispatchStep::Observed(ev) => ev matches Some(Ok(_)),
            DispatchStep::Launched(_) => true,
        }
}

proof fn lemma_failures_terminal_push<B>(tr: Seq<DispatchStep<B>>, step: DispatchStep<B>)
    requires
        observed_all_success(tr),
    ensures
        failures_terminal(tr.push(step)),
{
    let tr2 = tr.push(step);
    assert forall|i: int| 0 <= i < tr2.len() - 1 implies (match #[trigger] tr2[i] {
        DispatchStep::Observed(ev) => ev matches Some(Ok(_)),
        DispatchStep::Launched(_) => true,
    }) by {
        assert(tr2[i] == tr[i]);
    }
}

proof fn lemma_observed_success_push<B>(tr: Seq<DispatchStep<B>>, step: DispatchStep<B>)
    requires
        observed_all_success(tr),
        step matches DispatchStep::Observed(ev) ==> ev matches Some(Ok(_)),
    ensures
        observed_all_success(tr.push(step)),
{
    let tr2 = tr.push(step);
    assert forall|i: int| 0 <= i < tr2.len() implies (match #[trigger] tr2[i] {
        DispatchStep::Observed(ev) => ev matches Some(Ok(_)),
        DispatchStep::Launched(_) => true,
    }) by {
        if i < tr.len() {
            assert(tr2[i] == tr[i]);
        } else {
            assert(tr2[i] == step);
        }
    }
}

proof fn lemma_props_push_observed<B, DB, L: Fn(Task<B>, DB), R: Fn() -> Option<TaskResult>>(
    tr: Seq<DispatchStep<B>>,
    ev: Option<TaskResult>,
    launch: L,
    recv: R,
)
    requires
        events_from_recv(tr, recv),
        launches_through::<B, DB, L>(tr, launch),
        call_ensures(recv, (), ev),
    ensures
        events_from_recv(tr.push(DispatchStep::Observed(ev)), recv),
        launches_through::<B, DB, L>(tr.push(DispatchStep::Observed(ev)), launch),
{
    let tr2 = tr.push(DispatchStep::Observed(ev));
    assert forall|i: int| 0 <= i < tr2.len() implies (match #[trigger] tr2[i] {
        DispatchStep::Observed(e) => call_ensures(recv, (), e),
        DispatchStep::Launched(_) => true,
    }) by {
        if i < tr.len() {
            assert(tr2[i] == tr[i]);
        } else {
            assert(tr2[i] == DispatchStep::<B>::Observed(ev));
        }
    }
    assert forall|i: int| 0 <= i < tr2.len() implies (match #[trigger] tr2[i] {
        DispatchStep::Launched(t) => exists|db: DB| call_ensures(launch, (t, db), ()),
        DispatchStep::Observed(_) => true,
    }) by {
        if i < tr.len() {
            assert(tr2[i] == tr[i]);
        } else {
            assert(tr2[i] == DispatchStep::<B>::Observed(ev));
        }
    }
}

proof fn lemma_props_push_launched<B, DB, L: Fn(Task<B>, DB), R: Fn() -> Option<TaskResult>>(
    tr: Seq<DispatchStep<B>>,
    t: Task<B>,
    db: DB,
    launch: L,
    recv: R,
)
    requires
        events_from_recv(tr, recv),
        launches_through::<B, DB, L>(tr, launch),
        call_ensures(launch, (t, db), ()),
    ensures
        events_from_recv(tr.push(DispatchStep::Launched(t)), recv),
        launches_through::<B, DB, L>(tr.push(DispatchStep::Launched(t)), launch),
{
    let tr2 = tr.push(DispatchStep::Launched(t));
    assert forall|i: int| 0 <= i < tr2.len() implies (match #[trigger] tr2[i] {
        DispatchStep::Observed(e) => call_ensures(recv, (), e),
        DispatchStep::Launched(_) => true,
    }) by {
        if i < tr.len() {
            assert(tr2[i] == tr[i]);
        } else {
            assert(tr2[i] == DispatchStep::<B>::Launched(t));
        }
    }
    assert forall|i: int| 0 <= i < tr2.len() implies (match #[trigger] tr2[i] {
        DispatchStep::Launched(t2) => exists|db2: DB| call_ensures(launch, (t2, db2), ()),
        DispatchStep::Observed(_) => true,
    }) by {
        if i < tr.len() {
            assert(tr2[i] == tr[i]);
        } else {
            assert(tr2[i] == DispatchStep::<B>::Launched(t));
        }
        match tr2[i] {
            DispatchStep::Launched(t2) => {
                if i < tr.len() {
                    assert(match tr[i] {
                        DispatchStep::Launched(t3) => exists|db2: DB|
                            call_ensures(launch, (t3, db2), ()),
                        DispatchStep::Observed(_) => true,
                    });
                } else {
                    assert(t2 == t);
                    assert(call_ensures(launch, (t2, db), ()));
                    assert(exists|db2: DB| call_ensures(launch, (t2, db2), ()));
                }
            },
            DispatchStep::Observed(_) => {},
        }
    }
}

/// The bounded-concurrency dispatcher: a pending stack of tasks, the maximum
/// number allowed in flight at once, and the bound on each wait for the next
/// completion.
pub struct TaskSchedule<B> {
    pub tasks: Vec<Task<B>>,
    pub thread_count: u8,
    pub timeout: Duration,
}

impl<B> TaskSchedule<B> {
    /// An empty schedule with the given concurrency width and wait bound.
    pub fn new(thread_count: u8, timeout: Duration) -> (s: Self)
        ensures
            s.tasks@ == Seq::<Task<B>>::empty(),
            s.thread_count == thread_count,
            s.timeout == timeout,
    {
        TaskSchedule { tasks: Vec::new(), thread_count, timeout }
    }

    /// Appends a task to the pending stack.
    pub fn add_task(&mut self, task: Task<B>)
        ensures
            final(self).tasks@ == old(self).tasks@.push(task),
            final(self).thread_count == old(self).thread_count,
            final(self).timeout == old(self).timeout,
    {
        self.tasks.push(task);
    }

    /// Consumes the schedule and drains it: hands out up to `thread_count`
    /// tasks, last registered first, then waits for completions, refilling the
    /// freed slot after each success, until the stack is drained, a task
    /// fails, or a wait passes without any completion.
    ///
    /// The two actions the engine cannot perform itself come in as
    /// capabilities. `launch` starts one task on a worker of its own, giving
    /// it a clone of the target handle; on completion the worker reports the
    /// task's result on the completion channel. `recv` waits for the next
    /// report, at most the schedule's `timeout`, and returns `None` when none
    /// arrived in time. A failure is returned verbatim with the failing
    /// task's name and identifier; a timed-out wait and an empty schedule
    /// return the empty success marker; a full drain returns the identifying
    /// pair of the last task observed to complete.
    #[verifier::loop_isolation(false)]
    pub fn run<DB: Clone, L: Fn(Task<B>, DB), R: Fn() -> Option<TaskResult>>(
        self,
        database: DB,
        launch: L,
        recv: R,
    ) -> (r: TaskResult)
        requires
            forall|t: Task<B>, db: DB| call_requires(launch, (t, db)),
            call_requires(recv, ()),
        ensures
            exists|tr: Seq<DispatchStep<B>>| #[trigger] valid_run(self, tr, r, launch, recv),
    {
        let ghost gsched = self;
        let thread_count = self.thread_count;
        let tc: usize = thread_count as usize;
        let mut pending = self.tasks;
        let ghost registered = pending@;
        let ghost mut tr = Seq::<DispatchStep<B>>::empty();
        let mut in_flight: usize = 0;
        let mut completed: usize = 0;
        let _total = pending.len();
        proof {
            assert(registered.len() == _total);
            assert(registered.len() <= usize::MAX);
            assert(registered.take(registered.len() as int) =~= registered);
            lemma_dispatch_order_len(registered);
            assert(dispatch_order(registered).take(0) =~= Seq::<Task<B>>::empty());
        }
        while in_flight < tc && pending.len() > 0
            invariant
                in_flight <= tc,
                completed == 0,
                tr.len() == in_flight,
                pending@ == registered.take(pending@.len() as int),
                pending@.len() + in_flight == registered.len(),
                launches_of(tr).len() == in_flight,
                launches_of(tr) == dispatch_order(registered).take(in_flight as int),
                success_count_of(tr) == 0,
                observed_all_success(tr),
                events_from_recv(tr, recv),
                launches_through::<B, DB, L>(tr, launch),
                bounded_in_flight(tr, thread_count),
                completions_follow_launches(tr),
            decreases pending.len(),
        {
            let ghost pend0 = pending@;
            let ghost tr0 = tr;
            let ghost l0 = in_flight as int;
            let task = pending.pop().unwrap();
            let ghost gtask = task;
            let db = database.clone();
            let ghost gdb = db;
            launch(task, db);
            in_flight = in_flight + 1;
            proof {
                tr = tr0.push(DispatchStep::Launched(gtask));
                lemma_counts_push_launched(tr0, gtask);
                lemma_props_push_launched(tr0, gtask, gdb, launch, recv);
                lemma_observed_success_push(tr0, DispatchStep::Launched(gtask));
                lemma_prefix_counts_extend(tr0, DispatchStep::Launched(gtask), thread_count);
                assert(pending@ =~= registered.take(pend0.len() - 1));
                lemma_dispatch_order_index(registered, l0);
                assert(gtask == registered[pend0.len() - 1]);
                assert(dispatch_order(registered).take(l0 + 1) =~= dispatch_order(
                    registered,
                ).take(l0).push(gtask));
            }
        }
        loop
            invariant
                in_flight <= tc,
                launches_of(tr).len() == in_flight + completed,
                success_count_of(tr) == completed,
                pending@ == registered.take(pending@.len() as int),
                pending@.len() + in_flight + completed == registered.len(),
                launches_of(tr) == dispatch_order(registered).take((in_flight + completed) as int),
                pending@.len() > 0 ==> in_flight == tc,
                in_flight == 0 ==> tr.len() == 0 && (thread_count == 0 || registered.len() == 0),
                observed_all_success(tr),
                events_from_recv(tr, recv),
                launches_through::<B, DB, L>(tr, launch),
                bounded_in_flight(tr, thread_count),
                completions_follow_launches(tr),
            decreases in_flight + pending.len(),
        {
            if in_flight == 0 {
                let r: TaskResult = Ok((String::new(), 0));
                proof {
                    lemma_take_is_prefix(dispatch_order(registered), (in_flight + completed) as int);
                    assert(failures_terminal(tr));
                    assert(valid_run(gsched, tr, r, launch, recv));
                }
                return r;
            }
            let ev = recv();
            let ghost gev = ev;
            let ghost tr0 = tr;
            proof {
                tr = tr0.push(DispatchStep::Observed(gev));
                lemma_counts_push_observed(tr0, gev);
                lemma_props_push_observed::<B, DB, L, R>(tr0, gev, launch, recv);
                lemma_prefix_counts_extend(tr0, DispatchStep::Observed(gev), thread_count);
            }
            match ev {
                None => {
                    let r: TaskResult = Ok((String::new(), 0));
                    proof {
                        lemma_take_is_prefix(
                            dispatch_order(registered),
                            (in_flight + completed) as int,
                        );
                        lemma_failures_terminal_push(tr0, DispatchStep::Observed(gev));
                        assert(tr.last() == DispatchStep::<B>::Observed(None));
                        assert(valid_run(gsched, tr, r, launch, recv));
                    }
                    return r;
                },
                Some(res) => {
                    match res {
                        Err(f) => {
                            proof {
                                lemma_take_is_prefix(
                                    dispatch_order(registered),
                                    (in_flight + completed) as int,
                                );
                                lemma_failures_terminal_push(tr0, DispatchStep::Observed(gev));
                                assert(tr.last() == DispatchStep::<B>::Observed(Some(Err(f))));
                                assert(valid_run(gsched, tr, Err(f), launch, recv));
                            }
                            return Err(f);
                        },
                        Ok(p) => {
                            completed = completed + 1;
                            in_flight = in_flight - 1;
                            proof {
                                lemma_observed_success_push(tr0, DispatchStep::Observed(gev));
                            }
                            if pending.len() > 0 {
                                let ghost pend0 = pending@;
                                let ghost tr1 = tr;
                                let ghost l0 = (in_flight + completed) as int;
                                let task = pending.pop().unwrap();
                                let ghost gtask = task;
                                let db = database.clone();
                                let ghost gdb = db;
                                launch(task, db);
                                in_flight = in_flight + 1;
                                proof {
                                    tr = tr1.push(DispatchStep::Launched(gtask));
                                    lemma_counts_push_launched(tr1, gtask);
                                    lemma_props_push_launched(tr1, gtask, gdb, launch, recv);
                                    lemma_observed_success_push(
                                        tr1,
                                        DispatchStep::Launched(gtask),
                                    );
                                    lemma_prefix_counts_extend(
                                        tr1,
                                        DispatchStep::Launched(gtask),
                                        thread_count,
                                    );
                                    assert(pending@ =~= registered.take(pend0.len() - 1));
                                    lemma_dispatch_order_index(registered, l0);
                                    assert(gtask == registered[pend0.len() - 1]);
                                    assert(dispatch_order(registered).take(l0 + 1)
                                        =~= dispatch_order(registered).take(l0).push(gtask));
                                }
                            } else {
                                if in_flight == 0 {
                                    proof {
                                        lemma_take_is_prefix(
                                            dispatch_order(registered),
                                            (in_flight + completed) as int,
                                        );
                                        assert(dispatch_order(registered).take(
                                            registered.len() as int,
                                        ) =~= dispatch_order(registered));
                                        lemma_failures_terminal_push(
                                            tr0,
                                            DispatchStep::Observed(gev),
                                        );
                                        assert(tr.last() == DispatchStep::<B>::Observed(
                                            Some(Ok(p)),
                                        ));
                                        assert(valid_run(gsched, tr, Ok(p), launch, recv));
                                    }
                                    return Ok(p);
                                }
                            }
                        },
                    }
                },
            }
        }
    }
}

/// Selects whether to compile the installed code from source or to use
/// precompiled binaries.
#[derive(Debug, Clone, Copy, PartialEq, Eq, PartialOrd, Ord, Structural)]
pub enum InstallationSrc {
    NewCompiled,
    NewFromSrc,
}

/// Where the installed configuration comes from: an existing peer, a complete
/// copy of a peer, an upstream location, or nothing at all.
#[derive(Debug, Clone, PartialEq, Eq, PartialOrd, Ord)]
pub enum ConfigSrc<P> {
    Peer(P),
    CompletePeer(P),
    UpStream(String),
    Empty,
}

/// The installation itself: the source of the installed code, the source of
/// its configuration, the schedule of setup steps, and the installation
/// target they run against.
pub struct Installer<B, DB, P> {
    pub install_src: InstallationSrc,
    pub schedule: TaskSchedule<B>,
    pub config_src: ConfigSrc<P>,
    pub installation: DB,
}

impl<B, DB, P> Installer<B, DB, P> {
    /// An installer with no tasks yet, an empty configuration source, and a
    /// schedule with the given concurrency width and wait bound.
    pub fn new(
        install_src: InstallationSrc,
        database: DB,
        thread_count: u8,
        task_duration: Duration,
    ) -> (r: Self)
        ensures
            r.install_src == install_src,
            r.installation == database,
            r.config_src == ConfigSrc::<P>::Empty,
            r.schedule.tasks@ == Seq::<Task<B>>::empty(),
            r.schedule.thread_count == thread_count,
            r.schedule.timeout == task_duration,
    {
        Installer {
            install_src,
            schedule: TaskSchedule::new(thread_count, task_duration),
            config_src: ConfigSrc::Empty,
            installation: database,
        }
    }

    /// Replaces the configuration source, fluent style.
    pub fn config_src(self, config_src: ConfigSrc<P>) -> (r: Self)
        ensures
            r.install_src == self.install_src,
            r.schedule == self.schedule,
            r.installation == self.installation,
            r.config_src == config_src,
    {
        Installer { config_src, ..self }
    }

    /// Adds a task to the schedule.
    pub fn add_task(&mut self, task: Task<B>)
        ensures
            final(self).schedule.tasks@ == old(self).schedule.tasks@.push(task),
            final(self).schedule.thread_count == old(self).schedule.thread_count,
            final(self).schedule.timeout == old(self).schedule.timeout,
            final(self).install_src == old(self).install_src,
            final(self).config_src == old(self).config_src,
            final(self).installation == old(self).installation,
    {
        self.schedule.add_task(task);
    }

    /// Runs the schedule of setup steps against the owned installation
    /// target, which every dispatched task receives as a shared handle; see
    /// [`TaskSchedule::run`] for the two capabilities and the guarantees.
    pub fn run<L: Fn(Task<B>, DB), R: Fn() -> Option<TaskResult>>(self, launch: L, recv: R) -> (r:
        TaskResult) where DB: Clone,
        requires
            forall|t: Task<B>, db: DB| call_requires(launch, (t, db)),
            call_requires(recv, ()),
        ensures
            exists|tr: Seq<DispatchStep<B>>|
                #[trigger] valid_run(self.schedule, tr, r, launch, recv),
    {
        self.schedule.run(self.installation, launch, recv)
    }
}

} // verus!

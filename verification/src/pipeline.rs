use vstd::prelude::*;
use vstd::pervasive::VecAdditionalExecFns;
use crate::annotation::Annotation;
use crate::counting::lemma_filter_drop_first;
use crate::counting::lemma_filter_exists_failing;
use crate::counting::lemma_filter_last;
use crate::counting::lemma_filter_lt;
use crate::counting::lemma_filter_none;
use crate::counting::lemma_filter_push;
use crate::counting::lemma_filter_update;
use crate::naming::label_file_name;
use crate::naming::label_name_chars;
use crate::render::labels_chars;
use crate::render::render_labels;

verus! {

/// What the data source and the task will yield for one available input
/// item. Fixing this behaviour as data lets the pipeline be stated and
/// verified for any task and any source satisfying their contracts.
pub enum ItemPlan {
    /// The source yields the item and the task succeeds with these annotations.
    Good { id: String, annotations: Vec<Annotation> },
    /// The source yields the item but the task fails with this detail.
    TaskFails { id: String, detail: String },
    /// The source itself fails on this item; no identifier is available.
    SourceFails { detail: String },
}

/// A tagged per-item result: the annotations found for an identifier, or a
/// failure detail.
pub enum Outcome {
    Success { id: String, annotations: Vec<Annotation> },
    Failure { detail: String },
}

/// What travels on the result bus: one outcome per item that entered the
/// pipeline, and exactly one completion signal per worker.
pub enum PipelineMessage {
    Outcome { outcome: Outcome },
    Completed,
}

/// One worker's phase: ready to fetch from the shared cursor, holding a
/// computed message while waiting for room on the bus (backpressure), or
/// finished for good after sending its completion signal.
pub enum WorkerState {
    Idle,
    Sending { msg: PipelineMessage },
    Finished,
}

/// One persisted output artifact: a label file name and its content.
pub struct LabelFile {
    pub name: String,
    pub content: String,
}

pub open spec fn completed_pred() -> spec_fn(PipelineMessage) -> bool {
    |m: PipelineMessage| m is Completed
}

pub open spec fn outcome_pred() -> spec_fn(PipelineMessage) -> bool {
    |m: PipelineMessage| m is Outcome
}

pub open spec fn success_pred() -> spec_fn(PipelineMessage) -> bool {
    |m: PipelineMessage|
        m matches PipelineMessage::Outcome { outcome } && outcome is Success
}

pub open spec fn finished_pred() -> spec_fn(WorkerState) -> bool {
    |w: WorkerState| w is Finished
}

pub open spec fn idle_pred() -> spec_fn(WorkerState) -> bool {
    |w: WorkerState| w is Idle
}

pub open spec fn sending_outcome_pred() -> spec_fn(WorkerState) -> bool {
    |w: WorkerState| w matches WorkerState::Sending { msg } && msg is Outcome
}

pub open spec fn sending_completed_pred() -> spec_fn(WorkerState) -> bool {
    |w: WorkerState| w matches WorkerState::Sending { msg } && msg is Completed
}

pub open spec fn holds_success_pred() -> spec_fn(WorkerState) -> bool {
    |w: WorkerState|
        w matches WorkerState::Sending { msg }
            && success_pred()(msg)
}

pub open spec fn good_pred() -> spec_fn(ItemPlan) -> bool {
    |p: ItemPlan| p is Good
}

/// Completion signals in a bus.
pub open spec fn n_completed(s: Seq<PipelineMessage>) -> nat {
    s.filter(completed_pred()).len()
}

/// Outcome messages in a bus.
pub open spec fn n_outcomes(s: Seq<PipelineMessage>) -> nat {
    s.filter(outcome_pred()).len()
}

/// Successful outcome messages in a bus.
pub open spec fn n_success(s: Seq<PipelineMessage>) -> nat {
    s.filter(success_pred()).len()
}

/// Workers that have finished.
pub open spec fn n_finished(ws: Seq<WorkerState>) -> nat {
    ws.filter(finished_pred()).len()
}

/// Workers ready to fetch.
pub open spec fn n_idle(ws: Seq<WorkerState>) -> nat {
    ws.filter(idle_pred()).len()
}

/// Workers holding an outcome they have not yet sent.
pub open spec fn n_sending_outcome(ws: Seq<WorkerState>) -> nat {
    ws.filter(sending_outcome_pred()).len()
}

/// Workers holding their completion signal.
pub open spec fn n_sending_completed(ws: Seq<WorkerState>) -> nat {
    ws.filter(sending_completed_pred()).len()
}

/// Workers holding a successful outcome.
pub open spec fn n_held_success(ws: Seq<WorkerState>) -> nat {
    ws.filter(holds_success_pred()).len()
}

/// Plans on which the source and the task both succeed.
pub open spec fn n_good(ps: Seq<ItemPlan>) -> nat {
    ps.filter(good_pred()).len()
}

/// The outcome a worker builds for a claimed plan: a success tagged with the
/// item's identifier when the task succeeds, a failure detail otherwise.
pub open spec fn outcome_for_plan(p: ItemPlan, o: Outcome) -> bool {
    match p {
        ItemPlan::Good { id, annotations } => (o matches Outcome::Success {
            id: oid,
            annotations: oa,
        } && oid@ == id@ && oa@ == annotations@),
        ItemPlan::TaskFails { id: _, detail } => (o matches Outcome::Failure { detail: od }
            && od@ == detail@),
        ItemPlan::SourceFails { detail } => (o matches Outcome::Failure { detail: od } && od@
            == detail@),
    }
}

pub open spec fn plan_good_with(p: ItemPlan, id: Seq<char>, anns: Seq<Annotation>) -> bool {
    p matches ItemPlan::Good { id: pid, annotations: pa } && pid@ == id && pa@ == anns
}

/// A successful outcome must stem from a claimed plan on which the task
/// succeeds with exactly those annotations.
pub open spec fn outcome_justified(plans: Seq<ItemPlan>, upto: int, o: Outcome) -> bool {
    o matches Outcome::Success { id, annotations } ==> exists|i: int|
        0 <= i < upto && plan_good_with(#[trigger] plans[i], id@, annotations@)
}

pub open spec fn msg_justified(plans: Seq<ItemPlan>, upto: int, m: PipelineMessage) -> bool {
    m matches PipelineMessage::Outcome { outcome } ==> outcome_justified(plans, upto, outcome)
}

pub open spec fn worker_justified(plans: Seq<ItemPlan>, upto: int, w: WorkerState) -> bool {
    w matches WorkerState::Sending { msg } ==> msg_justified(plans, upto, msg)
}

/// A persisted file holds exactly the rendered labels of a claimed plan,
/// under the name derived from that plan's identifier.
pub open spec fn file_for_plan(p: ItemPlan, f: LabelFile) -> bool {
    p matches ItemPlan::Good { id, annotations } && f.name@ == label_name_chars(id@)
        && f.content@ == labels_chars(annotations@)
}

pub open spec fn file_justified(plans: Seq<ItemPlan>, upto: int, f: LabelFile) -> bool {
    exists|i: int| 0 <= i < upto && file_for_plan(#[trigger] plans[i], f)
}

/// The outcome for plan `i` is on the bus.
pub open spec fn acc_bus(s: PipelineState, i: int) -> bool {
    exists|k: int| 0 <= k < s.bus@.len() && m_outcome_for_plan(s.plans@[i], #[trigger] s.bus@[k])
}

/// The outcome for plan `i` is held by a worker waiting for bus room.
pub open spec fn acc_worker(s: PipelineState, i: int) -> bool {
    exists|w: int|
        0 <= w < s.workers@.len() && ((#[trigger] s.workers@[w]) matches WorkerState::Sending {
            msg,
        } && m_outcome_for_plan(s.plans@[i], msg))
}

/// Plan `i`'s label file has been persisted.
pub open spec fn acc_file(s: PipelineState, i: int) -> bool {
    exists|f: int|
        0 <= f < s.persisted@.len() && file_for_plan(s.plans@[i], #[trigger] s.persisted@[f])
}

/// The success outcome of a claimed Good plan is never lost: it is on the
/// bus, held by a suspended worker, or already persisted as its label file.
pub open spec fn plan_accounted(s: PipelineState, i: int) -> bool {
    (s.plans@[i] is Good) ==> acc_bus(s, i) || acc_worker(s, i) || acc_file(s, i)
}

/// The whole pipeline's state: the input set behind one shared cursor, the
/// worker pool, the bounded result bus, and the aggregator's observations.
pub struct PipelineState {
    /// The input set, enumerated once at startup.
    pub plans: Vec<ItemPlan>,
    /// The shared cursor: items before it have been claimed, each by exactly
    /// one worker.
    pub next_item: usize,
    /// The fixed pool of workers.
    pub workers: Vec<WorkerState>,
    /// The bounded result bus, front at index 0.
    pub bus: Vec<PipelineMessage>,
    /// The bus's configured capacity.
    pub capacity: usize,
    /// Completion signals the aggregator has observed.
    pub signals_seen: usize,
    /// Label files persisted for successful outcomes, in consumption order.
    pub persisted: Vec<LabelFile>,
    /// Failure details reported, in consumption order.
    pub failures: Vec<String>,
}

impl PipelineState {
    /// The pipeline's global invariant: it holds after construction and is
    /// preserved by every step, under any interleaving of workers and
    /// aggregator.
    pub open spec fn inv(self) -> bool {
        &&& 1 <= self.workers@.len()
        &&& 1 <= self.capacity
        &&& self.next_item <= self.plans@.len()
        // The bus never holds more messages than its configured capacity.
        &&& self.bus@.len() <= self.capacity
        // Signal accounting: signals observed plus signals still on the bus
        // equal the workers that have finished; each worker signals once.
        &&& self.signals_seen + n_completed(self.bus@) == n_finished(self.workers@)
        // A worker holds or has sent its completion signal only once the
        // shared cursor is exhausted.
        &&& forall|w: int|
            0 <= w < self.workers@.len() && (finished_pred()(#[trigger] self.workers@[w])
                || sending_completed_pred()(self.workers@[w])) ==> self.next_item
                == self.plans@.len()
        // Outcome accounting: exactly one outcome exists per claimed item,
        // whether persisted, reported as a failure, on the bus, or held.
        &&& self.persisted@.len() + self.failures@.len() + n_outcomes(self.bus@)
            + n_sending_outcome(self.workers@) == self.next_item
        // Success accounting: one successful outcome per claimed Good plan.
        &&& self.persisted@.len() + n_success(self.bus@) + n_held_success(self.workers@)
            == n_good(self.plans@.take(self.next_item as int))
        // Every success in flight and every persisted file is justified by a
        // claimed plan.
        &&& forall|k: int|
            0 <= k < self.bus@.len() ==> msg_justified(
                self.plans@,
                self.next_item as int,
                #[trigger] self.bus@[k],
            )
        &&& forall|w: int|
            0 <= w < self.workers@.len() ==> worker_justified(
                self.plans@,
                self.next_item as int,
                #[trigger] self.workers@[w],
            )
        &&& forall|p: int|
            0 <= p < self.persisted@.len() ==> file_justified(
                self.plans@,
                self.next_item as int,
                #[trigger] self.persisted@[p],
            )
        // No claimed Good item's success is ever dropped.
        &&& forall|i: int| 0 <= i < self.next_item ==> #[trigger] plan_accounted(self, i)
        // Once every worker has finished, the last message on the bus is the
        // final completion signal: nothing follows the n-th signal.
        &&& (n_finished(self.workers@) == self.workers@.len() && self.bus@.len() > 0
            ==> self.bus@.last() is Completed)
    }

    /// Progress decreases with every step of any actor; it bounds the work
    /// left in a run.
    pub open spec fn measure(self) -> int {
        3 * (self.plans@.len() - self.next_item) + 3 * n_idle(self.workers@) + 5
            * n_sending_outcome(self.workers@) + 2 * n_sending_completed(self.workers@)
            + self.bus@.len()
    }

    /// Sets up a run: the input set behind a fresh shared cursor, `n` idle
    /// workers, and an empty bus of the given capacity.
    pub fn new(plans: Vec<ItemPlan>, n: usize, capacity: usize) -> (r: PipelineState)
        requires
            1 <= n,
            1 <= capacity,
        ensures
            r.inv(),
            r.plans == plans,
            r.workers@.len() == n,
            r.capacity == capacity,
            r.next_item == 0,
            r.bus@.len() == 0,
            r.signals_seen == 0,
            r.persisted@.len() == 0,
            r.failures@.len() == 0,
    {
        let mut workers: Vec<WorkerState> = Vec::new();
        let mut i: usize = 0;
        while i < n
            invariant
                i <= n,
                workers@.len() == i,
                forall|w: int| 0 <= w < i ==> (#[trigger] workers@[w]) is Idle,
            decreases n - i,
        {
            workers.push(WorkerState::Idle);
            i = i + 1;
        }
        let r = PipelineState {
            plans,
            next_item: 0,
            workers,
            bus: Vec::new(),
            capacity,
            signals_seen: 0,
            persisted: Vec::new(),
            failures: Vec::new(),
        };
        proof {
            lemma_filter_none(r.bus@, completed_pred());
            lemma_filter_none(r.bus@, outcome_pred());
            lemma_filter_none(r.bus@, success_pred());
            lemma_filter_none(r.workers@, finished_pred());
            lemma_filter_none(r.workers@, sending_outcome_pred());
            lemma_filter_none(r.workers@, holds_success_pred());
            assert(r.plans@.take(0) =~= Seq::<ItemPlan>::empty());
            lemma_filter_none(r.plans@.take(0), good_pred());
        }
        r
    }

    /// True exactly when the aggregator has observed one completion signal
    /// per worker: the pipeline's termination condition.
    pub fn is_done(&self) -> (r: bool)
        ensures
            r == (self.signals_seen == self.workers@.len()),
    {
        self.signals_seen == self.workers.len()
    }
}

/// Justification only widens as the cursor advances.
proof fn lemma_msg_justified_mono(plans: Seq<ItemPlan>, a: int, b: int, m: PipelineMessage)
    requires
        msg_justified(plans, a, m),
        a <= b,
    ensures
        msg_justified(plans, b, m),
{
}

proof fn lemma_worker_justified_mono(plans: Seq<ItemPlan>, a: int, b: int, w: WorkerState)
    requires
        worker_justified(plans, a, w),
        a <= b,
    ensures
        worker_justified(plans, b, w),
{
}

proof fn lemma_file_justified_mono(plans: Seq<ItemPlan>, a: int, b: int, f: LabelFile)
    requires
        file_justified(plans, a, f),
        a <= b,
    ensures
        file_justified(plans, b, f),
{
}

/// Accounting carries over to a state with the same plans, bus, and
/// persisted files, whose workers changed only at a slot that held nothing.
proof fn lemma_accounted_carries(s0: PipelineState, s1: PipelineState, i: int, w: int)
    requires
        plan_accounted(s0, i),
        s1.plans == s0.plans,
        s1.bus == s0.bus,
        s1.persisted == s0.persisted,
        s1.workers@.len() == s0.workers@.len(),
        forall|v: int| 0 <= v < s0.workers@.len() && v != w ==> s1.workers@[v] == s0.workers@[v],
        0 <= w < s0.workers@.len(),
        !(s0.workers@[w] is Sending),
    ensures
        plan_accounted(s1, i),
{
    if s1.plans@[i] is Good {
        if acc_bus(s0, i) {
            let k = choose|k: int|
                0 <= k < s0.bus@.len() && m_outcome_for_plan(s0.plans@[i], #[trigger] s0.bus@[k]);
            assert(m_outcome_for_plan(s1.plans@[i], s1.bus@[k]));
            assert(acc_bus(s1, i));
        } else if acc_worker(s0, i) {
            let v = choose|v: int|
                0 <= v < s0.workers@.len() && ((#[trigger] s0.workers@[v])
                    matches WorkerState::Sending { msg } && m_outcome_for_plan(s0.plans@[i], msg));
            assert(s1.workers@[v] == s0.workers@[v]);
            assert(acc_worker(s1, i));
        } else {
            assert(acc_file(s0, i));
            let f = choose|f: int|
                0 <= f < s0.persisted@.len() && file_for_plan(
                    s0.plans@[i],
                    #[trigger] s0.persisted@[f],
                );
            assert(file_for_plan(s1.plans@[i], s1.persisted@[f]));
            assert(acc_file(s1, i));
        }
    }
}

/// Accounting survives a send: a message held by the sending worker moves to
/// the back of the bus.
proof fn lemma_accounted_after_send(s0: PipelineState, s1: PipelineState, i: int, w: int)
    requires
        plan_accounted(s0, i),
        s1.plans == s0.plans,
        s1.persisted == s0.persisted,
        s1.workers@.len() == s0.workers@.len(),
        forall|v: int| 0 <= v < s0.workers@.len() && v != w ==> s1.workers@[v] == s0.workers@[v],
        0 <= w < s0.workers@.len(),
        (s0.workers@[w] matches WorkerState::Sending { msg } && s1.bus@ == s0.bus@.push(msg)),
    ensures
        plan_accounted(s1, i),
{
    if s1.plans@[i] is Good {
        if acc_bus(s0, i) {
            let k = choose|k: int|
                0 <= k < s0.bus@.len() && m_outcome_for_plan(s0.plans@[i], #[trigger] s0.bus@[k]);
            assert(m_outcome_for_plan(s1.plans@[i], s1.bus@[k]));
            assert(acc_bus(s1, i));
        } else if acc_worker(s0, i) {
            let v = choose|v: int|
                0 <= v < s0.workers@.len() && ((#[trigger] s0.workers@[v])
                    matches WorkerState::Sending { msg } && m_outcome_for_plan(s0.plans@[i], msg));
            if v == w {
                assert(m_outcome_for_plan(s1.plans@[i], s1.bus@[s0.bus@.len() as int]));
                assert(acc_bus(s1, i));
            } else {
                assert(s1.workers@[v] == s0.workers@[v]);
                assert(acc_worker(s1, i));
            }
        } else {
            assert(acc_file(s0, i));
            let f = choose|f: int|
                0 <= f < s0.persisted@.len() && file_for_plan(
                    s0.plans@[i],
                    #[trigger] s0.persisted@[f],
                );
            assert(file_for_plan(s1.plans@[i], s1.persisted@[f]));
            assert(acc_file(s1, i));
        }
    }
}

/// Accounting survives consumption: when the popped message was this plan's
/// outcome, the caller shows the plan's file is now persisted.
proof fn lemma_accounted_after_pop(s0: PipelineState, s1: PipelineState, i: int)
    requires
        plan_accounted(s0, i),
        s0.bus@.len() > 0,
        s1.plans == s0.plans,
        s1.workers == s0.workers,
        s1.bus@ == s0.bus@.drop_first(),
        s1.persisted@.len() >= s0.persisted@.len(),
        forall|f: int| 0 <= f < s0.persisted@.len() ==> s1.persisted@[f] == s0.persisted@[f],
        (s0.plans@[i] is Good && m_outcome_for_plan(s0.plans@[i], s0.bus@[0])) ==> acc_file(
            s1,
            i,
        ),
    ensures
        plan_accounted(s1, i),
{
    if s1.plans@[i] is Good {
        if acc_bus(s0, i) {
            let k = choose|k: int|
                0 <= k < s0.bus@.len() && m_outcome_for_plan(s0.plans@[i], #[trigger] s0.bus@[k]);
            if k == 0 {
                assert(acc_file(s1, i));
            } else {
                assert(s1.bus@[k - 1] == s0.bus@[k]);
                assert(m_outcome_for_plan(s1.plans@[i], s1.bus@[k - 1]));
                assert(acc_bus(s1, i));
            }
        } else if acc_worker(s0, i) {
            let v = choose|v: int|
                0 <= v < s0.workers@.len() && ((#[trigger] s0.workers@[v])
                    matches WorkerState::Sending { msg } && m_outcome_for_plan(s0.plans@[i], msg));
            assert(s1.workers@[v] == s0.workers@[v]);
            assert(acc_worker(s1, i));
        } else {
            assert(acc_file(s0, i));
            let f = choose|f: int|
                0 <= f < s0.persisted@.len() && file_for_plan(
                    s0.plans@[i],
                    #[trigger] s0.persisted@[f],
                );
            assert(file_for_plan(s1.plans@[i], s1.persisted@[f]));
            assert(acc_file(s1, i));
        }
    }
}

impl PipelineState {
    /// One worker requests the next item from the shared cursor. If an item
    /// is left, the worker claims it — no other worker will see it — and
    /// computes the message for it; otherwise the source is exhausted and the
    /// worker prepares its completion signal. Either way the worker then
    /// waits for room on the bus.
    pub fn worker_fetch(&mut self, w: usize)
        requires
            old(self).inv(),
            w < old(self).workers@.len(),
            old(self).workers@[w as int] is Idle,
        ensures
            final(self).inv(),
            final(self).measure() < old(self).measure(),
            final(self).plans == old(self).plans,
            final(self).capacity == old(self).capacity,
            final(self).signals_seen == old(self).signals_seen,
            final(self).persisted == old(self).persisted,
            final(self).failures == old(self).failures,
            final(self).bus == old(self).bus,
            final(self).workers@.len() == old(self).workers@.len(),
            forall|v: int|
                0 <= v < old(self).workers@.len() && v != w ==> final(self).workers@[v] == old(
                    self,
                ).workers@[v],
            old(self).next_item < old(self).plans@.len() ==> {
                &&& final(self).next_item == old(self).next_item + 1
                &&& (final(self).workers@[w as int] matches WorkerState::Sending { msg }
                    && (m_outcome_for_plan(old(self).plans@[old(self).next_item as int], msg)))
            },
            old(self).next_item == old(self).plans@.len() ==> {
                &&& final(self).next_item == old(self).next_item
                &&& (final(self).workers@[w as int] matches WorkerState::Sending { msg } && msg
                    is Completed)
            },
    {
        let ghost old_workers = self.workers@;
        let ghost old_next = self.next_item as int;
        if self.next_item < self.plans.len() {
            let msg = message_for_plan(&self.plans[self.next_item]);
            let ns = WorkerState::Sending { msg };
            proof {
                let p = self.plans@[old_next];
                // No worker can already have signalled: the cursor is not
                // exhausted yet.
                assert forall|v: int| 0 <= v < old_workers.len() implies !finished_pred()(
                    #[trigger] old_workers[v],
                ) && !sending_completed_pred()(old_workers[v]) by {}
                lemma_filter_update(old_workers, w as int, ns, finished_pred());
                lemma_filter_update(old_workers, w as int, ns, idle_pred());
                lemma_filter_update(old_workers, w as int, ns, sending_outcome_pred());
                lemma_filter_update(old_workers, w as int, ns, sending_completed_pred());
                lemma_filter_update(old_workers, w as int, ns, holds_success_pred());
                assert(self.plans@.take(old_next + 1) =~= self.plans@.take(old_next).push(p));
                lemma_filter_push(self.plans@.take(old_next), p, good_pred());
                if p is Good {
                    assert(holds_success_pred()(ns));
                    assert(good_pred()(p));
                } else {
                    assert(!holds_success_pred()(ns));
                    assert(!good_pred()(p));
                }
            }
            self.next_item = self.next_item + 1;
            self.workers.set(w, ns);
            proof {
                self.lemma_fetch_justified(old_workers, old_next, w as int);
                lemma_filter_lt(self.workers@, w as int, finished_pred());
                assert forall|i: int| 0 <= i < self.next_item implies #[trigger] plan_accounted(
                    *self,
                    i,
                ) by {
                    if i == old_next {
                        if self.plans@[i] is Good {
                            assert(self.workers@[w as int] matches WorkerState::Sending { msg }
                                && m_outcome_for_plan(self.plans@[i], msg));
                            assert(acc_worker(*self, i));
                        }
                    } else {
                        assert(plan_accounted(*old(self), i));
                        lemma_accounted_carries(*old(self), *self, i, w as int);
                    }
                }
            }
        } else {
            let ns = WorkerState::Sending { msg: PipelineMessage::Completed };
            proof {
                lemma_filter_update(old_workers, w as int, ns, finished_pred());
                lemma_filter_update(old_workers, w as int, ns, idle_pred());
                lemma_filter_update(old_workers, w as int, ns, sending_outcome_pred());
                lemma_filter_update(old_workers, w as int, ns, sending_completed_pred());
                lemma_filter_update(old_workers, w as int, ns, holds_success_pred());
            }
            self.workers.set(w, ns);
            proof {
                assert(worker_justified(self.plans@, self.next_item as int, ns));
                assert forall|v: int| 0 <= v < self.workers@.len() implies worker_justified(
                    self.plans@,
                    self.next_item as int,
                    #[trigger] self.workers@[v],
                ) by {
                    if v != w {
                        assert(self.workers@[v] == old_workers[v]);
                    }
                }
                lemma_filter_lt(self.workers@, w as int, finished_pred());
                assert forall|i: int| 0 <= i < self.next_item implies #[trigger] plan_accounted(
                    *self,
                    i,
                ) by {
                    assert(plan_accounted(*old(self), i));
                    lemma_accounted_carries(*old(self), *self, i, w as int);
                }
            }
        }
    }

    /// After a claim, every in-flight message and file stays justified with
    /// the cursor one further, and the fresh message is justified by the
    /// plan just claimed.
    proof fn lemma_fetch_justified(&self, old_workers: Seq<WorkerState>, old_next: int, w: int)
        requires
            0 <= old_next < self.plans@.len(),
            self.next_item == old_next + 1,
            0 <= w < self.workers@.len(),
            old_workers.len() == self.workers@.len(),
            forall|v: int| 0 <= v < old_workers.len() && v != w ==> self.workers@[v] == old_workers[v],
            forall|k: int|
                0 <= k < self.bus@.len() ==> msg_justified(
                    self.plans@,
                    old_next,
                    #[trigger] self.bus@[k],
                ),
            forall|v: int|
                0 <= v < old_workers.len() ==> worker_justified(
                    self.plans@,
                    old_next,
                    #[trigger] old_workers[v],
                ),
            forall|p: int|
                0 <= p < self.persisted@.len() ==> file_justified(
                    self.plans@,
                    old_next,
                    #[trigger] self.persisted@[p],
                ),
            (self.workers@[w] matches WorkerState::Sending { msg } && m_outcome_for_plan(
                self.plans@[old_next],
                msg,
            )),
        ensures
            forall|k: int|
                0 <= k < self.bus@.len() ==> msg_justified(
                    self.plans@,
                    self.next_item as int,
                    #[trigger] self.bus@[k],
                ),
            forall|v: int|
                0 <= v < self.workers@.len() ==> worker_justified(
                    self.plans@,
                    self.next_item as int,
                    #[trigger] self.workers@[v],
                ),
            forall|p: int|
                0 <= p < self.persisted@.len() ==> file_justified(
                    self.plans@,
                    self.next_item as int,
                    #[trigger] self.persisted@[p],
                ),
    {
        let next = self.next_item as int;
        assert forall|k: int| 0 <= k < self.bus@.len() implies msg_justified(
            self.plans@,
            next,
            #[trigger] self.bus@[k],
        ) by {
            lemma_msg_justified_mono(self.plans@, old_next, next, self.bus@[k]);
        }
        assert forall|p: int| 0 <= p < self.persisted@.len() implies file_justified(
            self.plans@,
            next,
            #[trigger] self.persisted@[p],
        ) by {
            lemma_file_justified_mono(self.plans@, old_next, next, self.persisted@[p]);
        }
        assert forall|v: int| 0 <= v < self.workers@.len() implies worker_justified(
            self.plans@,
            next,
            #[trigger] self.workers@[v],
        ) by {
            if v != w {
                lemma_worker_justified_mono(self.plans@, old_next, next, old_workers[v]);
            } else {
                let p = self.plans@[old_next];
                if p is Good {
                    assert(plan_good_with(
                        p,
                        p->Good_id@,
                        p->Good_annotations@,
                    ));
                }
            }
        }
    }
}

impl PipelineState {
    /// A worker sends the message it holds. The bus must have room: a worker
    /// facing a full bus stays suspended (backpressure) and this step is not
    /// enabled. Sending an outcome returns the worker to its fetch loop;
    /// sending the completion signal finishes it for good.
    pub fn worker_send(&mut self, w: usize)
        requires
            old(self).inv(),
            w < old(self).workers@.len(),
            old(self).workers@[w as int] is Sending,
            old(self).bus@.len() < old(self).capacity,
        ensures
            final(self).inv(),
            final(self).measure() < old(self).measure(),
            final(self).plans == old(self).plans,
            final(self).capacity == old(self).capacity,
            final(self).signals_seen == old(self).signals_seen,
            final(self).persisted == old(self).persisted,
            final(self).failures == old(self).failures,
            final(self).next_item == old(self).next_item,
            final(self).workers@.len() == old(self).workers@.len(),
            forall|v: int|
                0 <= v < old(self).workers@.len() && v != w ==> final(self).workers@[v] == old(
                    self,
                ).workers@[v],
            (old(self).workers@[w as int] matches WorkerState::Sending { msg } && {
                &&& final(self).bus@ == old(self).bus@.push(msg)
                &&& (msg is Completed ==> final(self).workers@[w as int] is Finished)
                &&& (msg is Outcome ==> final(self).workers@[w as int] is Idle)
            }),
    {
        let ghost old_workers = self.workers@;
        let ghost old_bus = self.bus@;
        let mut taken = WorkerState::Idle;
        self.workers.set_and_swap(w, &mut taken);
        match taken {
            WorkerState::Sending { msg } => {
                let last = match &msg {
                    PipelineMessage::Completed => true,
                    _ => false,
                };
                if last {
                    self.workers.set(w, WorkerState::Finished);
                }
                proof {
                    let ns = if msg is Completed {
                        WorkerState::Finished
                    } else {
                        WorkerState::Idle
                    };
                    assert(self.workers@ =~= old_workers.update(w as int, ns));
                    lemma_filter_update(old_workers, w as int, ns, finished_pred());
                    lemma_filter_update(old_workers, w as int, ns, idle_pred());
                    lemma_filter_update(old_workers, w as int, ns, sending_outcome_pred());
                    lemma_filter_update(old_workers, w as int, ns, sending_completed_pred());
                    lemma_filter_update(old_workers, w as int, ns, holds_success_pred());
                    lemma_filter_push(old_bus, msg, completed_pred());
                    lemma_filter_push(old_bus, msg, outcome_pred());
                    lemma_filter_push(old_bus, msg, success_pred());
                    lemma_filter_lt(old_workers, w as int, finished_pred());
                }
                self.bus.push(msg);
                proof {
                    assert forall|k: int| 0 <= k < self.bus@.len() implies msg_justified(
                        self.plans@,
                        self.next_item as int,
                        #[trigger] self.bus@[k],
                    ) by {
                        if k < old_bus.len() {
                            assert(self.bus@[k] == old_bus[k]);
                        } else {
                            assert(self.bus@[k] == msg);
                            assert(worker_justified(
                                self.plans@,
                                self.next_item as int,
                                old_workers[w as int],
                            ));
                        }
                    }
                    assert forall|v: int| 0 <= v < self.workers@.len() implies worker_justified(
                        self.plans@,
                        self.next_item as int,
                        #[trigger] self.workers@[v],
                    ) by {
                        if v != w {
                            assert(self.workers@[v] == old_workers[v]);
                        }
                    }
                    if n_finished(self.workers@) == self.workers@.len() {
                        assert(self.workers@[w as int] is Finished);
                        assert(msg is Completed);
                        assert(self.bus@.last() == msg);
                    }
                    assert forall|i: int|
                        0 <= i < self.next_item implies #[trigger] plan_accounted(*self, i) by {
                        assert(plan_accounted(*old(self), i));
                        lemma_accounted_after_send(*old(self), *self, i, w as int);
                    }
                }
            },
            WorkerState::Idle => {
                proof {
                    assert(false);
                }
            },
            WorkerState::Finished => {
                proof {
                    assert(false);
                }
            },
        }
    }

    /// The aggregator consumes the message at the front of the bus: it
    /// persists a successful outcome as a label file, records a failure and
    /// goes on, and counts a completion signal. It runs only while signals
    /// are still missing; observing the final signal leaves the bus empty.
    pub fn aggregator_step(&mut self)
        requires
            old(self).inv(),
            old(self).bus@.len() > 0,
            old(self).signals_seen < old(self).workers@.len(),
        ensures
            final(self).inv(),
            final(self).measure() < old(self).measure(),
            final(self).plans == old(self).plans,
            final(self).capacity == old(self).capacity,
            final(self).workers == old(self).workers,
            final(self).next_item == old(self).next_item,
            final(self).bus@ == old(self).bus@.drop_first(),
            (old(self).bus@[0] is Completed ==> {
                &&& final(self).signals_seen == old(self).signals_seen + 1
                &&& final(self).persisted == old(self).persisted
                &&& final(self).failures == old(self).failures
            }),
            (old(self).bus@[0] is Outcome ==> final(self).signals_seen == old(
                self,
            ).signals_seen),
            (old(self).bus@[0] matches PipelineMessage::Outcome { outcome } ==> (match outcome {
                Outcome::Success { id, annotations } => {
                    &&& final(self).persisted@.len() == old(self).persisted@.len() + 1
                    &&& final(self).persisted@.drop_last() == old(self).persisted@
                    &&& final(self).persisted@.last().name@ == label_name_chars(id@)
                    &&& final(self).persisted@.last().content@ == labels_chars(annotations@)
                    &&& final(self).failures == old(self).failures
                },
                Outcome::Failure { detail } => {
                    &&& final(self).failures@.len() == old(self).failures@.len() + 1
                    &&& final(self).failures@.drop_last() == old(self).failures@
                    &&& final(self).failures@.last()@ == detail@
                    &&& final(self).persisted == old(self).persisted
                },
            })),
            (final(self).signals_seen == final(self).workers@.len() ==> final(self).bus@.len()
                == 0),
    {
        let ghost old_bus = self.bus@;
        let msg = self.bus.remove(0);
        proof {
            assert(self.bus@ =~= old_bus.drop_first());
            lemma_filter_drop_first(old_bus, completed_pred());
            lemma_filter_drop_first(old_bus, outcome_pred());
            lemma_filter_drop_first(old_bus, success_pred());
            assert forall|k: int| 0 <= k < self.bus@.len() implies msg_justified(
                self.plans@,
                self.next_item as int,
                #[trigger] self.bus@[k],
            ) by {
                assert(self.bus@[k] == old_bus[k + 1]);
            }
            if old_bus.len() >= 2 {
                assert(self.bus@.last() == old_bus.last());
            }
        }
        match msg {
            PipelineMessage::Completed => {
                let n = self.workers.len();
                proof {
                    assert(self.signals_seen < n);
                    self.workers@.lemma_filter_len(finished_pred());
                    if self.signals_seen + 1 == self.workers@.len() {
                        // This was the final signal: every worker has
                        // finished, so the final signal was the last message
                        // sent, and the bus is drained.
                        assert(n_finished(self.workers@) == self.workers@.len());
                        if old_bus.len() >= 2 {
                            lemma_filter_last(old_bus.drop_first(), completed_pred());
                            assert(false);
                        }
                    }
                }
                self.signals_seen = self.signals_seen + 1;
                proof {
                    assert forall|i: int|
                        0 <= i < self.next_item implies #[trigger] plan_accounted(*self, i) by {
                        assert(plan_accounted(*old(self), i));
                        lemma_accounted_after_pop(*old(self), *self, i);
                    }
                }
            },
            PipelineMessage::Outcome { outcome } => {
                proof {
                    assert(msg_justified(self.plans@, self.next_item as int, old_bus[0]));
                }
                match outcome {
                    Outcome::Success { id, annotations } => {
                        let name = label_file_name(id.as_str());
                        let content = render_labels(&annotations);
                        let ghost old_persisted = self.persisted@;
                        self.persisted.push(LabelFile { name, content });
                        proof {
                            assert forall|p: int| 0 <= p < self.persisted@.len() implies
                                file_justified(
                                self.plans@,
                                self.next_item as int,
                                #[trigger] self.persisted@[p],
                            ) by {
                                if p < old_persisted.len() {
                                    assert(self.persisted@[p] == old_persisted[p]);
                                } else {
                                    let f = self.persisted@[p];
                                    let i = choose|i: int|
                                        0 <= i < self.next_item && plan_good_with(
                                            #[trigger] self.plans@[i],
                                            id@,
                                            annotations@,
                                        );
                                    assert(file_for_plan(self.plans@[i], f));
                                }
                            }
                            assert forall|i: int|
                                0 <= i < self.next_item implies #[trigger] plan_accounted(
                                *self,
                                i,
                            ) by {
                                assert(plan_accounted(*old(self), i));
                                if old(self).plans@[i] is Good && m_outcome_for_plan(
                                    old(self).plans@[i],
                                    old_bus[0],
                                ) {
                                    let f = self.persisted@.len() - 1;
                                    assert(file_for_plan(self.plans@[i], self.persisted@[f]));
                                    assert(acc_file(*self, i));
                                }
                                lemma_accounted_after_pop(*old(self), *self, i);
                            }
                        }
                    },
                    Outcome::Failure { detail } => {
                        self.failures.push(detail);
                        proof {
                            assert forall|i: int|
                                0 <= i < self.next_item implies #[trigger] plan_accounted(
                                *self,
                                i,
                            ) by {
                                assert(plan_accounted(*old(self), i));
                                lemma_accounted_after_pop(*old(self), *self, i);
                            }
                        }
                    },
                }
            },
        }
    }
}

/// The given message is the outcome message for the given plan.
pub open spec fn m_outcome_for_plan(p: ItemPlan, m: PipelineMessage) -> bool {
    m matches PipelineMessage::Outcome { outcome } && outcome_for_plan(p, outcome)
}

/// Picks a worker that has not yet finished.
fn find_unfinished(ws: &Vec<WorkerState>) -> (r: usize)
    requires
        exists|i: int| 0 <= i < ws@.len() && !((#[trigger] ws@[i]) is Finished),
    ensures
        r < ws@.len(),
        !(ws@[r as int] is Finished),
{
    let mut i: usize = 0;
    while i < ws.len()
        invariant
            i <= ws@.len(),
            forall|j: int| 0 <= j < i ==> (#[trigger] ws@[j]) is Finished,
            exists|k: int| 0 <= k < ws@.len() && !((#[trigger] ws@[k]) is Finished),
        decreases ws@.len() - i,
    {
        let finished = match &ws[i] {
            WorkerState::Finished => true,
            _ => false,
        };
        if !finished {
            return i;
        }
        i = i + 1;
    }
    proof {
        assert(false);
    }
    0
}

/// Runs a whole pipeline to completion: `n` workers drain the input set
/// through one shared cursor, forward outcomes over a bus of the given
/// capacity, and the run ends exactly when the aggregator has observed `n`
/// completion signals. On return every worker has finished, the bus is
/// drained, every item was claimed, one label file was persisted per
/// successful item, and every outcome was accounted for.
pub fn run_pipeline(plans: Vec<ItemPlan>, n: usize, capacity: usize) -> (r: PipelineState)
    requires
        1 <= n,
        1 <= capacity,
    ensures
        r.inv(),
        r.plans == plans,
        r.workers@.len() == n,
        r.capacity == capacity,
        r.signals_seen == n,
        n_finished(r.workers@) == n,
        r.bus@.len() == 0,
        r.next_item == plans@.len(),
        r.persisted@.len() == n_good(plans@),
        r.persisted@.len() + r.failures@.len() == plans@.len(),
        forall|p: int|
            0 <= p < r.persisted@.len() ==> file_justified(
                plans@,
                plans@.len() as int,
                #[trigger] r.persisted@[p],
            ),
        forall|i: int| 0 <= i < plans@.len() && (#[trigger] plans@[i]) is Good ==> acc_file(r, i),
{
    let mut st = PipelineState::new(plans, n, capacity);
    while st.signals_seen < n
        invariant
            st.inv(),
            st.plans == plans,
            st.workers@.len() == n,
            st.capacity == capacity,
            st.signals_seen <= n,
            st.signals_seen == n ==> st.bus@.len() == 0,
        decreases st.measure(),
    {
        if st.bus.len() > 0 {
            st.aggregator_step();
        } else {
            proof {
                lemma_filter_none(st.bus@, completed_pred());
                lemma_filter_exists_failing(st.workers@, finished_pred());
            }
            let w = find_unfinished(&st.workers);
            let send = match &st.workers[w] {
                WorkerState::Sending { .. } => true,
                _ => false,
            };
            if send {
                st.worker_send(w);
            } else {
                st.worker_fetch(w);
            }
        }
    }
    proof {
        lemma_filter_none(st.bus@, completed_pred());
        lemma_filter_none(st.bus@, success_pred());
        lemma_filter_none(st.bus@, outcome_pred());
        assert(n_finished(st.workers@) == n);
        // Every worker finished, so the cursor was exhausted and nothing is
        // held back.
        assert forall|w: int| 0 <= w < st.workers@.len() implies finished_pred()(
            #[trigger] st.workers@[w],
        ) by {
            if !finished_pred()(st.workers@[w]) {
                lemma_filter_lt(st.workers@, w, finished_pred());
            }
        }
        assert(finished_pred()(st.workers@[0]));
        assert(st.next_item == st.plans@.len());
        lemma_filter_none(st.workers@, holds_success_pred());
        lemma_filter_none(st.workers@, sending_outcome_pred());
        assert(st.plans@.take(st.next_item as int) =~= st.plans@);
        // With the bus drained and every worker finished, each Good item's
        // outcome can only rest in the persisted files.
        assert forall|i: int| 0 <= i < plans@.len() && (#[trigger] plans@[i]) is Good implies
            acc_file(st, i) by {
            assert(plan_accounted(st, i));
            if acc_bus(st, i) {
                let k = choose|k: int|
                    0 <= k < st.bus@.len() && m_outcome_for_plan(
                        st.plans@[i],
                        #[trigger] st.bus@[k],
                    );
                assert(false);
            }
            if acc_worker(st, i) {
                let v = choose|v: int|
                    0 <= v < st.workers@.len() && ((#[trigger] st.workers@[v])
                        matches WorkerState::Sending { msg } && m_outcome_for_plan(
                        st.plans@[i],
                        msg,
                    ));
                assert(false);
            }
        }
    }
    st
}

/// With an empty input set, nothing is ever persisted and no failure is ever
/// reported: every worker only signals completion. This holds in every
/// reachable state of such a run.
pub proof fn lemma_empty_input_no_outcomes(s: PipelineState)
    requires
        s.inv(),
        s.plans@.len() == 0,
    ensures
        s.persisted@.len() == 0,
        s.failures@.len() == 0,
        n_outcomes(s.bus@) == 0,
{
}

/// When the task succeeds on no item (and failing sources produce no
/// successes either), only failure outcomes exist: nothing is ever persisted,
/// and no successful outcome is ever in flight — in every reachable state, so
/// failures never block the run.
pub proof fn lemma_all_failing_only_failures(s: PipelineState)
    requires
        s.inv(),
        forall|i: int| 0 <= i < s.plans@.len() ==> !((#[trigger] s.plans@[i]) is Good),
    ensures
        s.persisted@.len() == 0,
        n_success(s.bus@) == 0,
        n_held_success(s.workers@) == 0,
{
    let t = s.plans@.take(s.next_item as int);
    assert forall|i: int| 0 <= i < t.len() implies !good_pred()(#[trigger] t[i]) by {
        assert(t[i] == s.plans@[i]);
    }
    lemma_filter_none(t, good_pred());
}

/// Backpressure: the bus never holds more messages than its configured
/// capacity, in any reachable state.
pub proof fn lemma_bus_bounded(s: PipelineState)
    requires
        s.inv(),
    ensures
        s.bus@.len() <= s.capacity,
{
}

/// Termination detection is exact: once the aggregator has observed one
/// signal per worker, every worker has finished and no signal remains on the
/// bus — the counter can never be satisfied early or overshoot.
pub proof fn lemma_signals_exact(s: PipelineState)
    requires
        s.inv(),
        s.signals_seen == s.workers@.len(),
    ensures
        n_finished(s.workers@) == s.workers@.len(),
        n_completed(s.bus@) == 0,
{
    s.workers@.lemma_filter_len(finished_pred());
}

/// Liveness of the protocol: while signals are missing, some step is always
/// enabled — the aggregator can receive, or a worker can send into a
/// non-full bus, or a worker can fetch. A run never deadlocks.
pub proof fn lemma_progress(s: PipelineState)
    requires
        s.inv(),
        s.signals_seen < s.workers@.len(),
    ensures
        s.bus@.len() > 0 || (exists|w: int|
            0 <= w < s.workers@.len() && !((#[trigger] s.workers@[w]) is Finished)),
        s.bus@.len() == 0 ==> s.bus@.len() < s.capacity,
{
    if s.bus@.len() == 0 {
        lemma_filter_none(s.bus@, completed_pred());
        lemma_filter_exists_failing(s.workers@, finished_pred());
    }
}

/// Copies a sequence of annotations (they are plain records).
fn copy_annotations(v: &Vec<Annotation>) -> (r: Vec<Annotation>)
    ensures
        r@ == v@,
{
    let mut r: Vec<Annotation> = Vec::new();
    let mut i: usize = 0;
    while i < v.len()
        invariant
            i <= v.len(),
            r@ == v@.take(i as int),
        decreases v.len() - i,
    {
        r.push(v[i]);
        proof {
            assert(v@.take(i + 1 as int) =~= v@.take(i as int).push(v@[i as int]));
        }
        i = i + 1;
    }
    proof {
        assert(v@.take(v@.len() as int) =~= v@);
    }
    r
}

/// Builds the message a worker sends for one claimed item: the task's
/// annotations tagged with the item's identifier on success, the failure
/// detail otherwise. A source failure carries no identifier.
pub fn message_for_plan(p: &ItemPlan) -> (m: PipelineMessage)
    ensures
        (m matches PipelineMessage::Outcome { outcome } && outcome_for_plan(*p, outcome)),
{
    match p {
        ItemPlan::Good { id, annotations } => PipelineMessage::Outcome {
            outcome: Outcome::Success { id: id.clone(), annotations: copy_annotations(annotations) },
        },
        ItemPlan::TaskFails { id: _, detail } => PipelineMessage::Outcome {
            outcome: Outcome::Failure { detail: detail.clone() },
        },
        ItemPlan::SourceFails { detail } => PipelineMessage::Outcome {
            outcome: Outcome::Failure { detail: detail.clone() },
        },
    }
}

} // verus!

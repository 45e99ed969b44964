//! The worker pool's decisions: how many workers to spawn, fresh request
//! ids, the crash-retry rule, and the result board that puts streamed
//! results back in input order.
//!
//! The outside work — spawning children, pipe reads and writes, threads —
//! is the caller's; every decision here is a pure function of what came
//! back. A worker that died is respawned and the task retried exactly
//! once; a second failure yields a fabricated failing result. Each task
//! index accepts at most one result, and the finished board returns, for
//! every input index, a result carrying that input's item.

use vstd::prelude::*;

use crate::discovery::TestItem;
use crate::protocol::{WireResponse, wire_cov_view};
use crate::runner::{TestResult, cov_from_wire, coverage_view, response_to_result};

verus! {

/// A pool of warm workers; only the worker count lives here, the workers
/// themselves belong to the run.
pub struct WorkerPool {
    pub num_workers: usize,
}

impl WorkerPool {
    pub fn new(num_workers: usize) -> (r: WorkerPool)
        ensures
            r.num_workers == num_workers,
    {
        WorkerPool { num_workers }
    }
}

/// How many workers a run spawns: one per task, at most the configured
/// count — exactly `min(configured, tasks)`, and none for an empty run.
pub fn worker_count(configured: usize, tasks: usize) -> (r: usize)
    ensures
        r == if configured < tasks {
            configured as int
        } else {
            tasks as int
        },
        tasks == 0 ==> r == 0,
{
    if configured < tasks {
        configured
    } else {
        tasks
    }
}

/// The process-wide request id counter; each request gets a fresh number.
pub struct RequestIdGen {
    next: u64,
}

impl RequestIdGen {
    /// The next id to be handed out.
    pub closed spec fn spec_next(&self) -> u64 {
        self.next
    }

    /// Ids start at 1.
    pub fn new() -> (r: RequestIdGen)
        ensures
            r.spec_next() == 1,
    {
        RequestIdGen { next: 1 }
    }

    /// Whether the id space is spent; the caller restarts the counter
    /// before asking again.
    pub fn exhausted(&self) -> (r: bool)
        ensures
            r == (self.spec_next() == u64::MAX),
    {
        self.next == u64::MAX
    }

    /// A fresh, strictly increasing request id.
    pub fn next_request_id(&mut self) -> (id: u64)
        requires
            old(self).spec_next() < u64::MAX,
        ensures
            id == old(self).spec_next(),
            final(self).spec_next() == old(self).spec_next() + 1,
    {
        let id = self.next;
        self.next = self.next + 1;
        id
    }
}

/// What one attempt to run a test on a worker came to: a response frame,
/// or the worker's death (an I/O error or end-of-file on its stdout).
pub enum WorkerAttempt {
    Answered(WireResponse),
    Died,
}

/// A fabricated failing result, for a task whose worker could not answer.
pub fn fabricated_failure(item: &TestItem, message: &str) -> (r: TestResult)
    ensures
        r.item@ == item@,
        !r.passed,
        !r.skipped,
        r.skip_reason is None,
        r.error is Some,
        r.duration_micros == 0,
        r.coverage is None,
{
    TestResult {
        item: item.duplicate(),
        passed: false,
        duration_micros: 0,
        error: Some(
            crate::runner::TestError { message: reason_string(message), traceback: None },
        ),
        skipped: false,
        skip_reason: None,
        coverage: None,
        stdout: None,
        stderr: None,
    }
}

/// Copy a reason into an owned string.
fn reason_string(reason: &str) -> (r: String)
    ensures
        r@ == reason@,
{
    reason.to_owned()
}

/// What a response hands the result: outcome, duration, error presence,
/// and the coverage map, exactly as `response_to_result` states them.
pub open spec fn carries_response(r: TestResult, resp: WireResponse) -> bool {
    &&& r.passed == resp.passed
    &&& r.duration_micros == resp.duration_micros
    &&& (r.error is Some <==> resp.error is Some)
    &&& match resp.coverage {
        Some(files) => r.coverage matches Some(c) && coverage_view(c.files@) == cov_from_wire(
            wire_cov_view(files@),
        ),
        None => r.coverage is None,
    }
}

/// The crash-retry rule: a response decides the task; a dead worker is
/// respawned and the task retried exactly once; a second death, or a
/// failed respawn (`recovery` empty), fabricates a failing result. The
/// caller passes `recovery` only when the first attempt died.
pub fn task_outcome(item: &TestItem, first: WorkerAttempt, recovery: Option<WorkerAttempt>) -> (r:
    TestResult)
    requires
        first is Answered ==> recovery is None,
    ensures
        r.item@ == item@,
        !r.skipped,
        r.skip_reason is None,
        match first {
            WorkerAttempt::Answered(resp) => carries_response(r, resp),
            WorkerAttempt::Died => match recovery {
                Some(WorkerAttempt::Answered(resp)) => carries_response(r, resp),
                _ => !r.passed && r.error is Some && r.coverage is None,
            },
        },
{
    match first {
        WorkerAttempt::Answered(resp) => response_to_result(item, resp),
        WorkerAttempt::Died => match recovery {
            Some(WorkerAttempt::Answered(resp)) => response_to_result(item, resp),
            Some(WorkerAttempt::Died) => fabricated_failure(
                item,
                "worker crashed again after a respawn",
            ),
            None => fabricated_failure(item, "worker crashed and could not be respawned"),
        },
    }
}

/// The result board: one slot per input test, filled in completion order,
/// read out in input order.
pub struct ResultBoard {
    items: Vec<TestItem>,
    slots: Vec<Option<TestResult>>,
}

impl ResultBoard {
    /// The input items, by index.
    pub closed spec fn spec_items(&self) -> Seq<TestItem> {
        self.items@
    }

    /// The filled slots, by index.
    pub closed spec fn spec_slots(&self) -> Seq<Option<TestResult>> {
        self.slots@
    }

    /// One slot per item, and every filled slot carries its input's item.
    pub closed spec fn wf(&self) -> bool {
        &&& self.slots@.len() == self.items@.len()
        &&& forall|i: int|
            0 <= i < self.slots@.len() ==> match #[trigger] self.slots@[i] {
                Some(r) => r.item@ == self.items@[i]@,
                None => true,
            }
    }

    /// A board for one run's tests, all slots empty.
    pub fn new(items: Vec<TestItem>) -> (r: ResultBoard)
        ensures
            r.wf(),
            r.spec_items() == items@,
            r.spec_slots().len() == items@.len(),
            forall|i: int| 0 <= i < items@.len() ==> (#[trigger] r.spec_slots()[i]) is None,
    {
        let mut slots: Vec<Option<TestResult>> = Vec::new();
        let mut i: usize = 0;
        while i < items.len()
            invariant
                0 <= i <= items@.len(),
                slots@.len() == i,
                forall|j: int| 0 <= j < i ==> (#[trigger] slots@[j]) is None,
            decreases items@.len() - i,
        {
            slots.push(None);
            i = i + 1;
        }
        ResultBoard { items, slots }
    }

    /// Accept one completed result for its input index. Accepted exactly
    /// when the index is in range and its slot was still empty: a second
    /// result for the same index is refused, so each test's result is
    /// accepted — and the caller's observer runs — at most once per index.
    pub fn record(&mut self, idx: usize, result: TestResult) -> (accepted: bool)
        requires
            old(self).wf(),
            idx < old(self).spec_items().len() ==> result.item@ == old(self).spec_items()[
                idx as int
            ]@,
        ensures
            final(self).wf(),
            final(self).spec_items() == old(self).spec_items(),
            accepted == (idx < old(self).spec_slots().len() && old(self).spec_slots()[
                idx as int
            ] is None),
            accepted ==> final(self).spec_slots() == old(self).spec_slots().update(
                idx as int,
                Some(result),
            ),
            !accepted ==> final(self).spec_slots() == old(self).spec_slots(),
    {
        if idx >= self.slots.len() {
            return false;
        }
        let occupied = match &self.slots[idx] {
            Some(_) => true,
            None => false,
        };
        if occupied {
            return false;
        }
        self.slots.set(idx, Some(result));
        true
    }

    /// How many slots are filled.
    pub fn filled(&self) -> (n: usize)
        ensures
            n <= self.spec_slots().len(),
            n == self.spec_slots().len() ==> forall|i: int|
                0 <= i < self.spec_slots().len() ==> (#[trigger] self.spec_slots()[i]) is Some,
    {
        let mut n: usize = 0;
        let mut i: usize = 0;
        while i < self.slots.len()
            invariant
                0 <= i <= self.slots@.len(),
                n <= i,
                n + count_none(self.slots@.take(i as int)) == i,
            decreases self.slots@.len() - i,
        {
            proof {
                assert(self.slots@.take(i + 1).drop_last() =~= self.slots@.take(i as int));
                assert(self.slots@.take(i + 1).last() == self.slots@[i as int]);
            }
            match &self.slots[i] {
                Some(_) => {
                    n = n + 1;
                },
                None => {},
            }
            i = i + 1;
        }
        proof {
            assert(self.slots@.take(self.slots@.len() as int) =~= self.slots@);
            if n == self.slots@.len() {
                lemma_count_none_zero(self.slots@);
            }
        }
        n
    }

    /// Read the results out in input order. Every index yields a result
    /// carrying that input's item; a slot never filled — a supervisor
    /// died before answering — becomes a fabricated failing result.
    pub fn finish(self) -> (out: Vec<TestResult>)
        requires
            self.wf(),
        ensures
            out@.len() == self.spec_items().len(),
            forall|i: int|
                0 <= i < out@.len() ==> (#[trigger] out@[i]).item@ == self.spec_items()[i]@,
            forall|i: int|
                0 <= i < out@.len() ==> match self.spec_slots()[i] {
                    Some(r) => out@[i] == r,
                    None => !(#[trigger] out@[i]).passed && !out@[i].skipped && out@[i].error
                        is Some,
                },
    {
        let ResultBoard { items, slots } = self;
        let ghost items0 = items@;
        let ghost slots0 = slots@;
        let mut out: Vec<TestResult> = Vec::new();
        let mut slots = slots;
        let mut i: usize = 0;
        while i < items.len()
            invariant
                0 <= i <= items0.len(),
                items@ == items0,
                slots@ =~= slots0.skip(i as int),
                slots0.len() == items0.len(),
                forall|j: int|
                    0 <= j < slots0.len() ==> match #[trigger] slots0[j] {
                        Some(r) => r.item@ == items0[j]@,
                        None => true,
                    },
                out@.len() == i,
                forall|j: int| 0 <= j < i ==> (#[trigger] out@[j]).item@ == items0[j]@,
                forall|j: int|
                    0 <= j < i ==> match slots0[j] {
                        Some(r) => out@[j] == r,
                        None => !(#[trigger] out@[j]).passed && !out@[j].skipped && out@[j].error
                            is Some,
                    },
            decreases items0.len() - i,
        {
            proof {
                assert(slots@[0] == slots0[i as int]);
            }
            let taken = slots.remove(0);
            proof {
                assert(slots@ =~= slots0.skip(i + 1));
            }
            let r = match taken {
                Some(r) => r,
                None => fabricated_failure(&items[i], "the test was never executed"),
            };
            out.push(r);
            i = i + 1;
        }
        out
    }
}

/// How many slots of a list are empty.
pub open spec fn count_none(slots: Seq<Option<TestResult>>) -> nat
    decreases slots.len(),
{
    if slots.len() == 0 {
        0
    } else {
        count_none(slots.drop_last()) + if slots.last() is None {
            1nat
        } else {
            0nat
        }
    }
}

/// A list with no empty count has no empty slot.
proof fn lemma_count_none_zero(slots: Seq<Option<TestResult>>)
    requires
        count_none(slots) == 0,
    ensures
        forall|i: int| 0 <= i < slots.len() ==> (#[trigger] slots[i]) is Some,
    decreases slots.len(),
{
    if slots.len() > 0 {
        lemma_count_none_zero(slots.drop_last());
        assert forall|i: int| 0 <= i < slots.len() implies (#[trigger] slots[i]) is Some by {
            if i < slots.len() - 1 {
                assert(slots.drop_last()[i] == slots[i]);
            }
        }
    }
}

} // verus!

use vstd::prelude::*;

use crate::copy_handler::{ops_view, parents_precede, CopyOp, OpView};
use crate::folder_tree::FsNodeKind;

verus! {

/// Where one operation of a plan stands.
#[derive(Debug, Clone, Copy, PartialEq, Eq, Structural)]
pub enum OpState {
    /// Not started yet.
    Pending,
    /// Started and not reported back.
    Running,
    /// Completed.
    Done,
    /// Reported as failed.
    Failed,
    /// Never started, because the directory it writes into was not created.
    Skipped,
}

/// How an operation that was run came out.
#[derive(Debug, Clone, Copy, PartialEq, Eq, Structural)]
pub enum OpOutcome {
    /// The directory was created, or the file copied.
    Completed,
    /// The directory to create was there already: as good as created.
    AlreadyExists,
    /// The operation failed.
    Failed,
}

/// The abstract state of a scheduler.
pub struct SchedView {
    pub ops: Seq<OpView>,
    pub states: Seq<OpState>,
    pub running: nat,
    pub limit: nat,
}

/// How many of `states` are `st`.
pub open spec fn count_state(states: Seq<OpState>, st: OpState) -> nat
    decreases states.len(),
{
    if states.len() == 0 {
        0
    } else {
        count_state(states.drop_last(), st) + if states.last() == st {
            1nat
        } else {
            0nat
        }
    }
}

/// Operation `j` writes, directly or further down, into the directory that
/// operation `i` creates.
pub open spec fn descends(ops: Seq<OpView>, j: int, i: int) -> bool
    decreases j,
{
    0 <= j < ops.len() && match ops[j].parent {
        Some(p) => p < j && (p == i || descends(ops, p as int, i)),
        None => false,
    }
}

/// The state counts as a fault of the run.
pub open spec fn is_fault(st: OpState) -> bool {
    st == OpState::Failed || st == OpState::Skipped
}

/// Operation `j` may start: it is pending and its directory exists.
pub open spec fn ready(v: SchedView, j: int) -> bool {
    &&& v.states[j] == OpState::Pending
    &&& match v.ops[j].parent {
        Some(p) => v.states[p as int] == OpState::Done,
        None => true,
    }
}

/// What the invariant asks of operation `j`, given the state of the
/// operation that creates its directory.
pub open spec fn state_ok(v: SchedView, j: int) -> bool {
    let st = v.states[j];
    match v.ops[j].parent {
        Some(p) => {
            let ps = v.states[p as int];
            &&& (st == OpState::Running || st == OpState::Done || st == OpState::Failed) ==> ps
                == OpState::Done
            &&& st == OpState::Skipped ==> is_fault(ps)
            &&& st == OpState::Pending ==> !is_fault(ps)
        },
        None => st != OpState::Skipped,
    }
}

/// The scheduler's invariant: at most `limit` operations run; an operation
/// starts only once the directory it writes into exists; the operations
/// under a directory that could not be created are skipped, and no other.
pub open spec fn sched_wf(v: SchedView) -> bool {
    &&& v.states.len() == v.ops.len()
    &&& parents_precede(v.ops)
    &&& v.limit >= 1
    &&& v.running == count_state(v.states, OpState::Running)
    &&& v.running <= v.limit
    &&& forall|j: int| 0 <= j < v.ops.len() ==> #[trigger] state_ok(v, j)
}

/// The state after operation `j` is started.
pub open spec fn started(v: SchedView, j: int) -> SchedView {
    SchedView { states: v.states.update(j, OpState::Running), running: v.running + 1, ..v }
}

proof fn lemma_start(v: SchedView, j: int)
    requires
        sched_wf(v),
        0 <= j < v.ops.len(),
        ready(v, j),
        v.running < v.limit,
    ensures
        sched_wf(started(v, j)),
{
    let w = started(v, j);
    lemma_count_update(v.states, j, OpState::Running, OpState::Running);
    assert forall|k: int| 0 <= k < w.ops.len() implies #[trigger] state_ok(w, k) by {
        assert(state_ok(v, k));
    }
}

proof fn lemma_count_update(s: Seq<OpState>, i: int, x: OpState, st: OpState)
    requires
        0 <= i < s.len(),
    ensures
        count_state(s.update(i, x), st) + (if s[i] == st {
            1nat
        } else {
            0nat
        }) == count_state(s, st) + (if x == st {
            1nat
        } else {
            0nat
        }),
    decreases s.len(),
{
    let u = s.update(i, x);
    if i == s.len() - 1 {
        assert(u.drop_last() =~= s.drop_last());
    } else {
        assert(u.drop_last() =~= s.drop_last().update(i, x));
        lemma_count_update(s.drop_last(), i, x, st);
    }
}

proof fn lemma_count_all(s: Seq<OpState>, st: OpState)
    requires
        forall|j: int| 0 <= j < s.len() ==> s[j] != st,
    ensures
        count_state(s, st) == 0,
    decreases s.len(),
{
    if s.len() > 0 {
        lemma_count_all(s.drop_last(), st);
    }
}

proof fn lemma_count_same(s1: Seq<OpState>, s2: Seq<OpState>, st: OpState)
    requires
        s1.len() == s2.len(),
        forall|j: int| 0 <= j < s1.len() ==> (s1[j] == st <==> s2[j] == st),
    ensures
        count_state(s1, st) == count_state(s2, st),
    decreases s1.len(),
{
    if s1.len() > 0 {
        lemma_count_same(s1.drop_last(), s2.drop_last(), st);
    }
}

/// The state after operation `i` came back with `outcome`: done, or failed
/// with every operation under it skipped.
pub open spec fn reported(v: SchedView, i: int, outcome: OpOutcome) -> SchedView {
    let states = if outcome == OpOutcome::Failed {
        Seq::new(
            v.states.len(),
            |j: int|
                if j == i {
                    OpState::Failed
                } else if descends(v.ops, j, i) {
                    OpState::Skipped
                } else {
                    v.states[j]
                },
        )
    } else {
        v.states.update(i, OpState::Done)
    };
    SchedView { states, running: (v.running - 1) as nat, ..v }
}

proof fn lemma_descends_after(ops: Seq<OpView>, j: int, i: int)
    requires
        descends(ops, j, i),
    ensures
        i < j,
    decreases j,
{
    let p = ops[j].parent->0;
    if p != i {
        lemma_descends_after(ops, p as int, i);
    }
}

/// Below a running operation, everything is still pending.
proof fn lemma_descends_pending(v: SchedView, j: int, i: int)
    requires
        sched_wf(v),
        0 <= i < v.ops.len(),
        v.states[i] == OpState::Running,
        descends(v.ops, j, i),
    ensures
        v.states[j] == OpState::Pending,
    decreases j,
{
    let p = v.ops[j].parent->0;
    assert(state_ok(v, j));
    if p != i {
        lemma_descends_pending(v, p as int, i);
    }
}

/// Only a directory has operations under it.
proof fn lemma_descends_dir(v: SchedView, j: int, i: int)
    requires
        sched_wf(v),
        descends(v.ops, j, i),
    ensures
        v.ops[i].kind == FsNodeKind::Dir,
    decreases j,
{
    let p = v.ops[j].parent->0;
    if p != i {
        lemma_descends_dir(v, p as int, i);
    } else {
        assert(v.ops[j].parent == Some(p));
    }
}

proof fn lemma_report(v: SchedView, i: int, outcome: OpOutcome)
    requires
        sched_wf(v),
        0 <= i < v.ops.len(),
        v.states[i] == OpState::Running,
    ensures
        sched_wf(reported(v, i, outcome)),
{
    let w = reported(v, i, outcome);
    assert(state_ok(v, i));
    lemma_count_update(v.states, i, OpState::Failed, OpState::Running);
    if outcome == OpOutcome::Failed {
        let u = v.states.update(i, OpState::Failed);
        assert forall|j: int| 0 <= j < u.len() implies (u[j] == OpState::Running <==> w.states[j]
            == OpState::Running) by {
            if j != i && descends(v.ops, j, i) {
                lemma_descends_pending(v, j, i);
            }
        }
        lemma_count_same(u, w.states, OpState::Running);
        assert forall|k: int| 0 <= k < w.ops.len() implies #[trigger] state_ok(w, k) by {
            assert(state_ok(v, k));
            if k == i {
                match v.ops[k].parent {
                    Some(p) => {
                        if descends(v.ops, p as int, i) {
                            lemma_descends_after(v.ops, p as int, i);
                        }
                    },
                    None => {},
                }
            } else if descends(v.ops, k, i) {
                lemma_descends_pending(v, k, i);
            } else {
                match v.ops[k].parent {
                    Some(p) => {
                        assert(p != i);
                        assert(!descends(v.ops, p as int, i));
                    },
                    None => {},
                }
            }
        }
    } else {
        lemma_count_update(v.states, i, OpState::Done, OpState::Running);
        assert forall|k: int| 0 <= k < w.ops.len() implies #[trigger] state_ok(w, k) by {
            assert(state_ok(v, k));
        }
    }
}

proof fn lemma_count_zero(s: Seq<OpState>, st: OpState, j: int)
    requires
        count_state(s, st) == 0,
        0 <= j < s.len(),
    ensures
        s[j] != st,
    decreases s.len(),
{
    if j < s.len() - 1 {
        lemma_count_zero(s.drop_last(), st, j);
    }
}

proof fn lemma_pending_reaches_ready(v: SchedView, k: int)
    requires
        sched_wf(v),
        v.running == 0,
        0 <= k < v.ops.len(),
        v.states[k] == OpState::Pending,
    ensures
        exists|j: int| 0 <= j < v.ops.len() && ready(v, j),
    decreases k,
{
    if !ready(v, k) {
        assert(state_ok(v, k));
        let p = v.ops[k].parent->0;
        assert(v.ops[k].parent == Some(p));
        lemma_count_zero(v.states, OpState::Running, p as int);
        lemma_pending_reaches_ready(v, p as int);
    }
}

/// A run never stalls: while an operation is pending and none is running,
/// some operation may start, whatever order the earlier ones came back in.
pub proof fn lemma_idle_scheduler_has_ready(v: SchedView, k: int)
    requires
        sched_wf(v),
        v.running == 0,
        0 <= k < v.ops.len(),
        v.states[k] == OpState::Pending,
    ensures
        exists|j: int| 0 <= j < v.ops.len() && ready(v, j),
{
    lemma_pending_reaches_ready(v, k);
}

/// A run that has come to an end without a fault has done every operation.
pub proof fn lemma_clean_run_done_everything(v: SchedView)
    requires
        sched_wf(v),
        forall|k: int|
            0 <= k < v.ops.len() ==> v.states[k] != OpState::Pending && v.states[k]
                != OpState::Running,
        forall|k: int| 0 <= k < v.ops.len() ==> !is_fault(#[trigger] v.states[k]),
    ensures
        forall|k: int| 0 <= k < v.ops.len() ==> v.states[k] == OpState::Done,
{
    assert forall|k: int| 0 <= k < v.ops.len() implies v.states[k] == OpState::Done by {
        assert(!is_fault(v.states[k]));
    }
}

/// A file that fails is the only fault it causes: every other operation
/// keeps its state, and goes on as if the file had been copied.
pub proof fn lemma_failed_file_is_isolated(v: SchedView, i: int)
    requires
        sched_wf(v),
        0 <= i < v.ops.len(),
        v.states[i] == OpState::Running,
        v.ops[i].kind == FsNodeKind::File,
    ensures
        reported(v, i, OpOutcome::Failed).states == v.states.update(i, OpState::Failed),
        forall|j: int|
            0 <= j < v.ops.len() && j != i ==> reported(v, i, OpOutcome::Failed).states[j]
                == reported(v, i, OpOutcome::Completed).states[j],
{
    let w = reported(v, i, OpOutcome::Failed).states;
    assert forall|j: int| 0 <= j < v.ops.len() && j != i implies !descends(v.ops, j, i) by {
        if descends(v.ops, j, i) {
            lemma_descends_dir(v, j, i);
        }
    }
    assert(w =~= v.states.update(i, OpState::Failed));
}

/// Creating a directory that exists already counts as creating it: a run
/// over a destination that is already populated goes on as over an empty one.
pub proof fn lemma_existing_dir_is_created(v: SchedView, i: int)
    requires
        sched_wf(v),
        0 <= i < v.ops.len(),
        v.states[i] == OpState::Running,
    ensures
        reported(v, i, OpOutcome::AlreadyExists) == reported(v, i, OpOutcome::Completed),
{
}

/// Orders the operations of a copy plan: hands out those that may start,
/// at most `limit` at a time, and records how each came out.
pub struct CopyScheduler {
    ops: Vec<CopyOp>,
    states: Vec<OpState>,
    running: usize,
    limit: usize,
}

impl View for CopyScheduler {
    type V = SchedView;

    closed spec fn view(&self) -> SchedView {
        SchedView {
            ops: ops_view(self.ops@),
            states: self.states@,
            running: self.running as nat,
            limit: self.limit as nat,
        }
    }
}

impl CopyScheduler {
    pub open spec fn wf(&self) -> bool {
        sched_wf(self@)
    }

    /// A scheduler for `ops`, with every operation pending.
    pub fn new(ops: Vec<CopyOp>, limit: usize) -> (r: Self)
        requires
            parents_precede(ops_view(ops@)),
            limit >= 1,
        ensures
            r.wf(),
            r@.ops == ops_view(ops@),
            r@.limit == limit,
            r@.running == 0,
            forall|j: int| 0 <= j < r@.states.len() ==> r@.states[j] == OpState::Pending,
    {
        let n = ops.len();
        let mut states: Vec<OpState> = Vec::new();
        for i in 0..n
            invariant
                states@.len() == i,
                forall|j: int| 0 <= j < i ==> states@[j] == OpState::Pending,
        {
            states.push(OpState::Pending);
        }
        proof {
            lemma_count_all(states@, OpState::Running);
        }
        CopyScheduler { ops, states, running: 0, limit }
    }

    /// The number of operations in the plan.
    pub fn len(&self) -> (r: usize)
        requires
            self.wf(),
        ensures
            r == self@.ops.len(),
    {
        self.ops.len()
    }

    /// The operation at position `i` of the plan.
    pub fn op(&self, i: usize) -> (r: &CopyOp)
        requires
            self.wf(),
            i < self@.ops.len(),
        ensures
            r@ == self@.ops[i as int],
    {
        &self.ops[i]
    }

    /// Where the operation at position `i` stands.
    pub fn state(&self, i: usize) -> (r: OpState)
        requires
            self.wf(),
            i < self@.ops.len(),
        ensures
            r == self@.states[i as int],
    {
        self.states[i]
    }

    /// The number of operations started and not yet reported back.
    pub fn in_flight(&self) -> (r: usize)
        requires
            self.wf(),
        ensures
            r == self@.running,
    {
        self.running
    }

    /// The first operation that may start, if any.
    fn first_ready(&self) -> (r: Option<usize>)
        requires
            self.wf(),
        ensures
            match r {
                Some(j) => j < self@.ops.len() && ready(self@, j as int) && forall|k: int|
                    0 <= k < j ==> !ready(self@, k),
                None => forall|k: int| 0 <= k < self@.ops.len() ==> !ready(self@, k),
            },
    {
        let n = self.ops.len();
        let mut j: usize = 0;
        while j < n
            invariant
                self.wf(),
                n == self@.ops.len(),
                j <= n,
                forall|k: int| 0 <= k < j ==> !ready(self@, k),
            decreases n - j,
        {
            if self.states[j] == OpState::Pending {
                let parent_done = match self.ops[j].parent {
                    Some(p) => {
                        assert(self@.ops[j as int].parent == Some(p as nat));
                        self.states[p] == OpState::Done
                    },
                    None => true,
                };
                if parent_done {
                    return Some(j);
                }
            }
            j = j + 1;
        }
        None
    }

    /// Starts the first operation that may start, if the bound on
    /// operations in flight allows one more.
    pub fn next_ready(&mut self) -> (r: Option<usize>)
        requires
            old(self).wf(),
        ensures
            final(self).wf(),
            match r {
                Some(j) => {
                    &&& old(self)@.running < old(self)@.limit
                    &&& j < old(self)@.ops.len()
                    &&& ready(old(self)@, j as int)
                    &&& forall|k: int| 0 <= k < j ==> !ready(old(self)@, k)
                    &&& final(self)@ == started(old(self)@, j as int)
                },
                None => {
                    &&& (old(self)@.running >= old(self)@.limit || forall|k: int|
                        0 <= k < old(self)@.ops.len() ==> !ready(old(self)@, k))
                    &&& final(self)@ == old(self)@
                },
            },
    {
        if self.running >= self.limit {
            return None;
        }
        match self.first_ready() {
            Some(j) => {
                proof {
                    lemma_start(self@, j as int);
                }
                self.states.set(j, OpState::Running);
                self.running = self.running + 1;
                assert(self@ =~= started(old(self)@, j as int));
                Some(j)
            },
            None => None,
        }
    }

    /// Records how the running operation `i` came out. A directory that
    /// existed already counts as created. After a failure, every operation
    /// under the failed one is skipped; nothing else changes.
    pub fn finish(&mut self, i: usize, outcome: OpOutcome)
        requires
            old(self).wf(),
            i < old(self)@.ops.len(),
            old(self)@.states[i as int] == OpState::Running,
        ensures
            final(self).wf(),
            final(self)@ == reported(old(self)@, i as int, outcome),
    {
        proof {
            lemma_report(self@, i as int, outcome);
            lemma_count_update(self@.states, i as int, OpState::Done, OpState::Running);
        }
        let ghost v = self@;
        let ghost target = reported(v, i as int, outcome).states;
        self.running = self.running - 1;
        if outcome == OpOutcome::Failed {
            self.states.set(i, OpState::Failed);
            let n = self.states.len();
            let mut j: usize = i + 1;
            proof {
                assert forall|k: int| 0 <= k < j implies self.states@[k] == target[k] by {
                    if descends(v.ops, k, i as int) {
                        lemma_descends_after(v.ops, k, i as int);
                    }
                }
            }
            while j < n
                invariant
                    sched_wf(v),
                    i < j <= n,
                    n == v.ops.len(),
                    v.states[i as int] == OpState::Running,
                    ops_view(self.ops@) == v.ops,
                    self.running as nat == (v.running - 1) as nat,
                    self.limit as nat == v.limit,
                    target == reported(v, i as int, outcome).states,
                    outcome == OpOutcome::Failed,
                    self.states@.len() == n,
                    forall|k: int| 0 <= k < j ==> self.states@[k] == target[k],
                    forall|k: int| j <= k < n ==> self.states@[k] == v.states[k],
                decreases n - j,
            {
                if self.states[j] == OpState::Pending {
                    assert(state_ok(v, j as int));
                    match self.ops[j].parent {
                        Some(p) => {
                            assert(v.ops[j as int].parent == Some(p as nat));
                            assert(p < j);
                            assert(self.states@[p as int] == target[p as int]);
                            let ps = self.states[p];
                            if ps == OpState::Failed || ps == OpState::Skipped {
                                assert(p == i || descends(v.ops, p as int, i as int));
                                assert(descends(v.ops, j as int, i as int));
                                self.states.set(j, OpState::Skipped);
                            } else {
                                assert(p != i);
                                assert(!descends(v.ops, p as int, i as int));
                                assert(!descends(v.ops, j as int, i as int));
                                proof {
                                    if descends(v.ops, p as int, i as int) {
                                        lemma_descends_after(v.ops, p as int, i as int);
                                    }
                                }
                            }
                        },
                        None => {},
                    }
                } else {
                    proof {
                        if descends(v.ops, j as int, i as int) {
                            lemma_descends_pending(v, j as int, i as int);
                        }
                    }
                }
                j = j + 1;
            }
        } else {
            self.states.set(i, OpState::Done);
        }
        assert(self@.states =~= target);
        assert(self@ == reported(v, i as int, outcome));
    }

    /// Whether every operation has come to an end: none pending, none
    /// running.
    pub fn is_finished(&self) -> (r: bool)
        requires
            self.wf(),
        ensures
            r == forall|k: int|
                0 <= k < self@.ops.len() ==> self@.states[k] != OpState::Pending
                    && self@.states[k] != OpState::Running,
    {
        let n = self.states.len();
        let mut j: usize = 0;
        while j < n
            invariant
                self.wf(),
                n == self@.ops.len(),
                j <= n,
                forall|k: int|
                    0 <= k < j ==> self@.states[k] != OpState::Pending && self@.states[k]
                        != OpState::Running,
            decreases n - j,
        {
            let st = self.states[j];
            if st == OpState::Pending || st == OpState::Running {
                return false;
            }
            j = j + 1;
        }
        true
    }

    /// The positions of the operations that failed or were skipped, in plan
    /// order.
    pub fn faults(&self) -> (r: Vec<usize>)
        requires
            self.wf(),
        ensures
            forall|a: int, b: int| 0 <= a < b < r@.len() ==> r@[a] < r@[b],
            forall|a: int|
                0 <= a < r@.len() ==> r@[a] < self@.ops.len() && is_fault(
                    #[trigger] self@.states[r@[a] as int],
                ),
            forall|k: int|
                0 <= k < self@.ops.len() && is_fault(#[trigger] self@.states[k]) ==> r@.contains(
                    k as usize,
                ),
    {
        let n = self.states.len();
        let mut r: Vec<usize> = Vec::new();
        let mut j: usize = 0;
        while j < n
            invariant
                self.wf(),
                n == self@.ops.len(),
                j <= n,
                forall|a: int, b: int| 0 <= a < b < r@.len() ==> r@[a] < r@[b],
                forall|a: int| 0 <= a < r@.len() ==> r@[a] < j,
                forall|a: int|
                    0 <= a < r@.len() ==> is_fault(#[trigger] self@.states[r@[a] as int]),
                forall|k: int|
                    0 <= k < j && is_fault(#[trigger] self@.states[k]) ==> r@.contains(k as usize),
            decreases n - j,
        {
            let st = self.states[j];
            if st == OpState::Failed || st == OpState::Skipped {
                let ghost r0 = r@;
                r.push(j);
                proof {
                    assert forall|k: int|
                        0 <= k < j + 1 && is_fault(#[trigger] self@.states[k]) implies r@.contains(
                        k as usize,
                    ) by {
                        if k < j {
                            let a = choose|a: int| 0 <= a < r0.len() && r0[a] == k as usize;
                            assert(r@[a] == k as usize);
                        } else {
                            assert(r@[r0.len() as int] == j);
                        }
                    }
                }
            }
            j = j + 1;
        }
        r
    }
}

} // verus!

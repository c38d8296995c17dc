//! The Block-STM scheduler: which transaction to execute or validate next,
//! per-transaction status and incarnation, and completion detection.
//!
//! Validation takes priority over execution. A failed validation aborts the
//! transaction (its incarnation grows by one, it becomes ready to execute
//! again) and lowers both counters so that the transaction is re-executed and
//! every later transaction is re-validated.
//!
//! The scheduler here is the coordinator's decision logic with exclusive
//! access (`&mut self`); callers that share it between threads hold it behind
//! a lock and retry `try_next_task` while it answers `None`.

use vstd::prelude::*;

use crate::mv_types::{Incarnation, TxIndex};
use crate::read_write_sets::{ReadSet, WriteSet};

verus! {

/// A task handed to a worker.
#[derive(Debug, Clone, Copy, PartialEq, Eq, Structural)]
pub enum SchedulerTask {
    /// Execute transaction `tx_index` at the given incarnation.
    Execute(TxIndex, Incarnation),
    /// Validate the read set of transaction `tx_index`.
    Validate(TxIndex),
    /// Every transaction is processed; the worker should stop.
    Done,
}

/// Lifecycle status of one transaction.
#[derive(Debug, Clone, Copy, PartialEq, Eq, Structural)]
pub enum TxStatus {
    ReadyToExecute,
    Executing,
    Executed,
    Validating,
    Validated,
    Aborting,
}

/// Per-transaction scheduler state.
pub struct TxState {
    pub status: TxStatus,
    /// Incremented on every re-execution after a failed validation.
    pub incarnation: Incarnation,
    /// Read set of the latest execution, kept for validation.
    pub read_set: Option<ReadSet>,
    /// Write set of the latest execution.
    pub write_set: Option<WriteSet>,
}

impl TxState {
    /// A transaction ready for its first execution.
    pub fn new() -> (s: TxState)
        ensures
            s.status == TxStatus::ReadyToExecute,
            s.incarnation == 0,
            s.read_set is None,
            s.write_set is None,
    {
        TxState { status: TxStatus::ReadyToExecute, incarnation: 0, read_set: None, write_set: None }
    }
}

impl Default for TxState {
    fn default() -> (s: Self)
        ensures
            s.status == TxStatus::ReadyToExecute,
            s.incarnation == 0,
            s.read_set is None,
            s.write_set is None,
    {
        TxState::new()
    }
}

/// The abstract state of the scheduler.
pub struct SchedModel {
    pub block_size: u32,
    pub execution_idx: u32,
    pub validation_idx: u32,
    pub num_active_tasks: u32,
    pub decrease_cnt: u32,
    pub statuses: Seq<TxStatus>,
    pub incarnations: Seq<Incarnation>,
    pub read_sets: Seq<Option<ReadSet>>,
    pub write_sets: Seq<Option<WriteSet>>,
}

/// Increment of a 32-bit counter that wraps around.
pub open spec fn wrap_inc(x: u32) -> u32 {
    if x == u32::MAX {
        0
    } else {
        (x + 1) as u32
    }
}

/// Decrement of a 32-bit counter that wraps around.
pub open spec fn wrap_dec(x: u32) -> u32 {
    if x == 0 {
        u32::MAX
    } else {
        (x - 1) as u32
    }
}

/// Counters past the block and no task in flight.
pub open spec fn spec_done(m: SchedModel) -> bool {
    m.execution_idx >= m.block_size && m.validation_idx >= m.block_size && m.num_active_tasks == 0
}

/// One attempt to claim a validation task.
pub open spec fn try_claim_validation(m: SchedModel) -> (SchedModel, Option<SchedulerTask>) {
    if m.validation_idx < m.block_size {
        let c = m.validation_idx;
        let m1 = SchedModel { validation_idx: (c + 1) as u32, ..m };
        if m.statuses[c as int] == TxStatus::Executed {
            (
                SchedModel {
                    statuses: m1.statuses.update(c as int, TxStatus::Validating),
                    num_active_tasks: wrap_inc(m1.num_active_tasks),
                    ..m1
                },
                Some(SchedulerTask::Validate(c)),
            )
        } else {
            (m1, None)
        }
    } else {
        (m, None)
    }
}

/// One attempt to claim an execution task.
pub open spec fn try_claim_execution(m: SchedModel) -> (SchedModel, Option<SchedulerTask>) {
    if m.execution_idx < m.block_size {
        let c = m.execution_idx;
        let m1 = SchedModel { execution_idx: (c + 1) as u32, ..m };
        if m.statuses[c as int] == TxStatus::ReadyToExecute {
            (
                SchedModel {
                    statuses: m1.statuses.update(c as int, TxStatus::Executing),
                    num_active_tasks: wrap_inc(m1.num_active_tasks),
                    ..m1
                },
                Some(SchedulerTask::Execute(c, m.incarnations[c as int])),
            )
        } else {
            (m1, None)
        }
    } else {
        (m, None)
    }
}

pub open spec fn claim_measure(m: SchedModel) -> nat {
    ((if m.validation_idx < m.block_size {
        m.block_size - m.validation_idx
    } else {
        0
    }) + (if m.execution_idx < m.block_size {
        m.block_size - m.execution_idx
    } else {
        0
    })) as nat
}

/// What `next_task` does: claim a validation task, else an execution task,
/// else report `Done` when complete; repeat while a counter is below the
/// block size. `None` is the state in which only other workers' progress
/// could make a task available.
pub open spec fn spec_next_task(m: SchedModel) -> (SchedModel, Option<SchedulerTask>)
    decreases claim_measure(m),
{
    let (m1, t1) = try_claim_validation(m);
    if t1 is Some {
        (m1, t1)
    } else {
        let (m2, t2) = try_claim_execution(m1);
        if t2 is Some {
            (m2, t2)
        } else if spec_done(m2) {
            (m2, Some(SchedulerTask::Done))
        } else if m2.execution_idx >= m2.block_size && m2.validation_idx >= m2.block_size {
            (m2, None)
        } else {
            spec_next_task(m2)
        }
    }
}

/// The state after `finish_execution(tx, incarnation, ..)`.
pub open spec fn spec_finish_execution(
    m: SchedModel,
    tx: TxIndex,
    incarnation: Incarnation,
    read_set: ReadSet,
    write_set: WriteSet,
) -> SchedModel {
    SchedModel {
        statuses: if m.incarnations[tx as int] == incarnation {
            m.statuses.update(tx as int, TxStatus::Executed)
        } else {
            m.statuses
        },
        read_sets: if m.incarnations[tx as int] == incarnation {
            m.read_sets.update(tx as int, Some(read_set))
        } else {
            m.read_sets
        },
        write_sets: if m.incarnations[tx as int] == incarnation {
            m.write_sets.update(tx as int, Some(write_set))
        } else {
            m.write_sets
        },
        validation_idx: if m.validation_idx <= tx {
            m.validation_idx
        } else {
            tx
        },
        num_active_tasks: wrap_dec(m.num_active_tasks),
        decrease_cnt: wrap_inc(m.decrease_cnt),
        ..m
    }
}

/// The state after `finish_validation(tx, valid)`.
pub open spec fn spec_finish_validation(m: SchedModel, tx: TxIndex, valid: bool) -> SchedModel {
    if valid {
        SchedModel {
            statuses: m.statuses.update(tx as int, TxStatus::Validated),
            num_active_tasks: wrap_dec(m.num_active_tasks),
            decrease_cnt: wrap_inc(m.decrease_cnt),
            ..m
        }
    } else {
        SchedModel {
            statuses: m.statuses.update(tx as int, TxStatus::ReadyToExecute),
            incarnations: m.incarnations.update(tx as int, (m.incarnations[tx as int] + 1) as u32),
            read_sets: m.read_sets.update(tx as int, None),
            write_sets: m.write_sets.update(tx as int, None),
            execution_idx: if m.execution_idx <= tx {
                m.execution_idx
            } else {
                tx
            },
            validation_idx: if m.validation_idx <= tx + 1 {
                m.validation_idx
            } else {
                (tx + 1) as u32
            },
            num_active_tasks: wrap_dec(m.num_active_tasks),
            decrease_cnt: wrap_inc(m.decrease_cnt),
            ..m
        }
    }
}

/// The state after `requeue_execution(tx)`: the execution of `tx` met an
/// ESTIMATE; `tx` is ready to execute again (same incarnation) and the
/// execution counter is lowered to it.
pub open spec fn spec_requeue_execution(m: SchedModel, tx: TxIndex) -> SchedModel {
    SchedModel {
        statuses: m.statuses.update(tx as int, TxStatus::ReadyToExecute),
        execution_idx: if m.execution_idx <= tx {
            m.execution_idx
        } else {
            tx
        },
        num_active_tasks: wrap_dec(m.num_active_tasks),
        decrease_cnt: wrap_inc(m.decrease_cnt),
        ..m
    }
}

/// Claiming a task touches only statuses and counters.
pub proof fn lemma_next_task_keeps_sets(m: SchedModel)
    ensures
        spec_next_task(m).0.block_size == m.block_size,
        spec_next_task(m).0.incarnations == m.incarnations,
        spec_next_task(m).0.read_sets == m.read_sets,
        spec_next_task(m).0.write_sets == m.write_sets,
    decreases claim_measure(m),
{
    let (m1, t1) = try_claim_validation(m);
    if t1 is None {
        let (m2, t2) = try_claim_execution(m1);
        if t2 is None && !spec_done(m2) && !(m2.execution_idx >= m2.block_size
            && m2.validation_idx >= m2.block_size) {
            lemma_next_task_keeps_sets(m2);
        }
    }
}

/// A transaction with a task in flight.
pub open spec fn is_active(st: TxStatus) -> bool {
    st == TxStatus::Executing || st == TxStatus::Validating
}

/// Number of transactions with a task in flight.
pub open spec fn active_count(s: Seq<TxStatus>) -> nat
    decreases s.len(),
{
    if s.len() == 0 {
        0
    } else {
        active_count(s.drop_last()) + if is_active(s.last()) {
            1nat
        } else {
            0nat
        }
    }
}

proof fn lemma_active_count_update(s: Seq<TxStatus>, k: int, x: TxStatus)
    requires
        0 <= k < s.len(),
    ensures
        active_count(s.update(k, x)) + (if is_active(s[k]) { 1int } else { 0int }) == active_count(s)
            + (if is_active(x) { 1int } else { 0int }),
    decreases s.len(),
{
    if k == s.len() - 1 {
        assert(s.update(k, x).drop_last() =~= s.drop_last());
    } else {
        lemma_active_count_update(s.drop_last(), k, x);
        assert(s.update(k, x).drop_last() =~= s.drop_last().update(k, x));
    }
}

pub proof fn lemma_active_count_bounds(s: Seq<TxStatus>)
    ensures
        active_count(s) <= s.len(),
        active_count(s) == 0 ==> forall|i: int| 0 <= i < s.len() ==> !is_active(#[trigger] s[i]),
    decreases s.len(),
{
    if s.len() > 0 {
        lemma_active_count_bounds(s.drop_last());
        assert forall|i: int| active_count(s) == 0 && 0 <= i < s.len() implies !is_active(#[trigger] s[i]) by {
            if i < s.len() - 1 {
                assert(s[i] == s.drop_last()[i]);
            }
        }
    }
}

proof fn lemma_none_active(s: Seq<TxStatus>)
    requires
        forall|i: int| 0 <= i < s.len() ==> !is_active(#[trigger] s[i]),
    ensures
        active_count(s) == 0,
    decreases s.len(),
{
    if s.len() > 0 {
        assert forall|i: int| 0 <= i < s.drop_last().len() implies !is_active(#[trigger] s.drop_last()[i]) by {
            assert(s.drop_last()[i] == s[i]);
        }
        lemma_none_active(s.drop_last());
        assert(!is_active(s[s.len() - 1]));
    }
}

/// What the Block-STM protocol keeps of the scheduler's state, when every
/// finished task is one that was claimed: the in-flight count is the number
/// of transactions executing or validating, no transaction is left
/// aborting, a transaction ready to execute is not behind the execution
/// counter and an executed one is not behind the validation counter.
pub open spec fn protocol_inv(m: SchedModel) -> bool {
    &&& m.statuses.len() == m.block_size
    &&& m.num_active_tasks == active_count(m.statuses)
    &&& forall|i: int| 0 <= i < m.block_size ==> #[trigger] m.statuses[i] != TxStatus::Aborting
    &&& forall|i: int|
        0 <= i < m.block_size && #[trigger] m.statuses[i] == TxStatus::ReadyToExecute ==> i
            >= m.execution_idx
    &&& forall|i: int|
        0 <= i < m.block_size && #[trigger] m.statuses[i] == TxStatus::Executed ==> i
            >= m.validation_idx
}

pub proof fn lemma_inv_claim_validation(m: SchedModel)
    requires
        protocol_inv(m),
    ensures
        protocol_inv(try_claim_validation(m).0),
{
    if m.validation_idx < m.block_size {
        let c = m.validation_idx as int;
        lemma_active_count_bounds(m.statuses);
        if m.statuses[c] == TxStatus::Executed {
            lemma_active_count_update(m.statuses, c, TxStatus::Validating);
            lemma_active_count_bounds(m.statuses.update(c, TxStatus::Validating));
        }
    }
}

pub proof fn lemma_inv_claim_execution(m: SchedModel)
    requires
        protocol_inv(m),
    ensures
        protocol_inv(try_claim_execution(m).0),
{
    if m.execution_idx < m.block_size {
        let c = m.execution_idx as int;
        lemma_active_count_bounds(m.statuses);
        if m.statuses[c] == TxStatus::ReadyToExecute {
            lemma_active_count_update(m.statuses, c, TxStatus::Executing);
            lemma_active_count_bounds(m.statuses.update(c, TxStatus::Executing));
        }
    }
}

/// Claiming tasks keeps the protocol invariant.
pub proof fn lemma_inv_next_task(m: SchedModel)
    requires
        protocol_inv(m),
    ensures
        protocol_inv(spec_next_task(m).0),
    decreases claim_measure(m),
{
    lemma_inv_claim_validation(m);
    let (m1, t1) = try_claim_validation(m);
    if t1 is None {
        lemma_inv_claim_execution(m1);
        let (m2, t2) = try_claim_execution(m1);
        if t2 is None && !spec_done(m2) && !(m2.execution_idx >= m2.block_size
            && m2.validation_idx >= m2.block_size) {
            lemma_inv_next_task(m2);
        }
    }
}

/// Finishing the execution of a claimed transaction keeps the invariant.
pub proof fn lemma_inv_finish_execution(
    m: SchedModel,
    tx: TxIndex,
    incarnation: Incarnation,
    read_set: ReadSet,
    write_set: WriteSet,
)
    requires
        protocol_inv(m),
        tx < m.block_size,
        m.statuses[tx as int] == TxStatus::Executing,
        m.incarnations[tx as int] == incarnation,
    ensures
        protocol_inv(spec_finish_execution(m, tx, incarnation, read_set, write_set)),
{
    lemma_active_count_update(m.statuses, tx as int, TxStatus::Executed);
}

/// Re-queuing a claimed execution keeps the invariant.
pub proof fn lemma_inv_requeue(m: SchedModel, tx: TxIndex)
    requires
        protocol_inv(m),
        tx < m.block_size,
        m.statuses[tx as int] == TxStatus::Executing,
    ensures
        protocol_inv(spec_requeue_execution(m, tx)),
{
    lemma_active_count_update(m.statuses, tx as int, TxStatus::ReadyToExecute);
}

/// Finishing a claimed validation keeps the invariant.
pub proof fn lemma_inv_finish_validation(m: SchedModel, tx: TxIndex, valid: bool)
    requires
        protocol_inv(m),
        tx < m.block_size,
        m.statuses[tx as int] == TxStatus::Validating,
    ensures
        protocol_inv(spec_finish_validation(m, tx, valid)),
{
    if valid {
        lemma_active_count_update(m.statuses, tx as int, TxStatus::Validated);
    } else {
        lemma_active_count_update(m.statuses, tx as int, TxStatus::ReadyToExecute);
    }
}

// ── Laws ────────────────────────────────────────────────────────────────────

/// Validation has priority: when the next transaction to validate has
/// executed, it is handed out before any execution.
pub proof fn lemma_validation_first(m: SchedModel)
    requires
        m.validation_idx < m.block_size,
        m.statuses.len() == m.block_size,
        m.statuses[m.validation_idx as int] == TxStatus::Executed,
    ensures
        spec_next_task(m).1 == Some(SchedulerTask::Validate(m.validation_idx)),
        spec_next_task(m).0.statuses[m.validation_idx as int] == TxStatus::Validating,
{
}

/// A failed validation aborts the transaction: it is ready to execute again
/// with the next incarnation and no stored sets, execution restarts at it at
/// the latest, and every later transaction will be validated again.
pub proof fn lemma_abort(m: SchedModel, tx: TxIndex)
    requires
        tx < m.block_size,
        m.statuses.len() == m.block_size,
        m.incarnations.len() == m.block_size,
        m.read_sets.len() == m.block_size,
        m.write_sets.len() == m.block_size,
        m.incarnations[tx as int] < u32::MAX,
    ensures
        ({
            let m2 = spec_finish_validation(m, tx, false);
            &&& m2.statuses[tx as int] == TxStatus::ReadyToExecute
            &&& m2.incarnations[tx as int] == m.incarnations[tx as int] + 1
            &&& m2.read_sets[tx as int] is None
            &&& m2.write_sets[tx as int] is None
            &&& m2.execution_idx <= tx
            &&& m2.validation_idx <= tx + 1
            &&& forall|i: int|
                0 <= i < m.block_size && i != tx ==> #[trigger] m2.statuses[i] == m.statuses[i]
                    && m2.incarnations[i] == m.incarnations[i]
        }),
{
}

/// A claimed task matches the state it was claimed in: an execution is of a
/// transaction that was ready, at its current incarnation, and is now
/// executing; a validation is of a transaction that had executed and is now
/// being validated; `Done` is handed out only once the block is complete.
pub proof fn lemma_claimed_task(m: SchedModel)
    requires
        m.statuses.len() == m.block_size,
        m.incarnations.len() == m.block_size,
    ensures
        ({
            let (m2, t) = spec_next_task(m);
            &&& t matches Some(SchedulerTask::Execute(tx, inc)) ==> tx < m.block_size
                && m.statuses[tx as int] == TxStatus::ReadyToExecute && inc == m.incarnations[tx as int]
                && m2.statuses[tx as int] == TxStatus::Executing
            &&& t matches Some(SchedulerTask::Validate(tx)) ==> tx < m.block_size
                && m.statuses[tx as int] == TxStatus::Executed
                && m2.statuses[tx as int] == TxStatus::Validating
            &&& t == Some(SchedulerTask::Done) ==> spec_done(m2)
        }),
    decreases claim_measure(m),
{
    let (m1, t1) = try_claim_validation(m);
    if t1 is None {
        let (m2, t2) = try_claim_execution(m1);
        if t2 is None && !spec_done(m2) && !(m2.execution_idx >= m2.block_size
            && m2.validation_idx >= m2.block_size) {
            lemma_claimed_task(m2);
        }
    }
}

/// When the scheduler reports the block complete and every finished task
/// was a claimed one, every transaction is validated.
pub proof fn lemma_done_all_validated(m: SchedModel)
    requires
        protocol_inv(m),
        spec_done(m),
    ensures
        forall|i: int| 0 <= i < m.block_size ==> #[trigger] m.statuses[i] == TxStatus::Validated,
{
    lemma_active_count_bounds(m.statuses);
    assert forall|i: int| 0 <= i < m.block_size implies #[trigger] m.statuses[i] == TxStatus::Validated by {
        assert(!is_active(m.statuses[i]));
        assert(m.statuses[i] != TxStatus::Aborting);
        assert(m.statuses[i] != TxStatus::ReadyToExecute);
        assert(m.statuses[i] != TxStatus::Executed);
    }
}

/// Every per-transaction sequence of the model has one entry per
/// transaction.
pub open spec fn model_sized(m: SchedModel) -> bool {
    &&& m.statuses.len() == m.block_size
    &&& m.incarnations.len() == m.block_size
    &&& m.read_sets.len() == m.block_size
    &&& m.write_sets.len() == m.block_size
}

/// Block-STM coordinator for a block of `block_size` transactions.
pub struct Scheduler {
    block_size: u32,
    execution_idx: u32,
    validation_idx: u32,
    num_active_tasks: u32,
    decrease_cnt: u32,
    tx_states: Vec<TxState>,
}

impl Scheduler {
    pub closed spec fn wf(&self) -> bool {
        self.tx_states@.len() == self.block_size
    }

    /// The abstract state.
    pub closed spec fn model(&self) -> SchedModel {
        SchedModel {
            block_size: self.block_size,
            execution_idx: self.execution_idx,
            validation_idx: self.validation_idx,
            num_active_tasks: self.num_active_tasks,
            decrease_cnt: self.decrease_cnt,
            statuses: self.tx_states@.map_values(|t: TxState| t.status),
            incarnations: self.tx_states@.map_values(|t: TxState| t.incarnation),
            read_sets: self.tx_states@.map_values(|t: TxState| t.read_set),
            write_sets: self.tx_states@.map_values(|t: TxState| t.write_set),
        }
    }

    /// A scheduler with every transaction ready for its first execution.
    pub fn new(block_size: usize) -> (s: Scheduler)
        requires
            block_size <= u32::MAX,
        ensures
            s.wf(),
            model_sized(s.model()),
            s.model().block_size == block_size,
            s.model().execution_idx == 0,
            s.model().validation_idx == 0,
            s.model().num_active_tasks == 0,
            s.model().decrease_cnt == 0,
            s.model().statuses == Seq::new(block_size as nat, |i: int| TxStatus::ReadyToExecute),
            s.model().incarnations == Seq::new(block_size as nat, |i: int| 0u32),
            s.model().read_sets == Seq::new(block_size as nat, |i: int| None::<ReadSet>),
            s.model().write_sets == Seq::new(block_size as nat, |i: int| None::<WriteSet>),
            protocol_inv(s.model()),
    {
        let mut tx_states: Vec<TxState> = Vec::new();
        let mut i: usize = 0;
        while i < block_size
            invariant
                i <= block_size,
                tx_states@.len() == i,
                forall|j: int|
                    0 <= j < i ==> (#[trigger] tx_states@[j]).status == TxStatus::ReadyToExecute
                        && tx_states@[j].incarnation == 0 && tx_states@[j].read_set is None
                        && tx_states@[j].write_set is None,
            decreases block_size - i,
        {
            tx_states.push(TxState::new());
            i = i + 1;
        }
        let s = Scheduler {
            block_size: block_size as u32,
            execution_idx: 0,
            validation_idx: 0,
            num_active_tasks: 0,
            decrease_cnt: 0,
            tx_states,
        };
        assert(s.model().statuses =~= Seq::new(block_size as nat, |i: int| TxStatus::ReadyToExecute));
        assert(s.model().incarnations =~= Seq::new(block_size as nat, |i: int| 0u32));
        assert(s.model().read_sets =~= Seq::new(block_size as nat, |i: int| None::<ReadSet>));
        assert(s.model().write_sets =~= Seq::new(block_size as nat, |i: int| None::<WriteSet>));
        proof {
            lemma_none_active(s.model().statuses);
        }
        s
    }

    fn replace_state(&mut self, i: usize, new_state: TxState) -> (prev: TxState)
        requires
            i < old(self).tx_states@.len(),
        ensures
            final(self).tx_states@ == old(self).tx_states@.update(i as int, new_state),
            prev == old(self).tx_states@[i as int],
            final(self).block_size == old(self).block_size,
            final(self).validation_idx == old(self).validation_idx,
            final(self).execution_idx == old(self).execution_idx,
            final(self).num_active_tasks == old(self).num_active_tasks,
            final(self).decrease_cnt == old(self).decrease_cnt,
    {
        let prev = self.tx_states.remove(i);
        self.tx_states.insert(i, new_state);
        assert(self.tx_states@ =~= old(self).tx_states@.update(i as int, new_state));
        prev
    }

    fn set_status(&mut self, i: usize, status: TxStatus)
        requires
            old(self).wf(),
            i < old(self).block_size,
        ensures
            final(self).wf(),
            model_sized(final(self).model()),
            final(self).model() == (SchedModel {
                statuses: old(self).model().statuses.update(i as int, status),
                ..old(self).model()
            }),
    {
        let placeholder = TxState::new();
        let mut st = self.replace_state(i, placeholder);
        st.status = status;
        let _ = self.replace_state(i, st);
        proof {
            let m0 = old(self).model();
            assert(self.model().statuses =~= m0.statuses.update(i as int, status));
            assert(self.model().incarnations =~= m0.incarnations);
            assert(self.model().read_sets =~= m0.read_sets);
            assert(self.model().write_sets =~= m0.write_sets);
        }
    }

    /// One round of claiming; `None` when no task can be claimed yet and the
    /// block is not complete.
    pub fn try_next_task(&mut self) -> (t: Option<SchedulerTask>)
        requires
            old(self).wf(),
        ensures
            final(self).wf(),
            model_sized(final(self).model()),
            (final(self).model(), t) == spec_next_task(old(self).model()),
    {
        loop
            invariant
                self.wf(),
                spec_next_task(self.model()) == spec_next_task(old(self).model()),
            decreases claim_measure(self.model()),
        {
            let ghost m0 = self.model();
            // Validation first.
            if self.validation_idx < self.block_size {
                let claimed = self.validation_idx;
                self.validation_idx = claimed + 1;
                if self.tx_states[claimed as usize].status == TxStatus::Executed {
                    self.set_status(claimed as usize, TxStatus::Validating);
                    self.num_active_tasks = if self.num_active_tasks == u32::MAX {
                        0
                    } else {
                        self.num_active_tasks + 1
                    };
                    proof {
                        assert(self.model() == try_claim_validation(m0).0);
                    }
                    return Some(SchedulerTask::Validate(claimed));
                }
            }
            let ghost m1 = self.model();
            assert(m1 == try_claim_validation(m0).0);
            // Then execution.
            if self.execution_idx < self.block_size {
                let claimed = self.execution_idx;
                self.execution_idx = claimed + 1;
                if self.tx_states[claimed as usize].status == TxStatus::ReadyToExecute {
                    let incarnation = self.tx_states[claimed as usize].incarnation;
                    self.set_status(claimed as usize, TxStatus::Executing);
                    self.num_active_tasks = if self.num_active_tasks == u32::MAX {
                        0
                    } else {
                        self.num_active_tasks + 1
                    };
                    proof {
                        assert(self.model() == try_claim_execution(m1).0);
                    }
                    return Some(SchedulerTask::Execute(claimed, incarnation));
                }
            }
            assert(self.model() == try_claim_execution(m1).0);
            if self.done() {
                return Some(SchedulerTask::Done);
            }
            if self.execution_idx >= self.block_size && self.validation_idx >= self.block_size {
                return None;
            }
        }
    }

    /// Claims the next task: a validation if one is ready, else an
    /// execution, else `Done` once the block is complete.
    ///
    /// Requires a state in which an answer is available without waiting for
    /// other workers (see `try_next_task`).
    pub fn next_task(&mut self) -> (t: SchedulerTask)
        requires
            old(self).wf(),
            spec_next_task(old(self).model()).1 is Some,
        ensures
            final(self).wf(),
            model_sized(final(self).model()),
            final(self).model() == spec_next_task(old(self).model()).0,
            t == spec_next_task(old(self).model()).1.unwrap(),
    {
        match self.try_next_task() {
            Some(t) => t,
            None => {
                assert(false);
                SchedulerTask::Done
            },
        }
    }

    fn lower_validation_idx(&mut self, new_val: TxIndex)
        ensures
            final(self).validation_idx == (if old(self).validation_idx <= new_val {
                old(self).validation_idx
            } else {
                new_val
            }),
            final(self).block_size == old(self).block_size,
            final(self).execution_idx == old(self).execution_idx,
            final(self).num_active_tasks == old(self).num_active_tasks,
            final(self).decrease_cnt == old(self).decrease_cnt,
            final(self).tx_states == old(self).tx_states,
    {
        if self.validation_idx > new_val {
            self.validation_idx = new_val;
        }
    }

    fn lower_execution_idx(&mut self, new_val: TxIndex)
        ensures
            final(self).execution_idx == (if old(self).execution_idx <= new_val {
                old(self).execution_idx
            } else {
                new_val
            }),
            final(self).block_size == old(self).block_size,
            final(self).validation_idx == old(self).validation_idx,
            final(self).num_active_tasks == old(self).num_active_tasks,
            final(self).decrease_cnt == old(self).decrease_cnt,
            final(self).tx_states == old(self).tx_states,
    {
        if self.execution_idx > new_val {
            self.execution_idx = new_val;
        }
    }

    fn finish_task(&mut self)
        ensures
            final(self).num_active_tasks == wrap_dec(old(self).num_active_tasks),
            final(self).decrease_cnt == wrap_inc(old(self).decrease_cnt),
            final(self).block_size == old(self).block_size,
            final(self).validation_idx == old(self).validation_idx,
            final(self).execution_idx == old(self).execution_idx,
            final(self).tx_states == old(self).tx_states,
    {
        self.num_active_tasks = if self.num_active_tasks == 0 {
            u32::MAX
        } else {
            self.num_active_tasks - 1
        };
        self.decrease_cnt = if self.decrease_cnt == u32::MAX {
            0
        } else {
            self.decrease_cnt + 1
        };
    }

    /// Records that execution of `tx_index` at `incarnation` finished: if the
    /// incarnation is still current, the read/write sets are stored and the
    /// transaction awaits validation; the validation counter is lowered to
    /// `tx_index`.
    pub fn finish_execution(
        &mut self,
        tx_index: TxIndex,
        incarnation: Incarnation,
        read_set: ReadSet,
        write_set: WriteSet,
    )
        requires
            old(self).wf(),
            tx_index < old(self).model().block_size,
        ensures
            final(self).wf(),
            model_sized(final(self).model()),
            final(self).model() == spec_finish_execution(
                old(self).model(),
                tx_index,
                incarnation,
                read_set,
                write_set,
            ),
    {
        let i = tx_index as usize;
        let ghost rs = read_set;
        let ghost ws = write_set;
        if self.tx_states[i].incarnation == incarnation {
            let placeholder = TxState::new();
            let mut st = self.replace_state(i, placeholder);
            st.read_set = Some(read_set);
            st.write_set = Some(write_set);
            st.status = TxStatus::Executed;
            let _ = self.replace_state(i, st);
        }
        self.lower_validation_idx(tx_index);
        self.finish_task();
        proof {
            let target = spec_finish_execution(old(self).model(), tx_index, incarnation, rs, ws);
            assert(self.model().statuses =~= target.statuses);
            assert(self.model().incarnations =~= target.incarnations);
            assert(self.model().read_sets =~= target.read_sets);
            assert(self.model().write_sets =~= target.write_sets);
        }
    }

    /// Records the outcome of validating `tx_index`. A failed validation
    /// aborts the transaction: its incarnation grows by one, its sets are
    /// dropped, it becomes ready to execute, the execution counter is lowered
    /// to `tx_index` and the validation counter to `tx_index + 1`.
    pub fn finish_validation(&mut self, tx_index: TxIndex, valid: bool)
        requires
            old(self).wf(),
            tx_index < old(self).model().block_size,
            !valid ==> old(self).model().incarnations[tx_index as int] < u32::MAX,
        ensures
            final(self).wf(),
            model_sized(final(self).model()),
            final(self).model() == spec_finish_validation(old(self).model(), tx_index, valid),
    {
        let i = tx_index as usize;
        if valid {
            self.set_status(i, TxStatus::Validated);
        } else {
            let placeholder = TxState::new();
            let mut st = self.replace_state(i, placeholder);
            st.status = TxStatus::Aborting;
            st.incarnation = st.incarnation + 1;
            st.read_set = None;
            st.write_set = None;
            st.status = TxStatus::ReadyToExecute;
            let _ = self.replace_state(i, st);
            self.lower_execution_idx(tx_index);
            self.lower_validation_idx(tx_index + 1);
        }
        self.finish_task();
        proof {
            let target = spec_finish_validation(old(self).model(), tx_index, valid);
            assert(self.model().statuses =~= target.statuses);
            assert(self.model().incarnations =~= target.incarnations);
            assert(self.model().read_sets =~= target.read_sets);
            assert(self.model().write_sets =~= target.write_sets);
        }
    }

    /// Records that the execution of `tx_index` met an ESTIMATE: the
    /// transaction is re-queued for execution at the same incarnation.
    pub fn requeue_execution(&mut self, tx_index: TxIndex)
        requires
            old(self).wf(),
            tx_index < old(self).model().block_size,
        ensures
            final(self).wf(),
            model_sized(final(self).model()),
            final(self).model() == spec_requeue_execution(old(self).model(), tx_index),
    {
        self.set_status(tx_index as usize, TxStatus::ReadyToExecute);
        self.lower_execution_idx(tx_index);
        self.finish_task();
    }

    /// Takes the stored read set of `tx_index` out for validation.
    pub fn take_read_set(&mut self, tx_index: TxIndex) -> (rs: Option<ReadSet>)
        requires
            old(self).wf(),
            tx_index < old(self).model().block_size,
        ensures
            final(self).wf(),
            model_sized(final(self).model()),
            rs == old(self).model().read_sets[tx_index as int],
            final(self).model() == (SchedModel {
                read_sets: old(self).model().read_sets.update(tx_index as int, None),
                ..old(self).model()
            }),
    {
        let i = tx_index as usize;
        let placeholder = TxState::new();
        let mut st = self.replace_state(i, placeholder);
        let rs = st.read_set.take();
        let _ = self.replace_state(i, st);
        proof {
            let m0 = old(self).model();
            assert(self.model().statuses =~= m0.statuses);
            assert(self.model().incarnations =~= m0.incarnations);
            assert(self.model().read_sets =~= m0.read_sets.update(i as int, None));
            assert(self.model().write_sets =~= m0.write_sets);
        }
        rs
    }

    /// Puts a validated read set back, so that it is kept with the results.
    pub fn return_read_set(&mut self, tx_index: TxIndex, read_set: ReadSet)
        requires
            old(self).wf(),
            tx_index < old(self).model().block_size,
        ensures
            final(self).wf(),
            model_sized(final(self).model()),
            final(self).model() == (SchedModel {
                read_sets: old(self).model().read_sets.update(tx_index as int, Some(read_set)),
                ..old(self).model()
            }),
    {
        let i = tx_index as usize;
        let ghost rs = read_set;
        let placeholder = TxState::new();
        let mut st = self.replace_state(i, placeholder);
        st.read_set = Some(read_set);
        let _ = self.replace_state(i, st);
        proof {
            let m0 = old(self).model();
            assert(self.model().statuses =~= m0.statuses);
            assert(self.model().incarnations =~= m0.incarnations);
            assert(self.model().read_sets =~= m0.read_sets.update(i as int, Some(rs)));
            assert(self.model().write_sets =~= m0.write_sets);
        }
    }

    /// Hands out the per-transaction states, in block order.
    pub fn into_tx_states(self) -> (v: Vec<TxState>)
        requires
            self.wf(),
        ensures
            v@.len() == self.model().block_size,
            forall|i: int|
                0 <= i < v@.len() ==> {
                    &&& (#[trigger] v@[i]).status == self.model().statuses[i]
                    &&& v@[i].incarnation == self.model().incarnations[i]
                    &&& v@[i].read_set == self.model().read_sets[i]
                    &&& v@[i].write_set == self.model().write_sets[i]
                },
    {
        self.tx_states
    }

    /// Every per-transaction sequence of the model has one entry per transaction.
    pub proof fn lemma_model_lengths(&self)
        requires
            self.wf(),
        ensures
            self.model().statuses.len() == self.model().block_size,
            self.model().incarnations.len() == self.model().block_size,
            self.model().read_sets.len() == self.model().block_size,
            self.model().write_sets.len() == self.model().block_size,
    {
    }

    /// Whether every counter is past the block and no task is in flight.
    pub fn done(&self) -> (b: bool)
        ensures
            b == spec_done(self.model()),
    {
        let cnt_before = self.decrease_cnt;
        let exec_done = self.execution_idx >= self.block_size;
        let val_done = self.validation_idx >= self.block_size;
        let no_active = self.num_active_tasks == 0;
        if !(exec_done && val_done && no_active) {
            return false;
        }
        let cnt_after = self.decrease_cnt;
        cnt_before == cnt_after
    }

    /// The state of transaction `tx_index`.
    pub fn get_tx_state(&self, tx_index: TxIndex) -> (s: &TxState)
        requires
            self.wf(),
            tx_index < self.model().block_size,
        ensures
            s.status == self.model().statuses[tx_index as int],
            s.incarnation == self.model().incarnations[tx_index as int],
            s.read_set == self.model().read_sets[tx_index as int],
            s.write_set == self.model().write_sets[tx_index as int],
    {
        &self.tx_states[tx_index as usize]
    }

    /// Number of transactions in the block.
    pub fn block_size(&self) -> (n: usize)
        ensures
            n == self.model().block_size,
    {
        self.block_size as usize
    }
}

} // verus!

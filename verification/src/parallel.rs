//! The Block-STM driver: the state shared by the workers of one block and
//! what each finished task does to it.
//!
//! A worker asks for a task. An execution runs the transaction against an
//! `MvDatabase` over the multi-version state (outside this module) and hands
//! back its outcome: a success publishes the write set (unless a newer
//! incarnation was started meanwhile) and records the fee; an ESTIMATE hit
//! re-queues the transaction; an error is kept as the transaction's result.
//! A validation re-checks the read set; on failure the transaction's writes
//! are withdrawn, its fee is forgotten and the scheduler aborts it.

use vstd::prelude::*;

use crate::mv_hashmap::{agree_below, lemma_read_agree, spec_clear, spec_read, spec_mark_estimate, MVHashMap, MvState};
use crate::mv_types::{Incarnation, LocationKey, ReadOrigin, TxIndex, WriteValue};
use crate::primitives::{pow2_256, u256_of, U256};
use crate::read_write_sets::{read_still_valid, reads_valid, spec_apply, ReadSet, WriteSet};
use crate::scheduler::{
    claim_measure, is_active, lemma_active_count_bounds, lemma_inv_claim_execution,
    lemma_inv_claim_validation, spec_done, try_claim_execution, try_claim_validation,
    lemma_done_all_validated, lemma_inv_finish_execution, lemma_inv_finish_validation,
    lemma_inv_next_task, lemma_inv_requeue, lemma_next_task_keeps_sets, protocol_inv, TxStatus, spec_finish_execution, spec_finish_validation, spec_next_task,
    spec_requeue_execution,
    SchedModel, Scheduler, SchedulerTask,
};
use crate::types::{EvmError, ExecutionResult};
use crate::worker::ExecutionOutcome;

verus! {

/// Sum of the recorded fees.
pub open spec fn fee_sum(fees: Seq<Option<U256>>) -> int
    decreases fees.len(),
{
    if fees.len() == 0 {
        0
    } else {
        fee_sum(fees.drop_last()) + match fees.last() {
            Some(f) => f.value(),
            None => 0,
        }
    }
}

proof fn lemma_fee_sum_nonneg(fees: Seq<Option<U256>>)
    ensures
        fee_sum(fees) >= 0,
    decreases fees.len(),
{
    if fees.len() > 0 {
        lemma_fee_sum_nonneg(fees.drop_last());
    }
}

// ── Driving one task at a time ──────────────────────────────────────────────

/// What a driver that runs one task at a time (claims a task, finishes it,
/// claims the next) keeps, with `k` the first transaction not validated:
/// the transactions before `k` are validated and their stored reads still
/// hold against the multi-version state; `k` is not validated; every later
/// transaction waits for its first execution; the multi-version state holds
/// writes of transactions up to `k` only; and the validation counter is not
/// behind `k` (past it while `k` is validating).
pub open spec fn seq_inv_at(m: SchedModel, mv: MvState, k: int) -> bool {
    &&& protocol_inv(m)
    &&& m.incarnations.len() == m.block_size
    &&& m.read_sets.len() == m.block_size
    &&& m.write_sets.len() == m.block_size
    &&& 0 <= k <= m.block_size
    &&& m.validation_idx >= k
    &&& (k < m.block_size && m.statuses[k] == TxStatus::Validating) ==> m.validation_idx > k
    &&& forall|i: int| 0 <= i < k ==> #[trigger] m.statuses[i] == TxStatus::Validated
    &&& forall|i: int|
        0 <= i < k ==> (#[trigger] m.read_sets[i] matches Some(rs) && reads_valid(rs@, mv, i as TxIndex))
    &&& forall|i: int| k < i < m.block_size ==> #[trigger] m.statuses[i] == TxStatus::ReadyToExecute
    &&& k < m.block_size ==> m.statuses[k] != TxStatus::Validated
    &&& forall|key: (LocationKey, TxIndex)| #[trigger] mv.contains_key(key) ==> key.1 <= k
}

/// The state of a block driven one task at a time (see `seq_inv_at`).
pub open spec fn sequential_ok(m: SchedModel, mv: MvState) -> bool {
    exists|k: int| seq_inv_at(m, mv, k)
}

proof fn lemma_reads_keep(reads: Map<LocationKey, ReadOrigin>, m1: MvState, m2: MvState, tx: TxIndex)
    requires
        agree_below(m1, m2, tx),
        reads_valid(reads, m1, tx),
    ensures
        reads_valid(reads, m2, tx),
{
    assert forall|loc: LocationKey| #[trigger] reads.contains_key(loc) implies read_still_valid(
        spec_read(m2, loc, tx),
        reads[loc],
    ) by {
        lemma_read_agree(m1, m2, loc, tx);
    }
}

/// Changing only writes of transactions from `k` on keeps the stored reads
/// of the transactions before `k` valid.
proof fn lemma_prefix_reads_keep(m: SchedModel, mv1: MvState, mv2: MvState, k: int)
    requires
        0 <= k <= m.block_size,
        m.read_sets.len() == m.block_size,
        forall|i: int|
            0 <= i < k ==> (#[trigger] m.read_sets[i] matches Some(rs) && reads_valid(rs@, mv1, i as TxIndex)),
        forall|key: (LocationKey, TxIndex)|
            key.1 < k ==> (#[trigger] mv1.contains_key(key) == mv2.contains_key(key) && (mv1.contains_key(key)
                ==> mv1[key] == mv2[key])),
    ensures
        forall|i: int|
            0 <= i < k ==> (#[trigger] m.read_sets[i] matches Some(rs) && reads_valid(rs@, mv2, i as TxIndex)),
{
    assert forall|i: int| 0 <= i < k implies (#[trigger] m.read_sets[i] matches Some(rs) && reads_valid(
        rs@,
        mv2,
        i as TxIndex,
    )) by {
        let rs = m.read_sets[i]->0;
        assert(agree_below(mv1, mv2, i as TxIndex)) by {
            assert forall|key: (LocationKey, TxIndex)| key.1 < (i as TxIndex) implies (#[trigger] mv1.contains_key(key)
                == mv2.contains_key(key) && (mv1.contains_key(key) ==> mv1[key] == mv2[key])) by {
                assert(key.1 < k);
            }
        }
        lemma_reads_keep(rs@, mv1, mv2, i as TxIndex);
    }
}

/// Claiming the next task, with no task in flight, keeps the invariant.
pub proof fn lemma_seq_next_task(m: SchedModel, mv: MvState, k: int)
    requires
        seq_inv_at(m, mv, k),
        k < m.block_size ==> !is_active(m.statuses[k]),
    ensures
        seq_inv_at(spec_next_task(m).0, mv, k),
    decreases claim_measure(m),
{
    lemma_inv_claim_validation(m);
    let (m1, t1) = try_claim_validation(m);
    if m.validation_idx < m.block_size {
        let c = m.validation_idx as int;
        if m.statuses[c] == TxStatus::Executed {
            assert(c == k);
        }
    }
    assert(seq_inv_at(m1, mv, k));
    if t1 is None {
        if k < m.block_size {
            if m.statuses[k] == TxStatus::Executed {
                assert(m.validation_idx <= k);
                assert(false);
            }
        }
        lemma_inv_claim_execution(m1);
        let (m2, t2) = try_claim_execution(m1);
        if m1.execution_idx < m1.block_size {
            let c = m1.execution_idx as int;
            if m1.statuses[c] == TxStatus::ReadyToExecute {
                if c != k {
                    if c > k {
                        assert(k < m.block_size);
                        assert(m1.statuses[k] == TxStatus::ReadyToExecute);
                    }
                    assert(false);
                }
            }
        }
        assert(seq_inv_at(m2, mv, k));
        if t2 is None && !spec_done(m2) && !(m2.execution_idx >= m2.block_size
            && m2.validation_idx >= m2.block_size) {
            lemma_seq_next_task(m2, mv, k);
        }
    }
}

/// Finishing the execution of the transaction in flight keeps the
/// invariant, with its writes published or not.
pub proof fn lemma_seq_finish_execution(
    m: SchedModel,
    mv: MvState,
    k: int,
    tx: TxIndex,
    inc: Incarnation,
    rs: ReadSet,
    ws: WriteSet,
    publish: bool,
)
    requires
        seq_inv_at(m, mv, k),
        tx < m.block_size,
        m.statuses[tx as int] == TxStatus::Executing,
        m.incarnations[tx as int] == inc,
    ensures
        seq_inv_at(
            spec_finish_execution(m, tx, inc, rs, ws),
            if publish { spec_apply(mv, ws@, tx, inc) } else { mv },
            k,
        ),
{
    assert(tx == k) by {
        if (tx as int) < k {
            assert(m.statuses[tx as int] == TxStatus::Validated);
        } else if (tx as int) > k {
            assert(m.statuses[tx as int] == TxStatus::ReadyToExecute);
        }
    }
    lemma_inv_finish_execution(m, tx, inc, rs, ws);
    let mv2 = if publish { spec_apply(mv, ws@, tx, inc) } else { mv };
    lemma_prefix_reads_keep(m, mv, mv2, k);
    let m2 = spec_finish_execution(m, tx, inc, rs, ws);
    assert forall|i: int| 0 <= i < k implies (#[trigger] m2.read_sets[i] matches Some(r) && reads_valid(
        r@,
        mv2,
        i as TxIndex,
    )) by {
        assert(m2.read_sets[i] == m.read_sets[i]);
    }
}

/// Re-queuing the transaction in flight keeps the invariant.
pub proof fn lemma_seq_requeue(m: SchedModel, mv: MvState, k: int, tx: TxIndex)
    requires
        seq_inv_at(m, mv, k),
        tx < m.block_size,
        m.statuses[tx as int] == TxStatus::Executing,
    ensures
        seq_inv_at(spec_requeue_execution(m, tx), mv, k),
{
    assert(tx == k) by {
        if (tx as int) < k {
            assert(m.statuses[tx as int] == TxStatus::Validated);
        } else if (tx as int) > k {
            assert(m.statuses[tx as int] == TxStatus::ReadyToExecute);
        }
    }
    lemma_inv_requeue(m, tx);
}

/// A passed validation of the transaction in flight moves the frontier on.
pub proof fn lemma_seq_validated(m: SchedModel, mv: MvState, k: int, tx: TxIndex, rs: ReadSet)
    requires
        seq_inv_at(m, mv, k),
        tx < m.block_size,
        m.statuses[tx as int] == TxStatus::Validating,
        reads_valid(rs@, mv, tx),
    ensures
        seq_inv_at(
            spec_finish_validation(
                SchedModel { read_sets: m.read_sets.update(tx as int, Some(rs)), ..m },
                tx,
                true,
            ),
            mv,
            k + 1,
        ),
{
    assert(tx == k) by {
        if (tx as int) < k {
            assert(m.statuses[tx as int] == TxStatus::Validated);
        } else if (tx as int) > k {
            assert(m.statuses[tx as int] == TxStatus::ReadyToExecute);
        }
    }
    let m1 = SchedModel { read_sets: m.read_sets.update(tx as int, Some(rs)), ..m };
    lemma_inv_finish_validation(m1, tx, true);
    let m2 = spec_finish_validation(m1, tx, true);
    assert forall|i: int| 0 <= i < k + 1 implies #[trigger] m2.statuses[i] == TxStatus::Validated by {
        if i < k {
            assert(m.statuses[i] == TxStatus::Validated);
        }
    }
    assert forall|i: int| 0 <= i < k + 1 implies (#[trigger] m2.read_sets[i] matches Some(r) && reads_valid(
        r@,
        mv,
        i as TxIndex,
    )) by {
        if i < k {
            assert(m2.read_sets[i] == m.read_sets[i]);
        }
    }
    assert forall|i: int| k + 1 < i < m2.block_size implies #[trigger] m2.statuses[i]
        == TxStatus::ReadyToExecute by {
        assert(m.statuses[i] == TxStatus::ReadyToExecute);
    }
    if k + 1 < m2.block_size {
        assert(m.statuses[k + 1] == TxStatus::ReadyToExecute);
    }
}

/// A failed validation of the transaction in flight keeps the invariant,
/// with its writes withdrawn.
pub proof fn lemma_seq_aborted(m: SchedModel, mv: MvState, k: int, tx: TxIndex)
    requires
        seq_inv_at(m, mv, k),
        tx < m.block_size,
        m.statuses[tx as int] == TxStatus::Validating,
    ensures
        seq_inv_at(spec_finish_validation(m, tx, false), spec_clear(spec_mark_estimate(mv, tx), tx), k),
{
    assert(tx == k) by {
        if (tx as int) < k {
            assert(m.statuses[tx as int] == TxStatus::Validated);
        } else if (tx as int) > k {
            assert(m.statuses[tx as int] == TxStatus::ReadyToExecute);
        }
    }
    lemma_inv_finish_validation(m, tx, false);
    let mv2 = spec_clear(spec_mark_estimate(mv, tx), tx);
    lemma_prefix_reads_keep(m, mv, mv2, k);
    let m2 = spec_finish_validation(m, tx, false);
    assert forall|i: int| 0 <= i < k implies (#[trigger] m2.read_sets[i] matches Some(r) && reads_valid(
        r@,
        mv2,
        i as TxIndex,
    )) by {
        assert(m2.read_sets[i] == m.read_sets[i]);
    }
    assert forall|i: int| 0 <= i < k implies #[trigger] m2.statuses[i] == TxStatus::Validated by {
        assert(m.statuses[i] == TxStatus::Validated);
    }
    assert forall|i: int| k < i < m2.block_size implies #[trigger] m2.statuses[i]
        == TxStatus::ReadyToExecute by {
        assert(m.statuses[i] == TxStatus::ReadyToExecute);
    }
}

/// A block driven one task at a time ends with every transaction validated
/// and every stored read still valid against the final multi-version state.
pub proof fn lemma_sequential_done(m: SchedModel, mv: MvState)
    requires
        sequential_ok(m, mv),
        spec_done(m),
    ensures
        forall|i: int|
            0 <= i < m.block_size ==> #[trigger] m.statuses[i] == TxStatus::Validated && (m.read_sets[i] matches Some(
                rs,
            ) && reads_valid(rs@, mv, i as TxIndex)),
{
    let k = choose|k: int| seq_inv_at(m, mv, k);
    lemma_done_all_validated(m);
    if k < m.block_size {
        assert(m.statuses[k] == TxStatus::Validated);
    }
    assert forall|i: int| 0 <= i < m.block_size implies #[trigger] m.statuses[i] == TxStatus::Validated && (
    m.read_sets[i] matches Some(rs) && reads_valid(rs@, mv, i as TxIndex)) by {
        assert(m.read_sets[i] matches Some(rs) && reads_valid(rs@, mv, i as TxIndex));
    }
}

/// What the block hands out once every transaction is validated.
pub struct ParallelExecutionResult {
    /// Per transaction, in block order: result, write set, read set.
    pub tx_results: Vec<(ExecutionResult, WriteSet, ReadSet)>,
    /// The fees of the final executions, summed modulo 2^256.
    pub total_fees: U256,
    /// Final incarnation of every transaction.
    pub incarnations: Vec<u32>,
}

/// The shared state of the workers of one block.
pub struct ParallelBlock {
    scheduler: Scheduler,
    mv_state: MVHashMap,
    fees: Vec<Option<U256>>,
    results: Vec<Option<ExecutionResult>>,
}

impl ParallelBlock {
    pub closed spec fn wf(&self) -> bool {
        &&& self.scheduler.wf()
        &&& self.mv_state.wf()
        &&& self.fees@.len() == self.scheduler.model().block_size
        &&& self.results@.len() == self.scheduler.model().block_size
        &&& forall|i: int|
            0 <= i < self.scheduler.model().block_size ==> (#[trigger] self.scheduler.model().read_sets[i]
                matches Some(rs) ==> rs.wf())
        &&& forall|i: int|
            0 <= i < self.scheduler.model().block_size ==> (#[trigger] self.scheduler.model().write_sets[i]
                matches Some(ws) ==> ws.wf())
    }

    /// The scheduler's state.
    pub closed spec fn sched(&self) -> SchedModel {
        self.scheduler.model()
    }

    /// The multi-version state.
    pub closed spec fn mv(&self) -> MvState {
        self.mv_state@
    }

    /// The recorded fee of each transaction.
    pub closed spec fn spec_fees(&self) -> Seq<Option<U256>> {
        self.fees@
    }

    /// The recorded result of each transaction.
    pub closed spec fn spec_results(&self) -> Seq<Option<ExecutionResult>> {
        self.results@
    }

    /// A block of `block_size` transactions, none executed yet.
    pub fn new(block_size: usize) -> (b: ParallelBlock)
        requires
            block_size <= u32::MAX,
        ensures
            b.wf(),
            b.sched().block_size == block_size,
            b.sched().execution_idx == 0,
            b.sched().validation_idx == 0,
            b.sched().num_active_tasks == 0,
            b.mv() == MvState::empty(),
            b.spec_fees() == Seq::new(block_size as nat, |i: int| None::<U256>),
            b.spec_results() == Seq::new(block_size as nat, |i: int| None::<ExecutionResult>),
            protocol_inv(b.sched()),
            sequential_ok(b.sched(), b.mv()),
    {
        let scheduler = Scheduler::new(block_size);
        let mut fees: Vec<Option<U256>> = Vec::new();
        let mut results: Vec<Option<ExecutionResult>> = Vec::new();
        let mut i: usize = 0;
        while i < block_size
            invariant
                i <= block_size,
                fees@ == Seq::new(i as nat, |j: int| None::<U256>),
                results@ == Seq::new(i as nat, |j: int| None::<ExecutionResult>),
            decreases block_size - i,
        {
            fees.push(None);
            results.push(None);
            assert(fees@ =~= Seq::new((i + 1) as nat, |j: int| None::<U256>));
            assert(results@ =~= Seq::new((i + 1) as nat, |j: int| None::<ExecutionResult>));
            i = i + 1;
        }
        let b = ParallelBlock { scheduler, mv_state: MVHashMap::new(), fees, results };
        proof {
            assert(seq_inv_at(b.sched(), b.mv(), 0));
        }
        b
    }

    /// The multi-version state, for the `MvDatabase` of an execution.
    pub fn mv_state(&self) -> (m: &MVHashMap)
        requires
            self.wf(),
        ensures
            m.wf(),
            m@ == self.mv(),
    {
        &self.mv_state
    }

    /// The current incarnation of `tx_index`.
    pub fn incarnation(&self, tx_index: TxIndex) -> (inc: Incarnation)
        requires
            self.wf(),
            tx_index < self.sched().block_size,
        ensures
            inc == self.sched().incarnations[tx_index as int],
    {
        self.scheduler.get_tx_state(tx_index).incarnation
    }

    /// Number of transactions.
    pub fn block_size(&self) -> (n: usize)
        requires
            self.wf(),
        ensures
            n == self.sched().block_size,
    {
        self.scheduler.block_size()
    }

    /// Claims the next task (see `Scheduler::try_next_task`).
    pub fn next_task(&mut self) -> (t: Option<SchedulerTask>)
        requires
            old(self).wf(),
        ensures
            final(self).wf(),
            (final(self).sched(), t) == spec_next_task(old(self).sched()),
            final(self).mv() == old(self).mv(),
            final(self).spec_fees() == old(self).spec_fees(),
            final(self).spec_results() == old(self).spec_results(),
            protocol_inv(old(self).sched()) ==> protocol_inv(final(self).sched()),
            sequential_ok(old(self).sched(), old(self).mv()) && old(self).sched().num_active_tasks == 0
                ==> sequential_ok(final(self).sched(), final(self).mv()),
    {
        let t = self.scheduler.try_next_task();
        proof {
            if sequential_ok(old(self).sched(), old(self).mv()) && old(self).sched().num_active_tasks == 0 {
                let m = old(self).sched();
                let k = choose|k: int| seq_inv_at(m, old(self).mv(), k);
                lemma_active_count_bounds(m.statuses);
                lemma_seq_next_task(m, old(self).mv(), k);
                assert(seq_inv_at(self.sched(), self.mv(), k));
            }
            lemma_next_task_keeps_sets(old(self).sched());
            if protocol_inv(old(self).sched()) {
                lemma_inv_next_task(old(self).sched());
            }
            assert forall|i: int| 0 <= i < self.sched().block_size implies (
            #[trigger] self.sched().read_sets[i] matches Some(rs) ==> rs.wf()) by {
                assert(self.sched().read_sets[i] == old(self).sched().read_sets[i]);
            }
            assert forall|i: int| 0 <= i < self.sched().block_size implies (
            #[trigger] self.sched().write_sets[i] matches Some(ws) ==> ws.wf()) by {
                assert(self.sched().write_sets[i] == old(self).sched().write_sets[i]);
            }
        }
        t
    }

    /// Records the outcome of executing `tx_index` at `incarnation`.
    ///
    /// A success of the current incarnation publishes its writes, records
    /// its fee and result and hands its sets to the scheduler; a success of a
    /// stale incarnation is dropped. An ESTIMATE hit re-queues the
    /// transaction. An error becomes the transaction's result (a halt with
    /// the error's message and no gas), with empty read and write sets.
    pub fn on_execution(&mut self, tx_index: TxIndex, incarnation: Incarnation, outcome: ExecutionOutcome)
        requires
            old(self).wf(),
            tx_index < old(self).sched().block_size,
            outcome matches ExecutionOutcome::Success { read_set, write_set, .. } ==> read_set.wf()
                && write_set.wf(),
        ensures
            final(self).wf(),
            match outcome {
                ExecutionOutcome::Success { read_set, write_set, result, gas_fee } => if old(self).sched().incarnations[tx_index as int] != incarnation {
                    &&& final(self).sched() == old(self).sched()
                    &&& final(self).mv() == old(self).mv()
                    &&& final(self).spec_fees() == old(self).spec_fees()
                    &&& final(self).spec_results() == old(self).spec_results()
                } else {
                    &&& final(self).sched() == spec_finish_execution(
                        old(self).sched(),
                        tx_index,
                        incarnation,
                        read_set,
                        write_set,
                    )
                    &&& final(self).mv() == spec_apply(
                        old(self).mv(),
                        write_set@,
                        tx_index,
                        incarnation,
                    )
                    &&& final(self).spec_fees() == old(self).spec_fees().update(
                        tx_index as int,
                        Some(gas_fee),
                    )
                    &&& final(self).spec_results() == old(self).spec_results().update(
                        tx_index as int,
                        Some(result),
                    )
                },
                ExecutionOutcome::EstimateHit { .. } => {
                    &&& final(self).sched() == spec_requeue_execution(old(self).sched(), tx_index)
                    &&& final(self).mv() == old(self).mv()
                    &&& final(self).spec_fees() == old(self).spec_fees()
                    &&& final(self).spec_results() == old(self).spec_results()
                },
                ExecutionOutcome::ExecutionError(e) => {
                    &&& exists|rs: ReadSet, ws: WriteSet|
                        rs@ == Map::<LocationKey, ReadOrigin>::empty() && ws@ == Map::<
                            LocationKey,
                            WriteValue,
                        >::empty() && final(self).sched() == spec_finish_execution(
                            old(self).sched(),
                            tx_index,
                            incarnation,
                            rs,
                            ws,
                        )
                    &&& old(self).sched().incarnations[tx_index as int] == incarnation ==> {
                        &&& final(self).spec_results().len() == old(self).spec_results().len()
                        &&& forall|j: int|
                            0 <= j < old(self).spec_results().len() && j != tx_index
                                ==> #[trigger] final(self).spec_results()[j]
                                == old(self).spec_results()[j]
                        &&& final(self).spec_results()[tx_index as int] matches Some(
                            ExecutionResult::Halt { gas_used, reason },
                        ) && gas_used == 0 && reason@ == e.message()
                    }
                    &&& old(self).sched().incarnations[tx_index as int] != incarnation
                        ==> final(self).spec_results() == old(self).spec_results()
                    &&& final(self).mv() == old(self).mv()
                    &&& final(self).spec_fees() == old(self).spec_fees()
                },
            },
            protocol_inv(old(self).sched()) && old(self).sched().statuses[tx_index as int]
                == TxStatus::Executing && old(self).sched().incarnations[tx_index as int] == incarnation
                ==> protocol_inv(final(self).sched()),
            sequential_ok(old(self).sched(), old(self).mv()) && old(self).sched().statuses[tx_index as int]
                == TxStatus::Executing && old(self).sched().incarnations[tx_index as int] == incarnation
                ==> sequential_ok(final(self).sched(), final(self).mv()),
    {
        proof {
            self.scheduler.lemma_model_lengths();
        }
        let i = tx_index as usize;
        match outcome {
            ExecutionOutcome::Success { read_set, write_set, result, gas_fee } => {
                let current = self.scheduler.get_tx_state(tx_index).incarnation;
                if current != incarnation {
                    return;
                }
                write_set.apply_to(&mut self.mv_state, tx_index, incarnation);
                self.fees.set(i, Some(gas_fee));
                self.results.set(i, Some(result));
                let ghost rs = read_set;
                let ghost ws = write_set;
                self.scheduler.finish_execution(tx_index, incarnation, read_set, write_set);
                proof {
                    self.lemma_sets_after_finish(old(self).sched(), tx_index, incarnation, rs, ws);
                    if protocol_inv(old(self).sched()) && old(self).sched().statuses[tx_index as int]
                        == TxStatus::Executing {
                        lemma_inv_finish_execution(old(self).sched(), tx_index, incarnation, rs, ws);
                    }
                    if sequential_ok(old(self).sched(), old(self).mv()) && old(self).sched().statuses[tx_index as int]
                        == TxStatus::Executing {
                        let k = choose|k: int| seq_inv_at(old(self).sched(), old(self).mv(), k);
                        lemma_seq_finish_execution(old(self).sched(), old(self).mv(), k, tx_index, incarnation, rs, ws, true);
                        assert(seq_inv_at(self.sched(), self.mv(), k));
                    }
                }
            },
            ExecutionOutcome::EstimateHit { .. } => {
                self.scheduler.requeue_execution(tx_index);
                proof {
                    if protocol_inv(old(self).sched()) && old(self).sched().statuses[tx_index as int]
                        == TxStatus::Executing {
                        lemma_inv_requeue(old(self).sched(), tx_index);
                    }
                    if sequential_ok(old(self).sched(), old(self).mv()) && old(self).sched().statuses[tx_index as int]
                        == TxStatus::Executing {
                        let k = choose|k: int| seq_inv_at(old(self).sched(), old(self).mv(), k);
                        lemma_seq_requeue(old(self).sched(), old(self).mv(), k, tx_index);
                        assert(seq_inv_at(self.sched(), self.mv(), k));
                    }
                    assert(self.sched().read_sets == old(self).sched().read_sets);
                    assert(self.sched().write_sets == old(self).sched().write_sets);
                }
            },
            ExecutionOutcome::ExecutionError(e) => {
                let current = self.scheduler.get_tx_state(tx_index).incarnation;
                if current == incarnation {
                    let reason = e.to_string();
                    self.results.set(i, Some(ExecutionResult::Halt { gas_used: 0, reason }));
                }
                let rs = ReadSet::new();
                let ws = WriteSet::new();
                self.scheduler.finish_execution(tx_index, incarnation, rs, ws);
                proof {
                    self.lemma_sets_after_finish(old(self).sched(), tx_index, incarnation, rs, ws);
                    if protocol_inv(old(self).sched()) && old(self).sched().statuses[tx_index as int]
                        == TxStatus::Executing && old(self).sched().incarnations[tx_index as int]
                        == incarnation {
                        lemma_inv_finish_execution(old(self).sched(), tx_index, incarnation, rs, ws);
                    }
                    if sequential_ok(old(self).sched(), old(self).mv()) && old(self).sched().statuses[tx_index as int]
                        == TxStatus::Executing && old(self).sched().incarnations[tx_index as int]
                        == incarnation {
                        let k = choose|k: int| seq_inv_at(old(self).sched(), old(self).mv(), k);
                        lemma_seq_finish_execution(old(self).sched(), old(self).mv(), k, tx_index, incarnation, rs, ws, false);
                        assert(seq_inv_at(self.sched(), self.mv(), k));
                    }
                }
            },
        }
    }

    /// The reads a validation of `tx` checks: its stored read set, or none.
    pub open spec fn reads_of(m: SchedModel, tx: TxIndex) -> Map<LocationKey, ReadOrigin> {
        match m.read_sets[tx as int] {
            Some(rs) => rs@,
            None => Map::empty(),
        }
    }

    /// Validates `tx_index`: its stored reads are re-checked against the
    /// multi-version state. A valid transaction keeps its read set; an
    /// invalid one has its writes withdrawn (marked ESTIMATE, then removed),
    /// its fee forgotten, and is aborted by the scheduler.
    pub fn on_validate(&mut self, tx_index: TxIndex) -> (valid: bool)
        requires
            old(self).wf(),
            tx_index < old(self).sched().block_size,
            old(self).sched().incarnations[tx_index as int] == u32::MAX ==> reads_valid(
                Self::reads_of(old(self).sched(), tx_index),
                old(self).mv(),
                tx_index,
            ),
        ensures
            final(self).wf(),
            valid == reads_valid(Self::reads_of(old(self).sched(), tx_index), old(self).mv(), tx_index),
            final(self).spec_results() == old(self).spec_results(),
            valid ==> {
                &&& final(self).mv() == old(self).mv()
                &&& final(self).spec_fees() == old(self).spec_fees()
                &&& exists|rs: ReadSet|
                    rs@ == Self::reads_of(old(self).sched(), tx_index)
                        && (old(self).sched().read_sets[tx_index as int] matches Some(r) ==> rs == r)
                        && final(self).sched() == spec_finish_validation(
                        SchedModel {
                            read_sets: old(self).sched().read_sets.update(tx_index as int, Some(rs)),
                            ..old(self).sched()
                        },
                        tx_index,
                        true,
                    )
            },
            !valid ==> {
                &&& final(self).sched() == spec_finish_validation(old(self).sched(), tx_index, false)
                &&& final(self).mv() == spec_clear(spec_mark_estimate(old(self).mv(), tx_index), tx_index)
                &&& final(self).spec_fees() == old(self).spec_fees().update(tx_index as int, None)
            },
            protocol_inv(old(self).sched()) && old(self).sched().statuses[tx_index as int]
                == TxStatus::Validating ==> protocol_inv(final(self).sched()),
            sequential_ok(old(self).sched(), old(self).mv()) && old(self).sched().statuses[tx_index as int]
                == TxStatus::Validating ==> sequential_ok(final(self).sched(), final(self).mv()),
    {
        proof {
            self.scheduler.lemma_model_lengths();
        }
        let taken = self.scheduler.take_read_set(tx_index);
        let rs = match taken {
            Some(r) => r,
            None => ReadSet::new(),
        };
        assert(rs.wf());
        let ghost grs = rs;
        let valid = rs.validate(&self.mv_state, tx_index);
        if !valid {
            self.mv_state.mark_estimate(tx_index);
            self.mv_state.clear(tx_index);
            self.fees.set(tx_index as usize, None);
        } else {
            self.scheduler.return_read_set(tx_index, rs);
        }
        let ghost mid = self.sched();
        self.scheduler.finish_validation(tx_index, valid);
        proof {
            let m0 = old(self).sched();
            if protocol_inv(m0) && m0.statuses[tx_index as int] == TxStatus::Validating {
                if valid {
                    let m1 = SchedModel { read_sets: m0.read_sets.update(tx_index as int, Some(grs)), ..m0 };
                    lemma_inv_finish_validation(m1, tx_index, true);
                } else {
                    lemma_inv_finish_validation(m0, tx_index, false);
                }
            }
            if !valid {
                let target = spec_finish_validation(m0, tx_index, false);
                assert(self.sched().read_sets =~= target.read_sets);
                assert(self.sched().statuses =~= target.statuses);
                assert(self.sched().incarnations =~= target.incarnations);
                assert(self.sched().write_sets =~= target.write_sets);
                assert(self.sched() == target);
            } else {
                let m1 = SchedModel {
                    read_sets: m0.read_sets.update(tx_index as int, Some(grs)),
                    ..m0
                };
                assert(mid.read_sets =~= m1.read_sets);
                assert(mid == m1);
                assert(grs@ == Self::reads_of(m0, tx_index));
            }
            assert forall|i: int| 0 <= i < self.sched().block_size implies (
            #[trigger] self.sched().read_sets[i] matches Some(r) ==> r.wf()) by {
                if i != tx_index {
                    assert(self.sched().read_sets[i] == m0.read_sets[i]);
                }
            }
            assert forall|i: int| 0 <= i < self.sched().block_size implies (
            #[trigger] self.sched().write_sets[i] matches Some(w) ==> w.wf()) by {
                if i != tx_index {
                    assert(self.sched().write_sets[i] == m0.write_sets[i]);
                }
            }
            if sequential_ok(m0, old(self).mv()) && m0.statuses[tx_index as int] == TxStatus::Validating {
                let k = choose|k: int| seq_inv_at(m0, old(self).mv(), k);
                if valid {
                    lemma_seq_validated(m0, old(self).mv(), k, tx_index, grs);
                    let m1 = SchedModel { read_sets: m0.read_sets.update(tx_index as int, Some(grs)), ..m0 };
                    assert(seq_inv_at(self.sched(), self.mv(), k + 1));
                } else {
                    lemma_seq_aborted(m0, old(self).mv(), k, tx_index);
                    assert(seq_inv_at(self.sched(), self.mv(), k));
                }
            }
        }
        valid
    }

    /// Whether the scheduler reports the block complete.
    pub fn done(&self) -> (b: bool)
        requires
            self.wf(),
        ensures
            b == crate::scheduler::spec_done(self.sched()),
            b && protocol_inv(self.sched()) ==> forall|i: int|
                0 <= i < self.sched().block_size ==> #[trigger] self.sched().statuses[i]
                    == TxStatus::Validated,
            b && sequential_ok(self.sched(), self.mv()) ==> forall|i: int|
                0 <= i < self.sched().block_size ==> (#[trigger] self.sched().read_sets[i] matches Some(rs)
                    && reads_valid(rs@, self.mv(), i as TxIndex)),
    {
        let b = self.scheduler.done();
        proof {
            if b && protocol_inv(self.sched()) {
                lemma_done_all_validated(self.sched());
            }
            if b && sequential_ok(self.sched(), self.mv()) {
                lemma_sequential_done(self.sched(), self.mv());
            }
        }
        b
    }

    /// The sum of the recorded fees, modulo 2^256.
    pub fn total_fees(&self) -> (t: U256)
        ensures
            t == u256_of(fee_sum(self.spec_fees()) % pow2_256()),
    {
        let mut t = U256::zero();
        let n = self.fees.len();
        let mut i: usize = 0;
        proof {
            crate::primitives::lemma_u256_of_value(t);
            assert(self.fees@.take(0) =~= Seq::<Option<U256>>::empty());
            vstd::arithmetic::div_mod::lemma_small_mod(0, pow2_256() as nat);
        }
        while i < n
            invariant
                i <= n,
                n == self.fees@.len(),
                t == u256_of(fee_sum(self.fees@.take(i as int)) % pow2_256()),
                t.value() == fee_sum(self.fees@.take(i as int)) % pow2_256(),
            decreases n - i,
        {
            let ghost prev = fee_sum(self.fees@.take(i as int));
            proof {
                assert(self.fees@.take(i + 1).drop_last() =~= self.fees@.take(i as int));
                assert(self.fees@.take(i + 1).last() == self.fees@[i as int]);
                lemma_fee_sum_nonneg(self.fees@.take(i as int));
            }
            match self.fees[i] {
                Some(f) => {
                    t = t.wrapping_add(&f);
                    proof {
                        vstd::arithmetic::div_mod::lemma_add_mod_noop(prev, f.value(), pow2_256());
                        vstd::arithmetic::div_mod::lemma_small_mod(f.value() as nat, pow2_256() as nat);
                    }
                },
                None => {},
            }
            i = i + 1;
        }
        assert(self.fees@.take(n as int) =~= self.fees@);
        t
    }

    /// The outcome of the block: per transaction its recorded result (a halt
    /// with no gas and no reason when none was recorded), write set and read
    /// set (empty when none is stored); the total fees; the incarnations.
    pub fn finish(self) -> (r: ParallelExecutionResult)
        requires
            self.wf(),
        ensures
            r.total_fees == u256_of(fee_sum(self.spec_fees()) % pow2_256()),
            r.incarnations@ == self.sched().incarnations,
            r.tx_results@.len() == self.sched().block_size,
            forall|i: int|
                0 <= i < r.tx_results@.len() ==> {
                    &&& (match self.spec_results()[i] {
                        Some(res) => (#[trigger] r.tx_results@[i]).0 == res,
                        None => r.tx_results@[i].0 matches ExecutionResult::Halt { gas_used, reason }
                            && gas_used == 0 && reason@ == Seq::<char>::empty(),
                    })
                    &&& (match self.sched().write_sets[i] {
                        Some(ws) => r.tx_results@[i].1 == ws,
                        None => r.tx_results@[i].1@ == Map::<LocationKey, WriteValue>::empty(),
                    })
                    &&& (match self.sched().read_sets[i] {
                        Some(rs) => r.tx_results@[i].2 == rs,
                        None => r.tx_results@[i].2@ == Map::<LocationKey, ReadOrigin>::empty(),
                    })
                    &&& r.tx_results@[i].1.wf()
                    &&& r.tx_results@[i].2.wf()
                },
            crate::scheduler::spec_done(self.sched()) && protocol_inv(self.sched()) ==> forall|i: int|
                0 <= i < self.sched().block_size ==> #[trigger] self.sched().statuses[i]
                    == TxStatus::Validated,
            crate::scheduler::spec_done(self.sched()) && sequential_ok(self.sched(), self.mv()) ==> forall|i: int|
                0 <= i < r.tx_results@.len() ==> reads_valid(
                    (#[trigger] r.tx_results@[i]).2@,
                    self.mv(),
                    i as TxIndex,
                ),
    {
        proof {
            self.scheduler.lemma_model_lengths();
            if crate::scheduler::spec_done(self.sched()) && protocol_inv(self.sched()) {
                lemma_done_all_validated(self.sched());
            }
            if crate::scheduler::spec_done(self.sched()) && sequential_ok(self.sched(), self.mv()) {
                lemma_sequential_done(self.sched(), self.mv());
            }
        }
        let total_fees = self.total_fees();
        let ghost m = self.sched();
        let ghost res0 = self.results@;
        let n = self.scheduler.block_size();
        let mut states = self.scheduler.into_tx_states();
        let mut results = self.results;
        let mut incarnations: Vec<u32> = Vec::new();
        let mut k: usize = 0;
        while k < n
            invariant
                k <= n,
                n == m.block_size,
                states@.len() == n,
                m.incarnations.len() == n,
                forall|i: int| 0 <= i < n ==> (#[trigger] states@[i]).incarnation == m.incarnations[i],
                incarnations@ == m.incarnations.take(k as int),
            decreases n - k,
        {
            incarnations.push(states[k].incarnation);
            assert(m.incarnations.take(k + 1) =~= m.incarnations.take(k as int).push(m.incarnations[k as int]));
            k = k + 1;
        }
        assert(m.incarnations.take(n as int) =~= m.incarnations);
        let ghost st0 = states@;
        assert forall|i: int| 0 <= i < n implies (#[trigger] st0[i].write_set matches Some(ws) ==> ws.wf()) by {
            assert(st0[i].write_set == m.write_sets[i]);
        }
        assert forall|i: int| 0 <= i < n implies (#[trigger] st0[i].read_set matches Some(rs) ==> rs.wf()) by {
            assert(st0[i].read_set == m.read_sets[i]);
        }
        let mut rev: Vec<(ExecutionResult, WriteSet, ReadSet)> = Vec::new();
        let mut j: usize = n;
        while j > 0
            invariant
                j <= n,
                n == m.block_size,
                states@ == st0.take(j as int),
                results@ == res0.take(j as int),
                st0.len() == n,
                res0.len() == n,
                rev@.len() == n - j,
                forall|x: int|
                    0 <= x < n - j ==> {
                        let i = n - 1 - x;
                        &&& (match res0[i] {
                            Some(res) => (#[trigger] rev@[x]).0 == res,
                            None => rev@[x].0 matches ExecutionResult::Halt { gas_used, reason }
                                && gas_used == 0 && reason@ == Seq::<char>::empty(),
                        })
                        &&& (match st0[i].write_set {
                            Some(ws) => rev@[x].1 == ws,
                            None => rev@[x].1@ == Map::<LocationKey, WriteValue>::empty(),
                        })
                        &&& (match st0[i].read_set {
                            Some(rs) => rev@[x].2 == rs,
                            None => rev@[x].2@ == Map::<LocationKey, ReadOrigin>::empty(),
                        })
                        &&& rev@[x].1.wf()
                        &&& rev@[x].2.wf()
                    },
                forall|i: int| 0 <= i < n ==> (#[trigger] st0[i].write_set matches Some(ws) ==> ws.wf()),
                forall|i: int| 0 <= i < n ==> (#[trigger] st0[i].read_set matches Some(rs) ==> rs.wf()),
            decreases j,
        {
            let st = states.pop().unwrap();
            let res = results.pop().unwrap();
            let result = match res {
                Some(r) => r,
                None => ExecutionResult::Halt { gas_used: 0, reason: String::new() },
            };
            let ws = match st.write_set {
                Some(w) => w,
                None => WriteSet::new(),
            };
            let rs = match st.read_set {
                Some(r) => r,
                None => ReadSet::new(),
            };
            rev.push((result, ws, rs));
            j = j - 1;
            proof {
                assert(st0.take(j + 1).last() == st0[j as int]);
                assert(res0.take(j + 1).last() == res0[j as int]);
                assert(st0.take(j + 1).drop_last() =~= st0.take(j as int));
                assert(res0.take(j + 1).drop_last() =~= res0.take(j as int));
            }
        }
        let mut tx_results: Vec<(ExecutionResult, WriteSet, ReadSet)> = Vec::new();
        let mut q: usize = 0;
        let ghost rev0 = rev@;
        while q < n
            invariant
                q <= n,
                n == m.block_size,
                rev0.len() == n,
                rev@ == rev0.take(n - q),
                tx_results@.len() == q,
                forall|i: int| 0 <= i < q ==> #[trigger] tx_results@[i] == rev0[n - 1 - i],
            decreases n - q,
        {
            let e = rev.pop().unwrap();
            proof {
                assert(rev0.take(n - q).last() == rev0[n - q - 1]);
                assert(rev0.take(n - q).drop_last() =~= rev0.take(n - q - 1));
            }
            tx_results.push(e);
            q = q + 1;
        }
        ParallelExecutionResult { tx_results, total_fees, incarnations }
    }

    proof fn lemma_sets_after_finish(
        &self,
        m: SchedModel,
        tx: TxIndex,
        inc: Incarnation,
        rs: ReadSet,
        ws: WriteSet,
    )
        requires
            rs.wf(),
            ws.wf(),
            self.sched() == spec_finish_execution(m, tx, inc, rs, ws),
            tx < m.block_size,
            m.read_sets.len() == m.block_size,
            m.write_sets.len() == m.block_size,
            forall|i: int| 0 <= i < m.block_size ==> (#[trigger] m.read_sets[i] matches Some(r) ==> r.wf()),
            forall|i: int| 0 <= i < m.block_size ==> (#[trigger] m.write_sets[i] matches Some(w) ==> w.wf()),
        ensures
            forall|i: int|
                0 <= i < self.sched().block_size ==> (#[trigger] self.sched().read_sets[i] matches Some(r)
                    ==> r.wf()),
            forall|i: int|
                0 <= i < self.sched().block_size ==> (#[trigger] self.sched().write_sets[i] matches Some(
                    w,
                ) ==> w.wf()),
    {
        assert forall|i: int| 0 <= i < self.sched().block_size implies (
        #[trigger] self.sched().read_sets[i] matches Some(r) ==> r.wf()) by {
            if i != tx {
                assert(self.sched().read_sets[i] == m.read_sets[i]);
            }
        }
        assert forall|i: int| 0 <= i < self.sched().block_size implies (
        #[trigger] self.sched().write_sets[i] matches Some(w) ==> w.wf()) by {
            if i != tx {
                assert(self.sched().write_sets[i] == m.write_sets[i]);
            }
        }
    }
}

} // verus!

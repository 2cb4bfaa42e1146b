//! The execution runtime's decision core: the block data handed to
//! handlers, the ingestion scheduler's control state, and the
//! transactional entity store whose begin/commit/rollback semantics the
//! handler host relies on. The outside work - fetching pages, invoking
//! modules, sleeping - stays with the caller, which performs each
//! returned action and hands back what happened.

use crate::defaults;
use crate::utils::Bytes32;
use vstd::prelude::*;

verus! {

/// The decoded status of one transaction; times are unix seconds.
#[derive(Clone, Debug, PartialEq)]
pub enum TransactionStatus {
    Success { block_id: String, time: i64 },
    Failure { block_id: String, time: i64, reason: String },
    Submitted { submitted_at: i64 },
    SqueezedOut { reason: String },
}

/// One enriched transaction: its status, raw receipts, body and id.
#[derive(Clone, Debug, PartialEq)]
pub struct TransactionData {
    pub receipts: Vec<Vec<u8>>,
    pub status: TransactionStatus,
    pub transaction: Vec<u8>,
    pub id: Bytes32,
}

/// One enriched block, in node order.
#[derive(Clone, Debug, PartialEq)]
pub struct BlockData {
    pub height: u64,
    pub id: Bytes32,
    pub producer: Option<Bytes32>,
    pub time: i64,
    pub transactions: Vec<TransactionData>,
}

/// Where a handler module's bytecode came from.
#[derive(Clone, Debug, PartialEq)]
pub enum ExecutorSource {
    Manifest,
    Registry(Vec<u8>),
}

impl ExecutorSource {
    /// The module bytes: empty when the manifest is still to be read.
    pub fn to_vec(self) -> (r: Vec<u8>)
        ensures
            self is Manifest ==> r@ == Seq::<u8>::empty(),
            self is Registry ==> r@ == self->Registry_0@,
    {
        match self {
            ExecutorSource::Manifest => Vec::new(),
            ExecutorSource::Registry(bytes) => bytes,
        }
    }
}

/// What one scheduling round observed: the node transport failed, the
/// handler failed, or the page went through with the node's cursor.
#[derive(Debug)]
pub enum BatchOutcome {
    FetchFailed,
    HandlerFailed,
    PageDone { cursor: Option<String> },
}

/// What the scheduler asks its driver to do next.
#[derive(Debug, PartialEq)]
pub enum SchedulerAction {
    RetryAfterDelay { delay: u64 },
    GiveUpFailed,
    IdleSleep { delay: u64 },
    GiveUpIdle,
    Exit,
    Proceed,
}

/// The cursor an indexer starts from: one before its start block, or
/// none from the beginning.
pub fn initial_cursor(start_block: u64) -> (r: Option<String>)
    ensures
        start_block > 1 ==> r is Some && r->0@ == crate::strutil::dec_seq(
            (start_block - 1) as nat,
        ),
        start_block <= 1 ==> r is None,
{
    if start_block > 1 {
        let decremented = start_block - 1;
        Some(crate::strutil::u64_to_string(decremented))
    } else {
        None
    }
}

/// How many empty pages are tolerated: the configured cap under the
/// stop-idle policy, effectively no cap otherwise.
pub fn max_empty_reqs(stop_idle_indexers: bool) -> (r: usize)
    ensures
        stop_idle_indexers ==> r == defaults::MAX_EMPTY_BLOCK_REQUESTS,
        !stop_idle_indexers ==> r == usize::MAX,
{
    if stop_idle_indexers {
        defaults::MAX_EMPTY_BLOCK_REQUESTS
    } else {
        usize::MAX
    }
}

/// The scheduler's mutable state: the cursor, the consecutive-failure
/// counter and the idle-page counter.
#[derive(Debug)]
pub struct ExecutorState {
    pub next_cursor: Option<String>,
    pub retry_count: usize,
    pub num_empty_block_reqs: usize,
    pub max_empty_block_reqs: usize,
}

impl ExecutorState {
    /// The failure counter never passes its cap and the idle counter
    /// never passes its own.
    pub open spec fn wf(&self) -> bool {
        &&& self.retry_count < defaults::INDEX_FAILED_CALLS
        &&& self.num_empty_block_reqs <= self.max_empty_block_reqs
        &&& self.max_empty_block_reqs >= defaults::MAX_EMPTY_BLOCK_REQUESTS
    }

    pub fn new(start_block: u64, stop_idle_indexers: bool) -> (r: ExecutorState)
        ensures
            r.wf(),
            r.retry_count == 0,
            r.num_empty_block_reqs == 0,
            start_block > 1 ==> r.next_cursor is Some && r.next_cursor->0@
                == crate::strutil::dec_seq((start_block - 1) as nat),
            start_block <= 1 ==> r.next_cursor is None,
            stop_idle_indexers ==> r.max_empty_block_reqs
                == defaults::MAX_EMPTY_BLOCK_REQUESTS,
            !stop_idle_indexers ==> r.max_empty_block_reqs == usize::MAX,
    {
        ExecutorState {
            next_cursor: initial_cursor(start_block),
            retry_count: 0,
            num_empty_block_reqs: 0,
            max_empty_block_reqs: max_empty_reqs(stop_idle_indexers),
        }
    }

    /// One scheduling decision, exactly as the ingestion loop takes it:
    /// a transport failure waits and continues without advancing; a
    /// handler failure waits and retries until the failure cap, and
    /// skips the kill check; an empty page counts towards the idle cap
    /// and sleeps; a delivered cursor advances and resets both
    /// counters; the kill flag exits between batches.
    pub fn on_batch_outcome(&mut self, outcome: BatchOutcome, kill: bool) -> (a:
        SchedulerAction)
        requires
            old(self).wf(),
        ensures
            final(self).wf(),
            final(self).max_empty_block_reqs == old(self).max_empty_block_reqs,
            match outcome {
                BatchOutcome::FetchFailed => {
                    &&& final(self).next_cursor == old(self).next_cursor
                    &&& final(self).num_empty_block_reqs == old(self).num_empty_block_reqs
                    &&& final(self).retry_count == 0
                    &&& a == (if kill {
                        SchedulerAction::Exit
                    } else {
                        SchedulerAction::RetryAfterDelay {
                            delay: defaults::DELAY_FOR_SERVICE_ERR,
                        }
                    })
                },
                BatchOutcome::HandlerFailed => {
                    &&& final(self).next_cursor == old(self).next_cursor
                    &&& final(self).num_empty_block_reqs == old(self).num_empty_block_reqs
                    &&& (old(self).retry_count + 1 < defaults::INDEX_FAILED_CALLS ==> a
                        == SchedulerAction::RetryAfterDelay {
                        delay: defaults::DELAY_FOR_SERVICE_ERR,
                    } && final(self).retry_count == old(self).retry_count + 1)
                    &&& (old(self).retry_count + 1 >= defaults::INDEX_FAILED_CALLS ==> a
                        == SchedulerAction::GiveUpFailed)
                },
                BatchOutcome::PageDone { cursor } => {
                    &&& final(self).retry_count == 0
                    &&& (cursor is Some ==> {
                        &&& final(self).next_cursor == cursor
                        &&& final(self).num_empty_block_reqs == 0
                        &&& a == (if kill {
                            SchedulerAction::Exit
                        } else {
                            SchedulerAction::Proceed
                        })
                    })
                    &&& (cursor is None ==> {
                        &&& final(self).next_cursor == old(self).next_cursor
                        &&& (old(self).num_empty_block_reqs + 1 >= old(
                            self,
                        ).max_empty_block_reqs ==> a == SchedulerAction::GiveUpIdle)
                        &&& (old(self).num_empty_block_reqs + 1 < old(
                            self,
                        ).max_empty_block_reqs ==> {
                            &&& final(self).num_empty_block_reqs == old(
                                self,
                            ).num_empty_block_reqs + 1
                            &&& a == (if kill {
                                SchedulerAction::Exit
                            } else {
                                SchedulerAction::IdleSleep {
                                    delay: defaults::DELAY_FOR_EMPTY_PAGE,
                                }
                            })
                        })
                    })
                },
            },
    {
        match outcome {
            BatchOutcome::FetchFailed => {
                self.retry_count = 0;
                if kill {
                    SchedulerAction::Exit
                } else {
                    SchedulerAction::RetryAfterDelay { delay: defaults::DELAY_FOR_SERVICE_ERR }
                }
            },
            BatchOutcome::HandlerFailed => {
                if self.retry_count + 1 < defaults::INDEX_FAILED_CALLS {
                    self.retry_count = self.retry_count + 1;
                    SchedulerAction::RetryAfterDelay { delay: defaults::DELAY_FOR_SERVICE_ERR }
                } else {
                    SchedulerAction::GiveUpFailed
                }
            },
            BatchOutcome::PageDone { cursor } => {
                self.retry_count = 0;
                match cursor {
                    Some(c) => {
                        self.next_cursor = Some(c);
                        self.num_empty_block_reqs = 0;
                        if kill {
                            SchedulerAction::Exit
                        } else {
                            SchedulerAction::Proceed
                        }
                    },
                    None => {
                        if self.num_empty_block_reqs >= self.max_empty_block_reqs - 1 {
                            SchedulerAction::GiveUpIdle
                        } else {
                            self.num_empty_block_reqs = self.num_empty_block_reqs + 1;
                            if kill {
                                SchedulerAction::Exit
                            } else {
                                SchedulerAction::IdleSleep {
                                    delay: defaults::DELAY_FOR_EMPTY_PAGE,
                                }
                            }
                        }
                    },
                }
            },
        }
    }
}

/// True when no key occurs twice.
pub open spec fn um_wf(s: Seq<(u64, Seq<u8>)>) -> bool {
    forall|i: int, j: int|
        0 <= i < j < s.len() ==> (#[trigger] s[i]).0 != (#[trigger] s[j]).0
}

pub open spec fn um_contains(s: Seq<(u64, Seq<u8>)>, k: u64) -> bool {
    exists|i: int| 0 <= i < s.len() && (#[trigger] s[i]).0 == k
}

pub open spec fn um_index(s: Seq<(u64, Seq<u8>)>, k: u64) -> int {
    choose|i: int| 0 <= i < s.len() && (#[trigger] s[i]).0 == k
}

pub open spec fn um_get(s: Seq<(u64, Seq<u8>)>, k: u64) -> Seq<u8> {
    s[um_index(s, k)].1
}

pub open spec fn um_insert(s: Seq<(u64, Seq<u8>)>, k: u64, v: Seq<u8>) -> Seq<(u64, Seq<u8>)> {
    if um_contains(s, k) {
        s.update(um_index(s, k), (k, v))
    } else {
        s.push((k, v))
    }
}

pub open spec fn um_remove(s: Seq<(u64, Seq<u8>)>, k: u64) -> Seq<(u64, Seq<u8>)> {
    if um_contains(s, k) {
        s.remove(um_index(s, k))
    } else {
        s
    }
}

/// The rows of one entity table, keyed by object id.
#[derive(Debug, PartialEq)]
pub struct RowMap {
    pub entries: Vec<(u64, Vec<u8>)>,
}

impl View for RowMap {
    type V = Seq<(u64, Seq<u8>)>;

    open spec fn view(&self) -> Seq<(u64, Seq<u8>)> {
        Seq::new(self.entries@.len(), |i: int| (self.entries@[i].0, self.entries@[i].1@))
    }
}

impl RowMap {
    pub open spec fn wf(&self) -> bool {
        um_wf(self@)
    }

    pub fn new() -> (r: RowMap)
        ensures
            r@ == Seq::<(u64, Seq<u8>)>::empty(),
            r.wf(),
    {
        let r = RowMap { entries: Vec::new() };
        proof {
            assert(r@ =~~= Seq::<(u64, Seq<u8>)>::empty());
        }
        r
    }

    fn index_of(&self, k: u64) -> (r: Option<usize>)
        requires
            self.wf(),
        ensures
            match r {
                Some(i) => i < self@.len() && self@[i as int].0 == k && um_contains(
                    self@,
                    k,
                ) && um_index(self@, k) == i,
                None => !um_contains(self@, k),
            },
    {
        let mut i: usize = 0;
        while i < self.entries.len()
            invariant
                self.wf(),
                i <= self@.len(),
                forall|j: int| 0 <= j < i ==> (#[trigger] self@[j]).0 != k,
            decreases self@.len() - i,
        {
            if self.entries[i].0 == k {
                proof {
                    assert(self@[i as int].0 == k);
                    let w = um_index(self@, k);
                    assert(0 <= w < self@.len() && self@[w].0 == k);
                    assert(w == i);
                }
                return Some(i);
            }
            i = i + 1;
        }
        None
    }

    /// The row under the id, if any.
    pub fn get(&self, k: u64) -> (r: Option<&Vec<u8>>)
        requires
            self.wf(),
        ensures
            match r {
                Some(v) => um_contains(self@, k) && v@ == um_get(self@, k),
                None => !um_contains(self@, k),
            },
    {
        match self.index_of(k) {
            Some(i) => Some(&self.entries[i].1),
            None => None,
        }
    }

    /// Binds the id to the row.
    pub fn insert(&mut self, k: u64, v: Vec<u8>)
        requires
            old(self).wf(),
        ensures
            final(self).wf(),
            final(self)@ == um_insert(old(self)@, k, v@),
    {
        let ghost s0 = self@;
        match self.index_of(k) {
            Some(i) => {
                self.entries.set(i, (k, v));
                proof {
                    assert(self@ =~~= s0.update(um_index(s0, k), (k, v@)));
                }
            },
            None => {
                self.entries.push((k, v));
                proof {
                    assert(self@ =~~= s0.push((k, v@)));
                    assert forall|i: int, j: int| 0 <= i < j < self@.len() implies (
                    #[trigger] self@[i]).0 != (#[trigger] self@[j]).0 by {
                        if j == self@.len() - 1 {
                            assert(self@[i].0 == s0[i].0);
                        }
                    }
                }
            },
        }
    }

    /// Unbinds the id.
    pub fn remove(&mut self, k: u64)
        requires
            old(self).wf(),
        ensures
            final(self).wf(),
            final(self)@ == um_remove(old(self)@, k),
    {
        let ghost s0 = self@;
        match self.index_of(k) {
            Some(i) => {
                let _ = self.entries.remove(i);
                proof {
                    assert(self@ =~~= s0.remove(um_index(s0, k)));
                    assert forall|a: int, b: int| 0 <= a < b < self@.len() implies (
                    #[trigger] self@[a]).0 != (#[trigger] self@[b]).0 by {
                        let i0 = um_index(s0, k);
                        let a0: int = if a < i0 {
                            a
                        } else {
                            a + 1
                        };
                        let b0: int = if b < i0 {
                            b
                        } else {
                            b + 1
                        };
                        assert(self@[a] == s0[a0]);
                        assert(self@[b] == s0[b0]);
                    }
                }
            },
            None => {},
        }
    }

    fn duplicate(&self) -> (r: RowMap)
        ensures
            r@ == self@,
            r.wf() == self.wf(),
    {
        let mut entries: Vec<(u64, Vec<u8>)> = Vec::new();
        let mut i: usize = 0;
        while i < self.entries.len()
            invariant
                i <= self.entries@.len(),
                entries@.len() == i,
                forall|j: int|
                    0 <= j < i ==> (#[trigger] entries@[j]).0 == self@[j].0 && entries@[j].1@
                        == self@[j].1,
            decreases self.entries@.len() - i,
        {
            let k = self.entries[i].0;
            let v = self.entries[i].1.clone();
            entries.push((k, v));
            i = i + 1;
        }
        let r = RowMap { entries };
        proof {
            assert(r@ =~~= self@);
        }
        r
    }
}

/// One entity operation a handler issues inside its batch.
#[derive(Debug, PartialEq)]
pub enum StoreOp {
    PutRow(u64, Vec<u8>),
    DeleteRow(u64),
}

/// The rows after a list of operations.
pub open spec fn apply_ops(s: Seq<(u64, Seq<u8>)>, ops: Seq<StoreOp>) -> Seq<(u64, Seq<u8>)>
    decreases ops.len(),
{
    if ops.len() == 0 {
        s
    } else {
        let prev = apply_ops(s, ops.drop_last());
        match ops.last() {
            StoreOp::PutRow(k, v) => um_insert(prev, k, v@),
            StoreOp::DeleteRow(k) => um_remove(prev, k),
        }
    }
}

/// The entity store with one batch-level transaction: writes land in
/// the open transaction alone, a commit publishes them, a rollback
/// drops them.
#[derive(Debug)]
pub struct TxnStore {
    pub committed: RowMap,
    pub txn: Option<RowMap>,
}

impl TxnStore {
    pub open spec fn wf(&self) -> bool {
        &&& self.committed.wf()
        &&& (self.txn is Some ==> self.txn->0.wf())
    }

    pub fn new() -> (r: TxnStore)
        ensures
            r.wf(),
            r.committed@ == Seq::<(u64, Seq<u8>)>::empty(),
            r.txn is None,
    {
        TxnStore { committed: RowMap::new(), txn: None }
    }

    /// Opens the batch transaction over the committed rows.
    pub fn start_transaction(&mut self)
        requires
            old(self).wf(),
            old(self).txn is None,
        ensures
            final(self).wf(),
            final(self).committed@ == old(self).committed@,
            final(self).txn is Some,
            final(self).txn->0@ == old(self).committed@,
    {
        let t = self.committed.duplicate();
        self.txn = Some(t);
    }

    /// Writes one row inside the transaction; the committed rows do not
    /// move.
    pub fn put(&mut self, k: u64, v: Vec<u8>)
        requires
            old(self).wf(),
            old(self).txn is Some,
        ensures
            final(self).wf(),
            final(self).committed@ == old(self).committed@,
            final(self).txn is Some,
            final(self).txn->0@ == um_insert(old(self).txn->0@, k, v@),
    {
        match &mut self.txn {
            Some(t) => {
                t.insert(k, v);
            },
            None => {
                proof {
                    assert(false);
                }
            },
        }
    }

    /// Removes one row inside the transaction; the committed rows do
    /// not move.
    pub fn delete(&mut self, k: u64)
        requires
            old(self).wf(),
            old(self).txn is Some,
        ensures
            final(self).wf(),
            final(self).committed@ == old(self).committed@,
            final(self).txn is Some,
            final(self).txn->0@ == um_remove(old(self).txn->0@, k),
    {
        match &mut self.txn {
            Some(t) => {
                t.remove(k);
            },
            None => {
                proof {
                    assert(false);
                }
            },
        }
    }

    /// Publishes the transaction: its rows become the committed rows.
    pub fn commit_transaction(&mut self)
        requires
            old(self).wf(),
            old(self).txn is Some,
        ensures
            final(self).wf(),
            final(self).committed@ == old(self).txn->0@,
            final(self).txn is None,
    {
        let mut t: Option<RowMap> = None;
        core::mem::swap(&mut t, &mut self.txn);
        match t {
            Some(rows) => {
                self.committed = rows;
            },
            None => {
                proof {
                    assert(false);
                }
            },
        }
    }

    /// Drops the transaction: the committed rows stand as before it
    /// opened.
    pub fn revert_transaction(&mut self)
        requires
            old(self).wf(),
            old(self).txn is Some,
        ensures
            final(self).wf(),
            final(self).committed@ == old(self).committed@,
            final(self).txn is None,
    {
        self.txn = None;
    }

    /// Runs one batch's operations under one transaction: on a handler
    /// failure no row of the batch is visible afterwards; on success
    /// every row change of the batch is.
    pub fn handle_batch(&mut self, ops: Vec<StoreOp>, handler_failed: bool) -> (r: Result<
        (),
        (),
    >)
        requires
            old(self).wf(),
            old(self).txn is None,
        ensures
            final(self).wf(),
            final(self).txn is None,
            handler_failed ==> r is Err && final(self).committed@ == old(self).committed@,
            !handler_failed ==> r is Ok && final(self).committed@ == apply_ops(
                old(self).committed@,
                ops@,
            ),
    {
        let ghost base = self.committed@;
        let ghost opsv = ops@;
        self.start_transaction();
        let mut rest = ops;
        let ghost mut done: int = 0;
        proof {
            assert(apply_ops(base, opsv.subrange(0, 0)) == base) by {
                assert(opsv.subrange(0, 0) =~~= Seq::<StoreOp>::empty());
            }
        }
        while rest.len() > 0
            invariant
                self.wf(),
                self.txn is Some,
                self.committed@ == base,
                0 <= done <= opsv.len(),
                rest@ == opsv.subrange(done, opsv.len() as int),
                self.txn->0@ == apply_ops(base, opsv.subrange(0, done)),
            decreases rest@.len(),
        {
            let op = rest.remove(0);
            proof {
                assert(opsv.subrange(done, opsv.len() as int)[0] == op);
                assert(opsv[done] == op);
                assert(rest@ =~~= opsv.subrange(done + 1, opsv.len() as int));
            }
            match op {
                StoreOp::PutRow(k, v) => {
                    self.put(k, v);
                },
                StoreOp::DeleteRow(k) => {
                    self.delete(k);
                },
            }
            proof {
                assert(opsv.subrange(0, done + 1).drop_last() =~~= opsv.subrange(0, done));
                assert(opsv.subrange(0, done + 1).last() == opsv[done]);
                assert(self.txn->0@ =~~= apply_ops(base, opsv.subrange(0, done + 1)));
                done = done + 1;
            }
        }
        proof {
            assert(opsv.subrange(0, opsv.len() as int) =~~= opsv);
        }
        if handler_failed {
            self.revert_transaction();
            Err(())
        } else {
            self.commit_transaction();
            Ok(())
        }
    }
}

} // verus!

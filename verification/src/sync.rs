//! The synchronizer: scanning a range of blocks for new pools, chunk by chunk.
//!
//! The synchronizer decides; it does not talk to the chain or to the disk.
//! Whoever drives it performs the action it names and hands back what came of
//! it as an event:
//!
//! * `Fetch` asks for the creation logs of one chunk of blocks. The answer is
//!   `Logs`, or `TransportFailed`.
//! * `Append` asks to persist the new pools of that chunk, all of them. The
//!   answer is `Appended`, or `AppendFailed`.
//! * `Done` ends the scan, `Abort` breaks it off.
//!
//! Chunks are taken in ascending order and one at a time. The pools of a chunk
//! enter the registry only when the store has confirmed them, and only then
//! does the scan move on. After a failure the synchronizer stands where it
//! stood after the last chunk that was confirmed, and the same chunk is asked
//! for again.

use crate::address::Address;
use crate::chain::{creation_candidate, RawLog};
use crate::discovery::{
    absorb, accept_logs, announced_by, announces, lemma_absorb_addresses, lemma_absorb_concat,
    lemma_absorb_extends, lemma_absorb_known, lemma_absorb_origin, log_announces, log_gives,
};
use crate::pool::Pool;
use crate::registry::{
    has_address, lemma_max_block_bounds, max_block, resume_from, unique_addresses, unique_ids,
    Registry,
};
use vstd::prelude::*;

verus! {

/// What a synchronizer is waiting for.
#[derive(Debug, Clone, Copy, PartialEq, Eq, Structural)]
pub enum SyncPhase {
    /// For the logs of the pending chunk.
    AwaitingLogs,
    /// For the store to confirm the new pools of the pending chunk.
    AwaitingAppend,
    /// For nothing: the range is scanned.
    Done,
}

/// Why a scan was refused or broken off.
#[derive(Debug, Clone, Copy, PartialEq, Eq, Structural)]
pub enum SyncError {
    /// A chunk size of zero blocks.
    EmptyChunk,
    /// The source did not answer.
    TransportError,
    /// The store did not persist.
    StoreError,
    /// A new pool came up and every id is taken.
    IdSpaceExhausted,
    /// An event that answers no pending action.
    UnexpectedEvent,
}

/// What came of an action.
#[derive(Debug, Clone, PartialEq, Eq)]
pub enum SyncEvent {
    Logs(Vec<RawLog>),
    TransportFailed,
    Appended,
    AppendFailed,
}

/// What is to be done next.
#[derive(Debug, Clone, PartialEq, Eq)]
pub enum SyncAction {
    Fetch { from_block: u64, to_block: u64 },
    Append { pools: Vec<Pool> },
    Done { appended: usize },
    Abort { error: SyncError },
}

/// An action with its pools as a sequence.
pub enum Outcome {
    Fetch { from_block: u64, to_block: u64 },
    Append { pools: Seq<Pool> },
    Done { appended: usize },
    Abort { error: SyncError },
}

impl View for SyncAction {
    type V = Outcome;

    open spec fn view(&self) -> Outcome {
        match self {
            SyncAction::Fetch { from_block, to_block } => Outcome::Fetch {
                from_block: *from_block,
                to_block: *to_block,
            },
            SyncAction::Append { pools } => Outcome::Append { pools: pools@ },
            SyncAction::Done { appended } => Outcome::Done { appended: *appended },
            SyncAction::Abort { error } => Outcome::Abort { error: *error },
        }
    }
}

/// The state of a synchronizer.
pub struct SyncView {
    /// The pools of the registry: those known at the start and those of the
    /// chunks that were confirmed.
    pub pools: Seq<Pool>,
    /// The new pools of the pending chunk, while the store has not confirmed.
    pub staged: Seq<Pool>,
    /// The first block that is not scanned yet. Every block before it, from
    /// the start of the range on, is scanned and its pools are confirmed.
    pub next_block: int,
    /// The last block of the range.
    pub to_block: u64,
    /// The largest number of blocks in a chunk.
    pub chunk_size: u64,
    /// How many pools the scan has added so far.
    pub appended: nat,
}

impl SyncView {
    /// What holds of every state: chunks are not empty, the scan stands in
    /// the range or right behind it, no address stands twice among the pools
    /// known and staged, pools are staged only while blocks are left, and no
    /// more pools were added than are known.
    pub open spec fn wf(self) -> bool {
        &&& self.chunk_size > 0
        &&& 0 <= self.next_block <= self.to_block + 1
        &&& unique_addresses(self.pools + self.staged)
        &&& self.staged.len() > 0 ==> self.next_block <= self.to_block
        &&& self.appended <= self.pools.len()
    }

    /// What the synchronizer is waiting for in this state.
    pub open spec fn phase(self) -> SyncPhase {
        if self.next_block > self.to_block {
            SyncPhase::Done
        } else if self.staged.len() > 0 {
            SyncPhase::AwaitingAppend
        } else {
            SyncPhase::AwaitingLogs
        }
    }

    /// The last block of the pending chunk: the chunk is as long as allowed and
    /// does not go past the range.
    pub open spec fn chunk_end(self) -> int {
        if self.next_block + self.chunk_size - 1 < self.to_block {
            self.next_block + self.chunk_size - 1
        } else {
            self.to_block as int
        }
    }

    /// The action that is pending in this state.
    pub open spec fn pending(self) -> Outcome {
        match self.phase() {
            SyncPhase::AwaitingLogs => Outcome::Fetch {
                from_block: self.next_block as u64,
                to_block: self.chunk_end() as u64,
            },
            SyncPhase::AwaitingAppend => Outcome::Append { pools: self.staged },
            SyncPhase::Done => Outcome::Done { appended: self.appended as usize },
        }
    }

    /// The state after the pending chunk is confirmed: its pools are in the
    /// registry and the scan stands behind the chunk.
    pub open spec fn commit(self) -> SyncView {
        SyncView {
            pools: self.pools + self.staged,
            staged: Seq::empty(),
            next_block: self.chunk_end() + 1,
            appended: self.appended + self.staged.len(),
            ..self
        }
    }

    /// The state after the source answered with `logs`. A chunk without new
    /// pools is confirmed at once.
    pub open spec fn on_logs(self, logs: Seq<RawLog>) -> SyncView {
        if self.phase() == SyncPhase::AwaitingLogs {
            match absorb(self.pools, logs) {
                Some(all) => {
                    let staged = all.skip(self.pools.len() as int);
                    if staged.len() == 0 {
                        self.commit()
                    } else {
                        SyncView { staged, ..self }
                    }
                },
                None => self,
            }
        } else {
            self
        }
    }

    /// The state after the store confirmed.
    pub open spec fn on_appended(self) -> SyncView {
        if self.phase() == SyncPhase::AwaitingAppend {
            self.commit()
        } else {
            self
        }
    }

    /// The state after the store failed: the pools of the chunk are let go.
    pub open spec fn on_append_failed(self) -> SyncView {
        if self.phase() == SyncPhase::AwaitingAppend {
            SyncView { staged: Seq::empty(), ..self }
        } else {
            self
        }
    }

    /// The state after an event.
    pub open spec fn step(self, event: SyncEvent) -> SyncView {
        match event {
            SyncEvent::Logs(logs) => self.on_logs(logs@),
            SyncEvent::TransportFailed => self,
            SyncEvent::Appended => self.on_appended(),
            SyncEvent::AppendFailed => self.on_append_failed(),
        }
    }

    /// The action that answers an event.
    pub open spec fn outcome(self, event: SyncEvent) -> Outcome {
        match event {
            SyncEvent::Logs(logs) => if self.phase() != SyncPhase::AwaitingLogs {
                Outcome::Abort { error: SyncError::UnexpectedEvent }
            } else if absorb(self.pools, logs@) is None {
                Outcome::Abort { error: SyncError::IdSpaceExhausted }
            } else {
                self.on_logs(logs@).pending()
            },
            SyncEvent::TransportFailed => if self.phase() == SyncPhase::AwaitingLogs {
                Outcome::Abort { error: SyncError::TransportError }
            } else {
                Outcome::Abort { error: SyncError::UnexpectedEvent }
            },
            SyncEvent::Appended => if self.phase() == SyncPhase::AwaitingAppend {
                self.on_appended().pending()
            } else {
                Outcome::Abort { error: SyncError::UnexpectedEvent }
            },
            SyncEvent::AppendFailed => if self.phase() == SyncPhase::AwaitingAppend {
                Outcome::Abort { error: SyncError::StoreError }
            } else {
                Outcome::Abort { error: SyncError::UnexpectedEvent }
            },
        }
    }

    /// The state in which a scan of `from_block..=to_block` starts.
    pub open spec fn start(pools: Seq<Pool>, from_block: int, to_block: u64, chunk_size: u64)
        -> SyncView {
        SyncView {
            pools,
            staged: Seq::empty(),
            next_block: if from_block > to_block {
                to_block + 1
            } else {
                from_block
            },
            to_block,
            chunk_size,
            appended: 0,
        }
    }

    /// How many chunks are still to be scanned.
    pub open spec fn chunks_left(self) -> nat
        decreases self.to_block + 1 - self.next_block,
    {
        if self.next_block > self.to_block || self.chunk_size == 0 {
            0
        } else {
            1 + (SyncView { next_block: self.chunk_end() + 1, ..self }).chunks_left()
        }
    }

    /// The chunks that are still to be scanned, each with its first and its
    /// last block.
    pub open spec fn chunks(self) -> Seq<(int, int)>
        decreases self.to_block + 1 - self.next_block,
    {
        if self.next_block > self.to_block || self.chunk_size == 0 {
            Seq::empty()
        } else {
            seq![(self.next_block, self.chunk_end())] + (SyncView {
                next_block: self.chunk_end() + 1,
                ..self
            }).chunks()
        }
    }

    /// The state after the source answered the pending fetch with `logs` and
    /// the store confirmed the append that followed, if one did.
    pub open spec fn settle(self, logs: Seq<RawLog>) -> SyncView {
        let fetched = self.on_logs(logs);
        if fetched.phase() == SyncPhase::AwaitingAppend {
            fetched.on_appended()
        } else {
            fetched
        }
    }

    /// The state after one chunk after the other was answered and confirmed.
    pub open spec fn run(self, answers: Seq<Seq<RawLog>>) -> SyncView
        decreases answers.len(),
    {
        if answers.len() == 0 {
            self
        } else {
            self.settle(answers.first()).run(answers.drop_first())
        }
    }
}

/// A synchronizer: a registry and how far the scan of a range has come.
pub struct Synchronizer {
    registry: Registry,
    staged: Vec<Pool>,
    cursor: u64,
    finished: bool,
    to_block: u64,
    chunk_size: u64,
    appended: usize,
}

impl View for Synchronizer {
    type V = SyncView;

    closed spec fn view(&self) -> SyncView {
        SyncView {
            pools: self.registry@,
            staged: self.staged@,
            next_block: if self.finished {
                self.to_block + 1
            } else {
                self.cursor as int
            },
            to_block: self.to_block,
            chunk_size: self.chunk_size,
            appended: self.appended as nat,
        }
    }
}

/// A copy of the pools.
fn copy_pools(pools: &Vec<Pool>) -> (copy: Vec<Pool>)
    ensures
        copy@ == pools@,
{
    let mut copy: Vec<Pool> = Vec::new();
    let mut i: usize = 0;
    while i < pools.len()
        invariant
            i <= pools@.len(),
            copy@ == pools@.take(i as int),
        decreases pools.len() - i,
    {
        copy.push(pools[i]);
        assert(copy@ =~= pools@.take(i as int + 1));
        i = i + 1;
    }
    assert(pools@.take(i as int) =~= pools@);
    copy
}

impl Synchronizer {
    /// What holds of every synchronizer: its state is well formed.
    #[verifier::type_invariant]
    closed spec fn inv(self) -> bool {
        &&& self@.wf()
        &&& !self.finished ==> self.cursor <= self.to_block
    }

    /// A synchronizer that will scan `from_block..=to_block` in chunks of at
    /// most `chunk_size` blocks. A range with `from_block` behind `to_block`
    /// has no block in it and is scanned from the start.
    pub fn new(registry: Registry, from_block: u64, to_block: u64, chunk_size: u64) -> (r: Result<
        Synchronizer,
        SyncError,
    >)
        ensures
            match r {
                Ok(s) => chunk_size > 0 && s@ == SyncView::start(
                    registry@,
                    from_block as int,
                    to_block,
                    chunk_size,
                ) && s@.wf(),
                Err(e) => chunk_size == 0 && e == SyncError::EmptyChunk,
            },
    {
        if chunk_size == 0 {
            return Err(SyncError::EmptyChunk);
        }
        proof {
            use_type_invariant(&registry);
            assert(registry@ + Seq::<Pool>::empty() =~= registry@);
        }
        Ok(
            Synchronizer {
                registry,
                staged: Vec::new(),
                cursor: from_block,
                finished: from_block > to_block,
                to_block,
                chunk_size,
                appended: 0,
            },
        )
    }

    /// A synchronizer that goes on where the registry ends: behind the last
    /// block in which a known pool was created, or at `genesis` where no pool
    /// is known.
    pub fn resume(registry: Registry, genesis: u64, to_block: u64, chunk_size: u64) -> (r: Result<
        Synchronizer,
        SyncError,
    >)
        ensures
            match r {
                Ok(s) => chunk_size > 0 && s@ == SyncView::start(
                    registry@,
                    resume_from(registry@, genesis),
                    to_block,
                    chunk_size,
                ) && s@.wf(),
                Err(e) => chunk_size == 0 && e == SyncError::EmptyChunk,
            },
    {
        if chunk_size == 0 {
            return Err(SyncError::EmptyChunk);
        }
        proof {
            use_type_invariant(&registry);
            assert(registry@ + Seq::<Pool>::empty() =~= registry@);
        }
        match registry.resume_block(genesis) {
            Some(from_block) => Ok(
                Synchronizer {
                    registry,
                    staged: Vec::new(),
                    cursor: from_block,
                    finished: from_block > to_block,
                    to_block,
                    chunk_size,
                    appended: 0,
                },
            ),
            None => Ok(
                Synchronizer {
                    registry,
                    staged: Vec::new(),
                    cursor: to_block,
                    finished: true,
                    to_block,
                    chunk_size,
                    appended: 0,
                },
            ),
        }
    }

    /// The registry as it stands.
    pub fn registry(&self) -> (registry: &Registry)
        ensures
            registry@ == self@.pools,
    {
        &self.registry
    }

    /// Gives up the synchronizer for its registry.
    pub fn into_registry(self) -> (registry: Registry)
        ensures
            registry@ == self@.pools,
    {
        self.registry
    }

    /// How many pools the scan has added so far.
    pub fn appended(&self) -> (n: usize)
        ensures
            n == self@.appended,
    {
        self.appended
    }

    /// What the synchronizer is waiting for.
    pub fn phase(&self) -> (phase: SyncPhase)
        ensures
            phase == self@.phase(),
            self@.wf(),
    {
        proof {
            use_type_invariant(self);
        }
        if self.finished {
            SyncPhase::Done
        } else if self.staged.len() > 0 {
            SyncPhase::AwaitingAppend
        } else {
            SyncPhase::AwaitingLogs
        }
    }

    /// The last block up to which everything is scanned and confirmed; `None`
    /// before the first block of the chain is.
    pub fn scanned_through(&self) -> (block: Option<u64>)
        ensures
            block == if self@.next_block > 0 {
                Some((self@.next_block - 1) as u64)
            } else {
                None
            },
    {
        proof {
            use_type_invariant(self);
        }
        if self.finished {
            Some(self.to_block)
        } else if self.cursor > 0 {
            Some(self.cursor - 1)
        } else {
            None
        }
    }

    /// How many chunks are still to be scanned; the largest number there is
    /// where they are more than that.
    pub fn chunks_left(&self) -> (n: u64)
        ensures
            n == if self@.chunks_left() > u64::MAX {
                u64::MAX as nat
            } else {
                self@.chunks_left()
            },
    {
        proof {
            use_type_invariant(self);
            lemma_chunks_left_count(self@);
        }
        if self.finished {
            0
        } else {
            ((self.to_block - self.cursor) / self.chunk_size).saturating_add(1)
        }
    }

    /// The last block of the pending chunk.
    fn pending_end(&self) -> (end: u64)
        requires
            !self.finished,
        ensures
            end == self@.chunk_end(),
            self.cursor <= end <= self.to_block,
    {
        proof {
            use_type_invariant(self);
        }
        match self.cursor.checked_add(self.chunk_size - 1) {
            Some(end) => if end < self.to_block {
                end
            } else {
                self.to_block
            },
            None => self.to_block,
        }
    }

    /// The action that is pending.
    pub fn action(&self) -> (action: SyncAction)
        ensures
            action@ == self@.pending(),
            self@.wf(),
    {
        proof {
            use_type_invariant(self);
        }
        if self.finished {
            SyncAction::Done { appended: self.appended }
        } else if self.staged.len() > 0 {
            SyncAction::Append { pools: copy_pools(&self.staged) }
        } else {
            SyncAction::Fetch { from_block: self.cursor, to_block: self.pending_end() }
        }
    }

    /// Takes an event and names the action that follows.
    pub fn step(self, event: SyncEvent) -> (r: (Synchronizer, SyncAction))
        ensures
            r.0@ == self@.step(event),
            r.1@ == self@.outcome(event),
            r.0@.wf(),
    {
        proof {
            use_type_invariant(&self);
        }
        let phase = self.phase();
        match event {
            SyncEvent::Logs(logs) => {
                if phase != SyncPhase::AwaitingLogs {
                    return (self, SyncAction::Abort { error: SyncError::UnexpectedEvent });
                }
                match accept_logs(&self.registry, &logs) {
                    None => (self, SyncAction::Abort { error: SyncError::IdSpaceExhausted }),
                    Some(added) => {
                        proof {
                            let all = absorb(self@.pools, logs@).unwrap();
                            assert(all.skip(self@.pools.len() as int) =~= added@);
                            lemma_absorb_extends(self@.pools, logs@);
                        }
                        if added.len() == 0 {
                            let next = self.advanced();
                            let action = next.action();
                            (next, action)
                        } else {
                            let action = SyncAction::Append { pools: copy_pools(&added) };
                            let Synchronizer {
                                registry,
                                staged: _,
                                cursor,
                                finished,
                                to_block,
                                chunk_size,
                                appended,
                            } = self;
                            let next = Synchronizer {
                                registry,
                                staged: added,
                                cursor,
                                finished,
                                to_block,
                                chunk_size,
                                appended,
                            };
                            (next, action)
                        }
                    },
                }
            },
            SyncEvent::TransportFailed => {
                if phase == SyncPhase::AwaitingLogs {
                    (self, SyncAction::Abort { error: SyncError::TransportError })
                } else {
                    (self, SyncAction::Abort { error: SyncError::UnexpectedEvent })
                }
            },
            SyncEvent::Appended => {
                if phase != SyncPhase::AwaitingAppend {
                    return (self, SyncAction::Abort { error: SyncError::UnexpectedEvent });
                }
                let next = self.advanced();
                let action = next.action();
                (next, action)
            },
            SyncEvent::AppendFailed => {
                if phase != SyncPhase::AwaitingAppend {
                    return (self, SyncAction::Abort { error: SyncError::UnexpectedEvent });
                }
                let Synchronizer {
                    registry,
                    staged: _,
                    cursor,
                    finished,
                    to_block,
                    chunk_size,
                    appended,
                } = self;
                proof {
                    use_type_invariant(&registry);
                    assert(registry@ + Seq::<Pool>::empty() =~= registry@);
                }
                let next = Synchronizer {
                    registry,
                    staged: Vec::new(),
                    cursor,
                    finished,
                    to_block,
                    chunk_size,
                    appended,
                };
                (next, SyncAction::Abort { error: SyncError::StoreError })
            },
        }
    }

    /// Confirms the pending chunk.
    fn advanced(self) -> (next: Synchronizer)
        requires
            !self.finished,
        ensures
            next@ == self@.commit(),
    {
        proof {
            use_type_invariant(&self);
        }
        let end = self.pending_end();
        let Synchronizer {
            mut registry,
            staged,
            cursor: _,
            finished: _,
            to_block,
            chunk_size,
            appended,
        } = self;
        registry.extend_unique(&staged);
        proof {
            use_type_invariant(&registry);
            assert(registry@ + Seq::<Pool>::empty() =~= registry@);
        }
        if end < to_block {
            Synchronizer {
                registry,
                staged: Vec::new(),
                cursor: end + 1,
                finished: false,
                to_block,
                chunk_size,
                appended: appended + staged.len(),
            }
        } else {
            Synchronizer {
                registry,
                staged: Vec::new(),
                cursor: end,
                finished: true,
                to_block,
                chunk_size,
                appended: appended + staged.len(),
            }
        }
    }
}

/// A chunk starts where the scan stands, ends inside the range, and holds at
/// most `chunk_size` blocks: exactly that many unless the range ends before.
/// The next chunk starts right behind it.
pub proof fn lemma_chunk_shape(v: SyncView)
    requires
        v.wf(),
        v.next_block <= v.to_block,
    ensures
        v.next_block <= v.chunk_end() <= v.to_block,
        v.chunk_end() - v.next_block + 1 <= v.chunk_size,
        v.chunk_end() < v.to_block ==> v.chunk_end() - v.next_block + 1 == v.chunk_size,
        v.commit().next_block == v.chunk_end() + 1,
        v.commit().chunks_left() + 1 == v.chunks_left(),
{
    assert(v.commit().chunks_left() == (SyncView {
        next_block: v.chunk_end() + 1,
        ..v
    }).chunks_left()) by {
        lemma_chunks_left_range(v.commit(), SyncView { next_block: v.chunk_end() + 1, ..v });
    }
}

/// How many chunks are left depends on the range and the chunk size alone.
pub proof fn lemma_chunks_left_range(a: SyncView, b: SyncView)
    requires
        a.next_block == b.next_block,
        a.to_block == b.to_block,
        a.chunk_size == b.chunk_size,
    ensures
        a.chunks_left() == b.chunks_left(),
    decreases a.to_block + 1 - a.next_block,
{
    if !(a.next_block > a.to_block || a.chunk_size == 0) {
        lemma_chunks_left_range(
            SyncView { next_block: a.chunk_end() + 1, ..a },
            SyncView { next_block: b.chunk_end() + 1, ..b },
        );
    }
}

/// Which chunks are left depends on the range and the chunk size alone.
pub proof fn lemma_chunks_range(a: SyncView, b: SyncView)
    requires
        a.next_block == b.next_block,
        a.to_block == b.to_block,
        a.chunk_size == b.chunk_size,
    ensures
        a.chunks() == b.chunks(),
    decreases a.to_block + 1 - a.next_block,
{
    if !(a.next_block > a.to_block || a.chunk_size == 0) {
        lemma_chunks_range(
            SyncView { next_block: a.chunk_end() + 1, ..a },
            SyncView { next_block: b.chunk_end() + 1, ..b },
        );
    }
}

/// Whether the chunk behind the one at `k` starts right behind it.
pub open spec fn follows(chunks: Seq<(int, int)>, k: int) -> bool {
    chunks[k + 1].0 == chunks[k].1 + 1
}

/// How many blocks the chunk at `k` holds.
pub open spec fn blocks_in(chunks: Seq<(int, int)>, k: int) -> int {
    chunks[k].1 - chunks[k].0 + 1
}

/// The chunks part the blocks that are left, from the first unscanned one to
/// the last of the range: they follow one another without gap or overlap,
/// none is empty, and each holds `chunk_size` blocks, but for the last, which
/// may hold fewer.
pub proof fn lemma_chunks_partition(v: SyncView)
    requires
        v.chunk_size > 0,
    ensures
        v.chunks().len() == v.chunks_left(),
        v.chunks().len() > 0 ==> v.chunks().first().0 == v.next_block && v.chunks().last().1
            == v.to_block,
        forall|k: int|
            0 <= k < v.chunks().len() ==> 1 <= #[trigger] blocks_in(v.chunks(), k) <= v.chunk_size,
        forall|k: int|
            0 <= k < v.chunks().len() - 1 ==> #[trigger] follows(v.chunks(), k) && blocks_in(
                v.chunks(),
                k,
            ) == v.chunk_size,
    decreases v.to_block + 1 - v.next_block,
{
    if v.next_block <= v.to_block {
        let rest = SyncView { next_block: v.chunk_end() + 1, ..v };
        let head = seq![(v.next_block, v.chunk_end())];
        lemma_chunks_partition(rest);
        assert(v.chunks() == head + rest.chunks());
        assert(v.chunks().first() == head[0]);
        if rest.chunks().len() > 0 {
            assert(v.chunks().last() == rest.chunks().last());
            assert(v.chunks()[1] == rest.chunks().first());
        }
        assert forall|k: int| 0 <= k < v.chunks().len() implies 1 <= #[trigger] blocks_in(
            v.chunks(),
            k,
        ) <= v.chunk_size by {
            if k > 0 {
                assert(v.chunks()[k] == rest.chunks()[k - 1]);
                assert(blocks_in(rest.chunks(), k - 1) == blocks_in(v.chunks(), k));
            }
        }
        assert forall|k: int| 0 <= k < v.chunks().len() - 1 implies #[trigger] follows(
            v.chunks(),
            k,
        ) && blocks_in(v.chunks(), k) == v.chunk_size by {
            if k > 0 {
                assert(v.chunks()[k] == rest.chunks()[k - 1]);
                assert(v.chunks()[k + 1] == rest.chunks()[k]);
                assert(follows(rest.chunks(), k - 1));
                assert(blocks_in(rest.chunks(), k - 1) == blocks_in(v.chunks(), k));
            }
        }
    }
}

/// The number of chunks that are left, counted from the blocks that are left.
pub proof fn lemma_chunks_left_count(v: SyncView)
    requires
        v.chunk_size > 0,
    ensures
        v.chunks_left() == if v.next_block > v.to_block {
            0
        } else {
            (v.to_block - v.next_block) / (v.chunk_size as int) + 1
        },
    decreases v.to_block + 1 - v.next_block,
{
    if v.next_block <= v.to_block {
        let left = v.to_block - v.next_block;
        let size = v.chunk_size as int;
        let rest = SyncView { next_block: v.chunk_end() + 1, ..v };
        lemma_chunks_left_count(rest);
        if v.next_block + size - 1 < v.to_block {
            assert((left - size) / size + 1 == left / size) by (nonlinear_arith)
                requires
                    size > 0,
                    left >= size,
            ;
        } else {
            assert(left / size == 0) by (nonlinear_arith)
                requires
                    size > 0,
                    0 <= left < size,
            ;
        }
    }
}

/// No chunk is left exactly when the scan stands behind the range.
pub proof fn lemma_chunks_left_zero(v: SyncView)
    requires
        v.chunk_size > 0,
    ensures
        v.chunks_left() == 0 <==> v.next_block > v.to_block,
{
}

/// No failure changes what is known or how far the scan has come, and no
/// event takes a pool out of the registry.
pub proof fn lemma_failures_keep_progress(v: SyncView, event: SyncEvent)
    requires
        v.wf(),
    ensures
        v.step(event).wf(),
        v.step(event).to_block == v.to_block,
        v.step(event).chunk_size == v.chunk_size,
        v.step(event).next_block >= v.next_block,
        v.step(event).pools.len() >= v.pools.len(),
        v.step(event).pools.take(v.pools.len() as int) == v.pools,
        v.outcome(event) is Abort ==> v.step(event).pools == v.pools && v.step(event).next_block
            == v.next_block && v.step(event).appended == v.appended,
{
    let after = v.step(event);
    assert(v.pools.take(v.pools.len() as int) =~= v.pools);
    assert((v.pools + v.staged).take(v.pools.len() as int) =~= v.pools);
    assert forall|i: int, j: int| 0 <= i < j < v.pools.len() implies v.pools[i].address
        != v.pools[j].address by {
        assert((v.pools + v.staged)[i] == v.pools[i]);
        assert((v.pools + v.staged)[j] == v.pools[j]);
    }
    assert(v.pools + Seq::<Pool>::empty() =~= v.pools);
    match event {
        SyncEvent::Logs(logs) => {
            if v.phase() == SyncPhase::AwaitingLogs && absorb(v.pools, logs@) is Some {
                lemma_settle(v, logs@);
            }
        },
        _ => {},
    }
}

/// What answering and confirming one chunk does.
pub proof fn lemma_settle(v: SyncView, logs: Seq<RawLog>)
    requires
        v.wf(),
        v.phase() == SyncPhase::AwaitingLogs,
        absorb(v.pools, logs) is Some,
    ensures
        ({
            let s = v.settle(logs);
            &&& v.on_logs(logs).wf()
            &&& s.wf()
            &&& s.staged.len() == 0
            &&& s.pools == absorb(v.pools, logs).unwrap()
            &&& s.next_block == v.chunk_end() + 1
            &&& s.appended == v.appended + (s.pools.len() - v.pools.len())
            &&& s.to_block == v.to_block
            &&& s.chunk_size == v.chunk_size
            &&& s.chunks_left() + 1 == v.chunks_left()
        }),
{
    let all = absorb(v.pools, logs).unwrap();
    let staged = all.skip(v.pools.len() as int);
    assert(v.pools + v.staged =~= v.pools);
    lemma_absorb_extends(v.pools, logs);
    assert(v.pools + staged =~= all);
    let s = v.settle(logs);
    assert(s.pools =~= all);
    assert(s.pools + s.staged =~= all);
    lemma_chunks_left_range(s, SyncView { next_block: v.chunk_end() + 1, ..v });
}

/// What answering and confirming chunk after chunk does, as long as chunks
/// are left and ids are.
pub proof fn lemma_run(v: SyncView, answers: Seq<Seq<RawLog>>)
    requires
        v.wf(),
        v.staged.len() == 0,
        answers.len() <= v.chunks_left(),
        absorb(v.pools, answers.flatten()) is Some,
    ensures
        ({
            let end = v.run(answers);
            &&& end.wf()
            &&& end.staged.len() == 0
            &&& end.pools == absorb(v.pools, answers.flatten()).unwrap()
            &&& end.appended == v.appended + (end.pools.len() - v.pools.len())
            &&& end.to_block == v.to_block
            &&& end.chunk_size == v.chunk_size
            &&& end.next_block >= v.next_block
            &&& end.chunks_left() + answers.len() == v.chunks_left()
        }),
    decreases answers.len(),
{
    if answers.len() > 0 {
        let first = answers.first();
        let rest = answers.drop_first();
        lemma_absorb_concat(v.pools, first, rest.flatten());
        lemma_settle(v, first);
        lemma_chunk_shape(v);
        let s = v.settle(first);
        lemma_run(s, rest);
        lemma_absorb_extends(v.pools, first);
    }
}

/// Chunks are asked for in ascending order: after so many answers the chunk
/// with that number is asked for.
pub proof fn lemma_run_asks_in_order(v: SyncView, answers: Seq<Seq<RawLog>>)
    requires
        v.wf(),
        v.staged.len() == 0,
        answers.len() < v.chunks_left(),
        absorb(v.pools, answers.flatten()) is Some,
    ensures
        v.run(answers).pending() == (Outcome::Fetch {
            from_block: v.chunks()[answers.len() as int].0 as u64,
            to_block: v.chunks()[answers.len() as int].1 as u64,
        }),
    decreases answers.len(),
{
    let rest = SyncView { next_block: v.chunk_end() + 1, ..v };
    assert(v.chunks() == seq![(v.next_block, v.chunk_end())] + rest.chunks());
    if answers.len() > 0 {
        let first = answers.first();
        let later = answers.drop_first();
        lemma_absorb_concat(v.pools, first, later.flatten());
        lemma_settle(v, first);
        let s = v.settle(first);
        lemma_chunks_range(s, rest);
        lemma_chunks_partition(v);
        lemma_chunks_partition(s);
        lemma_run_asks_in_order(s, later);
        assert(v.chunks()[answers.len() as int] == s.chunks()[later.len() as int]);
    }
}

/// A scan in which every chunk is answered and confirmed ends behind the last
/// block of the range. The registry then holds what it held before, in
/// place, followed by the pools that the logs added; an address is known
/// exactly if it was known or a log announces it, and none stands twice;
/// every pool that was added is what a log announces; and the count of
/// added pools is the growth of the registry.
///
/// The scan is assumed not to run out of ids.
pub proof fn lemma_sync_completes(v: SyncView, answers: Seq<Seq<RawLog>>)
    requires
        v.wf(),
        v.staged.len() == 0,
        answers.len() == v.chunks_left(),
        absorb(v.pools, answers.flatten()) is Some,
    ensures
        ({
            let end = v.run(answers);
            let logs = answers.flatten();
            &&& end.phase() == SyncPhase::Done
            &&& end.next_block == v.to_block + 1
            &&& end.pools == absorb(v.pools, logs).unwrap()
            &&& v.pools.len() <= end.pools.len()
            &&& end.pools.take(v.pools.len() as int) == v.pools
            &&& unique_addresses(end.pools)
            &&& unique_ids(v.pools) ==> unique_ids(end.pools)
            &&& forall|a: Address|
                has_address(end.pools, a) <==> has_address(v.pools, a) || announces(logs, a)
            &&& forall|i: int|
                v.pools.len() <= i < end.pools.len() ==> announced_by(logs, #[trigger] end.pools[i])
            &&& end.appended == v.appended + (end.pools.len() - v.pools.len())
        }),
{
    let end = v.run(answers);
    let logs = answers.flatten();
    lemma_run(v, answers);
    lemma_chunks_left_zero(end);
    assert(v.pools + v.staged =~= v.pools);
    lemma_absorb_extends(v.pools, logs);
    assert forall|a: Address|
        has_address(end.pools, a) <==> has_address(v.pools, a) || announces(logs, a) by {
        lemma_absorb_addresses(v.pools, logs, a);
    }
    assert forall|i: int| v.pools.len() <= i < end.pools.len() implies announced_by(
        logs,
        #[trigger] end.pools[i],
    ) by {
        lemma_absorb_origin(v.pools, logs, i);
    }
}

/// A scan whose logs announce only addresses that are known adds nothing.
pub proof fn lemma_sync_known_adds_nothing(v: SyncView, answers: Seq<Seq<RawLog>>)
    requires
        v.wf(),
        v.staged.len() == 0,
        answers.len() == v.chunks_left(),
        forall|k: int|
            0 <= k < answers.flatten().len() ==> ((#[trigger] creation_candidate(
                answers.flatten()[k],
            )) matches Some(c) ==> has_address(v.pools, c.address)),
    ensures
        v.run(answers).phase() == SyncPhase::Done,
        v.run(answers).pools == v.pools,
        v.run(answers).appended == v.appended,
{
    lemma_absorb_known(v.pools, answers.flatten());
    lemma_sync_completes(v, answers);
}

/// Scanning a range a second time, over the same logs and from the registry
/// that the first scan left, adds nothing.
pub proof fn lemma_sync_again_adds_nothing(v: SyncView, answers: Seq<Seq<RawLog>>)
    requires
        v.wf(),
        v.staged.len() == 0,
        answers.len() == v.chunks_left(),
        absorb(v.pools, answers.flatten()) is Some,
    ensures
        ({
            let again = SyncView { pools: v.run(answers).pools, appended: 0, ..v };
            &&& again.run(answers).phase() == SyncPhase::Done
            &&& again.run(answers).pools == again.pools
            &&& again.run(answers).appended == 0
        }),
{
    let logs = answers.flatten();
    let end = v.run(answers);
    let again = SyncView { pools: end.pools, appended: 0, ..v };
    lemma_sync_completes(v, answers);
    assert(again.pools + again.staged =~= again.pools);
    lemma_chunks_left_range(again, v);
    assert forall|k: int| 0 <= k < logs.len() implies ((#[trigger] creation_candidate(
        logs[k],
    )) matches Some(c) ==> has_address(again.pools, c.address)) by {
        if let Some(c) = creation_candidate(logs[k]) {
            assert(log_announces(logs[k], c.address));
            assert(announces(logs, c.address));
        }
    }
    lemma_sync_known_adds_nothing(again, answers);
}

/// After a completed scan the highest block of a known pool is the last
/// block of the range, provided that no pool is known from a later block, no
/// log is from one, and some pool was created in that last block.
pub proof fn lemma_watermark_after_sync(v: SyncView, answers: Seq<Seq<RawLog>>)
    requires
        v.wf(),
        v.staged.len() == 0,
        answers.len() == v.chunks_left(),
        absorb(v.pools, answers.flatten()) is Some,
        forall|i: int|
            0 <= i < v.pools.len() ==> (#[trigger] v.pools[i]).block_number <= v.to_block,
        forall|k: int|
            0 <= k < answers.flatten().len() ==> (#[trigger] answers.flatten()[k]).block_number
                <= v.to_block,
        exists|i: int|
            0 <= i < v.run(answers).pools.len() && (#[trigger] v.run(answers).pools[i]).block_number
                == v.to_block,
    ensures
        max_block(v.run(answers).pools) == Some(v.to_block),
{
    let end = v.run(answers);
    let logs = answers.flatten();
    lemma_sync_completes(v, answers);
    lemma_max_block_bounds(end.pools);
    assert forall|i: int| 0 <= i < end.pools.len() implies (#[trigger] end.pools[i]).block_number
        <= v.to_block by {
        if i < v.pools.len() {
            assert(end.pools.take(v.pools.len() as int)[i] == end.pools[i]);
        } else {
            assert(announced_by(logs, end.pools[i]));
            let k = choose|k: int|
                0 <= k < logs.len() && #[trigger] log_gives(logs[k], end.pools[i]);
            assert(logs[k].block_number <= v.to_block);
        }
    }
}


} // verus!

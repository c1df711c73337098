//! What was recorded while a program was executed, to be replayed when its trace is built.
//!
//! A replay holds queues: what is recorded first is replayed first.
use std::collections::VecDeque;

use miden_crypto::utils::{BudgetedReader, SliceReader};

use vstd::layout::size_of;
use vstd::prelude::*;
use vstd::string::StringExecFns;

use crate::errors::{AdviceError, ExecutionError, MemoryError, OperationError};
use crate::fields::{ContextId, Felt, MastForestId, MastNodeId, MerklePath, RowIndex, Word};
use crate::reader::{charged, input, DeserializationError, Fault, Input};
use crate::numerals::{decimal, numeral};
use crate::wire::{
    charged_twice, count_is_charged, decoded_count, decoded_counted, encoded_queue, queue_round_trip, read_count,
    read_items, vals, write_queue, Codec, Item,
};

verus! {

// QUEUES
// ================================================================================================

/// A queue after some items have been recorded.
pub open spec fn recorded_all<T>(queue: Seq<T>, items: Seq<T>) -> Seq<T>
    decreases items.len(),
{
    if items.len() == 0 {
        queue
    } else {
        recorded_all(queue, items.drop_last()).push(items.last())
    }
}

/// What is left of a queue after `n` items have been replayed.
pub open spec fn replayed<T>(queue: Seq<T>, n: nat) -> Seq<T>
    decreases n,
{
    if n == 0 {
        queue
    } else {
        replayed(queue, (n - 1) as nat).drop_first()
    }
}

/// What is recorded is replayed in the order in which it was recorded, behind what was recorded
/// before, and nothing else is.
pub proof fn recorded_is_replayed_in_order<T>(queue: Seq<T>, items: Seq<T>, i: int)
    requires
        0 <= i < items.len(),
    ensures
        replayed(recorded_all(queue, items), queue.len() + i as nat).len() > 0,
        replayed(recorded_all(queue, items), queue.len() + i as nat)[0] == items[i],
        replayed(recorded_all(queue, items), queue.len() + items.len()).len() == 0,
{
    let all = queue + items;
    recorded_is_appended(queue, items);
    replayed_is_skipped(all, queue.len() + i as nat);
    replayed_is_skipped(all, all.len());
}

proof fn recorded_is_appended<T>(queue: Seq<T>, items: Seq<T>)
    ensures
        recorded_all(queue, items) == queue + items,
    decreases items.len(),
{
    if items.len() > 0 {
        recorded_is_appended(queue, items.drop_last());
        assert(items =~= items.drop_last().push(items.last()));
    }
    assert(recorded_all(queue, items) =~= queue + items);
}

proof fn replayed_is_skipped<T>(queue: Seq<T>, n: nat)
    requires
        n <= queue.len(),
    ensures
        replayed(queue, n) == queue.skip(n as int),
    decreases n,
{
    if n > 0 {
        replayed_is_skipped(queue, (n - 1) as nat);
    }
    assert(replayed(queue, n) =~= queue.skip(n as int));
}

// EXECUTION CONTEXT REPLAY
// ================================================================================================

/// Data required to recover the state of an execution context when restoring it during an END
/// operation.
#[derive(Debug, Clone, Copy, PartialEq, Eq)]
pub struct ExecutionContextSystemInfo {
    pub parent_ctx: ContextId,
    pub parent_fn_hash: Word,
}

impl Codec for ExecutionContextSystemInfo {
    type V = <(ContextId, Word) as Codec>::V;

    open spec fn val(&self) -> <(ContextId, Word) as Codec>::V {
        (self.parent_ctx.val(), self.parent_fn_hash.val())
    }

    open spec fn valid(v: <(ContextId, Word) as Codec>::V) -> bool {
        <(ContextId, Word) as Codec>::valid(v)
    }

    open spec fn encoded(v: <(ContextId, Word) as Codec>::V) -> Seq<u8> {
        <(ContextId, Word) as Codec>::encoded(v)
    }

    open spec fn decoded(s: Input) -> (Result<<(ContextId, Word) as Codec>::V, Fault>, Input) {
        <(ContextId, Word) as Codec>::decoded(s)
    }

    open spec fn min_size() -> nat {
        <(ContextId, Word) as Codec>::min_size()
    }

    fn write_into(&self, target: &mut Vec<u8>) {
        let ghost before = target@;
        self.parent_ctx.write_into(target);
        self.parent_fn_hash.write_into(target);
        assert(target@ =~= before + Self::encoded(self.val()));
    }

    fn read_from(source: &mut BudgetedReader<SliceReader<'_>>) -> (result: Result<Self, DeserializationError>) {
        match <(ContextId, Word) as Codec>::read_from(source) {
            Err(error) => Err(error),
            Ok((parent_ctx, parent_fn_hash)) => Ok(ExecutionContextSystemInfo { parent_ctx, parent_fn_hash }),
        }
    }

    fn min_serialized_size() -> (size: usize) {
        <(ContextId, Word) as Codec>::min_serialized_size()
    }

    proof fn round_trip(v: <(ContextId, Word) as Codec>::V, rest: Seq<u8>, budget: nat) {
        <(ContextId, Word) as Codec>::round_trip(v, rest, budget);
    }

    proof fn bytes_are_charged(s: Input) {
        <(ContextId, Word) as Codec>::bytes_are_charged(s);
    }
}

impl Item for ExecutionContextSystemInfo {
    proof fn size_is_least(v: <(ContextId, Word) as Codec>::V) {
        <(ContextId, Word) as Item>::size_is_least(v);
    }
}

/// Extra data needed to recover the state on an END operation specifically for CALL, SYSCALL and
/// DYNCALL nodes, which start and end a new execution context.
#[derive(Debug, PartialEq, Eq)]
pub struct ExecutionContextReplay {
    execution_contexts: VecDeque<ExecutionContextSystemInfo>,
}

impl View for ExecutionContextReplay {
    type V = Seq<ExecutionContextSystemInfo>;

    closed spec fn view(&self) -> Seq<ExecutionContextSystemInfo> {
        self.execution_contexts@
    }
}

impl Default for ExecutionContextReplay {
    /// A replay of nothing.
    fn default() -> (replay: ExecutionContextReplay)
        ensures
            replay@ == Seq::<ExecutionContextSystemInfo>::empty(),
    {
        ExecutionContextReplay { execution_contexts: VecDeque::new() }
    }
}

impl ExecutionContextReplay {
    /// Records an execution context system info for a CALL, SYSCALL or DYNCALL operation.
    pub fn record_execution_context(&mut self, ctx_info: ExecutionContextSystemInfo)
        ensures
            final(self)@ == old(self)@.push(ctx_info),
    {
        self.execution_contexts.push_back(ctx_info);
    }

    /// Replays the next recorded execution context system info.
    pub fn replay_execution_context(&mut self) -> (result: Result<ExecutionContextSystemInfo, OperationError>)
        ensures
            match result {
                Ok(value) => {
                    &&& old(self)@.len() > 0
                    &&& value == old(self)@[0]
                    &&& final(self)@ == old(self)@.drop_first()
                },
                Err(error) => {
                    &&& old(self)@.len() == 0
                    &&& error is Internal
                    &&& error->Internal_0@ == "no execution context recorded"@
                    &&& final(self)@ == old(self)@
                },
            },
    {
        match self.execution_contexts.pop_front() {
            Some(value) => Ok(value),
            None => Err(OperationError::Internal("no execution context recorded")),
        }
    }
}

impl Codec for ExecutionContextReplay {
    type V = <VecDeque<ExecutionContextSystemInfo> as Codec>::V;

    open spec fn val(&self) -> <VecDeque<ExecutionContextSystemInfo> as Codec>::V {
        vals(self@)
    }

    open spec fn valid(v: <VecDeque<ExecutionContextSystemInfo> as Codec>::V) -> bool {
        <VecDeque<ExecutionContextSystemInfo> as Codec>::valid(v)
    }

    open spec fn encoded(v: <VecDeque<ExecutionContextSystemInfo> as Codec>::V) -> Seq<u8> {
        <VecDeque<ExecutionContextSystemInfo> as Codec>::encoded(v)
    }

    open spec fn decoded(s: Input) -> (Result<<VecDeque<ExecutionContextSystemInfo> as Codec>::V, Fault>, Input) {
        <VecDeque<ExecutionContextSystemInfo> as Codec>::decoded(s)
    }

    open spec fn min_size() -> nat {
        size_of::<Self>()
    }

    fn write_into(&self, target: &mut Vec<u8>) {
        self.execution_contexts.write_into(target);
    }

    fn read_from(source: &mut BudgetedReader<SliceReader<'_>>) -> (result: Result<Self, DeserializationError>) {
        match <VecDeque<ExecutionContextSystemInfo> as Codec>::read_from(source) {
            Err(error) => Err(error),
            Ok(execution_contexts) => Ok(ExecutionContextReplay { execution_contexts }),
        }
    }

    fn min_serialized_size() -> (size: usize) {
        core::mem::size_of::<Self>()
    }

    proof fn round_trip(v: <VecDeque<ExecutionContextSystemInfo> as Codec>::V, rest: Seq<u8>, budget: nat) {
        <VecDeque<ExecutionContextSystemInfo> as Codec>::round_trip(v, rest, budget);
    }

    proof fn bytes_are_charged(s: Input) {
        <VecDeque<ExecutionContextSystemInfo> as Codec>::bytes_are_charged(s);
    }
}

// BLOCK STACK REPLAY
// ================================================================================================

/// The data needed to fully recover the state on an END operation.
#[derive(Debug, Clone, Copy, PartialEq, Eq)]
pub struct NodeEndData {
    /// The address of the node that is ending.
    pub ended_node_addr: Felt,
    /// The address of the node sitting on top of the block stack after the END operation, or 0 if
    /// the block stack is empty.
    pub prev_addr: Felt,
    /// The parent address of the node sitting on top of the block stack after the END operation,
    /// or 0 if the block stack is empty.
    pub prev_parent_addr: Felt,
}

impl Codec for NodeEndData {
    type V = <(Felt, (Felt, Felt)) as Codec>::V;

    open spec fn val(&self) -> <(Felt, (Felt, Felt)) as Codec>::V {
        (self.ended_node_addr.val(), (self.prev_addr.val(), self.prev_parent_addr.val()))
    }

    open spec fn valid(v: <(Felt, (Felt, Felt)) as Codec>::V) -> bool {
        <(Felt, (Felt, Felt)) as Codec>::valid(v)
    }

    open spec fn encoded(v: <(Felt, (Felt, Felt)) as Codec>::V) -> Seq<u8> {
        <(Felt, (Felt, Felt)) as Codec>::encoded(v)
    }

    open spec fn decoded(s: Input) -> (Result<<(Felt, (Felt, Felt)) as Codec>::V, Fault>, Input) {
        <(Felt, (Felt, Felt)) as Codec>::decoded(s)
    }

    open spec fn min_size() -> nat {
        <(Felt, (Felt, Felt)) as Codec>::min_size()
    }

    fn write_into(&self, target: &mut Vec<u8>) {
        let ghost before = target@;
        self.ended_node_addr.write_into(target);
        self.prev_addr.write_into(target);
        self.prev_parent_addr.write_into(target);
        assert(target@ =~= before + Self::encoded(self.val()));
    }

    fn read_from(source: &mut BudgetedReader<SliceReader<'_>>) -> (result: Result<Self, DeserializationError>) {
        match <(Felt, (Felt, Felt)) as Codec>::read_from(source) {
            Err(error) => Err(error),
            Ok((ended_node_addr, (prev_addr, prev_parent_addr))) => Ok(
                NodeEndData { ended_node_addr, prev_addr, prev_parent_addr },
            ),
        }
    }

    fn min_serialized_size() -> (size: usize) {
        <(Felt, (Felt, Felt)) as Codec>::min_serialized_size()
    }

    proof fn round_trip(v: <(Felt, (Felt, Felt)) as Codec>::V, rest: Seq<u8>, budget: nat) {
        <(Felt, (Felt, Felt)) as Codec>::round_trip(v, rest, budget);
    }

    proof fn bytes_are_charged(s: Input) {
        <(Felt, (Felt, Felt)) as Codec>::bytes_are_charged(s);
    }
}

impl Item for NodeEndData {
    proof fn size_is_least(v: <(Felt, (Felt, Felt)) as Codec>::V) {
        <(Felt, (Felt, Felt)) as Item>::size_is_least(v);
    }
}

/// Replay data for the block stack.
#[derive(Debug, PartialEq, Eq)]
pub struct BlockStackReplay {
    /// The parent address, recorded when a new node is started.
    node_start_parent_addr: VecDeque<Felt>,
    /// The data needed to recover the state on an END operation.
    node_end: VecDeque<NodeEndData>,
}

impl View for BlockStackReplay {
    type V = (Seq<Felt>, Seq<NodeEndData>);

    closed spec fn view(&self) -> (Seq<Felt>, Seq<NodeEndData>) {
        (self.node_start_parent_addr@, self.node_end@)
    }
}

impl Default for BlockStackReplay {
    /// A replay of nothing.
    fn default() -> (replay: BlockStackReplay)
        ensures
            replay@ == (Seq::<Felt>::empty(), Seq::<NodeEndData>::empty()),
    {
        BlockStackReplay { node_start_parent_addr: VecDeque::new(), node_end: VecDeque::new() }
    }
}

impl BlockStackReplay {
    /// Records the node's parent address.
    pub fn record_node_start_parent_addr(&mut self, parent_addr: Felt)
        ensures
            final(self)@ == (old(self)@.0.push(parent_addr), old(self)@.1),
    {
        self.node_start_parent_addr.push_back(parent_addr);
    }

    /// Records the data needed to recover the state on an END operation.
    pub fn record_node_end(&mut self, ended_node_addr: Felt, prev_addr: Felt, prev_parent_addr: Felt)
        ensures
            final(self)@ == (
                old(self)@.0,
                old(self)@.1.push(NodeEndData { ended_node_addr, prev_addr, prev_parent_addr }),
            ),
    {
        self.node_end.push_back(NodeEndData { ended_node_addr, prev_addr, prev_parent_addr });
    }

    /// Replays the node's parent address.
    pub fn replay_node_start_parent_addr(&mut self) -> (result: Result<Felt, ExecutionError>)
        ensures
            match result {
                Ok(value) => {
                    &&& old(self)@.0.len() > 0
                    &&& value == old(self)@.0[0]
                    &&& final(self)@ == (old(self)@.0.drop_first(), old(self)@.1)
                },
                Err(error) => {
                    &&& old(self)@.0.len() == 0
                    &&& error is Internal
                    &&& error->Internal_0@ == "no node start parent address recorded"@
                    &&& final(self)@ == old(self)@
                },
            },
    {
        match self.node_start_parent_addr.pop_front() {
            Some(value) => Ok(value),
            None => Err(ExecutionError::Internal("no node start parent address recorded")),
        }
    }

    /// Replays the data needed to recover the state on an END operation.
    pub fn replay_node_end(&mut self) -> (result: Result<NodeEndData, ExecutionError>)
        ensures
            match result {
                Ok(value) => {
                    &&& old(self)@.1.len() > 0
                    &&& value == old(self)@.1[0]
                    &&& final(self)@ == (old(self)@.0, old(self)@.1.drop_first())
                },
                Err(error) => {
                    &&& old(self)@.1.len() == 0
                    &&& error is Internal
                    &&& error->Internal_0@ == "no node address and flags recorded"@
                    &&& final(self)@ == old(self)@
                },
            },
    {
        match self.node_end.pop_front() {
            Some(value) => Ok(value),
            None => Err(ExecutionError::Internal("no node address and flags recorded")),
        }
    }
}

impl Codec for BlockStackReplay {
    type V = <(VecDeque<Felt>, VecDeque<NodeEndData>) as Codec>::V;

    open spec fn val(&self) -> <(VecDeque<Felt>, VecDeque<NodeEndData>) as Codec>::V {
        (vals(self@.0), vals(self@.1))
    }

    open spec fn valid(v: <(VecDeque<Felt>, VecDeque<NodeEndData>) as Codec>::V) -> bool {
        <(VecDeque<Felt>, VecDeque<NodeEndData>) as Codec>::valid(v)
    }

    open spec fn encoded(v: <(VecDeque<Felt>, VecDeque<NodeEndData>) as Codec>::V) -> Seq<u8> {
        <(VecDeque<Felt>, VecDeque<NodeEndData>) as Codec>::encoded(v)
    }

    open spec fn decoded(s: Input) -> (Result<<(VecDeque<Felt>, VecDeque<NodeEndData>) as Codec>::V, Fault>, Input) {
        <(VecDeque<Felt>, VecDeque<NodeEndData>) as Codec>::decoded(s)
    }

    open spec fn min_size() -> nat {
        size_of::<Self>()
    }

    fn write_into(&self, target: &mut Vec<u8>) {
        let ghost before = target@;
        self.node_start_parent_addr.write_into(target);
        self.node_end.write_into(target);
        assert(target@ =~= before + Self::encoded(self.val()));
    }

    fn read_from(source: &mut BudgetedReader<SliceReader<'_>>) -> (result: Result<Self, DeserializationError>) {
        match <(VecDeque<Felt>, VecDeque<NodeEndData>) as Codec>::read_from(source) {
            Err(error) => Err(error),
            Ok((node_start_parent_addr, node_end)) => Ok(BlockStackReplay { node_start_parent_addr, node_end }),
        }
    }

    fn min_serialized_size() -> (size: usize) {
        core::mem::size_of::<Self>()
    }

    proof fn round_trip(v: <(VecDeque<Felt>, VecDeque<NodeEndData>) as Codec>::V, rest: Seq<u8>, budget: nat) {
        <(VecDeque<Felt>, VecDeque<NodeEndData>) as Codec>::round_trip(v, rest, budget);
    }

    proof fn bytes_are_charged(s: Input) {
        <(VecDeque<Felt>, VecDeque<NodeEndData>) as Codec>::bytes_are_charged(s);
    }
}

/// The flags written in the second word of the hasher state for END operations.
#[derive(Debug, Clone, Copy)]
pub struct NodeFlags {
    is_loop_body: bool,
    is_loop: bool,
    is_call: bool,
    is_syscall: bool,
}

impl View for NodeFlags {
    type V = (bool, bool, bool, bool);

    closed spec fn view(&self) -> (bool, bool, bool, bool) {
        (self.is_loop_body, self.is_loop, self.is_call, self.is_syscall)
    }
}

/// One for what is so, and zero for what is not.
pub open spec fn indicator(flag: bool) -> u64 {
    if flag {
        1
    } else {
        0
    }
}

impl NodeFlags {
    /// The flags of a node.
    pub fn new(is_loop_body: bool, is_loop: bool, is_call: bool, is_syscall: bool) -> (flags: NodeFlags)
        ensures
            flags@ == (is_loop_body, is_loop, is_call, is_syscall),
    {
        NodeFlags { is_loop_body, is_loop, is_call, is_syscall }
    }

    /// One if this node is a body of a LOOP node; otherwise zero.
    pub fn is_loop_body(&self) -> (flag: Felt)
        ensures
            flag@ == indicator(self@.0),
    {
        if self.is_loop_body {
            Felt::one()
        } else {
            Felt::zero()
        }
    }

    /// One if this END is closing a LOOP node; otherwise zero.
    pub fn is_loop(&self) -> (flag: Felt)
        ensures
            flag@ == indicator(self@.1),
    {
        if self.is_loop {
            Felt::one()
        } else {
            Felt::zero()
        }
    }

    /// One if this node is a CALL or DYNCALL; otherwise zero.
    pub fn is_call(&self) -> (flag: Felt)
        ensures
            flag@ == indicator(self@.2),
    {
        if self.is_call {
            Felt::one()
        } else {
            Felt::zero()
        }
    }

    /// One if this node is a SYSCALL; otherwise zero.
    pub fn is_syscall(&self) -> (flag: Felt)
        ensures
            flag@ == indicator(self@.3),
    {
        if self.is_syscall {
            Felt::one()
        } else {
            Felt::zero()
        }
    }

    /// The flags in the order in which they are written to the second word of the hasher state for
    /// the trace row of an END operation.
    pub fn to_hasher_state_second_word(&self) -> (word: Word)
        ensures
            word.a@ == indicator(self@.0),
            word.b@ == indicator(self@.1),
            word.c@ == indicator(self@.2),
            word.d@ == indicator(self@.3),
    {
        Word::new(self.is_loop_body(), self.is_loop(), self.is_call(), self.is_syscall())
    }
}

// MAST FOREST RESOLUTION REPLAY
// ================================================================================================

/// Records and replays which forest, and which node of it, a procedure of another forest was resolved
/// to.
#[derive(Debug, PartialEq, Eq)]
pub struct MastForestResolutionReplay {
    mast_forest_resolutions: VecDeque<(MastNodeId, MastForestId)>,
}

impl View for MastForestResolutionReplay {
    type V = Seq<(MastNodeId, MastForestId)>;

    closed spec fn view(&self) -> Seq<(MastNodeId, MastForestId)> {
        self.mast_forest_resolutions@
    }
}

impl Default for MastForestResolutionReplay {
    /// A replay of nothing.
    fn default() -> (replay: MastForestResolutionReplay)
        ensures
            replay@ == Seq::<(MastNodeId, MastForestId)>::empty(),
    {
        MastForestResolutionReplay { mast_forest_resolutions: VecDeque::new() }
    }
}

impl MastForestResolutionReplay {
    /// Records a resolution of a node with the id of its forest.
    pub fn record_resolution(&mut self, node_id: MastNodeId, forest_id: MastForestId)
        ensures
            final(self)@ == old(self)@.push((node_id, forest_id)),
    {
        self.mast_forest_resolutions.push_back((node_id, forest_id));
    }

    /// Replays the next recorded resolution, returning both the node and the forest.
    pub fn replay_resolution(&mut self) -> (result: Result<(MastNodeId, MastForestId), ExecutionError>)
        ensures
            match result {
                Ok(value) => {
                    &&& old(self)@.len() > 0
                    &&& value == old(self)@[0]
                    &&& final(self)@ == old(self)@.drop_first()
                },
                Err(error) => {
                    &&& old(self)@.len() == 0
                    &&& error is Internal
                    &&& error->Internal_0@ == "no MastForest resolutions recorded"@
                    &&& final(self)@ == old(self)@
                },
            },
    {
        match self.mast_forest_resolutions.pop_front() {
            Some(value) => Ok(value),
            None => Err(ExecutionError::Internal("no MastForest resolutions recorded")),
        }
    }

    /// The forests of the recorded resolutions, in order.
    pub fn iter_forest_ids(&self) -> (ids: Vec<MastForestId>)
        ensures
            ids@ == self@.map_values(|resolution: (MastNodeId, MastForestId)| resolution.1),
    {
        let ghost all = self@.map_values(|resolution: (MastNodeId, MastForestId)| resolution.1);
        let mut ids: Vec<MastForestId> = Vec::new();
        let mut i: usize = 0;
        while i < self.mast_forest_resolutions.len()
            invariant
                i <= self@.len(),
                self@ == self.mast_forest_resolutions@,
                all == self@.map_values(|resolution: (MastNodeId, MastForestId)| resolution.1),
                ids@ == all.take(i as int),
            decreases self@.len() - i,
        {
            ids.push(self.mast_forest_resolutions[i].1);
            i += 1;
            assert(all.take(i as int) =~= all.take(i - 1).push(all[i - 1]));
        }
        assert(all.take(i as int) =~= all);
        ids
    }
}

impl Codec for MastForestResolutionReplay {
    type V = <VecDeque<(MastNodeId, MastForestId)> as Codec>::V;

    open spec fn val(&self) -> <VecDeque<(MastNodeId, MastForestId)> as Codec>::V {
        vals(self@)
    }

    open spec fn valid(v: <VecDeque<(MastNodeId, MastForestId)> as Codec>::V) -> bool {
        <VecDeque<(MastNodeId, MastForestId)> as Codec>::valid(v)
    }

    open spec fn encoded(v: <VecDeque<(MastNodeId, MastForestId)> as Codec>::V) -> Seq<u8> {
        <VecDeque<(MastNodeId, MastForestId)> as Codec>::encoded(v)
    }

    open spec fn decoded(s: Input) -> (Result<<VecDeque<(MastNodeId, MastForestId)> as Codec>::V, Fault>, Input) {
        <VecDeque<(MastNodeId, MastForestId)> as Codec>::decoded(s)
    }

    open spec fn min_size() -> nat {
        size_of::<Self>()
    }

    fn write_into(&self, target: &mut Vec<u8>) {
        self.mast_forest_resolutions.write_into(target);
    }

    fn read_from(source: &mut BudgetedReader<SliceReader<'_>>) -> (result: Result<Self, DeserializationError>) {
        match <VecDeque<(MastNodeId, MastForestId)> as Codec>::read_from(source) {
            Err(error) => Err(error),
            Ok(mast_forest_resolutions) => Ok(MastForestResolutionReplay { mast_forest_resolutions }),
        }
    }

    fn min_serialized_size() -> (size: usize) {
        core::mem::size_of::<Self>()
    }

    proof fn round_trip(v: <VecDeque<(MastNodeId, MastForestId)> as Codec>::V, rest: Seq<u8>, budget: nat) {
        <VecDeque<(MastNodeId, MastForestId)> as Codec>::round_trip(v, rest, budget);
    }

    proof fn bytes_are_charged(s: Input) {
        <VecDeque<(MastNodeId, MastForestId)> as Codec>::bytes_are_charged(s);
    }
}

// MEMORY REPLAY
// ================================================================================================

/// A field element with its address, the context and the clock cycle.
pub type ElementAccess = (Felt, Felt, ContextId, RowIndex);

/// A word with its address, the context and the clock cycle.
pub type WordAccess = (Word, Felt, ContextId, RowIndex);

/// Reads a queue of memory accesses.
pub open spec fn decoded_accesses<T: Codec>(s: Input, what: Seq<char>) -> (Result<Seq<T::V>, Fault>, Input) {
    decoded_counted::<T>(decoded_count(s, what, " exceeds reader allocation bound "@, T::min_size()))
}

/// Reads a queue of element accesses and one of word accesses.
pub open spec fn decoded_memory(s: Input) -> (
    Result<AccessesTy, Fault>,
    Input,
) {
    match decoded_accesses::<ElementAccess>(s, "memory element replay length "@) {
        (Err(fault), rest) => (Err(fault), rest),
        (Ok(elements), rest) => match decoded_accesses::<WordAccess>(rest, "memory word replay length "@) {
            (Err(fault), rest) => (Err(fault), rest),
            (Ok(words), rest) => (Ok((elements, words)), rest),
        },
    }
}

/// The bytes of a queue of element accesses and one of word accesses.
pub open spec fn encoded_memory(
    v: AccessesTy,
) -> Seq<u8> {
    encoded_queue::<ElementAccess>(v.0) + encoded_queue::<WordAccess>(v.1)
}

/// The queues can be read back.
pub open spec fn valid_memory(v: AccessesTy) -> bool {
    <VecDeque<ElementAccess> as Codec>::valid(v.0) && <VecDeque<WordAccess> as Codec>::valid(v.1)
}

fn read_memory_element_queue(source: &mut BudgetedReader<SliceReader<'_>>) -> (result: Result<
    VecDeque<ElementAccess>,
    DeserializationError,
>)
    ensures
        input(*final(source)) == decoded_accesses::<ElementAccess>(input(*old(source)), "memory element replay length "@).1,
        match (result, decoded_accesses::<ElementAccess>(input(*old(source)), "memory element replay length "@).0) {
            (Ok(queue), Ok(expected)) => vals(queue@) == expected,
            (Err(error), Err(fault)) => error.fault() == fault,
            _ => false,
        },
{
    match read_count(
        source,
        "memory element replay length ",
        " exceeds reader allocation bound ",
        ElementAccess::min_serialized_size(),
    ) {
        Err(error) => Err(error),
        Ok(count) => read_items(source, count),
    }
}

fn read_memory_word_queue(source: &mut BudgetedReader<SliceReader<'_>>) -> (result: Result<
    VecDeque<WordAccess>,
    DeserializationError,
>)
    ensures
        input(*final(source)) == decoded_accesses::<WordAccess>(input(*old(source)), "memory word replay length "@).1,
        match (result, decoded_accesses::<WordAccess>(input(*old(source)), "memory word replay length "@).0) {
            (Ok(queue), Ok(expected)) => vals(queue@) == expected,
            (Err(error), Err(fault)) => error.fault() == fault,
            _ => false,
        },
{
    match read_count(
        source,
        "memory word replay length ",
        " exceeds reader allocation bound ",
        WordAccess::min_serialized_size(),
    ) {
        Err(error) => Err(error),
        Ok(count) => read_items(source, count),
    }
}

proof fn memory_is_charged(s: Input)
    ensures
        decoded_memory(s).0 is Ok ==> charged(s, decoded_memory(s).1),
{
    let bound = " exceeds reader allocation bound "@;
    count_is_charged::<ElementAccess>(s, "memory element replay length "@, bound);
    let rest = decoded_accesses::<ElementAccess>(s, "memory element replay length "@).1;
    count_is_charged::<WordAccess>(rest, "memory word replay length "@, bound);
    if decoded_memory(s).0 is Ok {
        charged_twice(s, rest, decoded_memory(s).1);
    }
}

proof fn memory_round_trip(
    v: AccessesTy,
    rest: Seq<u8>,
    budget: nat,
)
    requires
        valid_memory(v),
        encoded_memory(v).len() <= budget,
    ensures
        decoded_memory(Input { bytes: encoded_memory(v) + rest, budget }) == (
            Ok::<AccessesTy, Fault>(v),
            Input { bytes: rest, budget: (budget - encoded_memory(v).len()) as nat },
        ),
{
    let (a, b) = (encoded_queue::<ElementAccess>(v.0), encoded_queue::<WordAccess>(v.1));
    assert(a + b + rest =~= a + (b + rest));
    queue_round_trip::<ElementAccess>(v.0, b + rest, budget);
    queue_round_trip::<WordAccess>(v.1, rest, (budget - a.len()) as nat);
}

/// Records and replays all the reads made to memory.
///
/// Elements and words are recorded with their addresses, and are assumed to be read from the same
/// addresses that they were recorded at.
#[derive(Debug, PartialEq, Eq)]
pub struct MemoryReadsReplay {
    elements_read: VecDeque<ElementAccess>,
    words_read: VecDeque<WordAccess>,
}

impl View for MemoryReadsReplay {
    type V = (Seq<ElementAccess>, Seq<WordAccess>);

    closed spec fn view(&self) -> (Seq<ElementAccess>, Seq<WordAccess>) {
        (self.elements_read@, self.words_read@)
    }
}

impl Default for MemoryReadsReplay {
    /// A replay of nothing.
    fn default() -> (replay: MemoryReadsReplay)
        ensures
            replay@ == (Seq::<ElementAccess>::empty(), Seq::<WordAccess>::empty()),
    {
        MemoryReadsReplay { elements_read: VecDeque::new(), words_read: VecDeque::new() }
    }
}

impl MemoryReadsReplay {
    /// Records an element read from memory.
    pub fn record_read_element(&mut self, element: Felt, addr: Felt, ctx: ContextId, clk: RowIndex)
        ensures
            final(self)@ == (old(self)@.0.push((element, addr, ctx, clk)), old(self)@.1),
    {
        self.elements_read.push_back((element, addr, ctx, clk));
    }

    /// Records a word read from memory.
    pub fn record_read_word(&mut self, word: Word, addr: Felt, ctx: ContextId, clk: RowIndex)
        ensures
            final(self)@ == (old(self)@.0, old(self)@.1.push((word, addr, ctx, clk))),
    {
        self.words_read.push_back((word, addr, ctx, clk));
    }

    /// Replays the reading of an element, which was recorded at the same address.
    pub fn replay_read_element(&mut self, addr: Felt) -> (result: Result<Felt, MemoryError>)
        requires
            old(self)@.0.len() > 0 ==> old(self)@.0[0].1 == addr,
        ensures
            match result {
                Ok(element) => {
                    &&& old(self)@.0.len() > 0
                    &&& element == old(self)@.0[0].0
                    &&& final(self)@ == (old(self)@.0.drop_first(), old(self)@.1)
                },
                Err(error) => {
                    &&& old(self)@.0.len() == 0
                    &&& error is MemoryReadFailed
                    &&& error->MemoryReadFailed_0@ == "memory elements replay is empty"@
                    &&& final(self)@ == old(self)@
                },
            },
    {
        match self.elements_read.pop_front() {
            Some(access) => Ok(access.0),
            None => Err(MemoryError::MemoryReadFailed(String::from_str("memory elements replay is empty"))),
        }
    }

    /// Replays the reading of a word, which was recorded at the same address.
    pub fn replay_read_word(&mut self, addr: Felt) -> (result: Result<Word, MemoryError>)
        requires
            old(self)@.1.len() > 0 ==> old(self)@.1[0].1 == addr,
        ensures
            match result {
                Ok(word) => {
                    &&& old(self)@.1.len() > 0
                    &&& word == old(self)@.1[0].0
                    &&& final(self)@ == (old(self)@.0, old(self)@.1.drop_first())
                },
                Err(error) => {
                    &&& old(self)@.1.len() == 0
                    &&& error is MemoryReadFailed
                    &&& error->MemoryReadFailed_0@ == "memory words replay is empty"@
                    &&& final(self)@ == old(self)@
                },
            },
    {
        match self.words_read.pop_front() {
            Some(access) => Ok(access.0),
            None => Err(MemoryError::MemoryReadFailed(String::from_str("memory words replay is empty"))),
        }
    }

    /// The recorded element reads, in order.
    pub fn iter_read_elements(&self) -> (accesses: &VecDeque<ElementAccess>)
        ensures
            accesses@ == self@.0,
    {
        &self.elements_read
    }

    /// The recorded word reads, in order.
    pub fn iter_read_words(&self) -> (accesses: &VecDeque<WordAccess>)
        ensures
            accesses@ == self@.1,
    {
        &self.words_read
    }

    /// The total number of trace rows contributed by recorded reads, or `None` on overflow.
    pub fn num_accesses(&self) -> (count: Option<usize>)
        ensures
            count == if self@.0.len() + self@.1.len() <= usize::MAX {
                Some((self@.0.len() + self@.1.len()) as usize)
            } else {
                None
            },
    {
        self.elements_read.len().checked_add(self.words_read.len())
    }

    /// Reads an element as the memory does: from what was recorded.
    pub fn read_element(&mut self, _ctx: ContextId, addr: Felt) -> (result: Result<Felt, MemoryError>)
        requires
            old(self)@.0.len() > 0 ==> old(self)@.0[0].1 == addr,
        ensures
            match result {
                Ok(element) => {
                    &&& old(self)@.0.len() > 0
                    &&& element == old(self)@.0[0].0
                    &&& final(self)@ == (old(self)@.0.drop_first(), old(self)@.1)
                },
                Err(error) => {
                    &&& old(self)@.0.len() == 0
                    &&& error is MemoryReadFailed
                    &&& error->MemoryReadFailed_0@ == "memory elements replay is empty"@
                    &&& final(self)@ == old(self)@
                },
            },
    {
        self.replay_read_element(addr)
    }

    /// Reads a word as the memory does: from what was recorded.
    pub fn read_word(&mut self, _ctx: ContextId, addr: Felt, _clk: RowIndex) -> (result: Result<Word, MemoryError>)
        requires
            old(self)@.1.len() > 0 ==> old(self)@.1[0].1 == addr,
        ensures
            match result {
                Ok(word) => {
                    &&& old(self)@.1.len() > 0
                    &&& word == old(self)@.1[0].0
                    &&& final(self)@ == (old(self)@.0, old(self)@.1.drop_first())
                },
                Err(error) => {
                    &&& old(self)@.1.len() == 0
                    &&& error is MemoryReadFailed
                    &&& error->MemoryReadFailed_0@ == "memory words replay is empty"@
                    &&& final(self)@ == old(self)@
                },
            },
    {
        self.replay_read_word(addr)
    }

    /// Writes nothing: a replay holds what was read.
    pub fn write_element(&mut self, _ctx: ContextId, _addr: Felt, _element: Felt) -> (result: Result<(), MemoryError>)
        ensures
            result is Ok,
            *final(self) == *old(self),
    {
        Ok(())
    }

    /// Writes nothing: a replay holds what was read.
    pub fn write_word(&mut self, _ctx: ContextId, _addr: Felt, _clk: RowIndex, _word: Word) -> (result: Result<
        (),
        MemoryError,
    >)
        ensures
            result is Ok,
            *final(self) == *old(self),
    {
        Ok(())
    }
}

/// What recorded accesses stand for.
pub type AccessesTy = (Seq<<ElementAccess as Codec>::V>, Seq<<WordAccess as Codec>::V>);

impl Codec for MemoryReadsReplay {
    type V = AccessesTy;

    open spec fn val(&self) -> AccessesTy {
        (vals(self@.0), vals(self@.1))
    }

    open spec fn valid(v: AccessesTy) -> bool {
        valid_memory(v)
    }

    open spec fn encoded(v: AccessesTy) -> Seq<u8> {
        encoded_memory(v)
    }

    open spec fn decoded(s: Input) -> (Result<AccessesTy, Fault>, Input) {
        decoded_memory(s)
    }

    open spec fn min_size() -> nat {
        size_of::<Self>()
    }

    fn write_into(&self, target: &mut Vec<u8>) {
        let ghost before = target@;
        write_queue(&self.elements_read, target);
        write_queue(&self.words_read, target);
        assert(target@ =~= before + Self::encoded(self.val()));
    }

    fn read_from(source: &mut BudgetedReader<SliceReader<'_>>) -> (result: Result<Self, DeserializationError>) {
        let elements_read = match read_memory_element_queue(source) {
            Err(error) => {
                return Err(error);
            },
            Ok(queue) => queue,
        };
        match read_memory_word_queue(source) {
            Err(error) => Err(error),
            Ok(words_read) => Ok(MemoryReadsReplay { elements_read, words_read }),
        }
    }

    fn min_serialized_size() -> (size: usize) {
        core::mem::size_of::<Self>()
    }

    proof fn round_trip(v: AccessesTy, rest: Seq<u8>, budget: nat) {
        memory_round_trip(v, rest, budget);
    }

    proof fn bytes_are_charged(s: Input) {
        memory_is_charged(s);
    }
}

/// Records all the writes made to memory.
#[derive(Debug, PartialEq, Eq)]
pub struct MemoryWritesReplay {
    elements_written: VecDeque<ElementAccess>,
    words_written: VecDeque<WordAccess>,
}

impl View for MemoryWritesReplay {
    type V = (Seq<ElementAccess>, Seq<WordAccess>);

    closed spec fn view(&self) -> (Seq<ElementAccess>, Seq<WordAccess>) {
        (self.elements_written@, self.words_written@)
    }
}

impl Default for MemoryWritesReplay {
    /// A replay of nothing.
    fn default() -> (replay: MemoryWritesReplay)
        ensures
            replay@ == (Seq::<ElementAccess>::empty(), Seq::<WordAccess>::empty()),
    {
        MemoryWritesReplay { elements_written: VecDeque::new(), words_written: VecDeque::new() }
    }
}

impl MemoryWritesReplay {
    /// Records an element written to memory.
    pub fn record_write_element(&mut self, element: Felt, addr: Felt, ctx: ContextId, clk: RowIndex)
        ensures
            final(self)@ == (old(self)@.0.push((element, addr, ctx, clk)), old(self)@.1),
    {
        self.elements_written.push_back((element, addr, ctx, clk));
    }

    /// Records a word written to memory.
    pub fn record_write_word(&mut self, word: Word, addr: Felt, ctx: ContextId, clk: RowIndex)
        ensures
            final(self)@ == (old(self)@.0, old(self)@.1.push((word, addr, ctx, clk))),
    {
        self.words_written.push_back((word, addr, ctx, clk));
    }

    /// The recorded element writes, in order.
    pub fn iter_elements_written(&self) -> (accesses: &VecDeque<ElementAccess>)
        ensures
            accesses@ == self@.0,
    {
        &self.elements_written
    }

    /// The recorded word writes, in order.
    pub fn iter_words_written(&self) -> (accesses: &VecDeque<WordAccess>)
        ensures
            accesses@ == self@.1,
    {
        &self.words_written
    }

    /// The total number of trace rows contributed by recorded writes, or `None` on overflow.
    pub fn num_accesses(&self) -> (count: Option<usize>)
        ensures
            count == if self@.0.len() + self@.1.len() <= usize::MAX {
                Some((self@.0.len() + self@.1.len()) as usize)
            } else {
                None
            },
    {
        self.elements_written.len().checked_add(self.words_written.len())
    }
}

impl Codec for MemoryWritesReplay {
    type V = AccessesTy;

    open spec fn val(&self) -> AccessesTy {
        (vals(self@.0), vals(self@.1))
    }

    open spec fn valid(v: AccessesTy) -> bool {
        valid_memory(v)
    }

    open spec fn encoded(v: AccessesTy) -> Seq<u8> {
        encoded_memory(v)
    }

    open spec fn decoded(s: Input) -> (Result<AccessesTy, Fault>, Input) {
        decoded_memory(s)
    }

    open spec fn min_size() -> nat {
        size_of::<Self>()
    }

    fn write_into(&self, target: &mut Vec<u8>) {
        let ghost before = target@;
        write_queue(&self.elements_written, target);
        write_queue(&self.words_written, target);
        assert(target@ =~= before + Self::encoded(self.val()));
    }

    fn read_from(source: &mut BudgetedReader<SliceReader<'_>>) -> (result: Result<Self, DeserializationError>) {
        let elements_written = match read_memory_element_queue(source) {
            Err(error) => {
                return Err(error);
            },
            Ok(queue) => queue,
        };
        match read_memory_word_queue(source) {
            Err(error) => Err(error),
            Ok(words_written) => Ok(MemoryWritesReplay { elements_written, words_written }),
        }
    }

    fn min_serialized_size() -> (size: usize) {
        core::mem::size_of::<Self>()
    }

    proof fn round_trip(v: AccessesTy, rest: Seq<u8>, budget: nat) {
        memory_round_trip(v, rest, budget);
    }

    proof fn bytes_are_charged(s: Input) {
        memory_is_charged(s);
    }
}

// ADVICE REPLAY
// ================================================================================================

/// Records and replays what was popped from the advice stack.
#[derive(Debug, PartialEq, Eq)]
pub struct AdviceReplay {
    stack_pops: VecDeque<Felt>,
    stack_word_pops: VecDeque<Word>,
    stack_dword_pops: VecDeque<[Word; 2]>,
}

impl View for AdviceReplay {
    type V = (Seq<Felt>, Seq<Word>, Seq<[Word; 2]>);

    closed spec fn view(&self) -> (Seq<Felt>, Seq<Word>, Seq<[Word; 2]>) {
        (self.stack_pops@, self.stack_word_pops@, self.stack_dword_pops@)
    }
}

impl Default for AdviceReplay {
    /// A replay of nothing.
    fn default() -> (replay: AdviceReplay)
        ensures
            replay@ == (Seq::<Felt>::empty(), Seq::<Word>::empty(), Seq::<[Word; 2]>::empty()),
    {
        AdviceReplay {
            stack_pops: VecDeque::new(),
            stack_word_pops: VecDeque::new(),
            stack_dword_pops: VecDeque::new(),
        }
    }
}

impl AdviceReplay {
    /// Records the value returned by a pop_stack operation.
    pub fn record_pop_stack(&mut self, value: Felt)
        ensures
            final(self)@ == (old(self)@.0.push(value), old(self)@.1, old(self)@.2),
    {
        self.stack_pops.push_back(value);
    }

    /// Records the word returned by a pop_stack_word operation.
    pub fn record_pop_stack_word(&mut self, word: Word)
        ensures
            final(self)@ == (old(self)@.0, old(self)@.1.push(word), old(self)@.2),
    {
        self.stack_word_pops.push_back(word);
    }

    /// Records the double word returned by a pop_stack_dword operation.
    pub fn record_pop_stack_dword(&mut self, dword: [Word; 2])
        ensures
            final(self)@ == (old(self)@.0, old(self)@.1, old(self)@.2.push(dword)),
    {
        self.stack_dword_pops.push_back(dword);
    }

    /// Replays a pop_stack operation, returning the previously recorded value.
    pub fn replay_pop_stack(&mut self) -> (result: Result<Felt, ExecutionError>)
        ensures
            match result {
                Ok(value) => {
                    &&& old(self)@.0.len() > 0
                    &&& value == old(self)@.0[0]
                    &&& final(self)@ == (old(self)@.0.drop_first(), old(self)@.1, old(self)@.2)
                },
                Err(error) => {
                    &&& old(self)@.0.len() == 0
                    &&& error is Internal
                    &&& error->Internal_0@ == "no stack pop operations recorded"@
                    &&& final(self)@ == old(self)@
                },
            },
    {
        match self.stack_pops.pop_front() {
            Some(value) => Ok(value),
            None => Err(ExecutionError::Internal("no stack pop operations recorded")),
        }
    }

    /// Replays a pop_stack_word operation, returning the previously recorded word.
    pub fn replay_pop_stack_word(&mut self) -> (result: Result<Word, ExecutionError>)
        ensures
            match result {
                Ok(value) => {
                    &&& old(self)@.1.len() > 0
                    &&& value == old(self)@.1[0]
                    &&& final(self)@ == (old(self)@.0, old(self)@.1.drop_first(), old(self)@.2)
                },
                Err(error) => {
                    &&& old(self)@.1.len() == 0
                    &&& error is Internal
                    &&& error->Internal_0@ == "no stack word pop operations recorded"@
                    &&& final(self)@ == old(self)@
                },
            },
    {
        match self.stack_word_pops.pop_front() {
            Some(value) => Ok(value),
            None => Err(ExecutionError::Internal("no stack word pop operations recorded")),
        }
    }

    /// Replays a pop_stack_dword operation, returning the previously recorded double word.
    pub fn replay_pop_stack_dword(&mut self) -> (result: Result<[Word; 2], ExecutionError>)
        ensures
            match result {
                Ok(value) => {
                    &&& old(self)@.2.len() > 0
                    &&& value == old(self)@.2[0]
                    &&& final(self)@ == (old(self)@.0, old(self)@.1, old(self)@.2.drop_first())
                },
                Err(error) => {
                    &&& old(self)@.2.len() == 0
                    &&& error is Internal
                    &&& error->Internal_0@ == "no stack dword pop operations recorded"@
                    &&& final(self)@ == old(self)@
                },
            },
    {
        match self.stack_dword_pops.pop_front() {
            Some(value) => Ok(value),
            None => Err(ExecutionError::Internal("no stack dword pop operations recorded")),
        }
    }

    /// Pops what was recorded, or fails as an empty advice stack does.
    pub fn pop_stack(&mut self) -> (result: Result<Felt, AdviceError>)
        ensures
            match result {
                Ok(value) => {
                    &&& old(self)@.0.len() > 0
                    &&& value == old(self)@.0[0]
                    &&& final(self)@ == (old(self)@.0.drop_first(), old(self)@.1, old(self)@.2)
                },
                Err(error) => {
                    &&& old(self)@.0.len() == 0
                    &&& error == AdviceError::StackReadFailed
                    &&& final(self)@ == old(self)@
                },
            },
    {
        match self.replay_pop_stack() {
            Ok(value) => Ok(value),
            Err(_) => Err(AdviceError::StackReadFailed),
        }
    }

    /// Pops what was recorded, or fails as an empty advice stack does.
    pub fn pop_stack_word(&mut self) -> (result: Result<Word, AdviceError>)
        ensures
            match result {
                Ok(value) => {
                    &&& old(self)@.1.len() > 0
                    &&& value == old(self)@.1[0]
                    &&& final(self)@ == (old(self)@.0, old(self)@.1.drop_first(), old(self)@.2)
                },
                Err(error) => {
                    &&& old(self)@.1.len() == 0
                    &&& error == AdviceError::StackReadFailed
                    &&& final(self)@ == old(self)@
                },
            },
    {
        match self.replay_pop_stack_word() {
            Ok(value) => Ok(value),
            Err(_) => Err(AdviceError::StackReadFailed),
        }
    }

    /// Pops what was recorded, or fails as an empty advice stack does.
    pub fn pop_stack_dword(&mut self) -> (result: Result<[Word; 2], AdviceError>)
        ensures
            match result {
                Ok(value) => {
                    &&& old(self)@.2.len() > 0
                    &&& value == old(self)@.2[0]
                    &&& final(self)@ == (old(self)@.0, old(self)@.1, old(self)@.2.drop_first())
                },
                Err(error) => {
                    &&& old(self)@.2.len() == 0
                    &&& error == AdviceError::StackReadFailed
                    &&& final(self)@ == old(self)@
                },
            },
    {
        match self.replay_pop_stack_dword() {
            Ok(value) => Ok(value),
            Err(_) => Err(AdviceError::StackReadFailed),
        }
    }

    /// Gives no Merkle path, as Merkle paths are ignored when a trace is generated.
    pub fn get_merkle_path(&self, _root: Word, _depth: Felt, _index: Felt) -> (result: Result<
        Option<MerklePath>,
        AdviceError,
    >)
        ensures
            result == Ok::<Option<MerklePath>, AdviceError>(None),
    {
        Ok(None)
    }

    /// Gives no Merkle path, as Merkle paths are ignored when a trace is generated. Nothing changes.
    pub fn update_merkle_node(&mut self, _root: Word, _depth: Felt, _index: Felt, _value: Word) -> (result: Result<
        Option<MerklePath>,
        AdviceError,
    >)
        ensures
            result == Ok::<Option<MerklePath>, AdviceError>(None),
            final(self)@ == old(self)@,
    {
        Ok(None)
    }
}

/// The queues of an [`AdviceReplay`].
pub type AdviceQueues = (VecDeque<Felt>, (VecDeque<Word>, VecDeque<[Word; 2]>));

impl Codec for AdviceReplay {
    type V = <AdviceQueues as Codec>::V;

    open spec fn val(&self) -> <AdviceQueues as Codec>::V {
        (vals(self@.0), (vals(self@.1), vals(self@.2)))
    }

    open spec fn valid(v: <AdviceQueues as Codec>::V) -> bool {
        <AdviceQueues as Codec>::valid(v)
    }

    open spec fn encoded(v: <AdviceQueues as Codec>::V) -> Seq<u8> {
        <AdviceQueues as Codec>::encoded(v)
    }

    open spec fn decoded(s: Input) -> (Result<<AdviceQueues as Codec>::V, Fault>, Input) {
        <AdviceQueues as Codec>::decoded(s)
    }

    open spec fn min_size() -> nat {
        size_of::<Self>()
    }

    fn write_into(&self, target: &mut Vec<u8>) {
        let ghost before = target@;
        self.stack_pops.write_into(target);
        self.stack_word_pops.write_into(target);
        self.stack_dword_pops.write_into(target);
        assert(target@ =~= before + Self::encoded(self.val()));
    }

    fn read_from(source: &mut BudgetedReader<SliceReader<'_>>) -> (result: Result<Self, DeserializationError>) {
        match <AdviceQueues as Codec>::read_from(source) {
            Err(error) => Err(error),
            Ok((stack_pops, (stack_word_pops, stack_dword_pops))) => Ok(
                AdviceReplay { stack_pops, stack_word_pops, stack_dword_pops },
            ),
        }
    }

    fn min_serialized_size() -> (size: usize) {
        core::mem::size_of::<Self>()
    }

    proof fn round_trip(v: <AdviceQueues as Codec>::V, rest: Seq<u8>, budget: nat) {
        <AdviceQueues as Codec>::round_trip(v, rest, budget);
    }

    proof fn bytes_are_charged(s: Input) {
        <AdviceQueues as Codec>::bytes_are_charged(s);
    }
}

// BITWISE REPLAY
// ================================================================================================

/// The different bitwise operations that can be recorded.
#[derive(Debug, Clone, Copy, PartialEq, Eq, Structural)]
pub enum BitwiseOp {
    U32And,
    U32Xor,
}

impl Codec for BitwiseOp {
    type V = BitwiseOp;

    open spec fn val(&self) -> BitwiseOp {
        *self
    }

    open spec fn valid(v: BitwiseOp) -> bool {
        true
    }

    open spec fn encoded(v: BitwiseOp) -> Seq<u8> {
        match v {
            BitwiseOp::U32And => u8::encoded(0),
            BitwiseOp::U32Xor => u8::encoded(1),
        }
    }

    open spec fn decoded(s: Input) -> (Result<BitwiseOp, Fault>, Input) {
        match u8::decoded(s) {
            (Err(fault), rest) => (Err(fault), rest),
            (Ok(tag), rest) => if tag == 0 {
                (Ok(BitwiseOp::U32And), rest)
            } else if tag == 1 {
                (Ok(BitwiseOp::U32Xor), rest)
            } else {
                (Err(Fault::Invalid("invalid bitwise replay op tag "@ + numeral(tag as nat))), rest)
            },
        }
    }

    open spec fn min_size() -> nat {
        1
    }

    fn write_into(&self, target: &mut Vec<u8>) {
        match self {
            BitwiseOp::U32And => 0u8.write_into(target),
            BitwiseOp::U32Xor => 1u8.write_into(target),
        }
    }

    fn read_from(source: &mut BudgetedReader<SliceReader<'_>>) -> (result: Result<Self, DeserializationError>) {
        match u8::read_from(source) {
            Err(error) => Err(error),
            Ok(0) => Ok(BitwiseOp::U32And),
            Ok(1) => Ok(BitwiseOp::U32Xor),
            Ok(tag) => Err(invalid_tag("invalid bitwise replay op tag ", tag)),
        }
    }

    fn min_serialized_size() -> (size: usize) {
        1
    }

    proof fn round_trip(v: BitwiseOp, rest: Seq<u8>, budget: nat) {
        u8::round_trip(
            match v {
                BitwiseOp::U32And => 0,
                BitwiseOp::U32Xor => 1,
            },
            rest,
            budget,
        );
    }

    proof fn bytes_are_charged(s: Input) {
        u8::bytes_are_charged(s);
    }
}

impl Item for BitwiseOp {
    proof fn size_is_least(v: BitwiseOp) {
        u8::size_is_least(0);
        u8::size_is_least(1);
    }
}

/// The error of a tag that stands for nothing.
pub(crate) fn invalid_tag(what: &str, tag: u8) -> (error: DeserializationError)
    ensures
        error is InvalidValue,
        error->InvalidValue_0@ == what@ + numeral(tag as nat),
{
    let mut message = String::from_str(what);
    message.append(decimal(tag as u128).as_str());
    DeserializationError::InvalidValue(message)
}

/// Replay data for bitwise operations, each with its operands.
#[derive(Debug, PartialEq, Eq)]
pub struct BitwiseReplay {
    u32op_with_operands: VecDeque<(BitwiseOp, Felt, Felt)>,
}

impl View for BitwiseReplay {
    type V = Seq<(BitwiseOp, Felt, Felt)>;

    closed spec fn view(&self) -> Seq<(BitwiseOp, Felt, Felt)> {
        self.u32op_with_operands@
    }
}

impl Default for BitwiseReplay {
    /// A replay of nothing.
    fn default() -> (replay: BitwiseReplay)
        ensures
            replay@ == Seq::<(BitwiseOp, Felt, Felt)>::empty(),
    {
        BitwiseReplay { u32op_with_operands: VecDeque::new() }
    }
}

impl BitwiseReplay {
    /// Records the operands of a u32and operation.
    pub fn record_u32and(&mut self, a: Felt, b: Felt)
        ensures
            final(self)@ == old(self)@.push((BitwiseOp::U32And, a, b)),
    {
        self.u32op_with_operands.push_back((BitwiseOp::U32And, a, b));
    }

    /// Records the operands of a u32xor operation.
    pub fn record_u32xor(&mut self, a: Felt, b: Felt)
        ensures
            final(self)@ == old(self)@.push((BitwiseOp::U32Xor, a, b)),
    {
        self.u32op_with_operands.push_back((BitwiseOp::U32Xor, a, b));
    }

    /// The number of recorded operations.
    pub fn num_operations(&self) -> (count: usize)
        ensures
            count == self@.len(),
    {
        self.u32op_with_operands.len()
    }

    /// The recorded operations with their operands, in order.
    pub fn into_iter(self) -> (operations: VecDeque<(BitwiseOp, Felt, Felt)>)
        ensures
            operations@ == self@,
    {
        self.u32op_with_operands
    }
}

impl Codec for BitwiseReplay {
    type V = <VecDeque<(BitwiseOp, Felt, Felt)> as Codec>::V;

    open spec fn val(&self) -> <VecDeque<(BitwiseOp, Felt, Felt)> as Codec>::V {
        vals(self@)
    }

    open spec fn valid(v: <VecDeque<(BitwiseOp, Felt, Felt)> as Codec>::V) -> bool {
        <VecDeque<(BitwiseOp, Felt, Felt)> as Codec>::valid(v)
    }

    open spec fn encoded(v: <VecDeque<(BitwiseOp, Felt, Felt)> as Codec>::V) -> Seq<u8> {
        <VecDeque<(BitwiseOp, Felt, Felt)> as Codec>::encoded(v)
    }

    open spec fn decoded(s: Input) -> (Result<<VecDeque<(BitwiseOp, Felt, Felt)> as Codec>::V, Fault>, Input) {
        <VecDeque<(BitwiseOp, Felt, Felt)> as Codec>::decoded(s)
    }

    open spec fn min_size() -> nat {
        size_of::<Self>()
    }

    fn write_into(&self, target: &mut Vec<u8>) {
        self.u32op_with_operands.write_into(target);
    }

    fn read_from(source: &mut BudgetedReader<SliceReader<'_>>) -> (result: Result<Self, DeserializationError>) {
        match <VecDeque<(BitwiseOp, Felt, Felt)> as Codec>::read_from(source) {
            Err(error) => Err(error),
            Ok(u32op_with_operands) => Ok(BitwiseReplay { u32op_with_operands }),
        }
    }

    fn min_serialized_size() -> (size: usize) {
        core::mem::size_of::<Self>()
    }

    proof fn round_trip(v: <VecDeque<(BitwiseOp, Felt, Felt)> as Codec>::V, rest: Seq<u8>, budget: nat) {
        <VecDeque<(BitwiseOp, Felt, Felt)> as Codec>::round_trip(v, rest, budget);
    }

    proof fn bytes_are_charged(s: Input) {
        <VecDeque<(BitwiseOp, Felt, Felt)> as Codec>::bytes_are_charged(s);
    }
}

// KERNEL REPLAY
// ================================================================================================

/// Replay data for kernel operations.
#[derive(Debug, PartialEq, Eq)]
pub struct KernelReplay {
    kernel_proc_accesses: VecDeque<Word>,
}

impl View for KernelReplay {
    type V = Seq<Word>;

    closed spec fn view(&self) -> Seq<Word> {
        self.kernel_proc_accesses@
    }
}

impl Default for KernelReplay {
    /// A replay of nothing.
    fn default() -> (replay: KernelReplay)
        ensures
            replay@ == Seq::<Word>::empty(),
    {
        KernelReplay { kernel_proc_accesses: VecDeque::new() }
    }
}

impl KernelReplay {
    /// Records the procedure hash of a syscall.
    pub fn record_kernel_proc_access(&mut self, proc_hash: Word)
        ensures
            final(self)@ == old(self)@.push(proc_hash),
    {
        self.kernel_proc_accesses.push_back(proc_hash);
    }

    /// The recorded kernel procedure accesses, in order.
    pub fn into_iter(self) -> (accesses: VecDeque<Word>)
        ensures
            accesses@ == self@,
    {
        self.kernel_proc_accesses
    }
}

impl Codec for KernelReplay {
    type V = <VecDeque<Word> as Codec>::V;

    open spec fn val(&self) -> <VecDeque<Word> as Codec>::V {
        vals(self@)
    }

    open spec fn valid(v: <VecDeque<Word> as Codec>::V) -> bool {
        <VecDeque<Word> as Codec>::valid(v)
    }

    open spec fn encoded(v: <VecDeque<Word> as Codec>::V) -> Seq<u8> {
        <VecDeque<Word> as Codec>::encoded(v)
    }

    open spec fn decoded(s: Input) -> (Result<<VecDeque<Word> as Codec>::V, Fault>, Input) {
        <VecDeque<Word> as Codec>::decoded(s)
    }

    open spec fn min_size() -> nat {
        size_of::<Self>()
    }

    fn write_into(&self, target: &mut Vec<u8>) {
        self.kernel_proc_accesses.write_into(target);
    }

    fn read_from(source: &mut BudgetedReader<SliceReader<'_>>) -> (result: Result<Self, DeserializationError>) {
        match <VecDeque<Word> as Codec>::read_from(source) {
            Err(error) => Err(error),
            Ok(kernel_proc_accesses) => Ok(KernelReplay { kernel_proc_accesses }),
        }
    }

    fn min_serialized_size() -> (size: usize) {
        core::mem::size_of::<Self>()
    }

    proof fn round_trip(v: <VecDeque<Word> as Codec>::V, rest: Seq<u8>, budget: nat) {
        <VecDeque<Word> as Codec>::round_trip(v, rest, budget);
    }

    proof fn bytes_are_charged(s: Input) {
        <VecDeque<Word> as Codec>::bytes_are_charged(s);
    }
}

// BLOCK ADDRESS REPLAY
// ================================================================================================

/// Recorded hasher addresses of control blocks and basic blocks.
#[derive(Debug, PartialEq, Eq)]
pub struct BlockAddressReplay {
    block_addresses: VecDeque<Felt>,
}

impl View for BlockAddressReplay {
    type V = Seq<Felt>;

    closed spec fn view(&self) -> Seq<Felt> {
        self.block_addresses@
    }
}

impl Default for BlockAddressReplay {
    /// A replay of nothing.
    fn default() -> (replay: BlockAddressReplay)
        ensures
            replay@ == Seq::<Felt>::empty(),
    {
        BlockAddressReplay { block_addresses: VecDeque::new() }
    }
}

impl BlockAddressReplay {
    /// Records the address associated with the hashing of a block.
    pub fn record_block_address(&mut self, addr: Felt)
        ensures
            final(self)@ == old(self)@.push(addr),
    {
        self.block_addresses.push_back(addr);
    }

    /// Replays the hashing of a block, returning the recorded address.
    pub fn replay_block_address(&mut self) -> (result: Result<Felt, ExecutionError>)
        ensures
            match result {
                Ok(value) => {
                    &&& old(self)@.len() > 0
                    &&& value == old(self)@[0]
                    &&& final(self)@ == old(self)@.drop_first()
                },
                Err(error) => {
                    &&& old(self)@.len() == 0
                    &&& error is Internal
                    &&& error->Internal_0@ == "no block address operations recorded"@
                    &&& final(self)@ == old(self)@
                },
            },
    {
        match self.block_addresses.pop_front() {
            Some(value) => Ok(value),
            None => Err(ExecutionError::Internal("no block address operations recorded")),
        }
    }
}

impl Codec for BlockAddressReplay {
    type V = <VecDeque<Felt> as Codec>::V;

    open spec fn val(&self) -> <VecDeque<Felt> as Codec>::V {
        vals(self@)
    }

    open spec fn valid(v: <VecDeque<Felt> as Codec>::V) -> bool {
        <VecDeque<Felt> as Codec>::valid(v)
    }

    open spec fn encoded(v: <VecDeque<Felt> as Codec>::V) -> Seq<u8> {
        <VecDeque<Felt> as Codec>::encoded(v)
    }

    open spec fn decoded(s: Input) -> (Result<<VecDeque<Felt> as Codec>::V, Fault>, Input) {
        <VecDeque<Felt> as Codec>::decoded(s)
    }

    open spec fn min_size() -> nat {
        size_of::<Self>()
    }

    fn write_into(&self, target: &mut Vec<u8>) {
        self.block_addresses.write_into(target);
    }

    fn read_from(source: &mut BudgetedReader<SliceReader<'_>>) -> (result: Result<Self, DeserializationError>) {
        match <VecDeque<Felt> as Codec>::read_from(source) {
            Err(error) => Err(error),
            Ok(block_addresses) => Ok(BlockAddressReplay { block_addresses }),
        }
    }

    fn min_serialized_size() -> (size: usize) {
        core::mem::size_of::<Self>()
    }

    proof fn round_trip(v: <VecDeque<Felt> as Codec>::V, rest: Seq<u8>, budget: nat) {
        <VecDeque<Felt> as Codec>::round_trip(v, rest, budget);
    }

    proof fn bytes_are_charged(s: Input) {
        <VecDeque<Felt> as Codec>::bytes_are_charged(s);
    }
}

// HASHER RESPONSE REPLAY
// ================================================================================================

/// Records and replays the response of requests made to the hasher chiplet during the execution of a
/// program.
#[derive(Debug, PartialEq, Eq)]
pub struct HasherResponseReplay {
    /// Addresses and output states of permutations.
    permutation_operations: VecDeque<(Felt, [Felt; 12])>,
    /// Addresses and computed roots of Merkle path verifications.
    build_merkle_root_operations: VecDeque<(Felt, Word)>,
    /// Addresses, old roots and new roots of Merkle root updates.
    mrupdate_operations: VecDeque<(Felt, Word, Word)>,
}

impl View for HasherResponseReplay {
    type V = (Seq<(Felt, [Felt; 12])>, Seq<(Felt, Word)>, Seq<(Felt, Word, Word)>);

    closed spec fn view(&self) -> (Seq<(Felt, [Felt; 12])>, Seq<(Felt, Word)>, Seq<(Felt, Word, Word)>) {
        (self.permutation_operations@, self.build_merkle_root_operations@, self.mrupdate_operations@)
    }
}

impl Default for HasherResponseReplay {
    /// A replay of nothing.
    fn default() -> (replay: HasherResponseReplay)
        ensures
            replay@ == (
                Seq::<(Felt, [Felt; 12])>::empty(),
                Seq::<(Felt, Word)>::empty(),
                Seq::<(Felt, Word, Word)>::empty(),
            ),
    {
        HasherResponseReplay {
            permutation_operations: VecDeque::new(),
            build_merkle_root_operations: VecDeque::new(),
            mrupdate_operations: VecDeque::new(),
        }
    }
}

impl HasherResponseReplay {
    /// Records a permutation with its address and result.
    pub fn record_permute(&mut self, addr: Felt, hashed_state: [Felt; 12])
        ensures
            final(self)@ == (old(self)@.0.push((addr, hashed_state)), old(self)@.1, old(self)@.2),
    {
        self.permutation_operations.push_back((addr, hashed_state));
    }

    /// Records a Merkle path verification with its address and computed root.
    pub fn record_build_merkle_root(&mut self, addr: Felt, computed_root: Word)
        ensures
            final(self)@ == (old(self)@.0, old(self)@.1.push((addr, computed_root)), old(self)@.2),
    {
        self.build_merkle_root_operations.push_back((addr, computed_root));
    }

    /// Records a Merkle root update with its address, old root, and new root.
    pub fn record_update_merkle_root(&mut self, addr: Felt, old_root: Word, new_root: Word)
        ensures
            final(self)@ == (old(self)@.0, old(self)@.1, old(self)@.2.push((addr, old_root, new_root))),
    {
        self.mrupdate_operations.push_back((addr, old_root, new_root));
    }

    /// Replays a permutation, returning its address and result.
    pub fn replay_permute(&mut self) -> (result: Result<(Felt, [Felt; 12]), OperationError>)
        ensures
            match result {
                Ok(value) => {
                    &&& old(self)@.0.len() > 0
                    &&& value == old(self)@.0[0]
                    &&& final(self)@ == (old(self)@.0.drop_first(), old(self)@.1, old(self)@.2)
                },
                Err(error) => {
                    &&& old(self)@.0.len() == 0
                    &&& error is Internal
                    &&& error->Internal_0@ == "no permutation operations recorded"@
                    &&& final(self)@ == old(self)@
                },
            },
    {
        match self.permutation_operations.pop_front() {
            Some(value) => Ok(value),
            None => Err(OperationError::Internal("no permutation operations recorded")),
        }
    }

    /// Replays a Merkle path verification, returning the recorded address and computed root.
    pub fn replay_build_merkle_root(&mut self) -> (result: Result<(Felt, Word), OperationError>)
        ensures
            match result {
                Ok(value) => {
                    &&& old(self)@.1.len() > 0
                    &&& value == old(self)@.1[0]
                    &&& final(self)@ == (old(self)@.0, old(self)@.1.drop_first(), old(self)@.2)
                },
                Err(error) => {
                    &&& old(self)@.1.len() == 0
                    &&& error is Internal
                    &&& error->Internal_0@ == "no build merkle root operations recorded"@
                    &&& final(self)@ == old(self)@
                },
            },
    {
        match self.build_merkle_root_operations.pop_front() {
            Some(value) => Ok(value),
            None => Err(OperationError::Internal("no build merkle root operations recorded")),
        }
    }

    /// Replays a Merkle root update, returning the recorded address, old root, and new root.
    pub fn replay_update_merkle_root(&mut self) -> (result: Result<(Felt, Word, Word), OperationError>)
        ensures
            match result {
                Ok(value) => {
                    &&& old(self)@.2.len() > 0
                    &&& value == old(self)@.2[0]
                    &&& final(self)@ == (old(self)@.0, old(self)@.1, old(self)@.2.drop_first())
                },
                Err(error) => {
                    &&& old(self)@.2.len() == 0
                    &&& error is Internal
                    &&& error->Internal_0@ == "no mrupdate operations recorded"@
                    &&& final(self)@ == old(self)@
                },
            },
    {
        match self.mrupdate_operations.pop_front() {
            Some(value) => Ok(value),
            None => Err(OperationError::Internal("no mrupdate operations recorded")),
        }
    }

    /// Permutes a state as the hasher does: with the recorded result.
    pub fn permute(&mut self, _state: [Felt; 12]) -> (result: Result<(Felt, [Felt; 12]), OperationError>)
        ensures
            match result {
                Ok(value) => {
                    &&& old(self)@.0.len() > 0
                    &&& value == old(self)@.0[0]
                    &&& final(self)@ == (old(self)@.0.drop_first(), old(self)@.1, old(self)@.2)
                },
                Err(error) => {
                    &&& old(self)@.0.len() == 0
                    &&& error is Internal
                    &&& error->Internal_0@ == "no permutation operations recorded"@
                    &&& final(self)@ == old(self)@
                },
            },
    {
        self.replay_permute()
    }

    /// Verifies a claimed Merkle root as the hasher does: against the recorded one. Where they
    /// differ, the value is not in the tree at the index, and `on_err` says what to fail with.
    pub fn verify_merkle_root<F: FnOnce() -> OperationError>(
        &mut self,
        claimed_root: Word,
        _value: Word,
        _path: Option<&MerklePath>,
        _index: Felt,
        on_err: F,
    ) -> (result: Result<Felt, OperationError>)
        requires
            on_err.requires(()),
        ensures
            old(self)@.1.len() == 0 ==> {
                &&& result matches Err(OperationError::Internal(message)) && message@
                    == "no build merkle root operations recorded"@
                &&& final(self)@ == old(self)@
            },
            old(self)@.1.len() > 0 ==> {
                &&& final(self)@ == (old(self)@.0, old(self)@.1.drop_first(), old(self)@.2)
                &&& claimed_root == old(self)@.1[0].1 ==> result == Ok::<Felt, OperationError>(old(self)@.1[0].0)
                &&& claimed_root != old(self)@.1[0].1 ==> result is Err && on_err.ensures((), result->Err_0)
            },
    {
        match self.replay_build_merkle_root() {
            Err(error) => Err(error),
            Ok((addr, computed_root)) => if claimed_root == computed_root {
                Ok(addr)
            } else {
                Err(on_err())
            },
        }
    }

    /// Updates a Merkle root as the hasher does: from the recorded old root to the recorded new
    /// one. Where the claimed root is not the old one, `on_err` says what to fail with.
    pub fn update_merkle_root<F: FnOnce() -> OperationError>(
        &mut self,
        claimed_old_root: Word,
        _old_value: Word,
        _new_value: Word,
        _path: Option<&MerklePath>,
        _index: Felt,
        on_err: F,
    ) -> (result: Result<(Felt, Word), OperationError>)
        requires
            on_err.requires(()),
        ensures
            old(self)@.2.len() == 0 ==> {
                &&& result matches Err(OperationError::Internal(message)) && message@
                    == "no mrupdate operations recorded"@
                &&& final(self)@ == old(self)@
            },
            old(self)@.2.len() > 0 ==> {
                let (address, old_root, new_root) = old(self)@.2[0];
                &&& final(self)@ == (old(self)@.0, old(self)@.1, old(self)@.2.drop_first())
                &&& claimed_old_root == old_root ==> result == Ok::<(Felt, Word), OperationError>((address, new_root))
                &&& claimed_old_root != old_root ==> result is Err && on_err.ensures((), result->Err_0)
            },
    {
        match self.replay_update_merkle_root() {
            Err(error) => Err(error),
            Ok((address, old_root, new_root)) => if claimed_old_root == old_root {
                Ok((address, new_root))
            } else {
                Err(on_err())
            },
        }
    }
}

/// The queues of a [`HasherResponseReplay`].
pub type ResponseQueues = (
    VecDeque<(Felt, [Felt; 12])>,
    (VecDeque<(Felt, Word)>, VecDeque<(Felt, Word, Word)>),
);

impl Codec for HasherResponseReplay {
    type V = <ResponseQueues as Codec>::V;

    open spec fn val(&self) -> <ResponseQueues as Codec>::V {
        (vals(self@.0), (vals(self@.1), vals(self@.2)))
    }

    open spec fn valid(v: <ResponseQueues as Codec>::V) -> bool {
        <ResponseQueues as Codec>::valid(v)
    }

    open spec fn encoded(v: <ResponseQueues as Codec>::V) -> Seq<u8> {
        <ResponseQueues as Codec>::encoded(v)
    }

    open spec fn decoded(s: Input) -> (Result<<ResponseQueues as Codec>::V, Fault>, Input) {
        <ResponseQueues as Codec>::decoded(s)
    }

    open spec fn min_size() -> nat {
        size_of::<Self>()
    }

    fn write_into(&self, target: &mut Vec<u8>) {
        let ghost before = target@;
        self.permutation_operations.write_into(target);
        self.build_merkle_root_operations.write_into(target);
        self.mrupdate_operations.write_into(target);
        assert(target@ =~= before + Self::encoded(self.val()));
    }

    fn read_from(source: &mut BudgetedReader<SliceReader<'_>>) -> (result: Result<Self, DeserializationError>) {
        match <ResponseQueues as Codec>::read_from(source) {
            Err(error) => Err(error),
            Ok((permutation_operations, (build_merkle_root_operations, mrupdate_operations))) => Ok(
                HasherResponseReplay { permutation_operations, build_merkle_root_operations, mrupdate_operations },
            ),
        }
    }

    fn min_serialized_size() -> (size: usize) {
        core::mem::size_of::<Self>()
    }

    proof fn round_trip(v: <ResponseQueues as Codec>::V, rest: Seq<u8>, budget: nat) {
        <ResponseQueues as Codec>::round_trip(v, rest, budget);
    }

    proof fn bytes_are_charged(s: Input) {
        <ResponseQueues as Codec>::bytes_are_charged(s);
    }
}

// STACK OVERFLOW REPLAY
// ================================================================================================

/// Recorded overflow values and addresses of the operand stack.
///
/// Of the overflow table
///
/// | Overflow value | Overflow address |
/// |----------------|------------------|
/// |      8         |         14       |
/// |      2         |         16       |
/// |      7         |         18       |
///
/// a pop returns the value 7 and the address 16.
#[derive(Debug, PartialEq, Eq)]
pub struct StackOverflowReplay {
    /// Values popped from the overflow stack, each with the overflow address after the pop.
    overflow_values: VecDeque<(Felt, Felt)>,
    /// Stack depths and overflow addresses returned when restoring a context.
    restore_context_info: VecDeque<(usize, Felt)>,
}

impl View for StackOverflowReplay {
    type V = (Seq<(Felt, Felt)>, Seq<(usize, Felt)>);

    closed spec fn view(&self) -> (Seq<(Felt, Felt)>, Seq<(usize, Felt)>) {
        (self.overflow_values@, self.restore_context_info@)
    }
}

impl Default for StackOverflowReplay {
    /// A replay of nothing.
    fn default() -> (replay: StackOverflowReplay)
        ensures
            replay@ == (Seq::<(Felt, Felt)>::empty(), Seq::<(usize, Felt)>::empty()),
    {
        StackOverflowReplay { overflow_values: VecDeque::new(), restore_context_info: VecDeque::new() }
    }
}

impl StackOverflowReplay {
    /// A replay of nothing.
    pub fn new() -> (replay: StackOverflowReplay)
        ensures
            replay@ == (Seq::<(Felt, Felt)>::empty(), Seq::<(usize, Felt)>::empty()),
    {
        StackOverflowReplay { overflow_values: VecDeque::new(), restore_context_info: VecDeque::new() }
    }

    /// Records the value returned by a pop_overflow operation, along with the overflow address stored in
    /// the overflow table after the pop.
    pub fn record_pop_overflow(&mut self, value: Felt, new_overflow_addr: Felt)
        ensures
            final(self)@ == (old(self)@.0.push((value, new_overflow_addr)), old(self)@.1),
    {
        self.overflow_values.push_back((value, new_overflow_addr));
    }

    /// Records the overflow address when restoring a context.
    pub fn record_restore_context_overflow_addr(&mut self, stack_depth: usize, addr: Felt)
        ensures
            final(self)@ == (old(self)@.0, old(self)@.1.push((stack_depth, addr))),
    {
        self.restore_context_info.push_back((stack_depth, addr));
    }

    /// The next recorded pop_overflow operation, which is not removed.
    pub fn peek_replay_pop_overflow(&self) -> (next: Option<&(Felt, Felt)>)
        ensures
            match next {
                Some(value) => self@.0.len() > 0 && *value == self@.0[0],
                None => self@.0.len() == 0,
            },
    {
        if self.overflow_values.len() == 0 {
            None
        } else {
            Some(&self.overflow_values[0])
        }
    }

    /// Replays a pop_overflow operation, returning the recorded value and the overflow address after it.
    pub fn replay_pop_overflow(&mut self) -> (result: Result<(Felt, Felt), OperationError>)
        ensures
            match result {
                Ok(value) => {
                    &&& old(self)@.0.len() > 0
                    &&& value == old(self)@.0[0]
                    &&& final(self)@ == (old(self)@.0.drop_first(), old(self)@.1)
                },
                Err(error) => {
                    &&& old(self)@.0.len() == 0
                    &&& error is Internal
                    &&& error->Internal_0@ == "no overflow pop operations recorded"@
                    &&& final(self)@ == old(self)@
                },
            },
    {
        match self.overflow_values.pop_front() {
            Some(value) => Ok(value),
            None => Err(OperationError::Internal("no overflow pop operations recorded")),
        }
    }

    /// Replays the overflow address when restoring a context.
    pub fn replay_restore_context_overflow_addr(&mut self) -> (result: Result<(usize, Felt), OperationError>)
        ensures
            match result {
                Ok(value) => {
                    &&& old(self)@.1.len() > 0
                    &&& value == old(self)@.1[0]
                    &&& final(self)@ == (old(self)@.0, old(self)@.1.drop_first())
                },
                Err(error) => {
                    &&& old(self)@.1.len() == 0
                    &&& error is Internal
                    &&& error->Internal_0@ == "no overflow address operations recorded"@
                    &&& final(self)@ == old(self)@
                },
            },
    {
        match self.restore_context_info.pop_front() {
            Some(value) => Ok(value),
            None => Err(OperationError::Internal("no overflow address operations recorded")),
        }
    }
}

/// The queues of a [`StackOverflowReplay`].
pub type OverflowQueues = (VecDeque<(Felt, Felt)>, VecDeque<(usize, Felt)>);

impl Codec for StackOverflowReplay {
    type V = <OverflowQueues as Codec>::V;

    open spec fn val(&self) -> <OverflowQueues as Codec>::V {
        (vals(self@.0), vals(self@.1))
    }

    open spec fn valid(v: <OverflowQueues as Codec>::V) -> bool {
        <OverflowQueues as Codec>::valid(v)
    }

    open spec fn encoded(v: <OverflowQueues as Codec>::V) -> Seq<u8> {
        <OverflowQueues as Codec>::encoded(v)
    }

    open spec fn decoded(s: Input) -> (Result<<OverflowQueues as Codec>::V, Fault>, Input) {
        <OverflowQueues as Codec>::decoded(s)
    }

    open spec fn min_size() -> nat {
        size_of::<Self>()
    }

    fn write_into(&self, target: &mut Vec<u8>) {
        let ghost before = target@;
        self.overflow_values.write_into(target);
        self.restore_context_info.write_into(target);
        assert(target@ =~= before + Self::encoded(self.val()));
    }

    fn read_from(source: &mut BudgetedReader<SliceReader<'_>>) -> (result: Result<Self, DeserializationError>) {
        match <OverflowQueues as Codec>::read_from(source) {
            Err(error) => Err(error),
            Ok((overflow_values, restore_context_info)) => Ok(
                StackOverflowReplay { overflow_values, restore_context_info },
            ),
        }
    }

    fn min_serialized_size() -> (size: usize) {
        core::mem::size_of::<Self>()
    }

    proof fn round_trip(v: <OverflowQueues as Codec>::V, rest: Seq<u8>, budget: nat) {
        <OverflowQueues as Codec>::round_trip(v, rest, budget);
    }

    proof fn bytes_are_charged(s: Input) {
        <OverflowQueues as Codec>::bytes_are_charged(s);
    }
}

// EXECUTION REPLAY
// ================================================================================================

/// Replay data necessary to build a trace fragment.
#[derive(Debug, PartialEq, Eq)]
pub struct ExecutionReplay {
    pub block_stack: BlockStackReplay,
    pub execution_context: ExecutionContextReplay,
    pub stack_overflow: StackOverflowReplay,
    pub memory_reads: MemoryReadsReplay,
    pub advice: AdviceReplay,
    pub hasher: HasherResponseReplay,
    pub block_address: BlockAddressReplay,
    pub mast_forest_resolution: MastForestResolutionReplay,
}

impl Default for ExecutionReplay {
    /// A replay of nothing.
    fn default() -> (replay: ExecutionReplay)
        ensures
            <BlockStackReplay as Default>::default.ensures((), replay.block_stack),
            <ExecutionContextReplay as Default>::default.ensures((), replay.execution_context),
            <StackOverflowReplay as Default>::default.ensures((), replay.stack_overflow),
            <MemoryReadsReplay as Default>::default.ensures((), replay.memory_reads),
            <AdviceReplay as Default>::default.ensures((), replay.advice),
            <HasherResponseReplay as Default>::default.ensures((), replay.hasher),
            <BlockAddressReplay as Default>::default.ensures((), replay.block_address),
            <MastForestResolutionReplay as Default>::default.ensures((), replay.mast_forest_resolution),
    {
        ExecutionReplay {
            block_stack: BlockStackReplay::default(),
            execution_context: ExecutionContextReplay::default(),
            stack_overflow: StackOverflowReplay::default(),
            memory_reads: MemoryReadsReplay::default(),
            advice: AdviceReplay::default(),
            hasher: HasherResponseReplay::default(),
            block_address: BlockAddressReplay::default(),
            mast_forest_resolution: MastForestResolutionReplay::default(),
        }
    }
}

/// Eight parts written one after the other are the first, followed by the rest.
proof fn eight_parts(
    before: Seq<u8>,
    a: Seq<u8>,
    b: Seq<u8>,
    c: Seq<u8>,
    d: Seq<u8>,
    e: Seq<u8>,
    f: Seq<u8>,
    g: Seq<u8>,
    h: Seq<u8>,
)
    ensures
        before + a + b + c + d + e + f + g + h == before + (a + (b + (c + (d + (e + (f + (g + h))))))),
{
    assert(before + a + b + c + d + e + f + g + h =~= before + (a + (b + (c + (d + (e + (f + (g + h))))))));
}

/// The parts of an [`ExecutionReplay`], in the order in which they are written.
pub type ExecutionParts = (
    BlockStackReplay,
    (
        ExecutionContextReplay,
        (
            StackOverflowReplay,
            (
                MemoryReadsReplay,
                (AdviceReplay, (HasherResponseReplay, (BlockAddressReplay, MastForestResolutionReplay))),
            ),
        ),
    ),
);

impl Codec for ExecutionReplay {
    type V = <ExecutionParts as Codec>::V;

    open spec fn val(&self) -> <ExecutionParts as Codec>::V {
        (
            self.block_stack.val(),
            (
                self.execution_context.val(),
                (
                    self.stack_overflow.val(),
                    (
                        self.memory_reads.val(),
                        (
                            self.advice.val(),
                            (self.hasher.val(), (self.block_address.val(), self.mast_forest_resolution.val())),
                        ),
                    ),
                ),
            ),
        )
    }

    open spec fn valid(v: <ExecutionParts as Codec>::V) -> bool {
        <ExecutionParts as Codec>::valid(v)
    }

    open spec fn encoded(v: <ExecutionParts as Codec>::V) -> Seq<u8> {
        <ExecutionParts as Codec>::encoded(v)
    }

    open spec fn decoded(s: Input) -> (Result<<ExecutionParts as Codec>::V, Fault>, Input) {
        <ExecutionParts as Codec>::decoded(s)
    }

    open spec fn min_size() -> nat {
        size_of::<Self>()
    }

    fn write_into(&self, target: &mut Vec<u8>) {
        let ghost before = target@;
        let ghost a = BlockStackReplay::encoded(self.block_stack.val());
        let ghost b = ExecutionContextReplay::encoded(self.execution_context.val());
        let ghost c = StackOverflowReplay::encoded(self.stack_overflow.val());
        let ghost d = MemoryReadsReplay::encoded(self.memory_reads.val());
        let ghost e = AdviceReplay::encoded(self.advice.val());
        let ghost f = HasherResponseReplay::encoded(self.hasher.val());
        let ghost g = BlockAddressReplay::encoded(self.block_address.val());
        let ghost h = MastForestResolutionReplay::encoded(self.mast_forest_resolution.val());
        self.block_stack.write_into(target);
        self.execution_context.write_into(target);
        self.stack_overflow.write_into(target);
        self.memory_reads.write_into(target);
        self.advice.write_into(target);
        self.hasher.write_into(target);
        self.block_address.write_into(target);
        self.mast_forest_resolution.write_into(target);
        proof {
            eight_parts(before, a, b, c, d, e, f, g, h);
        }
    }

    fn read_from(source: &mut BudgetedReader<SliceReader<'_>>) -> (result: Result<Self, DeserializationError>) {
        match <ExecutionParts as Codec>::read_from(source) {
            Err(error) => Err(error),
            Ok(
                (
                    block_stack,
                    (
                        execution_context,
                        (
                            stack_overflow,
                            (memory_reads, (advice, (hasher, (block_address, mast_forest_resolution)))),
                        ),
                    ),
                ),
            ) => Ok(
                ExecutionReplay {
                    block_stack,
                    execution_context,
                    stack_overflow,
                    memory_reads,
                    advice,
                    hasher,
                    block_address,
                    mast_forest_resolution,
                },
            ),
        }
    }

    fn min_serialized_size() -> (size: usize) {
        core::mem::size_of::<Self>()
    }

    proof fn round_trip(v: <ExecutionParts as Codec>::V, rest: Seq<u8>, budget: nat) {
        <ExecutionParts as Codec>::round_trip(v, rest, budget);
    }

    proof fn bytes_are_charged(s: Input) {
        <ExecutionParts as Codec>::bytes_are_charged(s);
    }
}

} // verus!

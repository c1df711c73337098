//! The state of the processor from which a fragment of the core trace is built.
use miden_crypto::utils::{BudgetedReader, SliceReader};

use vstd::layout::size_of;
use vstd::prelude::*;

use crate::errors::{ExecutionError, OperationError};
use crate::fields::{ContextId, Felt, MastForestId, RowIndex, Word};
use crate::reader::{sentence, DeserializationError, Fault, Input};
use crate::replay::{BlockAddressReplay, BlockStackReplay, ExecutionReplay, StackOverflowReplay};
use crate::wire::{charged_twice, phrase, Codec};

verus! {

/// The number of stack elements that are directly accessible.
pub const MIN_STACK_DEPTH: usize = 16;

// SYSTEM STATE
// ================================================================================================

/// All the information needed to build one row of the system trace.
#[derive(Debug, Clone, Copy, PartialEq, Eq)]
pub struct SystemState {
    /// Current clock cycle.
    pub clk: RowIndex,
    /// Execution context; starts at 0, changes on CALL and SYSCALL operations.
    pub ctx: ContextId,
    /// Hash of the function that initiated the current execution context.
    pub fn_hash: Word,
    /// Deferred root used for recording deferred statements.
    pub deferred_root: Word,
}

impl Codec for SystemState {
    type V = <(RowIndex, (ContextId, (Word, Word))) as Codec>::V;

    open spec fn val(&self) -> <(RowIndex, (ContextId, (Word, Word))) as Codec>::V {
        (self.clk.val(), (self.ctx.val(), (self.fn_hash.val(), self.deferred_root.val())))
    }

    open spec fn valid(v: <(RowIndex, (ContextId, (Word, Word))) as Codec>::V) -> bool {
        <(RowIndex, (ContextId, (Word, Word))) as Codec>::valid(v)
    }

    open spec fn encoded(v: <(RowIndex, (ContextId, (Word, Word))) as Codec>::V) -> Seq<u8> {
        <(RowIndex, (ContextId, (Word, Word))) as Codec>::encoded(v)
    }

    open spec fn decoded(s: Input) -> (Result<<(RowIndex, (ContextId, (Word, Word))) as Codec>::V, Fault>, Input) {
        <(RowIndex, (ContextId, (Word, Word))) as Codec>::decoded(s)
    }

    open spec fn min_size() -> nat {
        size_of::<Self>()
    }

    fn write_into(&self, target: &mut Vec<u8>) {
        let ghost before = target@;
        self.clk.write_into(target);
        self.ctx.write_into(target);
        self.fn_hash.write_into(target);
        self.deferred_root.write_into(target);
        assert(target@ =~= before + Self::encoded(self.val()));
    }

    fn read_from(source: &mut BudgetedReader<SliceReader<'_>>) -> (result: Result<Self, DeserializationError>) {
        match <(RowIndex, (ContextId, (Word, Word))) as Codec>::read_from(source) {
            Err(error) => Err(error),
            Ok((clk, (ctx, (fn_hash, deferred_root)))) => Ok(SystemState { clk, ctx, fn_hash, deferred_root }),
        }
    }

    fn min_serialized_size() -> (size: usize) {
        core::mem::size_of::<Self>()
    }

    proof fn round_trip(v: <(RowIndex, (ContextId, (Word, Word))) as Codec>::V, rest: Seq<u8>, budget: nat) {
        <(RowIndex, (ContextId, (Word, Word))) as Codec>::round_trip(v, rest, budget);
    }

    proof fn bytes_are_charged(s: Input) {
        <(RowIndex, (ContextId, (Word, Word))) as Codec>::bytes_are_charged(s);
    }
}

// DECODER STATE
// ================================================================================================

/// The subset of the decoder state required to build the trace.
#[derive(Debug, Clone, Copy, PartialEq, Eq)]
pub struct DecoderState {
    /// The value of the decoder's `addr` column.
    pub current_addr: Felt,
    /// The address of the current node's parent.
    pub parent_addr: Felt,
}

impl DecoderState {
    /// Starts a node: emulates pushing it onto the block stack. The current address becomes the
    /// replayed address of the node, and the parent address that of the node that was on top of the
    /// block stack.
    pub fn replay_node_start(
        &mut self,
        block_address_replay: &mut BlockAddressReplay,
        block_stack_replay: &mut BlockStackReplay,
    ) -> (result: Result<(), ExecutionError>)
        ensures
            ({
                let addresses = old(block_address_replay)@;
                let (parents, ends) = old(block_stack_replay)@;
                if addresses.len() == 0 {
                    &&& result matches Err(ExecutionError::Internal(message)) && message@
                        == "no block address operations recorded"@
                    &&& *final(self) == *old(self)
                    &&& final(block_address_replay)@ == addresses
                    &&& final(block_stack_replay)@ == (parents, ends)
                } else if parents.len() == 0 {
                    &&& result matches Err(ExecutionError::Internal(message)) && message@
                        == "no node start parent address recorded"@
                    &&& *final(self) == (DecoderState { current_addr: addresses[0], ..*old(self) })
                    &&& final(block_address_replay)@ == addresses.drop_first()
                    &&& final(block_stack_replay)@ == (parents, ends)
                } else {
                    &&& result is Ok
                    &&& *final(self) == (DecoderState { current_addr: addresses[0], parent_addr: parents[0] })
                    &&& final(block_address_replay)@ == addresses.drop_first()
                    &&& final(block_stack_replay)@ == (parents.drop_first(), ends)
                }
            }),
    {
        match block_address_replay.replay_block_address() {
            Err(error) => {
                return Err(error);
            },
            Ok(addr) => {
                self.current_addr = addr;
            },
        }
        match block_stack_replay.replay_node_start_parent_addr() {
            Err(error) => Err(error),
            Ok(addr) => {
                self.parent_addr = addr;
                Ok(())
            },
        }
    }

    /// Ends a node: points to the previous node in the block stack, and returns the address of the
    /// node that just ended.
    pub fn replay_node_end(&mut self, block_stack_replay: &mut BlockStackReplay) -> (result: Result<
        Felt,
        ExecutionError,
    >)
        ensures
            ({
                let (parents, ends) = old(block_stack_replay)@;
                if ends.len() == 0 {
                    &&& result matches Err(ExecutionError::Internal(message)) && message@
                        == "no node address and flags recorded"@
                    &&& *final(self) == *old(self)
                    &&& final(block_stack_replay)@ == (parents, ends)
                } else {
                    &&& result == Ok::<Felt, ExecutionError>(ends[0].ended_node_addr)
                    &&& *final(self) == (DecoderState {
                        current_addr: ends[0].prev_addr,
                        parent_addr: ends[0].prev_parent_addr,
                    })
                    &&& final(block_stack_replay)@ == (parents, ends.drop_first())
                }
            }),
    {
        match block_stack_replay.replay_node_end() {
            Err(error) => Err(error),
            Ok(node_end_data) => {
                self.current_addr = node_end_data.prev_addr;
                self.parent_addr = node_end_data.prev_parent_addr;
                Ok(node_end_data.ended_node_addr)
            },
        }
    }
}

impl Codec for DecoderState {
    type V = <(Felt, Felt) as Codec>::V;

    open spec fn val(&self) -> <(Felt, Felt) as Codec>::V {
        (self.current_addr.val(), self.parent_addr.val())
    }

    open spec fn valid(v: <(Felt, Felt) as Codec>::V) -> bool {
        <(Felt, Felt) as Codec>::valid(v)
    }

    open spec fn encoded(v: <(Felt, Felt) as Codec>::V) -> Seq<u8> {
        <(Felt, Felt) as Codec>::encoded(v)
    }

    open spec fn decoded(s: Input) -> (Result<<(Felt, Felt) as Codec>::V, Fault>, Input) {
        <(Felt, Felt) as Codec>::decoded(s)
    }

    open spec fn min_size() -> nat {
        size_of::<Self>()
    }

    fn write_into(&self, target: &mut Vec<u8>) {
        let ghost before = target@;
        self.current_addr.write_into(target);
        self.parent_addr.write_into(target);
        assert(target@ =~= before + Self::encoded(self.val()));
    }

    fn read_from(source: &mut BudgetedReader<SliceReader<'_>>) -> (result: Result<Self, DeserializationError>) {
        match <(Felt, Felt) as Codec>::read_from(source) {
            Err(error) => Err(error),
            Ok((current_addr, parent_addr)) => Ok(DecoderState { current_addr, parent_addr }),
        }
    }

    fn min_serialized_size() -> (size: usize) {
        core::mem::size_of::<Self>()
    }

    proof fn round_trip(v: <(Felt, Felt) as Codec>::V, rest: Seq<u8>, budget: nat) {
        <(Felt, Felt) as Codec>::round_trip(v, rest, budget);
    }

    proof fn bytes_are_charged(s: Input) {
        <(Felt, Felt) as Codec>::bytes_are_charged(s);
    }
}

// STACK STATE
// ================================================================================================

/// The top 16 elements of the stack at a clock cycle, that is, those that are written directly into
/// the trace, with what the helper columns are computed from.
#[derive(Debug, PartialEq, Eq)]
pub struct StackState {
    /// The top elements of the stack in reverse order: the last is the topmost.
    pub stack_top: [Felt; 16],
    /// Current number of elements on the stack.
    stack_depth: usize,
    /// The clock cycle at which the last item was pushed to the overflow table.
    last_overflow_addr: Felt,
}

impl StackState {
    /// The top elements of the stack, from the bottommost to the topmost.
    pub closed spec fn top(&self) -> [Felt; 16] {
        self.stack_top
    }

    /// The number of elements on the stack.
    pub closed spec fn depth(&self) -> usize {
        self.stack_depth
    }

    /// The last recorded overflow address.
    pub closed spec fn last_overflow(&self) -> Felt {
        self.last_overflow_addr
    }

    /// The stack holds at least the elements that are directly accessible.
    pub open spec fn wf(&self) -> bool {
        self.depth() >= MIN_STACK_DEPTH
    }

    /// A stack with the given top elements in reverse order, depth and overflow address.
    pub fn new(stack_top: [Felt; 16], stack_depth: usize, last_overflow_addr: Felt) -> (state: StackState)
        ensures
            state.top() == stack_top,
            state.depth() == stack_depth,
            state.last_overflow() == last_overflow_addr,
    {
        StackState { stack_top, stack_depth, last_overflow_addr }
    }

    /// The element at a depth below the top.
    pub fn get(&self, index: usize) -> (element: Felt)
        requires
            index < MIN_STACK_DEPTH,
        ensures
            element == self.top()@[MIN_STACK_DEPTH - index - 1],
    {
        self.stack_top[MIN_STACK_DEPTH - index - 1]
    }

    /// The stack depth (b0 helper column).
    pub fn stack_depth(&self) -> (depth: usize)
        ensures
            depth == self.depth(),
    {
        self.stack_depth
    }

    /// The overflow address (b1 helper column).
    pub fn overflow_addr(&self) -> (addr: Felt)
        ensures
            addr == self.last_overflow(),
    {
        self.last_overflow_addr
    }

    /// The number of elements in the current context's overflow stack.
    pub fn num_overflow_elements_in_current_ctx(&self) -> (count: usize)
        requires
            self.wf(),
        ensures
            count == self.depth() - MIN_STACK_DEPTH,
    {
        self.stack_depth - MIN_STACK_DEPTH
    }

    /// Pushes an element onto the overflow stack at a clock cycle.
    pub fn push_overflow(&mut self, _element: Felt, clk: RowIndex)
        requires
            old(self).depth() < usize::MAX,
        ensures
            final(self).top() == old(self).top(),
            final(self).depth() == old(self).depth() + 1,
            final(self).last_overflow()@ == clk.0,
    {
        self.stack_depth += 1;
        self.last_overflow_addr = clk.to_felt();
    }

    /// Pops the top element from the overflow stack, if any.
    ///
    /// If the overflow table is empty (i.e. the stack depth is 16), the stack depth is unchanged,
    /// and `None` is returned.
    pub fn pop_overflow(&mut self, stack_overflow_replay: &mut StackOverflowReplay) -> (result: Result<
        Option<Felt>,
        OperationError,
    >)
        requires
            old(self).wf(),
        ensures
            ({
                let (values, contexts) = old(stack_overflow_replay)@;
                &&& final(self).top() == old(self).top()
                &&& if old(self).depth() == MIN_STACK_DEPTH {
                    &&& result == Ok::<Option<Felt>, OperationError>(None)
                    &&& final(self).depth() == old(self).depth()
                    &&& final(self).last_overflow()@ == 0
                    &&& final(stack_overflow_replay)@ == (values, contexts)
                } else if values.len() == 0 {
                    &&& result matches Err(OperationError::Internal(message)) && message@
                        == "no overflow pop operations recorded"@
                    &&& *final(self) == *old(self)
                    &&& final(stack_overflow_replay)@ == (values, contexts)
                } else {
                    &&& result == Ok::<Option<Felt>, OperationError>(Some(values[0].0))
                    &&& final(self).depth() == old(self).depth() - 1
                    &&& final(self).last_overflow() == values[0].1
                    &&& final(stack_overflow_replay)@ == (values.drop_first(), contexts)
                }
            }),
    {
        if self.stack_depth > MIN_STACK_DEPTH {
            match stack_overflow_replay.replay_pop_overflow() {
                Err(error) => Err(error),
                Ok((stack_value, new_overflow_addr)) => {
                    self.stack_depth -= 1;
                    self.last_overflow_addr = new_overflow_addr;
                    Ok(Some(stack_value))
                },
            }
        } else {
            self.last_overflow_addr = Felt::zero();
            Ok(None)
        }
    }

    /// The denominator of the overflow helper (h0 helper column), which is later inverted.
    pub fn overflow_helper(&self) -> (denominator: Felt)
        requires
            self.wf(),
        ensures
            denominator@ == (self.depth() - MIN_STACK_DEPTH) % (crate::fields::ORDER as int),
    {
        let denominator: usize = self.stack_depth() - MIN_STACK_DEPTH;
        Felt::new_unchecked(denominator as u64)
    }

    /// Starts a new execution context for this stack: the overflow table appears to be empty.
    pub fn start_context(&mut self)
        ensures
            final(self).top() == old(self).top(),
            final(self).depth() == MIN_STACK_DEPTH,
            final(self).last_overflow()@ == 0,
    {
        self.stack_depth = MIN_STACK_DEPTH;
        self.last_overflow_addr = Felt::zero();
    }

    /// Restores the prior context for this stack, which brings back items previously hidden from
    /// the overflow table.
    pub fn restore_context(&mut self, stack_overflow_replay: &mut StackOverflowReplay) -> (result: Result<
        (),
        OperationError,
    >)
        ensures
            ({
                let (values, contexts) = old(stack_overflow_replay)@;
                if contexts.len() == 0 {
                    &&& result matches Err(OperationError::Internal(message)) && message@
                        == "no overflow address operations recorded"@
                    &&& *final(self) == *old(self)
                    &&& final(stack_overflow_replay)@ == (values, contexts)
                } else {
                    &&& result is Ok
                    &&& final(self).top() == old(self).top()
                    &&& final(self).depth() == contexts[0].0
                    &&& final(self).last_overflow() == contexts[0].1
                    &&& final(stack_overflow_replay)@ == (values, contexts.drop_first())
                }
            }),
    {
        match stack_overflow_replay.replay_restore_context_overflow_addr() {
            Err(error) => Err(error),
            Ok((stack_depth, last_overflow_addr)) => {
                self.stack_depth = stack_depth;
                self.last_overflow_addr = last_overflow_addr;
                Ok(())
            },
        }
    }
}

impl Codec for StackState {
    type V = (Seq<u64>, (usize, u64));

    open spec fn val(&self) -> (Seq<u64>, (usize, u64)) {
        (self.top().val(), (self.depth(), self.last_overflow()@))
    }

    open spec fn valid(v: (Seq<u64>, (usize, u64))) -> bool {
        <([Felt; 16], (usize, Felt)) as Codec>::valid(v) && v.1.0 >= MIN_STACK_DEPTH
    }

    open spec fn encoded(v: (Seq<u64>, (usize, u64))) -> Seq<u8> {
        <([Felt; 16], (usize, Felt)) as Codec>::encoded(v)
    }

    open spec fn decoded(s: Input) -> (Result<(Seq<u64>, (usize, u64)), Fault>, Input) {
        match <[Felt; 16] as Codec>::decoded(s) {
            (Err(fault), rest) => (Err(fault), rest),
            (Ok(top), rest) => match usize::decoded(rest) {
                (Err(fault), rest) => (Err(fault), rest),
                (Ok(depth), rest) => if depth < MIN_STACK_DEPTH {
                    (
                        Err(
                            Fault::Invalid(
                                sentence(
                                    "stack depth "@,
                                    depth as nat,
                                    " is below minimum "@,
                                    MIN_STACK_DEPTH as nat,
                                ),
                            ),
                        ),
                        rest,
                    )
                } else {
                    match Felt::decoded(rest) {
                        (Err(fault), rest) => (Err(fault), rest),
                        (Ok(addr), rest) => (Ok((top, (depth, addr))), rest),
                    }
                },
            },
        }
    }

    open spec fn min_size() -> nat {
        size_of::<Self>()
    }

    fn write_into(&self, target: &mut Vec<u8>) {
        let ghost before = target@;
        self.stack_top.write_into(target);
        self.stack_depth.write_into(target);
        self.last_overflow_addr.write_into(target);
        assert(target@ =~= before + Self::encoded(self.val()));
    }

    fn read_from(source: &mut BudgetedReader<SliceReader<'_>>) -> (result: Result<Self, DeserializationError>) {
        let stack_top = match <[Felt; 16] as Codec>::read_from(source) {
            Err(error) => {
                return Err(error);
            },
            Ok(stack_top) => stack_top,
        };
        let stack_depth: usize = match usize::read_from(source) {
            Err(error) => {
                return Err(error);
            },
            Ok(stack_depth) => stack_depth,
        };
        if stack_depth < MIN_STACK_DEPTH {
            return Err(
                DeserializationError::InvalidValue(
                    phrase("stack depth ", stack_depth, " is below minimum ", MIN_STACK_DEPTH),
                ),
            );
        }
        match Felt::read_from(source) {
            Err(error) => Err(error),
            Ok(last_overflow_addr) => Ok(StackState { stack_top, stack_depth, last_overflow_addr }),
        }
    }

    fn min_serialized_size() -> (size: usize) {
        core::mem::size_of::<Self>()
    }

    proof fn round_trip(v: (Seq<u64>, (usize, u64)), rest: Seq<u8>, budget: nat) {
        <([Felt; 16], (usize, Felt)) as Codec>::round_trip(v, rest, budget);
    }

    proof fn bytes_are_charged(s: Input) {
        <[Felt; 16] as Codec>::bytes_are_charged(s);
        let after_top = <[Felt; 16] as Codec>::decoded(s).1;
        usize::bytes_are_charged(after_top);
        let after_depth = usize::decoded(after_top).1;
        Felt::bytes_are_charged(after_depth);
        if Self::decoded(s).0 is Ok {
            charged_twice(s, after_top, after_depth);
            charged_twice(s, after_depth, Felt::decoded(after_depth).1);
        }
    }
}

// CORE TRACE STATE
// ================================================================================================

/// Subset of the processor state used to build the core trace: the system, decoder and stack sets
/// of columns.
#[derive(Debug, PartialEq, Eq)]
pub struct CoreTraceState {
    pub system: SystemState,
    pub decoder: DecoderState,
    pub stack: StackState,
}

impl Codec for CoreTraceState {
    type V = <(SystemState, (DecoderState, StackState)) as Codec>::V;

    open spec fn val(&self) -> <(SystemState, (DecoderState, StackState)) as Codec>::V {
        (self.system.val(), (self.decoder.val(), self.stack.val()))
    }

    open spec fn valid(v: <(SystemState, (DecoderState, StackState)) as Codec>::V) -> bool {
        <(SystemState, (DecoderState, StackState)) as Codec>::valid(v)
    }

    open spec fn encoded(v: <(SystemState, (DecoderState, StackState)) as Codec>::V) -> Seq<u8> {
        <(SystemState, (DecoderState, StackState)) as Codec>::encoded(v)
    }

    open spec fn decoded(s: Input) -> (Result<<(SystemState, (DecoderState, StackState)) as Codec>::V, Fault>, Input) {
        <(SystemState, (DecoderState, StackState)) as Codec>::decoded(s)
    }

    open spec fn min_size() -> nat {
        size_of::<Self>()
    }

    fn write_into(&self, target: &mut Vec<u8>) {
        let ghost before = target@;
        self.system.write_into(target);
        self.decoder.write_into(target);
        self.stack.write_into(target);
        assert(target@ =~= before + Self::encoded(self.val()));
    }

    fn read_from(source: &mut BudgetedReader<SliceReader<'_>>) -> (result: Result<Self, DeserializationError>) {
        match <(SystemState, (DecoderState, StackState)) as Codec>::read_from(source) {
            Err(error) => Err(error),
            Ok((system, (decoder, stack))) => Ok(CoreTraceState { system, decoder, stack }),
        }
    }

    fn min_serialized_size() -> (size: usize) {
        core::mem::size_of::<Self>()
    }

    proof fn round_trip(v: <(SystemState, (DecoderState, StackState)) as Codec>::V, rest: Seq<u8>, budget: nat) {
        <(SystemState, (DecoderState, StackState)) as Codec>::round_trip(v, rest, budget);
    }

    proof fn bytes_are_charged(s: Input) {
        <(SystemState, (DecoderState, StackState)) as Codec>::bytes_are_charged(s);
    }
}

// TRACE FRAGMENT CONTEXT
// ================================================================================================

/// Information required to build a core trace fragment: the state at its first clock cycle, what is
/// needed to replay the execution for the remainder of it, the continuations to execute when the
/// current node is done, and the forest being executed at its start.
#[derive(Debug, PartialEq, Eq)]
pub struct CoreTraceFragmentContext<C> {
    pub state: CoreTraceState,
    pub replay: ExecutionReplay,
    /// Continuation stack with forests encoded by their ids.
    pub continuation: C,
    /// Forest active at the start of this fragment.
    pub initial_mast_forest_id: MastForestId,
}

/// Four parts written one after the other are the first, followed by the rest.
proof fn four_parts(before: Seq<u8>, a: Seq<u8>, b: Seq<u8>, c: Seq<u8>, d: Seq<u8>)
    ensures
        before + a + b + c + d == before + (a + (b + (c + d))),
{
    assert(before + a + b + c + d =~= before + (a + (b + (c + d))));
}

/// The parts of a [`CoreTraceFragmentContext`], in the order in which they are written.
pub type FragmentParts<C> = (CoreTraceState, (ExecutionReplay, (C, MastForestId)));

impl<C: Codec> Codec for CoreTraceFragmentContext<C> {
    type V = <FragmentParts<C> as Codec>::V;

    open spec fn val(&self) -> <FragmentParts<C> as Codec>::V {
        (self.state.val(), (self.replay.val(), (self.continuation.val(), self.initial_mast_forest_id.val())))
    }

    open spec fn valid(v: <FragmentParts<C> as Codec>::V) -> bool {
        <FragmentParts<C> as Codec>::valid(v)
    }

    open spec fn encoded(v: <FragmentParts<C> as Codec>::V) -> Seq<u8> {
        <FragmentParts<C> as Codec>::encoded(v)
    }

    open spec fn decoded(s: Input) -> (Result<<FragmentParts<C> as Codec>::V, Fault>, Input) {
        <FragmentParts<C> as Codec>::decoded(s)
    }

    open spec fn min_size() -> nat {
        size_of::<Self>()
    }

    fn write_into(&self, target: &mut Vec<u8>) {
        let ghost before = target@;
        let ghost a = CoreTraceState::encoded(self.state.val());
        let ghost b = ExecutionReplay::encoded(self.replay.val());
        let ghost c = C::encoded(self.continuation.val());
        let ghost d = MastForestId::encoded(self.initial_mast_forest_id.val());
        self.state.write_into(target);
        self.replay.write_into(target);
        self.continuation.write_into(target);
        self.initial_mast_forest_id.write_into(target);
        proof {
            four_parts(before, a, b, c, d);
        }
    }

    fn read_from(source: &mut BudgetedReader<SliceReader<'_>>) -> (result: Result<Self, DeserializationError>) {
        match <FragmentParts<C> as Codec>::read_from(source) {
            Err(error) => Err(error),
            Ok((state, (replay, (continuation, initial_mast_forest_id)))) => Ok(
                CoreTraceFragmentContext { state, replay, continuation, initial_mast_forest_id },
            ),
        }
    }

    fn min_serialized_size() -> (size: usize) {
        core::mem::size_of::<Self>()
    }

    proof fn round_trip(v: <FragmentParts<C> as Codec>::V, rest: Seq<u8>, budget: nat) {
        <FragmentParts<C> as Codec>::round_trip(v, rest, budget);
    }

    proof fn bytes_are_charged(s: Input) {
        <FragmentParts<C> as Codec>::bytes_are_charged(s);
    }
}

} // verus!

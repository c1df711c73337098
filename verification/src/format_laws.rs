//! What the bytes of values are, and which bytes stand for no value.
use std::collections::VecDeque;

use vstd::prelude::*;

use crate::bytes::{le_bytes, le_bytes_len, le_value, le_value_of_bytes, span};
use crate::chiplets::{AceReplay, CircuitExtent, RangeCheckReplayValues, RangeCheckerReplay};
use crate::fields::{ContextId, Felt, MastForestId, MastNodeId, MerklePath, RowIndex, Word};
use crate::hasher::HasherOp;
use crate::inputs::{allocation_budget, HashFunction, TraceProvingInputs};
use crate::reader::{take_usize, vint_bytes, Fault, Input};
use crate::replay::{
    AdviceReplay, BitwiseOp, BitwiseReplay, BlockAddressReplay, BlockStackReplay, ExecutionContextReplay,
    ExecutionContextSystemInfo, ExecutionReplay, HasherResponseReplay, KernelReplay, MastForestResolutionReplay,
    MemoryReadsReplay, MemoryWritesReplay, NodeEndData, StackOverflowReplay,
};
use crate::state::{CoreTraceFragmentContext, CoreTraceState, DecoderState, StackState, SystemState};
use crate::wire::{decoded_bounded_count, encoded_items, number_taken_back, vals, vint_taken_back, Codec, Item};

verus! {

// NUMBERS
// ================================================================================================

/// A byte stands for itself, and the bytes of a larger number stand for it, least significant first.
pub proof fn numbers_are_little_endian(a: u8, b: u16, c: u32, d: u64)
    ensures
        u8::encoded(a) == seq![a],
        u16::encoded(b) == seq![(b % 256) as u8, (b / 256) as u8],
        u32::encoded(c) == seq![
            (c % 256) as u8,
            (c / 256 % 256) as u8,
            (c / 65536 % 256) as u8,
            (c / 16777216) as u8,
        ],
        Felt::encoded(d).len() == 8,
        le_value(Felt::encoded(d)) == d,
{
    reveal_with_fuel(le_bytes, 5);
    assert(span(8) == 0x1_0000_0000_0000_0000) by {
        reveal_with_fuel(span, 9);
    }
    le_bytes_len(d as nat, 8);
    le_value_of_bytes(d as nat, 8);
}

/// Ids and row numbers are written as numbers of four bytes.
pub proof fn ids_are_numbers(row: RowIndex, ctx: ContextId, node: MastNodeId, forest: MastForestId)
    ensures
        RowIndex::encoded(row.val()) == u32::encoded(row.0),
        ContextId::encoded(ctx.val()) == u32::encoded(ctx.0),
        MastNodeId::encoded(node.val()) == u32::encoded(node.0),
        MastForestId::encoded(forest.val()) == u32::encoded(forest.0),
{
}

/// The four elements of a word are written in order.
pub proof fn words_are_four_elements(word: Word)
    ensures
        Word::encoded(word.val()) == Felt::encoded(word.a.val()) + Felt::encoded(word.b.val()) + Felt::encoded(
            word.c.val(),
        ) + Felt::encoded(word.d.val()),
        Word::encoded(word.val()).len() == 32,
{
    le_bytes_len(word.a.val() as nat, 8);
    le_bytes_len(word.b.val() as nat, 8);
    le_bytes_len(word.c.val() as nat, 8);
    le_bytes_len(word.d.val() as nat, 8);
}

// SEVERAL VALUES
// ================================================================================================

/// The bytes of some values, one behind the other.
pub open spec fn in_turn<T: Codec>(items: Seq<T>) -> Seq<u8>
    decreases items.len(),
{
    if items.len() == 0 {
        Seq::empty()
    } else {
        T::encoded(items[0].val()) + in_turn(items.skip(1))
    }
}

/// The bytes of some values behind the number of them.
pub open spec fn counted<T: Codec>(items: Seq<T>) -> Seq<u8> {
    vint_bytes(items.len()) + in_turn(items)
}

proof fn in_turn_is_items<T: Codec>(items: Seq<T>, n: nat)
    requires
        n <= items.len(),
    ensures
        encoded_items::<T>(vals(items), n) + in_turn(items.skip(n as int)) == in_turn(items),
    decreases n,
{
    if n == 0 {
        assert(items.skip(0) =~= items);
        assert(encoded_items::<T>(vals(items), 0) + in_turn(items) =~= in_turn(items));
    } else {
        let m = (n - 1) as nat;
        in_turn_is_items(items, m);
        let rest = items.skip(m as int);
        assert(rest.skip(1) =~= items.skip(n as int));
        assert(rest[0] == items[m as int]);
        assert(encoded_items::<T>(vals(items), n) + in_turn(items.skip(n as int)) =~= encoded_items::<T>(
            vals(items),
            m,
        ) + (T::encoded(items[m as int].val()) + in_turn(items.skip(n as int))));
    }
}

proof fn in_turn_is_all<T: Codec>(items: Seq<T>)
    ensures
        encoded_items::<T>(vals(items), items.len()) == in_turn(items),
{
    in_turn_is_items(items, items.len());
    assert(items.skip(items.len() as int) =~= Seq::<T>::empty());
    assert(in_turn(Seq::<T>::empty()) =~= Seq::empty());
    assert(encoded_items::<T>(vals(items), items.len()) + Seq::<u8>::empty() =~= encoded_items::<T>(
        vals(items),
        items.len(),
    ));
}

/// The items of an array are written in order.
pub proof fn arrays_are_their_items<T: Item, const N: usize>(items: [T; N])
    ensures
        <[T; N] as Codec>::encoded(items.val()) == in_turn(items@),
{
    in_turn_is_all(items@);
}

/// The items of a queue are written in order, behind the number of them.
pub proof fn queues_are_counted<T: Item>(items: Seq<T>)
    ensures
        <VecDeque<T> as Codec>::encoded(vals(items)) == counted(items),
{
    in_turn_is_all(items);
}

/// The nodes of a path are written in order, behind a byte with the number of them.
pub proof fn paths_are_counted_by_a_byte(path: MerklePath)
    requires
        path.words().len() <= 255,
    ensures
        MerklePath::encoded(path.val()) == seq![path.words().len() as u8] + in_turn(path.words()),
{
    reveal_with_fuel(le_bytes, 2);
    in_turn_is_all(path.words());
}

/// A queue that claims to hold more items than there are bytes for is rejected.
pub proof fn overlong_queues_are_rejected<T: Item>(n: usize, rest: Seq<u8>, budget: nat)
    requires
        n * T::min_size() > rest.len(),
        vint_bytes(n as nat).len() <= budget,
    ensures
        <VecDeque<T> as Codec>::decoded(Input { bytes: vint_bytes(n as nat) + rest, budget }).0 matches Err(fault)
            && fault is Invalid,
{
    overlong_counts_are_rejected(n, T::min_size(), rest, budget);
}

proof fn overlong_counts_are_rejected(n: usize, size: nat, rest: Seq<u8>, budget: nat)
    requires
        n * size > rest.len(),
        vint_bytes(n as nat).len() <= budget,
    ensures
        decoded_bounded_count(Input { bytes: vint_bytes(n as nat) + rest, budget }, size).0 matches Err(fault)
            && fault is Invalid,
{
    let s = Input { bytes: vint_bytes(n as nat) + rest, budget };
    assert(take_usize(s) == (
        Ok::<nat, Fault>(n as nat),
        Input { bytes: rest, budget: (budget - vint_bytes(n as nat).len()) as nat },
    )) by {
        vint_taken_back(n as nat, rest, 9);
        vint_taken_back(n as nat, rest, budget);
    }
}

/// The least size of a value is that of some value: of every one where all have the same size.
pub proof fn least_sizes_are_reached(
    a: u8,
    b: u16,
    c: u32,
    element: Felt,
    word: Word,
    info: ExecutionContextSystemInfo,
    end: NodeEndData,
    op: BitwiseOp,
    function: HashFunction,
    two: [u16; 2],
    forest: MastForestId,
    node: MastNodeId,
)
    ensures
        u8::encoded(a).len() == u8::min_size(),
        u16::encoded(b).len() == u16::min_size(),
        u32::encoded(c).len() == u32::min_size(),
        MastForestId::min_size() == u32::min_size() && MastNodeId::min_size() == u32::min_size(),
        RowIndex::min_size() == u32::min_size() && ContextId::min_size() == u32::min_size(),
        Felt::encoded(element.val()).len() == Felt::min_size(),
        Word::encoded(word.val()).len() == Word::min_size(),
        ExecutionContextSystemInfo::encoded(info.val()).len() == ExecutionContextSystemInfo::min_size(),
        NodeEndData::encoded(end.val()).len() == NodeEndData::min_size(),
        BitwiseOp::encoded(op.val()).len() == BitwiseOp::min_size(),
        HashFunction::encoded(function.val()).len() == HashFunction::min_size(),
        RangeCheckReplayValues::encoded(RangeCheckReplayValues::Two(two).val()).len()
            == RangeCheckReplayValues::min_size(),
        HasherOp::encoded(HasherOp::HashBasicBlock((forest, node, word)).val()).len() == HasherOp::min_size(),
{
    words_are_four_elements(word);
    words_are_four_elements(info.parent_fn_hash);
    le_bytes_len(a as nat, 1);
    le_bytes_len(b as nat, 2);
    le_bytes_len(c as nat, 4);
    le_bytes_len(element.val() as nat, 8);
    le_bytes_len(info.parent_ctx.val() as nat, 4);
    le_bytes_len(end.ended_node_addr.val() as nat, 8);
    le_bytes_len(end.prev_addr.val() as nat, 8);
    le_bytes_len(end.prev_parent_addr.val() as nat, 8);
    le_bytes_len(forest.val() as nat, 4);
    le_bytes_len(node.val() as nat, 4);
    reveal_with_fuel(le_bytes, 2);
    assert(u8::encoded(0).len() == 1 && u8::encoded(1).len() == 1 && u8::encoded(2).len() == 1);
    assert(encoded_items::<u16>(two@, 2).len() == 4) by {
        reveal_with_fuel(encoded_items::<u16>, 3);
        le_bytes_len(two@[0] as nat, 2);
        le_bytes_len(two@[1] as nat, 2);
    }
}

// REPLAYS
// ================================================================================================

/// What is written for the parts of execution replays, each in the order of its fields.
pub proof fn small_parts_are_their_fields(
    info: ExecutionContextSystemInfo,
    end: NodeEndData,
    op: BitwiseOp,
    extent: CircuitExtent,
)
    ensures
        ExecutionContextSystemInfo::encoded(info.val()) == ContextId::encoded(info.parent_ctx.val()) + Word::encoded(
            info.parent_fn_hash.val(),
        ),
        NodeEndData::encoded(end.val()) == Felt::encoded(end.ended_node_addr.val()) + Felt::encoded(
            end.prev_addr.val(),
        ) + Felt::encoded(end.prev_parent_addr.val()),
        BitwiseOp::encoded(op.val()) == seq![
            if op is U32And {
                0u8
            } else {
                1u8
            },
        ],
        CircuitExtent::encoded(extent.val()) == RowIndex::encoded(extent.clk.val()) + vint_bytes(
            extent.num_rows as nat,
        ),
{
    reveal_with_fuel(le_bytes, 2);
}

/// A replay with one queue is written as that queue.
pub proof fn replays_are_their_queues<E: Item>(
    contexts: ExecutionContextReplay,
    forests: MastForestResolutionReplay,
    bitwise: BitwiseReplay,
    kernel: KernelReplay,
    blocks: BlockAddressReplay,
    ranges: RangeCheckerReplay,
    ace: AceReplay<E>,
)
    ensures
        ExecutionContextReplay::encoded(contexts.val()) == counted(contexts@),
        MastForestResolutionReplay::encoded(forests.val()) == counted(forests@),
        BitwiseReplay::encoded(bitwise.val()) == counted(bitwise@),
        KernelReplay::encoded(kernel.val()) == counted(kernel@),
        BlockAddressReplay::encoded(blocks.val()) == counted(blocks@),
        RangeCheckerReplay::encoded(ranges.val()) == counted(ranges@),
        <AceReplay<E> as Codec>::encoded(ace.val()) == counted(ace@),
{
    in_turn_is_all(contexts@);
    in_turn_is_all(forests@);
    in_turn_is_all(bitwise@);
    in_turn_is_all(kernel@);
    in_turn_is_all(blocks@);
    in_turn_is_all(ranges@);
    in_turn_is_all(ace@);
}

/// A replay with two queues is written as those queues, in order.
pub proof fn replays_are_their_queues_in_order(
    blocks: BlockStackReplay,
    reads: MemoryReadsReplay,
    writes: MemoryWritesReplay,
    overflow: StackOverflowReplay,
)
    ensures
        BlockStackReplay::encoded(blocks.val()) == counted(blocks@.0) + counted(blocks@.1),
        MemoryReadsReplay::encoded(reads.val()) == counted(reads@.0) + counted(reads@.1),
        MemoryWritesReplay::encoded(writes.val()) == counted(writes@.0) + counted(writes@.1),
        StackOverflowReplay::encoded(overflow.val()) == counted(overflow@.0) + counted(overflow@.1),
{
    in_turn_is_all(blocks@.0);
    in_turn_is_all(blocks@.1);
    in_turn_is_all(reads@.0);
    in_turn_is_all(reads@.1);
    in_turn_is_all(writes@.0);
    in_turn_is_all(writes@.1);
    in_turn_is_all(overflow@.0);
    in_turn_is_all(overflow@.1);
}

/// What was taken from the advice is written as elements, words and pairs of words.
pub proof fn advice_is_its_queues_in_order(advice: AdviceReplay)
    ensures
        AdviceReplay::encoded(advice.val()) == counted(advice@.0) + counted(advice@.1) + counted(advice@.2),
{
    in_turn_is_all(advice@.0);
    in_turn_is_all(advice@.1);
    in_turn_is_all(advice@.2);
    three_in_a_row(counted(advice@.0), counted(advice@.1), counted(advice@.2));
}

/// What the hasher answered is written as permutations, roots and updated roots.
pub proof fn answers_are_their_queues_in_order(hasher: HasherResponseReplay)
    ensures
        HasherResponseReplay::encoded(hasher.val()) == counted(hasher@.0) + counted(hasher@.1) + counted(hasher@.2),
{
    in_turn_is_all(hasher@.0);
    in_turn_is_all(hasher@.1);
    in_turn_is_all(hasher@.2);
    three_in_a_row(counted(hasher@.0), counted(hasher@.1), counted(hasher@.2));
}

proof fn three_in_a_row(a: Seq<u8>, b: Seq<u8>, c: Seq<u8>)
    ensures
        a + (b + c) == a + b + c,
{
}

proof fn four_in_a_row(a: Seq<u8>, b: Seq<u8>, c: Seq<u8>, d: Seq<u8>)
    ensures
        a + (b + (c + d)) == a + b + c + d,
{
}

/// An execution replay is written as its replays: of blocks, contexts, overflows, reads, advice, hashes,
/// addresses and forests.
pub proof fn execution_replays_are_their_parts(replay: ExecutionReplay)
    ensures
        ExecutionReplay::encoded(replay.val()) == BlockStackReplay::encoded(replay.block_stack.val())
            + ExecutionContextReplay::encoded(replay.execution_context.val()) + StackOverflowReplay::encoded(
            replay.stack_overflow.val(),
        ) + MemoryReadsReplay::encoded(replay.memory_reads.val()) + AdviceReplay::encoded(replay.advice.val())
            + HasherResponseReplay::encoded(replay.hasher.val()) + BlockAddressReplay::encoded(
            replay.block_address.val(),
        ) + MastForestResolutionReplay::encoded(replay.mast_forest_resolution.val()),
{
    eight_in_a_row(
        BlockStackReplay::encoded(replay.block_stack.val()),
        ExecutionContextReplay::encoded(replay.execution_context.val()),
        StackOverflowReplay::encoded(replay.stack_overflow.val()),
        MemoryReadsReplay::encoded(replay.memory_reads.val()),
        AdviceReplay::encoded(replay.advice.val()),
        HasherResponseReplay::encoded(replay.hasher.val()),
        BlockAddressReplay::encoded(replay.block_address.val()),
        MastForestResolutionReplay::encoded(replay.mast_forest_resolution.val()),
    );
}

proof fn eight_in_a_row(
    a: Seq<u8>,
    b: Seq<u8>,
    c: Seq<u8>,
    d: Seq<u8>,
    e: Seq<u8>,
    f: Seq<u8>,
    g: Seq<u8>,
    h: Seq<u8>,
)
    ensures
        a + (b + (c + (d + (e + (f + (g + h)))))) == a + b + c + d + e + f + g + h,
{
    let inner = e + (f + (g + h));
    assert(inner =~= e + f + g + h);
    assert(a + (b + (c + (d + inner))) =~= a + b + c + d + inner);
    assert(a + b + c + d + (e + f + g + h) =~= a + b + c + d + e + f + g + h);
}

// STATES
// ================================================================================================

/// What is written for the parts of the state of a trace, each in the order of its fields.
pub proof fn states_are_their_fields(
    system: SystemState,
    decoder: DecoderState,
    stack: StackState,
    state: CoreTraceState,
)
    ensures
        SystemState::encoded(system.val()) == RowIndex::encoded(system.clk.val()) + ContextId::encoded(system.ctx.val())
            + Word::encoded(system.fn_hash.val()) + Word::encoded(system.deferred_root.val()),
        DecoderState::encoded(decoder.val()) == Felt::encoded(decoder.current_addr.val()) + Felt::encoded(
            decoder.parent_addr.val(),
        ),
        StackState::encoded(stack.val()) == in_turn(stack.top()@) + vint_bytes(stack.depth() as nat) + Felt::encoded(
            stack.last_overflow().val(),
        ),
        CoreTraceState::encoded(state.val()) == SystemState::encoded(state.system.val()) + DecoderState::encoded(
            state.decoder.val(),
        ) + StackState::encoded(state.stack.val()),
{
    in_turn_is_all(stack.top()@);
}

/// The context of a fragment is written as its state, its replay, its continuation and its forest.
pub proof fn fragments_are_their_fields<C: Codec>(fragment: CoreTraceFragmentContext<C>)
    ensures
        <CoreTraceFragmentContext<C> as Codec>::encoded(fragment.val()) == CoreTraceState::encoded(fragment.state.val())
            + ExecutionReplay::encoded(fragment.replay.val()) + C::encoded(fragment.continuation.val())
            + MastForestId::encoded(fragment.initial_mast_forest_id.val()),
{
    four_in_a_row(
        CoreTraceState::encoded(fragment.state.val()),
        ExecutionReplay::encoded(fragment.replay.val()),
        C::encoded(fragment.continuation.val()),
        MastForestId::encoded(fragment.initial_mast_forest_id.val()),
    );
}

/// A stack of fewer than sixteen elements is rejected.
pub proof fn shallow_stacks_are_rejected(top: Seq<u64>, depth: usize, last: u64, rest: Seq<u8>, budget: nat)
    requires
        <[Felt; 16] as Codec>::valid(top),
        depth < 16,
        <([Felt; 16], usize) as Codec>::encoded((top, depth)).len() <= budget,
    ensures
        StackState::decoded(
            Input { bytes: StackState::encoded((top, (depth, last))) + rest, budget },
        ).0 matches Err(fault) && fault is Invalid,
{
    let behind = Felt::encoded(last) + rest;
    let first = <[Felt; 16] as Codec>::encoded(top);
    let second = usize::encoded(depth);
    assert(StackState::encoded((top, (depth, last))) + rest =~= first + (second + behind));
    <[Felt; 16] as Codec>::round_trip(top, second + behind, budget);
    usize::round_trip(depth, behind, (budget - first.len()) as nat);
}

// REQUESTS
// ================================================================================================

/// A range check is written as a tag for the number of its values, and the values in order.
pub proof fn range_checks_are_tagged(two: [u16; 2], four: [u16; 4])
    ensures
        RangeCheckReplayValues::encoded(RangeCheckReplayValues::Two(two).val()) == seq![0u8] + in_turn(two@),
        RangeCheckReplayValues::encoded(RangeCheckReplayValues::Four(four).val()) == seq![1u8] + in_turn(four@),
{
    reveal_with_fuel(le_bytes, 2);
    in_turn_is_all(two@);
    in_turn_is_all(four@);
    assert(vals(two@) =~= two@);
    assert(vals(four@) =~= four@);
}

/// A request to the hasher is written as a tag and its operands in order.
pub proof fn requests_are_tagged(
    state: [Felt; 12],
    first: Word,
    second: Word,
    element: Felt,
    last: Word,
    forest: MastForestId,
    node: MastNodeId,
    path: MerklePath,
)
    ensures
        HasherOp::encoded(HasherOp::Permute(state).val()) == seq![0u8] + in_turn(state@),
        HasherOp::encoded(HasherOp::HashControlBlock((first, second, element, last)).val()) == seq![1u8]
            + Word::encoded(first.val()) + Word::encoded(second.val()) + Felt::encoded(element.val()) + Word::encoded(
            last.val(),
        ),
        HasherOp::encoded(HasherOp::HashBasicBlock((forest, node, last)).val()) == seq![2u8] + MastForestId::encoded(
            forest.val(),
        ) + MastNodeId::encoded(node.val()) + Word::encoded(last.val()),
        HasherOp::encoded(HasherOp::BuildMerkleRoot((first, path, element)).val()) == seq![3u8] + Word::encoded(
            first.val(),
        ) + MerklePath::encoded(path.val()) + Felt::encoded(element.val()),
        HasherOp::encoded(HasherOp::UpdateMerkleRoot((first, second, path, element)).val()) == seq![4u8]
            + Word::encoded(first.val()) + Word::encoded(second.val()) + MerklePath::encoded(path.val())
            + Felt::encoded(element.val()),
{
    reveal_with_fuel(le_bytes, 2);
    in_turn_is_all(state@);
}

// INPUTS
// ================================================================================================

/// Proving inputs are written as the witness, and a byte for the hash function.
pub proof fn proving_inputs_are_their_parts<W: Codec>(inputs: TraceProvingInputs<W>)
    ensures
        <TraceProvingInputs<W> as Codec>::encoded(inputs.val()) == W::encoded(inputs@.0.val()) + seq![
            match inputs@.1 {
                HashFunction::Blake3_256 => 1u8,
                HashFunction::Rpo256 => 2u8,
                HashFunction::Rpx256 => 3u8,
                HashFunction::Poseidon2 => 4u8,
                HashFunction::Keccak => 5u8,
            },
        ],
{
    reveal_with_fuel(le_bytes, 2);
}

/// No more may be allocated for a payload than the budget and four times its length, and no less than
/// the smaller of them that a `usize` can hold.
pub proof fn allocations_are_capped(len: nat, budget: nat)
    ensures
        allocation_budget(len, budget) <= budget,
        allocation_budget(len, budget) <= 4 * len,
        allocation_budget(len, budget) <= usize::MAX,
        allocation_budget(len, budget) == budget || allocation_budget(len, budget) == 4 * len || allocation_budget(
            len,
            budget,
        ) == usize::MAX,
{
}

// BYTES OF NO VALUE
// ================================================================================================

proof fn tag_taken_back(tag: u8, rest: Seq<u8>, budget: nat)
    requires
        budget > 0,
    ensures
        u8::decoded(Input { bytes: seq![tag] + rest, budget }) == (
            Ok::<u8, Fault>(tag),
            Input { bytes: rest, budget: (budget - 1) as nat },
        ),
{
    reveal_with_fuel(le_bytes, 2);
    assert(u8::encoded(tag) =~= seq![tag]);
    u8::round_trip(tag, rest, budget);
}

/// A byte that is no tag is rejected, whatever follows it.
pub proof fn unknown_tags_are_rejected(tag: u8, rest: Seq<u8>, budget: nat)
    requires
        budget > 0,
    ensures
        ({
            let s = Input { bytes: seq![tag] + rest, budget };
            &&& tag > 1 ==> (BitwiseOp::decoded(s).0 matches Err(fault) && fault is Invalid)
            &&& tag > 1 ==> (RangeCheckReplayValues::decoded(s).0 matches Err(fault) && fault is Invalid)
            &&& tag > 4 ==> (HasherOp::decoded(s).0 matches Err(fault) && fault is Invalid)
            &&& tag == 0 || tag > 5 ==> (HashFunction::decoded(s).0 matches Err(fault) && fault is Invalid)
        }),
{
    tag_taken_back(tag, rest, budget);
}

/// A number that is not below the order of the field is no element.
pub proof fn large_numbers_are_no_elements(n: u64, rest: Seq<u8>, budget: nat)
    requires
        n >= 0xffff_ffff_0000_0001,
        budget >= 8,
    ensures
        Felt::decoded(Input { bytes: le_bytes(n as nat, 8) + rest, budget }).0 matches Err(fault) && fault is Invalid,
{
    assert(span(8) == 0x1_0000_0000_0000_0000) by {
        reveal_with_fuel(span, 9);
    }
    number_taken_back(n as nat, 8, rest, budget);
}

/// Nothing is read from too few bytes, nor beyond the budget.
pub proof fn too_few_bytes_are_rejected(s: Input)
    ensures
        s.bytes.len() < 1 && s.budget >= 1 ==> u8::decoded(s).0 == Err::<u8, Fault>(Fault::EndOfInput),
        s.bytes.len() < 2 && s.budget >= 2 ==> u16::decoded(s).0 == Err::<u16, Fault>(Fault::EndOfInput),
        s.bytes.len() < 4 && s.budget >= 4 ==> u32::decoded(s).0 == Err::<u32, Fault>(Fault::EndOfInput),
        s.bytes.len() < 8 && s.budget >= 8 ==> Felt::decoded(s).0 == Err::<u64, Fault>(Fault::EndOfInput),
        s.budget < 1 ==> (u8::decoded(s).0 matches Err(fault) && fault is Invalid),
        s.budget < 2 ==> (u16::decoded(s).0 matches Err(fault) && fault is Invalid),
        s.budget < 4 ==> (u32::decoded(s).0 matches Err(fault) && fault is Invalid),
        s.budget < 8 ==> (Felt::decoded(s).0 matches Err(fault) && fault is Invalid),
{
}

proof fn bytes_of_their_value(bytes: Seq<u8>)
    ensures
        le_bytes(le_value(bytes), bytes.len()) == bytes,
        le_value(bytes) < span(bytes.len()),
    decreases bytes.len(),
{
    if bytes.len() > 0 {
        let rest = bytes.skip(1);
        bytes_of_their_value(rest);
        let n = le_value(bytes);
        assert(n == bytes[0] as nat + 256 * le_value(rest));
        assert(n % 256 == bytes[0] && n / 256 == le_value(rest));
        assert(seq![bytes[0]] + rest =~= bytes);
    }
}

/// What is read is what would be written for it, and is one of the values that can be.
pub proof fn read_values_were_written(s: Input)
    ensures
        u8::decoded(s).0 matches Ok(v) ==> s.bytes.take(1) == u8::encoded(v),
        u16::decoded(s).0 matches Ok(v) ==> s.bytes.take(2) == u16::encoded(v),
        u32::decoded(s).0 matches Ok(v) ==> s.bytes.take(4) == u32::encoded(v),
        Felt::decoded(s).0 matches Ok(v) ==> s.bytes.take(8) == Felt::encoded(v) && v < 0xffff_ffff_0000_0001,
        StackState::decoded(s).0 matches Ok(v) ==> v.1.0 >= 16,
        BitwiseOp::decoded(s).0 matches Ok(v) ==> s.bytes.take(1) == BitwiseOp::encoded(v),
        HashFunction::decoded(s).0 matches Ok(v) ==> s.bytes.take(1) == HashFunction::encoded(v),
{
    assert(span(1) == 0x100 && span(2) == 0x1_0000 && span(4) == 0x1_0000_0000 && span(8) == 0x1_0000_0000_0000_0000)
        by {
        reveal_with_fuel(span, 9);
    }
    if s.bytes.len() >= 1 {
        bytes_of_their_value(s.bytes.take(1));
    }
    if s.bytes.len() >= 2 {
        bytes_of_their_value(s.bytes.take(2));
    }
    if s.bytes.len() >= 4 {
        bytes_of_their_value(s.bytes.take(4));
    }
    if s.bytes.len() >= 8 {
        bytes_of_their_value(s.bytes.take(8));
    }
}

} // verus!

//! Recording, replaying, and the bytes of what was recorded.
use std::collections::BTreeMap;

use miden_crypto::utils::{BudgetedReader, Deserializable, Serializable, SliceReader};
use miden_replay::chiplets::{
    AceReplay, CircuitExtent, RangeCheckReplayValues, RangeCheckerReplay, MERKLE_DEPTH_RANGE_SCALE,
};
use miden_replay::errors::{AdviceError, ExecutionError, MemoryError, OperationError};
use miden_replay::fields::{ContextId, Felt, MastForestId, MastNodeId, MerklePath, RowIndex, Word, ORDER};
use miden_replay::hasher::{
    BasicBlock, Forest, ForestNode, HasherOp, HasherRequestReplay, ResolvedBasicBlockGroups, ResolvedHasherOp,
};
use miden_replay::reader::DeserializationError;
use miden_replay::replay::{
    AdviceReplay, BitwiseOp, BitwiseReplay, BlockAddressReplay, BlockStackReplay, ExecutionContextReplay,
    ExecutionContextSystemInfo, ExecutionReplay, HasherResponseReplay, KernelReplay, MastForestResolutionReplay,
    MemoryReadsReplay, MemoryWritesReplay, NodeEndData, NodeFlags, StackOverflowReplay,
};
use miden_replay::state::{
    CoreTraceFragmentContext, CoreTraceState, DecoderState, StackState, SystemState, MIN_STACK_DEPTH,
};
use miden_replay::wire::Codec;

fn felt(value: u64) -> Felt {
    Felt::new_unchecked(value)
}

fn word(value: u64) -> Word {
    Word::new(felt(value), felt(value + 1), felt(value + 2), felt(value + 3))
}

fn bytes_of<T: Codec>(value: &T) -> Vec<u8> {
    let mut bytes = Vec::new();
    value.write_into(&mut bytes);
    bytes
}

fn read<T: Codec>(bytes: &[u8], budget: usize) -> Result<T, DeserializationError> {
    let mut source = BudgetedReader::new(SliceReader::new(bytes), budget);
    T::read_from(&mut source)
}

fn round_trip<T: Codec + PartialEq + std::fmt::Debug>(value: T) {
    let bytes = bytes_of(&value);
    assert_eq!(read::<T>(&bytes, bytes.len()).expect("should be read back"), value);
    if !bytes.is_empty() {
        assert!(read::<T>(&bytes[..bytes.len() - 1], bytes.len()).is_err());
        assert!(read::<T>(&bytes, bytes.len() - 1).is_err());
    }
}

// FIELD ELEMENTS
// ================================================================================================

#[test]
fn field_elements_are_reduced() {
    assert_eq!(felt(ORDER).as_canonical_u64(), 0);
    assert_eq!(felt(ORDER - 1).as_canonical_u64(), ORDER - 1);
    assert_eq!(felt(u64::MAX).as_canonical_u64(), u64::MAX - ORDER);
    assert_eq!(felt(ORDER + 5), felt(5));
    assert_eq!(ORDER, miden_crypto::Felt::ORDER);
}

#[test]
fn bytes_are_those_of_the_field_library() {
    let theirs = |n: u64| miden_crypto::Felt::new_unchecked(n);
    assert_eq!(bytes_of(&felt(0x0102_0304_0506_0708)), theirs(0x0102_0304_0506_0708).to_bytes());
    let words = [word(7), word(70)];
    let their_words: Vec<miden_crypto::Word> = [7u64, 70]
        .iter()
        .map(|n| miden_crypto::Word::new([theirs(*n), theirs(n + 1), theirs(n + 2), theirs(n + 3)]))
        .collect();
    assert_eq!(bytes_of(&words[0]), their_words[0].to_bytes());
    assert_eq!(bytes_of(&words), their_words.iter().flat_map(|w| w.to_bytes()).collect::<Vec<u8>>());
    let path = MerklePath::new(words.to_vec());
    let their_path = miden_crypto::merkle::MerklePath::new(their_words);
    assert_eq!(bytes_of(&path), their_path.to_bytes());
    for n in [0usize, 1, 127, 128, 0x3fff, 0x4000, 0x1f_ffff, 0x20_0000, 1 << 28, 1 << 35, 1 << 42, 1 << 49, 1 << 56, usize::MAX] {
        assert_eq!(bytes_of(&n), n.to_bytes());
        round_trip(n);
    }
}

#[test]
fn a_field_element_out_of_range_is_rejected() {
    let bytes = ORDER.to_le_bytes();
    assert_eq!(
        read::<Felt>(&bytes, 8),
        Err(DeserializationError::InvalidValue(format!("value {ORDER} is not a valid felt")))
    );
}

#[test]
fn a_word_with_an_element_out_of_range_is_rejected() {
    for element in 0..4 {
        let mut bytes = [0; 32];
        bytes[8 * element..8 * element + 8].copy_from_slice(&ORDER.to_le_bytes());
        let expected = "value not in the appropriate range".to_string();
        assert_eq!(read::<Word>(&bytes, 32), Err(DeserializationError::InvalidValue(expected.clone())));
        let theirs = <miden_crypto::Word as Deserializable>::read_from(&mut SliceReader::new(&bytes));
        assert_eq!(theirs.unwrap_err().to_string(), format!("invalid value: {expected}"));
        let mut path = vec![1];
        path.extend(bytes);
        assert_eq!(read::<MerklePath>(&path, 33), Err(DeserializationError::InvalidValue(expected)));
    }
}

#[test]
fn too_few_bytes_are_an_unexpected_end() {
    assert_eq!(read::<Felt>(&[1, 2, 3], 100), Err(DeserializationError::UnexpectedEOF));
    assert_eq!(read::<usize>(&[], 0), Err(DeserializationError::UnexpectedEOF));
    assert_eq!(
        read::<Felt>(&[0; 8], 7),
        Err(DeserializationError::InvalidValue("budget exhausted: requested 8 bytes, 7 remaining".to_string()))
    );
    assert_eq!(
        read::<[Felt; 12]>(&[0; 96], 90),
        Err(DeserializationError::InvalidValue(
            "requested 12 elements but reader can provide at most 11".to_string()
        ))
    );
    assert_eq!(
        read::<MerklePath>(&[3; 97], 90),
        Err(DeserializationError::InvalidValue(
            "requested 3 elements but reader can provide at most 2".to_string()
        ))
    );
}

#[test]
fn numbers_round_trip() {
    round_trip(0x12u8);
    round_trip(0x1234u16);
    round_trip(0x1234_5678u32);
    round_trip((1u8, 2u16, 3u32, 4usize));
    round_trip([word(1), word(2)]);
    round_trip(RowIndex(9));
    round_trip(ContextId(8));
    round_trip(MastNodeId(7));
    round_trip(MastForestId(6));
    assert_eq!(bytes_of(&0x1234u16), vec![0x34, 0x12]);
}

#[test]
fn a_queue_that_claims_too_many_items_is_rejected() {
    // A count of a thousand items of eight bytes each, and eight bytes.
    let mut bytes = bytes_of(&1000usize);
    bytes.extend([0; 8]);
    assert_eq!(
        read::<BlockAddressReplay>(&bytes, 100),
        Err(DeserializationError::InvalidValue("VecDeque count 1000 exceeds budget 12".to_string()))
    );
    assert_eq!(
        read::<BlockAddressReplay>(&bytes, 100_000),
        Err(DeserializationError::InvalidValue("VecDeque count 1000 exceeds remaining input".to_string()))
    );
    assert_eq!(
        read::<MemoryReadsReplay>(&bytes, 100),
        Err(DeserializationError::InvalidValue(
            "memory element replay length 1000 exceeds reader allocation bound 4".to_string()
        ))
    );
    // Without the look at the remaining input the items are read until there are none.
    assert_eq!(read::<MemoryReadsReplay>(&bytes, 100_000), Err(DeserializationError::UnexpectedEOF));
    let mut words = bytes_of(&0usize);
    words.extend(&bytes);
    assert_eq!(
        read::<MemoryWritesReplay>(&words, 100),
        Err(DeserializationError::InvalidValue(
            "memory word replay length 1000 exceeds reader allocation bound 2".to_string()
        ))
    );
    assert_eq!(
        read::<AceReplay<CircuitExtent>>(&bytes, 100),
        Err(DeserializationError::InvalidValue(
            "ACE replay length 1000 exceeds reader allocation bound 10".to_string()
        ))
    );
}

// REPLAYS
// ================================================================================================

#[test]
fn what_is_recorded_first_is_replayed_first() {
    let mut replay = BlockAddressReplay::default();
    replay.record_block_address(felt(1));
    replay.record_block_address(felt(2));
    assert_eq!(replay.replay_block_address(), Ok(felt(1)));
    replay.record_block_address(felt(3));
    assert_eq!(replay.replay_block_address(), Ok(felt(2)));
    assert_eq!(replay.replay_block_address(), Ok(felt(3)));
    assert_eq!(
        replay.replay_block_address(),
        Err(ExecutionError::Internal("no block address operations recorded"))
    );
}

#[test]
fn execution_contexts_are_replayed() {
    let info = ExecutionContextSystemInfo { parent_ctx: ContextId(4), parent_fn_hash: word(3) };
    let mut replay = ExecutionContextReplay::default();
    replay.record_execution_context(info);
    assert_eq!(bytes_of(&info).len(), 36);
    assert_eq!(<ExecutionContextSystemInfo as Codec>::min_serialized_size(), 36);
    let bytes = bytes_of(&replay);
    assert_eq!(read::<ExecutionContextReplay>(&bytes, bytes.len()), Ok(replay));
    let mut replay = read::<ExecutionContextReplay>(&bytes, bytes.len()).unwrap();
    assert_eq!(replay.replay_execution_context(), Ok(info));
    assert_eq!(
        replay.replay_execution_context(),
        Err(OperationError::Internal("no execution context recorded"))
    );
}

#[test]
fn a_node_starts_and_ends() {
    let mut state = DecoderState { current_addr: felt(0), parent_addr: felt(0) };
    let mut addresses = BlockAddressReplay::default();
    let mut blocks = BlockStackReplay::default();
    addresses.record_block_address(felt(10));
    blocks.record_node_start_parent_addr(felt(5));
    blocks.record_node_end(felt(10), felt(5), felt(1));
    assert_eq!(state.replay_node_start(&mut addresses, &mut blocks), Ok(()));
    assert_eq!(state, DecoderState { current_addr: felt(10), parent_addr: felt(5) });
    assert_eq!(state.replay_node_end(&mut blocks), Ok(felt(10)));
    assert_eq!(state, DecoderState { current_addr: felt(5), parent_addr: felt(1) });
    assert_eq!(
        state.replay_node_end(&mut blocks),
        Err(ExecutionError::Internal("no node address and flags recorded"))
    );
    assert_eq!(
        state.replay_node_start(&mut addresses, &mut blocks),
        Err(ExecutionError::Internal("no block address operations recorded"))
    );
    addresses.record_block_address(felt(11));
    assert_eq!(
        state.replay_node_start(&mut addresses, &mut blocks),
        Err(ExecutionError::Internal("no node start parent address recorded"))
    );
    // The current address was replayed before the parent address was found missing.
    assert_eq!(state, DecoderState { current_addr: felt(11), parent_addr: felt(1) });
    round_trip(state);
    round_trip(blocks);
    round_trip(NodeEndData { ended_node_addr: felt(1), prev_addr: felt(2), prev_parent_addr: felt(3) });
}

#[test]
fn node_flags_stand_in_order() {
    let flags = NodeFlags::new(true, false, false, true);
    assert_eq!(flags.is_loop_body(), felt(1));
    assert_eq!(flags.is_loop(), felt(0));
    assert_eq!(flags.is_call(), felt(0));
    assert_eq!(flags.is_syscall(), felt(1));
    assert_eq!(flags.to_hasher_state_second_word(), Word::new(felt(1), felt(0), felt(0), felt(1)));
}

#[test]
fn the_stack_overflows_and_comes_back() {
    let top: [Felt; 16] = core::array::from_fn(|i| felt(i as u64));
    let mut stack = StackState::new(top, MIN_STACK_DEPTH, felt(0));
    let mut replay = StackOverflowReplay::new();
    assert_eq!(stack.get(0), felt(15));
    assert_eq!(stack.get(15), felt(0));
    assert_eq!(stack.pop_overflow(&mut replay), Ok(None));
    stack.push_overflow(felt(99), RowIndex(14));
    stack.push_overflow(felt(98), RowIndex(16));
    assert_eq!(stack.stack_depth(), 18);
    assert_eq!(stack.overflow_addr(), felt(16));
    assert_eq!(stack.num_overflow_elements_in_current_ctx(), 2);
    assert_eq!(stack.overflow_helper(), felt(2));
    assert_eq!(
        stack.pop_overflow(&mut replay),
        Err(OperationError::Internal("no overflow pop operations recorded"))
    );
    replay.record_pop_overflow(felt(98), felt(14));
    assert_eq!(replay.peek_replay_pop_overflow(), Some(&(felt(98), felt(14))));
    assert_eq!(stack.pop_overflow(&mut replay), Ok(Some(felt(98))));
    assert_eq!(replay.peek_replay_pop_overflow(), None);
    assert_eq!((stack.stack_depth(), stack.overflow_addr()), (17, felt(14)));
    stack.start_context();
    assert_eq!((stack.stack_depth(), stack.overflow_addr()), (16, felt(0)));
    assert_eq!(
        stack.restore_context(&mut replay),
        Err(OperationError::Internal("no overflow address operations recorded"))
    );
    replay.record_restore_context_overflow_addr(17, felt(14));
    round_trip(replay);
    let mut replay = StackOverflowReplay::default();
    replay.record_restore_context_overflow_addr(17, felt(14));
    assert_eq!(stack.restore_context(&mut replay), Ok(()));
    assert_eq!((stack.stack_depth(), stack.overflow_addr()), (17, felt(14)));
    round_trip(stack);
}

#[test]
fn a_stack_that_is_too_shallow_is_rejected() {
    let stack = StackState::new([felt(1); 16], 15, felt(0));
    let bytes = bytes_of(&stack);
    assert_eq!(
        read::<StackState>(&bytes, bytes.len()),
        Err(DeserializationError::InvalidValue("stack depth 15 is below minimum 16".to_string()))
    );
}

#[test]
fn memory_reads_are_replayed() {
    let mut replay = MemoryReadsReplay::default();
    replay.record_read_element(felt(1), felt(100), ContextId(0), RowIndex(5));
    replay.record_read_word(word(2), felt(104), ContextId(0), RowIndex(6));
    assert_eq!(replay.num_accesses(), Some(2));
    assert_eq!(replay.iter_read_elements()[0], (felt(1), felt(100), ContextId(0), RowIndex(5)));
    assert_eq!(replay.iter_read_words()[0], (word(2), felt(104), ContextId(0), RowIndex(6)));
    let bytes = bytes_of(&replay);
    assert_eq!(bytes.len(), 1 + 24 + 1 + 48);
    let mut copy = read::<MemoryReadsReplay>(&bytes, bytes.len()).unwrap();
    assert_eq!(copy, replay);
    assert_eq!(copy.read_element(ContextId(0), felt(100)), Ok(felt(1)));
    assert_eq!(copy.read_word(ContextId(0), felt(104), RowIndex(6)), Ok(word(2)));
    assert_eq!(copy.write_element(ContextId(0), felt(100), felt(7)), Ok(()));
    assert_eq!(copy.write_word(ContextId(0), felt(100), RowIndex(1), word(7)), Ok(()));
    assert_eq!(
        copy.replay_read_element(felt(100)),
        Err(MemoryError::MemoryReadFailed("memory elements replay is empty".to_string()))
    );
    assert_eq!(
        copy.replay_read_word(felt(100)),
        Err(MemoryError::MemoryReadFailed("memory words replay is empty".to_string()))
    );
}

#[test]
fn memory_writes_are_recorded() {
    let mut replay = MemoryWritesReplay::default();
    replay.record_write_element(felt(1), felt(100), ContextId(0), RowIndex(5));
    replay.record_write_word(word(2), felt(104), ContextId(0), RowIndex(6));
    assert_eq!(replay.num_accesses(), Some(2));
    assert_eq!(replay.iter_elements_written().len(), 1);
    assert_eq!(replay.iter_words_written()[0].0, word(2));
    round_trip(replay);
}

#[test]
fn advice_is_replayed() {
    let mut replay = AdviceReplay::default();
    assert_eq!(replay.pop_stack(), Err(AdviceError::StackReadFailed));
    assert_eq!(replay.pop_stack_word(), Err(AdviceError::StackReadFailed));
    assert_eq!(replay.pop_stack_dword(), Err(AdviceError::StackReadFailed));
    replay.record_pop_stack(felt(1));
    replay.record_pop_stack_word(word(2));
    replay.record_pop_stack_dword([word(3), word(4)]);
    let bytes = bytes_of(&replay);
    let mut copy = read::<AdviceReplay>(&bytes, bytes.len()).unwrap();
    assert_eq!(copy, replay);
    assert_eq!(copy.pop_stack(), Ok(felt(1)));
    assert_eq!(copy.pop_stack_word(), Ok(word(2)));
    assert_eq!(copy.pop_stack_dword(), Ok([word(3), word(4)]));
    assert_eq!(copy.get_merkle_path(word(1), felt(2), felt(3)), Ok(None));
    assert_eq!(copy.update_merkle_node(word(1), felt(2), felt(3), word(4)), Ok(None));
    assert_eq!(copy.replay_pop_stack(), Err(ExecutionError::Internal("no stack pop operations recorded")));
    assert_eq!(
        copy.replay_pop_stack_word(),
        Err(ExecutionError::Internal("no stack word pop operations recorded"))
    );
    assert_eq!(
        copy.replay_pop_stack_dword(),
        Err(ExecutionError::Internal("no stack dword pop operations recorded"))
    );
}

#[test]
fn bitwise_operations_are_recorded() {
    let mut replay = BitwiseReplay::default();
    replay.record_u32and(felt(1), felt(2));
    replay.record_u32xor(felt(3), felt(4));
    assert_eq!(replay.num_operations(), 2);
    let bytes = bytes_of(&replay);
    let copy = read::<BitwiseReplay>(&bytes, bytes.len()).unwrap();
    assert_eq!(copy.into_iter()[1], (BitwiseOp::U32Xor, felt(3), felt(4)));
    assert_eq!(
        read::<BitwiseOp>(&[2], 1),
        Err(DeserializationError::InvalidValue("invalid bitwise replay op tag 2".to_string()))
    );
    round_trip(BitwiseOp::U32And);
}

#[test]
fn kernel_accesses_are_recorded() {
    let mut replay = KernelReplay::default();
    replay.record_kernel_proc_access(word(9));
    let bytes = bytes_of(&replay);
    assert_eq!(read::<KernelReplay>(&bytes, bytes.len()).unwrap().into_iter()[0], word(9));
    round_trip(replay);
}

#[test]
fn forests_are_resolved_again() {
    let mut replay = MastForestResolutionReplay::default();
    replay.record_resolution(MastNodeId(1), MastForestId(2));
    replay.record_resolution(MastNodeId(3), MastForestId(4));
    assert_eq!(replay.iter_forest_ids(), vec![MastForestId(2), MastForestId(4)]);
    assert_eq!(replay.replay_resolution(), Ok((MastNodeId(1), MastForestId(2))));
    assert_eq!(replay.replay_resolution(), Ok((MastNodeId(3), MastForestId(4))));
    assert_eq!(
        replay.replay_resolution(),
        Err(ExecutionError::Internal("no MastForest resolutions recorded"))
    );
    round_trip(replay);
}

#[test]
fn range_checks_are_recorded() {
    let mut replay = RangeCheckerReplay::default();
    replay.record_range_check_u32([1, 2, 3, 4]);
    replay.record_merkle_depth(felt(64));
    replay.record_merkle_depth(felt(1));
    replay.record_u32div_remainder_diff([5, 6]);
    let bytes = bytes_of(&replay);
    assert_eq!(bytes.len(), 1 + 9 + 5 + 5 + 5);
    let checks = read::<RangeCheckerReplay>(&bytes, bytes.len()).unwrap().into_iter();
    assert_eq!(checks[0].as_ref(), &[1, 2, 3, 4]);
    assert_eq!(checks[1], RangeCheckReplayValues::Two([64, 63 * MERKLE_DEPTH_RANGE_SCALE]));
    assert_eq!(checks[2].as_ref(), &[1, 0]);
    assert_eq!(checks[3], RangeCheckReplayValues::Two([5, 6]));
    assert_eq!(
        read::<RangeCheckReplayValues>(&[7, 0, 0, 0, 0], 5),
        Err(DeserializationError::InvalidValue("invalid range check replay variant tag 7".to_string()))
    );
    round_trip(replay);
}

#[test]
fn sizes_are_estimated() {
    // Items of queues are taken to have as many bytes as they have at least.
    assert_eq!(<NodeEndData as Codec>::min_serialized_size(), 24);
    assert_eq!(<RangeCheckReplayValues as Codec>::min_serialized_size(), 5);
    assert_eq!(<BitwiseOp as Codec>::min_serialized_size(), 1);
    assert_eq!(<(Word, Felt, ContextId, RowIndex) as Codec>::min_serialized_size(), 48);
    // Others are taken to have as many as they have in memory.
    assert_eq!(<StackState as Codec>::min_serialized_size(), 144);
    assert_eq!(<SystemState as Codec>::min_serialized_size(), 72);
    assert_eq!(<MerklePath as Codec>::min_serialized_size(), std::mem::size_of::<MerklePath>());
    assert_eq!(<ExecutionReplay as Codec>::min_serialized_size(), std::mem::size_of::<ExecutionReplay>());
}

#[test]
fn circuit_evaluations_are_recorded() {
    assert_eq!(AceReplay::<CircuitExtent>::default(), AceReplay::new());
    let mut replay = AceReplay::new();
    replay.record_circuit_evaluation(CircuitExtent { clk: RowIndex(3), num_rows: 10 });
    replay.record_circuit_evaluation(CircuitExtent { clk: RowIndex(4), num_rows: 20 });
    assert_eq!(replay.trace_len(), Some(30));
    let bytes = bytes_of(&replay);
    let evaluations = read::<AceReplay<CircuitExtent>>(&bytes, bytes.len()).unwrap().into_iter();
    assert_eq!(evaluations[1], (RowIndex(4), CircuitExtent { clk: RowIndex(4), num_rows: 20 }));
    replay.record_circuit_evaluation(CircuitExtent { clk: RowIndex(5), num_rows: usize::MAX });
    assert_eq!(replay.trace_len(), None);
}

#[test]
fn hasher_responses_are_replayed() {
    let mut replay = HasherResponseReplay::default();
    let state = [felt(3); 12];
    replay.record_permute(felt(1), state);
    replay.record_build_merkle_root(felt(2), word(20));
    replay.record_build_merkle_root(felt(3), word(30));
    replay.record_update_merkle_root(felt(4), word(40), word(50));
    replay.record_update_merkle_root(felt(5), word(60), word(70));
    let bytes = bytes_of(&replay);
    let mut copy = read::<HasherResponseReplay>(&bytes, bytes.len()).unwrap();
    assert_eq!(copy, replay);
    let failed = || OperationError::MerklePathVerificationFailed;
    assert_eq!(copy.permute([felt(0); 12]), Ok((felt(1), state)));
    assert_eq!(copy.verify_merkle_root(word(20), word(0), None, felt(0), failed), Ok(felt(2)));
    assert_eq!(copy.verify_merkle_root(word(31), word(0), None, felt(0), failed), Err(OperationError::MerklePathVerificationFailed));
    assert_eq!(copy.update_merkle_root(word(40), word(0), word(1), None, felt(0), failed), Ok((felt(4), word(50))));
    assert_eq!(copy.update_merkle_root(word(61), word(0), word(1), None, felt(0), failed), Err(OperationError::MerklePathVerificationFailed));
    assert_eq!(copy.replay_permute(), Err(OperationError::Internal("no permutation operations recorded")));
    assert_eq!(
        copy.verify_merkle_root(word(20), word(0), None, felt(0), failed),
        Err(OperationError::Internal("no build merkle root operations recorded"))
    );
    assert_eq!(
        copy.update_merkle_root(word(20), word(0), word(1), None, felt(0), failed),
        Err(OperationError::Internal("no mrupdate operations recorded"))
    );
}

// HASHER REQUESTS
// ================================================================================================

/// A streamed replay reaching the buffered trace-build path is a logic error
/// and must surface immediately, not as a silently empty hasher chiplet.
#[test]
fn streamed_replay_in_buffered_path_errors() {
    let replay = HasherRequestReplay::streamed();
    let store = vec![];
    let mut ops = replay.into_resolved_ops(&store).into_iter();
    assert!(matches!(ops.next(), Some(Err(ExecutionError::Internal(_)))));
    assert!(ops.next().is_none());
}

fn block() -> BasicBlock {
    BasicBlock { digest: word(1000), batches: vec![[felt(1); 8], [felt(2); 8]] }
}

#[test]
fn buffered_requests_are_resolved_in_order() {
    let mut replay = HasherRequestReplay::default();
    assert!(replay.record_permute_input([felt(1); 12]).is_none());
    assert!(replay.record_hash_control_block(word(1), word(2), felt(3), word(4)).is_none());
    assert!(replay.record_hash_basic_block(MastForestId(0), MastNodeId(7), &block()).is_none());
    assert!(replay.record_hash_basic_block(MastForestId(0), MastNodeId(8), &block()).is_none());
    assert!(replay.record_hash_basic_block(MastForestId(0), MastNodeId(9), &block()).is_none());
    assert!(replay.record_hash_basic_block(MastForestId(1), MastNodeId(7), &block()).is_none());
    assert!(replay.record_build_merkle_root(word(1), MerklePath::new(vec![word(5)]), felt(1)).is_none());
    assert!(replay.record_update_merkle_root(word(1), word(2), MerklePath::new(vec![]), felt(1)).is_none());
    assert_eq!(
        replay.iter_hash_basic_block_forest_ids(),
        vec![MastForestId(0), MastForestId(0), MastForestId(0), MastForestId(1)]
    );
    let mut bytes = Vec::new();
    replay.write_into(&mut bytes);
    let mut source = BudgetedReader::new(SliceReader::new(&bytes), bytes.len());
    let copy = HasherRequestReplay::read_from(&mut source).unwrap();

    let mut nodes = BTreeMap::new();
    nodes.insert(7, ForestNode::Block(block()));
    nodes.insert(8, ForestNode::Other);
    let store = vec![Forest { nodes }];
    let resolved = copy.into_resolved_ops(&store);
    assert_eq!(resolved.len(), 8);
    assert_eq!(resolved[0], Ok(ResolvedHasherOp::Permute([felt(1); 12])));
    assert_eq!(resolved[1], Ok(ResolvedHasherOp::HashControlBlock((word(1), word(2), felt(3), word(4)))));
    assert_eq!(
        resolved[2],
        Ok(ResolvedHasherOp::HashBasicBlock((
            ResolvedBasicBlockGroups::Borrowed(&block().batches),
            word(1000)
        )))
    );
    assert_eq!(
        resolved[3],
        Err(ExecutionError::Internal("expected basic block node in hasher replay"))
    );
    assert_eq!(resolved[4], Err(ExecutionError::Internal("invalid node ID in hasher replay")));
    assert_eq!(
        resolved[5],
        Err(ExecutionError::Internal("MAST forest id in hasher replay out of range of mast_forest_store"))
    );
    assert_eq!(
        resolved[6],
        Ok(ResolvedHasherOp::BuildMerkleRoot((word(1), MerklePath::new(vec![word(5)]), felt(1))))
    );
    assert_eq!(
        resolved[7],
        Ok(ResolvedHasherOp::UpdateMerkleRoot((word(1), word(2), MerklePath::new(vec![]), felt(1))))
    );
}

#[test]
fn streamed_requests_are_handed_back() {
    let mut replay = HasherRequestReplay::streamed();
    assert_eq!(replay.record_permute_input([felt(1); 12]), Some(ResolvedHasherOp::Permute([felt(1); 12])));
    assert_eq!(
        replay.record_hash_basic_block(MastForestId(0), MastNodeId(7), &block()),
        Some(ResolvedHasherOp::HashBasicBlock((
            ResolvedBasicBlockGroups::Owned(block().batches),
            word(1000)
        )))
    );
    assert!(replay.iter_hash_basic_block_forest_ids().is_empty());
}

#[test]
fn hasher_operations_round_trip() {
    round_trip(HasherOp::Permute([felt(1); 12]));
    round_trip(HasherOp::HashControlBlock((word(1), word(2), felt(3), word(4))));
    round_trip(HasherOp::HashBasicBlock((MastForestId(1), MastNodeId(2), word(3))));
    round_trip(HasherOp::BuildMerkleRoot((word(1), MerklePath::new(vec![word(5), word(6)]), felt(1))));
    round_trip(HasherOp::UpdateMerkleRoot((word(1), word(2), MerklePath::new(vec![]), felt(1))));
    let bytes = bytes_of(&HasherOp::HashBasicBlock((MastForestId(1), MastNodeId(2), word(3))));
    assert_eq!(bytes.len(), <HasherOp as Codec>::min_serialized_size());
    assert_eq!(&bytes[..9], &[2, 1, 0, 0, 0, 2, 0, 0, 0]);
    assert_eq!(
        read::<HasherOp>(&[5], 1),
        Err(DeserializationError::InvalidValue("invalid hasher replay op tag 5".to_string()))
    );
}

// FRAGMENTS
// ================================================================================================

#[test]
fn a_fragment_round_trips() {
    let mut replay = ExecutionReplay::default();
    replay.block_stack.record_node_start_parent_addr(felt(5));
    replay.execution_context.record_execution_context(ExecutionContextSystemInfo {
        parent_ctx: ContextId(4),
        parent_fn_hash: word(3),
    });
    replay.stack_overflow.record_pop_overflow(felt(98), felt(14));
    replay.memory_reads.record_read_element(felt(1), felt(100), ContextId(0), RowIndex(5));
    replay.advice.record_pop_stack(felt(1));
    replay.hasher.record_permute(felt(1), [felt(3); 12]);
    replay.block_address.record_block_address(felt(1));
    replay.mast_forest_resolution.record_resolution(MastNodeId(1), MastForestId(2));
    let context = CoreTraceFragmentContext {
        state: CoreTraceState {
            system: SystemState {
                clk: RowIndex(1),
                ctx: ContextId(2),
                fn_hash: Word::zero(),
                deferred_root: word(8),
            },
            decoder: DecoderState { current_addr: felt(1), parent_addr: felt(2) },
            stack: StackState::new([felt(7); 16], 20, felt(11)),
        },
        replay,
        continuation: 12u32,
        initial_mast_forest_id: MastForestId(3),
    };
    round_trip(context);
}

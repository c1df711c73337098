//! Requests made to the hasher chiplet.
use std::collections::{BTreeMap, VecDeque};

use miden_crypto::utils::{BudgetedReader, SliceReader};

use vstd::prelude::*;

use crate::errors::ExecutionError;
use crate::fields::{Felt, MastForestId, MastNodeId, MerklePath, Word};
use crate::numerals::numeral;
use crate::reader::{charged, input, DeserializationError, Fault, Input};
use crate::replay::invalid_tag;
use crate::wire::{charged_twice, vals, Codec, Item};

verus! {

// HASHER OPERATIONS
// ================================================================================================

/// The different hasher operations that can be recorded, along with their operands.
#[derive(Debug, PartialEq, Eq)]
pub enum HasherOp {
    Permute([Felt; 12]),
    HashControlBlock((Word, Word, Felt, Word)),
    /// The forest, the node of it, and the expected hash.
    HashBasicBlock((MastForestId, MastNodeId, Word)),
    BuildMerkleRoot((Word, MerklePath, Felt)),
    UpdateMerkleRoot((Word, Word, MerklePath, Felt)),
}

/// What a [`HasherOp`] stands for.
pub enum HasherOpTy {
    Permute(<[Felt; 12] as Codec>::V),
    HashControlBlock(<(Word, Word, Felt, Word) as Codec>::V),
    HashBasicBlock(<(MastForestId, MastNodeId, Word) as Codec>::V),
    BuildMerkleRoot(<(Word, MerklePath, Felt) as Codec>::V),
    UpdateMerkleRoot(<(Word, Word, MerklePath, Felt) as Codec>::V),
}

/// The bytes of a tag, followed by those of the operands.
pub open spec fn tagged_bytes<T: Codec>(tag: u8, v: T::V) -> Seq<u8> {
    u8::encoded(tag) + T::encoded(v)
}

/// Reads operands.
#[verifier::opaque]
pub open spec fn decoded_operands<T: Codec>(s: Input) -> (Result<T::V, Fault>, Input) {
    T::decoded(s)
}

fn read_operands<T: Codec>(source: &mut BudgetedReader<SliceReader<'_>>) -> (result: Result<T, DeserializationError>)
    ensures
        input(*final(source)) == decoded_operands::<T>(input(*old(source))).1,
        match (result, decoded_operands::<T>(input(*old(source))).0) {
            (Ok(value), Ok(expected)) => value.val() == expected,
            (Err(error), Err(fault)) => error.fault() == fault,
            _ => false,
        },
{
    reveal(decoded_operands);
    T::read_from(source)
}

proof fn tagged_round_trip<T: Codec>(tag: u8, v: T::V, rest: Seq<u8>, budget: nat)
    requires
        T::valid(v),
        tagged_bytes::<T>(tag, v).len() <= budget,
    ensures
        ({
            let s = Input { bytes: tagged_bytes::<T>(tag, v) + rest, budget };
            &&& u8::decoded(s).0 == Ok::<u8, Fault>(tag)
            &&& decoded_operands::<T>(u8::decoded(s).1) == (
                Ok::<T::V, Fault>(v),
                Input { bytes: rest, budget: (budget - tagged_bytes::<T>(tag, v).len()) as nat },
            )
        }),
{
    reveal(decoded_operands);
    let (head, body) = (u8::encoded(tag), T::encoded(v));
    assert(head + body + rest =~= head + (body + rest));
    u8::round_trip(tag, body + rest, budget);
    T::round_trip(v, rest, (budget - head.len()) as nat);
}

/// The bytes of operands are charged.
proof fn operands_are_charged<T: Codec>(s: Input, rest: Input)
    requires
        u8::decoded(s).0 is Ok ==> charged(s, rest),
    ensures
        u8::decoded(s).0 is Ok && decoded_operands::<T>(rest).0 is Ok ==> charged(
            s,
            decoded_operands::<T>(rest).1,
        ),
{
    reveal(decoded_operands);
    T::bytes_are_charged(rest);
    if u8::decoded(s).0 is Ok && T::decoded(rest).0 is Ok {
        charged_twice(s, rest, T::decoded(rest).1);
    }
}

impl Codec for HasherOp {
    type V = HasherOpTy;

    open spec fn val(&self) -> HasherOpTy {
        match self {
            HasherOp::Permute(x) => HasherOpTy::Permute(x.val()),
            HasherOp::HashControlBlock(x) => HasherOpTy::HashControlBlock(x.val()),
            HasherOp::HashBasicBlock(x) => HasherOpTy::HashBasicBlock(x.val()),
            HasherOp::BuildMerkleRoot(x) => HasherOpTy::BuildMerkleRoot(x.val()),
            HasherOp::UpdateMerkleRoot(x) => HasherOpTy::UpdateMerkleRoot(x.val()),
        }
    }

    open spec fn valid(v: HasherOpTy) -> bool {
        match v {
            HasherOpTy::Permute(x) => <[Felt; 12] as Codec>::valid(x),
            HasherOpTy::HashControlBlock(x) => <(Word, Word, Felt, Word) as Codec>::valid(x),
            HasherOpTy::HashBasicBlock(x) => <(MastForestId, MastNodeId, Word) as Codec>::valid(x),
            HasherOpTy::BuildMerkleRoot(x) => <(Word, MerklePath, Felt) as Codec>::valid(x),
            HasherOpTy::UpdateMerkleRoot(x) => <(Word, Word, MerklePath, Felt) as Codec>::valid(x),
        }
    }

    open spec fn encoded(v: HasherOpTy) -> Seq<u8> {
        match v {
            HasherOpTy::Permute(x) => tagged_bytes::<[Felt; 12]>(0, x),
            HasherOpTy::HashControlBlock(x) => tagged_bytes::<(Word, Word, Felt, Word)>(1, x),
            HasherOpTy::HashBasicBlock(x) => tagged_bytes::<(MastForestId, MastNodeId, Word)>(2, x),
            HasherOpTy::BuildMerkleRoot(x) => tagged_bytes::<(Word, MerklePath, Felt)>(3, x),
            HasherOpTy::UpdateMerkleRoot(x) => tagged_bytes::<(Word, Word, MerklePath, Felt)>(4, x),
        }
    }

    open spec fn decoded(s: Input) -> (Result<HasherOpTy, Fault>, Input) {
        match u8::decoded(s) {
            (Err(fault), rest) => (Err(fault), rest),
            (Ok(tag), rest) => if tag == 0 {
                match decoded_operands::<[Felt; 12]>(rest) {
                    (Err(fault), rest) => (Err(fault), rest),
                    (Ok(x), rest) => (Ok(HasherOpTy::Permute(x)), rest),
                }
            } else if tag == 1 {
                match decoded_operands::<(Word, Word, Felt, Word)>(rest) {
                    (Err(fault), rest) => (Err(fault), rest),
                    (Ok(x), rest) => (Ok(HasherOpTy::HashControlBlock(x)), rest),
                }
            } else if tag == 2 {
                match decoded_operands::<(MastForestId, MastNodeId, Word)>(rest) {
                    (Err(fault), rest) => (Err(fault), rest),
                    (Ok(x), rest) => (Ok(HasherOpTy::HashBasicBlock(x)), rest),
                }
            } else if tag == 3 {
                match decoded_operands::<(Word, MerklePath, Felt)>(rest) {
                    (Err(fault), rest) => (Err(fault), rest),
                    (Ok(x), rest) => (Ok(HasherOpTy::BuildMerkleRoot(x)), rest),
                }
            } else if tag == 4 {
                match decoded_operands::<(Word, Word, MerklePath, Felt)>(rest) {
                    (Err(fault), rest) => (Err(fault), rest),
                    (Ok(x), rest) => (Ok(HasherOpTy::UpdateMerkleRoot(x)), rest),
                }
            } else {
                (Err(Fault::Invalid("invalid hasher replay op tag "@ + numeral(tag as nat))), rest)
            },
        }
    }

    open spec fn min_size() -> nat {
        41
    }

    fn write_into(&self, target: &mut Vec<u8>) {
        let ghost before = target@;
        match self {
            HasherOp::Permute(x) => {
                0u8.write_into(target);
                x.write_into(target);
                assert(target@ =~= before + tagged_bytes::<[Felt; 12]>(0, x.val()));
            },
            HasherOp::HashControlBlock(x) => {
                1u8.write_into(target);
                x.write_into(target);
                assert(target@ =~= before + tagged_bytes::<(Word, Word, Felt, Word)>(1, x.val()));
            },
            HasherOp::HashBasicBlock(x) => {
                2u8.write_into(target);
                x.write_into(target);
                assert(target@ =~= before + tagged_bytes::<(MastForestId, MastNodeId, Word)>(2, x.val()));
            },
            HasherOp::BuildMerkleRoot(x) => {
                3u8.write_into(target);
                x.write_into(target);
                assert(target@ =~= before + tagged_bytes::<(Word, MerklePath, Felt)>(3, x.val()));
            },
            HasherOp::UpdateMerkleRoot(x) => {
                4u8.write_into(target);
                x.write_into(target);
                assert(target@ =~= before + tagged_bytes::<(Word, Word, MerklePath, Felt)>(4, x.val()));
            },
        }
    }

    fn read_from(source: &mut BudgetedReader<SliceReader<'_>>) -> (result: Result<HasherOp, DeserializationError>) {
        match u8::read_from(source) {
            Err(error) => Err(error),
            Ok(0) => match read_operands::<[Felt; 12]>(source) {
                Err(error) => Err(error),
                Ok(x) => Ok(HasherOp::Permute(x)),
            },
            Ok(1) => match read_operands::<(Word, Word, Felt, Word)>(source) {
                Err(error) => Err(error),
                Ok(x) => Ok(HasherOp::HashControlBlock(x)),
            },
            Ok(2) => match read_operands::<(MastForestId, MastNodeId, Word)>(source) {
                Err(error) => Err(error),
                Ok(x) => Ok(HasherOp::HashBasicBlock(x)),
            },
            Ok(3) => match read_operands::<(Word, MerklePath, Felt)>(source) {
                Err(error) => Err(error),
                Ok(x) => Ok(HasherOp::BuildMerkleRoot(x)),
            },
            Ok(4) => match read_operands::<(Word, Word, MerklePath, Felt)>(source) {
                Err(error) => Err(error),
                Ok(x) => Ok(HasherOp::UpdateMerkleRoot(x)),
            },
            Ok(tag) => Err(invalid_tag("invalid hasher replay op tag ", tag)),
        }
    }

    fn min_serialized_size() -> (size: usize) {
        41
    }

    proof fn round_trip(v: HasherOpTy, rest: Seq<u8>, budget: nat) {
        match v {
            HasherOpTy::Permute(x) => tagged_round_trip::<[Felt; 12]>(0, x, rest, budget),
            HasherOpTy::HashControlBlock(x) => tagged_round_trip::<(Word, Word, Felt, Word)>(1, x, rest, budget),
            HasherOpTy::HashBasicBlock(x) => tagged_round_trip::<(MastForestId, MastNodeId, Word)>(
                2,
                x,
                rest,
                budget,
            ),
            HasherOpTy::BuildMerkleRoot(x) => tagged_round_trip::<(Word, MerklePath, Felt)>(3, x, rest, budget),
            HasherOpTy::UpdateMerkleRoot(x) => tagged_round_trip::<(Word, Word, MerklePath, Felt)>(
                4,
                x,
                rest,
                budget,
            ),
        }
    }

    proof fn bytes_are_charged(s: Input) {
        u8::bytes_are_charged(s);
        let rest = u8::decoded(s).1;
        operands_are_charged::<[Felt; 12]>(s, rest);
        operands_are_charged::<(Word, Word, Felt, Word)>(s, rest);
        operands_are_charged::<(MastForestId, MastNodeId, Word)>(s, rest);
        operands_are_charged::<(Word, MerklePath, Felt)>(s, rest);
        operands_are_charged::<(Word, Word, MerklePath, Felt)>(s, rest);
    }
}

impl Item for HasherOp {
    proof fn size_is_least(v: HasherOpTy) {
        match v {
            HasherOpTy::Permute(x) => {
                u8::size_is_least(0);
                <[Felt; 12] as Item>::size_is_least(x);
            },
            HasherOpTy::HashControlBlock(x) => {
                u8::size_is_least(1);
                <(Word, Word, Felt, Word) as Item>::size_is_least(x);
            },
            HasherOpTy::HashBasicBlock(x) => {
                u8::size_is_least(2);
                <(MastForestId, MastNodeId, Word) as Item>::size_is_least(x);
            },
            HasherOpTy::BuildMerkleRoot(x) => {
                u8::size_is_least(3);
                Word::size_is_least(x.0);
                Felt::size_is_least(x.2);
            },
            HasherOpTy::UpdateMerkleRoot(x) => {
                u8::size_is_least(4);
                Word::size_is_least(x.0);
                Felt::size_is_least(x.3);
            },
        }
    }
}

// RESOLVED OPERATIONS
// ================================================================================================

/// Basic-block data resolved for replay by the builder of the hasher chiplet.
#[derive(Debug, PartialEq, Eq)]
pub enum ResolvedBasicBlockGroups<'a> {
    /// Buffered replay borrows batches from the finalized forest.
    Borrowed(&'a Vec<[Felt; 8]>),
    /// Streamed replay owns the group hashes because it crosses a thread boundary.
    Owned(Vec<[Felt; 8]>),
}

/// A request with all operands resolved, so it can be replayed without further lookups.
#[derive(Debug, PartialEq, Eq)]
pub enum ResolvedHasherOp<'a> {
    Permute([Felt; 12]),
    HashControlBlock((Word, Word, Felt, Word)),
    HashBasicBlock((ResolvedBasicBlockGroups<'a>, Word)),
    BuildMerkleRoot((Word, MerklePath, Felt)),
    UpdateMerkleRoot((Word, Word, MerklePath, Felt)),
}

/// What an operation that needs no forest is resolved to.
pub open spec fn forest_free<'a>(op: HasherOp) -> Option<ResolvedHasherOp<'a>> {
    match op {
        HasherOp::Permute(x) => Some(ResolvedHasherOp::Permute(x)),
        HasherOp::HashControlBlock(x) => Some(ResolvedHasherOp::HashControlBlock(x)),
        HasherOp::HashBasicBlock(_) => None,
        HasherOp::BuildMerkleRoot(x) => Some(ResolvedHasherOp::BuildMerkleRoot(x)),
        HasherOp::UpdateMerkleRoot(x) => Some(ResolvedHasherOp::UpdateMerkleRoot(x)),
    }
}

impl HasherOp {
    /// Resolves the operations that need no forest; `None` for [`HasherOp::HashBasicBlock`].
    fn resolve_forest_free<'a>(self) -> (resolved: Option<ResolvedHasherOp<'a>>)
        ensures
            resolved == forest_free(self),
    {
        match self {
            HasherOp::Permute(x) => Some(ResolvedHasherOp::Permute(x)),
            HasherOp::HashControlBlock(x) => Some(ResolvedHasherOp::HashControlBlock(x)),
            HasherOp::HashBasicBlock(_) => None,
            HasherOp::BuildMerkleRoot(x) => Some(ResolvedHasherOp::BuildMerkleRoot(x)),
            HasherOp::UpdateMerkleRoot(x) => Some(ResolvedHasherOp::UpdateMerkleRoot(x)),
        }
    }
}

// FORESTS
// ================================================================================================

/// What hashing needs to know of a basic block: its digest and the hashes of its groups of
/// operations, batch by batch.
#[derive(Debug, PartialEq, Eq)]
pub struct BasicBlock {
    pub digest: Word,
    pub batches: Vec<[Felt; 8]>,
}

/// What hashing needs to know of a node of a forest.
#[derive(Debug, PartialEq, Eq)]
pub enum ForestNode {
    Block(BasicBlock),
    Other,
}

/// The nodes of a forest, by their ids. Some may be missing.
#[derive(Debug)]
pub struct Forest {
    pub nodes: BTreeMap<u32, ForestNode>,
}

impl Forest {
    /// The node with an id, if the forest has it.
    pub fn get_node_by_id(&self, node_id: MastNodeId) -> (node: Option<&ForestNode>)
        ensures
            match node {
                Some(node) => self.nodes@.contains_key(node_id.0) && *node == self.nodes@[node_id.0],
                None => !self.nodes@.contains_key(node_id.0),
            },
    {
        broadcast use vstd::laws_cmp::group_laws_cmp;
        broadcast use vstd::std_specs::btree::group_btree_axioms;

        self.nodes.get(&node_id.0)
    }
}

/// What hashing a basic block is resolved to, or why it cannot be.
pub open spec fn resolves_block<'a>(
    op: (MastForestId, MastNodeId, Word),
    store: Seq<Forest>,
    resolved: Result<ResolvedHasherOp<'a>, ExecutionError>,
) -> bool {
    let (forest_id, node_id, expected_hash) = op;
    if forest_id.0 >= store.len() {
        resolved matches Err(ExecutionError::Internal(message)) && message@
            == "MAST forest id in hasher replay out of range of mast_forest_store"@
    } else if !store[forest_id.0 as int].nodes@.contains_key(node_id.0) {
        resolved matches Err(ExecutionError::Internal(message)) && message@ == "invalid node ID in hasher replay"@
    } else {
        match store[forest_id.0 as int].nodes@[node_id.0] {
            ForestNode::Other => resolved matches Err(ExecutionError::Internal(message)) && message@
                == "expected basic block node in hasher replay"@,
            ForestNode::Block(block) => resolved == Ok::<ResolvedHasherOp<'a>, ExecutionError>(
                ResolvedHasherOp::HashBasicBlock((ResolvedBasicBlockGroups::Borrowed(&block.batches), expected_hash)),
            ),
        }
    }
}

/// What an operation is resolved to in a store of forests, or why it cannot be.
pub open spec fn resolves_to<'a>(
    op: HasherOp,
    store: Seq<Forest>,
    resolved: Result<ResolvedHasherOp<'a>, ExecutionError>,
) -> bool {
    match op {
        HasherOp::HashBasicBlock(x) => resolves_block(x, store, resolved),
        _ => resolved == Ok::<ResolvedHasherOp<'a>, ExecutionError>(forest_free(op)->0),
    }
}

/// Looks a basic block up in a store of forests.
fn resolve_block<'a>(op: (MastForestId, MastNodeId, Word), store: &'a Vec<Forest>) -> (resolved: Result<
    ResolvedHasherOp<'a>,
    ExecutionError,
>)
    ensures
        resolves_block(op, store@, resolved),
{
    let (forest_id, node_id, expected_hash) = op;
    if forest_id.0 as usize >= store.len() {
        return Err(
            ExecutionError::Internal("MAST forest id in hasher replay out of range of mast_forest_store"),
        );
    }
    match store[forest_id.0 as usize].get_node_by_id(node_id) {
        None => Err(ExecutionError::Internal("invalid node ID in hasher replay")),
        Some(ForestNode::Other) => Err(ExecutionError::Internal("expected basic block node in hasher replay")),
        Some(ForestNode::Block(block)) => Ok(
            ResolvedHasherOp::HashBasicBlock((ResolvedBasicBlockGroups::Borrowed(&block.batches), expected_hash)),
        ),
    }
}

// HASHER REQUEST REPLAY
// ================================================================================================

/// Where recorded requests go.
#[derive(Debug)]
enum HasherOpSink {
    /// They are kept.
    Buffered(VecDeque<HasherOp>),
    /// They are resolved and handed back at once, to be forwarded.
    Streamed,
}

/// Records all the requests made to the hasher chiplet during the execution of a program, for the
/// purposes of generating the hasher chiplet's trace.
///
/// In buffered mode (the default) requests are kept, to be resolved when the trace is generated. In
/// streamed mode each request is resolved when it is recorded, and handed back to be forwarded to a
/// builder that runs concurrently with execution.
#[derive(Debug)]
pub struct HasherRequestReplay {
    sink: HasherOpSink,
}

impl View for HasherRequestReplay {
    type V = Option<Seq<HasherOp>>;

    /// The requests kept, in buffered mode.
    closed spec fn view(&self) -> Option<Seq<HasherOp>> {
        match self.sink {
            HasherOpSink::Buffered(ops) => Some(ops@),
            HasherOpSink::Streamed => None,
        }
    }
}

impl Default for HasherRequestReplay {
    /// A buffered replay of nothing.
    fn default() -> (replay: HasherRequestReplay)
        ensures
            replay@ == Some(Seq::<HasherOp>::empty()),
    {
        HasherRequestReplay { sink: HasherOpSink::Buffered(VecDeque::new()) }
    }
}

/// What recording an operation that needs no forest does: a buffered replay keeps it, and a
/// streamed one hands it back, resolved.
pub open spec fn recorded<'a>(
    before: Option<Seq<HasherOp>>,
    op: HasherOp,
    after: Option<Seq<HasherOp>>,
    forwarded: Option<ResolvedHasherOp<'a>>,
) -> bool {
    match before {
        Some(ops) => after == Some(ops.push(op)) && forwarded is None,
        None => after is None && forwarded == forest_free(op),
    }
}

/// What hashing a basic block is resolved to when it is recorded: its own copy of the groups.
pub open spec fn streams_block<'a>(block: BasicBlock, resolved: ResolvedHasherOp<'a>) -> bool {
    resolved matches ResolvedHasherOp::HashBasicBlock((ResolvedBasicBlockGroups::Owned(groups), hash)) && groups@
        == block.batches@ && hash == block.digest
}

/// The forests of the basic blocks among the first `n` requests.
pub open spec fn block_forests(ops: Seq<HasherOp>, n: nat) -> Seq<MastForestId>
    decreases n,
{
    if n == 0 {
        Seq::empty()
    } else {
        let before = block_forests(ops, (n - 1) as nat);
        match ops[n - 1] {
            HasherOp::HashBasicBlock((forest_id, _, _)) => before.push(forest_id),
            _ => before,
        }
    }
}

impl HasherRequestReplay {
    /// A replay that hands each request back, resolved, as it is recorded.
    pub fn streamed() -> (replay: HasherRequestReplay)
        ensures
            replay@ is None,
    {
        HasherRequestReplay { sink: HasherOpSink::Streamed }
    }

    /// Records an operation that needs no forest.
    fn record(&mut self, op: HasherOp) -> (forwarded: Option<ResolvedHasherOp<'static>>)
        requires
            !(op is HashBasicBlock),
        ensures
            recorded(old(self)@, op, final(self)@, forwarded),
    {
        match &mut self.sink {
            HasherOpSink::Buffered(ops) => {
                ops.push_back(op);
                None
            },
            HasherOpSink::Streamed => op.resolve_forest_free(),
        }
    }

    /// Records a permutation request.
    pub fn record_permute_input(&mut self, state: [Felt; 12]) -> (forwarded: Option<ResolvedHasherOp<'static>>)
        ensures
            recorded(old(self)@, HasherOp::Permute(state), final(self)@, forwarded),
    {
        self.record(HasherOp::Permute(state))
    }

    /// Records a request to hash a control block.
    pub fn record_hash_control_block(&mut self, h1: Word, h2: Word, domain: Felt, expected_hash: Word) -> (forwarded:
        Option<ResolvedHasherOp<'static>>)
        ensures
            recorded(
                old(self)@,
                HasherOp::HashControlBlock((h1, h2, domain, expected_hash)),
                final(self)@,
                forwarded,
            ),
    {
        self.record(HasherOp::HashControlBlock((h1, h2, domain, expected_hash)))
    }

    /// Records a request to hash a basic block.
    ///
    /// `basic_block` must be the node that `forest_id` and `node_id` identify; streamed replays copy
    /// its group hashes so that no forest access is needed.
    pub fn record_hash_basic_block(
        &mut self,
        forest_id: MastForestId,
        node_id: MastNodeId,
        basic_block: &BasicBlock,
    ) -> (forwarded: Option<ResolvedHasherOp<'static>>)
        ensures
            match old(self)@ {
                Some(ops) => {
                    &&& final(self)@ == Some(
                        ops.push(HasherOp::HashBasicBlock((forest_id, node_id, basic_block.digest))),
                    )
                    &&& forwarded is None
                },
                None => {
                    &&& final(self)@ is None
                    &&& forwarded matches Some(resolved) && streams_block(*basic_block, resolved)
                },
            },
    {
        let expected_hash = basic_block.digest;
        match &mut self.sink {
            HasherOpSink::Buffered(ops) => {
                ops.push_back(HasherOp::HashBasicBlock((forest_id, node_id, expected_hash)));
                None
            },
            HasherOpSink::Streamed => Some(
                ResolvedHasherOp::HashBasicBlock(
                    (ResolvedBasicBlockGroups::Owned(copy_groups(&basic_block.batches)), expected_hash),
                ),
            ),
        }
    }

    /// Records a request to build a Merkle root.
    pub fn record_build_merkle_root(&mut self, leaf: Word, path: MerklePath, index: Felt) -> (forwarded: Option<
        ResolvedHasherOp<'static>,
    >)
        ensures
            recorded(old(self)@, HasherOp::BuildMerkleRoot((leaf, path, index)), final(self)@, forwarded),
    {
        self.record(HasherOp::BuildMerkleRoot((leaf, path, index)))
    }

    /// Records a request to update a Merkle root.
    pub fn record_update_merkle_root(
        &mut self,
        old_value: Word,
        new_value: Word,
        path: MerklePath,
        index: Felt,
    ) -> (forwarded: Option<ResolvedHasherOp<'static>>)
        ensures
            recorded(
                old(self)@,
                HasherOp::UpdateMerkleRoot((old_value, new_value, path, index)),
                final(self)@,
                forwarded,
            ),
    {
        self.record(HasherOp::UpdateMerkleRoot((old_value, new_value, path, index)))
    }

    /// The forests of the basic blocks whose hashing was requested, in order. A streamed replay has
    /// none.
    pub fn iter_hash_basic_block_forest_ids(&self) -> (ids: Vec<MastForestId>)
        ensures
            ids@ == match self@ {
                Some(ops) => block_forests(ops, ops.len()),
                None => Seq::<MastForestId>::empty(),
            },
    {
        let mut ids: Vec<MastForestId> = Vec::new();
        if let HasherOpSink::Buffered(ops) = &self.sink {
            let mut i: usize = 0;
            while i < ops.len()
                invariant
                    i <= ops@.len(),
                    ids@ == block_forests(ops@, i as nat),
                decreases ops@.len() - i,
            {
                if let HasherOp::HashBasicBlock((forest_id, _, _)) = &ops[i] {
                    ids.push(*forest_id);
                }
                i += 1;
            }
        }
        ids
    }

    /// The buffered requests as resolved operations, with basic blocks looked up in the finalized
    /// store of forests.
    ///
    /// A streamed replay must not get here, as its operations were already handed back: it yields
    /// an error rather than silently producing an empty hasher chiplet.
    pub fn into_resolved_ops<'a>(self, mast_forest_store: &'a Vec<Forest>) -> (resolved: Vec<
        Result<ResolvedHasherOp<'a>, ExecutionError>,
    >)
        ensures
            match self@ {
                None => {
                    &&& resolved@.len() == 1
                    &&& resolved@[0] matches Err(ExecutionError::Internal(message)) && message@
                        == "streamed hasher replay reached the buffered trace-build path"@
                },
                Some(ops) => {
                    &&& resolved@.len() == ops.len()
                    &&& forall|i: int|
                        0 <= i < ops.len() ==> resolves_to(ops[i], mast_forest_store@, #[trigger] resolved@[i])
                },
            },
    {
        let mut resolved: Vec<Result<ResolvedHasherOp<'a>, ExecutionError>> = Vec::new();
        let mut ops = match self.sink {
            HasherOpSink::Buffered(ops) => ops,
            HasherOpSink::Streamed => {
                resolved.push(
                    Err(ExecutionError::Internal("streamed hasher replay reached the buffered trace-build path")),
                );
                return resolved;
            },
        };
        let ghost all = ops@;
        assert(all.skip(0) =~= all);
        while ops.len() > 0
            invariant
                resolved@.len() + ops@.len() == all.len(),
                ops@ == all.skip(resolved@.len() as int),
                forall|i: int|
                    0 <= i < resolved@.len() ==> resolves_to(all[i], mast_forest_store@, #[trigger] resolved@[i]),
            decreases ops@.len(),
        {
            let ghost i = resolved@.len() as int;
            let op = ops.pop_front().unwrap();
            assert(op == all[i]);
            assert(ops@ =~= all.skip(i + 1));
            let result = match op {
                HasherOp::HashBasicBlock(block) => resolve_block(block, mast_forest_store),
                op => Ok(op.resolve_forest_free().unwrap()),
            };
            resolved.push(result);
        }
        resolved
    }
}

fn copy_groups(groups: &Vec<[Felt; 8]>) -> (copy: Vec<[Felt; 8]>)
    ensures
        copy@ == groups@,
{
    let mut copy: Vec<[Felt; 8]> = Vec::new();
    let mut i: usize = 0;
    while i < groups.len()
        invariant
            i <= groups@.len(),
            copy@ == groups@.take(i as int),
        decreases groups@.len() - i,
    {
        copy.push(groups[i]);
        i += 1;
        assert(groups@.take(i as int) =~= groups@.take(i - 1).push(groups@[i - 1]));
    }
    assert(groups@.take(i as int) =~= groups@);
    copy
}

/// Writes a buffered replay.
pub open spec fn encoded_requests(ops: Seq<HasherOpTy>) -> Seq<u8> {
    <VecDeque<HasherOp> as Codec>::encoded(ops)
}

impl HasherRequestReplay {
    /// Writes a buffered replay. A streamed one cannot be written.
    pub fn write_into(&self, target: &mut Vec<u8>)
        requires
            self@ is Some,
        ensures
            final(target)@ == old(target)@ + encoded_requests(vals(self@->0)),
    {
        if let HasherOpSink::Buffered(ops) = &self.sink {
            ops.write_into(target);
        }
    }

    /// Reads a buffered replay.
    pub fn read_from(source: &mut BudgetedReader<SliceReader<'_>>) -> (result: Result<
        HasherRequestReplay,
        DeserializationError,
    >)
        ensures
            input(*final(source)) == <VecDeque<HasherOp> as Codec>::decoded(input(*old(source))).1,
            match (result, <VecDeque<HasherOp> as Codec>::decoded(input(*old(source))).0) {
                (Ok(replay), Ok(expected)) => replay@ is Some && vals(replay@->0) == expected,
                (Err(error), Err(fault)) => error.fault() == fault,
                _ => false,
            },
    {
        match <VecDeque<HasherOp> as Codec>::read_from(source) {
            Err(error) => Err(error),
            Ok(ops) => Ok(HasherRequestReplay { sink: HasherOpSink::Buffered(ops) }),
        }
    }
}

// LAWS
// ================================================================================================

/// The groups to be hashed, wherever they are.
pub open spec fn groups_of<'a>(groups: ResolvedBasicBlockGroups<'a>) -> Seq<[Felt; 8]> {
    match groups {
        ResolvedBasicBlockGroups::Borrowed(groups) => groups@,
        ResolvedBasicBlockGroups::Owned(groups) => groups@,
    }
}

/// The operations are the same, wherever the groups to be hashed are.
pub open spec fn same_operation<'a, 'b>(a: ResolvedHasherOp<'a>, b: ResolvedHasherOp<'b>) -> bool {
    match (a, b) {
        (ResolvedHasherOp::HashBasicBlock((g, hash)), ResolvedHasherOp::HashBasicBlock((k, other))) => groups_of(g)
            == groups_of(k) && hash == other,
        _ => a == b,
    }
}

/// A request that needs no forest is resolved to the same when it is recorded and when it is looked
/// up later, whatever the store.
pub proof fn streaming_agrees_with_buffering<'a, 'b>(
    op: HasherOp,
    store: Seq<Forest>,
    streamed: ResolvedHasherOp<'a>,
    buffered: Result<ResolvedHasherOp<'b>, ExecutionError>,
)
    requires
        recorded(None, op, None, Some(streamed)),
        resolves_to(op, store, buffered),
    ensures
        buffered matches Ok(found) && same_operation(streamed, found),
{
}

/// A request to hash a basic block is resolved to the same when it is recorded and when it is looked
/// up later, in a store that holds the block.
pub proof fn streaming_agrees_on_blocks<'a, 'b>(
    forest_id: MastForestId,
    node_id: MastNodeId,
    block: BasicBlock,
    store: Seq<Forest>,
    streamed: ResolvedHasherOp<'a>,
    buffered: Result<ResolvedHasherOp<'b>, ExecutionError>,
)
    requires
        streams_block(block, streamed),
        forest_id.0 < store.len(),
        store[forest_id.0 as int].nodes@.contains_key(node_id.0),
        store[forest_id.0 as int].nodes@[node_id.0] == ForestNode::Block(block),
        resolves_to(HasherOp::HashBasicBlock((forest_id, node_id, block.digest)), store, buffered),
    ensures
        buffered matches Ok(found) && same_operation(streamed, found),
{
}

/// Requests that were written are read back.
pub proof fn requests_round_trip(ops: Seq<HasherOpTy>, rest: Seq<u8>, budget: nat)
    requires
        <VecDeque<HasherOp> as Codec>::valid(ops),
        encoded_requests(ops).len() <= budget,
    ensures
        <VecDeque<HasherOp> as Codec>::decoded(Input { bytes: encoded_requests(ops) + rest, budget }) == (
            Ok::<Seq<HasherOpTy>, Fault>(ops),
            Input { bytes: rest, budget: (budget - encoded_requests(ops).len()) as nat },
        ),
{
    <VecDeque<HasherOp> as Codec>::round_trip(ops, rest, budget);
}

/// A request that needs no forest is handed on with the operands that it was recorded with, when it is
/// streamed.
pub proof fn streamed_requests_keep_their_operands<'a>(
    state: [Felt; 12],
    block: (Word, Word, Felt, Word),
    root: (Word, MerklePath, Felt),
    update: (Word, Word, MerklePath, Felt),
    after: Option<Seq<HasherOp>>,
    forwarded: Option<ResolvedHasherOp<'a>>,
)
    ensures
        recorded(None, HasherOp::Permute(state), after, forwarded) <==> after is None && forwarded == Some(
            ResolvedHasherOp::Permute(state),
        ),
        recorded(None, HasherOp::HashControlBlock(block), after, forwarded) <==> after is None && forwarded == Some(
            ResolvedHasherOp::HashControlBlock(block),
        ),
        recorded(None, HasherOp::BuildMerkleRoot(root), after, forwarded) <==> after is None && forwarded == Some(
            ResolvedHasherOp::BuildMerkleRoot(root),
        ),
        recorded(None, HasherOp::UpdateMerkleRoot(update), after, forwarded) <==> after is None && forwarded == Some(
            ResolvedHasherOp::UpdateMerkleRoot(update),
        ),
{
}

/// A buffered request is kept as it is, behind those before it, and nothing is forwarded.
pub proof fn buffered_requests_are_kept<'a>(
    ops: Seq<HasherOp>,
    op: HasherOp,
    after: Option<Seq<HasherOp>>,
    forwarded: Option<ResolvedHasherOp<'a>>,
)
    ensures
        recorded(Some(ops), op, after, forwarded) <==> after == Some(ops.push(op)) && forwarded is None,
{
}

/// A buffered request that needs no forest is resolved to the operands that it was recorded with,
/// whatever the store.
pub proof fn buffered_requests_keep_their_operands<'a>(
    state: [Felt; 12],
    block: (Word, Word, Felt, Word),
    root: (Word, MerklePath, Felt),
    update: (Word, Word, MerklePath, Felt),
    store: Seq<Forest>,
    resolved: Result<ResolvedHasherOp<'a>, ExecutionError>,
)
    ensures
        resolves_to(HasherOp::Permute(state), store, resolved) <==> resolved == Ok::<_, ExecutionError>(
            ResolvedHasherOp::Permute(state),
        ),
        resolves_to(HasherOp::HashControlBlock(block), store, resolved) <==> resolved == Ok::<_, ExecutionError>(
            ResolvedHasherOp::HashControlBlock(block),
        ),
        resolves_to(HasherOp::BuildMerkleRoot(root), store, resolved) <==> resolved == Ok::<_, ExecutionError>(
            ResolvedHasherOp::BuildMerkleRoot(root),
        ),
        resolves_to(HasherOp::UpdateMerkleRoot(update), store, resolved) <==> resolved == Ok::<_, ExecutionError>(
            ResolvedHasherOp::UpdateMerkleRoot(update),
        ),
{
}

/// A request to hash a basic block is resolved exactly where the store holds the forest, the forest the
/// node, and the node is a block; then to the groups of that block and to the hash that was recorded.
pub proof fn blocks_are_looked_up<'a>(
    forest_id: MastForestId,
    node_id: MastNodeId,
    hash: Word,
    store: Seq<Forest>,
    resolved: Result<ResolvedHasherOp<'a>, ExecutionError>,
)
    requires
        resolves_to(HasherOp::HashBasicBlock((forest_id, node_id, hash)), store, resolved),
    ensures
        resolved is Ok <==> {
            &&& forest_id.0 < store.len()
            &&& store[forest_id.0 as int].nodes@.contains_key(node_id.0)
            &&& store[forest_id.0 as int].nodes@[node_id.0] is Block
        },
        resolved matches Ok(op) ==> op == ResolvedHasherOp::HashBasicBlock(
            (
                ResolvedBasicBlockGroups::Borrowed(
                    &store[forest_id.0 as int].nodes@[node_id.0]->Block_0.batches,
                ),
                hash,
            ),
        ),
        resolved matches Err(ExecutionError::Internal(message)) ==> message@ == (
        if forest_id.0 >= store.len() {
            "MAST forest id in hasher replay out of range of mast_forest_store"@
        } else if !store[forest_id.0 as int].nodes@.contains_key(node_id.0) {
            "invalid node ID in hasher replay"@
        } else {
            "expected basic block node in hasher replay"@
        }),
{
}

/// The forests of the requested blocks are those of the block requests, in order, and no others.
pub proof fn block_forests_are_those_of_blocks(ops: Seq<HasherOp>)
    ensures
        block_forests(ops, ops.len()) == ops.filter(|op: HasherOp| op is HashBasicBlock).map_values(
            |op: HasherOp| op->HashBasicBlock_0.0,
        ),
    decreases ops.len(),
{
    let is_block = |op: HasherOp| op is HashBasicBlock;
    let forest = |op: HasherOp| op->HashBasicBlock_0.0;
    reveal(Seq::filter);
    if ops.len() > 0 {
        let front = ops.drop_last();
        block_forests_are_those_of_blocks(front);
        block_forests_of_front(ops, front, front.len());
        if is_block(ops.last()) {
            assert(ops.filter(is_block) =~= front.filter(is_block).push(ops.last()));
            assert(ops.filter(is_block).map_values(forest) =~= front.filter(is_block).map_values(forest).push(
                forest(ops.last()),
            ));
        } else {
            assert(ops.filter(is_block) =~= front.filter(is_block));
        }
    } else {
        assert(ops.filter(is_block).map_values(forest) =~= Seq::empty());
    }
}

proof fn block_forests_of_front(ops: Seq<HasherOp>, front: Seq<HasherOp>, n: nat)
    requires
        n <= front.len() <= ops.len(),
        front == ops.take(front.len() as int),
    ensures
        block_forests(ops, n) == block_forests(front, n),
    decreases n,
{
    if n > 0 {
        block_forests_of_front(ops, front, (n - 1) as nat);
        assert(front[n - 1] == ops[n - 1]);
    }
}

} // verus!

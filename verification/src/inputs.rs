//! Inputs required to prove from pre-executed trace data.
use miden_crypto::utils::{BudgetedReader, SliceReader};

use vstd::layout::size_of;
use vstd::prelude::*;
use vstd::string::StringExecFns;

use crate::numerals::{decimal, numeral};
use crate::reader::{has_more_bytes, input, open_reader, DeserializationError, Fault, Input};
use crate::wire::{Codec, Item};

verus! {

// HASH FUNCTIONS
// ================================================================================================

/// The hash functions that proofs can be generated with.
#[derive(Debug, Clone, Copy, PartialEq, Eq, Structural)]
pub enum HashFunction {
    Blake3_256,
    Rpo256,
    Rpx256,
    Poseidon2,
    Keccak,
}

/// The byte that stands for a hash function.
pub open spec fn hash_function_byte(function: HashFunction) -> u8 {
    match function {
        HashFunction::Blake3_256 => 1,
        HashFunction::Rpo256 => 2,
        HashFunction::Rpx256 => 3,
        HashFunction::Poseidon2 => 4,
        HashFunction::Keccak => 5,
    }
}

impl Codec for HashFunction {
    type V = HashFunction;

    open spec fn val(&self) -> HashFunction {
        *self
    }

    open spec fn valid(v: HashFunction) -> bool {
        true
    }

    open spec fn encoded(v: HashFunction) -> Seq<u8> {
        u8::encoded(hash_function_byte(v))
    }

    open spec fn decoded(s: Input) -> (Result<HashFunction, Fault>, Input) {
        match u8::decoded(s) {
            (Err(fault), rest) => (Err(fault), rest),
            (Ok(byte), rest) => if byte == 1 {
                (Ok(HashFunction::Blake3_256), rest)
            } else if byte == 2 {
                (Ok(HashFunction::Rpo256), rest)
            } else if byte == 3 {
                (Ok(HashFunction::Rpx256), rest)
            } else if byte == 4 {
                (Ok(HashFunction::Poseidon2), rest)
            } else if byte == 5 {
                (Ok(HashFunction::Keccak), rest)
            } else {
                (
                    Err(
                        Fault::Invalid(
                            "the hash function representation "@ + numeral(byte as nat) + " is not valid!"@,
                        ),
                    ),
                    rest,
                )
            },
        }
    }

    open spec fn min_size() -> nat {
        1
    }

    fn write_into(&self, target: &mut Vec<u8>) {
        let byte: u8 = match self {
            HashFunction::Blake3_256 => 1,
            HashFunction::Rpo256 => 2,
            HashFunction::Rpx256 => 3,
            HashFunction::Poseidon2 => 4,
            HashFunction::Keccak => 5,
        };
        byte.write_into(target);
    }

    fn read_from(source: &mut BudgetedReader<SliceReader<'_>>) -> (result: Result<HashFunction, DeserializationError>) {
        match u8::read_from(source) {
            Err(error) => Err(error),
            Ok(1) => Ok(HashFunction::Blake3_256),
            Ok(2) => Ok(HashFunction::Rpo256),
            Ok(3) => Ok(HashFunction::Rpx256),
            Ok(4) => Ok(HashFunction::Poseidon2),
            Ok(5) => Ok(HashFunction::Keccak),
            Ok(byte) => {
                let mut message = String::from_str("the hash function representation ");
                message.append(decimal(byte as u128).as_str());
                message.append(" is not valid!");
                Err(DeserializationError::InvalidValue(message))
            },
        }
    }

    fn min_serialized_size() -> (size: usize) {
        1
    }

    proof fn round_trip(v: HashFunction, rest: Seq<u8>, budget: nat) {
        u8::round_trip(hash_function_byte(v), rest, budget);
    }

    proof fn bytes_are_charged(s: Input) {
        u8::bytes_are_charged(s);
    }
}

impl Item for HashFunction {
    proof fn size_is_least(v: HashFunction) {
        u8::size_is_least(hash_function_byte(v));
    }
}

// TRACE PROVING INPUTS
// ================================================================================================

/// How many times the length of the payload may be allocated while it is read.
pub const TRACE_PROVING_INPUTS_ALLOCATION_BUDGET_MULTIPLIER: usize = 4;

/// Inputs required to prove from pre-executed trace data: a witness of the execution, and the hash
/// function of the proof.
#[derive(Debug, PartialEq, Eq)]
pub struct TraceProvingInputs<W> {
    witness: W,
    hash_fn: HashFunction,
}

impl<W> View for TraceProvingInputs<W> {
    type V = (W, HashFunction);

    closed spec fn view(&self) -> (W, HashFunction) {
        (self.witness, self.hash_fn)
    }
}

/// The allocation budget of a payload: a multiple of its length, capped by the byte budget.
pub open spec fn allocation_budget(len: nat, budget: nat) -> nat {
    let scaled = if len * TRACE_PROVING_INPUTS_ALLOCATION_BUDGET_MULTIPLIER > usize::MAX {
        usize::MAX as nat
    } else {
        len * TRACE_PROVING_INPUTS_ALLOCATION_BUDGET_MULTIPLIER as nat
    };
    if budget < scaled {
        budget
    } else {
        scaled
    }
}

/// The fault of a budget that is smaller than the payload.
pub open spec fn small_budget() -> Fault {
    Fault::Invalid("TraceProvingInputs byte budget is smaller than payload length"@)
}

/// The fault of bytes behind the payload.
pub open spec fn trailing_bytes() -> Fault {
    Fault::Invalid("TraceProvingInputs payload has trailing bytes"@)
}

/// What is left of the bytes and of the allocation budget once the inputs at their start have been
/// read.
pub open spec fn left_over<W: Codec>(bytes: Seq<u8>, budget: nat) -> Input {
    <(W, HashFunction) as Codec>::decoded(Input { bytes, budget: allocation_budget(bytes.len(), budget) }).1
}

/// What reading a standalone payload gives. A budget that is smaller than the payload is rejected,
/// and so are bytes behind it.
pub open spec fn decoded_payload<W: Codec>(bytes: Seq<u8>, budget: nat) -> Result<
    (W::V, HashFunction),
    Fault,
> {
    if budget < bytes.len() {
        Err(small_budget())
    } else {
        match <(W, HashFunction) as Codec>::decoded(
            Input { bytes, budget: allocation_budget(bytes.len(), budget) },
        ) {
            (Err(fault), _) => Err(fault),
            (Ok(v), rest) => if rest.budget > 0 && rest.bytes.len() > 0 {
                Err(trailing_bytes())
            } else {
                Ok(v)
            },
        }
    }
}

impl<W> TraceProvingInputs<W> {
    /// A bundle of a post-execution witness and proof-generation options.
    pub fn new(witness: W, hash_fn: HashFunction) -> (inputs: TraceProvingInputs<W>)
        ensures
            inputs@ == (witness, hash_fn),
    {
        TraceProvingInputs { witness, hash_fn }
    }

    /// The witness and proof-generation options of this bundle.
    pub fn into_parts(self) -> (parts: (W, HashFunction))
        ensures
            parts == self@,
    {
        (self.witness, self.hash_fn)
    }
}

impl<W: Codec> Codec for TraceProvingInputs<W> {
    type V = (W::V, HashFunction);

    open spec fn val(&self) -> (W::V, HashFunction) {
        (self@.0.val(), self@.1)
    }

    open spec fn valid(v: (W::V, HashFunction)) -> bool {
        <(W, HashFunction) as Codec>::valid(v)
    }

    open spec fn encoded(v: (W::V, HashFunction)) -> Seq<u8> {
        <(W, HashFunction) as Codec>::encoded(v)
    }

    open spec fn decoded(s: Input) -> (Result<(W::V, HashFunction), Fault>, Input) {
        <(W, HashFunction) as Codec>::decoded(s)
    }

    open spec fn min_size() -> nat {
        size_of::<Self>()
    }

    fn write_into(&self, target: &mut Vec<u8>) {
        let ghost before = target@;
        self.witness.write_into(target);
        self.hash_fn.write_into(target);
        assert(target@ =~= before + Self::encoded(self.val()));
    }

    fn read_from(source: &mut BudgetedReader<SliceReader<'_>>) -> (result: Result<
        TraceProvingInputs<W>,
        DeserializationError,
    >) {
        match <(W, HashFunction) as Codec>::read_from(source) {
            Err(error) => Err(error),
            Ok((witness, hash_fn)) => Ok(TraceProvingInputs { witness, hash_fn }),
        }
    }

    fn min_serialized_size() -> (size: usize) {
        core::mem::size_of::<Self>()
    }

    proof fn round_trip(v: (W::V, HashFunction), rest: Seq<u8>, budget: nat) {
        <(W, HashFunction) as Codec>::round_trip(v, rest, budget);
    }

    proof fn bytes_are_charged(s: Input) {
        <(W, HashFunction) as Codec>::bytes_are_charged(s);
    }
}

impl<W: Codec> TraceProvingInputs<W> {
    /// Reads trusted remote proving inputs with the supplied byte budget.
    ///
    /// One standalone payload is read, and trailing bytes are rejected. Length-prefixed collections
    /// also need a bounded allocation budget, which is derived from the actual payload length and
    /// capped by the byte budget.
    pub fn read_from_bytes_with_budget(bytes: &[u8], budget: usize) -> (result: Result<
        TraceProvingInputs<W>,
        DeserializationError,
    >)
        ensures
            match (result, decoded_payload::<W>(bytes@, budget as nat)) {
                (Ok(inputs), Ok(expected)) => inputs.val() == expected,
                (Err(error), Err(fault)) => error.fault() == fault,
                _ => false,
            },
            result is Ok ==> {
                &&& budget >= bytes@.len()
                &&& left_over::<W>(bytes@, budget as nat).bytes.len() == 0
            },
    {
        proof {
            if decoded_payload::<W>(bytes@, budget as nat) is Ok {
                read_payloads_are_whole::<W>(bytes@, budget as nat);
            }
        }
        if budget < bytes.len() {
            return Err(
                DeserializationError::InvalidValue(
                    String::from_str("TraceProvingInputs byte budget is smaller than payload length"),
                ),
            );
        }
        let scaled: usize = match bytes.len().checked_mul(TRACE_PROVING_INPUTS_ALLOCATION_BUDGET_MULTIPLIER) {
            Some(scaled) => scaled,
            None => usize::MAX,
        };
        let allowed: usize = if budget < scaled { budget } else { scaled };
        let mut reader = open_reader(bytes, allowed);
        assert(input(reader) =~= (Input { bytes: bytes@, budget: allocation_budget(bytes@.len(), budget as nat) }));
        match <TraceProvingInputs<W> as Codec>::read_from(&mut reader) {
            Err(error) => Err(error),
            Ok(inputs) => if has_more_bytes(&reader) {
                Err(
                    DeserializationError::InvalidValue(
                        String::from_str("TraceProvingInputs payload has trailing bytes"),
                    ),
                )
            } else {
                Ok(inputs)
            },
        }
    }

    /// Reads trusted remote proving inputs, with a budget of a multiple of their length.
    pub fn read_from_bytes(bytes: &[u8]) -> (result: Result<TraceProvingInputs<W>, DeserializationError>)
        ensures
            match (result, decoded_payload::<W>(bytes@, allocation_budget(bytes@.len(), usize::MAX as nat))) {
                (Ok(inputs), Ok(expected)) => inputs.val() == expected,
                (Err(error), Err(fault)) => error.fault() == fault,
                _ => false,
            },
    {
        let budget: usize = match bytes.len().checked_mul(TRACE_PROVING_INPUTS_ALLOCATION_BUDGET_MULTIPLIER) {
            Some(budget) => budget,
            None => usize::MAX,
        };
        Self::read_from_bytes_with_budget(bytes, budget)
    }
}

/// Inputs that were written are read back, with any budget that is not below their length.
pub proof fn payload_round_trip<W: Codec>(v: (W::V, HashFunction), budget: nat)
    requires
        <(W, HashFunction) as Codec>::valid(v),
        <(W, HashFunction) as Codec>::encoded(v).len() <= usize::MAX,
        <(W, HashFunction) as Codec>::encoded(v).len() <= budget,
    ensures
        decoded_payload::<W>(<(W, HashFunction) as Codec>::encoded(v), budget) == Ok::<(W::V, HashFunction), Fault>(
            v,
        ),
{
    let bytes = <(W, HashFunction) as Codec>::encoded(v);
    let allowed = allocation_budget(bytes.len(), budget);
    <(W, HashFunction) as Codec>::round_trip(v, Seq::empty(), allowed);
    assert(bytes + Seq::<u8>::empty() =~= bytes);
}

/// A payload that is read is read to its last byte.
pub proof fn read_payloads_are_whole<W: Codec>(bytes: Seq<u8>, budget: nat)
    requires
        bytes.len() <= usize::MAX,
        decoded_payload::<W>(bytes, budget) is Ok,
    ensures
        budget >= bytes.len(),
        left_over::<W>(bytes, budget).bytes.len() == 0,
{
    <(W, HashFunction) as Codec>::bytes_are_charged(
        Input { bytes, budget: allocation_budget(bytes.len(), budget) },
    );
}

/// A payload at the start of which inputs can be read, and which has bytes behind them, is rejected,
/// whatever these are.
pub proof fn left_over_bytes_are_rejected<W: Codec>(bytes: Seq<u8>, budget: nat)
    requires
        bytes.len() <= budget,
        bytes.len() <= usize::MAX,
        <(W, HashFunction) as Codec>::decoded(
            Input { bytes, budget: allocation_budget(bytes.len(), budget) },
        ).0 is Ok,
        left_over::<W>(bytes, budget).bytes.len() > 0,
    ensures
        decoded_payload::<W>(bytes, budget) == Err::<(W::V, HashFunction), Fault>(trailing_bytes()),
{
    <(W, HashFunction) as Codec>::bytes_are_charged(
        Input { bytes, budget: allocation_budget(bytes.len(), budget) },
    );
}

/// Inputs that were written are rejected where bytes follow them, whatever these are.
pub proof fn trailing_bytes_are_rejected<W: Codec>(v: (W::V, HashFunction), rest: Seq<u8>, budget: nat)
    requires
        <(W, HashFunction) as Codec>::valid(v),
        rest.len() > 0,
        <(W, HashFunction) as Codec>::encoded(v).len() + rest.len() <= usize::MAX,
    ensures
        decoded_payload::<W>(<(W, HashFunction) as Codec>::encoded(v) + rest, budget) == Err::<
            (W::V, HashFunction),
            Fault,
        >(
            if budget < <(W, HashFunction) as Codec>::encoded(v).len() + rest.len() {
                small_budget()
            } else {
                trailing_bytes()
            },
        ),
{
    let bytes = <(W, HashFunction) as Codec>::encoded(v) + rest;
    if budget >= bytes.len() {
        <(W, HashFunction) as Codec>::round_trip(v, rest, allocation_budget(bytes.len(), budget));
    }
}

/// A payload for which the budget is too small is rejected.
pub proof fn small_budgets_are_rejected<W: Codec>(bytes: Seq<u8>, budget: nat)
    requires
        budget < bytes.len(),
    ensures
        decoded_payload::<W>(bytes, budget) == Err::<(W::V, HashFunction), Fault>(small_budget()),
{
}

} // verus!

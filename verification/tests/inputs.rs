//! Inputs of the prover.
use miden_replay::fields::{Felt, Word};
use miden_replay::inputs::{HashFunction, TraceProvingInputs};
use miden_replay::reader::DeserializationError;
use miden_replay::wire::Codec;

fn inputs(hash_fn: HashFunction) -> TraceProvingInputs<Word> {
    let felt = Felt::new_unchecked;
    TraceProvingInputs::new(Word::new(felt(1), felt(2), felt(3), felt(4)), hash_fn)
}

fn bytes_of(inputs: &TraceProvingInputs<Word>) -> Vec<u8> {
    let mut bytes = Vec::new();
    inputs.write_into(&mut bytes);
    bytes
}

#[test]
fn inputs_are_read_back() {
    for hash_fn in [
        HashFunction::Blake3_256,
        HashFunction::Rpo256,
        HashFunction::Rpx256,
        HashFunction::Poseidon2,
        HashFunction::Keccak,
    ] {
        let bytes = bytes_of(&inputs(hash_fn));
        assert_eq!(bytes.len(), 33);
        assert_eq!(TraceProvingInputs::<Word>::read_from_bytes(&bytes), Ok(inputs(hash_fn)));
        assert_eq!(TraceProvingInputs::<Word>::read_from_bytes_with_budget(&bytes, 33), Ok(inputs(hash_fn)));
        let (_, read) = TraceProvingInputs::<Word>::read_from_bytes(&bytes).unwrap().into_parts();
        assert_eq!(read, hash_fn);
    }
    assert_eq!(bytes_of(&inputs(HashFunction::Keccak))[32], 5);
}

#[test]
fn a_budget_below_the_payload_is_rejected() {
    let bytes = bytes_of(&inputs(HashFunction::Rpo256));
    assert_eq!(
        TraceProvingInputs::<Word>::read_from_bytes_with_budget(&bytes, 32),
        Err(DeserializationError::InvalidValue(
            "TraceProvingInputs byte budget is smaller than payload length".to_string()
        ))
    );
}

#[test]
fn trailing_bytes_are_rejected() {
    let mut bytes = bytes_of(&inputs(HashFunction::Rpo256));
    bytes.push(0);
    assert_eq!(
        TraceProvingInputs::<Word>::read_from_bytes(&bytes),
        Err(DeserializationError::InvalidValue("TraceProvingInputs payload has trailing bytes".to_string()))
    );
}

#[test]
fn an_unknown_hash_function_is_rejected() {
    let mut bytes = bytes_of(&inputs(HashFunction::Rpo256));
    bytes[32] = 6;
    assert_eq!(
        TraceProvingInputs::<Word>::read_from_bytes(&bytes),
        Err(DeserializationError::InvalidValue("the hash function representation 6 is not valid!".to_string()))
    );
}

#[test]
fn a_short_payload_is_an_unexpected_end() {
    let bytes = bytes_of(&inputs(HashFunction::Rpo256));
    assert_eq!(
        TraceProvingInputs::<Word>::read_from_bytes(&bytes[..20]),
        Err(DeserializationError::UnexpectedEOF)
    );
}

#[test]
fn bytes_behind_a_payload_in_another_form_are_rejected() {
    // The number five in nine bytes, where one would do, and the hash function.
    let mut bytes = vec![0, 5, 0, 0, 0, 0, 0, 0, 0, 2];
    assert_eq!(
        TraceProvingInputs::<usize>::read_from_bytes_with_budget(&bytes, bytes.len()),
        Ok(TraceProvingInputs::new(5, HashFunction::Rpo256))
    );
    bytes.push(0);
    for budget in [bytes.len(), bytes.len() + 1, usize::MAX] {
        assert_eq!(
            TraceProvingInputs::<usize>::read_from_bytes_with_budget(&bytes, budget),
            Err(DeserializationError::InvalidValue("TraceProvingInputs payload has trailing bytes".to_string()))
        );
    }
}

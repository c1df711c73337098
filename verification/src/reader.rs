//! Reading from a slice of bytes under a budget, and writing to a vector of bytes.
//!
//! What is read and written goes through `miden_crypto`'s byte readers and writers.
use miden_crypto::utils::{BudgetedReader, ByteReader, ByteWriter, SliceReader};

use vstd::prelude::*;

use crate::bytes::{le_bytes, le_value};
use crate::numerals::numeral;

verus! {

// ERRORS
// ================================================================================================

/// Why bytes cannot be read.
#[derive(Debug, Clone, PartialEq, Eq)]
pub enum DeserializationError {
    /// There are too few bytes.
    UnexpectedEOF,
    /// The bytes do not stand for a value, or reading them exceeds the budget.
    InvalidValue(String),
    /// Another reason.
    UnknownError(String),
}

/// What a [`DeserializationError`] stands for.
#[verifier::ext_equal]
pub enum Fault {
    EndOfInput,
    Invalid(Seq<char>),
    Unknown(Seq<char>),
}

impl DeserializationError {
    pub open spec fn fault(self) -> Fault {
        match self {
            DeserializationError::UnexpectedEOF => Fault::EndOfInput,
            DeserializationError::InvalidValue(message) => Fault::Invalid(message@),
            DeserializationError::UnknownError(message) => Fault::Unknown(message@),
        }
    }
}

// THE READER
// ================================================================================================

/// `miden_crypto::utils::SliceReader`, which reads from a slice of bytes.
#[verifier::external_type_specification]
#[verifier::external_body]
pub struct ExSliceReader<'a>(SliceReader<'a>);

/// `miden_crypto::utils::BudgetedReader`, which reads from another reader under a budget.
#[verifier::external_type_specification]
#[verifier::external_body]
#[verifier::reject_recursive_types(R)]
pub struct ExBudgetedReader<R>(BudgetedReader<R>);

/// The bytes that a reader has not read yet.
pub uninterp spec fn unread(reader: BudgetedReader<SliceReader<'_>>) -> Seq<u8>;

/// The number of bytes that a reader may still read.
pub uninterp spec fn allowance(reader: BudgetedReader<SliceReader<'_>>) -> nat;

/// What a reader stands for.
#[verifier::ext_equal]
pub struct Input {
    /// The bytes to be read.
    pub bytes: Seq<u8>,
    /// The number of bytes that may be read.
    pub budget: nat,
}

/// What `reader` stands for.
pub open spec fn input(reader: BudgetedReader<SliceReader<'_>>) -> Input {
    Input { bytes: unread(reader), budget: allowance(reader) }
}

/// `rest` is what is left of `s` once some bytes have been read, each of which was charged to the
/// budget.
pub open spec fn charged(s: Input, rest: Input) -> bool {
    &&& rest.bytes.len() <= s.bytes.len()
    &&& rest.bytes == s.bytes.skip(s.bytes.len() - rest.bytes.len())
    &&& s.budget - rest.budget == s.bytes.len() - rest.bytes.len()
}

/// A sentence with two numbers.
pub open spec fn sentence(before: Seq<char>, n: nat, between: Seq<char>, m: nat) -> Seq<char> {
    before + numeral(n) + between + numeral(m)
}

/// Reads `n` bytes. The budget is charged before the bytes are looked for.
pub open spec fn take_bytes(s: Input, n: nat) -> (Result<Seq<u8>, Fault>, Input) {
    if n > s.budget {
        (
            Err(
                Fault::Invalid(
                    sentence("budget exhausted: requested "@, n, " bytes, "@, s.budget) + " remaining"@,
                ),
            ),
            s,
        )
    } else {
        let charged = Input { bytes: s.bytes, budget: (s.budget - n) as nat };
        if n > s.bytes.len() {
            (Err(Fault::EndOfInput), charged)
        } else {
            (Ok(s.bytes.take(n as int)), Input { bytes: s.bytes.skip(n as int), ..charged })
        }
    }
}

/// Reads a number of `n` bytes.
pub open spec fn take_number(s: Input, n: nat) -> (Result<nat, Fault>, Input) {
    match take_bytes(s, n) {
        (Err(fault), rest) => (Err(fault), rest),
        (Ok(bytes), rest) => (Ok(le_value(bytes)), rest),
    }
}

/// The number of bytes of a number of variable length, which its first byte tells: one more than
/// the zeros at the end of that byte.
pub open spec fn vint_width(first: u8) -> nat {
    if first % 2 == 1 {
        1
    } else if first % 4 == 2 {
        2
    } else if first % 8 == 4 {
        3
    } else if first % 16 == 8 {
        4
    } else if first % 32 == 16 {
        5
    } else if first % 64 == 32 {
        6
    } else if first % 128 == 64 {
        7
    } else if first == 128 {
        8
    } else {
        9
    }
}

/// Two to the power of the number of bytes: what a number of variable length is multiplied by.
pub open spec fn vint_scale(width: nat) -> nat {
    if width == 1 {
        2
    } else if width == 2 {
        4
    } else if width == 3 {
        8
    } else if width == 4 {
        16
    } else if width == 5 {
        32
    } else if width == 6 {
        64
    } else if width == 7 {
        128
    } else {
        256
    }
}

/// Reads a number of variable length.
pub open spec fn take_vint(s: Input) -> (Result<nat, Fault>, Input) {
    if s.bytes.len() == 0 {
        (Err(Fault::EndOfInput), s)
    } else {
        let width = vint_width(s.bytes[0]);
        if width == 9 {
            match take_bytes(s, 1) {
                (Err(fault), rest) => (Err(fault), rest),
                (Ok(_), rest) => take_number(rest, 8),
            }
        } else {
            match take_number(s, width) {
                (Err(fault), rest) => (Err(fault), rest),
                (Ok(n), rest) => (Ok(n / vint_scale(width)), rest),
            }
        }
    }
}

/// Reads a `usize`.
pub open spec fn take_usize(s: Input) -> (Result<nat, Fault>, Input) {
    match take_vint(s) {
        (Err(fault), rest) => (Err(fault), rest),
        (Ok(n), rest) => if n > usize::MAX {
            (
                Err(
                    Fault::Invalid(
                        sentence("Encoded value must be less than "@, usize::MAX as nat, ", but "@, n)
                            + " was provided"@,
                    ),
                ),
                rest,
            )
        } else {
            (Ok(n), rest)
        },
    }
}

/// The number of elements of at least `size` bytes each that the budget allows.
pub open spec fn room_for(s: Input, size: nat) -> nat {
    if size == 0 {
        usize::MAX as nat
    } else {
        s.budget / size
    }
}

/// A reader of `bytes` that may read up to `budget` of them.
///
/// This is `BudgetedReader::new` on a `SliceReader::new`, of which it is claimed that the reader
/// has all the bytes unread, and all of the budget left.
#[verifier::external_body]
pub(crate) fn open_reader(bytes: &[u8], budget: usize) -> (source: BudgetedReader<SliceReader<'_>>)
    ensures
        unread(source) == bytes@,
        allowance(source) == budget,
{
    BudgetedReader::new(SliceReader::new(bytes), budget)
}

/// Reads a byte.
///
/// This is `ByteReader::read_u8` of a budgeted reader of a slice, of which it is claimed that it
/// reads one byte, where budget and slice have one, and says what is missing where they do not.
#[verifier::external_body]
pub(crate) fn read_u8(source: &mut BudgetedReader<SliceReader<'_>>) -> (result: Result<u8, DeserializationError>)
    ensures
        input(*final(source)) == take_number(input(*old(source)), 1).1,
        match (result, take_number(input(*old(source)), 1).0) {
            (Ok(value), Ok(expected)) => value == expected,
            (Err(error), Err(fault)) => error.fault() == fault,
            _ => false,
        },
{
    match source.read_u8() {
        Ok(value) => Ok(value),
        Err(miden_crypto::utils::DeserializationError::UnexpectedEOF) => Err(DeserializationError::UnexpectedEOF),
        Err(miden_crypto::utils::DeserializationError::InvalidValue(message)) => {
            Err(DeserializationError::InvalidValue(message))
        },
        Err(miden_crypto::utils::DeserializationError::UnknownError(message)) => {
            Err(DeserializationError::UnknownError(message))
        },
    }
}

/// Reads a `u16`.
///
/// This is `ByteReader::read_u16` of a budgeted reader of a slice, of which it is claimed that it
/// reads two bytes, least significant first, where budget and slice have them, and says what is
/// missing where they do not.
#[verifier::external_body]
pub(crate) fn read_u16(source: &mut BudgetedReader<SliceReader<'_>>) -> (result: Result<u16, DeserializationError>)
    ensures
        input(*final(source)) == take_number(input(*old(source)), 2).1,
        match (result, take_number(input(*old(source)), 2).0) {
            (Ok(value), Ok(expected)) => value == expected,
            (Err(error), Err(fault)) => error.fault() == fault,
            _ => false,
        },
{
    match source.read_u16() {
        Ok(value) => Ok(value),
        Err(miden_crypto::utils::DeserializationError::UnexpectedEOF) => Err(DeserializationError::UnexpectedEOF),
        Err(miden_crypto::utils::DeserializationError::InvalidValue(message)) => {
            Err(DeserializationError::InvalidValue(message))
        },
        Err(miden_crypto::utils::DeserializationError::UnknownError(message)) => {
            Err(DeserializationError::UnknownError(message))
        },
    }
}

/// Reads a `u32`.
///
/// This is `ByteReader::read_u32` of a budgeted reader of a slice, of which it is claimed that it
/// reads four bytes, least significant first, where budget and slice have them, and says what is
/// missing where they do not.
#[verifier::external_body]
pub(crate) fn read_u32(source: &mut BudgetedReader<SliceReader<'_>>) -> (result: Result<u32, DeserializationError>)
    ensures
        input(*final(source)) == take_number(input(*old(source)), 4).1,
        match (result, take_number(input(*old(source)), 4).0) {
            (Ok(value), Ok(expected)) => value == expected,
            (Err(error), Err(fault)) => error.fault() == fault,
            _ => false,
        },
{
    match source.read_u32() {
        Ok(value) => Ok(value),
        Err(miden_crypto::utils::DeserializationError::UnexpectedEOF) => Err(DeserializationError::UnexpectedEOF),
        Err(miden_crypto::utils::DeserializationError::InvalidValue(message)) => {
            Err(DeserializationError::InvalidValue(message))
        },
        Err(miden_crypto::utils::DeserializationError::UnknownError(message)) => {
            Err(DeserializationError::UnknownError(message))
        },
    }
}

/// Reads a `u64`.
///
/// This is `ByteReader::read_u64` of a budgeted reader of a slice, of which it is claimed that it
/// reads eight bytes, least significant first, where budget and slice have them, and says what is
/// missing where they do not.
#[verifier::external_body]
pub(crate) fn read_u64(source: &mut BudgetedReader<SliceReader<'_>>) -> (result: Result<u64, DeserializationError>)
    ensures
        input(*final(source)) == take_number(input(*old(source)), 8).1,
        match (result, take_number(input(*old(source)), 8).0) {
            (Ok(value), Ok(expected)) => value == expected,
            (Err(error), Err(fault)) => error.fault() == fault,
            _ => false,
        },
{
    match source.read_u64() {
        Ok(value) => Ok(value),
        Err(miden_crypto::utils::DeserializationError::UnexpectedEOF) => Err(DeserializationError::UnexpectedEOF),
        Err(miden_crypto::utils::DeserializationError::InvalidValue(message)) => {
            Err(DeserializationError::InvalidValue(message))
        },
        Err(miden_crypto::utils::DeserializationError::UnknownError(message)) => {
            Err(DeserializationError::UnknownError(message))
        },
    }
}

/// Reads a `usize`.
///
/// This is `ByteReader::read_usize` of a budgeted reader of a slice, of which it is claimed that it
/// reads a number of variable length: its first byte, which is looked at before the budget is
/// charged, tells how many bytes it has, and the number is what they stand for, least significant
/// first, without the bits that tell their number. It says what is missing where budget or slice
/// have too few bytes, and which number was read where it is no `usize`.
#[verifier::external_body]
pub(crate) fn read_usize(source: &mut BudgetedReader<SliceReader<'_>>) -> (result: Result<
    usize,
    DeserializationError,
>)
    ensures
        input(*final(source)) == take_usize(input(*old(source))).1,
        match (result, take_usize(input(*old(source))).0) {
            (Ok(value), Ok(expected)) => value == expected,
            (Err(error), Err(fault)) => error.fault() == fault,
            _ => false,
        },
{
    match source.read_usize() {
        Ok(value) => Ok(value),
        Err(miden_crypto::utils::DeserializationError::UnexpectedEOF) => Err(DeserializationError::UnexpectedEOF),
        Err(miden_crypto::utils::DeserializationError::InvalidValue(message)) => {
            Err(DeserializationError::InvalidValue(message))
        },
        Err(miden_crypto::utils::DeserializationError::UnknownError(message)) => {
            Err(DeserializationError::UnknownError(message))
        },
    }
}

/// Whether `n` more bytes can be read.
///
/// This is `ByteReader::check_eor` of a budgeted reader of a slice, of which it is claimed that it
/// succeeds exactly where budget and slice have the bytes.
#[verifier::external_body]
pub(crate) fn can_read(source: &BudgetedReader<SliceReader<'_>>, n: usize) -> (result: bool)
    ensures
        result == (n <= allowance(*source) && n <= unread(*source).len()),
{
    source.check_eor(n).is_ok()
}

/// Whether there are bytes to be read.
///
/// This is `ByteReader::has_more_bytes` of a budgeted reader of a slice, of which it is claimed that
/// it tells whether budget and slice have a byte.
#[verifier::external_body]
pub(crate) fn has_more_bytes(source: &BudgetedReader<SliceReader<'_>>) -> (more: bool)
    ensures
        more == (allowance(*source) > 0 && unread(*source).len() > 0),
{
    source.has_more_bytes()
}

/// The number of elements of at least `size` bytes each that can be read.
///
/// This is `ByteReader::max_alloc` of a budgeted reader, of which it is claimed that it divides the
/// budget by the size, and sets no bound where the size is zero.
#[verifier::external_body]
pub(crate) fn max_alloc(source: &BudgetedReader<SliceReader<'_>>, size: usize) -> (count: usize)
    ensures
        count == room_for(input(*source), size as nat),
{
    source.max_alloc(size)
}

// THE WRITER
// ================================================================================================

/// The number of bytes that a number takes when its length is variable.
pub open spec fn vint_size(n: nat) -> nat {
    if n < 0x80 {
        1
    } else if n < 0x4000 {
        2
    } else if n < 0x20_0000 {
        3
    } else if n < 0x1000_0000 {
        4
    } else if n < 0x8_0000_0000 {
        5
    } else if n < 0x400_0000_0000 {
        6
    } else if n < 0x2_0000_0000_0000 {
        7
    } else if n < 0x100_0000_0000_0000 {
        8
    } else {
        9
    }
}

/// The bytes of a number of variable length: the number, behind a one and as many zeros as there
/// are bytes after the first; or a zero byte and eight more where these are too few.
pub open spec fn vint_bytes(n: nat) -> Seq<u8> {
    let size = vint_size(n);
    if size == 9 {
        seq![0u8] + le_bytes(n, 8)
    } else {
        le_bytes(n * vint_scale(size) + vint_scale(size) / 2, size)
    }
}

/// Writes a byte.
///
/// This is `ByteWriter::write_u8` of a vector, of which it is claimed that it appends the byte.
#[verifier::external_body]
pub(crate) fn write_u8(target: &mut Vec<u8>, value: u8)
    ensures
        final(target)@ == old(target)@ + le_bytes(value as nat, 1),
{
    ByteWriter::write_u8(target, value)
}

/// Writes a `u16`.
///
/// This is `ByteWriter::write_u16` of a vector, of which it is claimed that it appends two bytes,
/// least significant first.
#[verifier::external_body]
pub(crate) fn write_u16(target: &mut Vec<u8>, value: u16)
    ensures
        final(target)@ == old(target)@ + le_bytes(value as nat, 2),
{
    ByteWriter::write_u16(target, value)
}

/// Writes a `u32`.
///
/// This is `ByteWriter::write_u32` of a vector, of which it is claimed that it appends four bytes,
/// least significant first.
#[verifier::external_body]
pub(crate) fn write_u32(target: &mut Vec<u8>, value: u32)
    ensures
        final(target)@ == old(target)@ + le_bytes(value as nat, 4),
{
    ByteWriter::write_u32(target, value)
}

/// Writes a `u64`.
///
/// This is `ByteWriter::write_u64` of a vector, of which it is claimed that it appends eight bytes,
/// least significant first.
#[verifier::external_body]
pub(crate) fn write_u64(target: &mut Vec<u8>, value: u64)
    ensures
        final(target)@ == old(target)@ + le_bytes(value as nat, 8),
{
    ByteWriter::write_u64(target, value)
}

/// Writes a `usize`.
///
/// This is `ByteWriter::write_usize` of a vector, of which it is claimed that it appends the bytes
/// of a number of variable length, as few as hold it.
#[verifier::external_body]
pub(crate) fn write_usize(target: &mut Vec<u8>, value: usize)
    ensures
        final(target)@ == old(target)@ + vint_bytes(value as nat),
{
    ByteWriter::write_usize(target, value)
}

} // verus!

//! Values as bytes, and back.
use std::collections::VecDeque;

use miden_crypto::utils::{BudgetedReader, SliceReader};

use vstd::prelude::*;
use vstd::string::StringExecFns;

use crate::bytes::{le_bytes, le_bytes_len, le_value_of_bytes, span};
use crate::numerals::{decimal, numeral};
use crate::reader::{
    can_read, charged, input, max_alloc, read_u16, read_u32, read_u8, read_usize, room_for, sentence, take_bytes,
    take_number, take_usize, take_vint, vint_bytes, vint_scale, vint_size, vint_width, write_u16, write_u32, write_u8,
    write_usize, DeserializationError, Fault, Input,
};

verus! {

// CODECS
// ================================================================================================

/// Values that can be written as bytes and read back.
pub trait Codec: Sized {
    /// What a value stands for.
    type V;

    /// What this value stands for.
    spec fn val(&self) -> Self::V;

    /// Whether what a value stands for can be read back.
    spec fn valid(v: Self::V) -> bool;

    /// The bytes that are written.
    spec fn encoded(v: Self::V) -> Seq<u8>;

    /// What is read from an input, and what is left of it.
    spec fn decoded(s: Input) -> (Result<Self::V, Fault>, Input);

    /// What is taken for the least number of bytes of a value, when the room for several is estimated.
    spec fn min_size() -> nat;

    /// Writes the bytes of this value.
    fn write_into(&self, target: &mut Vec<u8>)
        ensures
            final(target)@ == old(target)@ + Self::encoded(self.val()),
    ;

    /// Reads a value.
    fn read_from(source: &mut BudgetedReader<SliceReader<'_>>) -> (result: Result<Self, DeserializationError>)
        ensures
            input(*final(source)) == Self::decoded(input(*old(source))).1,
            match (result, Self::decoded(input(*old(source))).0) {
                (Ok(value), Ok(expected)) => value.val() == expected,
                (Err(error), Err(fault)) => error.fault() == fault,
                _ => false,
            },
    ;

    /// What is taken for the least number of bytes of a value, when the room for several is estimated.
    fn min_serialized_size() -> (size: usize)
        ensures
            size == Self::min_size(),
    ;

    /// What was written is read back, whatever follows it, where the budget allows it.
    proof fn round_trip(v: Self::V, rest: Seq<u8>, budget: nat)
        requires
            Self::valid(v),
            Self::encoded(v).len() <= budget,
        ensures
            Self::decoded(Input { bytes: Self::encoded(v) + rest, budget }) == (
                Ok::<Self::V, Fault>(v),
                Input { bytes: rest, budget: (budget - Self::encoded(v).len()) as nat },
            ),
    ;

    /// Every byte that is read is charged to the budget, and nothing else is.
    proof fn bytes_are_charged(s: Input)
        ensures
            Self::decoded(s).0 is Ok ==> charged(s, Self::decoded(s).1),
    ;
}

/// Values of which several can be read: no more of them are taken to have room than there are.
pub trait Item: Codec {
    /// No value takes fewer bytes than the least number of them.
    proof fn size_is_least(v: Self::V)
        requires
            Self::valid(v),
        ensures
            Self::encoded(v).len() >= Self::min_size(),
    ;
}

// NUMBERS
// ================================================================================================

/// Bytes that are read in two steps are charged.
pub proof fn charged_twice(s: Input, between: Input, rest: Input)
    requires
        charged(s, between),
        charged(between, rest),
    ensures
        charged(s, rest),
{
    assert(rest.bytes =~= s.bytes.skip(s.bytes.len() - rest.bytes.len()));
}

/// The bytes of a number are charged.
pub proof fn number_is_charged(s: Input, n: nat)
    ensures
        take_bytes(s, n).0 is Ok ==> charged(s, take_bytes(s, n).1),
        take_number(s, n).0 is Ok ==> charged(s, take_number(s, n).1),
{
    if n <= s.bytes.len() {
        let rest = s.bytes.skip(n as int);
        assert(rest =~= s.bytes.skip(s.bytes.len() - rest.len()));
    }
}

/// The bytes of a number of variable length are charged.
pub proof fn vint_is_charged(s: Input)
    ensures
        take_usize(s).0 is Ok ==> charged(s, take_usize(s).1),
{
    if s.bytes.len() > 0 {
        let width = vint_width(s.bytes[0]);
        number_is_charged(s, width);
        number_is_charged(s, 1);
        let rest = take_bytes(s, 1).1;
        number_is_charged(rest, 8);
        if width == 9 && take_vint(s).0 is Ok {
            charged_twice(s, rest, take_number(rest, 8).1);
        }
    }
}

/// Bytes that were written are taken back.
pub proof fn taken_back(bytes: Seq<u8>, rest: Seq<u8>, budget: nat)
    requires
        bytes.len() <= budget,
    ensures
        take_bytes(Input { bytes: bytes + rest, budget }, bytes.len()) == (
            Ok::<Seq<u8>, Fault>(bytes),
            Input { bytes: rest, budget: (budget - bytes.len()) as nat },
        ),
{
    assert((bytes + rest).take(bytes.len() as int) =~= bytes);
    assert((bytes + rest).skip(bytes.len() as int) =~= rest);
}

/// A number that was written is taken back.
pub proof fn number_taken_back(n: nat, count: nat, rest: Seq<u8>, budget: nat)
    requires
        n < span(count),
        count <= budget,
    ensures
        take_number(Input { bytes: le_bytes(n, count) + rest, budget }, count) == (
            Ok::<nat, Fault>(n),
            Input { bytes: rest, budget: (budget - count) as nat },
        ),
{
    le_bytes_len(n, count);
    taken_back(le_bytes(n, count), rest, budget);
    le_value_of_bytes(n, count);
}

proof fn spans()
    ensures
        span(1) == 0x100,
        span(2) == 0x1_0000,
        span(3) == 0x100_0000,
        span(4) == 0x1_0000_0000,
        span(5) == 0x100_0000_0000,
        span(6) == 0x1_0000_0000_0000,
        span(7) == 0x100_0000_0000_0000,
        span(8) == 0x1_0000_0000_0000_0000,
{
    reveal_with_fuel(span, 9);
}

/// What a number of variable length is written as, where it takes fewer than nine bytes.
spec fn vint_scaled(n: nat) -> nat {
    n * vint_scale(vint_size(n)) + vint_scale(vint_size(n)) / 2
}

proof fn vint_scaled_1(n: nat, x: nat, first: u8)
    requires
        x == 2 * n + 1,
        first == x % 256,
    ensures
        x / 2 == n,
        vint_width(first) == 1,
{
    assert(x % 2 == 1);
    assert(first % 2 == 1);
}

proof fn vint_scaled_2(n: nat, x: nat, first: u8)
    requires
        x == 4 * n + 2,
        first == x % 256,
    ensures
        x / 4 == n,
        vint_width(first) == 2,
{
    assert(x % 4 == 2);
    assert(first % 4 == 2);
    assert(first % 2 != 1) by (bit_vector)
        requires
            first % 4 == 2,
    ;
}

proof fn vint_scaled_3(n: nat, x: nat, first: u8)
    requires
        x == 8 * n + 4,
        first == x % 256,
    ensures
        x / 8 == n,
        vint_width(first) == 3,
{
    assert(x % 8 == 4);
    assert(first % 8 == 4);
    assert(first % 2 != 1 && first % 4 != 2) by (bit_vector)
        requires
            first % 8 == 4,
    ;
}

proof fn vint_scaled_4(n: nat, x: nat, first: u8)
    requires
        x == 16 * n + 8,
        first == x % 256,
    ensures
        x / 16 == n,
        vint_width(first) == 4,
{
    assert(x % 16 == 8);
    assert(first % 16 == 8);
    assert(first % 2 != 1 && first % 4 != 2 && first % 8 != 4) by (bit_vector)
        requires
            first % 16 == 8,
    ;
}

proof fn vint_scaled_5(n: nat, x: nat, first: u8)
    requires
        x == 32 * n + 16,
        first == x % 256,
    ensures
        x / 32 == n,
        vint_width(first) == 5,
{
    assert(x % 32 == 16);
    assert(first % 32 == 16);
    assert(first % 2 != 1 && first % 4 != 2 && first % 8 != 4 && first % 16 != 8) by (bit_vector)
        requires
            first % 32 == 16,
    ;
}

proof fn vint_scaled_6(n: nat, x: nat, first: u8)
    requires
        x == 64 * n + 32,
        first == x % 256,
    ensures
        x / 64 == n,
        vint_width(first) == 6,
{
    assert(x % 64 == 32);
    assert(first % 64 == 32);
    assert(first % 2 != 1 && first % 4 != 2 && first % 8 != 4 && first % 16 != 8 && first % 32 != 16) by (bit_vector)
        requires
            first % 64 == 32,
    ;
}

proof fn vint_scaled_7(n: nat, x: nat, first: u8)
    requires
        x == 128 * n + 64,
        first == x % 256,
    ensures
        x / 128 == n,
        vint_width(first) == 7,
{
    assert(x % 128 == 64);
    assert(first % 128 == 64);
    assert(first % 2 != 1 && first % 4 != 2 && first % 8 != 4 && first % 16 != 8 && first % 32 != 16 && first % 64 != 32) by (bit_vector)
        requires
            first % 128 == 64,
    ;
}

proof fn vint_scaled_8(n: nat, x: nat, first: u8)
    requires
        x == 256 * n + 128,
        first == x % 256,
    ensures
        x / 256 == n,
        vint_width(first) == 8,
{
    assert(x % 256 == 128);
    assert(first == 128);
    assert(first % 2 != 1 && first % 4 != 2 && first % 8 != 4 && first % 16 != 8 && first % 32 != 16 && first % 64 != 32 && first % 128 != 64) by (bit_vector)
        requires
            first == 128,
    ;
}

/// What a number of variable length is written as gives it back, and its first byte tells its size.
proof fn vint_scaled_back(n: nat)
    requires
        vint_size(n) < 9,
    ensures
        vint_scaled(n) < span(vint_size(n)),
        vint_scaled(n) / vint_scale(vint_size(n)) == n,
        vint_width((vint_scaled(n) % 256) as u8) == vint_size(n),
{
    spans();
    let size = vint_size(n);
    let x = vint_scaled(n);
    if size == 1 {
        vint_scaled_1(n, x, (x % 256) as u8);
    } else if size == 2 {
        vint_scaled_2(n, x, (x % 256) as u8);
    } else if size == 3 {
        vint_scaled_3(n, x, (x % 256) as u8);
    } else if size == 4 {
        vint_scaled_4(n, x, (x % 256) as u8);
    } else if size == 5 {
        vint_scaled_5(n, x, (x % 256) as u8);
    } else if size == 6 {
        vint_scaled_6(n, x, (x % 256) as u8);
    } else if size == 7 {
        vint_scaled_7(n, x, (x % 256) as u8);
    } else if size == 8 {
        vint_scaled_8(n, x, (x % 256) as u8);
    }
}

/// The first byte of a number of variable length tells its size.
proof fn vint_first_byte(n: nat)
    requires
        n <= u64::MAX,
    ensures
        vint_bytes(n).len() == vint_size(n),
        vint_width(vint_bytes(n)[0]) == vint_size(n),
{
    let size = vint_size(n);
    if size < 9 {
        vint_scaled_back(n);
        le_bytes_len(vint_scaled(n), size);
        assert(vint_bytes(n)[0] == (vint_scaled(n) % 256) as u8);
    } else {
        le_bytes_len(n, 8);
    }
}

/// A number of variable length that was written is taken back.
pub proof fn vint_taken_back(n: nat, rest: Seq<u8>, budget: nat)
    requires
        n <= u64::MAX,
        vint_size(n) <= budget,
    ensures
        vint_bytes(n).len() == vint_size(n),
        take_vint(Input { bytes: vint_bytes(n) + rest, budget }) == (
            Ok::<nat, Fault>(n),
            Input { bytes: rest, budget: (budget - vint_size(n)) as nat },
        ),
{
    spans();
    vint_first_byte(n);
    let size = vint_size(n);
    let s = Input { bytes: vint_bytes(n) + rest, budget };
    assert(s.bytes[0] == vint_bytes(n)[0]);
    if size < 9 {
        vint_scaled_back(n);
        number_taken_back(vint_scaled(n), size, rest, budget);
    } else {
        let tail = le_bytes(n, 8) + rest;
        assert(s.bytes =~= seq![0u8] + tail);
        taken_back(seq![0u8], tail, budget);
        number_taken_back(n, 8, rest, (budget - 1) as nat);
    }
}

impl Codec for u8 {
    type V = u8;

    open spec fn val(&self) -> u8 {
        *self
    }

    open spec fn valid(v: u8) -> bool {
        true
    }

    open spec fn encoded(v: u8) -> Seq<u8> {
        le_bytes(v as nat, 1)
    }

    open spec fn decoded(s: Input) -> (Result<u8, Fault>, Input) {
        match take_number(s, 1) {
            (Err(fault), rest) => (Err(fault), rest),
            (Ok(n), rest) => (Ok(n as u8), rest),
        }
    }

    open spec fn min_size() -> nat {
        1
    }

    fn write_into(&self, target: &mut Vec<u8>) {
        write_u8(target, *self)
    }

    fn read_from(source: &mut BudgetedReader<SliceReader<'_>>) -> (result: Result<u8, DeserializationError>) {
        read_u8(source)
    }

    fn min_serialized_size() -> (size: usize) {
        1
    }

    proof fn round_trip(v: u8, rest: Seq<u8>, budget: nat) {
        spans();
        le_bytes_len(v as nat, 1);
        number_taken_back(v as nat, 1, rest, budget);
    }

    proof fn bytes_are_charged(s: Input) {
        number_is_charged(s, 1);
    }
}

impl Item for u8 {
    proof fn size_is_least(v: u8) {
        le_bytes_len(v as nat, 1);
    }
}

impl Codec for u16 {
    type V = u16;

    open spec fn val(&self) -> u16 {
        *self
    }

    open spec fn valid(v: u16) -> bool {
        true
    }

    open spec fn encoded(v: u16) -> Seq<u8> {
        le_bytes(v as nat, 2)
    }

    open spec fn decoded(s: Input) -> (Result<u16, Fault>, Input) {
        match take_number(s, 2) {
            (Err(fault), rest) => (Err(fault), rest),
            (Ok(n), rest) => (Ok(n as u16), rest),
        }
    }

    open spec fn min_size() -> nat {
        2
    }

    fn write_into(&self, target: &mut Vec<u8>) {
        write_u16(target, *self)
    }

    fn read_from(source: &mut BudgetedReader<SliceReader<'_>>) -> (result: Result<u16, DeserializationError>) {
        read_u16(source)
    }

    fn min_serialized_size() -> (size: usize) {
        2
    }

    proof fn round_trip(v: u16, rest: Seq<u8>, budget: nat) {
        spans();
        le_bytes_len(v as nat, 2);
        number_taken_back(v as nat, 2, rest, budget);
    }

    proof fn bytes_are_charged(s: Input) {
        number_is_charged(s, 2);
    }
}

impl Item for u16 {
    proof fn size_is_least(v: u16) {
        le_bytes_len(v as nat, 2);
    }
}

impl Codec for u32 {
    type V = u32;

    open spec fn val(&self) -> u32 {
        *self
    }

    open spec fn valid(v: u32) -> bool {
        true
    }

    open spec fn encoded(v: u32) -> Seq<u8> {
        le_bytes(v as nat, 4)
    }

    open spec fn decoded(s: Input) -> (Result<u32, Fault>, Input) {
        match take_number(s, 4) {
            (Err(fault), rest) => (Err(fault), rest),
            (Ok(n), rest) => (Ok(n as u32), rest),
        }
    }

    open spec fn min_size() -> nat {
        4
    }

    fn write_into(&self, target: &mut Vec<u8>) {
        write_u32(target, *self)
    }

    fn read_from(source: &mut BudgetedReader<SliceReader<'_>>) -> (result: Result<u32, DeserializationError>) {
        read_u32(source)
    }

    fn min_serialized_size() -> (size: usize) {
        4
    }

    proof fn round_trip(v: u32, rest: Seq<u8>, budget: nat) {
        spans();
        le_bytes_len(v as nat, 4);
        number_taken_back(v as nat, 4, rest, budget);
    }

    proof fn bytes_are_charged(s: Input) {
        number_is_charged(s, 4);
    }
}

impl Item for u32 {
    proof fn size_is_least(v: u32) {
        le_bytes_len(v as nat, 4);
    }
}

impl Codec for usize {
    type V = usize;

    open spec fn val(&self) -> usize {
        *self
    }

    open spec fn valid(v: usize) -> bool {
        true
    }

    open spec fn encoded(v: usize) -> Seq<u8> {
        vint_bytes(v as nat)
    }

    open spec fn decoded(s: Input) -> (Result<usize, Fault>, Input) {
        match take_usize(s) {
            (Err(fault), rest) => (Err(fault), rest),
            (Ok(n), rest) => (Ok(n as usize), rest),
        }
    }

    open spec fn min_size() -> nat {
        1
    }

    fn write_into(&self, target: &mut Vec<u8>) {
        write_usize(target, *self)
    }

    fn read_from(source: &mut BudgetedReader<SliceReader<'_>>) -> (result: Result<usize, DeserializationError>) {
        read_usize(source)
    }

    fn min_serialized_size() -> (size: usize) {
        1
    }

    proof fn round_trip(v: usize, rest: Seq<u8>, budget: nat) {
        vint_first_byte(v as nat);
        vint_taken_back(v as nat, rest, budget);
    }

    proof fn bytes_are_charged(s: Input) {
        vint_is_charged(s);
    }
}

impl Item for usize {
    proof fn size_is_least(v: usize) {
        vint_first_byte(v as nat);
    }
}

// TUPLES
// ================================================================================================

/// The sum of two sizes, or the largest size where it is out of range.
pub open spec fn sum_of_sizes(a: nat, b: nat) -> nat {
    if a + b > usize::MAX {
        usize::MAX as nat
    } else {
        a + b
    }
}

pub(crate) fn add_sizes(a: usize, b: usize) -> (sum: usize)
    ensures
        sum == sum_of_sizes(a as nat, b as nat),
{
    if a > usize::MAX - b {
        usize::MAX
    } else {
        a + b
    }
}

impl<A: Codec, B: Codec> Codec for (A, B) {
    type V = (A::V, B::V);

    open spec fn val(&self) -> (A::V, B::V) {
        (self.0.val(), self.1.val())
    }

    open spec fn valid(v: (A::V, B::V)) -> bool {
        A::valid(v.0) && B::valid(v.1)
    }

    open spec fn encoded(v: (A::V, B::V)) -> Seq<u8> {
        A::encoded(v.0) + B::encoded(v.1)
    }

    open spec fn decoded(s: Input) -> (Result<(A::V, B::V), Fault>, Input) {
        match A::decoded(s) {
            (Err(fault), rest) => (Err(fault), rest),
            (Ok(a), rest) => match B::decoded(rest) {
                (Err(fault), rest) => (Err(fault), rest),
                (Ok(b), rest) => (Ok((a, b)), rest),
            },
        }
    }

    open spec fn min_size() -> nat {
        sum_of_sizes(A::min_size(), B::min_size())
    }

    fn write_into(&self, target: &mut Vec<u8>) {
        let ghost before = target@;
        self.0.write_into(target);
        self.1.write_into(target);
        assert(target@ =~= before + Self::encoded(self.val()));
    }

    fn read_from(source: &mut BudgetedReader<SliceReader<'_>>) -> (result: Result<(A, B), DeserializationError>) {
        let a = match A::read_from(source) {
            Err(error) => {
                return Err(error);
            },
            Ok(a) => a,
        };
        match B::read_from(source) {
            Err(error) => Err(error),
            Ok(b) => Ok((a, b)),
        }
    }

    fn min_serialized_size() -> (size: usize) {
        let a: usize = A::min_serialized_size();
        let b: usize = B::min_serialized_size();
        add_sizes(a, b)
    }

    proof fn round_trip(v: (A::V, B::V), rest: Seq<u8>, budget: nat) {
        let (a, b) = (A::encoded(v.0), B::encoded(v.1));
        assert(a + b + rest =~= a + (b + rest));
        A::round_trip(v.0, b + rest, budget);
        B::round_trip(v.1, rest, (budget - a.len()) as nat);
    }

    proof fn bytes_are_charged(s: Input) {
        A::bytes_are_charged(s);
        let rest = A::decoded(s).1;
        B::bytes_are_charged(rest);
        if Self::decoded(s).0 is Ok {
            charged_twice(s, rest, B::decoded(rest).1);
        }
    }
}

impl<A: Item, B: Item> Item for (A, B) {
    proof fn size_is_least(v: (A::V, B::V)) {
        A::size_is_least(v.0);
        B::size_is_least(v.1);
    }
}

impl<A: Codec, B: Codec, C: Codec> Codec for (A, B, C) {
    type V = (A::V, B::V, C::V);

    open spec fn val(&self) -> (A::V, B::V, C::V) {
        (self.0.val(), self.1.val(), self.2.val())
    }

    open spec fn valid(v: (A::V, B::V, C::V)) -> bool {
        <(A, (B, C)) as Codec>::valid((v.0, (v.1, v.2)))
    }

    open spec fn encoded(v: (A::V, B::V, C::V)) -> Seq<u8> {
        <(A, (B, C)) as Codec>::encoded((v.0, (v.1, v.2)))
    }

    open spec fn decoded(s: Input) -> (Result<(A::V, B::V, C::V), Fault>, Input) {
        match <(A, (B, C)) as Codec>::decoded(s) {
            (Err(fault), rest) => (Err(fault), rest),
            (Ok((a, (b, c))), rest) => (Ok((a, b, c)), rest),
        }
    }

    open spec fn min_size() -> nat {
        <(A, (B, C)) as Codec>::min_size()
    }

    fn write_into(&self, target: &mut Vec<u8>) {
        let ghost before = target@;
        self.0.write_into(target);
        self.1.write_into(target);
        self.2.write_into(target);
        assert(target@ =~= before + Self::encoded(self.val()));
    }

    fn read_from(source: &mut BudgetedReader<SliceReader<'_>>) -> (result: Result<(A, B, C), DeserializationError>) {
        match <(A, (B, C)) as Codec>::read_from(source) {
            Err(error) => Err(error),
            Ok((a, (b, c))) => Ok((a, b, c)),
        }
    }

    fn min_serialized_size() -> (size: usize) {
        <(A, (B, C)) as Codec>::min_serialized_size()
    }

    proof fn round_trip(v: (A::V, B::V, C::V), rest: Seq<u8>, budget: nat) {
        <(A, (B, C)) as Codec>::round_trip((v.0, (v.1, v.2)), rest, budget);
    }

    proof fn bytes_are_charged(s: Input) {
        <(A, (B, C)) as Codec>::bytes_are_charged(s);
    }
}

impl<A: Item, B: Item, C: Item> Item for (A, B, C) {
    proof fn size_is_least(v: (A::V, B::V, C::V)) {
        <(A, (B, C)) as Item>::size_is_least((v.0, (v.1, v.2)));
    }
}

impl<A: Codec, B: Codec, C: Codec, D: Codec> Codec for (A, B, C, D) {
    type V = (A::V, B::V, C::V, D::V);

    open spec fn val(&self) -> (A::V, B::V, C::V, D::V) {
        (self.0.val(), self.1.val(), self.2.val(), self.3.val())
    }

    open spec fn valid(v: (A::V, B::V, C::V, D::V)) -> bool {
        <(A, (B, (C, D))) as Codec>::valid((v.0, (v.1, (v.2, v.3))))
    }

    open spec fn encoded(v: (A::V, B::V, C::V, D::V)) -> Seq<u8> {
        <(A, (B, (C, D))) as Codec>::encoded((v.0, (v.1, (v.2, v.3))))
    }

    open spec fn decoded(s: Input) -> (Result<(A::V, B::V, C::V, D::V), Fault>, Input) {
        match <(A, (B, (C, D))) as Codec>::decoded(s) {
            (Err(fault), rest) => (Err(fault), rest),
            (Ok((a, (b, (c, d)))), rest) => (Ok((a, b, c, d)), rest),
        }
    }

    open spec fn min_size() -> nat {
        <(A, (B, (C, D))) as Codec>::min_size()
    }

    fn write_into(&self, target: &mut Vec<u8>) {
        let ghost before = target@;
        self.0.write_into(target);
        self.1.write_into(target);
        self.2.write_into(target);
        self.3.write_into(target);
        assert(target@ =~= before + Self::encoded(self.val()));
    }

    fn read_from(source: &mut BudgetedReader<SliceReader<'_>>) -> (result: Result<(A, B, C, D), DeserializationError>) {
        match <(A, (B, (C, D))) as Codec>::read_from(source) {
            Err(error) => Err(error),
            Ok((a, (b, (c, d)))) => Ok((a, b, c, d)),
        }
    }

    fn min_serialized_size() -> (size: usize) {
        <(A, (B, (C, D))) as Codec>::min_serialized_size()
    }

    proof fn round_trip(v: (A::V, B::V, C::V, D::V), rest: Seq<u8>, budget: nat) {
        <(A, (B, (C, D))) as Codec>::round_trip((v.0, (v.1, (v.2, v.3))), rest, budget);
    }

    proof fn bytes_are_charged(s: Input) {
        <(A, (B, (C, D))) as Codec>::bytes_are_charged(s);
    }
}

impl<A: Item, B: Item, C: Item, D: Item> Item for (A, B, C, D) {
    proof fn size_is_least(v: (A::V, B::V, C::V, D::V)) {
        <(A, (B, (C, D))) as Item>::size_is_least((v.0, (v.1, (v.2, v.3))));
    }
}

// LISTS
// ================================================================================================

/// The bytes of the first `n` items.
pub open spec fn encoded_items<T: Codec>(items: Seq<T::V>, n: nat) -> Seq<u8>
    decreases n,
{
    if n == 0 {
        Seq::empty()
    } else {
        encoded_items::<T>(items, (n - 1) as nat) + T::encoded(items[n - 1])
    }
}

/// Reads `n` items.
pub open spec fn decoded_items<T: Codec>(s: Input, n: nat) -> (Result<Seq<T::V>, Fault>, Input)
    decreases n,
{
    if n == 0 {
        (Ok(Seq::empty()), s)
    } else {
        match decoded_items::<T>(s, (n - 1) as nat) {
            (Err(fault), rest) => (Err(fault), rest),
            (Ok(items), rest) => match T::decoded(rest) {
                (Err(fault), rest) => (Err(fault), rest),
                (Ok(item), rest) => (Ok(items.push(item)), rest),
            },
        }
    }
}

/// The bytes of some items are charged.
pub proof fn items_are_charged<T: Codec>(s: Input, n: nat)
    ensures
        decoded_items::<T>(s, n).0 is Ok ==> charged(s, decoded_items::<T>(s, n).1),
    decreases n,
{
    if n > 0 {
        items_are_charged::<T>(s, (n - 1) as nat);
        let rest = decoded_items::<T>(s, (n - 1) as nat).1;
        T::bytes_are_charged(rest);
        if decoded_items::<T>(s, n).0 is Ok {
            charged_twice(s, rest, T::decoded(rest).1);
        }
    } else {
        assert(s.bytes =~= s.bytes.skip(0));
    }
}

/// What a list of values stands for.
pub open spec fn vals<T: Codec>(items: Seq<T>) -> Seq<T::V> {
    items.map_values(|item: T| item.val())
}

/// All of what a list stands for can be read back.
pub open spec fn all_valid<T: Codec>(items: Seq<T::V>) -> bool {
    forall|i: int| 0 <= i < items.len() ==> T::valid(#[trigger] items[i])
}

pub proof fn items_round_trip<T: Codec>(items: Seq<T::V>, n: nat, rest: Seq<u8>, budget: nat)
    requires
        n <= items.len(),
        all_valid::<T>(items),
        encoded_items::<T>(items, n).len() <= budget,
    ensures
        decoded_items::<T>(Input { bytes: encoded_items::<T>(items, n) + rest, budget }, n) == (
            Ok::<Seq<T::V>, Fault>(items.take(n as int)),
            Input { bytes: rest, budget: (budget - encoded_items::<T>(items, n).len()) as nat },
        ),
    decreases n,
{
    if n == 0 {
        assert(Seq::<u8>::empty() + rest =~= rest);
        assert(items.take(0) =~= Seq::<T::V>::empty());
    } else {
        let m = (n - 1) as nat;
        let (before, last) = (encoded_items::<T>(items, m), T::encoded(items[m as int]));
        assert(before + last + rest =~= before + (last + rest));
        items_round_trip::<T>(items, m, last + rest, budget);
        T::round_trip(items[m as int], rest, (budget - before.len()) as nat);
        assert(items.take(n as int) =~= items.take(m as int).push(items[m as int]));
    }
}

pub proof fn items_size_is_least<T: Item>(items: Seq<T::V>, n: nat)
    requires
        n <= items.len(),
        all_valid::<T>(items),
    ensures
        encoded_items::<T>(items, n).len() >= n * T::min_size(),
    decreases n,
{
    if n > 0 {
        items_size_is_least::<T>(items, (n - 1) as nat);
        T::size_is_least(items[n - 1]);
        assert(n * T::min_size() == (n - 1) * T::min_size() + T::min_size()) by (nonlinear_arith)
            requires
                n > 0,
        ;
    } else {
        assert(0 * T::min_size() == 0);
    }
}

pub proof fn items_stay_wrong<T: Codec>(s: Input, n: nat, m: nat)
    requires
        n <= m,
        decoded_items::<T>(s, n).0 is Err,
    ensures
        decoded_items::<T>(s, m) == decoded_items::<T>(s, n),
    decreases m,
{
    if n < m {
        items_stay_wrong::<T>(s, n, (m - 1) as nat);
    }
}

/// Items that take at least a size fit wherever their bytes do.
proof fn items_fit(n: nat, size: nat, len: nat, s: Input)
    requires
        n * size <= len,
        len <= s.budget,
        n <= usize::MAX,
    ensures
        n <= room_for(s, size),
{
    if size > 0 {
        assert(n <= s.budget / size) by (nonlinear_arith)
            requires
                n * size <= s.budget,
                size > 0,
        ;
    }
}

/// The items of a vector as an array.
///
/// This is `<[T; N]>::try_from` on a vector, of which it is claimed that it succeeds exactly where
/// the vector has as many items as the array, which then holds them in the same order.
#[verifier::external_body]
fn into_array<T, const N: usize>(items: Vec<T>) -> (array: Option<[T; N]>)
    ensures
        match array {
            Some(array) => array@ == items@,
            None => items@.len() != N,
        },
{
    <[T; N]>::try_from(items).ok()
}

impl<T: Item, const N: usize> Codec for [T; N] {
    type V = Seq<T::V>;

    open spec fn val(&self) -> Seq<T::V> {
        vals(self@)
    }

    open spec fn valid(v: Seq<T::V>) -> bool {
        v.len() == N && all_valid::<T>(v)
    }

    open spec fn encoded(v: Seq<T::V>) -> Seq<u8> {
        encoded_items::<T>(v, v.len())
    }

    open spec fn decoded(s: Input) -> (Result<Seq<T::V>, Fault>, Input) {
        if N > room_for(s, T::min_size()) {
            (Err(too_many(N as nat, room_for(s, T::min_size()))), s)
        } else {
            decoded_items::<T>(s, N as nat)
        }
    }

    open spec fn min_size() -> nat {
        if N * T::min_size() > usize::MAX {
            usize::MAX as nat
        } else {
            N as nat * T::min_size()
        }
    }

    fn write_into(&self, target: &mut Vec<u8>) {
        let ghost before = target@;
        let ghost all = self.val();
        let mut i: usize = 0;
        assert(before + Seq::<u8>::empty() =~= before);
        while i < N
            invariant
                i <= N,
                all == self.val(),
                target@ == before + encoded_items::<T>(all, i as nat),
            decreases N - i,
        {
            self[i].write_into(target);
            assert(all[i as int] == self@[i as int].val());
            assert(target@ =~= before + encoded_items::<T>(all, (i + 1) as nat));
            i += 1;
        }
    }

    fn read_from(source: &mut BudgetedReader<SliceReader<'_>>) -> (result: Result<[T; N], DeserializationError>) {
        let ghost start = input(*source);
        let max: usize = max_alloc(source, T::min_serialized_size());
        if N > max {
            return Err(
                DeserializationError::InvalidValue(
                    phrase("requested ", N, " elements but reader can provide at most ", max),
                ),
            );
        }
        let mut items: Vec<T> = Vec::new();
        let mut i: usize = 0;
        assert(vals(items@) =~= Seq::<T::V>::empty());
        while i < N
            invariant
                i <= N,
                items@.len() == i,
                N <= room_for(start, T::min_size()),
                start == input(*old(source)),
                decoded_items::<T>(start, i as nat) == (Ok::<Seq<T::V>, Fault>(vals(items@)), input(*source)),
            decreases N - i,
        {
            let ghost before = items@;
            match T::read_from(source) {
                Err(error) => {
                    proof {
                        items_stay_wrong::<T>(start, (i + 1) as nat, N as nat);
                    }
                    return Err(error);
                },
                Ok(item) => {
                    items.push(item);
                    assert(vals(items@) =~= vals(before).push(item.val()));
                },
            }
            i += 1;
        }
        match into_array(items) {
            Some(array) => Ok(array),
            None => Err(DeserializationError::UnexpectedEOF),
        }
    }

    fn min_serialized_size() -> (size: usize) {
        match N.checked_mul(T::min_serialized_size()) {
            Some(size) => size,
            None => usize::MAX,
        }
    }

    proof fn round_trip(v: Seq<T::V>, rest: Seq<u8>, budget: nat) {
        items_size_is_least::<T>(v, v.len());
        let s = Input { bytes: Self::encoded(v) + rest, budget };
        items_fit(N as nat, T::min_size(), Self::encoded(v).len(), s);
        items_round_trip::<T>(v, v.len(), rest, budget);
        assert(v.take(v.len() as int) =~= v);
    }

    proof fn bytes_are_charged(s: Input) {
        items_are_charged::<T>(s, N as nat);
    }
}

impl<T: Item, const N: usize> Item for [T; N] {
    proof fn size_is_least(v: Seq<T::V>) {
        items_size_is_least::<T>(v, v.len());
    }
}

/// The fault of more items than the budget allows.
pub open spec fn too_many(count: nat, max: nat) -> Fault {
    Fault::Invalid(sentence("requested "@, count, " elements but reader can provide at most "@, max))
}

/// A sentence with two numbers.
pub(crate) fn phrase(before: &str, n: usize, between: &str, m: usize) -> (message: String)
    ensures
        message@ == sentence(before@, n as nat, between@, m as nat),
{
    let mut message = String::from_str(before);
    message.append(decimal(n as u128).as_str());
    message.append(between);
    message.append(decimal(m as u128).as_str());
    message
}

// QUEUES
// ================================================================================================

/// Reads a number of items of at least `size` bytes each. It is rejected where the budget does not
/// allow that many, with a sentence of `what` was read and `bound` to be exceeded.
pub open spec fn decoded_count(s: Input, what: Seq<char>, bound: Seq<char>, size: nat) -> (Result<nat, Fault>, Input) {
    match take_usize(s) {
        (Err(fault), rest) => (Err(fault), rest),
        (Ok(n), rest) => if n > room_for(rest, size) {
            (Err(Fault::Invalid(sentence(what, n, bound, room_for(rest, size)))), rest)
        } else {
            (Ok(n), rest)
        },
    }
}

/// Reads a number of items of at least `size` bytes each. It is rejected where the budget or the
/// input does not allow that many.
pub open spec fn decoded_bounded_count(s: Input, size: nat) -> (Result<nat, Fault>, Input) {
    match decoded_count(s, "VecDeque count "@, " exceeds budget "@, size) {
        (Err(fault), rest) => (Err(fault), rest),
        (Ok(n), rest) => if n * size > rest.bytes.len() || n * size > usize::MAX {
            (Err(Fault::Invalid("VecDeque count "@ + numeral(n) + " exceeds remaining input"@)), rest)
        } else {
            (Ok(n), rest)
        },
    }
}

/// Reads as many items as a count says.
pub open spec fn decoded_counted<T: Codec>(count: (Result<nat, Fault>, Input)) -> (Result<Seq<T::V>, Fault>, Input) {
    match count {
        (Err(fault), rest) => (Err(fault), rest),
        (Ok(n), rest) => decoded_items::<T>(rest, n),
    }
}

/// The bytes of a queue: the number of items, and the items.
pub open spec fn encoded_queue<T: Codec>(items: Seq<T::V>) -> Seq<u8> {
    vint_bytes(items.len()) + encoded_items::<T>(items, items.len())
}

/// Reads the number of items of a queue.
pub(crate) fn read_count(
    source: &mut BudgetedReader<SliceReader<'_>>,
    what: &str,
    bound: &str,
    size: usize,
) -> (result: Result<usize, DeserializationError>)
    ensures
        input(*final(source)) == decoded_count(input(*old(source)), what@, bound@, size as nat).1,
        match (result, decoded_count(input(*old(source)), what@, bound@, size as nat).0) {
            (Ok(count), Ok(expected)) => count == expected,
            (Err(error), Err(fault)) => error.fault() == fault,
            _ => false,
        },
{
    let count: usize = match read_usize(source) {
        Err(error) => {
            return Err(error);
        },
        Ok(count) => count,
    };
    let max: usize = max_alloc(source, size);
    if count > max {
        return Err(DeserializationError::InvalidValue(phrase(what, count, bound, max)));
    }
    Ok(count)
}

/// Reads the number of items of a queue, of which there is enough input.
pub(crate) fn read_bounded_count(source: &mut BudgetedReader<SliceReader<'_>>, size: usize) -> (result: Result<usize, DeserializationError>)
    ensures
        input(*final(source)) == decoded_bounded_count(input(*old(source)), size as nat).1,
        match (result, decoded_bounded_count(input(*old(source)), size as nat).0) {
            (Ok(count), Ok(expected)) => count == expected,
            (Err(error), Err(fault)) => error.fault() == fault,
            _ => false,
        },
{
    let count: usize = match read_count(source, "VecDeque count ", " exceeds budget ", size) {
        Err(error) => {
            return Err(error);
        },
        Ok(count) => count,
    };
    proof {
        if size > 0 {
            let budget = input(*source).budget;
            assert(count * size <= budget) by (nonlinear_arith)
                requires
                    count <= budget / (size as nat),
                    size > 0,
            ;
        } else {
            assert(count * size == 0);
        }
    }
    match count.checked_mul(size) {
        Some(bytes) if can_read(source, bytes) => Ok(count),
        _ => {
            let mut message = String::from_str("VecDeque count ");
            message.append(decimal(count as u128).as_str());
            message.append(" exceeds remaining input");
            Err(DeserializationError::InvalidValue(message))
        },
    }
}

/// Reads `count` items.
pub(crate) fn read_items<T: Codec>(source: &mut BudgetedReader<SliceReader<'_>>, count: usize) -> (result: Result<
    VecDeque<T>,
    DeserializationError,
>)
    ensures
        input(*final(source)) == decoded_items::<T>(input(*old(source)), count as nat).1,
        match (result, decoded_items::<T>(input(*old(source)), count as nat).0) {
            (Ok(items), Ok(expected)) => vals(items@) == expected,
            (Err(error), Err(fault)) => error.fault() == fault,
            _ => false,
        },
{
    let ghost start = input(*source);
    let mut items: VecDeque<T> = VecDeque::new();
    let mut i: usize = 0;
    assert(vals(items@) =~= Seq::<T::V>::empty());
    while i < count
        invariant
            i <= count,
            start == input(*old(source)),
            decoded_items::<T>(start, i as nat) == (Ok::<Seq<T::V>, Fault>(vals(items@)), input(*source)),
        decreases count - i,
    {
        let ghost before = items@;
        match T::read_from(source) {
            Err(error) => {
                proof {
                    items_stay_wrong::<T>(start, (i + 1) as nat, count as nat);
                }
                return Err(error);
            },
            Ok(item) => {
                items.push_back(item);
                assert(vals(items@) =~= vals(before).push(item.val()));
            },
        }
        i += 1;
    }
    Ok(items)
}

/// Writes a queue: the number of items, and the items.
pub(crate) fn write_queue<T: Codec>(items: &VecDeque<T>, target: &mut Vec<u8>)
    ensures
        final(target)@ == old(target)@ + encoded_queue::<T>(vals(items@)),
{
    let ghost before = target@;
    let ghost all = vals(items@);
    write_usize(target, items.len());
    let ghost head = before + vint_bytes(all.len());
    let mut i: usize = 0;
    assert(head + Seq::<u8>::empty() =~= head);
    while i < items.len()
        invariant
            i <= items@.len(),
            all == vals(items@),
            target@ == head + encoded_items::<T>(all, i as nat),
        decreases items@.len() - i,
    {
        items[i].write_into(target);
        assert(all[i as int] == items@[i as int].val());
        assert(target@ =~= head + encoded_items::<T>(all, (i + 1) as nat));
        i += 1;
    }
    assert(target@ =~= before + encoded_queue::<T>(all));
}

/// The number of items of a queue is read back, and there is enough input for them.
pub proof fn count_round_trip<T: Item>(items: Seq<T::V>, rest: Seq<u8>, budget: nat)
    requires
        items.len() <= usize::MAX,
        all_valid::<T>(items),
        encoded_queue::<T>(items).len() <= budget,
        encoded_items::<T>(items, items.len()).len() <= usize::MAX,
    ensures
        ({
            let s = Input { bytes: encoded_queue::<T>(items) + rest, budget };
            let tail = Input {
                bytes: encoded_items::<T>(items, items.len()) + rest,
                budget: (budget - vint_bytes(items.len()).len()) as nat,
            };
            &&& forall|what: Seq<char>, bound: Seq<char>| #[trigger]
                decoded_count(s, what, bound, T::min_size()) == (Ok::<nat, Fault>(items.len()), tail)
            &&& decoded_bounded_count(s, T::min_size()) == (Ok::<nat, Fault>(items.len()), tail)
        }),
{
    let n = items.len();
    let body = encoded_items::<T>(items, n);
    vint_first_byte(n);
    assert(encoded_queue::<T>(items) + rest =~= vint_bytes(n) + (body + rest));
    vint_taken_back(n, body + rest, budget);
    items_size_is_least::<T>(items, n);
    let tail = Input { bytes: body + rest, budget: (budget - vint_bytes(n).len()) as nat };
    items_fit(n, T::min_size(), body.len(), tail);
}

/// The bytes of a queue are charged.
pub proof fn count_is_charged<T: Codec>(s: Input, what: Seq<char>, bound: Seq<char>)
    ensures
        ({
            let read = decoded_counted::<T>(decoded_count(s, what, bound, T::min_size()));
            read.0 is Ok ==> charged(s, read.1)
        }),
{
    vint_is_charged(s);
    if let (Ok(n), rest) = take_usize(s) {
        items_are_charged::<T>(rest, n);
        if decoded_items::<T>(rest, n).0 is Ok {
            charged_twice(s, rest, decoded_items::<T>(rest, n).1);
        }
    }
}

/// The bytes of a queue of which there is enough input are charged.
proof fn bounded_count_is_charged<T: Codec>(s: Input)
    ensures
        ({
            let read = decoded_counted::<T>(decoded_bounded_count(s, T::min_size()));
            read.0 is Ok ==> charged(s, read.1)
        }),
{
    count_is_charged::<T>(s, "VecDeque count "@, " exceeds budget "@);
}

/// A queue that was written is read back.
pub proof fn queue_round_trip<T: Item>(items: Seq<T::V>, rest: Seq<u8>, budget: nat)
    requires
        items.len() <= usize::MAX,
        all_valid::<T>(items),
        encoded_queue::<T>(items).len() <= budget,
        encoded_items::<T>(items, items.len()).len() <= usize::MAX,
    ensures
        ({
            let s = Input { bytes: encoded_queue::<T>(items) + rest, budget };
            let done = (
                Ok::<Seq<T::V>, Fault>(items),
                Input { bytes: rest, budget: (budget - encoded_queue::<T>(items).len()) as nat },
            );
            &&& forall|what: Seq<char>, bound: Seq<char>|
                decoded_counted::<T>(#[trigger] decoded_count(s, what, bound, T::min_size())) == done
            &&& decoded_counted::<T>(decoded_bounded_count(s, T::min_size())) == done
        }),
{
    count_round_trip::<T>(items, rest, budget);
    items_round_trip::<T>(items, items.len(), rest, (budget - vint_bytes(items.len()).len()) as nat);
    assert(items.take(items.len() as int) =~= items);
}

impl<T: Item> Codec for VecDeque<T> {
    type V = Seq<T::V>;

    open spec fn val(&self) -> Seq<T::V> {
        vals(self@)
    }

    open spec fn valid(v: Seq<T::V>) -> bool {
        &&& v.len() <= usize::MAX
        &&& all_valid::<T>(v)
        &&& encoded_items::<T>(v, v.len()).len() <= usize::MAX
    }

    open spec fn encoded(v: Seq<T::V>) -> Seq<u8> {
        encoded_queue::<T>(v)
    }

    open spec fn decoded(s: Input) -> (Result<Seq<T::V>, Fault>, Input) {
        decoded_counted::<T>(decoded_bounded_count(s, T::min_size()))
    }

    open spec fn min_size() -> nat {
        1
    }

    fn write_into(&self, target: &mut Vec<u8>) {
        write_queue(self, target)
    }

    fn read_from(source: &mut BudgetedReader<SliceReader<'_>>) -> (result: Result<VecDeque<T>, DeserializationError>) {
        match read_bounded_count(source, T::min_serialized_size()) {
            Err(error) => Err(error),
            Ok(count) => read_items(source, count),
        }
    }

    fn min_serialized_size() -> (size: usize) {
        1
    }

    proof fn round_trip(v: Seq<T::V>, rest: Seq<u8>, budget: nat) {
        queue_round_trip::<T>(v, rest, budget);
    }

    proof fn bytes_are_charged(s: Input) {
        bounded_count_is_charged::<T>(s);
    }
}

impl<T: Item> Item for VecDeque<T> {
    proof fn size_is_least(v: Seq<T::V>) {
        vint_first_byte(v.len());
    }
}

} // verus!

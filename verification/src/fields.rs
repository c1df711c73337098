//! Field elements, words and identifiers.
use miden_crypto::utils::{BudgetedReader, SliceReader};

use vstd::layout::size_of;
use vstd::prelude::*;
use vstd::string::StringExecFns;

use crate::bytes::{le_bytes, le_bytes_len, span};
use crate::numerals::{decimal, numeral};
use crate::reader::{
    charged, input, max_alloc, read_u64, read_u8, room_for, take_number, write_u64, write_u8, DeserializationError,
    Fault, Input,
};
use crate::wire::{
    charged_twice, items_are_charged, number_is_charged, too_many, all_valid, decoded_items, encoded_items,
    items_round_trip, items_size_is_least, items_stay_wrong, number_taken_back, phrase, vals, Codec, Item,
};

verus! {

// FIELD ELEMENTS
// ================================================================================================

/// The order of the field: 2^64 - 2^32 + 1.
pub const ORDER: u64 = 0xffff_ffff_0000_0001;

/// An element of the field, by its canonical representative.
#[derive(Debug, Clone, Copy, PartialEq, Eq, Hash, Structural)]
pub struct Felt {
    value: u64,
}

impl View for Felt {
    type V = u64;

    closed spec fn view(&self) -> u64 {
        self.value
    }
}

/// The canonical representative of the field element that `value` stands for.
///
/// This is `Felt::new_unchecked` and `Felt::as_canonical_u64` of `miden_crypto`, of which it is
/// claimed that they reduce the value modulo the order of the field.
#[verifier::external_body]
fn canonical(value: u64) -> (representative: u64)
    ensures
        representative == value % ORDER,
{
    miden_crypto::Felt::new_unchecked(value).as_canonical_u64()
}

impl Felt {
    #[verifier::type_invariant]
    spec fn reduced(self) -> bool {
        self.value < ORDER
    }

    /// Zero.
    pub fn zero() -> (felt: Felt)
        ensures
            felt@ == 0,
    {
        Felt { value: 0 }
    }

    /// One.
    pub fn one() -> (felt: Felt)
        ensures
            felt@ == 1,
    {
        Felt { value: 1 }
    }

    /// The field element that `value` stands for, whether or not it is reduced.
    pub fn new_unchecked(value: u64) -> (felt: Felt)
        ensures
            felt@ == value % ORDER,
    {
        Felt { value: canonical(value) }
    }

    /// The canonical representative.
    pub fn as_canonical_u64(&self) -> (value: u64)
        ensures
            value == self@,
            value < ORDER,
    {
        proof {
            use_type_invariant(self);
        }
        self.value
    }

    /// Elements are equal when their canonical representatives are.
    pub proof fn equal_by_value(a: Felt, b: Felt)
        ensures
            (a == b) == (a@ == b@),
    {
    }
}

impl Codec for Felt {
    type V = u64;

    open spec fn val(&self) -> u64 {
        self@
    }

    open spec fn valid(v: u64) -> bool {
        v < ORDER
    }

    open spec fn encoded(v: u64) -> Seq<u8> {
        le_bytes(v as nat, 8)
    }

    open spec fn decoded(s: Input) -> (Result<u64, Fault>, Input) {
        match take_number(s, 8) {
            (Err(fault), rest) => (Err(fault), rest),
            (Ok(n), rest) => if n >= ORDER {
                (Err(Fault::Invalid("value "@ + numeral(n) + " is not a valid felt"@)), rest)
            } else {
                (Ok(n as u64), rest)
            },
        }
    }

    open spec fn min_size() -> nat {
        8
    }

    fn write_into(&self, target: &mut Vec<u8>) {
        write_u64(target, self.value)
    }

    fn read_from(source: &mut BudgetedReader<SliceReader<'_>>) -> (result: Result<Felt, DeserializationError>) {
        match read_u64(source) {
            Err(error) => Err(error),
            Ok(value) => if value >= ORDER {
                let mut message = String::from_str("value ");
                message.append(decimal(value as u128).as_str());
                message.append(" is not a valid felt");
                Err(DeserializationError::InvalidValue(message))
            } else {
                Ok(Felt { value })
            },
        }
    }

    fn min_serialized_size() -> (size: usize) {
        8
    }

    proof fn round_trip(v: u64, rest: Seq<u8>, budget: nat) {
        reveal_with_fuel(span, 9);
        le_bytes_len(v as nat, 8);
        number_taken_back(v as nat, 8, rest, budget);
    }

    proof fn bytes_are_charged(s: Input) {
        number_is_charged(s, 8);
    }
}

impl Item for Felt {
    proof fn size_is_least(v: u64) {
        le_bytes_len(v as nat, 8);
    }
}

// WORDS
// ================================================================================================

/// Four field elements.
#[derive(Debug, Clone, Copy, PartialEq, Eq, Hash, Structural)]
pub struct Word {
    pub a: Felt,
    pub b: Felt,
    pub c: Felt,
    pub d: Felt,
}

impl Word {
    /// The word of four elements.
    pub fn new(a: Felt, b: Felt, c: Felt, d: Felt) -> (word: Word)
        ensures
            word == (Word { a, b, c, d }),
    {
        Word { a, b, c, d }
    }

    /// The word of four zeros.
    pub fn zero() -> (word: Word)
        ensures
            word.val() == (0u64, (0u64, (0u64, 0u64))),
    {
        Word { a: Felt::zero(), b: Felt::zero(), c: Felt::zero(), d: Felt::zero() }
    }
}

/// Reads an element of a word.
pub open spec fn decoded_element(s: Input) -> (Result<u64, Fault>, Input) {
    match take_number(s, 8) {
        (Err(fault), rest) => (Err(fault), rest),
        (Ok(n), rest) => if n >= ORDER {
            (Err(Fault::Invalid("value not in the appropriate range"@)), rest)
        } else {
            (Ok(n as u64), rest)
        },
    }
}

/// Reads the four elements of a word.
pub open spec fn decoded_word(s: Input) -> (Result<(u64, (u64, (u64, u64))), Fault>, Input) {
    match decoded_element(s) {
        (Err(fault), rest) => (Err(fault), rest),
        (Ok(a), rest) => match decoded_element(rest) {
            (Err(fault), rest) => (Err(fault), rest),
            (Ok(b), rest) => match decoded_element(rest) {
                (Err(fault), rest) => (Err(fault), rest),
                (Ok(c), rest) => match decoded_element(rest) {
                    (Err(fault), rest) => (Err(fault), rest),
                    (Ok(d), rest) => (Ok((a, (b, (c, d)))), rest),
                },
            },
        },
    }
}

/// Reads an element of a word.
fn read_element(source: &mut BudgetedReader<SliceReader<'_>>) -> (result: Result<Felt, DeserializationError>)
    ensures
        input(*final(source)) == decoded_element(input(*old(source))).1,
        match (result, decoded_element(input(*old(source))).0) {
            (Ok(value), Ok(expected)) => value@ == expected,
            (Err(error), Err(fault)) => error.fault() == fault,
            _ => false,
        },
{
    match read_u64(source) {
        Err(error) => Err(error),
        Ok(value) => if value >= ORDER {
            Err(DeserializationError::InvalidValue(String::from_str("value not in the appropriate range")))
        } else {
            Ok(Felt { value })
        },
    }
}

/// The bytes of a word are charged.
proof fn word_is_charged(s: Input)
    ensures
        decoded_word(s).0 is Ok ==> charged(s, decoded_word(s).1),
{
    let s1 = decoded_element(s).1;
    let s2 = decoded_element(s1).1;
    let s3 = decoded_element(s2).1;
    number_is_charged(s, 8);
    number_is_charged(s1, 8);
    number_is_charged(s2, 8);
    number_is_charged(s3, 8);
    if decoded_word(s).0 is Ok {
        charged_twice(s, s1, s2);
        charged_twice(s, s2, s3);
        charged_twice(s, s3, decoded_word(s).1);
    }
}

impl Codec for Word {
    type V = <(Felt, (Felt, (Felt, Felt))) as Codec>::V;

    open spec fn val(&self) -> <(Felt, (Felt, (Felt, Felt))) as Codec>::V {
        (self.a.val(), (self.b.val(), (self.c.val(), self.d.val())))
    }

    open spec fn valid(v: <(Felt, (Felt, (Felt, Felt))) as Codec>::V) -> bool {
        <(Felt, (Felt, (Felt, Felt))) as Codec>::valid(v)
    }

    open spec fn encoded(v: <(Felt, (Felt, (Felt, Felt))) as Codec>::V) -> Seq<u8> {
        <(Felt, (Felt, (Felt, Felt))) as Codec>::encoded(v)
    }

    open spec fn decoded(s: Input) -> (Result<<(Felt, (Felt, (Felt, Felt))) as Codec>::V, Fault>, Input) {
        decoded_word(s)
    }

    open spec fn min_size() -> nat {
        <(Felt, (Felt, (Felt, Felt))) as Codec>::min_size()
    }

    fn write_into(&self, target: &mut Vec<u8>) {
        let ghost before = target@;
        self.a.write_into(target);
        self.b.write_into(target);
        self.c.write_into(target);
        self.d.write_into(target);
        assert(target@ =~= before + Self::encoded(self.val()));
    }

    fn read_from(source: &mut BudgetedReader<SliceReader<'_>>) -> (result: Result<Word, DeserializationError>) {
        let a = match read_element(source) {
            Err(error) => {
                return Err(error);
            },
            Ok(a) => a,
        };
        let b = match read_element(source) {
            Err(error) => {
                return Err(error);
            },
            Ok(b) => b,
        };
        let c = match read_element(source) {
            Err(error) => {
                return Err(error);
            },
            Ok(c) => c,
        };
        match read_element(source) {
            Err(error) => Err(error),
            Ok(d) => Ok(Word { a, b, c, d }),
        }
    }

    fn min_serialized_size() -> (size: usize) {
        <(Felt, (Felt, (Felt, Felt))) as Codec>::min_serialized_size()
    }

    proof fn round_trip(v: <(Felt, (Felt, (Felt, Felt))) as Codec>::V, rest: Seq<u8>, budget: nat) {
        <(Felt, (Felt, (Felt, Felt))) as Codec>::round_trip(v, rest, budget);
    }

    proof fn bytes_are_charged(s: Input) {
        word_is_charged(s);
    }
}

impl Item for Word {
    proof fn size_is_least(v: <(Felt, (Felt, (Felt, Felt))) as Codec>::V) {
        <(Felt, (Felt, (Felt, Felt))) as Item>::size_is_least(v);
    }
}

// PATHS
// ================================================================================================

/// The nodes of a Merkle path, from a leaf up. There are at most 255.
#[derive(Debug, PartialEq, Eq)]
pub struct MerklePath {
    nodes: Vec<Word>,
}

impl MerklePath {
    #[verifier::type_invariant]
    spec fn short(self) -> bool {
        self.nodes@.len() <= 255
    }

    /// The nodes.
    pub closed spec fn words(&self) -> Seq<Word> {
        self.nodes@
    }

    /// The path with the given nodes.
    pub fn new(nodes: Vec<Word>) -> (path: MerklePath)
        requires
            nodes@.len() <= 255,
        ensures
            path.words() == nodes@,
    {
        MerklePath { nodes }
    }

    /// The nodes.
    pub fn nodes(&self) -> (nodes: &Vec<Word>)
        ensures
            nodes@ == self.words(),
            nodes@.len() <= 255,
    {
        proof {
            use_type_invariant(self);
        }
        &self.nodes
    }
}

impl Codec for MerklePath {
    type V = Seq<(u64, (u64, (u64, u64)))>;

    open spec fn val(&self) -> Seq<(u64, (u64, (u64, u64)))> {
        vals(self.words())
    }

    open spec fn valid(v: Seq<(u64, (u64, (u64, u64)))>) -> bool {
        v.len() <= 255 && all_valid::<Word>(v)
    }

    open spec fn encoded(v: Seq<(u64, (u64, (u64, u64)))>) -> Seq<u8> {
        le_bytes(v.len(), 1) + encoded_items::<Word>(v, v.len())
    }

    open spec fn decoded(s: Input) -> (Result<Seq<(u64, (u64, (u64, u64)))>, Fault>, Input) {
        match take_number(s, 1) {
            (Err(fault), rest) => (Err(fault), rest),
            (Ok(n), rest) => if n > room_for(rest, Word::min_size()) {
                (Err(too_many(n, room_for(rest, Word::min_size()))), rest)
            } else {
                decoded_items::<Word>(rest, n)
            },
        }
    }

    open spec fn min_size() -> nat {
        size_of::<Self>()
    }

    fn write_into(&self, target: &mut Vec<u8>) {
        let ghost before = target@;
        let ghost all = self.val();
        let nodes = self.nodes();
        write_u8(target, nodes.len() as u8);
        let ghost head = before + le_bytes(all.len(), 1);
        let mut i: usize = 0;
        assert(head + Seq::<u8>::empty() =~= head);
        while i < nodes.len()
            invariant
                i <= nodes@.len(),
                all == vals(nodes@),
                target@ == head + encoded_items::<Word>(all, i as nat),
            decreases nodes@.len() - i,
        {
            nodes[i].write_into(target);
            assert(all[i as int] == nodes@[i as int].val());
            assert(target@ =~= head + encoded_items::<Word>(all, (i + 1) as nat));
            i += 1;
        }
        assert(target@ =~= before + Self::encoded(all));
    }

    fn read_from(source: &mut BudgetedReader<SliceReader<'_>>) -> (result: Result<MerklePath, DeserializationError>) {
        let count: u8 = match read_u8(source) {
            Err(error) => {
                return Err(error);
            },
            Ok(count) => count,
        };
        let ghost start = input(*source);
        let max: usize = max_alloc(source, Word::min_serialized_size());
        if count as usize > max {
            return Err(
                DeserializationError::InvalidValue(
                    phrase("requested ", count as usize, " elements but reader can provide at most ", max),
                ),
            );
        }
        let mut nodes: Vec<Word> = Vec::new();
        let mut i: u8 = 0;
        assert(vals(nodes@) =~= Seq::<(u64, (u64, (u64, u64)))>::empty());
        while i < count
            invariant
                i <= count,
                nodes@.len() == i,
                take_number(input(*old(source)), 1) == (Ok::<nat, Fault>(count as nat), start),
                count <= room_for(start, Word::min_size()),
                decoded_items::<Word>(start, i as nat) == (
                    Ok::<Seq<(u64, (u64, (u64, u64)))>, Fault>(vals(nodes@)),
                    input(*source),
                ),
            decreases count - i,
        {
            let ghost before = nodes@;
            match Word::read_from(source) {
                Err(error) => {
                    proof {
                        items_stay_wrong::<Word>(start, (i + 1) as nat, count as nat);
                    }
                    return Err(error);
                },
                Ok(node) => {
                    nodes.push(node);
                    assert(vals(nodes@) =~= vals(before).push(node.val()));
                },
            }
            i += 1;
        }
        Ok(MerklePath { nodes })
    }

    fn min_serialized_size() -> (size: usize) {
        core::mem::size_of::<Self>()
    }

    proof fn round_trip(v: Seq<(u64, (u64, (u64, u64)))>, rest: Seq<u8>, budget: nat) {
        let body = encoded_items::<Word>(v, v.len());
        reveal_with_fuel(span, 2);
        le_bytes_len(v.len(), 1);
        assert(le_bytes(v.len(), 1) + body + rest =~= le_bytes(v.len(), 1) + (body + rest));
        number_taken_back(v.len(), 1, body + rest, budget);
        items_size_is_least::<Word>(v, v.len());
        assert(v.len() <= (budget - 1) as nat / 32) by (nonlinear_arith)
            requires
                v.len() * 32 <= budget - 1,
        ;
        items_round_trip::<Word>(v, v.len(), rest, (budget - 1) as nat);
        assert(v.take(v.len() as int) =~= v);
    }

    proof fn bytes_are_charged(s: Input) {
        number_is_charged(s, 1);
        if let (Ok(n), rest) = take_number(s, 1) {
            items_are_charged::<Word>(rest, n);
            if Self::decoded(s).0 is Ok {
                charged_twice(s, rest, decoded_items::<Word>(rest, n).1);
            }
        }
    }
}

// IDENTIFIERS
// ================================================================================================

/// A row of the trace: a clock cycle.
#[derive(Debug, Clone, Copy, PartialEq, Eq, PartialOrd, Ord, Hash, Structural)]
pub struct RowIndex(pub u32);

impl Codec for RowIndex {
    type V = u32;

    open spec fn val(&self) -> u32 {
        self.0
    }

    open spec fn valid(v: u32) -> bool {
        true
    }

    open spec fn encoded(v: u32) -> Seq<u8> {
        u32::encoded(v)
    }

    open spec fn decoded(s: Input) -> (Result<u32, Fault>, Input) {
        u32::decoded(s)
    }

    open spec fn min_size() -> nat {
        4
    }

    fn write_into(&self, target: &mut Vec<u8>) {
        self.0.write_into(target)
    }

    fn read_from(source: &mut BudgetedReader<SliceReader<'_>>) -> (result: Result<RowIndex, DeserializationError>) {
        match u32::read_from(source) {
            Err(error) => Err(error),
            Ok(value) => Ok(RowIndex(value)),
        }
    }

    fn min_serialized_size() -> (size: usize) {
        4
    }

    proof fn round_trip(v: u32, rest: Seq<u8>, budget: nat) {
        u32::round_trip(v, rest, budget);
    }

    proof fn bytes_are_charged(s: Input) {
        u32::bytes_are_charged(s);
    }
}

impl Item for RowIndex {
    proof fn size_is_least(v: u32) {
        u32::size_is_least(v);
    }
}

/// An execution context. The root context is zero.
#[derive(Debug, Clone, Copy, PartialEq, Eq, PartialOrd, Ord, Hash, Structural)]
pub struct ContextId(pub u32);

impl Codec for ContextId {
    type V = u32;

    open spec fn val(&self) -> u32 {
        self.0
    }

    open spec fn valid(v: u32) -> bool {
        true
    }

    open spec fn encoded(v: u32) -> Seq<u8> {
        u32::encoded(v)
    }

    open spec fn decoded(s: Input) -> (Result<u32, Fault>, Input) {
        u32::decoded(s)
    }

    open spec fn min_size() -> nat {
        4
    }

    fn write_into(&self, target: &mut Vec<u8>) {
        self.0.write_into(target)
    }

    fn read_from(source: &mut BudgetedReader<SliceReader<'_>>) -> (result: Result<ContextId, DeserializationError>) {
        match u32::read_from(source) {
            Err(error) => Err(error),
            Ok(value) => Ok(ContextId(value)),
        }
    }

    fn min_serialized_size() -> (size: usize) {
        4
    }

    proof fn round_trip(v: u32, rest: Seq<u8>, budget: nat) {
        u32::round_trip(v, rest, budget);
    }

    proof fn bytes_are_charged(s: Input) {
        u32::bytes_are_charged(s);
    }
}

impl Item for ContextId {
    proof fn size_is_least(v: u32) {
        u32::size_is_least(v);
    }
}

/// A node of a MAST forest.
#[derive(Debug, Clone, Copy, PartialEq, Eq, PartialOrd, Ord, Hash, Structural)]
pub struct MastNodeId(pub u32);

impl Codec for MastNodeId {
    type V = u32;

    open spec fn val(&self) -> u32 {
        self.0
    }

    open spec fn valid(v: u32) -> bool {
        true
    }

    open spec fn encoded(v: u32) -> Seq<u8> {
        u32::encoded(v)
    }

    open spec fn decoded(s: Input) -> (Result<u32, Fault>, Input) {
        u32::decoded(s)
    }

    open spec fn min_size() -> nat {
        4
    }

    fn write_into(&self, target: &mut Vec<u8>) {
        self.0.write_into(target)
    }

    fn read_from(source: &mut BudgetedReader<SliceReader<'_>>) -> (result: Result<MastNodeId, DeserializationError>) {
        match u32::read_from(source) {
            Err(error) => Err(error),
            Ok(value) => Ok(MastNodeId(value)),
        }
    }

    fn min_serialized_size() -> (size: usize) {
        4
    }

    proof fn round_trip(v: u32, rest: Seq<u8>, budget: nat) {
        u32::round_trip(v, rest, budget);
    }

    proof fn bytes_are_charged(s: Input) {
        u32::bytes_are_charged(s);
    }
}

impl Item for MastNodeId {
    proof fn size_is_least(v: u32) {
        u32::size_is_least(v);
    }
}

/// A MAST forest of a store of forests.
#[derive(Debug, Clone, Copy, PartialEq, Eq, PartialOrd, Ord, Hash, Structural)]
pub struct MastForestId(pub u32);

impl Codec for MastForestId {
    type V = u32;

    open spec fn val(&self) -> u32 {
        self.0
    }

    open spec fn valid(v: u32) -> bool {
        true
    }

    open spec fn encoded(v: u32) -> Seq<u8> {
        u32::encoded(v)
    }

    open spec fn decoded(s: Input) -> (Result<u32, Fault>, Input) {
        u32::decoded(s)
    }

    open spec fn min_size() -> nat {
        4
    }

    fn write_into(&self, target: &mut Vec<u8>) {
        self.0.write_into(target)
    }

    fn read_from(source: &mut BudgetedReader<SliceReader<'_>>) -> (result: Result<MastForestId, DeserializationError>) {
        match u32::read_from(source) {
            Err(error) => Err(error),
            Ok(value) => Ok(MastForestId(value)),
        }
    }

    fn min_serialized_size() -> (size: usize) {
        4
    }

    proof fn round_trip(v: u32, rest: Seq<u8>, budget: nat) {
        u32::round_trip(v, rest, budget);
    }

    proof fn bytes_are_charged(s: Input) {
        u32::bytes_are_charged(s);
    }
}

impl Item for MastForestId {
    proof fn size_is_least(v: u32) {
        u32::size_is_least(v);
    }
}

impl RowIndex {
    /// The field element of the number of this row.
    pub fn to_felt(&self) -> (felt: Felt)
        ensures
            felt@ == self.0,
    {
        Felt { value: self.0 as u64 }
    }
}

} // verus!

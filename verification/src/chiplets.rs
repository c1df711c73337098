//! Replay data of the range checker and of the evaluation of arithmetic circuits.
use std::collections::VecDeque;

use miden_crypto::utils::{BudgetedReader, SliceReader};

use vstd::layout::size_of;
use vstd::prelude::*;

use crate::fields::{Felt, RowIndex};
use crate::numerals::numeral;
use crate::reader::{DeserializationError, Fault, Input};
use crate::replay::invalid_tag;
use crate::wire::{
    charged_twice, count_is_charged, decoded_count, decoded_counted, encoded_items, encoded_queue, queue_round_trip,
    read_count, read_items, vals, write_queue, Codec, Item,
};

verus! {

// RANGE CHECKER REPLAY
// ================================================================================================

/// What a Merkle depth, less one, is multiplied by to check that it is below 64.
pub const MERKLE_DEPTH_RANGE_SCALE: u16 = 1024;

/// Values requested from the 16-bit range-check table by a single operation.
#[derive(Debug, Clone, Copy, PartialEq, Eq)]
pub enum RangeCheckReplayValues {
    Two([u16; 2]),
    Four([u16; 4]),
}

impl RangeCheckReplayValues {
    /// The values.
    pub open spec fn values(&self) -> Seq<u16> {
        match self {
            RangeCheckReplayValues::Two(values) => values@,
            RangeCheckReplayValues::Four(values) => values@,
        }
    }

    /// The values.
    pub fn as_ref(&self) -> (values: &[u16])
        ensures
            values@ == self.values(),
    {
        match self {
            RangeCheckReplayValues::Two(values) => values.as_slice(),
            RangeCheckReplayValues::Four(values) => values.as_slice(),
        }
    }
}

impl Codec for RangeCheckReplayValues {
    type V = Seq<u16>;

    open spec fn val(&self) -> Seq<u16> {
        self.values()
    }

    open spec fn valid(v: Seq<u16>) -> bool {
        v.len() == 2 || v.len() == 4
    }

    open spec fn encoded(v: Seq<u16>) -> Seq<u8> {
        if v.len() == 2 {
            u8::encoded(0) + encoded_items::<u16>(v, v.len())
        } else {
            u8::encoded(1) + encoded_items::<u16>(v, v.len())
        }
    }

    open spec fn decoded(s: Input) -> (Result<Seq<u16>, Fault>, Input) {
        match u8::decoded(s) {
            (Err(fault), rest) => (Err(fault), rest),
            (Ok(tag), rest) => if tag == 0 {
                <[u16; 2] as Codec>::decoded(rest)
            } else if tag == 1 {
                <[u16; 4] as Codec>::decoded(rest)
            } else {
                (Err(Fault::Invalid("invalid range check replay variant tag "@ + numeral(tag as nat))), rest)
            },
        }
    }

    open spec fn min_size() -> nat {
        5
    }

    fn write_into(&self, target: &mut Vec<u8>) {
        let ghost before = target@;
        match self {
            RangeCheckReplayValues::Two(values) => {
                0u8.write_into(target);
                values.write_into(target);
                assert(values.val() =~= values@);
            },
            RangeCheckReplayValues::Four(values) => {
                1u8.write_into(target);
                values.write_into(target);
                assert(values.val() =~= values@);
            },
        }
        assert(target@ =~= before + Self::encoded(self.val()));
    }

    fn read_from(source: &mut BudgetedReader<SliceReader<'_>>) -> (result: Result<
        RangeCheckReplayValues,
        DeserializationError,
    >) {
        match u8::read_from(source) {
            Err(error) => Err(error),
            Ok(0) => match <[u16; 2] as Codec>::read_from(source) {
                Err(error) => Err(error),
                Ok(values) => {
                    assert(values.val() =~= values@);
                    Ok(RangeCheckReplayValues::Two(values))
                },
            },
            Ok(1) => match <[u16; 4] as Codec>::read_from(source) {
                Err(error) => Err(error),
                Ok(values) => {
                    assert(values.val() =~= values@);
                    Ok(RangeCheckReplayValues::Four(values))
                },
            },
            Ok(tag) => Err(invalid_tag("invalid range check replay variant tag ", tag)),
        }
    }

    fn min_serialized_size() -> (size: usize) {
        5
    }

    proof fn round_trip(v: Seq<u16>, rest: Seq<u8>, budget: nat) {
        let tag = if v.len() == 2 {
            0u8
        } else {
            1u8
        };
        let (head, body) = (u8::encoded(tag), encoded_items::<u16>(v, v.len()));
        assert(head + body + rest =~= head + (body + rest));
        u8::round_trip(tag, body + rest, budget);
        if v.len() == 2 {
            <[u16; 2] as Codec>::round_trip(v, rest, (budget - head.len()) as nat);
        } else {
            <[u16; 4] as Codec>::round_trip(v, rest, (budget - head.len()) as nat);
        }
    }

    proof fn bytes_are_charged(s: Input) {
        u8::bytes_are_charged(s);
        let rest = u8::decoded(s).1;
        <[u16; 2] as Codec>::bytes_are_charged(rest);
        <[u16; 4] as Codec>::bytes_are_charged(rest);
        if Self::decoded(s).0 is Ok {
            charged_twice(s, rest, Self::decoded(s).1);
        }
    }
}

impl Item for RangeCheckReplayValues {
    proof fn size_is_least(v: Seq<u16>) {
        u8::size_is_least(0);
        u8::size_is_least(1);
        crate::wire::items_size_is_least::<u16>(v, v.len());
    }
}

/// Replay data for range checking operations.
#[derive(Debug, PartialEq, Eq)]
pub struct RangeCheckerReplay {
    range_checks: VecDeque<RangeCheckReplayValues>,
}

impl View for RangeCheckerReplay {
    type V = Seq<RangeCheckReplayValues>;

    closed spec fn view(&self) -> Seq<RangeCheckReplayValues> {
        self.range_checks@
    }
}

impl Default for RangeCheckerReplay {
    /// A replay of nothing.
    fn default() -> (replay: RangeCheckerReplay)
        ensures
            replay@ == Seq::<RangeCheckReplayValues>::empty(),
    {
        RangeCheckerReplay { range_checks: VecDeque::new() }
    }
}

impl RangeCheckerReplay {
    /// Records the set of range checks which result from a u32 operation.
    pub fn record_range_check_u32(&mut self, u16_limbs: [u16; 4])
        ensures
            final(self)@ == old(self)@.push(RangeCheckReplayValues::Four(u16_limbs)),
    {
        self.range_checks.push_back(RangeCheckReplayValues::Four(u16_limbs));
    }

    /// Records the two range checks which enforce that a Merkle depth is in `1..=64`.
    pub fn record_merkle_depth(&mut self, depth: Felt)
        requires
            1 <= depth@ <= 64,
        ensures
            final(self)@ == old(self)@.push(
                RangeCheckReplayValues::Two(
                    [depth@ as u16, ((depth@ - 1) * MERKLE_DEPTH_RANGE_SCALE) as u16],
                ),
            ),
    {
        let depth: u16 = depth.as_canonical_u64() as u16;
        let scaled_depth: u16 = (depth - 1) * MERKLE_DEPTH_RANGE_SCALE;
        self.range_checks.push_back(RangeCheckReplayValues::Two([depth, scaled_depth]));
    }

    /// Records the two 16-bit limbs of `divisor - remainder - 1` for U32DIV.
    pub fn record_u32div_remainder_diff(&mut self, u16_limbs: [u16; 2])
        ensures
            final(self)@ == old(self)@.push(RangeCheckReplayValues::Two(u16_limbs)),
    {
        self.range_checks.push_back(RangeCheckReplayValues::Two(u16_limbs));
    }

    /// All range checks recorded during execution, in order.
    pub fn into_iter(self) -> (checks: VecDeque<RangeCheckReplayValues>)
        ensures
            checks@ == self@,
    {
        self.range_checks
    }
}

impl Codec for RangeCheckerReplay {
    type V = <VecDeque<RangeCheckReplayValues> as Codec>::V;

    open spec fn val(&self) -> <VecDeque<RangeCheckReplayValues> as Codec>::V {
        vals(self@)
    }

    open spec fn valid(v: <VecDeque<RangeCheckReplayValues> as Codec>::V) -> bool {
        <VecDeque<RangeCheckReplayValues> as Codec>::valid(v)
    }

    open spec fn encoded(v: <VecDeque<RangeCheckReplayValues> as Codec>::V) -> Seq<u8> {
        <VecDeque<RangeCheckReplayValues> as Codec>::encoded(v)
    }

    open spec fn decoded(s: Input) -> (Result<<VecDeque<RangeCheckReplayValues> as Codec>::V, Fault>, Input) {
        <VecDeque<RangeCheckReplayValues> as Codec>::decoded(s)
    }

    open spec fn min_size() -> nat {
        size_of::<Self>()
    }

    fn write_into(&self, target: &mut Vec<u8>) {
        self.range_checks.write_into(target);
    }

    fn read_from(source: &mut BudgetedReader<SliceReader<'_>>) -> (result: Result<Self, DeserializationError>) {
        match <VecDeque<RangeCheckReplayValues> as Codec>::read_from(source) {
            Err(error) => Err(error),
            Ok(range_checks) => Ok(RangeCheckerReplay { range_checks }),
        }
    }

    fn min_serialized_size() -> (size: usize) {
        core::mem::size_of::<Self>()
    }

    proof fn round_trip(v: <VecDeque<RangeCheckReplayValues> as Codec>::V, rest: Seq<u8>, budget: nat) {
        <VecDeque<RangeCheckReplayValues> as Codec>::round_trip(v, rest, budget);
    }

    proof fn bytes_are_charged(s: Input) {
        <VecDeque<RangeCheckReplayValues> as Codec>::bytes_are_charged(s);
    }
}

// ACE REPLAY
// ================================================================================================

/// What the replay of circuit evaluations needs to know of one.
pub trait Evaluation {
    /// The clock cycle of the evaluation.
    spec fn cycle(&self) -> RowIndex;

    /// The number of trace rows of the evaluation.
    spec fn rows(&self) -> usize;

    /// The clock cycle of the evaluation.
    fn clk(&self) -> (clk: RowIndex)
        ensures
            clk == self.cycle(),
    ;

    /// The number of trace rows of the evaluation.
    fn num_rows(&self) -> (rows: usize)
        ensures
            rows == self.rows(),
    ;
}

/// The extent of a circuit evaluation: when it takes place and how many rows it has.
#[derive(Debug, Clone, Copy, PartialEq, Eq)]
pub struct CircuitExtent {
    pub clk: RowIndex,
    pub num_rows: usize,
}

impl Evaluation for CircuitExtent {
    open spec fn cycle(&self) -> RowIndex {
        self.clk
    }

    open spec fn rows(&self) -> usize {
        self.num_rows
    }

    fn clk(&self) -> (clk: RowIndex) {
        self.clk
    }

    fn num_rows(&self) -> (rows: usize) {
        self.num_rows
    }
}

impl Codec for CircuitExtent {
    type V = <(RowIndex, usize) as Codec>::V;

    open spec fn val(&self) -> <(RowIndex, usize) as Codec>::V {
        (self.clk.val(), self.num_rows.val())
    }

    open spec fn valid(v: <(RowIndex, usize) as Codec>::V) -> bool {
        <(RowIndex, usize) as Codec>::valid(v)
    }

    open spec fn encoded(v: <(RowIndex, usize) as Codec>::V) -> Seq<u8> {
        <(RowIndex, usize) as Codec>::encoded(v)
    }

    open spec fn decoded(s: Input) -> (Result<<(RowIndex, usize) as Codec>::V, Fault>, Input) {
        <(RowIndex, usize) as Codec>::decoded(s)
    }

    open spec fn min_size() -> nat {
        <(RowIndex, usize) as Codec>::min_size()
    }

    fn write_into(&self, target: &mut Vec<u8>) {
        let ghost before = target@;
        self.clk.write_into(target);
        self.num_rows.write_into(target);
        assert(target@ =~= before + Self::encoded(self.val()));
    }

    fn read_from(source: &mut BudgetedReader<SliceReader<'_>>) -> (result: Result<Self, DeserializationError>) {
        match <(RowIndex, usize) as Codec>::read_from(source) {
            Err(error) => Err(error),
            Ok((clk, num_rows)) => Ok(CircuitExtent { clk, num_rows }),
        }
    }

    fn min_serialized_size() -> (size: usize) {
        <(RowIndex, usize) as Codec>::min_serialized_size()
    }

    proof fn round_trip(v: <(RowIndex, usize) as Codec>::V, rest: Seq<u8>, budget: nat) {
        <(RowIndex, usize) as Codec>::round_trip(v, rest, budget);
    }

    proof fn bytes_are_charged(s: Input) {
        <(RowIndex, usize) as Codec>::bytes_are_charged(s);
    }
}

impl Item for CircuitExtent {
    proof fn size_is_least(v: <(RowIndex, usize) as Codec>::V) {
        <(RowIndex, usize) as Item>::size_is_least(v);
    }
}

/// Replay data for circuit evaluations.
#[derive(Debug, PartialEq, Eq)]
pub struct AceReplay<E> {
    circuit_evaluations: VecDeque<(RowIndex, E)>,
}

impl<E> View for AceReplay<E> {
    type V = Seq<(RowIndex, E)>;

    closed spec fn view(&self) -> Seq<(RowIndex, E)> {
        self.circuit_evaluations@
    }
}

/// The number of trace rows of the first `n` evaluations.
pub open spec fn total_rows<E: Evaluation>(evaluations: Seq<(RowIndex, E)>, n: nat) -> nat
    decreases n,
{
    if n == 0 {
        0
    } else {
        total_rows(evaluations, (n - 1) as nat) + evaluations[n - 1].1.rows() as nat
    }
}

proof fn total_rows_grow<E: Evaluation>(evaluations: Seq<(RowIndex, E)>, n: nat, m: nat)
    requires
        n <= m,
    ensures
        total_rows(evaluations, n) <= total_rows(evaluations, m),
    decreases m,
{
    if n < m {
        total_rows_grow(evaluations, n, (m - 1) as nat);
    }
}

impl<E: Evaluation> Default for AceReplay<E> {
    /// A replay of nothing.
    fn default() -> (replay: AceReplay<E>)
        ensures
            replay@ == Seq::<(RowIndex, E)>::empty(),
    {
        AceReplay::new()
    }
}

impl<E: Evaluation> AceReplay<E> {
    /// A replay of nothing.
    pub fn new() -> (replay: AceReplay<E>)
        ensures
            replay@ == Seq::<(RowIndex, E)>::empty(),
    {
        AceReplay { circuit_evaluations: VecDeque::new() }
    }

    /// Records the evaluation of a circuit.
    pub fn record_circuit_evaluation(&mut self, circuit_eval: E)
        ensures
            final(self)@ == old(self)@.push((circuit_eval.cycle(), circuit_eval)),
    {
        let clk = circuit_eval.clk();
        self.circuit_evaluations.push_back((clk, circuit_eval));
    }

    /// The total number of trace rows contributed by recorded evaluations, or `None` on overflow.
    pub fn trace_len(&self) -> (len: Option<usize>)
        ensures
            len == if total_rows(self@, self@.len()) <= usize::MAX {
                Some(total_rows(self@, self@.len()) as usize)
            } else {
                None
            },
    {
        let mut len: usize = 0;
        let mut i: usize = 0;
        while i < self.circuit_evaluations.len()
            invariant
                i <= self@.len(),
                self@ == self.circuit_evaluations@,
                len == total_rows(self@, i as nat),
            decreases self@.len() - i,
        {
            let rows: usize = self.circuit_evaluations[i].1.num_rows();
            proof {
                total_rows_grow(self@, (i + 1) as nat, self@.len());
            }
            match len.checked_add(rows) {
                None => {
                    return None;
                },
                Some(sum) => {
                    len = sum;
                },
            }
            i += 1;
        }
        Some(len)
    }

    /// All recorded circuit evaluations, in order.
    pub fn into_iter(self) -> (evaluations: VecDeque<(RowIndex, E)>)
        ensures
            evaluations@ == self@,
    {
        self.circuit_evaluations
    }
}

impl<E: Item> Codec for AceReplay<E> {
    type V = Seq<<(RowIndex, E) as Codec>::V>;

    open spec fn val(&self) -> Seq<<(RowIndex, E) as Codec>::V> {
        vals(self@)
    }

    open spec fn valid(v: Seq<<(RowIndex, E) as Codec>::V>) -> bool {
        <VecDeque<(RowIndex, E)> as Codec>::valid(v)
    }

    open spec fn encoded(v: Seq<<(RowIndex, E) as Codec>::V>) -> Seq<u8> {
        encoded_queue::<(RowIndex, E)>(v)
    }

    open spec fn decoded(s: Input) -> (Result<Seq<<(RowIndex, E) as Codec>::V>, Fault>, Input) {
        decoded_counted::<(RowIndex, E)>(
            decoded_count(
                s,
                "ACE replay length "@,
                " exceeds reader allocation bound "@,
                <(RowIndex, E) as Codec>::min_size(),
            ),
        )
    }

    open spec fn min_size() -> nat {
        size_of::<Self>()
    }

    fn write_into(&self, target: &mut Vec<u8>) {
        write_queue(&self.circuit_evaluations, target)
    }

    fn read_from(source: &mut BudgetedReader<SliceReader<'_>>) -> (result: Result<Self, DeserializationError>) {
        let count: usize = match read_count(
            source,
            "ACE replay length ",
            " exceeds reader allocation bound ",
            <(RowIndex, E) as Codec>::min_serialized_size(),
        ) {
            Err(error) => {
                return Err(error);
            },
            Ok(count) => count,
        };
        match read_items(source, count) {
            Err(error) => Err(error),
            Ok(circuit_evaluations) => Ok(AceReplay { circuit_evaluations }),
        }
    }

    fn min_serialized_size() -> (size: usize) {
        core::mem::size_of::<Self>()
    }

    proof fn round_trip(v: Seq<<(RowIndex, E) as Codec>::V>, rest: Seq<u8>, budget: nat) {
        queue_round_trip::<(RowIndex, E)>(v, rest, budget);
    }

    proof fn bytes_are_charged(s: Input) {
        count_is_charged::<(RowIndex, E)>(s, "ACE replay length "@, " exceeds reader allocation bound "@);
    }
}

/// The rows of some evaluations and of others behind them add up, and one evaluation has its own.
pub proof fn rows_add_up<E: Evaluation>(some: Seq<(RowIndex, E)>, others: Seq<(RowIndex, E)>, one: (RowIndex, E))
    ensures
        total_rows(some + others, (some + others).len()) == total_rows(some, some.len()) + total_rows(
            others,
            others.len(),
        ),
        total_rows(seq![one], 1) == one.1.rows(),
{
    rows_of_front(some, others, some.len());
    rows_of_both(some, others, others.len());
    assert(total_rows(seq![one], 0) == 0);
}

proof fn rows_of_front<E: Evaluation>(some: Seq<(RowIndex, E)>, others: Seq<(RowIndex, E)>, n: nat)
    requires
        n <= some.len(),
    ensures
        total_rows(some + others, n) == total_rows(some, n),
    decreases n,
{
    if n > 0 {
        rows_of_front(some, others, (n - 1) as nat);
    }
}

proof fn rows_of_both<E: Evaluation>(some: Seq<(RowIndex, E)>, others: Seq<(RowIndex, E)>, n: nat)
    requires
        n <= others.len(),
    ensures
        total_rows(some + others, some.len() + n) == total_rows(some, some.len()) + total_rows(others, n),
    decreases n,
{
    if n == 0 {
        rows_of_front(some, others, some.len());
    } else {
        rows_of_both(some, others, (n - 1) as nat);
        assert((some + others)[some.len() + n - 1] == others[n - 1]);
    }
}

} // verus!

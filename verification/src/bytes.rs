//! Numbers as little-endian bytes.
use vstd::prelude::*;

verus! {

/// The low `count` bytes of `n`, least significant first.
pub open spec fn le_bytes(n: nat, count: nat) -> Seq<u8>
    decreases count,
{
    if count == 0 {
        Seq::empty()
    } else {
        seq![(n % 256) as u8] + le_bytes(n / 256, (count - 1) as nat)
    }
}

/// The number that bytes stand for, least significant first.
pub open spec fn le_value(bytes: Seq<u8>) -> nat
    decreases bytes.len(),
{
    if bytes.len() == 0 {
        0
    } else {
        bytes[0] as nat + 256 * le_value(bytes.skip(1))
    }
}

/// The number of values that `count` bytes can hold.
pub open spec fn span(count: nat) -> nat
    decreases count,
{
    if count == 0 {
        1
    } else {
        256 * span((count - 1) as nat)
    }
}

pub broadcast proof fn le_bytes_len(n: nat, count: nat)
    ensures
        (#[trigger] le_bytes(n, count)).len() == count,
    decreases count,
{
    if count > 0 {
        le_bytes_len(n / 256, (count - 1) as nat);
    }
}

/// The bytes of a number stand for it, if they can hold it.
pub proof fn le_value_of_bytes(n: nat, count: nat)
    requires
        n < span(count),
    ensures
        le_value(le_bytes(n, count)) == n,
    decreases count,
{
    if count > 0 {
        let rest = le_bytes(n / 256, (count - 1) as nat);
        assert(n / 256 < span((count - 1) as nat)) by (nonlinear_arith)
            requires
                n < 256 * span((count - 1) as nat),
        ;
        le_value_of_bytes(n / 256, (count - 1) as nat);
        assert(le_bytes(n, count).skip(1) =~= rest);
    }
}

} // verus!

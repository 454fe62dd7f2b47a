//! Operators on ternary addresses: encoding, decoding, trisection and
//! navigation through the tree.

use vstd::prelude::*;

use crate::error::TernaryAddrError;
use crate::ternary_addr::{common_prefix_len, digits_of, pow3, value_of, TernaryAddr};

verus! {

/// The address of `value` at `depth`; fails when `value` exceeds `3^depth - 1`.
pub fn encode(value: u64, depth: usize) -> (r: Result<TernaryAddr, TernaryAddrError>)
    ensures
        value < pow3(depth as nat) ==> r is Ok && r->Ok_0@ == digits_of(value as nat, depth as nat),
        value >= pow3(depth as nat) ==> r == Err::<TernaryAddr, _>(
            TernaryAddrError::ValueExceedsCapacity(value, (pow3(depth as nat) - 1) as u64, depth),
        ),
{
    TernaryAddr::encode(value, depth)
}

/// The digits of `addr` read as a base-3 number.
pub fn decode(addr: &TernaryAddr) -> (r: u64)
    requires
        value_of(addr@) <= u64::MAX,
    ensures
        r == value_of(addr@),
{
    addr.decode()
}

/// The three children of `addr`.
pub fn trisect(addr: &TernaryAddr) -> (r: (TernaryAddr, TernaryAddr, TernaryAddr))
    ensures
        r.0@ == addr@.push(0),
        r.1@ == addr@.push(1),
        r.2@ == addr@.push(2),
{
    addr.trisect()
}

/// The path through the tree from `from` to `to`, both included.
pub fn navigate_ternary(from: &TernaryAddr, to: &TernaryAddr) -> (r: Vec<TernaryAddr>)
    ensures
        r@.len() == from@.len() + to@.len() + 1 - 2 * common_prefix_len(from@, to@),
        forall|j: int|
            0 <= j <= from@.len() - common_prefix_len(from@, to@) ==> (#[trigger] r@[j])@
                == from@.subrange(0, from@.len() - j),
        forall|j: int|
            from@.len() - common_prefix_len(from@, to@) <= j < r@.len() ==> (#[trigger] r@[j])@
                == to@.subrange(0, j - from@.len() + 2 * common_prefix_len(from@, to@)),
{
    from.path_to(to)
}

/// Number of tree edges between two addresses.
pub fn ternary_distance(addr1: &TernaryAddr, addr2: &TernaryAddr) -> (r: usize)
    requires
        addr1@.len() + addr2@.len() <= usize::MAX,
    ensures
        r == addr1@.len() + addr2@.len() - 2 * common_prefix_len(addr1@, addr2@),
{
    addr1.navigation_distance(addr2)
}

} // verus!

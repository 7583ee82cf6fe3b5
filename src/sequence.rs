use vstd::prelude::*;
use crate::message::MAX_ORDER_ID;

verus! {

/// Whether sequence number `a` comes after `b` in the circular space of
/// sequence numbers: a gap of more than half the space in either direction is
/// read as a wrap around.
pub open spec fn is_more_recent(a: int, b: int) -> bool {
    (a > b && a - b <= MAX_ORDER_ID / 2) || (b > a && b - a > MAX_ORDER_ID / 2)
}

/// The sequence number that follows `o`.
pub open spec fn next_order(o: nat) -> nat {
    (o + 1) % (MAX_ORDER_ID as nat)
}

pub fn order_is_more_recent(a: u16, b: u16) -> (r: bool)
    ensures
        r == is_more_recent(a as int, b as int),
{
    (a > b) && (a - b <= MAX_ORDER_ID / 2) || (b > a) && (b - a > MAX_ORDER_ID / 2)
}

/// Advances a sequence number by one, wrapping at the end of the space.
pub fn increment_order(o: u16) -> (r: u16)
    requires
        o < MAX_ORDER_ID,
    ensures
        r as nat == next_order(o as nat),
        r < MAX_ORDER_ID,
{
    let n = o + 1;
    if n == MAX_ORDER_ID {
        0
    } else {
        n
    }
}

} // verus!

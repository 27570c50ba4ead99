//! The smallest payload with the properties a log cares about: a total order
//! and a byte format. One value is refused, so that a message can be.
use vstd::prelude::*;

use crate::eventlog::Payload;

verus! {

#[derive(Clone, Copy, PartialEq, Eq, PartialOrd, Ord, Debug, Structural)]
pub struct Tick(pub u8);

impl Payload for Tick {
    open spec fn before(self, other: Self) -> bool {
        self.0 < other.0
    }

    open spec fn bytes(self) -> Seq<u8> {
        seq![self.0]
    }

    open spec fn parse(bytes: Seq<u8>) -> Option<(Self, nat)> {
        if bytes.len() > 0 {
            Some((Tick(bytes[0]), 1))
        } else {
            None
        }
    }

    open spec fn allowed(self) -> bool {
        self.0 != 0xFF
    }

    proof fn order_is_total(a: Self, b: Self, c: Self) {
    }

    proof fn reads_back(self, rest: Seq<u8>) {
    }

    proof fn stays_within(bytes: Seq<u8>) {
    }

    fn precedes(&self, other: &Self) -> (b: bool) {
        self.0 < other.0
    }

    fn encode(&self, out: &mut Vec<u8>) {
        out.push(self.0);
        assert(out@ =~= old(out)@ + self.bytes());
    }

    fn decode(bytes: &[u8]) -> (r: Option<(Self, usize)>) {
        if bytes.len() > 0 {
            Some((Tick(bytes[0]), 1))
        } else {
            None
        }
    }

    fn valid(&self) -> (b: bool) {
        self.0 != 0xFF
    }
}

/// A tick is its one byte, ticks are in the order of their bytes, and every one
/// but the last is allowed.
pub proof fn law_a_tick_is_its_byte(a: Tick, b: Tick)
    ensures
        a.bytes() == seq![a.0],
        a.before(b) == (a.0 < b.0),
        a.allowed() == (a.0 != 255),
{
}

} // verus!

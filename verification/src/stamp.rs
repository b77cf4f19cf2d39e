//! Stamp: a causal position, lamport first, then author, then the place inside a run
//! that exhausted the lamport space.

use crate::clientid::ClientId;
use vstd::prelude::*;

verus! {

/// The highest lamport an id may occupy: the bound of a local mint, of an op taken
/// off the wire, and of a clock or high-water read from a snapshot.
pub const LAMPORT_STATE_CEILING: u64 = 0x8000_0000_0000_0000;

/// The highest lamport folding an op may raise a clock to.
pub const LAMPORT_WIRE_CEILING: u64 = 0x4000_0000_0000_0000;

#[derive(Clone, Copy, PartialEq, Eq, Hash, Debug, PartialOrd, Ord, Structural)]
pub struct Stamp {
    pub lamport: u64,
    pub client: ClientId,
    pub offset: u64,
}

/// Stamps order by lamport, then client, then offset.
pub open spec fn stamp_lt(a: Stamp, b: Stamp) -> bool {
    a.lamport < b.lamport || (a.lamport == b.lamport && (a.client.bits < b.client.bits || (
    a.client.bits == b.client.bits && a.offset < b.offset)))
}

impl Stamp {
    /// The stamp `i` places into a run that starts here: a lamport step, the surplus
    /// past the lamport space carried in the offset.
    pub open spec fn spec_run_member(self, i: u64) -> Stamp {
        if self.lamport + i <= u64::MAX {
            Stamp { lamport: (self.lamport + i) as u64, client: self.client, offset: self.offset }
        } else {
            Stamp {
                lamport: u64::MAX,
                client: self.client,
                offset: (self.offset + (self.lamport + i - u64::MAX)) as u64,
            }
        }
    }

    /// Whether this stamp is later than `other`.
    pub fn gt(&self, other: &Stamp) -> (r: bool)
        ensures
            r == stamp_lt(*other, *self),
    {
        if self.lamport != other.lamport {
            self.lamport > other.lamport
        } else if self.client.bits != other.client.bits {
            self.client.bits > other.client.bits
        } else {
            self.offset > other.offset
        }
    }

    /// The id a run starting at this stamp gives its item `i`.
    pub fn run_member(&self, i: u64) -> (r: Stamp)
        requires
            self.lamport + i - u64::MAX + self.offset <= u64::MAX,
        ensures
            r == self.spec_run_member(i),
    {
        match self.lamport.checked_add(i) {
            Some(lamport) => Stamp { lamport, client: self.client, offset: self.offset },
            None => Stamp {
                lamport: u64::MAX,
                client: self.client,
                offset: self.offset + (i - (u64::MAX - self.lamport)),
            },
        }
    }
}

/// The stamp order is strict and total: of two stamps exactly one of less, equal
/// and greater holds, and it is transitive.
pub proof fn law_stamp_order_is_total(a: Stamp, b: Stamp, c: Stamp)
    ensures
        stamp_lt(a, b) || stamp_lt(b, a) || a == b,
        !(stamp_lt(a, b) && stamp_lt(b, a)),
        !stamp_lt(a, a),
        stamp_lt(a, b) && stamp_lt(b, c) ==> stamp_lt(a, c),
{
}

} // verus!

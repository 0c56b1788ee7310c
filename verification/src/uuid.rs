//! Clocks, producers and transaction flags of journal documents.

use vstd::prelude::*;

verus! {

/// A document clock: an opaque, totally ordered count of ticks.
#[derive(Clone, Copy, Debug, PartialEq, Eq, PartialOrd, Ord, Hash, Structural)]
pub struct Clock(pub u64);

impl Clock {
    /// The least clock. No document carries it, so it also means "no clock".
    pub open spec fn spec_zero() -> Clock {
        Clock(0)
    }

    #[verifier::when_used_as_spec(spec_zero)]
    pub fn zero() -> (clock: Clock)
        ensures
            clock == Clock(0),
    {
        Clock(0)
    }

    pub open spec fn spec_from_u64(ticks: u64) -> Clock {
        Clock(ticks)
    }

    #[verifier::when_used_as_spec(spec_from_u64)]
    pub fn from_u64(ticks: u64) -> (clock: Clock)
        ensures
            clock == Clock(ticks),
    {
        Clock(ticks)
    }

    pub open spec fn spec_as_u64(&self) -> u64 {
        self.0
    }

    #[verifier::when_used_as_spec(spec_as_u64)]
    pub fn as_u64(&self) -> (ticks: u64)
        ensures
            ticks == self.0,
    {
        self.0
    }
}

impl Default for Clock {
    fn default() -> (clock: Clock)
        ensures
            clock == Clock(0),
    {
        Clock(0)
    }
}

/// The identity of a document's producer: a six-byte node id held as its
/// big-endian value, so that integer order is byte-wise order.
#[derive(Clone, Copy, Debug, PartialEq, Eq, PartialOrd, Ord, Hash, Structural)]
pub struct Producer(pub u64);

impl Producer {
    /// The big-endian value of a six-byte node id.
    pub open spec fn value_of_bytes(b: Seq<u8>) -> int {
        b[0] * 0x100_0000_0000 + b[1] * 0x1_0000_0000 + b[2] * 0x100_0000 + b[3] * 0x1_0000 + b[4]
            * 0x100 + b[5]
    }

    pub fn from_bytes(b: [u8; 6]) -> (producer: Producer)
        ensures
            producer.0 == Self::value_of_bytes(b@),
    {
        Producer(
            b[0] as u64 * 0x100_0000_0000 + b[1] as u64 * 0x1_0000_0000 + b[2] as u64 * 0x100_0000
                + b[3] as u64 * 0x1_0000 + b[4] as u64 * 0x100 + b[5] as u64,
        )
    }
}

/// How a document takes part in its producer's transactions.
#[derive(Clone, Copy, Debug, PartialEq, Eq, PartialOrd, Ord, Hash, Structural)]
pub enum Flags {
    /// A document which is its own, immediately committed transaction.
    OutsideTxn,
    /// A document of a pending transaction.
    ContinueTxn,
    /// Acknowledges, and so commits or rolls back, the pending transaction.
    AckTxn,
}

/// Producers are ordered as the bytes of their node ids are: by the first byte in which they
/// differ.
pub proof fn producers_are_ordered_by_their_bytes(a: Seq<u8>, b: Seq<u8>, i: int)
    requires
        a.len() == 6,
        b.len() == 6,
        0 <= i < 6,
        forall|j: int| 0 <= j < i ==> a[j] == b[j],
        a[i] < b[i],
    ensures
        Producer::value_of_bytes(a) < Producer::value_of_bytes(b),
        0 <= Producer::value_of_bytes(a) && Producer::value_of_bytes(b) < 0x1_0000_0000_0000,
{
    assert(i == 0 || i == 1 || i == 2 || i == 3 || i == 4 || i == 5);
    assert(i > 0 ==> a[0] == b[0]);
    assert(i > 1 ==> a[1] == b[1]);
    assert(i > 2 ==> a[2] == b[2]);
    assert(i > 3 ==> a[3] == b[3]);
    assert(i > 4 ==> a[4] == b[4]);
}

} // verus!

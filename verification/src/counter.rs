use vstd::prelude::*;

verus! {

/// The value of the delivery counter after one more successful delivery has
/// been recorded.  The count saturates instead of wrapping, so that it can
/// never appear to move backwards.
pub open spec fn bumped(c: u64) -> u64 {
    if c < u64::MAX {
        (c + 1) as u64
    } else {
        c
    }
}

/// Process-wide count of successful message deliveries across all rooms.
/// It only ever grows, except through an explicit `reset`.
pub struct DeliveryCounter {
    count: u64,
}

impl View for DeliveryCounter {
    type V = u64;

    closed spec fn view(&self) -> u64 {
        self.count
    }
}

impl DeliveryCounter {
    /// A fresh counter starts at zero.
    pub fn new() -> (c: DeliveryCounter)
        ensures
            c@ == 0,
    {
        DeliveryCounter { count: 0 }
    }

    /// Record one successful delivery.
    pub fn increment(&mut self)
        ensures
            final(self)@ == bumped(old(self)@),
            final(self)@ >= old(self)@,
    {
        if self.count < u64::MAX {
            self.count = self.count + 1;
        }
    }

    /// Zero the counter.  The result does not depend on the old value, so
    /// resetting twice in a row leaves the counter at zero both times.
    pub fn reset(&mut self)
        ensures
            final(self)@ == 0,
    {
        self.count = 0;
    }

    /// Atomic snapshot of the current count.
    pub fn read(&self) -> (n: u64)
        ensures
            n == self@,
    {
        self.count
    }
}

/// The counter never decreases through deliveries: recording a delivery,
/// starting from any value, yields a value at least as large.
pub proof fn lemma_delivery_never_decreases(c: u64)
    ensures
        bumped(c) >= c,
{
}

} // verus!

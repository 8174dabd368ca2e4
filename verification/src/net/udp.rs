use vstd::prelude::*;

verus! {

/// What became of the updates that were sent.
#[derive(Debug, Clone, Copy, Default, PartialEq, Eq, Structural)]
pub struct UdpSendOutcome {
    pub sent: u64,
    pub send_errors: u64,
}

impl UdpSendOutcome {
    pub fn new() -> (r: Self)
        ensures
            r.sent == 0,
            r.send_errors == 0,
    {
        UdpSendOutcome { sent: 0, send_errors: 0 }
    }

    /// Counts one update that was sent or lost.
    pub fn record(&mut self, delivered: bool)
        requires
            delivered ==> old(self).sent < u64::MAX,
            !delivered ==> old(self).send_errors < u64::MAX,
        ensures
            final(self).sent == old(self).sent + if delivered {
                1int
            } else {
                0
            },
            final(self).send_errors == old(self).send_errors + if delivered {
                0int
            } else {
                1
            },
    {
        if delivered {
            self.sent = self.sent + 1;
        } else {
            self.send_errors = self.send_errors + 1;
        }
    }
}

} // verus!

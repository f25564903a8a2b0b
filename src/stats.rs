//! Per-target aggregate statistics, updated once per completed probe.

use vstd::prelude::*;

verus! {

/// `a + b`, saturating at `u64::MAX`.
pub open spec fn sat_add(a: u64, b: u64) -> u64 {
    if a + b > u64::MAX {
        u64::MAX
    } else {
        (a + b) as u64
    }
}

/// Replies and losses of one target, and its round-trip times.
#[derive(Debug, Clone, Copy, PartialEq, Eq, Structural)]
pub struct Stats {
    pub replies: u64,
    pub losses: u64,
    /// Sum of all round-trip times, saturating.
    pub rtt_total: u64,
    pub min_rtt: Option<u64>,
    pub max_rtt: Option<u64>,
    pub last_rtt: Option<u64>,
}

pub open spec fn empty_stats() -> Stats {
    Stats { replies: 0, losses: 0, rtt_total: 0, min_rtt: None, max_rtt: None, last_rtt: None }
}

impl Stats {
    /// The statistics after one more reply with round-trip time `rtt`.
    pub open spec fn after_reply(self, rtt: u64) -> Stats {
        Stats {
            replies: sat_add(self.replies, 1),
            rtt_total: sat_add(self.rtt_total, rtt),
            min_rtt: Some(
                match self.min_rtt {
                    Some(m) => if rtt < m { rtt } else { m },
                    None => rtt,
                },
            ),
            max_rtt: Some(
                match self.max_rtt {
                    Some(m) => if rtt > m { rtt } else { m },
                    None => rtt,
                },
            ),
            last_rtt: Some(rtt),
            ..self
        }
    }

    /// The statistics after `n` more losses.
    pub open spec fn after_losses(self, n: u64) -> Stats {
        Stats { losses: sat_add(self.losses, n), ..self }
    }

    pub fn new() -> (s: Stats)
        ensures
            s == empty_stats(),
    {
        Stats { replies: 0, losses: 0, rtt_total: 0, min_rtt: None, max_rtt: None, last_rtt: None }
    }

    pub fn record_reply(&mut self, rtt: u64)
        ensures
            *final(self) == old(self).after_reply(rtt),
    {
        self.replies = if self.replies < u64::MAX {
            self.replies + 1
        } else {
            u64::MAX
        };
        self.rtt_total = if self.rtt_total <= u64::MAX - rtt {
            self.rtt_total + rtt
        } else {
            u64::MAX
        };
        self.min_rtt = Some(
            match self.min_rtt {
                Some(m) => if rtt < m {
                    rtt
                } else {
                    m
                },
                None => rtt,
            },
        );
        self.max_rtt = Some(
            match self.max_rtt {
                Some(m) => if rtt > m {
                    rtt
                } else {
                    m
                },
                None => rtt,
            },
        );
        self.last_rtt = Some(rtt);
    }

    pub fn record_losses(&mut self, n: u64)
        ensures
            *final(self) == old(self).after_losses(n),
    {
        self.losses = if self.losses <= u64::MAX - n {
            self.losses + n
        } else {
            u64::MAX
        };
    }

    /// Mean round-trip time over the replies; `None` before the first reply.
    pub fn average_rtt(&self) -> (r: Option<u64>)
        ensures
            r == (if self.replies == 0 {
                None::<u64>
            } else {
                Some((self.rtt_total / self.replies) as u64)
            }),
    {
        if self.replies == 0 {
            None
        } else {
            Some(self.rtt_total / self.replies)
        }
    }
}

} // verus!

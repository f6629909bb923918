//! Cycle arithmetic around the processor's timestamp counter. Reading the
//! counter is the caller's part; these functions take the readings.
use vstd::prelude::*;

verus! {

/// Measures the elapsed time of processor instructions, in cycles.
pub struct Tme(pub u64);

impl Tme {
    /// Starts the timer at counter reading `now`.
    pub fn start(&mut self, now: u64)
        ensures
            final(self).0 == now,
    {
        self.0 = now;
    }

    /// Stops the timer at counter reading `now`; it then holds the cycles
    /// since the start, or zero if `now` reads earlier than the start.
    pub fn stop(&mut self, now: u64)
        ensures
            final(self).0 == if now >= old(self).0 {
                (now - old(self).0) as u64
            } else {
                0u64
            },
    {
        self.0 = now.saturating_sub(self.0);
    }
}

/// The cost of the timestamp instructions themselves: the least of the costs
/// measured back to back with nothing between start and stop.
pub fn overhead_cpu_cyc(costs: &Vec<u64>) -> (r: u64)
    requires
        costs@.len() > 0,
    ensures
        costs@.contains(r),
        forall|i: int| 0 <= i < costs@.len() ==> r <= costs@[i],
{
    let mut m = costs[0];
    let mut i: usize = 1;
    while i < costs.len()
        invariant
            1 <= i <= costs@.len(),
            costs@.contains(m),
            forall|j: int| 0 <= j < i ==> m <= costs@[j],
        decreases costs@.len() - i,
    {
        if costs[i] < m {
            m = costs[i];
        }
        i = i + 1;
    }
    m
}

/// A measured cost with the timer's own overhead taken off, never below zero.
pub fn net_cyc(elapsed: u64, overhead: u64) -> (r: u64)
    ensures
        r == if elapsed >= overhead {
            (elapsed - overhead) as u64
        } else {
            0u64
        },
{
    elapsed.saturating_sub(overhead)
}

} // verus!

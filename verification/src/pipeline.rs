//! The scheduler: an ordered list of systems and frame pacing. The library
//! decides what runs and how long to sleep; measuring time and sleeping are
//! the embedding's business.

use vstd::prelude::*;

use crate::types::EcsError;
use crate::world::World;

verus! {

/// An ordered list of systems with an optional target frame rate. Each
/// `progress` tick runs every system once and decides how long the
/// embedding should sleep to hold the rate.
pub struct Pipeline {
    systems: Vec<Option<usize>>,
    frame_period_nanos: u64,
}

/// Nanoseconds per second, times one thousand: the period of a rate given
/// in millihertz.
pub open spec fn nanos_per_kilosecond() -> int {
    1_000_000_000_000
}

impl Pipeline {
    /// The systems, in execution order; each holds its query id, or `None`
    /// for a system with no query terms.
    pub closed spec fn spec_systems(self) -> Seq<Option<usize>> {
        self.systems@
    }

    /// The configured frame period in nanoseconds; zero means unpaced.
    pub closed spec fn spec_period(self) -> u64 {
        self.frame_period_nanos
    }

    /// Builds a pipeline over `systems`, each naming a compiled query of
    /// `world` or none. Fails with `InvalidParameter` when a named query
    /// does not exist.
    pub fn new(world: &World, systems: Vec<Option<usize>>) -> (res: Result<Pipeline, EcsError>)
        ensures
            match res {
                Ok(p) => {
                    &&& p.spec_systems() == systems@
                    &&& p.spec_period() == 0
                    &&& forall|k: int|
                        0 <= k < systems@.len() ==> ((#[trigger] systems@[k]) matches Some(q)
                            ==> (q as int) < world.n_queries())
                },
                Err(err) => {
                    &&& err == EcsError::InvalidParameter
                    &&& exists|k: int|
                        0 <= k < systems@.len() && ((#[trigger] systems@[k]) matches Some(q)
                            && (q as int) >= world.n_queries())
                },
            },
    {
        let nq = world.query_count();
        let mut k: usize = 0;
        while k < systems.len()
            invariant
                k <= systems@.len(),
                nq as int == world.n_queries(),
                forall|kk: int|
                    0 <= kk < k ==> ((#[trigger] systems@[kk]) matches Some(q) ==> (q as int)
                        < world.n_queries()),
            decreases systems@.len() - k,
        {
            match systems[k] {
                Some(q) => {
                    if q >= nq {
                        return Err(EcsError::InvalidParameter);
                    }
                },
                None => {},
            }
            k += 1;
        }
        Ok(Pipeline { systems, frame_period_nanos: 0 })
    }

    /// Sets the target frame rate, given in millihertz (a rate of 2 Hz is
    /// `2000`). Zero disables pacing. The stored period is the rate's
    /// reciprocal in nanoseconds.
    pub fn set_target_fps(&mut self, millihertz: u64)
        ensures
            final(self).spec_systems() == old(self).spec_systems(),
            millihertz == 0 ==> final(self).spec_period() == 0,
            millihertz > 0 ==> final(self).spec_period() as int == nanos_per_kilosecond() / (
            millihertz as int),
    {
        if millihertz == 0 {
            self.frame_period_nanos = 0;
        } else {
            self.frame_period_nanos = 1_000_000_000_000u64 / millihertz;
        }
    }

    /// Reads the configured frame period in nanoseconds; zero means
    /// unpaced.
    pub fn period_nanos(&self) -> (p: u64)
        ensures
            p == self.spec_period(),
    {
        self.frame_period_nanos
    }

    /// One tick's plan: every system executes exactly once, in pipeline
    /// order — also the systems with no query terms.
    pub fn plan(&self) -> (order: Vec<usize>)
        ensures
            order@.len() == self.spec_systems().len(),
            forall|k: int| 0 <= k < order@.len() ==> (#[trigger] order@[k]) as int == k,
    {
        let mut order: Vec<usize> = Vec::new();
        let mut k: usize = 0;
        let n = self.systems.len();
        while k < n
            invariant
                n == self.systems@.len(),
                k <= n,
                order@.len() == k,
                forall|kk: int| 0 <= kk < k ==> (#[trigger] order@[kk]) as int == kk,
            decreases n - k,
        {
            order.push(k);
            k += 1;
        }
        order
    }

    /// The timing of one tick, from the measured (or caller-supplied)
    /// elapsed nanoseconds: when pacing is on and the frame came early, the
    /// tick sleeps the remainder and reports the full period; otherwise it
    /// sleeps nothing and reports the elapsed time. The reported delta is
    /// never below the configured period while pacing is on.
    pub fn progress(&self, elapsed_nanos: u64) -> (r: (u64, u64))
        ensures
            (self.spec_period() > 0 && elapsed_nanos < self.spec_period()) ==> (r.0
                == self.spec_period() && r.1 == self.spec_period() - elapsed_nanos),
            !(self.spec_period() > 0 && elapsed_nanos < self.spec_period()) ==> (r.0
                == elapsed_nanos && r.1 == 0),
            self.spec_period() > 0 ==> r.0 >= self.spec_period(),
            r.0 >= elapsed_nanos,
            r.0 == elapsed_nanos + r.1,
    {
        let p = self.frame_period_nanos;
        if p > 0 && elapsed_nanos < p {
            (p, p - elapsed_nanos)
        } else {
            (elapsed_nanos, 0)
        }
    }
}

/// The total of a sequence of per-tick deltas, in nanoseconds.
pub open spec fn total_nanos(deltas: Seq<u64>) -> int
    decreases deltas.len(),
{
    if deltas.len() == 0 {
        0
    } else {
        total_nanos(deltas.drop_last()) + deltas.last()
    }
}

/// Pacing adds up: when every tick of a paced pipeline reports at least the
/// frame period, `n` consecutive ticks span at least `n` periods of time.
pub proof fn law_paced_total(deltas: Seq<u64>, period: u64)
    requires
        forall|k: int| 0 <= k < deltas.len() ==> (#[trigger] deltas[k]) >= period,
    ensures
        total_nanos(deltas) >= deltas.len() * period,
    decreases deltas.len(),
{
    if deltas.len() > 0 {
        law_paced_total(deltas.drop_last(), period);
        assert(deltas.last() >= period);
        assert((deltas.len() - 1) * period + period == deltas.len() * period) by (nonlinear_arith);
    }
}

} // verus!

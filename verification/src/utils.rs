use std::time::Instant;
use vstd::prelude::*;

verus! {

#[verifier::external_type_specification]
#[verifier::external_body]
pub struct ExInstant(std::time::Instant);

/// Reads the clock through `std::time::Instant::now`.  Nothing is claimed of
/// the moment returned: it depends on when the call is made.
#[verifier::external_body]
fn instant_now() -> Instant {
    Instant::now()
}

/// Counts the bytes received since a starting moment, so that a data rate
/// can be reported once a window has passed.
pub struct DataRateCounter {
    count: usize,
    start: Instant,
}

impl DataRateCounter {
    /// The bytes counted since the window started.
    pub closed spec fn counted(&self) -> nat {
        self.count as nat
    }

    /// The moment the current window started.
    pub closed spec fn started(&self) -> Instant {
        self.start
    }

    /// Adds `bytes` to the count.
    pub fn update(&mut self, bytes: usize)
        requires
            old(self).counted() + bytes <= usize::MAX,
        ensures
            final(self).counted() == old(self).counted() + bytes,
            final(self).started() == old(self).started(),
    {
        self.count += bytes;
    }

    /// The bytes counted since the window started.
    pub fn count(&self) -> (r: usize)
        ensures
            r == self.counted(),
    {
        self.count
    }

    /// The moment the current window started.
    pub fn start(&self) -> (r: Instant)
        ensures
            r == self.started(),
    {
        self.start
    }

    /// Closes the window at `now` when it has run long enough
    /// (`window_elapsed`) and something was counted: hands back the count and
    /// starts a new, empty window at `now`.  Otherwise changes nothing.
    pub fn roll_over(&mut self, now: Instant, window_elapsed: bool) -> (r: Option<usize>)
        ensures
            window_elapsed && old(self).counted() > 0 ==> {
                &&& r == Some(old(self).counted() as usize)
                &&& final(self).counted() == 0
                &&& final(self).started() == now
            },
            !(window_elapsed && old(self).counted() > 0) ==> {
                &&& r is None
                &&& final(self).counted() == old(self).counted()
                &&& final(self).started() == old(self).started()
            },
    {
        if window_elapsed && self.count > 0 {
            let counted = self.count;
            self.count = 0;
            self.start = now;
            Some(counted)
        } else {
            None
        }
    }
}

impl DataRateCounter {
    /// A counter with nothing counted, whose window starts at `now`.
    pub fn starting_at(now: Instant) -> (r: Self)
        ensures
            r.counted() == 0,
            r.started() == now,
    {
        Self { count: 0, start: now }
    }
}

impl Default for DataRateCounter {
    /// A counter with nothing counted, whose window starts when it is made.
    fn default() -> (r: Self)
        ensures
            r.counted() == 0,
    {
        Self::starting_at(instant_now())
    }
}

} // verus!

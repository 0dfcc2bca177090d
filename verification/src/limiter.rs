//! A bound on the bytes that are being written at one time.

use vstd::prelude::*;

verus! {

/// Bytes in flight, and how many there may be.
#[derive(Clone, Copy, Debug)]
pub struct InflightWriteLimiter {
    pub max_bytes: u64,
    pub used_bytes: u64,
}

impl InflightWriteLimiter {
    /// At least one byte fits, and no more are in flight than fit.
    pub open spec fn wf(&self) -> bool {
        self.max_bytes >= 1 && self.used_bytes <= self.max_bytes
    }

    /// What a write of a size reserves: at least one byte, at most all.
    pub open spec fn share(&self, want: u64) -> u64 {
        if want == 0 {
            1
        } else if want > self.max_bytes {
            self.max_bytes
        } else {
            want
        }
    }

    /// Whether a write has to wait for another to end.
    pub open spec fn must_wait(&self, want: u64) -> bool {
        self.used_bytes > 0 && self.used_bytes + self.share(want) > self.max_bytes
    }

    /// What is in flight once a share is given back.
    pub open spec fn used_after_release(&self, bytes: u64) -> u64 {
        if bytes > self.used_bytes {
            0
        } else {
            (self.used_bytes - bytes) as u64
        }
    }

    /// A limiter with nothing in flight.
    pub fn new(max_bytes: u64) -> (r: Self)
        ensures
            r.wf(),
            r.max_bytes == (if max_bytes == 0 {
                1
            } else {
                max_bytes
            }),
            r.used_bytes == 0,
    {
        InflightWriteLimiter {
            max_bytes: if max_bytes == 0 {
                1
            } else {
                max_bytes
            },
            used_bytes: 0,
        }
    }

    /// Reserves the share of a write, unless it has to wait.
    pub fn acquire(&mut self, want_bytes: u64) -> (r: Option<u64>)
        requires
            old(self).wf(),
        ensures
            final(self).wf(),
            final(self).max_bytes == old(self).max_bytes,
            match r {
                Some(n) => !old(self).must_wait(want_bytes) && n == old(self).share(want_bytes)
                    && final(self).used_bytes == old(self).used_bytes + n,
                None => old(self).must_wait(want_bytes) && *final(self) == *old(self),
            },
    {
        let want: u64 = if want_bytes == 0 {
            1
        } else {
            want_bytes
        };
        let reserve: u64 = if want > self.max_bytes {
            self.max_bytes
        } else {
            want
        };
        if self.used_bytes > 0 && reserve > self.max_bytes - self.used_bytes {
            return None;
        }
        self.used_bytes = self.used_bytes + reserve;
        Some(reserve)
    }

    /// Gives back what a write reserved.
    pub fn release(&mut self, bytes: u64)
        requires
            old(self).wf(),
        ensures
            final(self).wf(),
            final(self).max_bytes == old(self).max_bytes,
            final(self).used_bytes == old(self).used_after_release(bytes),
    {
        self.used_bytes = self.used_bytes.saturating_sub(bytes);
    }

    /// With nothing in flight every write may start, whatever its size.
    pub proof fn law_idle_never_waits(&self, want: u64)
        requires
            self.wf(),
            self.used_bytes == 0,
        ensures
            !self.must_wait(want),
    {
    }

    /// A write reserves what it asks for, at least one byte and at most all there is, and
    /// waits exactly when something is in flight and its share does not fit beside it.
    pub proof fn law_no_more_is_in_flight_than_fits(&self, want: u64)
        requires
            self.wf(),
        ensures
            1 <= want <= self.max_bytes ==> self.share(want) == want,
            want == 0 ==> self.share(want) == 1,
            want > self.max_bytes ==> self.share(want) == self.max_bytes,
            self.must_wait(want) ==> self.used_bytes > 0 && self.used_bytes + self.share(want)
                > self.max_bytes,
            !self.must_wait(want) ==> self.used_bytes + self.share(want) <= self.max_bytes,
    {
    }

    /// What is given back is no longer in flight, and never more than was.
    pub proof fn law_release_gives_back(&self, bytes: u64)
        ensures
            bytes <= self.used_bytes ==> self.used_after_release(bytes) == self.used_bytes - bytes,
            bytes >= self.used_bytes ==> self.used_after_release(bytes) == 0,
    {
    }

    /// Giving back the share of a write leaves in flight what was before it.
    pub proof fn law_release_undoes_acquire(&self, want: u64)
        requires
            self.wf(),
            !self.must_wait(want),
        ensures
            ({
                let taken = InflightWriteLimiter {
                    max_bytes: self.max_bytes,
                    used_bytes: (self.used_bytes + self.share(want)) as u64,
                };
                taken.wf() && taken.used_after_release(self.share(want)) == self.used_bytes
            }),
    {
    }
}

} // verus!

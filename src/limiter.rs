//! Bounds on request concurrency and pacing.
use vstd::prelude::*;
use std::sync::Arc;
use tokio::sync::Semaphore;

verus! {

/// A pool of permits, shared by all requests of one service.
#[verifier::external_type_specification]
#[verifier::external_body]
pub struct ExSemaphore(tokio::sync::Semaphore);

/// Number of requests that may be in flight at once at a rate of `rate_milli`
/// thousandths of a request per second: twice the rate, rounded up.
pub open spec fn permits_for(rate_milli: u64) -> int {
    (2 * rate_milli as int + 999) / 1000
}

/// Spacing of requests in milliseconds at that rate: half a second per
/// request per second, rounded down.
pub open spec fn delay_for(rate_milli: u64) -> int {
    500_000int / rate_milli as int
}

/// Pacing below this many milliseconds is left out.
pub const PACING_FLOOR_MS: u64 = 100;

/// Relies on `tokio::sync::Semaphore::new`, which panics above
/// `Semaphore::MAX_PERMITS` (`usize::MAX >> 3`): a pool of `permits` permits.
#[verifier::external_body]
fn new_permit_pool(permits: usize) -> (r: Arc<Semaphore>)
    requires
        permits <= usize::MAX / 8,
{
    Arc::new(Semaphore::new(permits))
}

/// Bounds the number of concurrent requests and spaces them out.
#[derive(Clone)]
pub struct RateLimiter {
    semaphore: Arc<Semaphore>,
    permits: usize,
    delay_ms: u64,
}

impl RateLimiter {
    /// Number of permits of the pool.
    pub closed spec fn spec_permits(&self) -> int {
        self.permits as int
    }

    /// Pacing delay in milliseconds.
    pub closed spec fn spec_delay_ms(&self) -> int {
        self.delay_ms as int
    }

    /// A limiter for `requests_per_second_milli` thousandths of a request per
    /// second: [`permits_for`] concurrent holders, [`delay_for`] of pacing.
    pub fn new(requests_per_second_milli: u64) -> (r: RateLimiter)
        requires
            requests_per_second_milli > 0,
            permits_for(requests_per_second_milli) <= usize::MAX / 8,
        ensures
            r.spec_permits() == permits_for(requests_per_second_milli),
            r.spec_delay_ms() == delay_for(requests_per_second_milli),
            r.spec_permits() >= 1,
    {
        let rate = requests_per_second_milli;
        let permits64: u64 = rate / 500 + if rate % 500 != 0 { 1 } else { 0 };
        assert(permits64 == permits_for(rate)) by (nonlinear_arith)
            requires
                permits64 == rate / 500 + if rate % 500 != 0 { 1int } else { 0int },
                rate > 0,
        {
        }
        let permits = permits64 as usize;
        let delay_ms: u64 = 500_000 / rate;
        RateLimiter { semaphore: new_permit_pool(permits), permits, delay_ms }
    }

    /// Number of permits of the pool.
    pub fn permits(&self) -> (r: usize)
        ensures
            r == self.spec_permits(),
    {
        self.permits
    }

    /// Pacing delay in milliseconds.
    pub fn delay_ms(&self) -> (r: u64)
        ensures
            r == self.spec_delay_ms(),
    {
        self.delay_ms
    }

    /// The wait after obtaining a permit: the pacing delay when it exceeds
    /// [`PACING_FLOOR_MS`], else none.
    pub fn pacing_delay(&self) -> (r: Option<u64>)
        ensures
            self.spec_delay_ms() > PACING_FLOOR_MS ==> r == Some(self.spec_delay_ms() as u64),
            self.spec_delay_ms() <= PACING_FLOOR_MS ==> r.is_none(),
    {
        if self.delay_ms > PACING_FLOOR_MS {
            Some(self.delay_ms)
        } else {
            None
        }
    }

    /// The shared permit pool, acquired before every request.
    pub fn semaphore(&self) -> &Arc<Semaphore> {
        &self.semaphore
    }
}

} // verus!

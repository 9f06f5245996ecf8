use rand::SeedableRng;
use rand::Rng;
use vstd::prelude::*;

verus! {

/// A one-shot timer: it becomes due once the clock reaches its wake instant.
/// Instants and durations are nanoseconds on a monotonic clock whose origin the host picks.
pub struct Sleep {
    pub wake_time: u64,
}

impl Sleep {
    /// Whether the timer is due at `now`.
    pub fn poll_at(&self, now: u64) -> (done: bool)
        ensures
            done == (self.wake_time <= now),
    {
        self.wake_time <= now
    }
}

/// A timer that becomes due `duration` nanoseconds after `now`.
pub fn sleep(now: u64, duration: u64) -> (s: Sleep)
    requires
        now + duration <= u64::MAX,
    ensures
        s.wake_time == now + duration,
{
    Sleep { wake_time: now + duration }
}

/// Nanoseconds in one millisecond.
pub const NANOS_PER_MILLI: u64 = 1_000_000;

#[verifier::external_type_specification]
#[verifier::external_body]
pub struct ExStdRng(rand::rngs::StdRng);

/// The delay that `rand::Rng::random_range(low..high)` returns on a `StdRng` seeded
/// with `seed` through `seed_from_u64`, after the draws of `history`, each given by
/// its (low, high) bounds, were made on it in order.
pub uninterp spec fn seeded_draw(seed: u64, history: Seq<(u64, u64)>, low: u64, high: u64) -> u64;

/// Relies on `rand::SeedableRng::seed_from_u64` for `StdRng`: a ChaCha generator
/// whose stream is fixed by the seed alone, with no draw made on it yet.
#[verifier::external_body]
fn seeded_source(seed: u64) -> (j: Jitter)
    ensures
        j.seed() == seed,
        j.history() == Seq::<(u64, u64)>::empty(),
{
    Jitter {
        generator: rand::rngs::StdRng::seed_from_u64(seed),
        seed: Ghost(seed),
        history: Ghost(Seq::empty()),
    }
}

/// Relies on `rand::Rng::random_range` over `u64`: a value drawn uniformly from
/// `[low, high)`, read from the generator's stream alone; it panics on an empty range.
#[verifier::external_body]
fn draw_in_range(j: &mut Jitter, low: u64, high: u64) -> (r: u64)
    requires
        low < high,
    ensures
        low <= r < high,
        r == seeded_draw(old(j).seed(), old(j).history(), low, high),
        final(j).seed() == old(j).seed(),
        final(j).history() == old(j).history().push((low, high)),
{
    let r = j.generator.random_range(low..high);
    j.history = Ghost(j.history@.push((low, high)));
    r
}

/// A seedable source of random delays, so that jittered runs can be replayed: each
/// draw is fixed by the seed and the bounds of the draws made before it.
pub struct Jitter {
    generator: rand::rngs::StdRng,
    seed: Ghost<u64>,
    history: Ghost<Seq<(u64, u64)>>,
}

impl Jitter {
    /// The seed the source was made with.
    pub closed spec fn seed(&self) -> u64 {
        self.seed@
    }

    /// The bounds of the draws made so far, in order.
    pub closed spec fn history(&self) -> Seq<(u64, u64)> {
        self.history@
    }

    /// A source whose draws are fixed by `seed`.
    pub fn seeded(seed: u64) -> (j: Jitter)
        ensures
            j.seed() == seed,
            j.history() == Seq::<(u64, u64)>::empty(),
    {
        seeded_source(seed)
    }

    /// A delay in milliseconds drawn uniformly from `[min, max)`: the draw that the
    /// seed and the earlier draws fix.
    pub fn draw_millis(&mut self, min: u64, max: u64) -> (ms: u64)
        requires
            min < max,
        ensures
            min <= ms < max,
            ms == seeded_draw(old(self).seed(), old(self).history(), min, max),
            final(self).seed() == old(self).seed(),
            final(self).history() == old(self).history().push((min, max)),
    {
        draw_in_range(self, min, max)
    }
}

/// A timer that becomes due a random number of milliseconds after `now`, drawn
/// uniformly from `[min, max)`.
pub fn random_sleep(jitter: &mut Jitter, now: u64, min: u64, max: u64) -> (s: Sleep)
    requires
        min < max,
        now + max * NANOS_PER_MILLI <= u64::MAX,
    ensures
        now + min * NANOS_PER_MILLI <= s.wake_time < now + max * NANOS_PER_MILLI,
        (s.wake_time - now) % (NANOS_PER_MILLI as int) == 0,
        s.wake_time == now + seeded_draw(old(jitter).seed(), old(jitter).history(), min, max)
            * NANOS_PER_MILLI,
        final(jitter).seed() == old(jitter).seed(),
        final(jitter).history() == old(jitter).history().push((min, max)),
{
    let ms = jitter.draw_millis(min, max);
    proof {
        assert(ms * NANOS_PER_MILLI < max * NANOS_PER_MILLI) by (nonlinear_arith)
            requires ms < max;
        assert(min * NANOS_PER_MILLI <= ms * NANOS_PER_MILLI) by (nonlinear_arith)
            requires min <= ms;
        assert((ms * NANOS_PER_MILLI) % (NANOS_PER_MILLI as int) == 0) by (nonlinear_arith);
    }
    sleep(now, ms * NANOS_PER_MILLI)
}

} // verus!

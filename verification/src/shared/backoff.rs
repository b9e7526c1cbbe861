//! The back-off of threads that contend for a slot.
use vstd::arithmetic::power2;
use vstd::prelude::*;

verus! {

pub const SPIN_LIMIT: u32 = 6;

pub const YIELD_LIMIT: u32 = 10;

/// [`core::hint::spin_loop`] tells the processor that the thread is waiting. It has no effect
/// that a program could observe, so nothing is claimed of it.
pub assume_specification[ core::hint::spin_loop ]()
;

/// What a snooze amounted to.
#[derive(Debug, Clone, Copy, PartialEq, Eq, Structural)]
pub enum Snooze {
    /// The thread has waited by spinning this many times.
    Spun(u32),
    /// The thread has to yield to other threads.
    Yield,
}

/// Waits longer each time it is asked to.
#[derive(Debug)]
pub struct Backoff {
    step: u32,
}

/// How often a thread spins at a given step.
pub open spec fn spins_at(step: int) -> int {
    power2::pow2(
        if step <= SPIN_LIMIT {
            step as nat
        } else {
            SPIN_LIMIT as nat
        },
    ) as int
}

impl View for Backoff {
    type V = int;

    /// How often the thread has backed off, up to a limit.
    closed spec fn view(&self) -> int {
        self.step as int
    }
}

impl Backoff {
    /// Creates a new `Backoff`.
    #[inline]
    pub fn new() -> (backoff: Self)
        ensures
            backoff@ == 0,
    {
        Backoff { step: 0 }
    }

    /// Spins, and tells how often.
    #[inline]
    pub fn spin(&mut self) -> (spins: u32)
        ensures
            spins == spins_at(old(self)@),
            final(self)@ == if old(self)@ <= SPIN_LIMIT {
                old(self)@ + 1
            } else {
                old(self)@
            },
    {
        let exponent: u32 = if self.step <= SPIN_LIMIT {
            self.step
        } else {
            SPIN_LIMIT
        };
        let spins: u32 = spin_times(exponent);
        if self.step <= SPIN_LIMIT {
            self.step = self.step + 1;
        }
        spins
    }

    /// Spins at first; after a while asks the caller to yield instead.
    #[inline]
    pub fn snooze(&mut self) -> (snooze: Snooze)
        ensures
            snooze == if old(self)@ <= SPIN_LIMIT {
                Snooze::Spun(spins_at(old(self)@) as u32)
            } else {
                Snooze::Yield
            },
            final(self)@ == if old(self)@ <= YIELD_LIMIT {
                old(self)@ + 1
            } else {
                old(self)@
            },
    {
        let snooze = if self.step <= SPIN_LIMIT {
            Snooze::Spun(spin_times(self.step))
        } else {
            Snooze::Yield
        };
        if self.step <= YIELD_LIMIT {
            self.step = self.step + 1;
        }
        snooze
    }
}

impl Default for Backoff {
    fn default() -> (backoff: Self)
        ensures
            backoff@ == 0,
    {
        Self::new()
    }
}

/// Spins two to the power of `exponent` times.
fn spin_times(exponent: u32) -> (spins: u32)
    requires
        exponent <= SPIN_LIMIT,
    ensures
        spins == power2::pow2(exponent as nat),
{
    proof {
        power2::lemma2_to64();
        vstd::bits::lemma_u32_shl_is_mul(1, exponent);
    }
    let spins: u32 = 1u32 << exponent;
    let mut i: u32 = 0;
    while i < spins
        invariant
            i <= spins,
        decreases spins - i,
    {
        core::hint::spin_loop();
        i = i + 1;
    }
    spins
}

/// A thread spins once at first, and twice as often at each step, up to sixty-four times.
pub proof fn law_spins_double(step: int)
    requires
        0 <= step,
    ensures
        spins_at(0) == 1,
        step < 6 ==> spins_at(step + 1) == 2 * spins_at(step),
        step >= 6 ==> spins_at(step) == 64,
{
    power2::lemma2_to64();
    if step < 6 {
        power2::lemma_pow2_unfold((step + 1) as nat);
    }
}

} // verus!

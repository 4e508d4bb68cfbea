//! The simulation's tick clock with its circuit breaker, and the periodic
//! triggers that pace agents and the optimisation layer.

use vstd::prelude::*;
use crate::config::QuantumConfig;

verus! {

/// State of the clock as seen from outside: current tick, whether trading is
/// halted, and how many more ticks the halt lasts.
pub type ClockView = (u64, bool, u64);

/// What beginning a tick does to the clock: the tick advances; during a halt
/// the remaining count drops by one and the halt ends when it reaches zero,
/// and no trading happens in that tick.
pub open spec fn begin_tick_spec(c: ClockView) -> (ClockView, bool) {
    let tick = (c.0 + 1) as u64;
    if c.1 {
        let rem = (c.2 - 1) as u64;
        ((tick, rem != 0, rem), false)
    } else {
        ((tick, false, c.2), true)
    }
}

/// What a price move beyond the breaker threshold does: start a halt of
/// `cooldown` ticks unless one is already running. A cooldown of zero leaves
/// a running halt with no tick left, from which no further tick can begin.
pub open spec fn trip_spec(c: ClockView, cooldown: u64) -> ClockView {
    if c.1 {
        c
    } else {
        (c.0, true, cooldown)
    }
}

/// The clock after `n` ticks have begun.
pub open spec fn clock_after(c: ClockView, n: nat) -> ClockView
    decreases n,
{
    if n == 0 {
        c
    } else {
        begin_tick_spec(clock_after(c, (n - 1) as nat)).0
    }
}

/// A clock from which the next tick can begin: a running halt has at least
/// one tick left.
pub open spec fn clock_consistent(c: ClockView) -> bool {
    c.1 ==> c.2 > 0
}

/// Tick counter of the simulation with its circuit breaker.
#[derive(Debug)]
pub struct EngineClock {
    tick: u64,
    circuit_breaker_active: bool,
    circuit_breaker_ticks_remaining: u64,
}

impl EngineClock {
    pub closed spec fn view_clock(&self) -> ClockView {
        (self.tick, self.circuit_breaker_active, self.circuit_breaker_ticks_remaining)
    }

    /// Tick zero, trading allowed.
    pub fn new() -> (r: EngineClock)
        ensures
            r.view_clock() == (0u64, false, 0u64),
            clock_consistent(r.view_clock()),
    {
        EngineClock { tick: 0, circuit_breaker_active: false, circuit_breaker_ticks_remaining: 0 }
    }

    /// The current tick.
    pub fn tick(&self) -> (r: u64)
        ensures
            r == self.view_clock().0,
    {
        self.tick
    }

    /// Whether the circuit breaker halts trading.
    pub fn is_halted(&self) -> (r: bool)
        ensures
            r == self.view_clock().1,
    {
        self.circuit_breaker_active
    }

    /// How many more ticks the running halt lasts.
    pub fn halt_ticks_remaining(&self) -> (r: u64)
        ensures
            r == self.view_clock().2,
    {
        self.circuit_breaker_ticks_remaining
    }

    /// Begins the next tick and says whether trading happens in it.
    pub fn begin_tick(&mut self) -> (trading: bool)
        requires
            old(self).view_clock().0 < u64::MAX,
            clock_consistent(old(self).view_clock()),
        ensures
            clock_consistent(final(self).view_clock()),
            (final(self).view_clock(), trading) == begin_tick_spec(old(self).view_clock()),
    {
        let tick = self.tick + 1;
        if self.circuit_breaker_active {
            let remaining = self.circuit_breaker_ticks_remaining - 1;
            *self = EngineClock {
                tick,
                circuit_breaker_active: remaining != 0,
                circuit_breaker_ticks_remaining: remaining,
            };
            return false;
        }
        *self = EngineClock {
            tick,
            circuit_breaker_active: false,
            circuit_breaker_ticks_remaining: self.circuit_breaker_ticks_remaining,
        };
        true
    }

    /// Reports a price move beyond the breaker threshold: halts trading for
    /// `cooldown` ticks unless a halt is already running.
    pub fn trip(&mut self, cooldown: u64)
        ensures
            final(self).view_clock() == trip_spec(old(self).view_clock(), cooldown),
            clock_consistent(old(self).view_clock()) && (old(self).view_clock().1 || cooldown > 0)
                ==> clock_consistent(final(self).view_clock()),
    {
        if !self.circuit_breaker_active {
            self.circuit_breaker_active = true;
            self.circuit_breaker_ticks_remaining = cooldown;
        }
    }

    /// Whether the periodic portfolio optimisation runs at the current tick:
    /// when it is enabled and the tick is a multiple of its frequency.
    pub fn optimization_due(&self, quantum: &QuantumConfig) -> (r: bool)
        requires
            quantum.enable_qaoa ==> quantum.optimization_frequency_ticks > 0,
        ensures
            r == (quantum.enable_qaoa && self.view_clock().0 % quantum.optimization_frequency_ticks == 0),
    {
        quantum.enable_qaoa && self.tick % quantum.optimization_frequency_ticks == 0
    }
}

/// A trip while a halt is running changes nothing, whatever its cooldown:
/// the running halt is neither extended nor cut short, so every later tick
/// begins exactly as it would have without the trip.
pub proof fn lemma_trip_leaves_running_halt(c: ClockView, cooldown: u64, k: nat)
    requires
        c.1,
    ensures
        trip_spec(c, cooldown) == c,
        clock_after(trip_spec(c, cooldown), k) == clock_after(c, k),
{
}

/// A halt of `cooldown > 0` ticks started at a clock that was trading lasts
/// exactly `cooldown` ticks: the next `cooldown` ticks all begin halted (no
/// trading), and after them the breaker is off, so the tick that follows
/// trades again.
pub proof fn lemma_halt_lasts_cooldown(c: ClockView, cooldown: u64, k: nat)
    requires
        !c.1,
        cooldown > 0,
        c.0 + cooldown < u64::MAX,
        k <= cooldown,
    ensures
        ({
            let h = trip_spec(c, cooldown);
            &&& clock_after(h, k).0 == c.0 + k
            &&& k < cooldown ==> clock_after(h, k).1 && clock_after(h, k).2 == cooldown - k
                && !begin_tick_spec(clock_after(h, k)).1
            &&& k == cooldown ==> !clock_after(h, k).1 && begin_tick_spec(clock_after(h, k)).1
        }),
    decreases k,
{
    if k > 0 {
        lemma_halt_lasts_cooldown(c, cooldown, (k - 1) as nat);
    }
}

/// Fires every `period`-th time it is advanced (every time when the period
/// is zero or one), counting from the last time it fired.
#[derive(Debug)]
pub struct IntervalTrigger {
    elapsed: u64,
    period: u64,
}

/// What advancing a trigger does: count one more, and fire and restart the
/// count when the period is reached.
pub open spec fn advance_spec(elapsed: u64, period: u64) -> (u64, bool) {
    if elapsed + 1 >= period {
        (0, true)
    } else {
        ((elapsed + 1) as u64, false)
    }
}

impl IntervalTrigger {
    pub closed spec fn elapsed(&self) -> u64 {
        self.elapsed
    }

    pub closed spec fn period(&self) -> u64 {
        self.period
    }

    /// The count has not reached the period (it restarts when it does).
    #[verifier::type_invariant]
    spec fn count_below_period(self) -> bool {
        self.elapsed == 0 || self.elapsed < self.period
    }

    /// A trigger that has not counted anything yet.
    pub fn new(period: u64) -> (r: IntervalTrigger)
        ensures
            r.elapsed() == 0,
            r.period() == period,
    {
        IntervalTrigger { elapsed: 0, period }
    }

    /// Counts one step and says whether the trigger fires.
    pub fn advance(&mut self) -> (fired: bool)
        ensures
            final(self).period() == old(self).period(),
            (final(self).elapsed(), fired) == advance_spec(old(self).elapsed(), old(self).period()),
    {
        proof {
            use_type_invariant(&*self);
        }
        let next = self.elapsed + 1;
        if next < self.period {
            self.elapsed = next;
            return false;
        }
        self.elapsed = 0;
        true
    }
}

/// The count of a trigger after `n` advances from a fresh start.
pub open spec fn elapsed_after(period: u64, n: nat) -> u64
    decreases n,
{
    if n == 0 {
        0
    } else {
        advance_spec(elapsed_after(period, (n - 1) as nat), period).0
    }
}

/// Counting one more moves a count `m mod p` to `(m + 1) mod p`.
proof fn lemma_mod_successor(m: int, p: int)
    requires
        m >= 0,
        p > 0,
    ensures
        (m + 1) % p == if m % p + 1 == p { 0 } else { m % p + 1 },
        0 <= m % p < p,
{
    let q = m / p;
    let r = m % p;
    vstd::arithmetic::div_mod::lemma_fundamental_div_mod(m, p);
    vstd::arithmetic::div_mod::lemma_mod_bound(m, p);
    if r + 1 == p {
        assert(m + 1 == (q + 1) * p + 0) by (nonlinear_arith)
            requires
                m == p * q + r,
                r + 1 == p,
        ;
        vstd::arithmetic::div_mod::lemma_fundamental_div_mod_converse(m + 1, p, q + 1, 0);
    } else {
        assert(m + 1 == q * p + (r + 1)) by (nonlinear_arith)
            requires
                m == p * q + r,
        ;
        vstd::arithmetic::div_mod::lemma_fundamental_div_mod_converse(m + 1, p, q, r + 1);
    }
}

/// After `m` advances from a fresh start the count of a trigger with
/// period `p > 0` is `m mod p`.
pub proof fn lemma_trigger_count(period: u64, m: nat)
    requires
        period > 0,
    ensures
        elapsed_after(period, m) as int == (m as int) % (period as int),
    decreases m,
{
    if m == 0 {
        assert(0int % (period as int) == 0) by (nonlinear_arith)
            requires
                period > 0,
        ;
    } else {
        lemma_trigger_count(period, (m - 1) as nat);
        lemma_mod_successor(m - 1, period as int);
    }
}

/// A fresh trigger with period `p > 0` fires on the `n`-th advance exactly
/// when `n` is a multiple of `p`.
pub proof fn lemma_trigger_fires_every_period(period: u64, n: nat)
    requires
        period > 0,
        n > 0,
    ensures
        advance_spec(elapsed_after(period, (n - 1) as nat), period).1 <==> (n as int) % (period as int) == 0,
{
    lemma_trigger_count(period, (n - 1) as nat);
    lemma_mod_successor(n - 1, period as int);
}

} // verus!

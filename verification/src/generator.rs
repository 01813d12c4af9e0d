//! The two signal generators.
//!
//! A generator is advanced once per tick. The noise of the tick is handed
//! in, so that what a generator does with it holds of every draw.

use vstd::prelude::*;
use vstd::arithmetic::power2::*;
use vstd::arithmetic::div_mod::*;
use crate::binary32::{
    magnitude, nearest_integer, nearest_magnitude, pattern_of, plus, scale, signed_units,
    significand, sum,
};
use crate::rounding::{
    lemma_far_sum, lemma_nearest_is_held, lemma_nearest_magnitude_scaled, lemma_pattern_of_parts,
    lemma_pattern_ordered, lemma_pattern_round_trip, lemma_pow2_ordered, lemma_pow2_significand,
    lemma_rounding_keeps_side, lemma_surplus_of_binade,
};
use crate::sample::RawSample;

verus! {

/// The time between two ticks of a generator, in milliseconds.
pub const TICK_MILLIS: u64 = 200;

/// The length of one square-wave cycle, in ticks.
pub const CYCLE_TICKS: u32 = 20;

/// The number of ticks at the start of a cycle that are high.
pub const HIGH_TICKS: u32 = 10;

/// +20.0, the high plateau.
pub const HIGH_LEVEL: u32 = 0x41A0_0000;

/// -20.0, the low plateau.
pub const LOW_LEVEL: u32 = 0xC1A0_0000;

/// 0.0872665, five degrees in radians: what the phase grows by per tick.
pub const PHASE_STEP: u32 = 0x3DB2_B8C7;

/// The half of the cycle that a tick falls in.
#[derive(Clone, Copy, Debug, PartialEq, Eq, Structural)]
pub enum Plateau {
    High,
    Low,
}

/// The plateau of a tick, the ticks counted from 1: the first ten of every
/// twenty are high.
pub open spec fn plateau_of_tick(tick: nat) -> Plateau
    recommends
        tick >= 1,
{
    if (tick - 1) % (CYCLE_TICKS as int) < HIGH_TICKS {
        Plateau::High
    } else {
        Plateau::Low
    }
}

/// The level of a plateau.
pub open spec fn level_of(plateau: Plateau) -> u32 {
    match plateau {
        Plateau::High => HIGH_LEVEL,
        Plateau::Low => LOW_LEVEL,
    }
}

/// The phase after a number of ticks: the step added that many times to
/// zero, each sum rounded.
pub open spec fn phase_after(ticks: nat) -> u32
    decreases ticks,
{
    if ticks == 0 {
        0
    } else {
        sum(phase_after((ticks - 1) as nat), PHASE_STEP)
    }
}

/// The square-wave generator: a counter that runs through the cycle.
pub struct SquareGenerator {
    position: u32,
    ticks: Ghost<nat>,
}

impl SquareGenerator {
    #[verifier::type_invariant]
    spec fn well_formed(&self) -> bool {
        self.position == self.ticks@ % (CYCLE_TICKS as nat)
    }

    /// The number of ticks made so far.
    pub closed spec fn ticks(&self) -> nat {
        self.ticks@
    }

    /// A generator at the start of its first cycle.
    pub fn new() -> (g: SquareGenerator)
        ensures
            g.ticks() == 0,
    {
        SquareGenerator { position: 0, ticks: Ghost(0) }
    }

    /// Makes one tick: the sample is the plateau of this tick plus the noise.
    pub fn tick(&mut self, noise: u32) -> (sample: RawSample)
        ensures
            final(self).ticks() == old(self).ticks() + 1,
            sample == RawSample::Square(sum(level_of(plateau_of_tick(final(self).ticks())), noise)),
    {
        proof {
            use_type_invariant(&*self);
        }
        let level: u32 = if self.position < HIGH_TICKS {
            HIGH_LEVEL
        } else {
            LOW_LEVEL
        };
        let next: u32 = if self.position + 1 >= CYCLE_TICKS {
            0
        } else {
            self.position + 1
        };
        *self = SquareGenerator { position: next, ticks: Ghost((self.ticks@ + 1) as nat) };
        RawSample::Square(plus(level, noise))
    }
}

/// The sine generator: a phase that grows by a fixed step per tick.
pub struct SineGenerator {
    phase: u32,
    ticks: Ghost<nat>,
}

impl SineGenerator {
    #[verifier::type_invariant]
    spec fn well_formed(&self) -> bool {
        self.phase == phase_after(self.ticks@)
    }

    /// The number of ticks made so far.
    pub closed spec fn ticks(&self) -> nat {
        self.ticks@
    }

    /// A generator at phase zero.
    pub fn new() -> (g: SineGenerator)
        ensures
            g.ticks() == 0,
    {
        SineGenerator { phase: 0, ticks: Ghost(0) }
    }

    /// The phase that the generator stands at.
    pub fn phase(&self) -> (phase: u32)
        ensures
            phase == phase_after(self.ticks()),
    {
        proof {
            use_type_invariant(self);
        }
        self.phase
    }

    /// Makes one tick: the phase grows by the step, and the result is the
    /// angle whose sine is the sample of this tick, the new phase plus the
    /// noise.
    pub fn tick(&mut self, noise: u32) -> (angle: u32)
        ensures
            final(self).ticks() == old(self).ticks() + 1,
            angle == sum(phase_after(final(self).ticks()), noise),
    {
        proof {
            use_type_invariant(&*self);
        }
        let phase: u32 = plus(self.phase, PHASE_STEP);
        *self = SineGenerator { phase, ticks: Ghost((self.ticks@ + 1) as nat) };
        plus(phase, noise)
    }
}

/// In every cycle of twenty ticks the first ten are high and the other ten
/// are low.
pub proof fn lemma_square_cycle(cycle: nat, place: nat)
    requires
        1 <= place <= 20,
    ensures
        plateau_of_tick(20 * cycle + place) == if place <= 10 {
            Plateau::High
        } else {
            Plateau::Low
        },
{
    lemma_fundamental_div_mod_converse(20 * cycle + place - 1, 20, cycle as int, place - 1);
}

/// With a noise of at least zero and below one, a high sample lies between
/// 20 and 21 and a low sample between -20 and -19.
pub proof fn lemma_square_band(tick: nat, noise: u32)
    requires
        tick >= 1,
        noise < 0x3F80_0000,
    ensures
        plateau_of_tick(tick) == Plateau::High ==> 0x41A0_0000 <= sum(HIGH_LEVEL, noise)
            <= 0x41A8_0000,
        plateau_of_tick(tick) == Plateau::Low ==> 0xC198_0000 <= sum(LOW_LEVEL, noise)
            <= 0xC1A0_0000,
{
    lemma_pow2_significand();
    lemma_pow2_pos(130);
    lemma_pow2_adds(19, 130);
    lemma_pow2_adds(23, 130);
    lemma_pow2_adds(24, 130);
    lemma2_to64();
    let unit = pow2(130);
    let small = magnitude(noise);
    // the noise is below one, which is 2^149 units
    assert(small < 0x8_0000 * unit) by {
        lemma_pow2_ordered(scale(noise), 125);
        lemma_pow2_adds(24, 125);
        lemma_pow2_pos(scale(noise));
        assert(significand(noise) * pow2(scale(noise)) < pow2(24) * pow2(125)) by (nonlinear_arith)
            requires
                significand(noise) < pow2(24),
                0 < pow2(scale(noise)) <= pow2(125),
        ;
    }
    assert(magnitude(HIGH_LEVEL) == 0xA0_0000 * unit);
    assert(magnitude(LOW_LEVEL) == 0xA0_0000 * unit);
    let high = (0xA0_0000 * unit + small) as nat;
    let low = (0xA0_0000 * unit - small) as nat;
    assert(pow2(153) == 0x80_0000 * unit && pow2(154) == 0x100_0000 * unit);
    lemma_surplus_of_binade(high, 130);
    lemma_surplus_of_binade(low, 130);
    assert(unit * 1 == unit && 1 * unit == unit);
    assert(high / 1 == high && low / 1 == low);
    lemma_fundamental_div_mod(high as int, unit as int);
    lemma_fundamental_div_mod(low as int, unit as int);
    lemma_mod_pos_bound(high as int, unit as int);
    lemma_mod_pos_bound(low as int, unit as int);
    let qh = high / unit;
    let ql = low / unit;
    assert(0xA0_0000 <= qh < 0xA8_0000) by (nonlinear_arith)
        requires
            high == unit * qh + high % unit,
            0 <= high % unit < unit,
            0xA0_0000 * unit <= high < 0xA8_0000 * unit,
    ;
    assert(0x98_0000 <= ql <= 0xA0_0000 && (ql == 0xA0_0000 ==> low % unit == 0))
        by (nonlinear_arith)
        requires
            low == unit * ql + low % unit,
            0 <= low % unit < unit,
            0x98_0000 * unit < low <= 0xA0_0000 * unit,
    ;
    let mh = nearest_integer(high, unit);
    let ml = nearest_integer(low, unit);
    assert(nearest_magnitude(high, 1) == mh * unit);
    assert(nearest_magnitude(low, 1) == ml * unit);
    lemma_pattern_of_parts(false, mh, 130);
    lemma_pattern_of_parts(true, ml, 130);
    assert(signed_units(HIGH_LEVEL) + signed_units(noise) == high);
    assert(signed_units(LOW_LEVEL) + signed_units(noise) == -(low as int));
    assert(high > 0 && low > 0);
}

/// The phase never falls from one tick to the next, and it never leaves the
/// numbers from zero to 2^23: it stays finite and without a sign, where the
/// order of the patterns is the order of the numbers.
pub proof fn lemma_phase_grows(ticks: nat)
    ensures
        phase_after(ticks) <= phase_after(ticks + 1),
        phase_after(ticks + 1) <= 0x4B00_0000,
    decreases ticks,
{
    let p = phase_after(ticks);
    if ticks > 0 {
        lemma_phase_grows((ticks - 1) as nat);
    }
    assert(p <= 0x4B00_0000);
    lemma_pow2_significand();
    lemma2_to64();
    lemma_pow2_adds(27, 122);
    lemma_pow2_adds(24, 148);
    lemma_pow2_adds(2, 146);
    lemma_pow2_adds(24, 122);
    lemma_pow2_adds(23, 149);
    lemma_pow2_adds(1, 148);
    lemma_pow2_pos(122);
    lemma_pow2_pos(146);
    lemma_pow2_pos(148);
    lemma_pow2_strictly_increases(172, 277);
    let step = magnitude(PHASE_STEP);
    let size = magnitude(p);
    let top = 0x80_0000 * pow2(149);
    assert(step == 0xB2_B8C7 * pow2(122));
    assert(magnitude(0x4B00_0000u32) == top);
    assert(top == pow2(172));
    assert(0 < step < pow2(146)) by (nonlinear_arith)
        requires
            step == 0xB2_B8C7 * pow2(122),
            pow2(146) == pow2(24) * pow2(122),
            pow2(24) == 0x100_0000,
            pow2(122) > 0,
    ;
    let exact = (size + step) as nat;
    assert(signed_units(p) + signed_units(PHASE_STEP) == exact);
    let near = nearest_magnitude(exact, 1);
    assert(phase_after(ticks + 1) == pattern_of(false, near));
    // rounding does not fall below the old phase
    lemma_rounding_keeps_side(exact, significand(p), scale(p));
    // nor rise above 2^23
    if scale(p) == 149 {
        assert(size == top);
        let lifted = (0x80_0000 * pow2(27) + 0xB2_B8C7) as nat;
        lemma_far_sum(0x80_0000, 27, 0xB2_B8C7, true);
        assert(lifted / 1 == lifted);
        lemma_nearest_magnitude_scaled(lifted, 1, 122);
        assert(lifted * pow2(122) == exact) by (nonlinear_arith)
            requires
                lifted == 0x80_0000 * pow2(27) + 0xB2_B8C7,
                exact == 0x80_0000 * pow2(149) + 0xB2_B8C7 * pow2(122),
                pow2(149) == pow2(27) * pow2(122),
        ;
        assert(0x80_0000 * pow2(27) * pow2(122) == top) by (nonlinear_arith)
            requires
                top == 0x80_0000 * pow2(149),
                pow2(149) == pow2(27) * pow2(122),
        ;
        assert(near == top);
    } else {
        lemma_pow2_ordered(scale(p), 148);
        lemma_pow2_pos(scale(p));
        assert(size <= 0xFF_FFFF * pow2(148)) by (nonlinear_arith)
            requires
                size == significand(p) * pow2(scale(p)),
                significand(p) <= 0xFF_FFFF,
                0 < pow2(scale(p)) <= pow2(148),
        ;
        assert(exact <= top) by (nonlinear_arith)
            requires
                exact == size + step,
                size <= 0xFF_FFFF * pow2(148),
                step < pow2(146),
                pow2(148) == 4 * pow2(146),
                top == pow2(172),
                pow2(172) == 0x100_0000 * pow2(148),
        ;
        lemma_rounding_keeps_side(exact, 0x80_0000, 149);
    }
    let form = lemma_nearest_is_held(exact);
    lemma_pattern_ordered(significand(p), scale(p), form.0, form.1);
    lemma_pattern_ordered(form.0, form.1, 0x80_0000, 149);
    lemma_pattern_round_trip(p);
    lemma_pattern_round_trip(0x4B00_0000u32);
}

} // verus!

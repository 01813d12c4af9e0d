//! The filter stage: a moving average per waveform.
//!
//! Each waveform has its own history of recent raw values, eight for the sine
//! and four for the square. A sample is written into the history of its
//! waveform, and the filtered value is the mean of what that history then
//! holds, summed in storage order and divided by the number of values held.

use vstd::prelude::*;
use heapless::HistoryBuffer;
use vstd::arithmetic::div_mod::*;
use vstd::arithmetic::power2::*;
use crate::binary32::{
    divided_by, is_finite, magnitude, nearest_integer, nearest_magnitude, negative, pattern_of,
    plus, quotient, scale, significand, signed_units, sum, surplus_bits, SIGN_BIT,
};
use crate::rounding::{
    lemma_magnitude_of_pattern, lemma_nearest_integer_scaled, lemma_nearest_is_held,
    lemma_nearest_magnitude_scaled, lemma_nearest_of_exact, lemma_nearest_of_multiple,
    lemma_pattern_round_trip, lemma_surplus_of_binade,
};
use crate::history::{
    ring_advanced, ring_shape, ring_written, sine_cursor, sine_history_new, sine_history_values,
    sine_history_write, sine_slots, square_cursor, square_history_new, square_history_values,
    square_history_write, square_slots,
};
use crate::sample::{PublishedSample, RawSample, SignalKind};

verus! {

/// How many raw values the sine history keeps.
pub const SINE_CAPACITY: usize = 8;

/// How many raw values the square history keeps.
pub const SQUARE_CAPACITY: usize = 4;

/// The capacity of the history of a waveform.
pub open spec fn capacity_of(kind: SignalKind) -> nat {
    match kind {
        SignalKind::Sine => SINE_CAPACITY as nat,
        SignalKind::Square => SQUARE_CAPACITY as nat,
    }
}

/// The position, among all values written so far, of the value that a slot
/// holds: the latest position that falls on the slot.
pub open spec fn slot_source(written: nat, capacity: nat, slot: nat) -> nat
    recommends
        capacity > 0,
        slot < written,
        slot < capacity,
{
    (slot + capacity * ((written - 1 - slot) / capacity as int)) as nat
}

/// What a history holds after the values of `log` were written to it one by
/// one, in storage order.
pub open spec fn held(log: Seq<u32>, capacity: nat) -> Seq<u32>
    recommends
        capacity > 0,
{
    Seq::new(
        if log.len() < capacity {
            log.len()
        } else {
            capacity
        },
        |slot: int| log[slot_source(log.len(), capacity, slot as nat) as int],
    )
}

/// The values added up from left to right, each sum rounded. The sum of no
/// values is negative zero, which changes nothing when added.
pub open spec fn total(values: Seq<u32>) -> u32
    decreases values.len(),
{
    if values.len() == 0 {
        SIGN_BIT
    } else {
        sum(total(values.drop_last()), values.last())
    }
}

/// The total divided by the number of values. The mean of no values is a
/// not-a-number, zero divided by zero.
pub open spec fn mean(values: Seq<u32>) -> u32 {
    quotient(total(values), values.len())
}

/// Adds up the values and divides by their number.
pub fn average(values: &Vec<u32>) -> (r: u32)
    ensures
        r == mean(values@),
{
    let mut acc: u32 = SIGN_BIT;
    let mut i: usize = 0;
    while i < values.len()
        invariant
            i <= values@.len(),
            acc == total(values@.take(i as int)),
        decreases values@.len() - i,
    {
        proof {
            assert(values@.take(i + 1).drop_last() =~= values@.take(i as int));
        }
        acc = plus(acc, values[i]);
        i = i + 1;
    }
    proof {
        assert(values@.take(i as int) =~= values@);
    }
    divided_by(acc, values.len() as u64)
}

/// Until a history is full it holds the values in the order in which they
/// came, so the filtered value is their plain mean: the total divided by
/// their number, not by the capacity.
pub proof fn lemma_partial_fill(log: Seq<u32>, capacity: nat)
    requires
        log.len() <= capacity,
    ensures
        held(log, capacity) == log,
{
    if capacity > 0 {
        assert forall|slot: int| 0 <= slot < log.len() implies #[trigger] slot_source(
            log.len(),
            capacity,
            slot as nat,
        ) == slot by {
            lemma_basic_div(log.len() - 1 - slot, capacity as int);
        }
    }
    assert(held(log, capacity) =~= log);
}

/// A history holds the most recent values and nothing else: every slot holds
/// one of the last values written, as many as the history has slots filled,
/// and each of those values sits in the slot that its position falls on. So
/// a write to a full history takes the place of the oldest value.
pub proof fn lemma_held_is_recent(log: Seq<u32>, capacity: nat)
    requires
        capacity >= 1,
    ensures
        held(log, capacity).len() == if log.len() < capacity {
            log.len()
        } else {
            capacity
        },
        forall|slot: int|
            0 <= slot < held(log, capacity).len() ==> log.len() - held(log, capacity).len()
                <= #[trigger] slot_source(log.len(), capacity, slot as nat) < log.len(),
        forall|position: int|
            log.len() - held(log, capacity).len() <= position < log.len() ==> #[trigger] held(
                log,
                capacity,
            )[position % (capacity as int)] == log[position],
{
    let n = log.len() as int;
    let c = capacity as int;
    let k = held(log, capacity).len() as int;
    assert forall|slot: int| 0 <= slot < k implies n - k <= #[trigger] slot_source(
        log.len(),
        capacity,
        slot as nat,
    ) < n by {
        let back = (n - 1 - slot) % c;
        lemma_fundamental_div_mod(n - 1 - slot, c);
        lemma_mod_pos_bound(n - 1 - slot, c);
        assert(slot_source(log.len(), capacity, slot as nat) == n - 1 - back);
        if n < c {
            lemma_small_mod((n - 1 - slot) as nat, capacity);
        }
    }
    assert forall|position: int| n - k <= position < n implies #[trigger] held(
        log,
        capacity,
    )[position % c] == log[position] by {
        let slot = position % c;
        let turns = position / c;
        lemma_fundamental_div_mod(position, c);
        lemma_mod_pos_bound(position, c);
        if n < c {
            lemma_small_mod(position as nat, capacity);
        }
        // position is the last place at or before n - 1 that falls on its slot
        let rest = n - 1 - position;
        assert(n - 1 - slot == turns * c + rest) by (nonlinear_arith)
            requires
                position == c * turns + slot,
                rest == n - 1 - position,
        ;
        assert(0 <= rest < c);
        lemma_fundamental_div_mod_converse(
            n - 1 - slot,
            c,
            turns,
            rest,
        );
        assert(slot_source(log.len(), capacity, slot as nat) == position) by (nonlinear_arith)
            requires
                slot_source(log.len(), capacity, slot as nat) == slot + c * turns,
                position == c * turns + slot,
        ;
    }
}

/// The same value `count` times.
pub open spec fn constant_run(value: u32, count: nat) -> Seq<u32> {
    Seq::new(count, |i: int| value)
}

/// Whether `count` copies of a value add up without rounding: every multiple
/// of the value up to `count` times is a number that a significand holds,
/// and the last of them is finite. A value whose significand leaves three
/// low bits clear adds up so eight times.
pub open spec fn adds_up_exactly(value: u32, count: nat) -> bool {
    &&& is_finite(value)
    &&& count * magnitude(value) < pow2(277)
    &&& forall|times: nat|
        1 <= times <= count ==> nearest_magnitude(#[trigger] (times * magnitude(value)), 1)
            == times * magnitude(value)
}

/// Where the copies of a value add up without rounding, their total is the
/// multiple.
proof fn lemma_total_of_constant(value: u32, count: nat)
    requires
        adds_up_exactly(value, count),
        count >= 1,
    ensures
        total(constant_run(value, count)) == pattern_of(negative(value), count * magnitude(value)),
    decreases count,
{
    let sign = negative(value);
    let size = magnitude(value);
    let run = constant_run(value, count);
    let before = constant_run(value, (count - 1) as nat);
    assert(run.drop_last() =~= before);
    assert(run.last() == value);
    assert((count - 1) * size <= count * size) by (nonlinear_arith)
        requires
            count >= 1,
    ;
    assert(count * size == (count - 1) * size + size) by (nonlinear_arith);
    assert(nearest_magnitude(count * size, 1) == count * size);
    // what has been added up so far
    let so_far = total(before);
    if count == 1 {
        assert(before =~= Seq::<u32>::empty());
        assert(so_far == SIGN_BIT);
        assert(magnitude(SIGN_BIT) == 0) by {
            assert(significand(SIGN_BIT) == 0);
            assert(0 * pow2(scale(SIGN_BIT)) == 0);
        }
        assert((count - 1) * size == 0) by (nonlinear_arith)
            requires
                count == 1,
        ;
    } else {
        assert(adds_up_exactly(value, (count - 1) as nat));
        lemma_total_of_constant(value, (count - 1) as nat);
        assert(nearest_magnitude((count - 1) as nat * size, 1) == (count - 1) * size);
        let form = lemma_nearest_is_held((count - 1) as nat * size);
        lemma_magnitude_of_pattern(sign, form.0, form.1);
    }
    assert(is_finite(so_far));
    assert(magnitude(so_far) == (count - 1) * size);
    let exact = signed_units(so_far) + signed_units(value);
    if size == 0 {
        assert(count * size == 0 && (count - 1) * size == 0) by (nonlinear_arith)
            requires
                size == 0,
        ;
        assert(exact == 0);
        assert(count > 1 ==> negative(so_far) == sign);
        assert(surplus_bits(0) == 0);
        lemma2_to64();
        assert(0nat / pow2(0) == 0);
    } else {
        if count > 1 {
            assert(negative(so_far) == sign);
        }
        assert(exact == if sign {
            -(count * size)
        } else {
            (count * size) as int
        });
    }
}

/// Where the copies of a finite value add up to the exact multiple, rounded
/// on the way or not, their mean is the value.
proof fn lemma_mean_of_exact_total(value: u32, count: nat)
    requires
        is_finite(value),
        count >= 1,
        count * magnitude(value) < pow2(277),
        nearest_magnitude(count * magnitude(value), 1) == count * magnitude(value),
        total(constant_run(value, count)) == pattern_of(negative(value), count * magnitude(value)),
    ensures
        mean(constant_run(value, count)) == value,
{
    let sign = negative(value);
    let size = magnitude(value);
    let form = lemma_nearest_is_held(count * size);
    lemma_magnitude_of_pattern(sign, form.0, form.1);
    // dividing the multiple by the count gives the value back
    let s = surplus_bits(size);
    lemma_pow2_pos(s);
    assert((count * size) / count == size) by {
        lemma_div_multiples_vanish(size as int, count as int);
    }
    lemma_nearest_integer_scaled(size, pow2(s), count);
    assert(size * count == count * size) by (nonlinear_arith);
    assert(pow2(s) * count == count * pow2(s)) by (nonlinear_arith);
    assert(1 * pow2(s) == pow2(s));
    assert(size / 1 == size);
    assert(nearest_magnitude(count * size, count) == nearest_magnitude(size, 1));
    lemma_nearest_of_exact(significand(value), scale(value));
    lemma_pattern_round_trip(value);
}

/// A history that holds nothing but one value holds a constant run.
proof fn lemma_held_of_constant(log: Seq<u32>, capacity: nat, value: u32)
    requires
        capacity >= 1,
        log.len() >= capacity,
        forall|i: int| log.len() - capacity <= i < log.len() ==> log[i] == value,
    ensures
        held(log, capacity) == constant_run(value, capacity),
{
    let n = log.len() as int;
    let c = capacity as int;
    assert forall|slot: int| 0 <= slot < c implies log[#[trigger] slot_source(
        log.len(),
        capacity,
        slot as nat,
    ) as int] == value by {
        let back = (n - 1 - slot) % c;
        lemma_fundamental_div_mod(n - 1 - slot, c);
        lemma_mod_pos_bound(n - 1 - slot, c);
        assert(slot_source(log.len(), capacity, slot as nat) == n - 1 - back);
    }
    assert(held(log, capacity) =~= constant_run(value, capacity));
}

/// Constant input: once a history holds nothing but one value, the filtered
/// value is that value, provided the copies add up without rounding.
pub proof fn lemma_constant_input(log: Seq<u32>, capacity: nat, value: u32)
    requires
        capacity >= 1,
        log.len() >= capacity,
        forall|i: int| log.len() - capacity <= i < log.len() ==> log[i] == value,
        adds_up_exactly(value, capacity),
    ensures
        held(log, capacity) == constant_run(value, capacity),
        mean(held(log, capacity)) == value,
{
    lemma_held_of_constant(log, capacity, value);
    lemma_total_of_constant(value, capacity);
    assert(nearest_magnitude(capacity * magnitude(value), 1) == capacity * magnitude(value));
    lemma_mean_of_exact_total(value, capacity);
}

/// Three times a significand that no longer fits 24 bits, rounded, and the
/// significand once more, round to four times the significand: the second
/// rounding makes up for the first.
proof fn lemma_three_then_one(m: nat)
    requires
        0x100_0000 <= 3 * m,
        m < 0x100_0000,
    ensures
        nearest_magnitude(3 * m, 1) <= 4 * m,
        nearest_magnitude(nearest_magnitude(3 * m, 1) + m, 1) == 4 * m,
{
    lemma2_to64();
    let e: nat = if 3 * m < 0x200_0000 {
        1
    } else {
        2
    };
    let u = pow2(e);
    lemma_pow2_adds(23, e);
    lemma_pow2_adds(24, e);
    lemma_surplus_of_binade(3 * m, e);
    assert((3 * m) / 1 == 3 * m);
    assert(1 * u == u);
    let k = nearest_integer(3 * m, u);
    let first = nearest_magnitude(3 * m, 1);
    assert(first == k * u);
    let y = first + m;
    if e == 1 {
        assert(u == 2);
        assert(4 * m - 1 <= y <= 4 * m + 1);
    } else {
        assert(u == 4);
        let q = (3 * m) / 4;
        let r = (3 * m) % 4;
        assert(3 * m == 4 * q + r && 0 <= r < 4);
        assert(k == if r == 3 || (r == 2 && q % 2 == 1) {
            q + 1
        } else {
            q
        });
        assert(first == 4 * k) by (nonlinear_arith)
            requires
                first == k * u,
                u == 4,
        ;
        assert(4 * m - 2 <= y <= 4 * m + 2);
        assert(y == 4 * m + 2 || y == 4 * m - 2 ==> m % 2 == 0);
    }
    let f: nat = if y < 0x200_0000 {
        1
    } else {
        2
    };
    lemma_pow2_adds(23, f);
    lemma_pow2_adds(24, f);
    lemma_surplus_of_binade(y, f);
    assert(y / 1 == y);
    assert(1 * pow2(f) == pow2(f));
    assert(pow2(f) == if f == 1 {
        2nat
    } else {
        4nat
    });
}

/// Constant input to the square history: once it holds nothing but one
/// finite value whose fourfold is finite too, the filtered value is that
/// value.
pub proof fn lemma_constant_square_input(log: Seq<u32>, value: u32)
    requires
        log.len() >= 4,
        forall|i: int| log.len() - 4 <= i < log.len() ==> log[i] == value,
        is_finite(value),
        4 * magnitude(value) < pow2(277),
    ensures
        mean(held(log, 4)) == value,
{
    let sign = negative(value);
    let m = significand(value);
    let x = scale(value);
    let size = magnitude(value);
    let c = pow2(x);
    lemma_held_of_constant(log, 4, value);
    lemma2_to64();
    lemma_pow2_pos(x);
    lemma_pow2_adds(1, x);
    lemma_pow2_adds(2, x);
    assert(2 * size == m * pow2(1 + x) && 4 * size == m * pow2(2 + x)) by (nonlinear_arith)
        requires
            size == m * c,
            pow2(1 + x) == 2 * c,
            pow2(2 + x) == 4 * c,
    ;
    lemma_nearest_of_multiple(m, x);
    lemma_nearest_of_multiple(m, 1 + x);
    lemma_nearest_of_multiple(m, 2 + x);
    assert(1 * size == size && 2 * size <= 4 * size && 3 * size <= 4 * size);
    if 3 * m < 0x100_0000 {
        assert(3 * size == (3 * m) * c) by (nonlinear_arith)
            requires
                size == m * c,
        ;
        lemma_nearest_of_multiple(3 * m, x);
        assert forall|times: nat| 1 <= times <= 4 implies nearest_magnitude(
            #[trigger] (times * size),
            1,
        ) == times * size by {
            assert(times == 1 || times == 2 || times == 3 || times == 4);
        }
        lemma_total_of_constant(value, 4);
    } else {
        // two copies add up exactly
        assert forall|times: nat| 1 <= times <= 2 implies nearest_magnitude(
            #[trigger] (times * size),
            1,
        ) == times * size by {
            assert(times == 1 || times == 2);
        }
        lemma_total_of_constant(value, 2);
        let two = constant_run(value, 2);
        let three = constant_run(value, 3);
        let four = constant_run(value, 4);
        assert(three.drop_last() =~= two);
        assert(four.drop_last() =~= three);
        lemma_magnitude_of_pattern(sign, m, 1 + x);
        let t2 = total(two);
        assert(magnitude(t2) == 2 * size && negative(t2) == sign && is_finite(t2));
        assert(size > 0) by (nonlinear_arith)
            requires
                size == m * c,
                m > 0,
                c > 0,
        ;
        // the third copy is rounded in
        lemma_three_then_one(m);
        let first = nearest_magnitude(3 * m, 1);
        assert((3 * m) / 1 == 3 * m);
        lemma_nearest_magnitude_scaled(3 * m, 1, x);
        assert(3 * size == (3 * m) * c) by (nonlinear_arith)
            requires
                size == m * c,
        ;
        let near3 = nearest_magnitude(3 * size, 1);
        assert(near3 == first * c);
        assert(near3 <= 4 * size) by (nonlinear_arith)
            requires
                near3 == first * c,
                first <= 4 * m,
                size == m * c,
                c > 0,
        ;
        let t3 = total(three);
        assert(t3 == pattern_of(sign, near3));
        let form = lemma_nearest_is_held(3 * size);
        lemma_magnitude_of_pattern(sign, form.0, form.1);
        assert(magnitude(t3) == near3 && negative(t3) == sign && is_finite(t3));
        // and the fourth makes the total exact again
        let y = first + m;
        assert(y / 1 == y);
        lemma_nearest_magnitude_scaled(y, 1, x);
        assert(near3 + size == y * c) by (nonlinear_arith)
            requires
                near3 == first * c,
                size == m * c,
                y == first + m,
        ;
        assert((4 * m) * c == 4 * size) by (nonlinear_arith)
            requires
                size == m * c,
        ;
        assert(nearest_magnitude(near3 + size, 1) == 4 * size);
        assert(near3 + size > 0);
        assert(total(four) == pattern_of(sign, 4 * size));
    }
    lemma_mean_of_exact_total(value, 4);
}

/// A value whose magnitude is `a * 2^x` with `count * a` below 2^24 adds up
/// `count` times without rounding, if the total stays finite.
pub proof fn lemma_spare_bits_add_up(value: u32, a: nat, x: nat, count: nat)
    requires
        is_finite(value),
        magnitude(value) == a * pow2(x),
        count * a < 0x100_0000,
        count * magnitude(value) < pow2(277),
    ensures
        adds_up_exactly(value, count),
{
    let size = magnitude(value);
    assert forall|times: nat| 1 <= times <= count implies nearest_magnitude(
        #[trigger] (times * size),
        1,
    ) == times * size by {
        assert(times * a <= count * a) by (nonlinear_arith)
            requires
                times <= count,
        ;
        assert(times * size == (times * a) * pow2(x)) by (nonlinear_arith)
            requires
                size == a * pow2(x),
        ;
        lemma_nearest_of_multiple(times * a, x);
    }
}

/// The smoothing state of both waveforms.
pub struct FilterStage {
    sine: HistoryBuffer<u32, 8>,
    square: HistoryBuffer<u32, 4>,
    sine_log: Ghost<Seq<u32>>,
    square_log: Ghost<Seq<u32>>,
}

/// Writing one more value moves the history as a write to the ring does.
proof fn lemma_held_after_write(log: Seq<u32>, capacity: nat, value: u32)
    requires
        capacity > 0,
    ensures
        ring_shape(held(log, capacity), log.len() % capacity, capacity),
        held(log.push(value), capacity) == ring_written(
            held(log, capacity),
            log.len() % capacity,
            capacity,
            value,
        ),
        ((log.len() + 1) as nat) % capacity == ring_advanced(log.len() % capacity, capacity),
{
    let n = log.len() as int;
    let c = capacity as int;
    let after = log.push(value);
    lemma_fundamental_div_mod(n, c);
    lemma_mod_pos_bound(n, c);
    let cursor = n % c;
    if n < c {
        lemma_small_mod(n as nat, capacity);
    }
    // the cursor after the write
    if cursor + 1 == c {
        assert(n + 1 == (n / c + 1) * c + 0) by (nonlinear_arith)
            requires
                n == c * (n / c) + cursor,
                cursor + 1 == c,
        ;
        lemma_fundamental_div_mod_converse(n + 1, c, n / c + 1, 0);
    } else {
        assert(n + 1 == (n / c) * c + (cursor + 1)) by (nonlinear_arith)
            requires
                n == c * (n / c) + cursor,
        ;
        lemma_fundamental_div_mod_converse(
            n + 1,
            c,
            n / c,
            cursor + 1,
        );
    }
    let expected = ring_written(held(log, capacity), log.len() % capacity, capacity, value);
    assert(held(after, capacity).len() == expected.len());
    assert forall|slot: int| 0 <= slot < expected.len() implies held(after, capacity)[slot]
        == expected[slot] by {
        let after_source = slot_source((n + 1) as nat, capacity, slot as nat) as int;
        if slot == cursor {
            // the new value lands here: n - slot is a whole number of turns
            assert(n - slot == (n / c) * c + 0) by (nonlinear_arith)
                requires
                    n == c * (n / c) + slot,
            ;
            lemma_fundamental_div_mod_converse(
                n - slot,
                c,
                n / c,
                0,
            );
            assert(after_source == n) by (nonlinear_arith)
                requires
                    after_source == slot + c * (n / c),
                    n == c * (n / c) + slot,
            ;
        } else {
            // n - slot is not a whole number of turns, so the slot keeps its value
            let before_source = slot_source(n as nat, capacity, slot as nat) as int;
            let turns = (n - 1 - slot) / c;
            let left = (n - 1 - slot) % c;
            lemma_fundamental_div_mod(n - 1 - slot, c);
            lemma_mod_pos_bound(n - 1 - slot, c);
            if left + 1 == c {
                // then n - slot would be a whole number of turns
                assert(n - slot == c * (turns + 1)) by (nonlinear_arith)
                    requires
                        n - 1 - slot == c * turns + left,
                        left + 1 == c,
                ;
                assert(n == (turns + 1) * c + slot) by (nonlinear_arith)
                    requires
                        n - slot == c * (turns + 1),
                ;
                lemma_fundamental_div_mod_converse(
                    n,
                    c,
                    turns + 1,
                    slot,
                );
                assert(false);
            }
            assert(n - slot == turns * c + (left + 1)) by (nonlinear_arith)
                requires
                    n - 1 - slot == c * turns + left,
            ;
            lemma_fundamental_div_mod_converse(
                n - slot,
                c,
                turns,
                left + 1,
            );
            assert(after_source == before_source);
            assert(before_source < n) by (nonlinear_arith)
                requires
                    before_source == slot + c * turns,
                    n - 1 - slot == c * turns + left,
                    left >= 0,
            ;
        }
    }
    assert(held(after, capacity) =~= expected);
}

impl FilterStage {
    /// The histories hold what the values taken so far leave in them.
    pub closed spec fn wf(&self) -> bool {
        &&& sine_slots(self.sine) == held(self.sine_log@, 8)
        &&& sine_cursor(self.sine) == self.sine_log@.len() % 8
        &&& square_slots(self.square) == held(self.square_log@, 4)
        &&& square_cursor(self.square) == self.square_log@.len() % 4
    }

    /// Every raw value of a waveform that the stage has taken, oldest first.
    pub closed spec fn history(&self, kind: SignalKind) -> Seq<u32> {
        match kind {
            SignalKind::Sine => self.sine_log@,
            SignalKind::Square => self.square_log@,
        }
    }

    /// A stage that has taken no sample.
    pub fn new() -> (stage: FilterStage)
        ensures
            stage.wf(),
            stage.history(SignalKind::Sine) == Seq::<u32>::empty(),
            stage.history(SignalKind::Square) == Seq::<u32>::empty(),
    {
        let stage = FilterStage {
            sine: sine_history_new(),
            square: square_history_new(),
            sine_log: Ghost(Seq::empty()),
            square_log: Ghost(Seq::empty()),
        };
        proof {
            assert(held(Seq::<u32>::empty(), 8) =~= Seq::<u32>::empty());
            assert(held(Seq::<u32>::empty(), 4) =~= Seq::<u32>::empty());
        }
        stage
    }

    /// Takes one raw sample: writes it into the history of its waveform,
    /// which forgets its oldest value once it is full, and pairs the sample
    /// with the mean of what that history then holds. The other waveform's
    /// history is left alone. Until the history is full, the mean is that of
    /// all values of the waveform so far, divided by their number.
    pub fn process(&mut self, sample: RawSample) -> (out: PublishedSample)
        requires
            old(self).wf(),
        ensures
            final(self).wf(),
            final(self).history(sample.spec_kind()) == old(self).history(sample.spec_kind()).push(
                sample.spec_value(),
            ),
            forall|kind: SignalKind|
                kind != sample.spec_kind() ==> final(self).history(kind) == old(self).history(kind),
            out.spec_kind() == sample.spec_kind(),
            out.spec_raw() == sample.spec_value(),
            out.spec_filtered() == mean(
                held(final(self).history(sample.spec_kind()), capacity_of(sample.spec_kind())),
            ),
            final(self).history(sample.spec_kind()).len() <= capacity_of(sample.spec_kind())
                ==> out.spec_filtered() == mean(final(self).history(sample.spec_kind())),
    {
        proof {
            let after = old(self).history(sample.spec_kind()).push(sample.spec_value());
            if after.len() <= capacity_of(sample.spec_kind()) {
                lemma_partial_fill(after, capacity_of(sample.spec_kind()));
            }
        }
        match sample {
            RawSample::Sine(value) => {
                proof {
                    lemma_held_after_write(self.sine_log@, 8, value);
                }
                sine_history_write(&mut self.sine, value);
                self.sine_log = Ghost(self.sine_log@.push(value));
                let values = sine_history_values(&self.sine);
                PublishedSample::Sine(value, average(&values))
            },
            RawSample::Square(value) => {
                proof {
                    lemma_held_after_write(self.square_log@, 4, value);
                }
                square_history_write(&mut self.square, value);
                self.square_log = Ghost(self.square_log@.push(value));
                let values = square_history_values(&self.square);
                PublishedSample::Square(value, average(&values))
            },
        }
    }
}

} // verus!

//! The review scheduler: a variant of SuperMemo 2.
//!
//! All quantities are whole numbers. A response quality is counted in
//! hundredths of a grade point, an easiness factor in millionths, an interval
//! in seconds. With these units the easiness update is exact integer
//! arithmetic: for a quality `q` and `miss = 500 - q`, the factor changes by
//! `100_000 - 800 * miss - 2 * miss * miss` millionths.

use vstd::prelude::*;

verus! {

/// The quality of a perfect response: five grade points.
pub const PERFECT_QUALITY: u16 = 500;

/// The lowest quality that counts as a successful recall: three grade points.
pub const PASSING_QUALITY: u16 = 300;

/// The easiness factor 1.0.
pub const E_FACTOR_UNIT: u64 = 1_000_000;

/// The floor of every easiness factor that the scheduler computes: 1.3.
pub const MIN_E_FACTOR: u64 = 1_300_000;

/// The easiness factor of an item that was never reviewed: 2.5.
pub const DEFAULT_E_FACTOR: u64 = 2_500_000;

/// The interval after a first review and after every failed one: ten minutes.
pub const RELEARN_INTERVAL: u64 = 600;

/// The interval after the second successful review in a row: one day.
pub const DAY: u64 = 86_400;

/// The scheduling state of one item, as unbounded numbers.
pub struct Schedule {
    /// How many reviews in a row have led to the present state.
    pub repetition: nat,
    /// Seconds between the last review and the next one.
    pub interval: nat,
    /// Easiness in millionths.
    pub e_factor: nat,
}

/// What a response of the given quality adds to the easiness factor.
pub open spec fn easiness_gain(quality: nat) -> int {
    let miss = PERFECT_QUALITY as int - quality as int;
    100_000 - 800 * miss - 2 * (miss * miss)
}

/// The easiness factor after a graded review on the long-term track.
pub open spec fn next_e_factor(e_factor: nat, quality: nat) -> nat {
    let raised = e_factor as int + easiness_gain(quality);
    if raised < MIN_E_FACTOR as int {
        MIN_E_FACTOR as nat
    } else {
        raised as nat
    }
}

/// An interval multiplied by an easiness factor, rounded down to seconds.
pub open spec fn scaled_interval(interval: nat, e_factor: nat) -> nat {
    (interval * e_factor) / (E_FACTOR_UNIT as nat)
}

/// The track a review runs on: a failed response falls back to track 0
/// whatever the repetition count was.
pub open spec fn effective_repetition(s: Schedule, quality: nat) -> nat {
    if quality < PASSING_QUALITY as nat {
        0
    } else {
        s.repetition
    }
}

/// The state that follows `s` after a response of the given quality.
pub open spec fn sm2_step(s: Schedule, quality: nat) -> Schedule {
    let track = effective_repetition(s, quality);
    if track == 0 {
        Schedule { repetition: 1, interval: RELEARN_INTERVAL as nat, e_factor: s.e_factor }
    } else if track == 1 {
        Schedule { repetition: 2, interval: DAY as nat, e_factor: s.e_factor }
    } else {
        let e_factor = next_e_factor(s.e_factor, quality);
        Schedule {
            repetition: track + 1,
            interval: scaled_interval(s.interval, e_factor),
            e_factor,
        }
    }
}

/// The state of an item that was never reviewed.
pub open spec fn new_schedule() -> Schedule {
    Schedule { repetition: 0, interval: 0, e_factor: DEFAULT_E_FACTOR as nat }
}

impl Schedule {
    /// Whether every component fits the machine integers of `SuperMemoItem`.
    pub open spec fn representable(self) -> bool {
        &&& self.repetition <= u32::MAX
        &&& self.interval <= u64::MAX
        &&& self.e_factor <= u64::MAX
    }
}

/// The scheduling state of one item.
#[derive(Clone, Copy, Debug, PartialEq, Eq)]
pub struct SuperMemoItem {
    /// How many reviews in a row have led to the present state.
    pub repetition: u32,
    /// Seconds between the last review and the next one.
    pub interval: u64,
    /// Easiness in millionths.
    pub e_factor: u64,
}

impl View for SuperMemoItem {
    type V = Schedule;

    open spec fn view(&self) -> Schedule {
        Schedule {
            repetition: self.repetition as nat,
            interval: self.interval as nat,
            e_factor: self.e_factor as nat,
        }
    }
}

impl Default for SuperMemoItem {
    fn default() -> (item: SuperMemoItem)
        ensures
            item@ == new_schedule(),
    {
        SuperMemoItem { repetition: 0, interval: 0, e_factor: DEFAULT_E_FACTOR }
    }
}

/// The product of two 64-bit numbers fits 128 bits.
proof fn lemma_product_fits(a: u64, b: u64)
    ensures
        0 <= (a as int) * (b as int) <= u128::MAX,
{
    assert(0 <= (a as int) * (b as int) <= 0xffff_ffff_ffff_ffff * 0xffff_ffff_ffff_ffff)
        by (nonlinear_arith)
        requires
            0 <= a as int <= 0xffff_ffff_ffff_ffff,
            0 <= b as int <= 0xffff_ffff_ffff_ffff,
    ;
}

/// The easiness factor that follows `e_factor` after a response of the given
/// quality, as a wide integer: the caller decides whether it fits.
fn raised_e_factor(e_factor: u64, quality: u16) -> (raised: u128)
    ensures
        raised == next_e_factor(e_factor as nat, quality as nat),
{
    let miss: i64 = PERFECT_QUALITY as i64 - quality as i64;
    assert(-65_035 <= miss <= 500);
    assert(0 <= miss * miss <= 65_035 * 65_035) by (nonlinear_arith)
        requires
            -65_035 <= miss <= 500,
    ;
    let square: i64 = miss * miss;
    let gain: i64 = 100_000 - 800 * miss - 2 * square;
    let raised: i128 = e_factor as i128 + gain as i128;
    if raised < MIN_E_FACTOR as i128 {
        MIN_E_FACTOR as u128
    } else {
        raised as u128
    }
}

/// The interval of `scaled_interval`, as a wide integer.
fn wide_scaled_interval(interval: u64, e_factor: u64) -> (scaled: u128)
    ensures
        scaled == scaled_interval(interval as nat, e_factor as nat),
{
    proof {
        lemma_product_fits(interval, e_factor);
    }
    let product: u128 = interval as u128 * e_factor as u128;
    product / (E_FACTOR_UNIT as u128)
}

impl SuperMemoItem {
    /// Whether the state after a response of the given quality fits the
    /// machine integers, which is what `super_memo_2` asks for.
    pub fn can_step(&self, response_quality: u16) -> (fits: bool)
        ensures
            fits == sm2_step(self@, response_quality as nat).representable(),
    {
        if response_quality < PASSING_QUALITY || self.repetition < 2 {
            true
        } else {
            let raised: u128 = raised_e_factor(self.e_factor, response_quality);
            if self.repetition == u32::MAX || raised > u64::MAX as u128 {
                false
            } else {
                let scaled: u128 = wide_scaled_interval(self.interval, raised as u64);
                scaled <= u64::MAX as u128
            }
        }
    }
}

/// One review: the state that follows `item` after a response of the given
/// quality, in hundredths of a grade point.
///
/// A response under three points sends the item back to the ten-minute
/// interval and leaves its easiness alone. Otherwise the first success after
/// that gives one day, and each later one multiplies the previous interval
/// by the updated easiness factor.
pub fn super_memo_2(item: SuperMemoItem, response_quality: u16) -> (next: SuperMemoItem)
    requires
        sm2_step(item@, response_quality as nat).representable(),
    ensures
        next@ == sm2_step(item@, response_quality as nat),
{
    let repetition: u32 = if response_quality < PASSING_QUALITY {
        0
    } else {
        item.repetition
    };
    if repetition == 0 {
        SuperMemoItem { repetition: 1, interval: RELEARN_INTERVAL, e_factor: item.e_factor }
    } else if repetition == 1 {
        SuperMemoItem { repetition: 2, interval: DAY, e_factor: item.e_factor }
    } else {
        let raised: u128 = raised_e_factor(item.e_factor, response_quality);
        let e_factor: u64 = raised as u64;
        let scaled: u128 = wide_scaled_interval(item.interval, e_factor);
        SuperMemoItem { repetition: repetition + 1, interval: scaled as u64, e_factor }
    }
}

/// The state after a run of reviews of a fresh item, one quality per review.
pub open spec fn schedule_after(qualities: Seq<nat>) -> Schedule
    decreases qualities.len(),
{
    if qualities.len() == 0 {
        new_schedule()
    } else {
        sm2_step(schedule_after(qualities.drop_last()), qualities.last())
    }
}

/// A failed response sends an item back to the first step: whatever its
/// state was, the repetition count becomes 1 and the interval ten minutes,
/// and the easiness factor stays as it was, neither raised nor reset.
pub proof fn law_lapse_restarts(s: Schedule, quality: nat)
    requires
        quality < PASSING_QUALITY,
    ensures
        sm2_step(s, quality) == (Schedule {
            repetition: 1,
            interval: RELEARN_INTERVAL as nat,
            e_factor: s.e_factor,
        }),
{
}

/// A step never takes the easiness factor under its floor: on the long-term
/// track the result is at least 1.3 whatever it was before, and on the two
/// short tracks it is unchanged.
pub proof fn law_e_factor_floor(s: Schedule, quality: nat)
    ensures
        effective_repetition(s, quality) >= 2 ==> sm2_step(s, quality).e_factor >= MIN_E_FACTOR,
        effective_repetition(s, quality) < 2 ==> sm2_step(s, quality).e_factor == s.e_factor,
{
}

/// With an easiness factor of at least 1.0 a scaled interval is no shorter
/// than the interval it was made from.
pub proof fn lemma_scaled_interval_grows(interval: nat, e_factor: nat)
    requires
        e_factor >= E_FACTOR_UNIT,
    ensures
        scaled_interval(interval, e_factor) >= interval,
{
    assert((interval * e_factor) / 1_000_000 >= interval) by (nonlinear_arith)
        requires
            e_factor >= 1_000_000,
    ;
}

/// A fresh item that is only ever answered with three points or more runs
/// through the intervals ten minutes, one day, and from then on the previous
/// interval times the updated easiness factor, rounded down to seconds,
/// which never shortens it: the third interval is one day times the factor
/// and so at least 1.3 days. After `n` reviews its repetition count is `n`,
/// and its easiness factor is at least 1.3 after every review.
pub proof fn law_successful_reviews(qualities: Seq<nat>)
    requires
        forall|i: int| 0 <= i < qualities.len() ==> qualities[i] >= PASSING_QUALITY,
    ensures
        schedule_after(qualities).repetition == qualities.len(),
        schedule_after(qualities).e_factor >= MIN_E_FACTOR,
        qualities.len() == 1 ==> schedule_after(qualities).interval == RELEARN_INTERVAL,
        qualities.len() == 2 ==> schedule_after(qualities).interval == DAY,
        qualities.len() == 3 ==> schedule_after(qualities).interval == scaled_interval(
            DAY as nat,
            schedule_after(qualities).e_factor,
        ) && schedule_after(qualities).interval >= 112_320,
        qualities.len() >= 3 ==> ({
            let before = schedule_after(qualities.drop_last());
            let after = schedule_after(qualities);
            &&& after.e_factor == next_e_factor(before.e_factor, qualities.last())
            &&& after.interval == scaled_interval(before.interval, after.e_factor)
            &&& after.interval >= before.interval
            &&& before.interval >= DAY
        }),
    decreases qualities.len(),
{
    if qualities.len() > 0 {
        let earlier = qualities.drop_last();
        law_successful_reviews(earlier);
        if qualities.len() >= 3 {
            let before = schedule_after(earlier);
            let after = schedule_after(qualities);
            if earlier.len() >= 3 {
                law_successful_reviews(earlier.drop_last());
            }
            lemma_scaled_interval_grows(before.interval, after.e_factor);
        }
    }
}

} // verus!

//! Mapping a fan speed in percent onto a PWM duty value.

use vstd::prelude::*;

verus! {

/// The duty for `percent`: off at zero, otherwise `min` plus the share
/// `percent / 100` of the span from `min` to `max`, rounded down.
pub open spec fn duty_of(min: nat, max: nat, percent: nat) -> nat {
    if percent == 0 {
        0
    } else {
        min + ((max - min) * percent) as nat / 100
    }
}

/// Maps a fan speed in percent to a duty value between `min` and `max`;
/// a speed of zero switches the fan off.
pub fn fan_duty(min: u32, max: u32, percent: u32) -> (r: u32)
    requires
        min <= max,
        percent <= 100,
        (max - min) * percent <= u32::MAX,
    ensures
        r == duty_of(min as nat, max as nat, percent as nat),
        percent > 0 ==> min <= r <= max,
{
    if percent == 0 {
        0
    } else {
        let span = max - min;
        assert(span * percent / 100 <= span) by (nonlinear_arith)
            requires
                percent <= 100,
        ;
        min + span * percent / 100
    }
}

} // verus!

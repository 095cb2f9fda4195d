//! What the numbers of an epoch timestamp look like.
use crate::analyze::stats;
use crate::analyze::stats::{Epoch, NumericStatsView, Share};
use crate::double;
use crate::double::Double;
use vstd::prelude::*;

verus! {

/// How many nanoseconds a unit has, as so many in a second.
pub open spec fn per_second(e: Epoch) -> int {
    match e {
        Epoch::Seconds => 1,
        Epoch::Millis => 1_000,
        Epoch::Micros => 1_000_000,
        Epoch::Nanos => 1_000_000_000,
    }
}

/// The window of every precision is the same time: from 978,307,200 seconds
/// to 3,000,000,000 seconds, counted in its unit.
pub proof fn law_windows_are_the_same_time(e: Epoch)
    ensures
        stats::epoch_window(e).0 == (Double {
            bits: double::bits_of_whole(978_307_200 * per_second(e)) as u64,
        }),
        stats::epoch_window(e).1 == (Double {
            bits: double::bits_of_whole(3_000_000_000 * per_second(e)) as u64,
        }),
{
    reveal_with_fuel(double::shifted_up, 30);
    assert(double::bits_of_whole(978_307_200) == 0x41cd_27e4_4000_0000);
    assert(double::bits_of_whole(3_000_000_000) == 0x41e6_5a0b_c000_0000);
    assert(double::bits_of_whole(978_307_200_000) == 0x426c_78f4_e680_0000);
    assert(double::bits_of_whole(3_000_000_000_000) == 0x4285_d3ef_7980_0000);
    assert(double::bits_of_whole(978_307_200_000_000) == 0x430b_ce1f_2919_0000);
    assert(double::bits_of_whole(3_000_000_000_000_000) == 0x4325_50f7_dca7_0000);
    assert(double::bits_of_whole(978_307_200_000_000_000) == 0x43ab_274a_6e22_6a00);
    assert(double::bits_of_whole(3_000_000_000_000_000_000) == 0x43c4_d112_0d7b_1600);
}

/// Numbers are taken for epoch values of a precision just where there are
/// eight or more, all of them whole and none of them negative, and where the
/// smallest and the largest lie in its window.
pub proof fn law_epoch_values_are_guessed(s: NumericStatsView, e: Epoch)
    requires
        s.min.le(s.max),
    ensures
        s.epoch_guess() == Some(e) <==> {
            &&& s.count >= 8
            &&& s.integer_valued == s.count
            &&& s.negative == 0
            &&& stats::epoch_window(e).0.le(s.min)
            &&& s.max.le(stats::epoch_window(e).1)
        },
{
    if s.within(e) {
        if s.within(Epoch::Seconds) {
            stats::law_epoch_windows_are_disjoint(s, e, Epoch::Seconds);
        }
        if s.within(Epoch::Millis) {
            stats::law_epoch_windows_are_disjoint(s, e, Epoch::Millis);
        }
        if s.within(Epoch::Micros) {
            stats::law_epoch_windows_are_disjoint(s, e, Epoch::Micros);
        }
        if s.within(Epoch::Nanos) {
            stats::law_epoch_windows_are_disjoint(s, e, Epoch::Nanos);
        }
    }
}

/// A share dominates where at most one in ten is left without it.
pub proof fn law_dominance_leaves_one_in_ten(part: u64, rest: u64)
    ensures
        ({
            let share = Share { part, total: (part + rest) as u128 };
            share.dominates() <==> part >= 9 * rest
        }),
{
}

} // verus!

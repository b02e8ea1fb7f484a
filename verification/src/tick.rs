//! Wrap-around tick arithmetic: ticks are `u8` counters that wrap at 256.
use vstd::prelude::*;

verus! {

/// `a` is more recent than `b` when it lies in the half of the tick circle
/// that follows `b`: at most 128 steps ahead of it.
pub open spec fn more_recent(a: u8, b: u8) -> bool {
    ||| (a > b && a - b <= 128)
    ||| (b > a && b - a > 128)
}

/// The tick that follows `t` on the circle of 256 ticks.
pub open spec fn next_tick_spec(t: u8) -> u8 {
    if t == 255 { 0 } else { (t + 1) as u8 }
}

/// Whether tick `a` is more recent than tick `b`, taking wrap-around into
/// account.
pub fn tick_is_more_recent(a: u8, b: u8) -> (r: bool)
    ensures
        r == more_recent(a, b),
{
    (a > b) && (a - b <= 128) || (b > a) && (b - a > 128)
}

/// No tick is more recent than itself.
pub proof fn lemma_more_recent_irreflexive(a: u8)
    ensures
        !more_recent(a, a),
{
}

/// Of two different ticks exactly one is the more recent one.
pub proof fn lemma_more_recent_total(a: u8, b: u8)
    requires
        a != b,
    ensures
        more_recent(a, b) != more_recent(b, a),
{
}

/// The tick after `t` is always more recent than `t`, also across the wrap.
pub proof fn lemma_next_tick_more_recent(t: u8)
    ensures
        more_recent(next_tick_spec(t), t),
{
}

/// Going forward by 1 to 127 ticks, with wrap-around, yields a more recent
/// tick.
pub proof fn lemma_forward_more_recent(t: u8, d: u8)
    requires
        1 <= d <= 127,
    ensures
        more_recent(((t + d) % 256) as u8, t),
{
    if t + d < 256 {
        assert((t + d) % 256 == t + d);
    } else {
        assert((t + d) % 256 == t + d - 256);
    }
}

} // verus!

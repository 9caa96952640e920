//! The blinking of file buttons and of the window count, counted in ticks.

use vstd::prelude::*;

verus! {

/// The length of a tick, in milliseconds.
pub const TICK_MS: u64 = 100;

/// For how long a blinking thing stays bright, and then dim, in milliseconds.
pub const BLINK_HALF_MS: u64 = 450;

/// The shortest time for which the window count blinks, in seconds.
pub const CAP_BLINK_MIN_S: u64 = 1;

/// The longest time for which the window count blinks, in seconds.
pub const CAP_BLINK_MAX_S: u64 = 10;

/// For how many ticks a blinking thing stays bright.
pub open spec fn half_ticks() -> int {
    (BLINK_HALF_MS / TICK_MS) as int
}

/// Whether a blinking thing is bright at a tick.
pub open spec fn bright_at(tick: int) -> bool {
    (tick / half_ticks()) % 2 == 0
}

/// For how long the window count blinks, in milliseconds: as long as a file counts as active, in
/// whole seconds from one to ten.
pub open spec fn cap_ms(active_seconds: int) -> int {
    1000 * (if active_seconds < CAP_BLINK_MIN_S {
        CAP_BLINK_MIN_S as int
    } else if active_seconds > CAP_BLINK_MAX_S {
        CAP_BLINK_MAX_S as int
    } else {
        active_seconds
    })
}

/// For how long the window count blinks, in milliseconds.
pub fn cap_blink_ms(active_seconds: i64) -> (r: u64)
    ensures
        r == cap_ms(active_seconds as int),
{
    let secs: u64 = if active_seconds < 1 {
        CAP_BLINK_MIN_S
    } else if active_seconds > 10 {
        CAP_BLINK_MAX_S
    } else {
        active_seconds as u64
    };
    secs * 1000
}

/// For how many ticks a blinking thing stays bright: as many as fit, but at least one.
pub fn blink_half_ticks() -> (r: u64)
    ensures
        r == half_ticks(),
        r >= 1,
{
    let t: u64 = BLINK_HALF_MS / TICK_MS;
    if t == 0 {
        1
    } else {
        t
    }
}

/// Whether a blinking thing is bright at a tick.
pub fn is_bright(tick: u64) -> (r: bool)
    ensures
        r == bright_at(tick as int),
{
    let half = blink_half_ticks();
    (tick / half) % 2 == 0
}

/// Whether the window count blinks at `now`: from the last time a window was refused, for
/// `duration`. A blink that would outlast the clock ends with it.
pub open spec fn blinks(start: Option<u64>, now: u64, duration: int) -> bool {
    start matches Some(s) && s <= now && now < s + duration && now < u64::MAX
}

/// Whether the window count blinks.
pub fn cap_blink_active(cap_blink_start_ms: Option<u64>, now_ms: u64, duration_ms: u64) -> (r: bool)
    ensures
        r == blinks(cap_blink_start_ms, now_ms, duration_ms as int),
{
    match cap_blink_start_ms {
        Some(start) => start <= now_ms && now_ms < start.saturating_add(duration_ms),
        None => false,
    }
}

// ---------------------------------------------------------------------------------------------
// Laws
// ---------------------------------------------------------------------------------------------

/// The phase starts bright.
pub proof fn phase_starts_bright(tick: int)
    requires
        0 <= tick < half_ticks(),
    ensures
        bright_at(tick),
{
}

/// The phase turns over after each half period.
pub proof fn phase_alternates(tick: int)
    requires
        0 <= tick,
    ensures
        bright_at(tick + half_ticks()) == !bright_at(tick),
        bright_at(tick + 2 * half_ticks()) == bright_at(tick),
{
    assert(half_ticks() == 4);
}

/// A blinking thing is bright for four ticks, then dim for four, and so on.
pub proof fn four_ticks_bright_four_ticks_dim(tick: int)
    requires
        0 <= tick,
    ensures
        bright_at(tick) == (tick % 8 < 4),
{
    assert(half_ticks() == 4);
    assert((tick / 4) % 2 == 0 <==> tick % 8 < 4);
}

/// The window count blinks from the moment a window was refused until its time is over, and the
/// time is that for which a file counts as active, but from one second to ten.
pub proof fn the_count_blinks_for_its_time(start: u64, now: u64, seconds: int)
    requires
        now < u64::MAX,
    ensures
        !blinks(None, now, cap_ms(seconds)),
        blinks(Some(start), now, cap_ms(seconds)) == (start <= now < start + cap_ms(seconds)),
        seconds <= 1 ==> cap_ms(seconds) == 1000,
        1 <= seconds <= 10 ==> cap_ms(seconds) == 1000 * seconds,
        seconds >= 10 ==> cap_ms(seconds) == 10_000,
{
}

} // verus!

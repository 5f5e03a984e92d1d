use vstd::prelude::*;
use crate::history::{History, Sample};

verus! {

/// Speed unit factor: a path in millionths of a count, at a sensitivity in
/// thousandths of a count per inch, over a window in microseconds, times this
/// factor and divided by sensitivity times window, is a speed in nanometres per
/// second (25.4e6 nm per inch, times 10^6 µs per s, times 10^3 for the
/// sensitivity's unit, over 10^6 for the path's unit).
pub const SPEED_SCALE: u128 = 25_400_000_000;

/// Microseconds in one second.
pub const MICROS_PER_SECOND: u64 = 1_000_000;

/// `r` is the integer square root of `n`, rounded down.
pub open spec fn is_floor_sqrt(n: nat, r: nat) -> bool {
    r * r <= n && n < (r + 1) * (r + 1)
}

/// The integer square root of `n`, rounded down.
pub open spec fn floor_sqrt(n: nat) -> nat {
    choose|r: nat| is_floor_sqrt(n, r)
}

/// Squared length of a motion `(dx, dy)`, in squared counts.
pub open spec fn squared_length(d: (i32, i32)) -> nat {
    (d.0 * d.0 + d.1 * d.1) as nat
}

/// Length of a motion in millionths of a count, rounded down:
/// `floor(10^6 * sqrt(dx² + dy²))`.
pub open spec fn step_micro(d: (i32, i32)) -> nat {
    floor_sqrt(squared_length(d) * 1_000_000_000_000)
}

/// Total path length of the motions in `s`, each rounded as `step_micro`.
pub open spec fn path_micro(s: Seq<Sample<(i32, i32)>>) -> nat
    decreases s.len(),
{
    if s.len() == 0 {
        0
    } else {
        path_micro(s.drop_last()) + step_micro(s.last().1)
    }
}

/// Speed in nanometres per second of a path of `path` millionths of a count,
/// covered in `window_us` microseconds by a device of `dpi_milli` thousandths
/// of a count per inch. Rounded up, so that any motion shows.
pub open spec fn speed_value(path: nat, dpi_milli: nat, window_us: nat) -> nat {
    let num = path * (SPEED_SCALE as nat);
    let den = dpi_milli * window_us;
    num / den + if num % den == 0 {
        0nat
    } else {
        1nat
    }
}

/// Speed over the motions `s`: zero where there are none.
pub open spec fn speed_of(s: Seq<Sample<(i32, i32)>>, dpi_milli: nat, window_us: nat) -> nat {
    if s.len() == 0 {
        0
    } else {
        speed_value(path_micro(s), dpi_milli, window_us)
    }
}

/// Events per second, rounded to the nearest (halves up), of `count` events
/// seen in `interval_us` microseconds.
pub open spec fn rate_value(count: nat, interval_us: nat) -> nat {
    (count * (MICROS_PER_SECOND as nat) + interval_us / 2) / interval_us
}

proof fn lemma_floor_sqrt_unique(n: nat, r: nat, q: nat)
    requires
        is_floor_sqrt(n, r),
        is_floor_sqrt(n, q),
    ensures
        r == q,
{
    if r < q {
        assert((r + 1) * (r + 1) <= q * q) by (nonlinear_arith)
            requires
                r + 1 <= q,
        ;
    } else if q < r {
        assert((q + 1) * (q + 1) <= r * r) by (nonlinear_arith)
            requires
                q + 1 <= r,
        ;
    }
}

/// Bound above which `floor_sqrt_of` is not asked to work.
pub const SQRT_LIMIT: u128 = 0x100_0000_0000_0000_0000_0000_0000;

/// Integer square root, rounded down, by bisection.
pub fn floor_sqrt_of(n: u128) -> (r: u128)
    requires
        n < SQRT_LIMIT,
    ensures
        r == floor_sqrt(n as nat),
        is_floor_sqrt(n as nat, r as nat),
        r < 0x10_0000_0000_0000,
{
    let mut lo: u128 = 0;
    let mut hi: u128 = 0x10_0000_0000_0000;
    assert(0x10_0000_0000_0000 * 0x10_0000_0000_0000 == SQRT_LIMIT);
    while hi - lo > 1
        invariant
            lo < hi <= 0x10_0000_0000_0000,
            lo * lo <= n,
            n < hi * hi,
        decreases hi - lo,
    {
        let mid = lo + (hi - lo) / 2;
        assert(mid * mid < 0x10_0000_0000_0000 * 0x10_0000_0000_0000) by (nonlinear_arith)
            requires
                mid < 0x10_0000_0000_0000,
        ;
        if mid * mid <= n {
            lo = mid;
        } else {
            hi = mid;
        }
    }
    proof {
        assert(is_floor_sqrt(n as nat, lo as nat));
        lemma_floor_sqrt_unique(n as nat, lo as nat, floor_sqrt(n as nat));
    }
    lo
}

/// Length of the motion `(dx, dy)` in millionths of a count, rounded down.
pub fn step_length_micro(dx: i32, dy: i32) -> (r: u128)
    ensures
        r == step_micro((dx, dy)),
        (dx, dy) != (0i32, 0i32) ==> r >= 1,
        r < 0x10_0000_0000_0000,
{
    let x = dx as i128;
    let y = dy as i128;
    assert(x * x <= 0x4000_0000_0000_0000) by (nonlinear_arith)
        requires
            -0x8000_0000 <= x <= 0x7fff_ffff,
    ;
    assert(y * y <= 0x4000_0000_0000_0000) by (nonlinear_arith)
        requires
            -0x8000_0000 <= y <= 0x7fff_ffff,
    ;
    assert(x * x >= 0 && y * y >= 0) by (nonlinear_arith);
    assert(x != 0 ==> x * x >= 1) by (nonlinear_arith);
    assert(y != 0 ==> y * y >= 1) by (nonlinear_arith);
    let sq = (x * x + y * y) as u128;
    assert(sq * 1_000_000_000_000 < SQRT_LIMIT);
    let r = floor_sqrt_of(sq * 1_000_000_000_000);
    proof {
        if dx != 0 || dy != 0 {
            assert(sq >= 1);
            assert(r * r <= sq * 1_000_000_000_000 < (r + 1) * (r + 1));
            if r == 0 {
                assert((r + 1) * (r + 1) == 1) by (nonlinear_arith)
                    requires
                        r == 0,
                ;
            }
        }
    }
    r
}

/// Events per second, rounded down, for `count` events over `interval_us` microseconds.
pub fn rate_per_second(count: u64, interval_us: u64) -> (r: u128)
    requires
        interval_us > 0,
    ensures
        r == rate_value(count as nat, interval_us as nat),
{
    assert(count * MICROS_PER_SECOND <= u64::MAX * 1_000_000) by (nonlinear_arith)
        requires
            count <= u64::MAX,
    ;
    (count as u128 * MICROS_PER_SECOND as u128 + (interval_us / 2) as u128) / (interval_us as u128)
}

/// Speed in nanometres per second over the motions held in `events`, taken
/// as covered in `window_us` microseconds at `dpi_milli` thousandths of a
/// count per inch. Zero where `events` is empty; positive where any of them moved.
pub fn estimate_speed(events: &History<(i32, i32)>, dpi_milli: u64, window_us: u64) -> (r: u128)
    requires
        events.wf(),
        dpi_milli > 0,
        window_us > 0,
    ensures
        r == speed_of(events@, dpi_milli as nat, window_us as nat),
        (exists|j: int| 0 <= j < events@.len() && (#[trigger] events@[j]).1 != (0i32, 0i32))
            ==> r > 0,
{
    let n = events.len();
    if n == 0 {
        return 0;
    }
    let mut total: u128 = 0;
    let mut i: usize = 0;
    while i < n
        invariant
            events.wf(),
            n == events@.len(),
            i <= n,
            total == path_micro(events@.take(i as int)),
            total <= i * 0x10_0000_0000_0000,
            (exists|j: int| 0 <= j < i && (#[trigger] events@[j]).1 != (0i32, 0i32)) ==> total
                >= 1,
        decreases n - i,
    {
        let e = events.get(i);
        let step = step_length_micro(e.1.0, e.1.1);
        proof {
            assert(events@.take(i + 1).drop_last() =~= events@.take(i as int));
        }
        total = total + step;
        i = i + 1;
    }
    proof {
        assert(events@.take(n as int) =~= events@);
    }
    assert(total * SPEED_SCALE <= 1000 * 0x10_0000_0000_0000 * 25_400_000_000) by (nonlinear_arith)
        requires
            total <= 1000 * 0x10_0000_0000_0000,
    ;
    assert(dpi_milli * window_us <= u64::MAX * u64::MAX) by (nonlinear_arith)
        requires
            dpi_milli <= u64::MAX,
            window_us <= u64::MAX,
    ;
    assert(dpi_milli * window_us > 0) by (nonlinear_arith)
        requires
            dpi_milli > 0,
            window_us > 0,
    ;
    let num = total * SPEED_SCALE;
    let den = dpi_milli as u128 * window_us as u128;
    proof {
        if total >= 1 {
            assert(num >= 1);
            if num / den == 0 {
                assert(num % den != 0) by (nonlinear_arith)
                    requires
                        num >= 1,
                        den > 0,
                        num / den == 0,
                ;
            }
        }
    }
    if num % den == 0 {
        num / den
    } else {
        num / den + 1
    }
}

} // verus!

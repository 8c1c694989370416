//! Time integration of one oscillating source between reflecting bounds.
use vstd::prelude::*;

verus! {

/// Number of position units in the unit interval: positions are fixed-point
/// values with this many steps between the two bounds.
pub const POSITION_SCALE: i64 = 1_048_576;

/// Lower bound of the domain, in position units.
pub const BOUNDARY_LEFT: i64 = 0;

/// Upper bound of the domain, in position units.
pub const BOUNDARY_RIGHT: i64 = 1_048_576;

/// Largest magnitude a position, or a displacement over one step, may have
/// (two to the 61st): sums and differences of two such values fit in `i64`.
pub const COORD_LIMIT: i64 = 0x2000_0000_0000_0000;

/// Mirror image of a position about the middle of the domain.
pub open spec fn mirrored(x: int) -> int {
    BOUNDARY_LEFT + BOUNDARY_RIGHT - x
}

/// Position and velocity after one step of length `dt`, for a source at `p`
/// moving with velocity `v`: move by `dt * v`; on crossing a bound, turn the
/// velocity around and restart the step from that bound, so that the
/// overshoot reappears as an equal undershoot on the inner side.
pub open spec fn advanced(dt: int, p: int, v: int) -> (int, int) {
    let moved = p + dt * v;
    if moved > BOUNDARY_RIGHT {
        (BOUNDARY_RIGHT + dt * (-v), -v)
    } else if moved < BOUNDARY_LEFT {
        (BOUNDARY_LEFT + dt * (-v), -v)
    } else {
        (moved, v)
    }
}

/// Inputs on which one step can be computed in `i64`.
pub open spec fn step_in_range(dt: int, p: int, v: int) -> bool {
    &&& -COORD_LIMIT <= p <= COORD_LIMIT
    &&& -COORD_LIMIT <= dt * v <= COORD_LIMIT
}

/// Advances a source by one time step of `time_interval` ticks, `speed` being
/// in position units per tick, with reflection at both bounds.
pub fn update_wave(time_interval: i64, position: &mut i64, speed: &mut i64)
    requires
        time_interval > 0,
        step_in_range(time_interval as int, *old(position) as int, *old(speed) as int),
    ensures
        (*final(position) as int, *final(speed) as int) == advanced(
            time_interval as int,
            *old(position) as int,
            *old(speed) as int,
        ),
{
    let dt = time_interval;
    let ghost v0 = *speed as int;
    assert(-COORD_LIMIT <= dt * v0 <= COORD_LIMIT);
    assert(-COORD_LIMIT <= v0 <= COORD_LIMIT) by (nonlinear_arith)
        requires
            -COORD_LIMIT <= dt * v0 <= COORD_LIMIT,
            dt > 0,
    ;
    let step: i64 = dt * *speed;
    *position = *position + step;
    if *position > BOUNDARY_RIGHT {
        *speed = -*speed;
        proof {
            assert(dt * (-v0) == -(dt * v0)) by (nonlinear_arith);
        }
        *position = BOUNDARY_RIGHT + dt * *speed;
    } else if *position < BOUNDARY_LEFT {
        *speed = -*speed;
        proof {
            assert(dt * (-v0) == -(dt * v0)) by (nonlinear_arith);
        }
        *position = BOUNDARY_LEFT + dt * *speed;
    }
}

/// A source that starts inside the domain and moves at most one domain width
/// in a step stays inside the domain after that step.
pub proof fn lemma_step_stays_in_bounds(dt: int, p: int, v: int)
    requires
        dt > 0,
        BOUNDARY_LEFT <= p <= BOUNDARY_RIGHT,
        -(BOUNDARY_RIGHT - BOUNDARY_LEFT) <= dt * v <= BOUNDARY_RIGHT - BOUNDARY_LEFT,
    ensures
        BOUNDARY_LEFT <= advanced(dt, p, v).0 <= BOUNDARY_RIGHT,
{
    assert(dt * (-v) == -(dt * v)) by (nonlinear_arith);
}

/// The boundary rule is mirror-symmetric: stepping the mirror image of a
/// source, with its velocity reversed, gives the mirror image of the stepped
/// source, with its velocity reversed.
pub proof fn lemma_step_mirror_symmetric(dt: int, p: int, v: int)
    ensures
        advanced(dt, mirrored(p), -v) == (
            mirrored(advanced(dt, p, v).0),
            -advanced(dt, p, v).1,
        ),
{
    assert(dt * (-v) == -(dt * v)) by (nonlinear_arith);
    assert(dt * (-(-v)) == dt * v) by (nonlinear_arith);
}

} // verus!

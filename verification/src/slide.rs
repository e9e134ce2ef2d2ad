use vstd::prelude::*;

verus! {

/// Lowest legal wall position: half of the tank's half-width, in millionths.
pub const SLIDE_MIN: i64 = 500000;

/// Highest legal wall position: the full half-width, in millionths.
pub const SLIDE_MAX: i64 = 1000000;

/// Advances the moving wall of the slide scene by one step and reflects it
/// at the ends of its track.
///
/// The wall position is a fraction of the tank's half-width held in
/// millionths, so `SLIDE_MIN` stands for 0.5 and `SLIDE_MAX` for 1.0;
/// `dir` is the travel direction and `step` the distance covered during the
/// time step. The wall first moves by `dir * step`; if it overshoots
/// `SLIDE_MAX` it is reflected to `2 * SLIDE_MAX - moved` and turned
/// around, and if it undershoots `SLIDE_MIN` it is reflected to
/// `2 * SLIDE_MIN - moved` and turned around. A step no longer than the
/// track keeps the position on the track.
pub fn advance_slide(pos: i64, dir: i64, step: i64) -> (r: (i64, i64))
    requires
        SLIDE_MIN <= pos <= SLIDE_MAX,
        dir == 1 || dir == -1,
        0 <= step <= SLIDE_MAX - SLIDE_MIN,
    ensures
        ({
            let moved = pos + dir * step;
            if moved > SLIDE_MAX {
                r.0 == 2 * SLIDE_MAX - moved && r.1 == -1
            } else if moved < SLIDE_MIN {
                r.0 == 2 * SLIDE_MIN - moved && r.1 == 1
            } else {
                r.0 == moved && r.1 == dir
            }
        }),
        SLIDE_MIN <= r.0 <= SLIDE_MAX,
        r.1 == 1 || r.1 == -1,
{
    proof {
        if dir == 1 {
            assert(dir * step == step) by (nonlinear_arith)
                requires
                    dir == 1,
            ;
        } else {
            assert(dir * step == -step) by (nonlinear_arith)
                requires
                    dir == -1,
            ;
        }
    }
    let moved = pos + dir * step;
    if moved > SLIDE_MAX {
        (2 * SLIDE_MAX - moved, -1)
    } else if moved < SLIDE_MIN {
        (2 * SLIDE_MIN - moved, 1)
    } else {
        (moved, dir)
    }
}

} // verus!

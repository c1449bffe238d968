//! Exact display geometry for renderers.
//!
//! Renderers place a cell's marker in the middle of its annulus and of its
//! angular span. The radius and angle of that midpoint are computed here
//! exactly — projecting them to screen coordinates is the renderer's own,
//! inexact business.

use vstd::prelude::*;

verus! {

use crate::building_blocks::{
    Angle, CircleCoordinate, calc_total_arcs, cells_in_ring, ring_ok, spec_gcd,
};

/// Screen distance between two neighbouring circles.
pub const CIRCLE_RADIUS_STEP: usize = 10;

/// Half of [`CIRCLE_RADIUS_STEP`]: the radial offset of a cell's midpoint.
pub const HALF_RADIUS_STEP: usize = 5;

/// The display radius of a cell's midpoint: the apex sits at the center,
/// any other cell halfway between its two bounding circles.
pub fn calc_display_radius(circle: usize) -> (r: usize)
    requires
        circle * CIRCLE_RADIUS_STEP + HALF_RADIUS_STEP <= usize::MAX,
    ensures
        r == if circle == 0 {
            0usize
        } else {
            (circle * CIRCLE_RADIUS_STEP + HALF_RADIUS_STEP) as usize
        },
{
    if circle == 0 {
        0
    } else {
        circle * CIRCLE_RADIUS_STEP + HALF_RADIUS_STEP
    }
}

/// The canonical reduced angle of a cell's angular midpoint on a circle
/// with `cells` arcs: `(2 * arc_index + 1) * (360 / (2 * cells))` degrees.
pub open spec fn display_angle(arc_index: nat, cells: nat) -> Angle {
    let n = (2 * arc_index + 1) * 360;
    let d = 2 * cells;
    let g = spec_gcd(n, d);
    Angle { num: (n / g) as u64, den: (d / g) as u64 }
}

/// The display angle of a cell's midpoint: the apex keeps its own angle,
/// any other cell gets its starting angle plus half an arc step.
pub fn calc_display_angle(coord: &CircleCoordinate) -> (r: Angle)
    requires
        coord.valid(),
    ensures
        coord.circle == 0 ==> r == coord.angle,
        coord.circle != 0 ==> r == display_angle(
            coord.arc_index as nat,
            cells_in_ring(coord.circle as nat),
        ),
        r.den >= 1,
{
    if coord.circle() == 0 {
        *coord.angle()
    } else {
        let cells: usize = calc_total_arcs(coord.circle());
        let n: u64 = (2 * (coord.arc_index() as u64) + 1) * 360;
        let d: u64 = 2 * (cells as u64);
        Angle::new(n, d)
    }
}

} // verus!

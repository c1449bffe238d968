//! Cell coordinates on concentric circles.
//!
//! A maze location is addressed by a circle index and an arc index on that
//! circle. Each circle is divided into `6 * pow2_floor(circle)` arcs, so the
//! subdivision doubles at every power-of-two circle and each arc's angular
//! width always divides the width used on the circle below. Angles are kept
//! as exact rationals (degrees) so that moving between circles preserves the
//! angle bit for bit.

use vstd::prelude::*;

verus! {

use vstd::arithmetic::div_mod::{
    lemma_fundamental_div_mod, lemma_mod_self_0,
    lemma_small_mod, lemma_add_mod_noop, lemma_mod_multiples_basic,
};
use vstd::arithmetic::mul::{lemma_mul_is_associative, lemma_mul_is_commutative};

/// Number of arcs on the innermost circle: six arcs of 60 degrees, the
/// first divisor of the full circle for which an arc is longer than the
/// circle's radius.
pub const ARCS_FIRST_CIRCLE: usize = 6;

/// Largest arc count a circle may have; keeps every arc count and every
/// angle numerator comfortably inside the machine integer types.
pub const MAX_RING_CELLS: usize = 0x4000_0000;

/// Largest power of two that does not exceed `n`, with `pow2_floor(0) == 1`.
pub open spec fn pow2_floor(n: nat) -> nat
    decreases n,
{
    if n < 2 {
        1
    } else {
        2 * pow2_floor(n / 2)
    }
}

/// Number of cells (arcs) on the given circle.
pub open spec fn cells_in_ring(circle: nat) -> nat {
    (ARCS_FIRST_CIRCLE as nat) * pow2_floor(circle)
}

/// The circle's arc count stays within the supported machine range.
pub open spec fn ring_ok(circle: nat) -> bool {
    cells_in_ring(circle) <= MAX_RING_CELLS
}

pub proof fn lemma_pow2_floor_pos(n: nat)
    ensures
        pow2_floor(n) >= 1,
    decreases n,
{
    if n >= 2 {
        lemma_pow2_floor_pos(n / 2);
    }
}

pub proof fn lemma_pow2_floor_bounds(n: nat)
    requires
        n >= 1,
    ensures
        pow2_floor(n) <= n,
        2 * pow2_floor(n) > n,
    decreases n,
{
    if n >= 2 {
        lemma_pow2_floor_bounds(n / 2);
    }
}

pub proof fn lemma_pow2_floor_mono(a: nat, b: nat)
    requires
        a <= b,
    ensures
        pow2_floor(a) <= pow2_floor(b),
    decreases b,
{
    if a < 2 {
        lemma_pow2_floor_pos(b);
    } else {
        lemma_pow2_floor_mono(a / 2, b / 2);
    }
}

/// Arc counts never shrink when moving outward, and at most double.
pub proof fn lemma_cells_step(circle: nat)
    ensures
        cells_in_ring(circle + 1) == cells_in_ring(circle) || cells_in_ring(circle + 1) == 2
            * cells_in_ring(circle),
        cells_in_ring(circle) <= cells_in_ring(circle + 1),
    decreases circle,
{
    if circle == 0 {
    } else if circle == 1 {
    } else {
        if circle % 2 == 0 {
            assert((circle + 1) / 2 == circle / 2);
        } else {
            assert((circle + 1) / 2 == circle / 2 + 1);
            lemma_cells_step(circle / 2);
        }
    }
}

pub proof fn lemma_cells_mono(a: nat, b: nat)
    requires
        a <= b,
    ensures
        cells_in_ring(a) <= cells_in_ring(b),
{
    lemma_pow2_floor_mono(a, b);
}

/// Greatest common divisor by Euclid's algorithm.
pub open spec fn spec_gcd(a: nat, b: nat) -> nat
    decreases b,
{
    if b == 0 {
        a
    } else {
        spec_gcd(b, a % b)
    }
}

/// The gcd of two numbers, at least one positive, is positive and divides
/// both of them.
pub proof fn lemma_gcd_divides(a: nat, b: nat)
    requires
        a > 0 || b > 0,
    ensures
        spec_gcd(a, b) >= 1,
        a % spec_gcd(a, b) == 0,
        b % spec_gcd(a, b) == 0,
    decreases b,
{
    let g = spec_gcd(a, b);
    if b == 0 {
        lemma_mod_self_0(a as int);
        lemma_small_mod(0, a);
    } else {
        lemma_gcd_divides(b, a % b);
        // g >= 1, b % g == 0, (a % b) % g == 0; show a % g == 0.
        lemma_fundamental_div_mod(a as int, b as int);
        let q = a as int / b as int;
        let r = (a % b) as int;
        lemma_fundamental_div_mod(b as int, g as int);
        let kb = b as int / g as int;
        lemma_fundamental_div_mod(r, g as int);
        let kr = r / g as int;
        assert(b as int == g as int * kb);
        assert(r == g as int * kr);
        assert(a as int == b as int * q + r);
        assert(b as int * q == (g as int * kb) * q);
        lemma_mul_is_associative(g as int, kb, q);
        assert(a as int == g as int * (kb * q) + g as int * kr);
        assert(a as int == g as int * (kb * q + kr)) by (nonlinear_arith)
            requires
                a as int == g as int * (kb * q) + g as int * kr,
        ;
        lemma_mul_is_commutative(g as int, kb * q + kr);
        lemma_mod_multiples_basic(kb * q + kr, g as int);
    }
}

fn gcd_u64(a: u64, b: u64) -> (r: u64)
    ensures
        r as nat == spec_gcd(a as nat, b as nat),
    decreases b,
{
    if b == 0 {
        a
    } else {
        gcd_u64(b, a % b)
    }
}

/// An exact angle in degrees, as a rational `num / den`.
///
/// Construction through [`Angle::new`] always reduces to lowest terms, so
/// equal angle values built that way compare equal structurally.
#[derive(Clone, Copy, PartialEq, Eq, Structural, Debug)]
pub struct Angle {
    pub num: u64,
    pub den: u64,
}

impl Angle {
    /// Build `num / den` reduced to lowest terms.
    pub fn new(num: u64, den: u64) -> (r: Angle)
        requires
            den >= 1,
        ensures
            r.num as nat == num as nat / spec_gcd(num as nat, den as nat),
            r.den as nat == den as nat / spec_gcd(num as nat, den as nat),
            r.den >= 1,
            r.num as nat * den as nat == num as nat * r.den as nat,
    {
        let g: u64 = gcd_u64(num, den);
        proof {
            lemma_gcd_divides(num as nat, den as nat);
            let gn = spec_gcd(num as nat, den as nat);
            lemma_fundamental_div_mod(num as int, gn as int);
            lemma_fundamental_div_mod(den as int, gn as int);
            assert(num as int == gn as int * (num as int / gn as int));
            assert(den as int == gn as int * (den as int / gn as int));
            assert(den as int / gn as int >= 1) by (nonlinear_arith)
                requires
                    den as int == gn as int * (den as int / gn as int),
                    den >= 1,
                    gn >= 1,
            ;
            assert((num as int / gn as int) * den as int == num as int * (den as int / gn as int))
                by (nonlinear_arith)
                requires
                    num as int == gn as int * (num as int / gn as int),
                    den as int == gn as int * (den as int / gn as int),
                    gn >= 1,
            ;
        }
        Angle { num: num / g, den: den / g }
    }

    /// The two angles denote the same number of degrees.
    pub open spec fn same_value(self, other: Angle) -> bool {
        self.num as nat * other.den as nat == other.num as nat * self.den as nat
    }

    /// Numerator of the reduced fraction.
    pub fn numer(&self) -> (r: u64)
        ensures
            r == self.num,
    {
        self.num
    }

    /// Denominator of the reduced fraction.
    pub fn denom(&self) -> (r: u64)
        ensures
            r == self.den,
    {
        self.den
    }
}

/// The canonical (reduced) angle of arc `arc_index` on a circle with
/// `cells` arcs: `arc_index * 360 / cells` degrees in lowest terms.
pub open spec fn index_angle(arc_index: nat, cells: nat) -> Angle {
    let n = arc_index * 360;
    let g = spec_gcd(n, cells);
    Angle { num: (n / g) as u64, den: (cells / g) as u64 }
}

/// The canonical angle satisfies the coordinate angle equation and has a
/// positive denominator.
pub proof fn lemma_index_angle_valid(arc_index: nat, cells: nat)
    requires
        cells >= 1,
        arc_index * 360 <= u64::MAX,
        cells <= u64::MAX,
    ensures
        index_angle(arc_index, cells).den >= 1,
        index_angle(arc_index, cells).num as nat * cells == arc_index * 360 * (index_angle(
            arc_index,
            cells,
        ).den as nat),
{
    let n = arc_index * 360;
    let g = spec_gcd(n, cells);
    lemma_gcd_divides(n, cells);
    lemma_fundamental_div_mod(n as int, g as int);
    lemma_fundamental_div_mod(cells as int, g as int);
    assert(n as int == g as int * (n as int / g as int));
    assert(cells as int == g as int * (cells as int / g as int));
    assert(cells as int / g as int >= 1) by (nonlinear_arith)
        requires
            cells as int == g as int * (cells as int / g as int),
            cells >= 1,
            g >= 1,
    ;
    assert(n as int / g as int <= n as int) by (nonlinear_arith)
        requires
            n as int == g as int * (n as int / g as int),
            g >= 1,
            n >= 0,
    ;
    assert((n as int / g as int) * cells as int == n as int * (cells as int / g as int))
        by (nonlinear_arith)
        requires
            n as int == g as int * (n as int / g as int),
            cells as int == g as int * (cells as int / g as int),
            g >= 1,
    ;
}

/// A cell address: a circle index and an arc index on that circle, together
/// with the arc's exact starting angle.
///
/// Equality compares only `(circle, arc_index)`; the angle is derived data.
#[derive(Clone, Copy, Debug)]
pub struct CircleCoordinate {
    pub circle: usize,
    pub arc_index: usize,
    pub angle: Angle,
}

impl PartialEq for CircleCoordinate {
    fn eq(&self, other: &Self) -> (r: bool) {
        self.circle == other.circle && self.arc_index == other.arc_index
    }
}

impl Eq for CircleCoordinate {

}

impl vstd::std_specs::cmp::PartialEqSpecImpl for CircleCoordinate {
    open spec fn obeys_eq_spec() -> bool {
        true
    }

    open spec fn eq_spec(&self, other: &Self) -> bool {
        self.circle == other.circle && self.arc_index == other.arc_index
    }
}

impl CircleCoordinate {
    /// The coordinate lies on a supported circle, its arc index is in range,
    /// and its angle is exactly `arc_index * (360 / cells)` degrees.
    pub open spec fn valid(self) -> bool {
        &&& ring_ok(self.circle as nat)
        &&& (self.arc_index as nat) < cells_in_ring(self.circle as nat)
        &&& self.angle.den >= 1
        &&& self.angle.num as nat * cells_in_ring(self.circle as nat) == (self.arc_index as nat)
            * 360 * (self.angle.den as nat)
    }

    /// Two coordinates address the same cell.
    pub open spec fn same_cell(self, other: CircleCoordinate) -> bool {
        self.circle == other.circle && self.arc_index == other.arc_index
    }
}

/// Two valid coordinates of one cell carry angles of the same value, even
/// when represented by different fractions.
pub proof fn lemma_same_cell_same_angle(c1: CircleCoordinate, c2: CircleCoordinate)
    requires
        c1.valid(),
        c2.valid(),
        c1.same_cell(c2),
    ensures
        c1.angle.same_value(c2.angle),
{
    lemma_pow2_floor_pos(c1.circle as nat);
    let cells = cells_in_ring(c1.circle as nat) as int;
    assert(c1.angle.num as int * (c2.angle.den as int) == c2.angle.num as int * (
    c1.angle.den as int)) by (nonlinear_arith)
        requires
            cells >= 1,
            c1.angle.num as int * cells == c1.arc_index as int * 360 * (c1.angle.den as int),
            c2.angle.num as int * cells == c1.arc_index as int * 360 * (c2.angle.den as int),
    ;
}

/// Denoting the same value is transitive for angles with positive
/// denominators.
pub proof fn lemma_angle_value_trans(a: Angle, b: Angle, c: Angle)
    requires
        b.den >= 1,
        a.same_value(b),
        b.same_value(c),
    ensures
        a.same_value(c),
{
    assert(a.num as int * (c.den as int) == c.num as int * (a.den as int)) by (nonlinear_arith)
        requires
            b.den >= 1,
            a.num as int * (b.den as int) == b.num as int * (a.den as int),
            b.num as int * (c.den as int) == c.num as int * (b.den as int),
    ;
}

/// Largest power of two not exceeding `n`, with 0 mapped to 1.
pub fn round_down_to_power_of2(n: usize) -> (r: usize)
    ensures
        r as nat == pow2_floor(n as nat),
        r >= 1,
    decreases n,
{
    if n < 2 {
        1
    } else {
        proof {
            lemma_pow2_floor_bounds((n / 2) as nat);
        }
        2 * round_down_to_power_of2(n / 2)
    }
}

/// Number of arcs on the given circle: `6 * round_down_to_power_of2(circle)`.
pub fn calc_total_arcs(circle: usize) -> (r: usize)
    requires
        ring_ok(circle as nat),
    ensures
        r as nat == cells_in_ring(circle as nat),
        6 <= r <= MAX_RING_CELLS,
{
    proof {
        lemma_pow2_floor_pos(circle as nat);
    }
    ARCS_FIRST_CIRCLE * round_down_to_power_of2(circle)
}

/// Whether the circle's arc count stays within the supported range; use this
/// before calling functions that require [`ring_ok`].
pub fn ring_supported(circle: usize) -> (r: bool)
    ensures
        r == ring_ok(circle as nat),
{
    let pf: usize = round_down_to_power_of2(circle);
    pf <= MAX_RING_CELLS / 6
}

/// A circle whose successor is still supported is itself far below the
/// machine's index range.
pub proof fn lemma_ring_ok_small(circle: nat)
    requires
        ring_ok(circle),
        circle >= 1,
    ensures
        circle < MAX_RING_CELLS,
{
    lemma_pow2_floor_bounds(circle);
}

proof fn lemma_mul_fits_u128(a: nat, b: nat)
    requires
        a <= u64::MAX,
        b <= u64::MAX,
    ensures
        a * b <= u128::MAX,
{
    assert(a * b <= (u64::MAX as nat) * (u64::MAX as nat)) by (nonlinear_arith)
        requires
            a <= u64::MAX,
            b <= u64::MAX,
    ;
}

impl CircleCoordinate {
    /// Build a coordinate from all three parts, validating that the angle is
    /// exactly the one derived from the arc index.
    pub fn new(circle: usize, arc_index: usize, angle: Angle) -> (r: Result<
        CircleCoordinate,
        String,
    >)
        ensures
            r is Ok <==> (ring_ok(circle as nat) && (arc_index as nat) < cells_in_ring(
                circle as nat,
            ) && angle.den >= 1 && angle.num as nat * cells_in_ring(circle as nat) == (
            arc_index as nat) * 360 * (angle.den as nat)),
            r matches Ok(c) ==> c == (CircleCoordinate { circle, arc_index, angle })
                && c.valid(),
    {
        if !ring_supported(circle) {
            return Err("circle index out of range".to_owned());
        }
        let cells: usize = calc_total_arcs(circle);
        if arc_index >= cells {
            return Err("arc index out of range".to_owned());
        }
        if angle.den == 0 {
            return Err("angle is not an exact multiple of the arc step".to_owned());
        }
        proof {
            lemma_mul_fits_u128(angle.num as nat, cells as nat);
            lemma_mul_fits_u128((arc_index * 360) as nat, angle.den as nat);
        }
        let lhs: u128 = (angle.num as u128) * (cells as u128);
        let rhs: u128 = ((arc_index as u128) * 360) * (angle.den as u128);
        if lhs != rhs {
            return Err("angle is not an exact multiple of the arc step".to_owned());
        }
        Ok(CircleCoordinate { circle, arc_index, angle })
    }

    /// Build the coordinate of the given arc on the given circle; its angle
    /// is derived from the arc index. Fails when the circle is beyond the
    /// supported range or the arc index is not below the circle's arc count.
    pub fn create_with_arc_index(circle: usize, arc_index: usize) -> (r: Result<
        CircleCoordinate,
        String,
    >)
        ensures
            r is Ok <==> (ring_ok(circle as nat) && (arc_index as nat) < cells_in_ring(
                circle as nat,
            )),
            r matches Ok(c) ==> c == (CircleCoordinate {
                circle,
                arc_index,
                angle: index_angle(arc_index as nat, cells_in_ring(circle as nat)),
            }) && c.valid(),
            r matches Err(m) ==> m@ == (if ring_ok(circle as nat) {
                "arc index out of range"@
            } else {
                "circle index out of range"@
            }),
    {
        if !ring_supported(circle) {
            return Err("circle index out of range".to_owned());
        }
        let cells: usize = calc_total_arcs(circle);
        if arc_index >= cells {
            return Err("arc index out of range".to_owned());
        }
        let angle: Angle = Angle::new((arc_index as u64) * 360, cells as u64);
        proof {
            lemma_index_angle_valid(arc_index as nat, cells as nat);
        }
        Ok(CircleCoordinate { circle, arc_index, angle })
    }

    /// Build the coordinate on the given circle whose starting angle is
    /// exactly `angle`. Fails when the angle is not an exact multiple of the
    /// circle's arc step or does not lie below 360 degrees.
    pub fn create_with_fraction(circle: usize, angle: Angle) -> (r: Result<
        CircleCoordinate,
        String,
    >)
        ensures
            r is Ok <==> (angle.den >= 1 && ring_ok(circle as nat) && (angle.num as nat
                * cells_in_ring(circle as nat)) % (360 * angle.den as nat) == 0 && (angle.num as nat
                * cells_in_ring(circle as nat)) / (360 * angle.den as nat) < cells_in_ring(
                circle as nat,
            )),
            r matches Ok(c) ==> c == (CircleCoordinate {
                circle,
                arc_index: ((angle.num as nat * cells_in_ring(circle as nat)) / (360
                    * angle.den as nat)) as usize,
                angle,
            }) && c.valid(),
    {
        if angle.den == 0 {
            return Err("angle is not an exact multiple of the arc step".to_owned());
        }
        if !ring_supported(circle) {
            return Err("circle index out of range".to_owned());
        }
        let cells: usize = calc_total_arcs(circle);
        proof {
            lemma_mul_fits_u128(angle.num as nat, cells as nat);
        }
        let n: u128 = (angle.num as u128) * (cells as u128);
        let d: u128 = 360u128 * (angle.den as u128);
        if n % d != 0 {
            return Err("angle is not an exact multiple of the arc step".to_owned());
        }
        let q: u128 = n / d;
        if q >= cells as u128 {
            return Err("arc index out of range".to_owned());
        }
        proof {
            lemma_fundamental_div_mod(n as int, d as int);
            assert(angle.num as int * cells as int == (q as int) * 360 * (angle.den as int))
                by (nonlinear_arith)
                requires
                    n as int == d as int * (q as int),
                    n as int == angle.num as int * cells as int,
                    d as int == 360 * (angle.den as int),
            ;
        }
        Ok(CircleCoordinate { circle, arc_index: q as usize, angle })
    }

    /// The arc's exact starting angle.
    pub fn angle(&self) -> (r: &Angle)
        ensures
            r == self.angle,
    {
        &self.angle
    }

    /// The circle this coordinate lies on.
    pub fn circle(&self) -> (r: usize)
        ensures
            r == self.circle,
    {
        self.circle
    }

    /// The arc index on this coordinate's circle.
    pub fn arc_index(&self) -> (r: usize)
        ensures
            r == self.arc_index,
    {
        self.arc_index
    }

    /// The next cell clockwise on the same circle, wrapping around.
    pub fn next_clockwise(&self) -> (r: CircleCoordinate)
        requires
            self.valid(),
        ensures
            r == spec_next_clockwise(*self),
            r.valid(),
    {
        let cells: usize = calc_total_arcs(self.circle);
        let ni: usize = (self.arc_index + 1) % cells;
        let angle: Angle = Angle::new((ni as u64) * 360, cells as u64);
        proof {
            lemma_index_angle_valid(ni as nat, cells as nat);
        }
        CircleCoordinate { circle: self.circle, arc_index: ni, angle }
    }

    /// The next cell counter-clockwise on the same circle, wrapping around.
    pub fn next_counter_clockwise(&self) -> (r: CircleCoordinate)
        requires
            self.valid(),
        ensures
            r == spec_next_counter_clockwise(*self),
            r.valid(),
    {
        let cells: usize = calc_total_arcs(self.circle);
        let ni: usize = (self.arc_index + cells - 1) % cells;
        let angle: Angle = Angle::new((ni as u64) * 360, cells as u64);
        proof {
            lemma_index_angle_valid(ni as nat, cells as nat);
        }
        CircleCoordinate { circle: self.circle, arc_index: ni, angle }
    }

    /// The cell at the same angle one circle further out. When the outer
    /// circle doubles the subdivision, the arc index doubles; the angle is
    /// preserved exactly.
    pub fn next_out(&self) -> (r: CircleCoordinate)
        requires
            self.valid(),
            ring_ok((self.circle + 1) as nat),
        ensures
            r == spec_next_out(*self),
            r.valid(),
            r.angle == self.angle,
            r.circle == self.circle + 1,
    {
        proof {
            lemma_ring_ok_small((self.circle + 1) as nat);
            lemma_cells_step(self.circle as nat);
        }
        let cells: usize = calc_total_arcs(self.circle);
        let cells_out: usize = calc_total_arcs(self.circle + 1);
        let ni: usize = if cells_out > cells {
            2 * self.arc_index
        } else {
            self.arc_index
        };
        proof {
            if cells_out != cells {
                assert(self.angle.num as int * cells_out as int == (2 * self.arc_index as int)
                    * 360 * (self.angle.den as int)) by (nonlinear_arith)
                    requires
                        cells_out as int == 2 * cells as int,
                        self.angle.num as int * cells as int == self.arc_index as int * 360 * (
                        self.angle.den as int),
                ;
            }
        }
        CircleCoordinate { circle: self.circle + 1, arc_index: ni, angle: self.angle }
    }

    /// The cell at the same angle one circle further in. Fails on circle 0,
    /// and when the angle does not exist on the coarser circle below.
    pub fn next_in(&self) -> (r: Result<CircleCoordinate, String>)
        requires
            self.valid(),
        ensures
            r is Ok <==> spec_next_in(*self) is Some,
            r matches Ok(c) ==> spec_next_in(*self) == Some(c) && c.valid() && c.angle
                == self.angle,
            r matches Err(m) ==> m@ == (if self.circle == 0 {
                "Cannot move inward from circle 0"@
            } else {
                "angle is not an exact multiple of the arc step"@
            }),
    {
        if self.circle == 0 {
            return Err("Cannot move inward from circle 0".to_owned());
        }
        proof {
            lemma_cells_step((self.circle - 1) as nat);
            lemma_cells_mono((self.circle - 1) as nat, self.circle as nat);
        }
        let cells: usize = calc_total_arcs(self.circle);
        let cells_in: usize = calc_total_arcs(self.circle - 1);
        if cells_in == cells {
            Ok(CircleCoordinate { circle: self.circle - 1, arc_index: self.arc_index, angle: self.angle })
        } else if self.arc_index % 2 == 0 {
            proof {
                assert(self.angle.num as int * cells_in as int == (self.arc_index as int / 2) * 360
                    * (self.angle.den as int)) by (nonlinear_arith)
                    requires
                        cells as int == 2 * cells_in as int,
                        self.arc_index % 2 == 0,
                        self.angle.num as int * cells as int == self.arc_index as int * 360 * (
                        self.angle.den as int),
                ;
            }
            Ok(
                CircleCoordinate {
                    circle: self.circle - 1,
                    arc_index: self.arc_index / 2,
                    angle: self.angle,
                },
            )
        } else {
            Err("angle is not an exact multiple of the arc step".to_owned())
        }
    }
}

/// The clockwise neighbour: arc index advances by one modulo the circle's
/// arc count, with the angle recomputed canonically.
pub open spec fn spec_next_clockwise(c: CircleCoordinate) -> CircleCoordinate {
    let cells = cells_in_ring(c.circle as nat);
    let ni = ((c.arc_index as int) + 1) % (cells as int);
    CircleCoordinate { circle: c.circle, arc_index: ni as usize, angle: index_angle(ni as nat, cells) }
}

/// The counter-clockwise neighbour: arc index retreats by one modulo the
/// circle's arc count, with the angle recomputed canonically.
pub open spec fn spec_next_counter_clockwise(c: CircleCoordinate) -> CircleCoordinate {
    let cells = cells_in_ring(c.circle as nat);
    let ni = ((c.arc_index as int) + (cells as int) - 1) % (cells as int);
    CircleCoordinate { circle: c.circle, arc_index: ni as usize, angle: index_angle(ni as nat, cells) }
}

/// The outward projection: same angle, one circle out; the arc index doubles
/// exactly when the arc count doubles.
pub open spec fn spec_next_out(c: CircleCoordinate) -> CircleCoordinate {
    let cells = cells_in_ring(c.circle as nat);
    let cells_out = cells_in_ring((c.circle + 1) as nat);
    let ni: nat = if cells_out == cells {
        c.arc_index as nat
    } else {
        2 * (c.arc_index as nat)
    };
    CircleCoordinate { circle: (c.circle + 1) as usize, arc_index: ni as usize, angle: c.angle }
}

/// The inward projection: same angle, one circle in. `None` from circle 0,
/// and when the angle falls between the coarser circle's arcs.
pub open spec fn spec_next_in(c: CircleCoordinate) -> Option<CircleCoordinate> {
    if c.circle == 0 {
        None
    } else {
        let cells = cells_in_ring(c.circle as nat);
        let cells_in = cells_in_ring((c.circle - 1) as nat);
        if cells_in == cells {
            Some(
                CircleCoordinate {
                    circle: (c.circle - 1) as usize,
                    arc_index: c.arc_index,
                    angle: c.angle,
                },
            )
        } else if c.arc_index % 2 == 0 {
            Some(
                CircleCoordinate {
                    circle: (c.circle - 1) as usize,
                    arc_index: c.arc_index / 2,
                    angle: c.angle,
                },
            )
        } else {
            None
        }
    }
}

/// `k` clockwise steps from `c`.
pub open spec fn rotate_clockwise(c: CircleCoordinate, k: nat) -> CircleCoordinate
    decreases k,
{
    if k == 0 {
        c
    } else {
        spec_next_clockwise(rotate_clockwise(c, (k - 1) as nat))
    }
}

proof fn lemma_rotate_clockwise_index(c: CircleCoordinate, k: nat)
    requires
        c.valid(),
    ensures
        rotate_clockwise(c, k).circle == c.circle,
        rotate_clockwise(c, k).arc_index as int == ((c.arc_index as int) + k) % (cells_in_ring(
            c.circle as nat,
        ) as int),
        rotate_clockwise(c, k).valid(),
    decreases k,
{
    let cells = cells_in_ring(c.circle as nat);
    if k == 0 {
        lemma_small_mod(c.arc_index as nat, cells);
    } else {
        lemma_rotate_clockwise_index(c, (k - 1) as nat);
        let prev = rotate_clockwise(c, (k - 1) as nat);
        let x = (c.arc_index as nat) + k - 1;
        lemma_small_mod(1nat, cells);
        lemma_add_mod_noop(x, 1, cells as int);
        let ni = ((prev.arc_index as int) + 1) % (cells as int);
        lemma_index_angle_valid(ni as nat, cells);
    }
}

/// Law: taking the clockwise neighbour as many times as the circle has arcs
/// leads back to the starting cell.
pub proof fn lemma_clockwise_full_turn(c: CircleCoordinate)
    requires
        c.valid(),
    ensures
        rotate_clockwise(c, cells_in_ring(c.circle as nat)).same_cell(c),
{
    let cells = cells_in_ring(c.circle as nat);
    lemma_rotate_clockwise_index(c, cells);
    lemma_small_mod(c.arc_index as nat, cells);
    lemma_add_mod_noop(c.arc_index as int, cells as int, cells as int);
    lemma_mod_self_0(cells as int);
}

/// Law: moving outward and then back inward returns the original coordinate
/// exactly, angle included. The inward step is always defined after an
/// outward step.
pub proof fn lemma_out_in_round_trip(c: CircleCoordinate)
    requires
        c.valid(),
        ring_ok((c.circle + 1) as nat),
    ensures
        spec_next_in(spec_next_out(c)) == Some(c),
{
    lemma_pow2_floor_bounds((c.circle + 1) as nat);
    lemma_cells_step(c.circle as nat);
}

} // verus!

//! The maze topology: two wall sets over circle coordinates.
//!
//! `arcs` holds arc walls: the arc stored at `(circle, arc_index)` lies on
//! that circle and blocks movement between the cell `(circle, arc_index)`
//! and its inward neighbour. `lines` holds radial walls: the line stored at
//! `(circle, arc_index)` runs outward from that circle at the arc's starting
//! angle and blocks movement between the cell `(circle, arc_index)` and its
//! counter-clockwise neighbour. Cell `(0, 0)` is the apex, the disk inside
//! circle 1.

use vstd::prelude::*;

verus! {

use vstd::arithmetic::div_mod::{lemma_small_mod, lemma_mod_self_0, lemma_mod_add_multiples_vanish};
use crate::random::RandomSource;
use crate::building_blocks::{
    Angle, CircleCoordinate, calc_total_arcs, cells_in_ring, index_angle, lemma_cells_mono,
    lemma_cells_step, lemma_index_angle_valid, ring_ok, spec_next_clockwise,
    spec_next_counter_clockwise, spec_next_out,
};

/// A maze: the outermost circle index and the two wall sets.
#[derive(Debug)]
pub struct Maze {
    pub circles: usize,
    pub arcs: Vec<CircleCoordinate>,
    pub lines: Vec<CircleCoordinate>,
}

/// Some entry of `walls` addresses the cell `(circle, idx)`.
pub open spec fn walls_contain(walls: Seq<CircleCoordinate>, circle: nat, idx: nat) -> bool {
    exists|k: int|
        0 <= k < walls.len() && (#[trigger] walls[k]).circle as nat == circle && walls[k].arc_index
            as nat == idx
}

/// Arc index of the clockwise neighbour within circle `r`.
pub open spec fn cw_index(r: nat, i: nat) -> nat {
    (((i as int) + 1) % (cells_in_ring(r) as int)) as nat
}

/// Arc index of the counter-clockwise neighbour within circle `r`.
pub open spec fn ccw_index(r: nat, i: nat) -> nat {
    (((i as int) + (cells_in_ring(r) as int) - 1) % (cells_in_ring(r) as int)) as nat
}

/// Arc index of the direct outward projection of `(r, i)` onto circle `r+1`.
pub open spec fn out_index(r: nat, i: nat) -> nat {
    if cells_in_ring(r + 1) == cells_in_ring(r) {
        i
    } else {
        2 * i
    }
}

/// Arc index of the inward neighbour of `(r, i)` on circle `r - 1`: the
/// coarser cell whose angular span contains the span of `(r, i)`.
pub open spec fn in_index(r: nat, i: nat) -> nat {
    if cells_in_ring((r - 1) as nat) == cells_in_ring(r) {
        i
    } else {
        i / 2
    }
}

/// Wrap-free values of the two rotation indices.
pub proof fn lemma_rotation_index_values(r: nat, i: nat)
    requires
        i < cells_in_ring(r),
    ensures
        cw_index(r, i) == if i + 1 == cells_in_ring(r) {
            0nat
        } else {
            i + 1
        },
        ccw_index(r, i) == if i == 0 {
            (cells_in_ring(r) - 1) as nat
        } else {
            (i - 1) as nat
        },
{
    let c = cells_in_ring(r) as int;
    crate::building_blocks::lemma_pow2_floor_pos(r);
    if i + 1 == cells_in_ring(r) {
        lemma_mod_self_0(c);
    } else {
        lemma_small_mod((i + 1) as nat, c as nat);
    }
    if i == 0 {
        lemma_small_mod((c - 1) as nat, c as nat);
    } else {
        lemma_mod_add_multiples_vanish((i - 1) as int, c);
        lemma_small_mod((i - 1) as nat, c as nat);
    }
}

impl Maze {
    /// All wall coordinates are themselves valid coordinates, and the
    /// outermost circle index is within the supported range.
    pub open spec fn wf(self) -> bool {
        &&& ring_ok(self.circles as nat)
        &&& forall|k: int| 0 <= k < self.arcs@.len() ==> (#[trigger] self.arcs@[k]).valid()
        &&& forall|k: int| 0 <= k < self.lines@.len() ==> (#[trigger] self.lines@[k]).valid()
    }

    /// An arc wall sits at `(circle, idx)`.
    pub open spec fn has_arc(self, circle: nat, idx: nat) -> bool {
        walls_contain(self.arcs@, circle, idx)
    }

    /// A line wall sits at `(circle, idx)`.
    pub open spec fn has_line(self, circle: nat, idx: nat) -> bool {
        walls_contain(self.lines@, circle, idx)
    }

    /// One unobstructed step leads from cell `(r, i)` to cell `(r2, j)`.
    ///
    /// From the apex (circle 0) the reachable cells are the six cells of
    /// circle 1 without an arc wall. From any other cell: the two rotational
    /// neighbours unless a line wall stands at the clockwise end of the
    /// crossed boundary; the inward neighbour (the apex for circle 1) unless
    /// the cell's own arc wall stands; and the outward projection — two
    /// cells when the next circle doubles the subdivision — unless the
    /// outward cell's arc wall stands.
    pub open spec fn step_open(self, r: nat, i: nat, r2: nat, j: nat) -> bool {
        if r == 0 {
            r2 == 1 && j < cells_in_ring(1) && !self.has_arc(1, j)
        } else {
            ||| (r2 == r && j == ccw_index(r, i) && !self.has_line(r, i))
            ||| (r2 == r && j == cw_index(r, i) && !self.has_line(r, j))
            ||| (r >= 2 && r2 == r - 1 && j == in_index(r, i) && !self.has_arc(r, i))
            ||| (r == 1 && r2 == 0 && j == 0 && !self.has_arc(1, i))
            ||| (r2 == r + 1 && !self.has_arc(r2, j) && (j == out_index(r, i) || (cells_in_ring(
                r + 1,
            ) == 2 * cells_in_ring(r) && j == out_index(r, i) + 1)))
        }
    }

    /// The outermost circle index.
    pub fn circles(&self) -> (r: usize)
        ensures
            r == self.circles,
    {
        self.circles
    }

    /// The arc walls.
    pub fn arcs(&self) -> (r: &Vec<CircleCoordinate>)
        ensures
            r == &self.arcs,
    {
        &self.arcs
    }

    /// The line walls.
    pub fn lines(&self) -> (r: &Vec<CircleCoordinate>)
        ensures
            r == &self.lines,
    {
        &self.lines
    }
}

/// The apex's neighbour list up to arc `k` (exclusive): the circle-1
/// cells below `k` without an arc wall, in ascending arc order.
pub open spec fn apex_neighbour_seq(m: Maze, k: nat) -> Seq<CircleCoordinate>
    decreases k,
{
    if k == 0 {
        Seq::empty()
    } else {
        apex_neighbour_seq(m, (k - 1) as nat) + (if !m.has_arc(1, (k - 1) as nat) {
            seq![spec_cell(1, (k - 1) as nat)]
        } else {
            Seq::<CircleCoordinate>::empty()
        })
    }
}

/// The exact neighbour list of a cell, in the order the library returns
/// it: counter-clockwise, clockwise, inward (the apex from circle 1), the
/// clockwise outward cell where the next circle doubles, then the direct
/// outward cell — each present exactly when its blocking wall is absent.
pub open spec fn neighbour_seq(m: Maze, c: CircleCoordinate) -> Seq<CircleCoordinate> {
    if c.circle == 0 {
        apex_neighbour_seq(m, cells_in_ring(1))
    } else {
        let r = c.circle as nat;
        let i = c.arc_index as nat;
        (if !m.has_line(r, i) {
            seq![spec_next_counter_clockwise(c)]
        } else {
            Seq::<CircleCoordinate>::empty()
        }) + (if !m.has_line(r, cw_index(r, i)) {
            seq![spec_next_clockwise(c)]
        } else {
            Seq::<CircleCoordinate>::empty()
        }) + (if !m.has_arc(r, i) {
            seq![
                if r == 1 {
                    spec_apex()
                } else {
                    spec_cell((r - 1) as nat, in_index(r, i))
                },
            ]
        } else {
            Seq::<CircleCoordinate>::empty()
        }) + (if cells_in_ring(r + 1) == 2 * cells_in_ring(r) && !m.has_arc(
            r + 1,
            out_index(r, i) + 1,
        ) {
            seq![spec_next_clockwise(spec_next_out(c))]
        } else {
            Seq::<CircleCoordinate>::empty()
        }) + (if !m.has_arc(r + 1, out_index(r, i)) {
            seq![spec_next_out(c)]
        } else {
            Seq::<CircleCoordinate>::empty()
        })
    }
}

/// Every open step out of a cell leads to a member of its neighbour list.
proof fn lemma_neighbour_seq_complete(m: Maze, c: CircleCoordinate)
    requires
        c.valid(),
        c.circle >= 1,
        ring_ok((c.circle + 1) as nat),
    ensures
        forall|r2: nat, j: nat|
            #[trigger] m.step_open(c.circle as nat, c.arc_index as nat, r2, j) ==> exists|k: int|
                0 <= k < neighbour_seq(m, c).len() && (#[trigger] neighbour_seq(m, c)[k]).circle
                    as nat == r2 && neighbour_seq(m, c)[k].arc_index as nat == j,
{
    let r = c.circle as nat;
    let i = c.arc_index as nat;
    let s = neighbour_seq(m, c);
    let s1 = if !m.has_line(r, i) {
        seq![spec_next_counter_clockwise(c)]
    } else {
        Seq::<CircleCoordinate>::empty()
    };
    let s2 = if !m.has_line(r, cw_index(r, i)) {
        seq![spec_next_clockwise(c)]
    } else {
        Seq::<CircleCoordinate>::empty()
    };
    let s3 = if !m.has_arc(r, i) {
        seq![
            if r == 1 {
                spec_apex()
            } else {
                spec_cell((r - 1) as nat, in_index(r, i))
            },
        ]
    } else {
        Seq::<CircleCoordinate>::empty()
    };
    let s4 = if cells_in_ring(r + 1) == 2 * cells_in_ring(r) && !m.has_arc(
        r + 1,
        out_index(r, i) + 1,
    ) {
        seq![spec_next_clockwise(spec_next_out(c))]
    } else {
        Seq::<CircleCoordinate>::empty()
    };
    let s5 = if !m.has_arc(r + 1, out_index(r, i)) {
        seq![spec_next_out(c)]
    } else {
        Seq::<CircleCoordinate>::empty()
    };
    assert(s == s1 + s2 + s3 + s4 + s5);
    crate::building_blocks::lemma_pow2_floor_pos(r);
    crate::building_blocks::lemma_pow2_floor_bounds((r + 1) as nat);
    lemma_rotation_index_values(r, i);
    lemma_cells_step(r);
    if r >= 2 {
        lemma_cells_step((r - 1) as nat);
    }
    assert forall|r2: nat, j: nat|
        #[trigger] m.step_open(c.circle as nat, c.arc_index as nat, r2, j) implies exists|k: int|
            0 <= k < s.len() && (#[trigger] s[k]).circle as nat == r2 && s[k].arc_index as nat
                == j by {
        if r2 == r && j == ccw_index(r, i) && !m.has_line(r, i) {
            assert(s[0] == spec_next_counter_clockwise(c));
            assert(s[0].circle as nat == r2 && s[0].arc_index as nat == j);
        } else if r2 == r && j == cw_index(r, i) && !m.has_line(r, j) {
            let k = s1.len() as int;
            assert(s[k] == spec_next_clockwise(c));
            assert(s[k].circle as nat == r2 && s[k].arc_index as nat == j);
        } else if r2 == r + 1 && (j == out_index(r, i) + 1 && cells_in_ring(r + 1) == 2
            * cells_in_ring(r)) && !m.has_arc(r2, j) {
            let k = (s1.len() + s2.len() + s3.len()) as int;
            lemma_small_mod((2 * i + 1) as nat, cells_in_ring((r + 1) as nat));
            assert(s[k] == spec_next_clockwise(spec_next_out(c)));
            assert(s[k].circle as nat == r2 && s[k].arc_index as nat == j);
        } else if r2 == r + 1 && j == out_index(r, i) && !m.has_arc(r2, j) {
            let k = (s1.len() + s2.len() + s3.len() + s4.len()) as int;
            assert(s[k] == spec_next_out(c));
            assert(s[k].circle as nat == r2 && s[k].arc_index as nat == j);
        } else {
            let k = (s1.len() + s2.len()) as int;
            if r == 1 {
                assert(s[k] == spec_apex());
            } else {
                assert(s[k] == spec_cell((r - 1) as nat, in_index(r, i)));
            }
            assert(s[k].circle as nat == r2 && s[k].arc_index as nat == j);
        }
    }
}

/// Whether `walls` holds an entry addressing the cell `(circle, idx)`.
fn wall_list_contains(walls: &Vec<CircleCoordinate>, circle: usize, idx: usize) -> (r: bool)
    ensures
        r == walls_contain(walls@, circle as nat, idx as nat),
{
    let mut k: usize = 0;
    while k < walls.len()
        invariant
            k <= walls.len(),
            forall|t: int|
                0 <= t < k ==> !((#[trigger] walls@[t]).circle as nat == circle as nat
                    && walls@[t].arc_index as nat == idx as nat),
        decreases walls.len() - k,
    {
        if walls[k].circle == circle && walls[k].arc_index == idx {
            return true;
        }
        k = k + 1;
    }
    false
}

/// The apex cell, `(0, 0)` at angle zero.
pub fn apex_coordinate() -> (r: CircleCoordinate)
    ensures
        r == spec_apex(),
        r.circle == 0,
        r.arc_index == 0,
        r.valid(),
{
    CircleCoordinate { circle: 0, arc_index: 0, angle: Angle { num: 0, den: 1 } }
}

/// The apex cell as a value: `(0, 0)` at angle zero.
pub open spec fn spec_apex() -> CircleCoordinate {
    CircleCoordinate { circle: 0, arc_index: 0, angle: Angle { num: 0, den: 1 } }
}

/// The cell `(circle, arc)` as a value, with its canonical angle.
pub open spec fn spec_cell(circle: nat, arc: nat) -> CircleCoordinate {
    CircleCoordinate {
        circle: circle as usize,
        arc_index: arc as usize,
        angle: index_angle(arc, cells_in_ring(circle)),
    }
}

/// The cell `(circle, arc_index)` with its derived canonical angle.
pub(crate) fn cell_at(circle: usize, arc_index: usize) -> (r: CircleCoordinate)
    requires
        ring_ok(circle as nat),
        (arc_index as nat) < cells_in_ring(circle as nat),
    ensures
        r.circle == circle,
        r.arc_index == arc_index,
        r.valid(),
        r.angle == index_angle(arc_index as nat, cells_in_ring(circle as nat)),
{
    let cells: usize = calc_total_arcs(circle);
    let angle: Angle = Angle::new((arc_index as u64) * 360, cells as u64);
    proof {
        lemma_index_angle_valid(arc_index as nat, cells as nat);
    }
    CircleCoordinate { circle, arc_index, angle }
}

impl Maze {
    /// The cells reachable from `coord` in one unobstructed step: exactly
    /// those cells `n` with `step_open(coord, n)`, each listed once.
    #[verifier::rlimit(100)]
    pub fn accessible_neighbours(&self, coord: &CircleCoordinate) -> (r: Vec<CircleCoordinate>)
        requires
            self.wf(),
            coord.valid(),
            ring_ok((coord.circle + 1) as nat),
        ensures
            forall|k: int| 0 <= k < r@.len() ==> (#[trigger] r@[k]).valid(),
            forall|k: int|
                0 <= k < r@.len() ==> self.step_open(
                    coord.circle as nat,
                    coord.arc_index as nat,
                    (#[trigger] r@[k]).circle as nat,
                    r@[k].arc_index as nat,
                ),
            forall|r2: nat, j: nat|
                #[trigger] self.step_open(coord.circle as nat, coord.arc_index as nat, r2, j)
                    ==> exists|k: int|
                    0 <= k < r@.len() && (#[trigger] r@[k]).circle as nat == r2
                        && r@[k].arc_index as nat == j,
            forall|k1: int, k2: int| 0 <= k1 < k2 < r@.len() ==> !r@[k1].same_cell(r@[k2]),
            coord.circle == 0 ==> forall|k1: int, k2: int|
                0 <= k1 < k2 < r@.len() ==> r@[k1].arc_index < r@[k2].arc_index,
            r@ == neighbour_seq(*self, *coord),
    {
        if coord.circle == 0 {
            return self.accessible_neighbours_circle_0(coord);
        }
        let rr: usize = coord.circle;
        let ii: usize = coord.arc_index;
        let ghost rn = rr as nat;
        let ghost i0 = ii as nat;
        proof {
            crate::building_blocks::lemma_pow2_floor_pos(rn);
            lemma_rotation_index_values(rn, i0);
            lemma_cells_step(rn);
            if rr >= 2 {
                lemma_cells_step((rr - 1) as nat);
                lemma_cells_mono((rr - 1) as nat, rn);
            }
        }
        let cells: usize = calc_total_arcs(rr);
        let mut neighbours: Vec<CircleCoordinate> = Vec::new();
        let ghost s1 = if !self.has_line(rn, i0) {
            seq![spec_next_counter_clockwise(*coord)]
        } else {
            Seq::<CircleCoordinate>::empty()
        };
        let ghost s2 = if !self.has_line(rn, cw_index(rn, i0)) {
            seq![spec_next_clockwise(*coord)]
        } else {
            Seq::<CircleCoordinate>::empty()
        };
        let ghost s3 = if !self.has_arc(rn, i0) {
            seq![
                if rn == 1 {
                    spec_apex()
                } else {
                    spec_cell((rn - 1) as nat, in_index(rn, i0))
                },
            ]
        } else {
            Seq::<CircleCoordinate>::empty()
        };
        let ghost s4 = if cells_in_ring(rn + 1) == 2 * cells_in_ring(rn) && !self.has_arc(
            rn + 1,
            out_index(rn, i0) + 1,
        ) {
            seq![spec_next_clockwise(spec_next_out(*coord))]
        } else {
            Seq::<CircleCoordinate>::empty()
        };
        let ghost s5 = if !self.has_arc(rn + 1, out_index(rn, i0)) {
            seq![spec_next_out(*coord)]
        } else {
            Seq::<CircleCoordinate>::empty()
        };

        let open_ccw: bool = !wall_list_contains(&self.lines, rr, ii);
        if open_ccw {
            neighbours.push(coord.next_counter_clockwise());
        }
        proof {
            assert(neighbours@ =~= s1);
        }

        let next_cw: CircleCoordinate = coord.next_clockwise();
        let open_cw: bool = !wall_list_contains(&self.lines, rr, next_cw.arc_index());
        if open_cw {
            neighbours.push(next_cw);
        }
        proof {
            assert(neighbours@ =~= s1 + s2);
        }

        let open_in: bool = !wall_list_contains(&self.arcs, rr, ii);
        if open_in {
            if rr == 1 {
                neighbours.push(apex_coordinate());
            } else {
                let cells_dn: usize = calc_total_arcs(rr - 1);
                let ji: usize = if cells_dn < cells {
                    ii / 2
                } else {
                    ii
                };
                neighbours.push(cell_at(rr - 1, ji));
            }
        }
        proof {
            assert(neighbours@ =~= s1 + s2 + s3);
        }

        let next_out: CircleCoordinate = coord.next_out();
        let cells_up: usize = calc_total_arcs(rr + 1);
        if cells < cells_up {
            let next_out_cw: CircleCoordinate = next_out.next_clockwise();
            proof {
                lemma_small_mod((2 * i0 + 1) as nat, cells_in_ring((rr + 1) as nat));
            }
            if !wall_list_contains(&self.arcs, rr + 1, next_out_cw.arc_index()) {
                neighbours.push(next_out_cw);
            }
        }
        proof {
            assert(neighbours@ =~= s1 + s2 + s3 + s4);
        }
        let open_out: bool = !wall_list_contains(&self.arcs, rr + 1, next_out.arc_index());
        if open_out {
            neighbours.push(next_out);
        }
        proof {
            assert(neighbours@ =~= s1 + s2 + s3 + s4 + s5);
            assert(neighbour_seq(*self, *coord) == s1 + s2 + s3 + s4 + s5);
        }

        proof {
            lemma_neighbour_seq_complete(*self, *coord);
        }
        neighbours
    }

    /// Law: one-step reachability is symmetric — whenever a step leads from
    /// one cell to another, a step leads back.
    pub proof fn lemma_step_open_symmetric(self, r: nat, i: nat, r2: nat, j: nat)
        requires
            r == 0 ==> i == 0,
            r >= 1 ==> i < cells_in_ring(r),
            self.step_open(r, i, r2, j),
        ensures
            self.step_open(r2, j, r, i),
    {
        crate::building_blocks::lemma_pow2_floor_pos(r);
        if r == 0 {
        } else {
            lemma_rotation_index_values(r, i);
            if r2 == r && j == ccw_index(r, i) && !self.has_line(r, i) {
                lemma_rotation_index_values(r, j);
            } else if r2 == r && j == cw_index(r, i) && !self.has_line(r, j) {
                lemma_rotation_index_values(r, j);
            } else if r >= 2 && r2 == r - 1 && j == in_index(r, i) && !self.has_arc(r, i) {
                lemma_cells_step((r - 1) as nat);
            } else if r == 1 && r2 == 0 && j == 0 && !self.has_arc(1, i) {
            } else {
                lemma_cells_step(r);
            }
        }
    }

    /// Neighbours of the apex: the cells of circle 1 without an arc wall.
    fn accessible_neighbours_circle_0(&self, _coord: &CircleCoordinate) -> (r: Vec<
        CircleCoordinate,
    >)
        requires
            self.wf(),
        ensures
            forall|k: int| 0 <= k < r@.len() ==> (#[trigger] r@[k]).valid(),
            forall|k: int|
                0 <= k < r@.len() ==> (#[trigger] r@[k]).circle == 1 && (r@[k].arc_index as nat)
                    < cells_in_ring(1) && !self.has_arc(1, r@[k].arc_index as nat),
            forall|j: nat|
                j < cells_in_ring(1) && !(#[trigger] self.has_arc(1, j)) ==> exists|k: int|
                    0 <= k < r@.len() && (#[trigger] r@[k]).circle as nat == 1 && r@[k].arc_index
                        as nat == j,
            forall|k1: int, k2: int| 0 <= k1 < k2 < r@.len() ==> !r@[k1].same_cell(r@[k2]),
            forall|k1: int, k2: int|
                0 <= k1 < k2 < r@.len() ==> r@[k1].arc_index < r@[k2].arc_index,
            r@ == apex_neighbour_seq(*self, cells_in_ring(1)),
    {
        let mut neighbours: Vec<CircleCoordinate> = Vec::new();
        let mut arc_index: usize = 0;
        while arc_index < 6
            invariant
                self.wf(),
                arc_index <= 6,
                neighbours@ == apex_neighbour_seq(*self, arc_index as nat),
                forall|k: int| 0 <= k < neighbours@.len() ==> (#[trigger] neighbours@[k]).valid(),
                forall|k: int|
                    0 <= k < neighbours@.len() ==> (#[trigger] neighbours@[k]).circle == 1
                        && neighbours@[k].arc_index < arc_index && !self.has_arc(
                        1,
                        neighbours@[k].arc_index as nat,
                    ),
                forall|j: nat|
                    j < arc_index as nat && !(#[trigger] self.has_arc(1, j)) ==> exists|k: int|
                        0 <= k < neighbours@.len() && (#[trigger] neighbours@[k]).circle as nat == 1
                            && neighbours@[k].arc_index as nat == j,
                forall|k1: int, k2: int|
                    0 <= k1 < k2 < neighbours@.len() ==> neighbours@[k1].arc_index
                        < neighbours@[k2].arc_index,
            decreases 6 - arc_index,
        {
            let ghost pre = neighbours@;
            if !wall_list_contains(&self.arcs, 1, arc_index) {
                neighbours.push(cell_at(1, arc_index));
            }
            proof {
                assert(neighbours@ =~= apex_neighbour_seq(*self, (arc_index + 1) as nat));
                assert forall|j: nat|
                    j < (arc_index + 1) as nat && !(#[trigger] self.has_arc(1, j)) implies exists|
                    k: int,
                |
                    0 <= k < neighbours@.len() && (#[trigger] neighbours@[k]).circle as nat == 1
                        && neighbours@[k].arc_index as nat == j by {
                    if j < arc_index as nat {
                        let k0 = choose|k: int|
                            0 <= k < pre.len() && (#[trigger] pre[k]).circle as nat == 1
                                && pre[k].arc_index as nat == j;
                        assert(neighbours@[k0].circle as nat == 1 && neighbours@[k0].arc_index
                            as nat == j);
                    } else {
                        let last = neighbours@.len() - 1;
                        assert(neighbours@[last].circle as nat == 1 && neighbours@[last].arc_index
                            as nat == j);
                    }
                }
            }
            arc_index = arc_index + 1;
        }
        neighbours
    }
}

/// Number of `true` entries in a boolean sequence.
pub open spec fn count_true(s: Seq<bool>) -> nat
    decreases s.len(),
{
    if s.len() == 0 {
        0
    } else {
        count_true(s.drop_last()) + if s.last() {
            1nat
        } else {
            0nat
        }
    }
}

pub(crate) proof fn lemma_count_true_zero(s: Seq<bool>)
    requires
        forall|k: int| 0 <= k < s.len() ==> !s[k],
    ensures
        count_true(s) == 0,
    decreases s.len(),
{
    if s.len() > 0 {
        lemma_count_true_zero(s.drop_last());
    }
}

pub(crate) proof fn lemma_count_true_le(s: Seq<bool>)
    ensures
        count_true(s) <= s.len(),
    decreases s.len(),
{
    if s.len() > 0 {
        lemma_count_true_le(s.drop_last());
    }
}

pub(crate) proof fn lemma_count_true_update(s: Seq<bool>, k: int)
    requires
        0 <= k < s.len(),
        !s[k],
    ensures
        count_true(s.update(k, true)) == count_true(s) + 1,
    decreases s.len(),
{
    let t = s.update(k, true);
    if k == s.len() - 1 {
        assert(t.drop_last() =~= s.drop_last());
    } else {
        assert(t.drop_last() =~= s.drop_last().update(k, true));
        lemma_count_true_update(s.drop_last(), k);
    }
}

proof fn lemma_count_true_append(a: Seq<bool>, b: Seq<bool>)
    ensures
        count_true(a + b) == count_true(a) + count_true(b),
    decreases b.len(),
{
    if b.len() == 0 {
        assert(a + b =~= a);
    } else {
        assert((a + b).drop_last() =~= a + b.drop_last());
        lemma_count_true_append(a, b.drop_last());
    }
}

proof fn lemma_count_true_threshold(m: nat, bound: nat)
    ensures
        count_true(Seq::new(m, |a: int| a < bound)) == if bound <= m {
            bound
        } else {
            m
        },
    decreases m,
{
    let s = Seq::new(m, |a: int| a < bound);
    if m > 0 {
        assert(s.drop_last() =~= Seq::new((m - 1) as nat, |a: int| a < bound));
        lemma_count_true_threshold((m - 1) as nat, bound);
    }
}

/// Total number of cells on circles `1..=n`.
pub open spec fn total_cells(n: nat) -> nat
    decreases n,
{
    if n == 0 {
        0
    } else {
        total_cells((n - 1) as nat) + cells_in_ring(n)
    }
}

/// The circle index a tracking slot stands for.
pub open spec fn slot_circle(k: int, outer: nat) -> nat {
    (k / (outer as int) + 1) as nat
}

/// The arc index a tracking slot stands for.
pub open spec fn slot_arc(k: int, outer: nat) -> nat {
    (k % (outer as int)) as nat
}

/// The slot stands for an arc index that exists on its circle. Each circle
/// gets `outer` slots, so circles with fewer arcs leave trailing slots
/// unused.
pub open spec fn slot_real(k: int, outer: nat) -> bool {
    slot_arc(k, outer) < cells_in_ring(slot_circle(k, outer))
}

/// The tracking slot of cell `(circle, arc)`.
pub open spec fn slot_of(circle: nat, arc: nat, outer: nat) -> int {
    (circle - 1) * outer + arc
}

pub(crate) proof fn lemma_slot_roundtrip(circle: nat, arc: nat, outer: nat)
    requires
        circle >= 1,
        arc < outer,
    ensures
        slot_circle(slot_of(circle, arc, outer), outer) == circle,
        slot_arc(slot_of(circle, arc, outer), outer) == arc,
{
    vstd::arithmetic::div_mod::lemma_fundamental_div_mod_converse(
        slot_of(circle, arc, outer),
        outer as int,
        (circle - 1) as int,
        arc as int,
    );
}

pub(crate) proof fn lemma_slot_bounds(k: int, circles: nat, outer: nat)
    requires
        outer >= 1,
        0 <= k < circles * outer,
    ensures
        1 <= slot_circle(k, outer) <= circles,
        slot_arc(k, outer) < outer,
        k == slot_of(slot_circle(k, outer), slot_arc(k, outer), outer),
{
    vstd::arithmetic::div_mod::lemma_fundamental_div_mod(k, outer as int);
    vstd::arithmetic::div_mod::lemma_mod_bound(k, outer as int);
    let q = k / (outer as int);
    assert(q >= 0) by (nonlinear_arith)
        requires
            k >= 0,
            outer >= 1,
            k == (outer as int) * q + k % (outer as int),
            0 <= k % (outer as int) < outer,
    ;
    assert(q < circles) by (nonlinear_arith)
        requires
            k < circles * outer,
            outer >= 1,
            k == (outer as int) * q + k % (outer as int),
            0 <= k % (outer as int) < outer,
    ;
    vstd::arithmetic::mul::lemma_mul_is_commutative(q, outer as int);
}

/// The pattern of real slots over `n` circles of `outer` slots each.
pub open spec fn real_slot_pattern(n: nat, outer: nat) -> Seq<bool> {
    Seq::new(n * outer, |k: int| slot_real(k, outer))
}

proof fn lemma_real_pattern_count(n: nat, outer: nat)
    requires
        outer >= 1,
        forall|c: nat| 1 <= c <= n ==> #[trigger] cells_in_ring(c) <= outer,
    ensures
        count_true(real_slot_pattern(n, outer)) == total_cells(n),
    decreases n,
{
    if n == 0 {
        assert(0nat * outer == 0) by (nonlinear_arith);
        assert(real_slot_pattern(0, outer) =~= Seq::<bool>::empty());
    } else {
        lemma_real_pattern_count((n - 1) as nat, outer);
        let prefix = real_slot_pattern((n - 1) as nat, outer);
        let seg = Seq::new(outer, |a: int| a < cells_in_ring(n));
        vstd::arithmetic::mul::lemma_mul_is_distributive_add_other_way(
            outer as int,
            (n - 1) as int,
            1,
        );
        assert((n - 1) as int * outer + outer == n as int * outer);
        let base = (n - 1) as int * outer;
        vstd::arithmetic::mul::lemma_mul_is_commutative((n - 1) as int, outer as int);
        assert forall|k: int| base <= k < n * outer implies #[trigger] slot_real(k, outer) == (k
            - base < cells_in_ring(n)) by {
            vstd::arithmetic::div_mod::lemma_fundamental_div_mod_converse(
                k,
                outer as int,
                (n - 1) as int,
                k - base,
            );
        }
        assert(real_slot_pattern(n, outer) =~= prefix + seg);
        lemma_count_true_append(prefix, seg);
        lemma_count_true_threshold(outer, cells_in_ring(n));
    }
}

/// A vector of `len` copies of `value`.
pub(crate) fn make_bool_vec(len: usize, value: bool) -> (r: Vec<bool>)
    ensures
        r@.len() == len,
        forall|k: int| 0 <= k < len ==> r@[k] == value,
{
    let mut v: Vec<bool> = Vec::new();
    let mut k: usize = 0;
    while k < len
        invariant
            k <= len,
            v@.len() == k,
            forall|t: int| 0 <= t < k ==> v@[t] == value,
        decreases len - k,
    {
        v.push(value);
        k = k + 1;
    }
    v
}

/// The tracking slot of cell `(circle, arc_index)` when every circle gets
/// `outer` slots.
fn coord_to_index(circle: usize, arc_index: usize, outer: usize) -> (r: usize)
    requires
        1 <= circle,
        arc_index < outer,
        circle * outer <= usize::MAX,
    ensures
        r == slot_of(circle as nat, arc_index as nat, outer as nat),
        r < circle * outer,
{
    proof {
        assert((circle - 1) as int * outer + arc_index < circle * outer) by (nonlinear_arith)
            requires
                circle >= 1,
                arc_index < outer,
        ;
    }
    (circle - 1) * outer + arc_index
}

/// Scratch state threaded through spanning-tree construction: per-slot
/// marks for the walk in progress (`path`) and for cells already joined to
/// the tree (`used`), plus the wall lists grown so far.
struct BuilderState {
    path: Vec<bool>,
    used: Vec<bool>,
    lines: Vec<CircleCoordinate>,
    arcs: Vec<CircleCoordinate>,
}

impl BuilderState {
    /// Both mark vectors cover `circles` rings of `outer` slots; marks sit
    /// only on real slots; the outermost ring is fully marked; walls are
    /// valid cells of rings `1..circles`; and the wall count stays in
    /// balance with the marked-cell count.
    spec fn wf(self, circles: nat, outer: nat) -> bool {
        &&& outer == cells_in_ring(circles)
        &&& ring_ok(circles)
        &&& self.path@.len() == circles * outer
        &&& self.used@.len() == circles * outer
        &&& forall|k: int|
            0 <= k < self.used@.len() && self.used@[k] ==> slot_real(k, outer)
        &&& forall|k: int|
            0 <= k < self.used@.len() && slot_circle(k, outer) == circles ==> self.used@[k]
        &&& forall|k: int|
            0 <= k < self.arcs@.len() ==> (#[trigger] self.arcs@[k]).valid() && 1
                <= self.arcs@[k].circle < circles
        &&& forall|k: int|
            0 <= k < self.lines@.len() ==> (#[trigger] self.lines@[k]).valid() && 1
                <= self.lines@[k].circle < circles
        &&& wall_cells_distinct(self.arcs@)
        &&& wall_cells_distinct(self.lines@)
        &&& walls_marked(self.arcs@, self.used@, outer)
        &&& walls_marked(self.lines@, self.used@, outer)
        &&& self.lines@.len() + self.arcs@.len() + outer == count_true(self.used@)
    }
}

/// Remove and return the entry at `i`, moving the last entry into its place.
fn swap_remove_entry(v: &mut Vec<(usize, usize, bool)>, i: usize) -> (r: (usize, usize, bool))
    requires
        i < old(v)@.len(),
    ensures
        r == old(v)@[i as int],
        final(v)@ == old(v)@.update(i as int, old(v)@[old(v)@.len() - 1]).drop_last(),
{
    let last_idx: usize = v.len() - 1;
    let r: (usize, usize, bool) = v[i];
    let last: (usize, usize, bool) = v[last_idx];
    v.set(i, last);
    v.pop();
    proof {
        assert(v@ =~= old(v)@.update(i as int, old(v)@[old(v)@.len() - 1]).drop_last());
    }
    r
}

/// The walk-scratch and tree marks for a fresh maze of `circles` rings:
/// nothing on the current walk, and only the outermost ring (the
/// pre-closed boundary) already part of the tree.
fn initialize_tracking_vectors(circles: usize, outer: usize) -> (r: (Vec<bool>, Vec<bool>))
    requires
        circles >= 1,
        ring_ok(circles as nat),
        outer as nat == cells_in_ring(circles as nat),
        circles * outer <= usize::MAX,
    ensures
        r.0@.len() == circles * outer,
        forall|k: int| 0 <= k < r.0@.len() ==> !r.0@[k],
        r.1@.len() == circles * outer,
        forall|k: int|
            0 <= k < r.1@.len() ==> r.1@[k] == (k >= (circles - 1) * outer),
        count_true(r.1@) == outer,
{
    proof {
        vstd::arithmetic::mul::lemma_mul_is_distributive_sub_other_way(
            outer as int,
            circles as int,
            1,
        );
    }
    let total: usize = circles * outer;
    let boundary: usize = (circles - 1) * outer;
    let path: Vec<bool> = make_bool_vec(total, false);
    let mut used: Vec<bool> = Vec::new();
    let mut k: usize = 0;
    while k < total
        invariant
            k <= total,
            boundary <= total,
            used@.len() == k,
            forall|t: int| 0 <= t < k ==> used@[t] == (t >= boundary),
        decreases total - k,
    {
        used.push(k >= boundary);
        k = k + 1;
    }
    proof {
        let pattern = Seq::new(total as nat, |a: int| a >= boundary);
        assert(used@ =~= pattern);
        lemma_count_true_suffix(total as nat, boundary as nat);
    }
    (path, used)
}

proof fn lemma_count_true_suffix(m: nat, bound: nat)
    requires
        bound <= m,
    ensures
        count_true(Seq::new(m, |a: int| a >= bound)) == m - bound,
    decreases m,
{
    let s = Seq::new(m, |a: int| a >= bound);
    if m > bound {
        assert(s.drop_last() =~= Seq::new((m - 1) as nat, |a: int| a >= bound));
        lemma_count_true_suffix((m - 1) as nat, bound);
    } else {
        if m > 0 {
            assert(s.drop_last() =~= Seq::new((m - 1) as nat, |a: int| a >= bound));
            lemma_count_true_suffix((m - 1) as nat, (bound - 1) as nat);
            assert(count_true(Seq::new((m - 1) as nat, |a: int| a >= bound)) == count_true(
                Seq::new((m - 1) as nat, |a: int| a >= (bound - 1) as nat),
            )) by {
                assert(Seq::new((m - 1) as nat, |a: int| a >= bound) =~= Seq::new(
                    (m - 1) as nat,
                    |a: int| a >= (bound - 1) as nat,
                ));
            }
        }
    }
}

/// `s` holds an entry for the cell `(c, a)`.
pub open spec fn lists_cell(s: Seq<(usize, usize)>, c: nat, a: nat) -> bool {
    exists|t: int| 0 <= t < s.len() && (#[trigger] s[t]).0 as nat == c && s[t].1 as nat == a
}

/// Every cell of the circles `1..circles`, in an order drawn from the
/// random source. The order decides where each random walk starts.
fn generate_shuffled_coordinates<R: RandomSource>(circles: usize, rng: &mut R) -> (r: Vec<
    (usize, usize),
>)
    requires
        ring_ok(circles as nat),
    ensures
        circles >= 1 ==> r@.len() == total_cells((circles - 1) as nat),
        circles == 0 ==> r@.len() == 0,
        forall|t: int|
            0 <= t < r@.len() ==> 1 <= (#[trigger] r@[t]).0 < circles && (r@[t].1 as nat)
                < cells_in_ring(r@[t].0 as nat),
        forall|c: nat, a: nat|
            1 <= c < circles && a < cells_in_ring(c) ==> #[trigger] lists_cell(r@, c, a),
        forall|t1: int, t2: int| 0 <= t1 < t2 < r@.len() ==> r@[t1] != r@[t2],
{
    let mut free: Vec<(usize, usize)> = Vec::new();
    let mut c: usize = 1;
    while c < circles
        invariant
            1 <= c,
            c <= circles || c == 1,
            ring_ok(circles as nat),
            free@.len() == total_cells((c - 1) as nat),
            forall|t: int|
                0 <= t < free@.len() ==> 1 <= (#[trigger] free@[t]).0 < circles && (free@[t].1
                    as nat) < cells_in_ring(free@[t].0 as nat),
            forall|t: int|
                0 <= t < free@.len() ==> (#[trigger] free@[t]).0 < c,
            forall|c2: nat, a: nat|
                1 <= c2 < c && a < cells_in_ring(c2) ==> #[trigger] lists_cell(free@, c2, a),
            forall|t1: int, t2: int| 0 <= t1 < t2 < free@.len() ==> free@[t1] != free@[t2],
        decreases circles - c,
    {
        proof {
            lemma_cells_mono(c as nat, circles as nat);
        }
        let t: usize = calc_total_arcs(c);
        let mut a: usize = 0;
        while a < t
            invariant
                a <= t,
                1 <= c < circles,
                t as nat == cells_in_ring(c as nat),
                free@.len() == total_cells((c - 1) as nat) + a,
                forall|t2: int|
                    0 <= t2 < free@.len() ==> 1 <= (#[trigger] free@[t2]).0 < circles && (
                    free@[t2].1 as nat) < cells_in_ring(free@[t2].0 as nat),
                forall|t2: int|
                    0 <= t2 < free@.len() ==> (#[trigger] free@[t2]).0 < c || (free@[t2].0 == c
                        && free@[t2].1 < a),
                forall|c2: nat, a2: nat|
                    1 <= c2 < c && a2 < cells_in_ring(c2) ==> #[trigger] lists_cell(free@, c2, a2),
                forall|a2: nat| a2 < a ==> #[trigger] lists_cell(free@, c as nat, a2),
                forall|t1: int, t2: int| 0 <= t1 < t2 < free@.len() ==> free@[t1] != free@[t2],
            decreases t - a,
        {
            let ghost pre = free@;
            free.push((c, a));
            proof {
                assert forall|c2: nat, a2: nat| 1 <= c2 < c && a2 < cells_in_ring(c2) implies #[trigger] lists_cell(
                    free@,
                    c2,
                    a2,
                ) by {
                    assert(lists_cell(pre, c2, a2));
                    let t0 = choose|t2: int|
                        0 <= t2 < pre.len() && (#[trigger] pre[t2]).0 as nat == c2 && pre[t2].1
                            as nat == a2;
                    assert(free@[t0].0 as nat == c2 && free@[t0].1 as nat == a2);
                }
                assert forall|a2: nat| a2 < a + 1 implies #[trigger] lists_cell(
                    free@,
                    c as nat,
                    a2,
                ) by {
                    if a2 < a as nat {
                        assert(lists_cell(pre, c as nat, a2));
                        let t0 = choose|t2: int|
                            0 <= t2 < pre.len() && (#[trigger] pre[t2]).0 as nat == c as nat
                                && pre[t2].1 as nat == a2;
                        assert(free@[t0].0 as nat == c as nat && free@[t0].1 as nat == a2);
                    } else {
                        let last = free@.len() - 1;
                        assert(free@[last].0 as nat == c as nat && free@[last].1 as nat == a2);
                    }
                }
            }
            a = a + 1;
        }
        c = c + 1;
    }
    // Shuffle with draws from the source.
    let mut k: usize = free.len();
    while k > 1
        invariant
            k <= free@.len(),
            circles >= 1 ==> free@.len() == total_cells((circles - 1) as nat),
            circles == 0 ==> free@.len() == 0,
            forall|t: int|
                0 <= t < free@.len() ==> 1 <= (#[trigger] free@[t]).0 < circles && (free@[t].1
                    as nat) < cells_in_ring(free@[t].0 as nat),
            forall|c2: nat, a: nat|
                1 <= c2 < circles && a < cells_in_ring(c2) ==> #[trigger] lists_cell(free@, c2, a),
            forall|t1: int, t2: int| 0 <= t1 < t2 < free@.len() ==> free@[t1] != free@[t2],
        decreases k,
    {
        let j: usize = rng.pick(k);
        k = k - 1;
        let ghost pre = free@;
        let tmp: (usize, usize) = free[k];
        let other: (usize, usize) = free[j];
        free.set(k, other);
        free.set(j, tmp);
        proof {
            assert forall|c2: nat, a: nat|
                1 <= c2 < circles && a < cells_in_ring(c2) implies #[trigger] lists_cell(
                free@,
                c2,
                a,
            ) by {
                assert(lists_cell(pre, c2, a));
                let t0 = choose|t: int|
                    0 <= t < pre.len() && (#[trigger] pre[t]).0 as nat == c2 && pre[t].1 as nat
                        == a;
                let tn: int = if t0 == k {
                    j as int
                } else if t0 == j {
                    k as int
                } else {
                    t0
                };
                assert(free@[tn].0 as nat == c2 && free@[tn].1 as nat == a);
            }
            assert forall|t1: int, t2: int|
                0 <= t1 < t2 < free@.len() implies free@[t1] != free@[t2] by {
                let p1: int = if t1 == k {
                    j as int
                } else if t1 == j {
                    k as int
                } else {
                    t1
                };
                let p2: int = if t2 == k {
                    j as int
                } else if t2 == j {
                    k as int
                } else {
                    t2
                };
                assert(free@[t1] == pre[p1] && free@[t2] == pre[p2]);
            }
        }
    }
    free
}

/// One random walk of the spanning-tree construction, starting at a cell
/// not yet part of the tree. Candidate moves are drawn from a pool seeded
/// with two moves — clockwise and outward — for every cell the walk has
/// visited; a move whose target is already on the walk is discarded, any
/// other is committed as a drawn wall. The walk ends when a committed move
/// reaches a cell already part of the tree.
///
/// Walls drawn balance cells newly joined to the tree exactly, which keeps
/// the builder's wall-count equation intact.
#[verifier::rlimit(100)]
fn perform_random_walk<R: RandomSource>(
    start_circle: usize,
    start_arc: usize,
    circles: usize,
    outer: usize,
    st: BuilderState,
    rng: &mut R,
) -> (r: BuilderState)
    requires
        st.wf(circles as nat, outer as nat),
        circles * outer <= usize::MAX,
        1 <= start_circle < circles,
        (start_arc as nat) < cells_in_ring(start_circle as nat),
        !st.used@[slot_of(start_circle as nat, start_arc as nat, outer as nat)],
    ensures
        r.wf(circles as nat, outer as nat),
        forall|k: int| 0 <= k < st.used@.len() && st.used@[k] ==> r.used@[k],
        r.used@[slot_of(start_circle as nat, start_arc as nat, outer as nat)],
        r.lines@.len() >= st.lines@.len(),
        forall|k: int| 0 <= k < st.lines@.len() ==> r.lines@[k] == st.lines@[k],
        r.arcs@.len() >= st.arcs@.len(),
        forall|k: int| 0 <= k < st.arcs@.len() ==> r.arcs@[k] == st.arcs@[k],
{
    let mut st = st;
    let ghost lines0 = st.lines@;
    let ghost arcs0 = st.arcs@;
    let total: usize = st.used.len();
    proof {
        lemma_cells_mono(start_circle as nat, circles as nat);
        vstd::arithmetic::mul::lemma_mul_inequality(
            start_circle as int,
            circles as int,
            outer as int,
        );
    }
    st.path = make_bool_vec(total, false);
    let sidx: usize = coord_to_index(start_circle, start_arc, outer);
    let ghost used_pre = st.used@;
    proof {
        lemma_count_true_update(st.used@, sidx as int);
        lemma_count_true_update(st.path@, sidx as int);
        lemma_slot_roundtrip(start_circle as nat, start_arc as nat, outer as nat);
    }
    st.path.set(sidx, true);
    st.used.set(sidx, true);
    let mut options: Vec<(usize, usize, bool)> = Vec::new();
    options.push((start_circle, start_arc, false));
    options.push((start_circle, start_arc, true));
    let ghost walls0 = st.lines@.len() + st.arcs@.len();
    let ghost count0 = count_true(st.used@);
    proof {
        lemma_count_true_le(st.path@);
        assert(walk_witness(options@[1], st.path@, outer as nat));
        assert(!walls_contain(st.arcs@, start_circle as nat, start_arc as nat)) by {
            if walls_contain(st.arcs@, start_circle as nat, start_arc as nat) {
                let k = choose|k: int|
                    0 <= k < st.arcs@.len() && (#[trigger] st.arcs@[k]).circle as nat
                        == start_circle as nat && st.arcs@[k].arc_index as nat == start_arc as nat;
                assert(used_pre[slot_of(start_circle as nat, start_arc as nat, outer as nat)]);
            }
        }
        assert(!walls_contain(st.lines@, start_circle as nat, start_arc as nat)) by {
            if walls_contain(st.lines@, start_circle as nat, start_arc as nat) {
                let k = choose|k: int|
                    0 <= k < st.lines@.len() && (#[trigger] st.lines@[k]).circle as nat
                        == start_circle as nat && st.lines@[k].arc_index as nat == start_arc as nat;
                assert(used_pre[slot_of(start_circle as nat, start_arc as nat, outer as nat)]);
            }
        }
    }
    loop
        invariant_except_break
            st.wf_except_count(circles as nat, outer as nat),
            circles * outer <= usize::MAX,
            st.lines@.len() + st.arcs@.len() == walls0 + count_true(st.used@) - count0,
            count_true(st.used@) >= count0,
            forall|k: int| 0 <= k < st.path@.len() && st.path@[k] ==> st.used@[k],
            forall|k: int|
                0 <= k < st.path@.len() && st.path@[k] ==> slot_circle(k, outer as nat) < circles,
            count_true(st.path@) <= total,
            total == circles * outer,
            forall|t: int|
                0 <= t < options@.len() ==> walk_entry_ok(
                    #[trigger] options@[t],
                    st.path@,
                    circles as nat,
                    outer as nat,
                ),
            forall|t1: int, t2: int|
                0 <= t1 < t2 < options@.len() ==> options@[t1] != options@[t2],
            forall|t: int|
                0 <= t < options@.len() ==> entry_wall_undrawn(
                    #[trigger] options@[t],
                    st.lines@,
                    st.arcs@,
                ),
            exists|t: int|
                0 <= t < options@.len() && walk_witness(#[trigger] options@[t], st.path@, outer as nat),
            used_pre.len() == circles * outer,
            sidx < total,
            forall|k: int| 0 <= k < used_pre.len() && used_pre[k] ==> st.used@[k],
            st.used@[sidx as int],
            st.lines@.len() >= lines0.len(),
            forall|k: int| 0 <= k < lines0.len() ==> st.lines@[k] == lines0[k],
            st.arcs@.len() >= arcs0.len(),
            forall|k: int| 0 <= k < arcs0.len() ==> st.arcs@[k] == arcs0[k],
        ensures
            st.wf_except_count(circles as nat, outer as nat),
            st.lines@.len() + st.arcs@.len() == walls0 + count_true(st.used@) - count0 + 1,
            forall|k: int| 0 <= k < used_pre.len() && used_pre[k] ==> st.used@[k],
            st.used@[sidx as int],
            st.lines@.len() >= lines0.len(),
            forall|k: int| 0 <= k < lines0.len() ==> st.lines@[k] == lines0[k],
            st.arcs@.len() >= arcs0.len(),
            forall|k: int| 0 <= k < arcs0.len() ==> st.arcs@[k] == arcs0[k],
        decreases total - count_true(st.path@), options@.len(),
    {
        let t: usize = rng.pick(options.len());
        let ghost pre_options = options@;
        let e: (usize, usize, bool) = swap_remove_entry(&mut options, t);
        proof {
            assert(walk_entry_ok(e, st.path@, circles as nat, outer as nat));
            assert forall|t2: int|
                0 <= t2 < options@.len() implies walk_entry_ok(
                #[trigger] options@[t2],
                st.path@,
                circles as nat,
                outer as nat,
            ) by {
                if t2 == t {
                    assert(options@[t2] == pre_options[pre_options.len() - 1]);
                } else {
                    assert(options@[t2] == pre_options[t2]);
                }
            }
            assert forall|t1: int, t2: int|
                0 <= t1 < t2 < options@.len() implies options@[t1] != options@[t2] by {
                let p1: int = if t1 == t {
                    pre_options.len() - 1
                } else {
                    t1
                };
                let p2: int = if t2 == t {
                    pre_options.len() - 1
                } else {
                    t2
                };
                assert(options@[t1] == pre_options[p1] && options@[t2] == pre_options[p2]);
            }
            assert(entry_wall_undrawn(e, st.lines@, st.arcs@));
            assert forall|t2: int|
                0 <= t2 < options@.len() implies entry_wall_undrawn(
                #[trigger] options@[t2],
                st.lines@,
                st.arcs@,
            ) by {
                if t2 == t {
                    assert(options@[t2] == pre_options[pre_options.len() - 1]);
                } else {
                    assert(options@[t2] == pre_options[t2]);
                }
            }
            lemma_cells_mono(e.0 as nat, circles as nat);
            lemma_cells_step(e.0 as nat);
            lemma_cells_mono((e.0 + 1) as nat, circles as nat);
        }
        let (ec, ea, edir): (usize, usize, bool) = e;
        let from_cell: CircleCoordinate = cell_at(ec, ea);
        let next: CircleCoordinate = if edir {
            from_cell.next_out()
        } else {
            from_cell.next_clockwise()
        };
        proof {
            vstd::arithmetic::mul::lemma_mul_inequality(
                next.circle as int,
                circles as int,
                outer as int,
            );
            lemma_slot_roundtrip(next.circle as nat, next.arc_index as nat, outer as nat);
        }
        let nidx: usize = coord_to_index(next.circle(), next.arc_index(), outer);
        if st.path[nidx] {
            // The move closes a loop on the current walk: discard it.
            proof {
                let w = choose|tw: int|
                    0 <= tw < pre_options.len() && walk_witness(
                        #[trigger] pre_options[tw],
                        st.path@,
                        outer as nat,
                    );
                let wit = pre_options[w];
                if wit == e {
                    assert(slot_circle(nidx as int, outer as nat) <= wit.0);
                    assert(false);
                } else {
                    let wn: int = if w == t {
                        t as int
                    } else if w == pre_options.len() - 1 {
                        t as int
                    } else {
                        w
                    };
                    assert(options@[wn] == wit);
                }
            }
            continue ;
        }
        // Commit the move: the wall at the move's source cell is drawn.
        let ghost lines_top = st.lines@;
        let ghost arcs_top = st.arcs@;
        let ghost used_mid = st.used@;
        if edir {
            st.lines.push(from_cell);
        } else {
            st.arcs.push(from_cell);
        }
        proof {
            let on = outer as nat;
            if edir {
                assert forall|k: int|
                    0 <= k < lines_top.len() implies !lines_top[k].same_cell(from_cell) by {
                    if lines_top[k].same_cell(from_cell) {
                        assert(walls_contain(lines_top, ec as nat, ea as nat));
                    }
                }
                assert(wall_cells_distinct(st.lines@));
            } else {
                assert forall|k: int|
                    0 <= k < arcs_top.len() implies !arcs_top[k].same_cell(from_cell) by {
                    if arcs_top[k].same_cell(from_cell) {
                        assert(walls_contain(arcs_top, ec as nat, ea as nat));
                    }
                }
                assert(wall_cells_distinct(st.arcs@));
            }
            assert(st.used@[slot_of(ec as nat, ea as nat, on)]);
            assert(walls_marked(st.lines@, st.used@, on));
            assert(walls_marked(st.arcs@, st.used@, on));
        }
        if st.used[nidx] {
            // Joined a cell already in the tree: the walk is complete.
            break ;
        }
        proof {
            lemma_count_true_update(st.used@, nidx as int);
            lemma_count_true_update(st.path@, nidx as int);
            if next.circle == circles {
                assert(st.used@[nidx as int]);
            }
        }
        let ghost path_pre = st.path@;
        st.path.set(nidx, true);
        st.used.set(nidx, true);
        let ghost options_mid = options@;
        options.push((next.circle(), next.arc_index(), false));
        options.push((next.circle(), next.arc_index(), true));
        proof {
            lemma_count_true_le(st.path@);
            let cn = circles as nat;
            let on = outer as nat;
            assert forall|t2: int|
                0 <= t2 < options@.len() implies walk_entry_ok(
                #[trigger] options@[t2],
                st.path@,
                cn,
                on,
            ) by {
                if t2 < options_mid.len() {
                    assert(walk_entry_ok(options_mid[t2], path_pre, cn, on));
                    let oe = options_mid[t2];
                    lemma_cells_mono(oe.0 as nat, cn);
                    lemma_slot_roundtrip(oe.0 as nat, oe.1 as nat, on);
                } else {
                    lemma_slot_roundtrip(next.circle as nat, next.arc_index as nat, on);
                }
            }
            assert forall|t1: int, t2: int|
                0 <= t1 < t2 < options@.len() implies options@[t1] != options@[t2] by {
                if t2 >= options_mid.len() && t1 < options_mid.len() {
                    let oe = options_mid[t1];
                    assert(walk_entry_ok(oe, path_pre, cn, on));
                    if oe.0 == next.circle && oe.1 == next.arc_index {
                        lemma_cells_mono(oe.0 as nat, cn);
                        lemma_slot_roundtrip(oe.0 as nat, oe.1 as nat, on);
                        assert(false);
                    }
                }
            }
            // Entries never point at walls already drawn: the committed wall
            // was its own entry's, removed from the pool, and the two fresh
            // entries sit at a cell that was unmarked, hence wall-free.
            assert forall|k2: int| 0 <= k2 < options_mid.len() implies options_mid[k2] != e by {
                let p: int = if k2 == t {
                    pre_options.len() - 1
                } else {
                    k2
                };
                assert(options_mid[k2] == pre_options[p]);
            }
            assert forall|t2: int|
                0 <= t2 < options@.len() implies entry_wall_undrawn(
                #[trigger] options@[t2],
                st.lines@,
                st.arcs@,
            ) by {
                let oe = options@[t2];
                if t2 < options_mid.len() {
                    assert(oe == options_mid[t2]);
                    assert(entry_wall_undrawn(oe, lines_top, arcs_top));
                    assert(oe != e);
                    if oe.2 {
                        if walls_contain(st.lines@, oe.0 as nat, oe.1 as nat) {
                            let k = choose|k: int|
                                0 <= k < st.lines@.len() && (#[trigger] st.lines@[k]).circle as nat
                                    == oe.0 as nat && st.lines@[k].arc_index as nat == oe.1 as nat;
                            if k < lines_top.len() {
                                assert(walls_contain(lines_top, oe.0 as nat, oe.1 as nat));
                            } else {
                                assert(st.lines@[k] == from_cell);
                                assert(oe == e);
                            }
                            assert(false);
                        }
                    } else {
                        if walls_contain(st.arcs@, oe.0 as nat, oe.1 as nat) {
                            let k = choose|k: int|
                                0 <= k < st.arcs@.len() && (#[trigger] st.arcs@[k]).circle as nat
                                    == oe.0 as nat && st.arcs@[k].arc_index as nat == oe.1 as nat;
                            if k < arcs_top.len() {
                                assert(walls_contain(arcs_top, oe.0 as nat, oe.1 as nat));
                            } else {
                                assert(st.arcs@[k] == from_cell);
                                assert(oe == e);
                            }
                            assert(false);
                        }
                    }
                } else {
                    assert(oe.0 == next.circle && oe.1 == next.arc_index);
                    assert(!used_mid[nidx as int]);
                    if walls_contain(st.lines@, oe.0 as nat, oe.1 as nat) {
                        let k = choose|k: int|
                            0 <= k < st.lines@.len() && (#[trigger] st.lines@[k]).circle as nat
                                == oe.0 as nat && st.lines@[k].arc_index as nat == oe.1 as nat;
                        assert(used_mid[slot_of(oe.0 as nat, oe.1 as nat, on)]);
                        assert(false);
                    }
                    if walls_contain(st.arcs@, oe.0 as nat, oe.1 as nat) {
                        let k = choose|k: int|
                            0 <= k < st.arcs@.len() && (#[trigger] st.arcs@[k]).circle as nat == oe.0
                                as nat && st.arcs@[k].arc_index as nat == oe.1 as nat;
                        assert(used_mid[slot_of(oe.0 as nat, oe.1 as nat, on)]);
                        assert(false);
                    }
                }
            }
            // Re-establish the escape witness.
            let w = choose|tw: int|
                0 <= tw < pre_options.len() && walk_witness(
                    #[trigger] pre_options[tw],
                    path_pre,
                    on,
                );
            let wit = pre_options[w];
            lemma_slot_roundtrip(next.circle as nat, next.arc_index as nat, on);
            if next.circle as nat > wit.0 as nat || wit == e {
                let nw = options@.len() - 1;
                assert(options@[nw] == (next.circle, next.arc_index, true));
                assert forall|k: int|
                    0 <= k < st.path@.len() && st.path@[k] implies slot_circle(k, on)
                    <= options@[nw].0 by {
                    if k != nidx as int {
                        assert(path_pre[k]);
                        assert(slot_circle(k, on) <= wit.0 as nat);
                    }
                }
                assert(walk_witness(options@[nw], st.path@, on));
            } else {
                let wn: int = if w == t {
                    t as int
                } else if w == pre_options.len() - 1 {
                    t as int
                } else {
                    w
                };
                assert(options_mid[wn] == wit);
                assert(options@[wn] == wit);
                assert forall|k: int|
                    0 <= k < st.path@.len() && st.path@[k] implies slot_circle(k, on) <= wit.0 by {
                    if k != nidx as int {
                        assert(path_pre[k]);
                    }
                }
                assert(walk_witness(options@[wn], st.path@, on));
            }
        }
    }
    st
}

/// A pool entry `(circle, arc, direction)`: a real cell of an inner ring,
/// currently on the walk.
spec fn walk_entry_ok(e: (usize, usize, bool), path: Seq<bool>, circles: nat, outer: nat) -> bool {
    &&& 1 <= e.0 < circles
    &&& (e.1 as nat) < cells_in_ring(e.0 as nat)
    &&& 0 <= slot_of(e.0 as nat, e.1 as nat, outer) < path.len()
    &&& path[slot_of(e.0 as nat, e.1 as nat, outer)]
}

/// An entry whose outward move can always leave the walk: its circle is at
/// least the circle of every cell on the walk, so the move's target one
/// circle further out cannot be on the walk.
spec fn walk_witness(e: (usize, usize, bool), path: Seq<bool>, outer: nat) -> bool {
    &&& e.2 == true
    &&& forall|k: int|
        0 <= k < path.len() && path[k] ==> #[trigger] slot_circle(k, outer) <= e.0 as nat
}

/// The entry's own wall — a line for an outward move, an arc for a
/// clockwise move — has not been drawn yet.
spec fn entry_wall_undrawn(
    e: (usize, usize, bool),
    lines: Seq<CircleCoordinate>,
    arcs: Seq<CircleCoordinate>,
) -> bool {
    if e.2 {
        !walls_contain(lines, e.0 as nat, e.1 as nat)
    } else {
        !walls_contain(arcs, e.0 as nat, e.1 as nat)
    }
}

/// No two walls of the list stand at the same cell.
pub open spec fn wall_cells_distinct(walls: Seq<CircleCoordinate>) -> bool {
    forall|k1: int, k2: int| 0 <= k1 < k2 < walls.len() ==> !walls[k1].same_cell(walls[k2])
}

/// Every wall's cell is marked in `used`.
spec fn walls_marked(walls: Seq<CircleCoordinate>, used: Seq<bool>, outer: nat) -> bool {
    forall|k: int|
        0 <= k < walls.len() ==> 0 <= slot_of(
            (#[trigger] walls[k]).circle as nat,
            walls[k].arc_index as nat,
            outer,
        ) < used.len() && used[slot_of(walls[k].circle as nat, walls[k].arc_index as nat, outer)]
}

/// Run one random walk from every enumerated cell not yet part of the
/// tree, in the shuffled order.
fn build_spanning_tree<R: RandomSource>(
    free: Vec<(usize, usize)>,
    circles: usize,
    outer: usize,
    st: BuilderState,
    rng: &mut R,
) -> (r: BuilderState)
    requires
        st.wf(circles as nat, outer as nat),
        circles * outer <= usize::MAX,
        forall|t: int|
            0 <= t < free@.len() ==> 1 <= (#[trigger] free@[t]).0 < circles && (free@[t].1 as nat)
                < cells_in_ring(free@[t].0 as nat),
    ensures
        r.wf(circles as nat, outer as nat),
        forall|k: int| 0 <= k < st.used@.len() && st.used@[k] ==> r.used@[k],
        forall|t: int|
            0 <= t < free@.len() ==> r.used@[slot_of(
                (#[trigger] free@[t]).0 as nat,
                free@[t].1 as nat,
                outer as nat,
            )],
        r.lines@.len() >= st.lines@.len(),
        forall|k: int| 0 <= k < st.lines@.len() ==> r.lines@[k] == st.lines@[k],
        r.arcs@.len() >= st.arcs@.len(),
        forall|k: int| 0 <= k < st.arcs@.len() ==> r.arcs@[k] == st.arcs@[k],
{
    let mut st = st;
    let ghost lines0 = st.lines@;
    let ghost arcs0 = st.arcs@;
    let ghost used0 = st.used@;
    let mut i: usize = 0;
    while i < free.len()
        invariant
            st.wf(circles as nat, outer as nat),
            circles * outer <= usize::MAX,
            i <= free@.len(),
            forall|t: int|
                0 <= t < free@.len() ==> 1 <= (#[trigger] free@[t]).0 < circles && (free@[t].1
                    as nat) < cells_in_ring(free@[t].0 as nat),
            used0.len() == st.used@.len(),
            forall|k: int| 0 <= k < used0.len() && used0[k] ==> st.used@[k],
            st.lines@.len() >= lines0.len(),
            forall|k: int| 0 <= k < lines0.len() ==> st.lines@[k] == lines0[k],
            st.arcs@.len() >= arcs0.len(),
            forall|k: int| 0 <= k < arcs0.len() ==> st.arcs@[k] == arcs0[k],
            forall|t: int|
                0 <= t < i ==> st.used@[slot_of(
                    (#[trigger] free@[t]).0 as nat,
                    free@[t].1 as nat,
                    outer as nat,
                )],
        decreases free@.len() - i,
    {
        let entry: (usize, usize) = free[i];
        proof {
            lemma_cells_mono(entry.0 as nat, circles as nat);
            vstd::arithmetic::mul::lemma_mul_inequality(
                entry.0 as int,
                circles as int,
                outer as int,
            );
        }
        let fidx: usize = coord_to_index(entry.0, entry.1, outer);
        let ghost st_pre = st;
        if !st.used[fidx] {
            st = perform_random_walk(entry.0, entry.1, circles, outer, st, rng);
        }
        proof {
            assert forall|t: int|
                0 <= t <= i implies st.used@[slot_of(
                (#[trigger] free@[t]).0 as nat,
                free@[t].1 as nat,
                outer as nat,
            )] by {
                let c = free@[t].0 as nat;
                let a = free@[t].1 as nat;
                lemma_cells_mono(c, circles as nat);
                assert(0 <= slot_of(c, a, outer as nat) < circles * outer) by (nonlinear_arith)
                    requires
                        1 <= c <= circles,
                        a < outer,
                        slot_of(c, a, outer as nat) == (c - 1) * (outer as nat) + a,
                ;
                if t < i {
                    assert(st_pre.used@[slot_of(c, a, outer as nat)]);
                } else {
                    assert(slot_of(c, a, outer as nat) == fidx as int);
                }
            }
        }
        i = i + 1;
    }
    st
}

/// Close the outermost circle: add an arc wall at every cell of circle
/// `circles`, sealing the maze's boundary.
fn add_outer_boundary(arcs: Vec<CircleCoordinate>, circles: usize) -> (r: Vec<CircleCoordinate>)
    requires
        circles >= 1,
        ring_ok(circles as nat),
        wall_cells_distinct(arcs@),
        forall|k: int| 0 <= k < arcs@.len() ==> (#[trigger] arcs@[k]).circle < circles,
    ensures
        r@.len() == arcs@.len() + cells_in_ring(circles as nat),
        forall|k: int| 0 <= k < arcs@.len() ==> r@[k] == arcs@[k],
        forall|k: int|
            arcs@.len() <= k < r@.len() ==> (#[trigger] r@[k]).valid() && r@[k].circle == circles
                && r@[k].arc_index as nat == k - arcs@.len(),
        forall|a: nat|
            a < cells_in_ring(circles as nat) ==> #[trigger] walls_contain(r@, circles as nat, a),
        wall_cells_distinct(r@),
{
    let mut arcs = arcs;
    let ghost arcs0 = arcs@;
    let outer: usize = calc_total_arcs(circles);
    let mut a: usize = 0;
    while a < outer
        invariant
            a <= outer,
            ring_ok(circles as nat),
            circles >= 1,
            outer as nat == cells_in_ring(circles as nat),
            arcs@.len() == arcs0.len() + a,
            wall_cells_distinct(arcs0),
            forall|k: int| 0 <= k < arcs0.len() ==> arcs@[k] == arcs0[k] && (#[trigger] arcs@[k]).circle < circles,
            forall|k: int|
                arcs0.len() <= k < arcs@.len() ==> (#[trigger] arcs@[k]).valid() && arcs@[k].circle
                    == circles && arcs@[k].arc_index as nat == k - arcs0.len(),
            wall_cells_distinct(arcs@),
        decreases outer - a,
    {
        arcs.push(cell_at(circles, a));
        a = a + 1;
    }
    proof {
        assert forall|a2: nat| a2 < cells_in_ring(circles as nat) implies #[trigger] walls_contain(
            arcs@,
            circles as nat,
            a2,
        ) by {
            let k = arcs0.len() + a2;
            assert(arcs@[k as int].circle as nat == circles as nat && arcs@[k as int].arc_index
                as nat == a2);
        }
    }
    arcs
}

/// Generate a maze of `circles` rings with walls drawn by random walks fed
/// from `rng`.
///
/// The drawn walls, boundary included, number exactly one per cell of
/// circles `1..=circles` — the count that makes the open passages between
/// the maze's cells (the apex plus circles `1..circles`) form a spanning
/// tree. The outermost circle is fully closed, and every line wall lies on
/// an inner circle. The boundary arcs stand as the trailing block of the
/// arc list, in ascending arc order. The apex opens to whichever circle-1
/// cells carry no arc wall — one or more, as the walk happens to leave
/// them.
pub fn factory<R: RandomSource>(circles: usize, rng: &mut R) -> (m: Maze)
    requires
        ring_ok(circles as nat),
        (circles as nat) * cells_in_ring(circles as nat) <= usize::MAX,
    ensures
        m.wf(),
        m.circles == circles,
        circles == 0 ==> m.arcs@.len() == 0 && m.lines@.len() == 0,
        circles >= 1 ==> m.arcs@.len() + m.lines@.len() == total_cells(circles as nat),
        circles >= 1 ==> forall|a: nat|
            a < cells_in_ring(circles as nat) ==> #[trigger] m.has_arc(circles as nat, a),
        forall|k: int|
            0 <= k < m.lines@.len() ==> 1 <= (#[trigger] m.lines@[k]).circle < circles,
        forall|k: int| 0 <= k < m.arcs@.len() ==> 1 <= (#[trigger] m.arcs@[k]).circle <= circles,
        wall_cells_distinct(m.arcs@),
        wall_cells_distinct(m.lines@),
        circles >= 1 ==> m.arcs@.len() >= cells_in_ring(circles as nat) && (forall|k: int|
            m.arcs@.len() - cells_in_ring(circles as nat) <= k < m.arcs@.len()
                ==> (#[trigger] m.arcs@[k]).circle == circles && m.arcs@[k].arc_index as nat == k
                - (m.arcs@.len() - cells_in_ring(circles as nat))),
{
    if circles == 0 {
        return Maze { circles, arcs: Vec::new(), lines: Vec::new() };
    }
    let outer: usize = calc_total_arcs(circles);
    let tracking: (Vec<bool>, Vec<bool>) = initialize_tracking_vectors(circles, outer);
    let free: Vec<(usize, usize)> = generate_shuffled_coordinates(circles, rng);
    let ghost free_view = free@;
    let st = BuilderState { path: tracking.0, used: tracking.1, lines: Vec::new(), arcs: Vec::new() };
    proof {
        let cn = circles as nat;
        let on = outer as nat;
        vstd::arithmetic::mul::lemma_mul_is_distributive_sub_other_way(
            outer as int,
            circles as int,
            1,
        );
        assert forall|k: int| 0 <= k < st.used@.len() && st.used@[k] implies slot_real(k, on) by {
            lemma_slot_bounds(k, cn, on);
            if slot_circle(k, on) < cn {
                assert(k < (circles - 1) * outer) by (nonlinear_arith)
                    requires
                        k == (slot_circle(k, on) - 1) * (outer as int) + slot_arc(k, on),
                        1 <= slot_circle(k, on) < circles,
                        0 <= slot_arc(k, on) < outer,
                ;
            }
        }
        assert forall|k: int|
            0 <= k < st.used@.len() && slot_circle(k, on) == cn implies st.used@[k] by {
            lemma_slot_bounds(k, cn, on);
            assert(k >= (circles - 1) * outer) by (nonlinear_arith)
                requires
                    k == (slot_circle(k, on) - 1) * (outer as int) + slot_arc(k, on),
                    slot_circle(k, on) == circles,
                    0 <= slot_arc(k, on),
            ;
        }
        assert(st.wf(cn, on));
    }
    let st = build_spanning_tree(free, circles, outer, st, rng);
    proof {
        let cn = circles as nat;
        let on = outer as nat;
        assert forall|k: int| 0 <= k < st.used@.len() implies st.used@[k] == slot_real(k, on) by {
            lemma_slot_bounds(k, cn, on);
            let sc = slot_circle(k, on);
            let sa = slot_arc(k, on);
            if !st.used@[k] && slot_real(k, on) {
                assert(sc < cn);
                assert(lists_cell(free_view, sc, sa));
                let t0 = choose|t: int|
                    0 <= t < free_view.len() && (#[trigger] free_view[t]).0 as nat == sc
                        && free_view[t].1 as nat == sa;
                assert(st.used@[slot_of(free_view[t0].0 as nat, free_view[t0].1 as nat, on)]);
                assert(false);
            }
        }
        assert(st.used@ =~= real_slot_pattern(cn, on));
        assert forall|c: nat| 1 <= c <= cn implies #[trigger] cells_in_ring(c) <= on by {
            lemma_cells_mono(c, cn);
        }
        lemma_real_pattern_count(cn, on);
    }
    let arcs: Vec<CircleCoordinate> = add_outer_boundary(st.arcs, circles);
    Maze { circles, arcs, lines: st.lines }
}

impl BuilderState {
    /// [`BuilderState::wf`] without the wall-count equation, which shifts
    /// by one inside a walk.
    spec fn wf_except_count(self, circles: nat, outer: nat) -> bool {
        &&& outer == cells_in_ring(circles)
        &&& ring_ok(circles)
        &&& self.path@.len() == circles * outer
        &&& self.used@.len() == circles * outer
        &&& forall|k: int|
            0 <= k < self.used@.len() && self.used@[k] ==> slot_real(k, outer)
        &&& forall|k: int|
            0 <= k < self.used@.len() && slot_circle(k, outer) == circles ==> self.used@[k]
        &&& forall|k: int|
            0 <= k < self.arcs@.len() ==> (#[trigger] self.arcs@[k]).valid() && 1
                <= self.arcs@[k].circle < circles
        &&& forall|k: int|
            0 <= k < self.lines@.len() ==> (#[trigger] self.lines@[k]).valid() && 1
                <= self.lines@[k].circle < circles
        &&& wall_cells_distinct(self.arcs@)
        &&& wall_cells_distinct(self.lines@)
        &&& walls_marked(self.arcs@, self.used@, outer)
        &&& walls_marked(self.lines@, self.used@, outer)
    }
}

} // verus!

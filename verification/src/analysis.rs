//! Breadth-first analysis of a maze's cell graph.
//!
//! The graph's vertices are the maze's cells: the apex plus every cell of
//! the circles `1..circles`; edges are the unobstructed steps of
//! [`Maze::step_open`]. Breadth-first search yields a visit order and a
//! parent link per visited cell; from those come shortest paths, the
//! farthest cell from a start, and the tree diameter used to pick start
//! and finish of a maze.

use vstd::prelude::*;

verus! {

use crate::building_blocks::{
    CircleCoordinate, calc_total_arcs, cells_in_ring, lemma_cells_mono, ring_ok,
};
use crate::maze::{
    Maze, apex_coordinate, count_true, lemma_count_true_le, lemma_count_true_update,
    lemma_count_true_zero, lemma_slot_roundtrip, slot_of,
};

/// The cell lies in the maze's cell graph: the apex, or a cell of an inner
/// circle.
pub open spec fn in_domain(c: CircleCoordinate, circles: nat) -> bool {
    c.circle == 0 || (c.circle as nat) < circles
}

/// Both coordinates address the same vertex of the cell graph; every
/// circle-0 coordinate stands for the single apex cell.
pub open spec fn same_vertex(a: CircleCoordinate, b: CircleCoordinate) -> bool {
    if a.circle == 0 {
        b.circle == 0
    } else {
        a.circle == b.circle && a.arc_index == b.arc_index
    }
}

/// The visit index of a cell in the search's bookkeeping: 0 for the apex,
/// then one slot per `(circle, arc)` pair of the inner circles.
pub open spec fn vertex_slot(c: CircleCoordinate, outer: nat) -> int {
    if c.circle == 0 {
        0
    } else {
        1 + slot_of(c.circle as nat, c.arc_index as nat, outer)
    }
}

/// The coordinate addresses the graph vertex `(r2, j)`: the apex when
/// `r2` is 0, the cell `(r2, j)` otherwise.
pub open spec fn vertex_matches(c: CircleCoordinate, r2: nat, j: nat) -> bool {
    if r2 == 0 {
        c.circle == 0
    } else {
        c.circle as nat == r2 && c.arc_index as nat == j
    }
}

/// A breadth-first traversal: the cells in dequeue order, and for each
/// visited cell but the first the position of the neighbour it was first
/// reached from.
pub struct BfsResult {
    pub order: Vec<CircleCoordinate>,
    pub parent: Vec<usize>,
}

impl BfsResult {
    /// Every visited cell is a valid in-domain cell, visited once, and
    /// every cell but the start is linked to an earlier visited cell it is
    /// one unobstructed step away from — in both directions.
    pub open spec fn wf(self, m: Maze, start: CircleCoordinate) -> bool {
        &&& self.order@.len() >= 1
        &&& self.order@[0] == start
        &&& self.parent@.len() == self.order@.len()
        &&& forall|t: int|
            0 <= t < self.order@.len() ==> (#[trigger] self.order@[t]).valid() && in_domain(
                self.order@[t],
                m.circles as nat,
            ) && (self.order@[t].circle == 0 ==> self.order@[t].arc_index == 0)
        &&& forall|t1: int, t2: int|
            0 <= t1 < t2 < self.order@.len() ==> !same_vertex(self.order@[t1], self.order@[t2])
        &&& forall|t: int|
            1 <= t < self.order@.len() ==> (#[trigger] self.parent@[t]) < t && m.step_open(
                self.order@[self.parent@[t] as int].circle as nat,
                self.order@[self.parent@[t] as int].arc_index as nat,
                self.order@[t].circle as nat,
                self.order@[t].arc_index as nat,
            )
        &&& forall|t1: int, t2: int|
            1 <= t1 <= t2 < self.parent@.len() ==> self.parent@[t1] <= self.parent@[t2]
        &&& forall|t: int, r2: nat, j: nat|
            0 <= t < self.order@.len() && #[trigger] m.step_open(
                self.order@[t].circle as nat,
                self.order@[t].arc_index as nat,
                r2,
                j,
            ) && (r2 == 0 || r2 < m.circles as nat) ==> exists|k: int|
                0 <= k < self.order@.len() && vertex_matches(#[trigger] self.order@[k], r2, j) && (
                k == 0 || self.parent@[k] <= t)
    }
}

impl Maze {
    /// Visit every cell reachable from `start` in breadth-first order,
    /// recording for each cell the cell it was discovered from.
    #[verifier::rlimit(100)]
    pub fn breadth_first_search(&self, start: &CircleCoordinate) -> (r: BfsResult)
        requires
            self.wf(),
            start.valid(),
            start.circle == 0 ==> start.arc_index == 0,
            in_domain(*start, self.circles as nat),
            (self.circles as nat) * cells_in_ring(self.circles as nat) < usize::MAX,
        ensures
            r.wf(*self, *start),
    {
        let circles: usize = self.circles;
        let mut order: Vec<CircleCoordinate> = Vec::new();
        let mut parent: Vec<usize> = Vec::new();
        order.push(*start);
        parent.push(0);
        if circles == 0 {
            return BfsResult { order, parent };
        }
        let outer: usize = calc_total_arcs(circles);
        let ghost on = outer as nat;
        proof {
            vstd::arithmetic::mul::lemma_mul_is_distributive_sub_other_way(
                outer as int,
                circles as int,
                1,
            );
        }
        let size: usize = 1 + (circles - 1) * outer;
        let mut visited: Vec<bool> = crate::maze::make_bool_vec(size, false);
        let sdi: usize = vertex_slot_of(start, circles, outer);
        proof {
            lemma_count_true_zero(visited@);
            lemma_count_true_update(visited@, sdi as int);
        }
        visited.set(sdi, true);
        proof {
            assert forall|d: int| 0 <= d < size && visited@[d] implies exists|t: int|
                0 <= t < order@.len() && vertex_slot(#[trigger] order@[t], on) == d by {
                assert(d == sdi);
                assert(vertex_slot(order@[0], on) == sdi);
            }
        }
        let mut head: usize = 0;
        while head < order.len()
            invariant
                self.wf(),
                circles == self.circles,
                circles >= 1,
                on == outer,
                outer as nat == cells_in_ring(circles as nat),
                ring_ok(circles as nat),
                (circles as nat) * (outer as nat) < usize::MAX,
                size == 1 + (circles - 1) * outer,
                visited@.len() == size,
                parent@.len() == order@.len(),
                head <= order@.len(),
                order@.len() >= 1,
                order@[0] == *start,
                count_true(visited@) == order@.len(),
                forall|t: int|
                    0 <= t < order@.len() ==> (#[trigger] order@[t]).valid() && in_domain(
                        order@[t],
                        circles as nat,
                    ) && (order@[t].circle == 0 ==> order@[t].arc_index == 0),
                forall|t: int|
                    0 <= t < order@.len() ==> 0 <= vertex_slot(#[trigger] order@[t], on) < size
                        && visited@[vertex_slot(order@[t], on)],
                forall|t1: int, t2: int|
                    0 <= t1 < t2 < order@.len() ==> vertex_slot(order@[t1], on) != vertex_slot(
                        order@[t2],
                        on,
                    ),
                forall|t: int|
                    1 <= t < order@.len() ==> (#[trigger] parent@[t]) < t && self.step_open(
                        order@[parent@[t] as int].circle as nat,
                        order@[parent@[t] as int].arc_index as nat,
                        order@[t].circle as nat,
                        order@[t].arc_index as nat,
                    ),
                forall|d: int|
                    0 <= d < size && (#[trigger] visited@[d]) ==> exists|t: int|
                        0 <= t < order@.len() && vertex_slot(#[trigger] order@[t], on) == d,
                forall|t1: int, t2: int|
                    1 <= t1 <= t2 < parent@.len() ==> parent@[t1] <= parent@[t2],
                forall|t: int| 1 <= t < parent@.len() ==> (#[trigger] parent@[t]) <= head,
                forall|t: int, r2: nat, j2: nat|
                    0 <= t < head && #[trigger] self.step_open(
                        order@[t].circle as nat,
                        order@[t].arc_index as nat,
                        r2,
                        j2,
                    ) && (r2 == 0 || r2 < circles as nat) ==> exists|k: int|
                        0 <= k < order@.len() && vertex_matches(#[trigger] order@[k], r2, j2) && (k
                            == 0 || parent@[k] <= t),
            decreases size - count_true(visited@), order@.len() - head,
        {
            let cur: CircleCoordinate = order[head];
            proof {
                lemma_cells_mono((cur.circle + 1) as nat, circles as nat);
                lemma_count_true_le(visited@);
            }
            let neighbours: Vec<CircleCoordinate> = self.accessible_neighbours(&cur);
            let ghost pre_len = order@.len();
            let mut j: usize = 0;
            while j < neighbours.len()
                invariant
                    order@.len() >= pre_len,
                    self.wf(),
                    circles == self.circles,
                    circles >= 1,
                    on == outer,
                    outer as nat == cells_in_ring(circles as nat),
                    ring_ok(circles as nat),
                    (circles as nat) * (outer as nat) < usize::MAX,
                    size == 1 + (circles - 1) * outer,
                    visited@.len() == size,
                    parent@.len() == order@.len(),
                    head < order@.len(),
                    order@[0] == *start,
                    count_true(visited@) == order@.len(),
                    j <= neighbours@.len(),
                    forall|t: int|
                        0 <= t < neighbours@.len() ==> (#[trigger] neighbours@[t]).valid()
                            && self.step_open(
                            cur.circle as nat,
                            cur.arc_index as nat,
                            neighbours@[t].circle as nat,
                            neighbours@[t].arc_index as nat,
                        ),
                    cur == order@[head as int],
                    forall|t: int|
                        0 <= t < order@.len() ==> (#[trigger] order@[t]).valid() && in_domain(
                            order@[t],
                            circles as nat,
                        ) && (order@[t].circle == 0 ==> order@[t].arc_index == 0),
                    forall|t: int|
                        0 <= t < order@.len() ==> 0 <= vertex_slot(#[trigger] order@[t], on) < size
                            && visited@[vertex_slot(order@[t], on)],
                    forall|t1: int, t2: int|
                        0 <= t1 < t2 < order@.len() ==> vertex_slot(order@[t1], on) != vertex_slot(
                            order@[t2],
                            on,
                        ),
                    forall|t: int|
                        1 <= t < order@.len() ==> (#[trigger] parent@[t]) < t && self.step_open(
                            order@[parent@[t] as int].circle as nat,
                            order@[parent@[t] as int].arc_index as nat,
                            order@[t].circle as nat,
                            order@[t].arc_index as nat,
                        ),
                    forall|d: int|
                        0 <= d < size && (#[trigger] visited@[d]) ==> exists|t: int|
                            0 <= t < order@.len() && vertex_slot(#[trigger] order@[t], on) == d,
                    forall|t1: int, t2: int|
                        1 <= t1 <= t2 < parent@.len() ==> parent@[t1] <= parent@[t2],
                    forall|t: int| 1 <= t < parent@.len() ==> (#[trigger] parent@[t]) <= head,
                    forall|t: int, r2: nat, j2: nat|
                        0 <= t < head && #[trigger] self.step_open(
                            order@[t].circle as nat,
                            order@[t].arc_index as nat,
                            r2,
                            j2,
                        ) && (r2 == 0 || r2 < circles as nat) ==> exists|k: int|
                            0 <= k < order@.len() && vertex_matches(#[trigger] order@[k], r2, j2)
                                && (k == 0 || parent@[k] <= t),
                    forall|t2: int|
                        0 <= t2 < j && (#[trigger] neighbours@[t2]).circle < circles ==> exists|
                        k: int,
                    |
                        0 <= k < order@.len() && vertex_matches(
                            #[trigger] order@[k],
                            neighbours@[t2].circle as nat,
                            neighbours@[t2].arc_index as nat,
                        ) && (k == 0 || parent@[k] <= head),
                decreases neighbours@.len() - j,
            {
                let nb: CircleCoordinate = neighbours[j];
                if nb.circle() < circles {
                    let di: usize = vertex_slot_of(&nb, circles, outer);
                    let ghost order_pre = order@;
                    let ghost parent_pre = parent@;
                    let ghost visited_pre = visited@;
                    if !visited[di] {
                        proof {
                            lemma_count_true_update(visited@, di as int);
                        }
                        visited.set(di, true);
                        order.push(nb);
                        parent.push(head);
                    }
                    proof {
                        assert(exists|k: int|
                            0 <= k < order@.len() && vertex_matches(
                                #[trigger] order@[k],
                                nb.circle as nat,
                                nb.arc_index as nat,
                            ) && (k == 0 || parent@[k] <= head)) by {
                            if visited_pre[di as int] {
                                let t0 = choose|t: int|
                                    0 <= t < order_pre.len() && vertex_slot(
                                        #[trigger] order_pre[t],
                                        on,
                                    ) == di;
                                assert(order@[t0] == order_pre[t0]);
                                if order_pre[t0].circle as nat >= 1 {
                                    lemma_cells_mono(order_pre[t0].circle as nat, circles as nat);
                                }
                                if nb.circle as nat >= 1 {
                                    lemma_cells_mono(nb.circle as nat, circles as nat);
                                }
                                lemma_slot_to_match(
                                    order_pre[t0],
                                    nb.circle as nat,
                                    nb.arc_index as nat,
                                    on,
                                );
                                assert(vertex_matches(order@[t0], nb.circle as nat, nb.arc_index as nat));
                                assert(t0 == 0 || parent@[t0] == parent_pre[t0]);
                            } else {
                                let last = order@.len() - 1;
                                assert(order@[last] == nb);
                                assert(vertex_matches(order@[last], nb.circle as nat, nb.arc_index as nat));
                                assert(parent@[last] == head);
                            }
                        }
                        assert forall|d: int|
                            0 <= d < size && (#[trigger] visited@[d]) implies exists|t: int|
                                0 <= t < order@.len() && vertex_slot(#[trigger] order@[t], on)
                                    == d by {
                            if visited_pre[d] {
                                let t0 = choose|t: int|
                                    0 <= t < order_pre.len() && vertex_slot(
                                        #[trigger] order_pre[t],
                                        on,
                                    ) == d;
                                assert(order@[t0] == order_pre[t0]);
                                assert(vertex_slot(order@[t0], on) == d);
                            } else {
                                let last = order@.len() - 1;
                                assert(vertex_slot(order@[last], on) == di);
                            }
                        }
                        assert forall|t: int, r2: nat, j2: nat|
                            0 <= t < head && #[trigger] self.step_open(
                                order@[t].circle as nat,
                                order@[t].arc_index as nat,
                                r2,
                                j2,
                            ) && (r2 == 0 || r2 < circles as nat) implies exists|k: int|
                                0 <= k < order@.len() && vertex_matches(
                                    #[trigger] order@[k],
                                    r2,
                                    j2,
                                ) && (k == 0 || parent@[k] <= t) by {
                            assert(order@[t] == order_pre[t]);
                            assert(self.step_open(
                                order_pre[t].circle as nat,
                                order_pre[t].arc_index as nat,
                                r2,
                                j2,
                            ));
                            let k0 = choose|k: int|
                                0 <= k < order_pre.len() && vertex_matches(
                                    #[trigger] order_pre[k],
                                    r2,
                                    j2,
                                ) && (k == 0 || parent_pre[k] <= t);
                            assert(order@[k0] == order_pre[k0]);
                            assert(k0 == 0 || parent@[k0] == parent_pre[k0]);
                        }
                        assert forall|t2: int|
                            0 <= t2 < j + 1 && (#[trigger] neighbours@[t2]).circle
                                < circles implies exists|k: int|
                                0 <= k < order@.len() && vertex_matches(
                                    #[trigger] order@[k],
                                    neighbours@[t2].circle as nat,
                                    neighbours@[t2].arc_index as nat,
                                ) && (k == 0 || parent@[k] <= head) by {
                            if t2 < j {
                                let k0 = choose|k: int|
                                    0 <= k < order_pre.len() && vertex_matches(
                                        #[trigger] order_pre[k],
                                        neighbours@[t2].circle as nat,
                                        neighbours@[t2].arc_index as nat,
                                    ) && (k == 0 || parent_pre[k] <= head);
                                assert(order@[k0] == order_pre[k0]);
                                assert(k0 == 0 || parent@[k0] == parent_pre[k0]);
                            }
                        }
                    }
                }
                j = j + 1;
            }
            proof {
                lemma_count_true_le(visited@);
                assert forall|r2: nat, j2: nat|
                    #[trigger] self.step_open(cur.circle as nat, cur.arc_index as nat, r2, j2) && (
                    r2 == 0 || r2 < circles as nat) implies exists|k: int|
                        0 <= k < order@.len() && vertex_matches(#[trigger] order@[k], r2, j2) && (k
                            == 0 || parent@[k] <= head) by {
                    let kk = choose|kk: int|
                        0 <= kk < neighbours@.len() && (#[trigger] neighbours@[kk]).circle as nat
                            == r2 && neighbours@[kk].arc_index as nat == j2;
                    assert(neighbours@[kk].circle < circles);
                    let k0 = choose|k: int|
                        0 <= k < order@.len() && vertex_matches(
                            #[trigger] order@[k],
                            neighbours@[kk].circle as nat,
                            neighbours@[kk].arc_index as nat,
                        ) && (k == 0 || parent@[k] <= head);
                    assert(vertex_matches(order@[k0], r2, j2));
                }
                assert forall|t: int, r2: nat, j2: nat|
                    0 <= t < head + 1 && #[trigger] self.step_open(
                        order@[t].circle as nat,
                        order@[t].arc_index as nat,
                        r2,
                        j2,
                    ) && (r2 == 0 || r2 < circles as nat) implies exists|k: int|
                        0 <= k < order@.len() && vertex_matches(#[trigger] order@[k], r2, j2) && (k
                            == 0 || parent@[k] <= t) by {
                    if t == head {
                        assert(order@[t] == cur);
                        assert(self.step_open(cur.circle as nat, cur.arc_index as nat, r2, j2));
                    }
                }
            }
            head = head + 1;
        }
        BfsResult { order, parent }
    }
}

/// Consecutive path cells are one unobstructed step apart, in both
/// directions.
pub open spec fn path_connected(m: Maze, p: Seq<CircleCoordinate>) -> bool {
    forall|k: int|
        0 <= k < p.len() - 1 ==> #[trigger] m.step_open(
            p[k].circle as nat,
            p[k].arc_index as nat,
            p[k + 1].circle as nat,
            p[k + 1].arc_index as nat,
        ) && m.step_open(
            p[k + 1].circle as nat,
            p[k + 1].arc_index as nat,
            p[k].circle as nat,
            p[k].arc_index as nat,
        )
}

/// Follow parent links from the visited cell at `ti` back to the start and
/// return the path start-to-cell.
#[verifier::rlimit(100)]
fn reconstruct_path(
    m: &Maze,
    bfs: &BfsResult,
    ti: usize,
    Ghost(start): Ghost<CircleCoordinate>,
) -> (p: Vec<CircleCoordinate>)
    requires
        bfs.wf(*m, start),
        ti < bfs.order@.len(),
    ensures
        p@.len() >= 1,
        p@[0] == start,
        p@[p@.len() - 1] == bfs.order@[ti as int],
        p@.len() == visit_depth(bfs.parent@, ti as int) + 1,
        forall|k: int|
            0 <= k < p@.len() ==> (#[trigger] p@[k]).valid() && in_domain(p@[k], m.circles as nat),
        forall|k1: int, k2: int| 0 <= k1 < k2 < p@.len() ==> !same_vertex(p@[k1], p@[k2]),
        path_connected(*m, p@),
{
    let mut rev: Vec<CircleCoordinate> = Vec::new();
    let mut cur: usize = ti;
    rev.push(bfs.order[cur]);
    let ghost mut idxs: Seq<int> = seq![ti as int];
    while cur != 0
        invariant
            bfs.parent@.len() == bfs.order@.len(),
            forall|t: int|
                1 <= t < bfs.order@.len() ==> (#[trigger] bfs.parent@[t]) < t && m.step_open(
                    bfs.order@[bfs.parent@[t] as int].circle as nat,
                    bfs.order@[bfs.parent@[t] as int].arc_index as nat,
                    bfs.order@[t].circle as nat,
                    bfs.order@[t].arc_index as nat,
                ),
            forall|t: int|
                0 <= t < bfs.order@.len() ==> (#[trigger] bfs.order@[t]).valid() && in_domain(
                    bfs.order@[t],
                    m.circles as nat,
                ) && (bfs.order@[t].circle == 0 ==> bfs.order@[t].arc_index == 0),
            cur < bfs.order@.len(),
            rev@.len() >= 1,
            rev@[0] == bfs.order@[ti as int],
            rev@[rev@.len() - 1] == bfs.order@[cur as int],
            idxs.len() == rev@.len(),
            idxs[idxs.len() - 1] == cur as int,
            forall|q: int|
                0 <= q < idxs.len() ==> 0 <= #[trigger] idxs[q] < bfs.order@.len() && rev@[q]
                    == bfs.order@[idxs[q]],
            forall|q1: int, q2: int| 0 <= q1 < q2 < idxs.len() ==> idxs[q1] > idxs[q2],
            forall|q: int|
                0 <= q < idxs.len() ==> visit_depth(bfs.parent@, #[trigger] idxs[q]) + q
                    == visit_depth(bfs.parent@, ti as int),
            forall|k: int|
                0 <= k < rev@.len() ==> (#[trigger] rev@[k]).valid() && in_domain(
                    rev@[k],
                    m.circles as nat,
                ) && (rev@[k].circle == 0 ==> rev@[k].arc_index == 0),
            forall|k: int|
                0 <= k < rev@.len() - 1 ==> #[trigger] m.step_open(
                    rev@[k + 1].circle as nat,
                    rev@[k + 1].arc_index as nat,
                    rev@[k].circle as nat,
                    rev@[k].arc_index as nat,
                ),
        decreases cur,
    {
        let ghost prev = cur as int;
        cur = bfs.parent[cur];
        rev.push(bfs.order[cur]);
        proof {
            idxs = idxs.push(cur as int);
            assert(visit_depth(bfs.parent@, prev) == visit_depth(bfs.parent@, cur as int) + 1);
            assert forall|q1: int, q2: int|
                0 <= q1 < q2 < idxs.len() implies idxs[q1] > idxs[q2] by {
                if q2 == idxs.len() - 1 {
                    assert(idxs[q1] >= idxs[idxs.len() - 2] == prev);
                }
            }
        }
    }
    let mut p: Vec<CircleCoordinate> = Vec::new();
    let mut k: usize = rev.len();
    while k > 0
        invariant
            k <= rev@.len(),
            p@.len() == rev@.len() - k,
            forall|t: int| 0 <= t < p@.len() ==> p@[t] == rev@[rev@.len() - 1 - t],
        decreases k,
    {
        k = k - 1;
        p.push(rev[k]);
    }
    proof {
        let pv = p@;
        assert forall|t: int|
            0 <= t < pv.len() - 1 implies #[trigger] m.step_open(
            pv[t].circle as nat,
            pv[t].arc_index as nat,
            pv[t + 1].circle as nat,
            pv[t + 1].arc_index as nat,
        ) && m.step_open(
            pv[t + 1].circle as nat,
            pv[t + 1].arc_index as nat,
            pv[t].circle as nat,
            pv[t].arc_index as nat,
        ) by {
            let kk = rev@.len() - 2 - t;
            assert(pv[t] == rev@[kk + 1] && pv[t + 1] == rev@[kk]);
            assert(m.step_open(
                rev@[kk + 1].circle as nat,
                rev@[kk + 1].arc_index as nat,
                rev@[kk].circle as nat,
                rev@[kk].arc_index as nat,
            ));
            m.lemma_step_open_symmetric(
                rev@[kk + 1].circle as nat,
                rev@[kk + 1].arc_index as nat,
                rev@[kk].circle as nat,
                rev@[kk].arc_index as nat,
            );
        }
        assert(path_connected(*m, pv));
        let ll = rev@.len();
        assert forall|k1: int, k2: int|
            0 <= k1 < k2 < pv.len() implies !same_vertex(pv[k1], pv[k2]) by {
            let q1 = ll - 1 - k1;
            let q2 = ll - 1 - k2;
            assert(pv[k1] == rev@[q1] && pv[k2] == rev@[q2]);
            assert(rev@[q1] == bfs.order@[idxs[q1]] && rev@[q2] == bfs.order@[idxs[q2]]);
            assert(idxs[q2] > idxs[q1]);
            assert(!same_vertex(bfs.order@[idxs[q1]], bfs.order@[idxs[q2]]));
        }
    }
    p
}

impl Maze {
    /// The breadth-first path from `start` to `finish`, or `None` exactly
    /// when `finish` is unreachable from `start`. A returned path begins at
    /// `start`, ends at `finish`'s cell, visits each cell once, makes only
    /// mutual one-step moves, and no shorter walk between its endpoints
    /// exists.
    pub fn shortest_path(&self, start: &CircleCoordinate, finish: &CircleCoordinate) -> (r: Option<
        Vec<CircleCoordinate>,
    >)
        requires
            self.wf(),
            start.valid(),
            start.circle == 0 ==> start.arc_index == 0,
            in_domain(*start, self.circles as nat),
            finish.valid(),
            (self.circles as nat) * cells_in_ring(self.circles as nat) < usize::MAX,
        ensures
            r matches Some(p) ==> p@.len() >= 1 && p@[0] == *start && same_vertex(
                p@[p@.len() - 1],
                *finish,
            ) && path_connected(*self, p@) && (forall|k: int|
                0 <= k < p@.len() ==> (#[trigger] p@[k]).valid()) && (forall|k1: int, k2: int|
                0 <= k1 < k2 < p@.len() ==> !same_vertex(p@[k1], p@[k2])) && reachable_within(
                *self,
                start.circle as nat,
                start.arc_index as nat,
                p@[p@.len() - 1].circle as nat,
                p@[p@.len() - 1].arc_index as nat,
                (p@.len() - 1) as nat,
            ) && (forall|n: nat|
                #[trigger] reachable_within(
                    *self,
                    start.circle as nat,
                    start.arc_index as nat,
                    p@[p@.len() - 1].circle as nat,
                    p@[p@.len() - 1].arc_index as nat,
                    n,
                ) ==> p@.len() <= n + 1),
            same_vertex(*start, *finish) ==> r is Some,
            r is None && (finish.circle == 0 || (finish.circle as nat) < self.circles as nat)
                ==> forall|n: nat|
                !reachable_within(
                    *self,
                    start.circle as nat,
                    start.arc_index as nat,
                    finish.circle as nat,
                    finish.arc_index as nat,
                    n,
                ),
    {
        let bfs: BfsResult = self.breadth_first_search(start);
        let mut t: usize = 0;
        while t < bfs.order.len()
            invariant
                bfs.wf(*self, *start),
                t <= bfs.order@.len(),
                forall|t2: int| 0 <= t2 < t ==> !same_vertex(bfs.order@[t2], *finish),
            decreases bfs.order@.len() - t,
        {
            let c: &CircleCoordinate = &bfs.order[t];
            let matched: bool = if finish.circle() == 0 {
                c.circle() == 0
            } else {
                c.circle() == finish.circle() && c.arc_index() == finish.arc_index()
            };
            if matched {
                let path: Vec<CircleCoordinate> = reconstruct_path(self, &bfs, t, Ghost(*start));
                proof {
                    lemma_parent_chain_reaches(*self, *start, bfs, t as int);
                    lemma_visit_depth_minimal(*self, *start, bfs, t as int);
                }
                return Some(path);
            }
            t = t + 1;
        }
        proof {
            if finish.circle == 0 || (finish.circle as nat) < self.circles as nat {
                assert forall|n: nat|
                    !reachable_within(
                        *self,
                        start.circle as nat,
                        start.arc_index as nat,
                        finish.circle as nat,
                        finish.arc_index as nat,
                        n,
                    ) by {
                    if reachable_within(
                        *self,
                        start.circle as nat,
                        start.arc_index as nat,
                        finish.circle as nat,
                        finish.arc_index as nat,
                        n,
                    ) {
                        lemma_bfs_reaches_everything(
                            *self,
                            *start,
                            bfs,
                            finish.circle as nat,
                            finish.arc_index as nat,
                            n,
                        );
                        let k0 = choose|k: int|
                            0 <= k < bfs.order@.len() && vertex_matches(
                                #[trigger] bfs.order@[k],
                                finish.circle as nat,
                                finish.arc_index as nat,
                            );
                        assert(same_vertex(bfs.order@[k0], *finish));
                        assert(false);
                    }
                }
            }
        }
        None
    }

    /// The cell dequeued last by a breadth-first search from `start`: a
    /// reachable cell at maximal distance — any step budget that reaches it
    /// reaches every cell reachable from `start`.
    pub fn farthest_from(&self, start: &CircleCoordinate) -> (r: CircleCoordinate)
        requires
            self.wf(),
            start.valid(),
            start.circle == 0 ==> start.arc_index == 0,
            in_domain(*start, self.circles as nat),
            (self.circles as nat) * cells_in_ring(self.circles as nat) < usize::MAX,
        ensures
            r.valid(),
            in_domain(r, self.circles as nat),
            r.circle == 0 ==> r.arc_index == 0,
            exists|n: nat|
                reachable_within(
                    *self,
                    start.circle as nat,
                    start.arc_index as nat,
                    r.circle as nat,
                    r.arc_index as nat,
                    n,
                ),
            farthest_vertex(*self, start.circle as nat, start.arc_index as nat, r),
    {
        let bfs: BfsResult = self.breadth_first_search(start);
        let last: usize = bfs.order.len() - 1;
        let result: CircleCoordinate = bfs.order[last];
        proof {
            let sr = start.circle as nat;
            let sj = start.arc_index as nat;
            lemma_parent_chain_reaches(*self, *start, bfs, last as int);
            assert(reachable_within(
                *self,
                sr,
                sj,
                result.circle as nat,
                result.arc_index as nat,
                visit_depth(bfs.parent@, last as int),
            ));
            assert forall|b_r: nat, b_j: nat, nb: nat, n: nat|
                #[trigger] reachable_within(*self, sr, sj, b_r, b_j, nb) && (b_r == 0 || b_r
                    < self.circles as nat) && #[trigger] reachable_within(
                    *self,
                    sr,
                    sj,
                    result.circle as nat,
                    result.arc_index as nat,
                    n,
                ) implies reachable_within(*self, sr, sj, b_r, b_j, n) by {
                lemma_last_visited_farthest(*self, *start, bfs, b_r, b_j, nb, n);
            }
        }
        result
    }

    /// A longest shortest-path of the maze: breadth-first search from the
    /// apex finds one end — a farthest cell from the apex — and a second
    /// search from that end finds the other end and the path between them.
    /// The path visits each cell once by mutual one-step moves, its far end
    /// is a farthest cell from its start, and no shorter walk connects its
    /// endpoints.
    pub fn tree_diameter(&self) -> (p: Vec<CircleCoordinate>)
        requires
            self.wf(),
            (self.circles as nat) * cells_in_ring(self.circles as nat) < usize::MAX,
        ensures
            p@.len() >= 1,
            forall|k: int|
                0 <= k < p@.len() ==> (#[trigger] p@[k]).valid() && in_domain(
                    p@[k],
                    self.circles as nat,
                ),
            path_connected(*self, p@),
            forall|k1: int, k2: int| 0 <= k1 < k2 < p@.len() ==> !same_vertex(p@[k1], p@[k2]),
            farthest_vertex(*self, 0, 0, p@[0]),
            exists|n: nat|
                reachable_within(*self, 0, 0, p@[0].circle as nat, p@[0].arc_index as nat, n),
            farthest_vertex(
                *self,
                p@[0].circle as nat,
                p@[0].arc_index as nat,
                p@[p@.len() - 1],
            ),
            reachable_within(
                *self,
                p@[0].circle as nat,
                p@[0].arc_index as nat,
                p@[p@.len() - 1].circle as nat,
                p@[p@.len() - 1].arc_index as nat,
                (p@.len() - 1) as nat,
            ),
            forall|n: nat|
                #[trigger] reachable_within(
                    *self,
                    p@[0].circle as nat,
                    p@[0].arc_index as nat,
                    p@[p@.len() - 1].circle as nat,
                    p@[p@.len() - 1].arc_index as nat,
                    n,
                ) ==> p@.len() <= n + 1,
    {
        let apex: CircleCoordinate = apex_coordinate();
        let a: CircleCoordinate = self.farthest_from(&apex);
        let bfs: BfsResult = self.breadth_first_search(&a);
        let last: usize = bfs.order.len() - 1;
        let p: Vec<CircleCoordinate> = reconstruct_path(self, &bfs, last, Ghost(a));
        proof {
            let ar = a.circle as nat;
            let aj = a.arc_index as nat;
            let lc = bfs.order@[last as int];
            lemma_parent_chain_reaches(*self, a, bfs, last as int);
            assert forall|b_r: nat, b_j: nat, nb: nat, n: nat|
                #[trigger] reachable_within(*self, ar, aj, b_r, b_j, nb) && (b_r == 0 || b_r
                    < self.circles as nat) && #[trigger] reachable_within(
                    *self,
                    ar,
                    aj,
                    lc.circle as nat,
                    lc.arc_index as nat,
                    n,
                ) implies reachable_within(*self, ar, aj, b_r, b_j, n) by {
                lemma_last_visited_farthest(*self, a, bfs, b_r, b_j, nb, n);
            }
            lemma_visit_depth_minimal(*self, a, bfs, last as int);
        }
        p
    }
}

/// Vertex `(b_r, b_j)` can be reached from vertex `(a_r, a_j)` in at most
/// `n` unobstructed steps, passing only through the maze's cells.
pub open spec fn reachable_within(m: Maze, a_r: nat, a_j: nat, b_r: nat, b_j: nat, n: nat) -> bool
    decreases n,
{
    if n == 0 {
        (a_r == 0 && b_r == 0) || (a_r == b_r && a_j == b_j)
    } else {
        reachable_within(m, a_r, a_j, b_r, b_j, (n - 1) as nat) || exists|mr: nat, mj: nat|
            reachable_within(m, a_r, a_j, mr, mj, (n - 1) as nat) && (mr == 0 || mr < m.circles
                as nat) && #[trigger] m.step_open(mr, mj, b_r, b_j)
    }
}

/// Law: breadth-first search is complete — every vertex reachable from
/// the start through the maze's cells appears in the visit order.
pub proof fn lemma_bfs_reaches_everything(
    m: Maze,
    start: CircleCoordinate,
    r: BfsResult,
    b_r: nat,
    b_j: nat,
    n: nat,
)
    requires
        r.wf(m, start),
        reachable_within(m, start.circle as nat, start.arc_index as nat, b_r, b_j, n),
        b_r == 0 || b_r < m.circles as nat,
    ensures
        exists|k: int|
            0 <= k < r.order@.len() && vertex_matches(#[trigger] r.order@[k], b_r, b_j),
    decreases n,
{
    let sr = start.circle as nat;
    let sj = start.arc_index as nat;
    if reachable_within(m, sr, sj, b_r, b_j, 0) {
        assert(vertex_matches(r.order@[0], b_r, b_j));
    } else {
        if reachable_within(m, sr, sj, b_r, b_j, (n - 1) as nat) {
            lemma_bfs_reaches_everything(m, start, r, b_r, b_j, (n - 1) as nat);
        } else {
            let (mr, mj) = choose|mr: nat, mj: nat|
                reachable_within(m, sr, sj, mr, mj, (n - 1) as nat) && (mr == 0 || mr < m.circles
                    as nat) && #[trigger] m.step_open(mr, mj, b_r, b_j);
            lemma_bfs_reaches_everything(m, start, r, mr, mj, (n - 1) as nat);
            let k0 = choose|k: int|
                0 <= k < r.order@.len() && vertex_matches(#[trigger] r.order@[k], mr, mj);
            assert(m.step_open(
                r.order@[k0].circle as nat,
                r.order@[k0].arc_index as nat,
                b_r,
                b_j,
            ));
        }
    }
}

/// Number of parent links from the visited cell at `t` back to the first
/// cell of the visit order.
spec fn visit_depth(parent: Seq<usize>, t: int) -> nat
    decreases t,
{
    if t <= 0 || parent[t] as int >= t {
        0
    } else {
        visit_depth(parent, parent[t] as int) + 1
    }
}

/// Reachability within a step budget is monotone in the budget.
proof fn lemma_reach_monotone(m: Maze, a_r: nat, a_j: nat, b_r: nat, b_j: nat, n1: nat, n2: nat)
    requires
        reachable_within(m, a_r, a_j, b_r, b_j, n1),
        n1 <= n2,
    ensures
        reachable_within(m, a_r, a_j, b_r, b_j, n2),
    decreases n2,
{
    if n2 > n1 {
        lemma_reach_monotone(m, a_r, a_j, b_r, b_j, n1, (n2 - 1) as nat);
    }
}

/// Parent-link depth never decreases along the visit order.
proof fn lemma_depth_positions(m: Maze, start: CircleCoordinate, r: BfsResult, t1: int, t2: int)
    requires
        r.wf(m, start),
        0 <= t1 <= t2 < r.parent@.len(),
    ensures
        visit_depth(r.parent@, t1) <= visit_depth(r.parent@, t2),
    decreases t2,
{
    if t2 >= 1 && t1 < t2 {
        let p2 = r.parent@[t2] as int;
        if t1 == 0 {
        } else {
            let p1 = r.parent@[t1] as int;
            lemma_depth_positions(m, start, r, p1, p2);
        }
    }
}

/// Following the parent links from a visited cell yields a start-to-cell
/// walk, so the cell is reachable within its parent-link depth.
proof fn lemma_parent_chain_reaches(m: Maze, start: CircleCoordinate, r: BfsResult, t: int)
    requires
        r.wf(m, start),
        0 <= t < r.order@.len(),
    ensures
        reachable_within(
            m,
            start.circle as nat,
            start.arc_index as nat,
            r.order@[t].circle as nat,
            r.order@[t].arc_index as nat,
            visit_depth(r.parent@, t),
        ),
    decreases t,
{
    if t >= 1 {
        let p = r.parent@[t] as int;
        lemma_parent_chain_reaches(m, start, r, p);
    }
}

/// From a start off the apex, a walk into the apex always names arc 0.
proof fn lemma_apex_reach_arc_zero(m: Maze, a_r: nat, a_j: nat, b_j: nat, n: nat)
    requires
        a_r != 0,
        reachable_within(m, a_r, a_j, 0, b_j, n),
    ensures
        b_j == 0,
    decreases n,
{
    if n == 0 {
    } else {
        if reachable_within(m, a_r, a_j, 0, b_j, (n - 1) as nat) {
            lemma_apex_reach_arc_zero(m, a_r, a_j, b_j, (n - 1) as nat);
        } else {
            let (mr, mj) = choose|mr: nat, mj: nat|
                reachable_within(m, a_r, a_j, mr, mj, (n - 1) as nat) && (mr == 0 || mr < m.circles
                    as nat) && #[trigger] m.step_open(mr, mj, 0, b_j);
            assert(b_j == 0);
        }
    }
}

/// Breadth-first optimality: a vertex reachable within `n` steps appears
/// in the visit order at parent-link depth at most `n`.
proof fn lemma_bfs_depth_optimal(
    m: Maze,
    start: CircleCoordinate,
    r: BfsResult,
    b_r: nat,
    b_j: nat,
    n: nat,
)
    requires
        r.wf(m, start),
        reachable_within(m, start.circle as nat, start.arc_index as nat, b_r, b_j, n),
        b_r == 0 || b_r < m.circles as nat,
    ensures
        exists|k: int|
            0 <= k < r.order@.len() && vertex_matches(#[trigger] r.order@[k], b_r, b_j)
                && visit_depth(r.parent@, k) <= n,
    decreases n,
{
    let sr = start.circle as nat;
    let sj = start.arc_index as nat;
    if reachable_within(m, sr, sj, b_r, b_j, 0) {
        assert(vertex_matches(r.order@[0], b_r, b_j) && visit_depth(r.parent@, 0) <= n);
    } else {
        if reachable_within(m, sr, sj, b_r, b_j, (n - 1) as nat) {
            lemma_bfs_depth_optimal(m, start, r, b_r, b_j, (n - 1) as nat);
            let k0 = choose|k: int|
                0 <= k < r.order@.len() && vertex_matches(#[trigger] r.order@[k], b_r, b_j)
                    && visit_depth(r.parent@, k) <= n - 1;
            assert(vertex_matches(r.order@[k0], b_r, b_j) && visit_depth(r.parent@, k0) <= n);
        } else {
            let (mr, mj) = choose|mr: nat, mj: nat|
                reachable_within(m, sr, sj, mr, mj, (n - 1) as nat) && (mr == 0 || mr < m.circles
                    as nat) && #[trigger] m.step_open(mr, mj, b_r, b_j);
            lemma_bfs_depth_optimal(m, start, r, mr, mj, (n - 1) as nat);
            let a = choose|k: int|
                0 <= k < r.order@.len() && vertex_matches(#[trigger] r.order@[k], mr, mj)
                    && visit_depth(r.parent@, k) <= n - 1;
            assert(m.step_open(
                r.order@[a].circle as nat,
                r.order@[a].arc_index as nat,
                b_r,
                b_j,
            ));
            let k = choose|k: int|
                0 <= k < r.order@.len() && vertex_matches(#[trigger] r.order@[k], b_r, b_j) && (k
                    == 0 || r.parent@[k] <= a);
            if k != 0 {
                lemma_depth_positions(m, start, r, r.parent@[k] as int, a);
            }
            assert(vertex_matches(r.order@[k], b_r, b_j) && visit_depth(r.parent@, k) <= n);
        }
    }
}

/// The cell dequeued last is a farthest cell: any step budget that
/// reaches its vertex reaches every reachable vertex of the graph.
proof fn lemma_last_visited_farthest(
    m: Maze,
    start: CircleCoordinate,
    r: BfsResult,
    b_r: nat,
    b_j: nat,
    nb: nat,
    n: nat,
)
    requires
        r.wf(m, start),
        reachable_within(m, start.circle as nat, start.arc_index as nat, b_r, b_j, nb),
        b_r == 0 || b_r < m.circles as nat,
        reachable_within(
            m,
            start.circle as nat,
            start.arc_index as nat,
            r.order@[r.order@.len() - 1].circle as nat,
            r.order@[r.order@.len() - 1].arc_index as nat,
            n,
        ),
    ensures
        reachable_within(m, start.circle as nat, start.arc_index as nat, b_r, b_j, n),
{
    let sr = start.circle as nat;
    let sj = start.arc_index as nat;
    let last = r.order@.len() - 1;
    let lc = r.order@[last];
    lemma_bfs_depth_optimal(m, start, r, lc.circle as nat, lc.arc_index as nat, n);
    let kl = choose|k: int|
        0 <= k < r.order@.len() && vertex_matches(
            #[trigger] r.order@[k],
            lc.circle as nat,
            lc.arc_index as nat,
        ) && visit_depth(r.parent@, k) <= n;
    assert(same_vertex(r.order@[kl], lc));
    assert(kl == last);
    lemma_bfs_depth_optimal(m, start, r, b_r, b_j, nb);
    let kb = choose|k: int|
        0 <= k < r.order@.len() && vertex_matches(#[trigger] r.order@[k], b_r, b_j)
            && visit_depth(r.parent@, k) <= nb;
    lemma_depth_positions(m, start, r, kb, last);
    lemma_parent_chain_reaches(m, start, r, kb);
    lemma_reach_monotone(
        m,
        sr,
        sj,
        r.order@[kb].circle as nat,
        r.order@[kb].arc_index as nat,
        visit_depth(r.parent@, kb),
        n,
    );
    if b_r == 0 {
        if sr == 0 {
            assert(reachable_within(m, sr, sj, b_r, b_j, 0));
            lemma_reach_monotone(m, sr, sj, b_r, b_j, 0, n);
        } else {
            lemma_apex_reach_arc_zero(m, sr, sj, b_j, nb);
        }
    }
}

/// A visited cell's parent-link depth is minimal: no walk from the start
/// reaches its vertex in fewer steps.
proof fn lemma_visit_depth_minimal(m: Maze, start: CircleCoordinate, r: BfsResult, t: int)
    requires
        r.wf(m, start),
        0 <= t < r.order@.len(),
    ensures
        forall|n: nat|
            #[trigger] reachable_within(
                m,
                start.circle as nat,
                start.arc_index as nat,
                r.order@[t].circle as nat,
                r.order@[t].arc_index as nat,
                n,
            ) ==> visit_depth(r.parent@, t) <= n,
{
    let tc = r.order@[t];
    assert forall|n: nat|
        #[trigger] reachable_within(
            m,
            start.circle as nat,
            start.arc_index as nat,
            tc.circle as nat,
            tc.arc_index as nat,
            n,
        ) implies visit_depth(r.parent@, t) <= n by {
        lemma_bfs_depth_optimal(m, start, r, tc.circle as nat, tc.arc_index as nat, n);
        let k = choose|k: int|
            0 <= k < r.order@.len() && vertex_matches(
                #[trigger] r.order@[k],
                tc.circle as nat,
                tc.arc_index as nat,
            ) && visit_depth(r.parent@, k) <= n;
        assert(same_vertex(r.order@[k], tc));
        if k > t {
            assert(same_vertex(tc, r.order@[k]));
            assert(false);
        } else if k < t {
            assert(false);
        }
    }
}

/// `c` sits at maximal distance from the vertex `(s_r, s_j)`: any step
/// budget that reaches `c`'s vertex reaches every reachable vertex of the
/// maze's cell graph.
pub open spec fn farthest_vertex(m: Maze, s_r: nat, s_j: nat, c: CircleCoordinate) -> bool {
    forall|b_r: nat, b_j: nat, nb: nat, n: nat|
        #[trigger] reachable_within(m, s_r, s_j, b_r, b_j, nb) && (b_r == 0 || b_r < m.circles
            as nat) && #[trigger] reachable_within(
            m,
            s_r,
            s_j,
            c.circle as nat,
            c.arc_index as nat,
            n,
        ) ==> reachable_within(m, s_r, s_j, b_r, b_j, n)
}

/// A coordinate whose visit index is the index of vertex `(r2, j2)`
/// addresses that vertex.
proof fn lemma_slot_to_match(c: CircleCoordinate, r2: nat, j2: nat, on: nat)
    requires
        c.valid(),
        on >= 1,
        (c.circle as nat) >= 1 ==> cells_in_ring(c.circle as nat) <= on,
        r2 >= 1 ==> j2 < cells_in_ring(r2) && cells_in_ring(r2) <= on,
        vertex_slot(c, on) == if r2 == 0 {
            0int
        } else {
            1 + slot_of(r2, j2, on)
        },
    ensures
        vertex_matches(c, r2, j2),
{
    if c.circle as nat >= 1 {
        vstd::arithmetic::mul::lemma_mul_nonnegative(
            (c.circle as int) - 1,
            on as int,
        );
        lemma_slot_roundtrip(c.circle as nat, c.arc_index as nat, on);
    }
    if r2 >= 1 {
        vstd::arithmetic::mul::lemma_mul_nonnegative((r2 as int) - 1, on as int);
        lemma_slot_roundtrip(r2, j2, on);
    }
}

/// The visit index of an in-domain cell.
fn vertex_slot_of(c: &CircleCoordinate, circles: usize, outer: usize) -> (r: usize)
    requires
        c.valid(),
        circles >= 1,
        in_domain(*c, circles as nat),
        outer as nat == cells_in_ring(circles as nat),
        (circles as nat) * (outer as nat) < usize::MAX,
    ensures
        r == vertex_slot(*c, outer as nat),
        r < 1 + (circles - 1) * outer,
{
    if c.circle() == 0 {
        0
    } else {
        proof {
            lemma_cells_mono(c.circle as nat, circles as nat);
            lemma_slot_roundtrip(c.circle as nat, c.arc_index as nat, outer as nat);
            assert((c.circle as int - 1) * (outer as int) + (c.arc_index as int) < (circles as int
                - 1) * (outer as int)) by (nonlinear_arith)
                requires
                    1 <= (c.circle as int) && (c.circle as int) <= circles as int - 1,
                    0 <= (c.arc_index as int) && (c.arc_index as int) < outer as int,
            ;
            vstd::arithmetic::mul::lemma_mul_inequality(
                (circles - 1) as int,
                circles as int,
                outer as int,
            );
        }
        1 + (c.circle() - 1) * outer + c.arc_index()
    }
}

} // verus!

//! Joining adjacent wall markers into drawable runs.
//!
//! Renderers draw each line wall as a radial segment from its circle to
//! the next, and each arc wall as one arc step along its circle. Merging
//! chains segments that share an endpoint into `(start, end)` runs, so a
//! straight radial line or a long arc is drawn in one stroke.

use vstd::prelude::*;

verus! {

use crate::building_blocks::{
    CircleCoordinate, lemma_angle_value_trans, lemma_same_cell_same_angle, ring_ok,
};
use crate::maze::Maze;

/// The first run whose end lies on the cell of `c`.
fn find_run_ending_at(
    runs: &Vec<(CircleCoordinate, CircleCoordinate)>,
    c: &CircleCoordinate,
) -> (r: Option<usize>)
    ensures
        r matches Some(i) ==> i < runs@.len() && runs@[i as int].1.same_cell(*c),
        r is None ==> forall|t: int| 0 <= t < runs@.len() ==> !(#[trigger] runs@[t]).1.same_cell(*c),
{
    let mut k: usize = 0;
    while k < runs.len()
        invariant
            k <= runs@.len(),
            forall|t: int| 0 <= t < k ==> !(#[trigger] runs@[t]).1.same_cell(*c),
        decreases runs@.len() - k,
    {
        if runs[k].1.circle == c.circle && runs[k].1.arc_index == c.arc_index {
            return Some(k);
        }
        k = k + 1;
    }
    None
}

/// The first run whose start lies on the cell of `c`.
fn find_run_starting_at(
    runs: &Vec<(CircleCoordinate, CircleCoordinate)>,
    c: &CircleCoordinate,
) -> (r: Option<usize>)
    ensures
        r matches Some(i) ==> i < runs@.len() && runs@[i as int].0.same_cell(*c),
        r is None ==> forall|t: int| 0 <= t < runs@.len() ==> !(#[trigger] runs@[t]).0.same_cell(*c),
{
    let mut k: usize = 0;
    while k < runs.len()
        invariant
            k <= runs@.len(),
            forall|t: int| 0 <= t < k ==> !(#[trigger] runs@[t]).0.same_cell(*c),
        decreases runs@.len() - k,
    {
        if runs[k].0.circle == c.circle && runs[k].0.arc_index == c.arc_index {
            return Some(k);
        }
        k = k + 1;
    }
    None
}

/// Every run is a pair of valid coordinates: on one circle for arc runs;
/// strictly outward from start to end, and on one exact angle, for line
/// runs.
pub open spec fn runs_wf(
    runs: Seq<(CircleCoordinate, CircleCoordinate)>,
    same_circle: bool,
) -> bool {
    forall|k: int|
        0 <= k < runs.len() ==> (#[trigger] runs[k]).0.valid() && runs[k].1.valid() && (
        if same_circle {
            runs[k].0.circle == runs[k].1.circle
        } else {
            runs[k].0.circle < runs[k].1.circle && runs[k].0.angle.same_value(runs[k].1.angle)
        })
}

/// Total number of circle steps the line runs span: each unit line wall
/// drawn between two neighbouring circles contributes one.
pub open spec fn line_runs_span(runs: Seq<(CircleCoordinate, CircleCoordinate)>) -> int
    decreases runs.len(),
{
    if runs.len() == 0 {
        0
    } else {
        line_runs_span(runs.drop_last()) + (runs.last().1.circle - runs.last().0.circle)
    }
}

proof fn lemma_line_span_push(runs: Seq<(CircleCoordinate, CircleCoordinate)>, v: (CircleCoordinate, CircleCoordinate))
    ensures
        line_runs_span(runs.push(v)) == line_runs_span(runs) + (v.1.circle - v.0.circle),
{
    assert(runs.push(v).drop_last() =~= runs);
}

proof fn lemma_line_span_update(
    runs: Seq<(CircleCoordinate, CircleCoordinate)>,
    k: int,
    v: (CircleCoordinate, CircleCoordinate),
)
    requires
        0 <= k < runs.len(),
    ensures
        line_runs_span(runs.update(k, v)) == line_runs_span(runs) - (runs[k].1.circle
            - runs[k].0.circle) + (v.1.circle - v.0.circle),
    decreases runs.len(),
{
    let t = runs.update(k, v);
    if k == runs.len() - 1 {
        assert(t.drop_last() =~= runs.drop_last());
    } else {
        assert(t.drop_last() =~= runs.drop_last().update(k, v));
        lemma_line_span_update(runs.drop_last(), k, v);
    }
}

proof fn lemma_line_span_remove(runs: Seq<(CircleCoordinate, CircleCoordinate)>, k: int)
    requires
        0 <= k < runs.len(),
    ensures
        line_runs_span(runs.remove(k)) == line_runs_span(runs) - (runs[k].1.circle
            - runs[k].0.circle),
    decreases runs.len(),
{
    let t = runs.remove(k);
    if k == runs.len() - 1 {
        assert(t =~= runs.drop_last());
    } else {
        assert(t.drop_last() =~= runs.drop_last().remove(k));
        assert(t.last() == runs.last());
        lemma_line_span_remove(runs.drop_last(), k);
    }
}

/// No run's end lies on another run's start: nothing is left to join.
pub open spec fn runs_unmergeable(runs: Seq<(CircleCoordinate, CircleCoordinate)>) -> bool {
    forall|k1: int, k2: int|
        0 <= k1 < runs.len() && 0 <= k2 < runs.len() && k1 != k2 ==> !runs[k1].1.same_cell(
            runs[k2].0,
        )
}

/// Chain the maze's line walls into radial runs: each line wall spans one
/// circle step outward, and runs sharing an endpoint are joined. Every
/// returned run goes strictly outward from its valid start to its valid
/// end on one exact angle; the runs' summed spans cover every wall, and no
/// run's end meets another run's start.
#[verifier::rlimit(60)]
pub fn merge_lines(maze: Maze) -> (r: Vec<(CircleCoordinate, CircleCoordinate)>)
    requires
        maze.wf(),
        forall|k: int|
            0 <= k < maze.lines@.len() ==> ring_ok((#[trigger] maze.lines@[k].circle + 1) as nat),
    ensures
        runs_wf(r@, false),
        runs_unmergeable(r@),
        line_runs_span(r@) == maze.lines@.len(),
{
    let mut result: Vec<(CircleCoordinate, CircleCoordinate)> = Vec::new();
    let mut i: usize = 0;
    while i < maze.lines.len()
        invariant
            i <= maze.lines@.len(),
            maze.wf(),
            forall|k: int|
                0 <= k < maze.lines@.len() ==> ring_ok(
                    (#[trigger] maze.lines@[k].circle + 1) as nat,
                ),
            runs_wf(result@, false),
            runs_unmergeable(result@),
            line_runs_span(result@) == i,
        decreases maze.lines@.len() - i,
    {
        let start: CircleCoordinate = maze.lines[i];
        let end: CircleCoordinate = start.next_out();
        let start_match: Option<usize> = find_run_ending_at(&result, &start);
        let end_match: Option<usize> = find_run_starting_at(&result, &end);
        match (start_match, end_match) {
            (Some(a), Some(b)) => {
                if a != b {
                    let merged: (CircleCoordinate, CircleCoordinate) = (result[a].0, result[b].1);
                    let ghost pre = result@;
                    proof {
                        lemma_same_cell_same_angle(pre[a as int].1, start);
                        lemma_same_cell_same_angle(end, pre[b as int].0);
                        lemma_angle_value_trans(pre[a as int].0.angle, pre[a as int].1.angle, start.angle);
                        lemma_angle_value_trans(pre[a as int].0.angle, start.angle, pre[b as int].0.angle);
                        lemma_angle_value_trans(pre[a as int].0.angle, pre[b as int].0.angle, pre[b as int].1.angle);
                    }
                    let first: usize = if a < b {
                        a
                    } else {
                        b
                    };
                    let second: usize = if a < b {
                        b
                    } else {
                        a
                    };
                    proof {
                        lemma_line_span_remove(pre, second as int);
                        lemma_line_span_remove(pre.remove(second as int), first as int);
                        lemma_line_span_push(
                            pre.remove(second as int).remove(first as int),
                            merged,
                        );
                        assert(pre.remove(second as int)[first as int] == pre[first as int]);
                    }
                    result.remove(second);
                    result.remove(first);
                    result.push(merged);
                    proof {
                        lemma_runs_wf_after_merge(pre, result@, first as int, second as int, merged, false);
                        lemma_runs_unmergeable_after_merge(
                            pre,
                            result@,
                            first as int,
                            second as int,
                            a as int,
                            b as int,
                            merged,
                        );
                    }
                }
            },
            (Some(a), None) => {
                let kept: CircleCoordinate = result[a].0;
                proof {
                    lemma_same_cell_same_angle(result@[a as int].1, start);
                    lemma_angle_value_trans(kept.angle, result@[a as int].1.angle, start.angle);
                    lemma_angle_value_trans(kept.angle, start.angle, end.angle);
                    lemma_line_span_update(result@, a as int, (kept, end));
                }
                result.set(a, (kept, end));
            },
            (None, Some(b)) => {
                let kept: CircleCoordinate = result[b].1;
                proof {
                    lemma_same_cell_same_angle(end, result@[b as int].0);
                    lemma_angle_value_trans(start.angle, end.angle, result@[b as int].0.angle);
                    lemma_angle_value_trans(start.angle, result@[b as int].0.angle, kept.angle);
                    lemma_line_span_update(result@, b as int, (start, kept));
                }
                result.set(b, (start, kept));
            },
            (None, None) => {
                proof {
                    lemma_line_span_push(result@, (start, end));
                }
                result.push((start, end));
            },
        }
        i = i + 1;
    }
    result
}

/// Chain the maze's arc walls into arc runs: each arc wall spans one arc
/// step clockwise, and runs sharing an endpoint are joined. A run that
/// closes the full circle keeps its equal start and end. Every returned
/// run stays on one circle, and when no wall is listed twice, no run's
/// end meets another run's start.
#[verifier::rlimit(100)]
pub fn merge_arcs(maze: Maze) -> (r: Vec<(CircleCoordinate, CircleCoordinate)>)
    requires
        maze.wf(),
    ensures
        runs_wf(r@, true),
        crate::maze::wall_cells_distinct(maze.arcs@) ==> runs_unmergeable(r@),
{
    let ghost distinct = crate::maze::wall_cells_distinct(maze.arcs@);
    let mut result: Vec<(CircleCoordinate, CircleCoordinate)> = Vec::new();
    let mut i: usize = 0;
    while i < maze.arcs.len()
        invariant
            i <= maze.arcs@.len(),
            maze.wf(),
            runs_wf(result@, true),
            distinct == crate::maze::wall_cells_distinct(maze.arcs@),
            forall|k: int|
                0 <= k < result@.len() ==> exists|t: int|
                    0 <= t < i && (#[trigger] result@[k]).0.same_cell(maze.arcs@[t]),
            distinct ==> runs_unmergeable(result@),
            distinct ==> forall|k1: int, k2: int|
                0 <= k1 < k2 < result@.len() ==> !result@[k1].0.same_cell(result@[k2].0),
        decreases maze.arcs@.len() - i,
    {
        let start: CircleCoordinate = maze.arcs[i];
        let end: CircleCoordinate = start.next_clockwise();
        let start_match: Option<usize> = find_run_ending_at(&result, &start);
        let end_match: Option<usize> = find_run_starting_at(&result, &end);
        let ghost pre = result@;
        match (start_match, end_match) {
            (Some(a), Some(b)) => {
                if a == b {
                    let kept: CircleCoordinate = result[a].0;
                    result.set(a, (kept, end));
                    proof {
                        lemma_starts_carry_after_update(pre, result@, a as int, i as int, maze.arcs@);
                        assert forall|k: int| 0 <= k < result@.len() implies result@[k].0
                            == pre[k].0 by {}
                        if distinct {
                            assert forall|k1: int, k2: int|
                                0 <= k1 < result@.len() && 0 <= k2 < result@.len() && k1
                                    != k2 implies !result@[k1].1.same_cell(result@[k2].0) by {
                                if k1 == a {
                                    if result@[k1].1.same_cell(result@[k2].0) {
                                        assert(result@[k1].1 == end);
                                        assert(pre[a as int].0.same_cell(end));
                                        assert(pre[k2].0.same_cell(pre[a as int].0));
                                        if k2 < a {
                                            assert(!pre[k2].0.same_cell(pre[a as int].0));
                                        } else {
                                            assert(!pre[a as int].0.same_cell(pre[k2].0));
                                        }
                                        assert(false);
                                    }
                                } else {
                                    assert(result@[k1].1 == pre[k1].1);
                                    assert(!pre[k1].1.same_cell(pre[k2].0));
                                }
                            }
                        }
                    }
                } else {
                    let merged: (CircleCoordinate, CircleCoordinate) = (result[a].0, result[b].1);
                    let first: usize = if a < b {
                        a
                    } else {
                        b
                    };
                    let second: usize = if a < b {
                        b
                    } else {
                        a
                    };
                    result.remove(second);
                    result.remove(first);
                    result.push(merged);
                    proof {
                        lemma_runs_wf_after_merge(pre, result@, first as int, second as int, merged, true);
                        lemma_starts_carry_after_merge(
                            pre,
                            result@,
                            first as int,
                            second as int,
                            a as int,
                            b as int,
                            merged,
                            i as int,
                            maze.arcs@,
                        );
                        if distinct {
                            lemma_runs_unmergeable_after_merge(
                                pre,
                                result@,
                                first as int,
                                second as int,
                                a as int,
                                b as int,
                                merged,
                            );
                            let mid = pre.remove(second as int);
                            assert forall|k1: int, k2: int|
                                0 <= k1 < k2 < result@.len() implies !result@[k1].0.same_cell(
                                result@[k2].0,
                            ) by {
                                let o1: int = if k1 == result@.len() - 1 {
                                    a as int
                                } else {
                                    let m1: int = if k1 < first {
                                        k1
                                    } else {
                                        k1 + 1
                                    };
                                    assert(result@[k1] == mid[m1]);
                                    if m1 < second {
                                        m1
                                    } else {
                                        m1 + 1
                                    }
                                };
                                let o2: int = if k2 == result@.len() - 1 {
                                    a as int
                                } else {
                                    let m2: int = if k2 < first {
                                        k2
                                    } else {
                                        k2 + 1
                                    };
                                    assert(result@[k2] == mid[m2]);
                                    if m2 < second {
                                        m2
                                    } else {
                                        m2 + 1
                                    }
                                };
                                assert(result@[k1].0 == pre[o1].0);
                                assert(result@[k2].0 == pre[o2].0);
                                assert(o1 != o2);
                                if o1 < o2 {
                                    assert(!pre[o1].0.same_cell(pre[o2].0));
                                } else {
                                    assert(!pre[o2].0.same_cell(pre[o1].0));
                                }
                            }
                        }
                    }
                }
            },
            (Some(a), None) => {
                let kept: CircleCoordinate = result[a].0;
                result.set(a, (kept, end));
                proof {
                    lemma_starts_carry_after_update(pre, result@, a as int, i as int, maze.arcs@);
                    assert forall|k: int| 0 <= k < result@.len() implies result@[k].0
                        == pre[k].0 by {}
                }
            },
            (None, Some(b)) => {
                let kept: CircleCoordinate = result[b].1;
                result.set(b, (start, kept));
                proof {
                    assert forall|k: int|
                        0 <= k < result@.len() implies exists|t: int|
                            0 <= t < i + 1 && (#[trigger] result@[k]).0.same_cell(
                                maze.arcs@[t],
                            ) by {
                        if k != b {
                            assert(result@[k] == pre[k]);
                            let t0 = choose|t: int|
                                0 <= t < i && (#[trigger] pre[k]).0.same_cell(maze.arcs@[t]);
                            assert(result@[k].0.same_cell(maze.arcs@[t0]));
                        } else {
                            assert(result@[k].0.same_cell(maze.arcs@[i as int]));
                        }
                    }
                    if distinct {
                        assert forall|k1: int, k2: int|
                            0 <= k1 < k2 < result@.len() implies !result@[k1].0.same_cell(
                            result@[k2].0,
                        ) by {
                            if k1 == b || k2 == b {
                                let other: int = if k1 == b {
                                    k2
                                } else {
                                    k1
                                };
                                let t0 = choose|t: int|
                                    0 <= t < i && (#[trigger] pre[other]).0.same_cell(
                                        maze.arcs@[t],
                                    );
                                assert(!maze.arcs@[t0].same_cell(maze.arcs@[i as int]));
                                assert(result@[other as int].0 == pre[other].0);
                                assert(result@[b as int].0.same_cell(maze.arcs@[i as int]));
                            }
                        }
                    }
                }
            },
            (None, None) => {
                result.push((start, end));
                proof {
                    assert forall|k: int|
                        0 <= k < result@.len() implies exists|t: int|
                            0 <= t < i + 1 && (#[trigger] result@[k]).0.same_cell(
                                maze.arcs@[t],
                            ) by {
                        if k < pre.len() {
                            assert(result@[k] == pre[k]);
                            let t0 = choose|t: int|
                                0 <= t < i && (#[trigger] pre[k]).0.same_cell(maze.arcs@[t]);
                            assert(result@[k].0.same_cell(maze.arcs@[t0]));
                        } else {
                            assert(result@[k].0.same_cell(maze.arcs@[i as int]));
                        }
                    }
                    if distinct {
                        assert forall|k1: int, k2: int|
                            0 <= k1 < k2 < result@.len() implies !result@[k1].0.same_cell(
                            result@[k2].0,
                        ) by {
                            if k2 == result@.len() - 1 {
                                let t0 = choose|t: int|
                                    0 <= t < i && (#[trigger] pre[k1]).0.same_cell(maze.arcs@[t]);
                                assert(!maze.arcs@[t0].same_cell(maze.arcs@[i as int]));
                                assert(result@[k2].0.same_cell(maze.arcs@[i as int]));
                            }
                        }
                    }
                }
            },
        }
        i = i + 1;
    }
    result
}

/// After updating one run's endpoint, every run still starts on one of the
/// walls processed so far, the updated one now counted against wall `i`.
proof fn lemma_starts_carry_after_update(
    pre: Seq<(CircleCoordinate, CircleCoordinate)>,
    post: Seq<(CircleCoordinate, CircleCoordinate)>,
    a: int,
    i: int,
    walls: Seq<CircleCoordinate>,
)
    requires
        0 <= a < pre.len(),
        post == pre.update(a, (pre[a].0, post[a].1)),
        i + 1 <= walls.len(),
        forall|k: int|
            0 <= k < pre.len() ==> exists|t: int|
                0 <= t < i && (#[trigger] pre[k]).0.same_cell(walls[t]),
    ensures
        forall|k: int|
            0 <= k < post.len() ==> exists|t: int|
                0 <= t < i + 1 && (#[trigger] post[k]).0.same_cell(walls[t]),
{
    assert forall|k: int|
        0 <= k < post.len() implies exists|t: int|
            0 <= t < i + 1 && (#[trigger] post[k]).0.same_cell(walls[t]) by {
        let t0 = choose|t: int| 0 <= t < i && (#[trigger] pre[k]).0.same_cell(walls[t]);
        assert(post[k].0 == pre[k].0);
        assert(post[k].0.same_cell(walls[t0]));
    }
}

/// After joining two runs, every run still starts on a processed wall.
proof fn lemma_starts_carry_after_merge(
    pre: Seq<(CircleCoordinate, CircleCoordinate)>,
    post: Seq<(CircleCoordinate, CircleCoordinate)>,
    first: int,
    second: int,
    a: int,
    b: int,
    merged: (CircleCoordinate, CircleCoordinate),
    i: int,
    walls: Seq<CircleCoordinate>,
)
    requires
        0 <= first < second < pre.len(),
        a != b,
        0 <= a < pre.len(),
        0 <= b < pre.len(),
        first == if a < b {
            a
        } else {
            b
        },
        second == if a < b {
            b
        } else {
            a
        },
        merged.0 == pre[a].0,
        post == pre.remove(second).remove(first).push(merged),
        i + 1 <= walls.len(),
        forall|k: int|
            0 <= k < pre.len() ==> exists|t: int|
                0 <= t < i && (#[trigger] pre[k]).0.same_cell(walls[t]),
    ensures
        forall|k: int|
            0 <= k < post.len() ==> exists|t: int|
                0 <= t < i + 1 && (#[trigger] post[k]).0.same_cell(walls[t]),
{
    let mid = pre.remove(second);
    assert forall|k: int|
        0 <= k < post.len() implies exists|t: int|
            0 <= t < i + 1 && (#[trigger] post[k]).0.same_cell(walls[t]) by {
        let o: int = if k == post.len() - 1 {
            a
        } else {
            let m1: int = if k < first {
                k
            } else {
                k + 1
            };
            assert(post[k] == mid[m1]);
            if m1 < second {
                m1
            } else {
                m1 + 1
            }
        };
        assert(post[k].0 == pre[o].0);
        let t0 = choose|t: int| 0 <= t < i && (#[trigger] pre[o]).0.same_cell(walls[t]);
        assert(post[k].0.same_cell(walls[t0]));
    }
}

proof fn lemma_runs_unmergeable_after_merge(
    pre: Seq<(CircleCoordinate, CircleCoordinate)>,
    post: Seq<(CircleCoordinate, CircleCoordinate)>,
    first: int,
    second: int,
    a: int,
    b: int,
    merged: (CircleCoordinate, CircleCoordinate),
)
    requires
        runs_unmergeable(pre),
        0 <= first < second < pre.len(),
        a != b,
        0 <= a < pre.len(),
        0 <= b < pre.len(),
        first == if a < b {
            a
        } else {
            b
        },
        second == if a < b {
            b
        } else {
            a
        },
        merged.0 == pre[a].0,
        merged.1 == pre[b].1,
        post == pre.remove(second).remove(first).push(merged),
    ensures
        runs_unmergeable(post),
{
    let mid = pre.remove(second);
    assert forall|k1: int, k2: int|
        0 <= k1 < post.len() && 0 <= k2 < post.len() && k1 != k2 implies !post[k1].1.same_cell(
        post[k2].0,
    ) by {
        let o1: int = if k1 == post.len() - 1 {
            b
        } else {
            let m1: int = if k1 < first {
                k1
            } else {
                k1 + 1
            };
            assert(post[k1] == mid[m1]);
            if m1 < second {
                m1
            } else {
                m1 + 1
            }
        };
        let o2: int = if k2 == post.len() - 1 {
            a
        } else {
            let m2: int = if k2 < first {
                k2
            } else {
                k2 + 1
            };
            assert(post[k2] == mid[m2]);
            if m2 < second {
                m2
            } else {
                m2 + 1
            }
        };
        assert(post[k1].1 == pre[o1].1);
        assert(post[k2].0 == pre[o2].0);
        assert(o1 != o2);
        assert(!pre[o1].1.same_cell(pre[o2].0));
    }
}

proof fn lemma_runs_wf_after_merge(
    pre: Seq<(CircleCoordinate, CircleCoordinate)>,
    post: Seq<(CircleCoordinate, CircleCoordinate)>,
    first: int,
    second: int,
    merged: (CircleCoordinate, CircleCoordinate),
    same_circle: bool,
)
    requires
        runs_wf(pre, same_circle),
        0 <= first < second < pre.len(),
        merged.0.valid(),
        merged.1.valid(),
        if same_circle {
            merged.0.circle == merged.1.circle
        } else {
            merged.0.circle < merged.1.circle && merged.0.angle.same_value(merged.1.angle)
        },
        post == pre.remove(second).remove(first).push(merged),
    ensures
        runs_wf(post, same_circle),
{
    assert forall|k: int|
        0 <= k < post.len() implies (#[trigger] post[k]).0.valid() && post[k].1.valid() && (
    if same_circle {
        post[k].0.circle == post[k].1.circle
    } else {
        post[k].0.circle < post[k].1.circle && post[k].0.angle.same_value(post[k].1.angle)
    }) by {
        if k == post.len() - 1 {
            assert(post[k] == merged);
        } else {
            let mid = pre.remove(second);
            assert(post[k] == mid.remove(first)[k]);
            let k1: int = if k < first {
                k
            } else {
                k + 1
            };
            assert(mid.remove(first)[k] == mid[k1]);
            let k2: int = if k1 < second {
                k1
            } else {
                k1 + 1
            };
            assert(mid[k1] == pre[k2]);
        }
    }
}

} // verus!

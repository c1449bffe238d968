use circle_maze::building_blocks::CircleCoordinate;
use circle_maze::maze::Maze;
use circle_maze::merge::{merge_arcs, merge_lines};

fn coord(circle: usize, arc_index: usize) -> CircleCoordinate {
    CircleCoordinate::create_with_arc_index(circle, arc_index).unwrap()
}

/// The four-circle wall set used by both merge tests.
fn four_circle_maze() -> Maze {
    let arc_cells: [(usize, usize); 40] = [
        (1, 0),
        (1, 3),
        (1, 4),
        (1, 5),
        (2, 1),
        (2, 2),
        (2, 4),
        (2, 5),
        (2, 6),
        (2, 9),
        (2, 11),
        (3, 3),
        (3, 4),
        (3, 8),
        (3, 9),
        (3, 10),
        (4, 0),
        (4, 1),
        (4, 2),
        (4, 3),
        (4, 4),
        (4, 5),
        (4, 6),
        (4, 7),
        (4, 8),
        (4, 9),
        (4, 10),
        (4, 11),
        (4, 12),
        (4, 13),
        (4, 14),
        (4, 15),
        (4, 16),
        (4, 17),
        (4, 18),
        (4, 19),
        (4, 20),
        (4, 21),
        (4, 22),
        (4, 23),
    ];
    let line_cells: [(usize, usize); 14] = [
        (1, 0),
        (1, 1),
        (1, 2),
        (1, 3),
        (2, 0),
        (2, 2),
        (2, 5),
        (2, 6),
        (2, 8),
        (2, 10),
        (3, 1),
        (3, 2),
        (3, 7),
        (3, 8),
    ];
    let arcs: Vec<CircleCoordinate> = arc_cells.iter().map(|&(c, a)| coord(c, a)).collect();
    let lines: Vec<CircleCoordinate> = line_cells.iter().map(|&(c, a)| coord(c, a)).collect();
    Maze {
        circles: 4,
        arcs,
        lines,
    }
}

#[test]
fn test_merge_lines_with_four_circles() {
    let maze = four_circle_maze();

    let result = merge_lines(maze);

    assert_eq!(result.len(), 9, "Expected 9 merged line pairs");
}

#[test]
fn test_merge_arcs_with_four_circles() {
    let maze = four_circle_maze();

    let result = merge_arcs(maze);

    assert_eq!(result.len(), 8, "Expected 8 merged arc pairs");
}

#[test]
fn test_merge_lines_chains_collinear_walls() {
    let maze = Maze {
        circles: 4,
        arcs: Vec::new(),
        lines: vec![coord(1, 0), coord(2, 0)],
    };
    let result = merge_lines(maze);
    assert_eq!(result.len(), 1);
    assert_eq!(result[0].0, coord(1, 0));
    assert_eq!(result[0].1, coord(3, 0));
}

#[test]
fn test_merge_lines_leaves_nothing_mergeable() {
    let maze = four_circle_maze();
    let runs = merge_lines(maze);
    for k1 in 0..runs.len() {
        for k2 in 0..runs.len() {
            if k1 != k2 {
                assert!(
                    runs[k1].1 != runs[k2].0,
                    "run {} ends where run {} starts",
                    k1,
                    k2
                );
            }
        }
    }
}

#[test]
fn test_merge_arcs_leave_nothing_mergeable_without_duplicates() {
    let maze = four_circle_maze();
    let runs = merge_arcs(maze);
    for k1 in 0..runs.len() {
        for k2 in 0..runs.len() {
            if k1 != k2 {
                assert!(
                    runs[k1].1 != runs[k2].0,
                    "run {} ends where run {} starts",
                    k1,
                    k2
                );
            }
        }
    }
}

#[test]
fn test_merge_arcs_joins_full_circle() {
    let arcs: Vec<CircleCoordinate> = (0..6).map(|a| coord(1, a)).collect();
    let maze = Maze {
        circles: 2,
        arcs,
        lines: Vec::new(),
    };
    let result = merge_arcs(maze);
    assert_eq!(result.len(), 1);
    assert_eq!(result[0].0, result[0].1);
}

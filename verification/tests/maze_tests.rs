use std::collections::HashSet;

use circle_maze::building_blocks::{calc_total_arcs, CircleCoordinate};
use circle_maze::maze::{apex_coordinate, factory, Maze};
use circle_maze::random::SeededSource;

fn coord(circle: usize, arc_index: usize) -> CircleCoordinate {
    CircleCoordinate::create_with_arc_index(circle, arc_index).unwrap()
}

/// A fixed five-circle maze with a hand-picked wall set.
fn five_circle_maze() -> Maze {
    let arc_cells: [(usize, usize); 10] = [
        (1, 0),
        (1, 1),
        (1, 2),
        (1, 3),
        (1, 5),
        (3, 4),
        (3, 11),
        (4, 21),
        (4, 22),
        (4, 23),
    ];
    let line_cells: [(usize, usize); 5] = [(1, 4), (1, 5), (3, 9), (3, 10), (3, 11)];
    let arcs: Vec<CircleCoordinate> = arc_cells.iter().map(|&(c, a)| coord(c, a)).collect();
    let lines: Vec<CircleCoordinate> = line_cells.iter().map(|&(c, a)| coord(c, a)).collect();
    Maze {
        circles: 5,
        arcs,
        lines,
    }
}

#[test]
fn test_factory_creates_spanning_tree() {
    let seeds: [u64; 5] = [42, 123, 456, 789, 1024];

    for circles in 3..10 {
        for &seed in &seeds {
            let mut rng = SeededSource::new(seed);
            let maze = factory(circles, &mut rng);

            let mut vertice_count: usize = 0;
            for c in 1..=circles {
                vertice_count += calc_total_arcs(c);
            }

            assert_eq!(
                vertice_count,
                maze.arcs().len() + maze.lines().len(),
                "Maze with {} circles and seed {} should form a spanning tree",
                circles,
                seed
            );

            let mut visited: HashSet<(usize, usize)> = HashSet::new();
            let mut stack = vec![apex_coordinate()];

            while let Some(v) = stack.pop() {
                if visited.contains(&(v.circle, v.arc_index)) {
                    continue;
                }
                let neighbors = maze.accessible_neighbours(&v);
                visited.insert((v.circle, v.arc_index));
                for neighbor in neighbors {
                    stack.push(neighbor);
                }
            }

            let mut reachable_vertice_count: usize = 1;
            for c in 1..circles {
                reachable_vertice_count += calc_total_arcs(c);
            }

            assert_eq!(
                visited.len(),
                reachable_vertice_count,
                "All reachable vertices should be visited for {} circles with seed {}",
                circles,
                seed
            );
        }
    }
}

#[test]
fn test_accessible_neighbours_4() {
    let maze = five_circle_maze();
    let neighbours = maze.accessible_neighbours(&coord(3, 4));

    assert_eq!(neighbours.len(), 4);
    assert!(neighbours.contains(&coord(3, 3)));
    assert!(neighbours.contains(&coord(3, 5)));
    assert!(neighbours.contains(&coord(4, 8)));
    assert!(neighbours.contains(&coord(4, 9)));
}

#[test]
fn test_accessible_neighbours_9() {
    let maze = five_circle_maze();
    let neighbours = maze.accessible_neighbours(&coord(3, 9));

    assert_eq!(neighbours.len(), 3);
    assert!(neighbours.contains(&coord(2, 9)));
    assert!(neighbours.contains(&coord(4, 18)));
    assert!(neighbours.contains(&coord(4, 19)));
}

#[test]
fn test_accessible_neighbours_arc_10() {
    let maze = five_circle_maze();
    let neighbours = maze.accessible_neighbours(&coord(3, 10));

    assert_eq!(neighbours.len(), 2);
    assert!(neighbours.contains(&coord(2, 10)));
    assert!(neighbours.contains(&coord(4, 20)));
}

#[test]
fn test_accessible_neighbours_arc_11() {
    let maze = five_circle_maze();
    let neighbours = maze.accessible_neighbours(&coord(3, 11));

    assert_eq!(neighbours.len(), 1);
    assert!(neighbours.contains(&coord(3, 0)));
}

#[test]
fn test_accessible_neighbours_circle_0() {
    let maze = five_circle_maze();
    let neighbours = maze.accessible_neighbours(&coord(0, 0));

    assert_eq!(neighbours.len(), 1);
    assert!(neighbours.contains(&coord(1, 4)));
}

#[test]
fn test_accessible_neighbours_circle_1() {
    let maze = five_circle_maze();
    let neighbours = maze.accessible_neighbours(&coord(1, 4));

    assert_eq!(neighbours.len(), 3);
    assert!(neighbours.contains(&coord(0, 0)));
    assert!(neighbours.contains(&coord(2, 8)));
    assert!(neighbours.contains(&coord(2, 9)));
}

#[test]
fn test_apex_neighbours_come_in_ascending_order() {
    let mut rng = SeededSource::new(77);
    let maze = factory(4, &mut rng);
    let neighbours = maze.accessible_neighbours(&apex_coordinate());
    for k in 0..neighbours.len().saturating_sub(1) {
        assert!(neighbours[k].arc_index < neighbours[k + 1].arc_index);
    }
    let again = maze.accessible_neighbours(&apex_coordinate());
    assert_eq!(neighbours, again);
}

#[test]
fn test_factory_is_deterministic() {
    for circles in [1, 4, 7] {
        let mut rng_a = SeededSource::new(2024);
        let mut rng_b = SeededSource::new(2024);
        let maze_a = factory(circles, &mut rng_a);
        let maze_b = factory(circles, &mut rng_b);
        assert_eq!(maze_a.arcs(), maze_b.arcs());
        assert_eq!(maze_a.lines(), maze_b.lines());

        let mut rng_c = SeededSource::new(2025);
        let maze_c = factory(circles, &mut rng_c);
        if circles > 1 {
            assert!(maze_a.arcs() != maze_c.arcs() || maze_a.lines() != maze_c.lines());
        }
    }
}

#[test]
fn test_factory_closes_outer_boundary() {
    let mut rng = SeededSource::new(9);
    let maze = factory(4, &mut rng);
    for a in 0..calc_total_arcs(4) {
        assert!(maze.arcs().contains(&coord(4, a)));
    }
}

#[test]
fn test_factory_zero_circles_is_apex_only() {
    let mut rng = SeededSource::new(1);
    let maze = factory(0, &mut rng);
    assert_eq!(maze.circles(), 0);
    assert!(maze.arcs().is_empty());
    assert!(maze.lines().is_empty());
}

use circle_maze::building_blocks::CircleCoordinate;
use circle_maze::maze::{apex_coordinate, factory};
use circle_maze::random::SeededSource;

fn mutually_adjacent(
    maze: &circle_maze::maze::Maze,
    a: &CircleCoordinate,
    b: &CircleCoordinate,
) -> bool {
    maze.accessible_neighbours(a).contains(b) && maze.accessible_neighbours(b).contains(a)
}

#[test]
fn test_tree_diameter_path_is_mutually_reachable() {
    for seed in [3, 77, 2048] {
        let mut rng = SeededSource::new(seed);
        let maze = factory(5, &mut rng);
        let path = maze.tree_diameter();
        assert!(path.len() >= 2, "a five-circle maze has a non-trivial diameter");
        for k in 0..path.len() - 1 {
            assert!(
                mutually_adjacent(&maze, &path[k], &path[k + 1]),
                "path cells {} and {} are not mutual neighbours",
                k,
                k + 1
            );
        }
    }
}

#[test]
fn test_breadth_first_search_visits_every_cell() {
    let mut rng = SeededSource::new(5);
    let maze = factory(3, &mut rng);
    let apex = apex_coordinate();
    let bfs = maze.breadth_first_search(&apex);
    assert_eq!(bfs.order.len(), 1 + 6 + 12);
    assert_eq!(bfs.order[0], apex);
}

#[test]
fn test_shortest_path_endpoints() {
    let mut rng = SeededSource::new(5);
    let maze = factory(4, &mut rng);
    let apex = apex_coordinate();
    let finish = maze.farthest_from(&apex);
    let path = maze.shortest_path(&apex, &finish).unwrap();
    assert_eq!(path[0], apex);
    assert_eq!(*path.last().unwrap(), finish);
    for k in 0..path.len() - 1 {
        assert!(mutually_adjacent(&maze, &path[k], &path[k + 1]));
    }
}

#[test]
fn test_shortest_path_to_self_is_single_cell() {
    let mut rng = SeededSource::new(5);
    let maze = factory(2, &mut rng);
    let apex = apex_coordinate();
    let path = maze.shortest_path(&apex, &apex).unwrap();
    assert_eq!(path.len(), 1);
    assert_eq!(path[0], apex);
}

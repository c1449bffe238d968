use circle_maze::json_maze::{JsonValue, MazeDeserializer, MazeSerializer};
use circle_maze::maze::{apex_coordinate, factory};
use circle_maze::random::SeededSource;

fn num(n: u64) -> JsonValue {
    JsonValue::Num(n)
}

fn wall_entry(circle: u64, arc: u64) -> JsonValue {
    JsonValue::Object(vec![
        ("circle".to_owned(), num(circle)),
        ("arc".to_owned(), num(arc)),
    ])
}

fn maze_doc(circles: u64, arcs: Vec<JsonValue>, lines: Vec<JsonValue>) -> JsonValue {
    JsonValue::Object(vec![
        ("circles".to_owned(), num(circles)),
        ("arcs".to_owned(), JsonValue::Array(arcs)),
        ("lines".to_owned(), JsonValue::Array(lines)),
    ])
}

#[test]
fn test_deserialize_maze_with_three_circles() {
    let doc = maze_doc(
        3,
        vec![wall_entry(1, 0), wall_entry(2, 3), wall_entry(3, 11)],
        vec![wall_entry(1, 1), wall_entry(2, 7)],
    );

    let result = MazeDeserializer::deserialize(doc);

    assert!(result.is_ok(), "Deserialization should succeed");
    let maze = result.unwrap();
    assert_eq!(maze.circles(), 3, "Maze should have 3 circles");
    assert_eq!(maze.arcs().len(), 3);
    assert_eq!(maze.lines().len(), 2);
    assert_eq!(maze.arcs()[1].circle, 2);
    assert_eq!(maze.arcs()[1].arc_index, 3);
}

#[test]
fn test_deserialize_rejects_non_object() {
    let result = MazeDeserializer::deserialize(JsonValue::Array(Vec::new()));
    assert_eq!(result.unwrap_err(), "Input must be a JSON object");
}

#[test]
fn test_deserialize_rejects_missing_fields() {
    let result = MazeDeserializer::deserialize(JsonValue::Object(Vec::new()));
    assert_eq!(result.unwrap_err(), "Missing 'circles' field");

    let doc = JsonValue::Object(vec![("circles".to_owned(), num(3))]);
    let result = MazeDeserializer::deserialize(doc);
    assert_eq!(result.unwrap_err(), "Missing 'arcs' field");
}

#[test]
fn test_deserialize_rejects_wrong_types() {
    let doc = JsonValue::Object(vec![("circles".to_owned(), JsonValue::Str("3".to_owned()))]);
    let result = MazeDeserializer::deserialize(doc);
    assert_eq!(result.unwrap_err(), "'circles' must be a number");

    let doc = JsonValue::Object(vec![
        ("circles".to_owned(), num(3)),
        ("arcs".to_owned(), JsonValue::Null),
    ]);
    let result = MazeDeserializer::deserialize(doc);
    assert_eq!(result.unwrap_err(), "'arcs' must be an array");

    let doc = maze_doc(3, vec![JsonValue::Bool(true)], Vec::new());
    let result = MazeDeserializer::deserialize(doc);
    assert_eq!(result.unwrap_err(), "arcs entry must be an object");

    let doc = maze_doc(
        3,
        Vec::new(),
        vec![JsonValue::Object(vec![("circle".to_owned(), num(1))])],
    );
    let result = MazeDeserializer::deserialize(doc);
    assert_eq!(result.unwrap_err(), "lines entry missing 'arc' field");
}

#[test]
fn test_deserialize_rejects_invalid_cell() {
    let doc = maze_doc(3, vec![wall_entry(1, 6)], Vec::new());
    let result = MazeDeserializer::deserialize(doc);
    assert_eq!(
        result.unwrap_err(),
        "arcs entry references a cell that does not exist"
    );
}

#[test]
fn test_serialize_deserialize_round_trip() {
    let mut rng = SeededSource::new(31);
    let maze = factory(3, &mut rng);

    let doc = MazeSerializer::serialize(&maze);
    let rebuilt = MazeDeserializer::deserialize(doc).unwrap();

    assert_eq!(rebuilt.circles(), maze.circles());
    assert_eq!(rebuilt.arcs(), maze.arcs());
    assert_eq!(rebuilt.lines(), maze.lines());

    let bfs = rebuilt.breadth_first_search(&apex_coordinate());
    assert_eq!(bfs.order.len(), 1 + 6 + 12);
}

//! The topology exchange format.
//!
//! A maze travels as an object `{ circles, arcs, lines }` where the wall
//! lists hold `{ circle, arc }` entries. [`JsonValue`] models the parsed
//! form of such a document as plain values, so that validation and
//! reconstruction of a maze — and the errors for every malformed input —
//! are fully specified here; reading bytes into this form and writing it
//! back out is the caller's concern.

use vstd::prelude::*;

verus! {

use crate::building_blocks::{
    CircleCoordinate, cells_in_ring, index_angle, lemma_pow2_floor_bounds, ring_ok,
    ring_supported, calc_total_arcs,
};
use crate::maze::{Maze, cell_at};

/// A parsed exchange document: the shapes a JSON value can take, with
/// numbers kept only when they are unsigned integers — any other number
/// is as unusable to the maze reader as a string, and is kept as
/// [`JsonValue::NumOther`].
#[derive(Debug)]
pub enum JsonValue {
    Null,
    Bool(bool),
    Num(u64),
    NumOther,
    Str(String),
    Array(Vec<JsonValue>),
    Object(Vec<(String, JsonValue)>),
}

/// The value under the first pair whose key reads `name`.
pub open spec fn obj_get(pairs: Seq<(String, JsonValue)>, name: Seq<char>) -> Option<JsonValue>
    decreases pairs.len(),
{
    if pairs.len() == 0 {
        None
    } else if pairs[0].0@ == name {
        Some(pairs[0].1)
    } else {
        obj_get(pairs.drop_first(), name)
    }
}

/// One wall entry parsed to its `(circle, arc)` pair, or the code of the
/// first check it fails.
pub open spec fn parse_wall_entry(v: JsonValue) -> Result<(nat, nat), int> {
    match v {
        JsonValue::Object(entry) => match obj_get(entry@, "circle"@) {
            None => Err(1),
            Some(cv) => match cv {
                JsonValue::Num(c) => match obj_get(entry@, "arc"@) {
                    None => Err(3),
                    Some(av) => match av {
                        JsonValue::Num(a) => if ring_ok(c as nat) && (a as nat) < cells_in_ring(
                            c as nat,
                        ) {
                            Ok((c as nat, a as nat))
                        } else {
                            Err(5)
                        },
                        _ => Err(4),
                    },
                },
                _ => Err(2),
            },
        },
        _ => Err(0),
    }
}

/// A wall list parsed front to back: the pairs of every entry, or the
/// code of the first failing entry.
pub open spec fn parse_wall_pairs(arr: Seq<JsonValue>) -> Result<Seq<(nat, nat)>, int>
    decreases arr.len(),
{
    if arr.len() == 0 {
        Ok(Seq::empty())
    } else {
        match parse_wall_entry(arr[0]) {
            Err(code) => Err(code),
            Ok(pair) => match parse_wall_pairs(arr.drop_first()) {
                Err(code) => Err(code),
                Ok(rest) => Ok(seq![pair] + rest),
            },
        }
    }
}

/// The error text for a failed wall entry, by section and failure code.
pub open spec fn wall_error_text(arcs_section: bool, code: int) -> Seq<char> {
    if arcs_section {
        if code == 0 {
            "arcs entry must be an object"@
        } else if code == 1 {
            "arcs entry missing 'circle' field"@
        } else if code == 2 {
            "arcs entry 'circle' must be a number"@
        } else if code == 3 {
            "arcs entry missing 'arc' field"@
        } else if code == 4 {
            "arcs entry 'arc' must be a number"@
        } else {
            "arcs entry references a cell that does not exist"@
        }
    } else {
        if code == 0 {
            "lines entry must be an object"@
        } else if code == 1 {
            "lines entry missing 'circle' field"@
        } else if code == 2 {
            "lines entry 'circle' must be a number"@
        } else if code == 3 {
            "lines entry missing 'arc' field"@
        } else if code == 4 {
            "lines entry 'arc' must be a number"@
        } else {
            "lines entry references a cell that does not exist"@
        }
    }
}

/// The whole document parsed: outermost circle index and the two wall
/// lists as `(circle, arc)` pairs, or the text of the first failure.
pub open spec fn parse_maze_data(data: JsonValue) -> Result<
    (u64, Seq<(nat, nat)>, Seq<(nat, nat)>),
    Seq<char>,
> {
    match data {
        JsonValue::Object(pairs) => match obj_get(pairs@, "circles"@) {
            None => Err("Missing 'circles' field"@),
            Some(cv) => match cv {
                JsonValue::Num(circles) => if !ring_ok(circles as nat) {
                    Err("'circles' is out of range"@)
                } else {
                    match obj_get(pairs@, "arcs"@) {
                        None => Err("Missing 'arcs' field"@),
                        Some(av) => match av {
                            JsonValue::Array(arcs_arr) => match parse_wall_pairs(arcs_arr@) {
                                Err(code) => Err(wall_error_text(true, code)),
                                Ok(arc_pairs) => match obj_get(pairs@, "lines"@) {
                                    None => Err("Missing 'lines' field"@),
                                    Some(lv) => match lv {
                                        JsonValue::Array(lines_arr) => match parse_wall_pairs(
                                            lines_arr@,
                                        ) {
                                            Err(code) => Err(wall_error_text(false, code)),
                                            Ok(line_pairs) => Ok(
                                                (circles, arc_pairs, line_pairs),
                                            ),
                                        },
                                        _ => Err("'lines' must be an array"@),
                                    },
                                },
                            },
                            _ => Err("'arcs' must be an array"@),
                        },
                    }
                },
                _ => Err("'circles' must be a number"@),
            },
        },
        _ => Err("Input must be a JSON object"@),
    }
}

/// The wall list matches the parsed pairs cell for cell, with canonical
/// angles.
pub open spec fn walls_match_pairs(walls: Seq<CircleCoordinate>, pairs: Seq<(nat, nat)>) -> bool {
    &&& walls.len() == pairs.len()
    &&& forall|k: int|
        0 <= k < walls.len() ==> (#[trigger] walls[k]).circle as nat == pairs[k].0
            && walls[k].arc_index as nat == pairs[k].1 && walls[k].valid() && walls[k].angle
            == index_angle(pairs[k].1, cells_in_ring(pairs[k].0))
}

/// Whether the key of `pair` reads exactly `name`.
fn key_is(pair_key: &String, name: &str) -> (r: bool)
    ensures
        r == (pair_key@ == name@),
{
    let owned: String = name.to_owned();
    *pair_key == owned
}

/// The position of the first pair keyed `name`.
fn obj_find(pairs: &Vec<(String, JsonValue)>, name: &str) -> (r: Option<usize>)
    ensures
        match r {
            Some(i) => i < pairs@.len() && obj_get(pairs@, name@) == Some(pairs@[i as int].1),
            None => obj_get(pairs@, name@) is None,
        },
{
    let mut i: usize = 0;
    proof {
        assert(pairs@.skip(0) =~= pairs@);
    }
    while i < pairs.len()
        invariant
            i <= pairs@.len(),
            obj_get(pairs@, name@) == obj_get(pairs@.skip(i as int), name@),
        decreases pairs@.len() - i,
    {
        let hit: bool = key_is(&pairs[i].0, name);
        proof {
            assert(pairs@.skip(i as int)[0] == pairs@[i as int]);
            assert(pairs@.skip(i as int).drop_first() =~= pairs@.skip(i as int + 1));
        }
        if hit {
            return Some(i);
        }
        i = i + 1;
    }
    proof {
        assert(pairs@.skip(pairs@.len() as int).len() == 0);
    }
    None
}

/// Reads mazes back from their exchange form.
pub struct MazeDeserializer;

/// Writes mazes into their exchange form.
pub struct MazeSerializer;

/// Combining a parsed prefix with the outcome for the remaining entries.
pub open spec fn splice_pairs(prefix: Seq<(nat, nat)>, rest: Result<Seq<(nat, nat)>, int>) -> Result<
    Seq<(nat, nat)>,
    int,
> {
    match rest {
        Ok(r) => Ok(prefix + r),
        Err(code) => Err(code),
    }
}

/// Parse one wall list, building the wall coordinates.
fn parse_wall_list(arr: &Vec<JsonValue>, arcs_section: bool) -> (r: Result<
    Vec<CircleCoordinate>,
    String,
>)
    ensures
        match r {
            Ok(walls) => parse_wall_pairs(arr@) matches Ok(pairs) && walls_match_pairs(
                walls@,
                pairs,
            ),
            Err(m) => parse_wall_pairs(arr@) matches Err(code) && m@ == wall_error_text(
                arcs_section,
                code,
            ),
        },
{
    let mut walls: Vec<CircleCoordinate> = Vec::new();
    let mut i: usize = 0;
    proof {
        assert(arr@.skip(0) =~= arr@);
        assert(walls_pairs_view(walls@).len() == 0);
        match parse_wall_pairs(arr@) {
            Ok(r) => {
                assert(walls_pairs_view(walls@) + r =~= r);
            },
            Err(_) => {},
        }
    }
    while i < arr.len()
        invariant
            i <= arr@.len(),
            parse_wall_pairs(arr@) == splice_pairs(
                walls_pairs_view(walls@),
                parse_wall_pairs(arr@.skip(i as int)),
            ),
            walls_match_pairs(walls@, walls_pairs_view(walls@)),
            walls@.len() == i,
        decreases arr@.len() - i,
    {
        let ghost pre_walls = walls@;
        proof {
            assert(arr@.skip(i as int)[0] == arr@[i as int]);
            assert(arr@.skip(i as int).drop_first() =~= arr@.skip(i as int + 1));
        }
        let entry: &JsonValue = &arr[i];
        match entry {
            JsonValue::Object(entry_pairs) => {
                let ci: Option<usize> = obj_find(entry_pairs, "circle");
                match ci {
                    None => {
                        return Err(wall_error_string(arcs_section, 1));
                    },
                    Some(cpos) => match &entry_pairs[cpos].1 {
                        JsonValue::Num(c) => {
                            let ai: Option<usize> = obj_find(entry_pairs, "arc");
                            match ai {
                                None => {
                                    return Err(wall_error_string(arcs_section, 3));
                                },
                                Some(apos) => match &entry_pairs[apos].1 {
                                    JsonValue::Num(a) => {
                                        let cv: u64 = *c;
                                        let av: u64 = *a;
                                        proof {
                                            if cv >= 0x4000_0000 {
                                                lemma_pow2_floor_bounds(cv as nat);
                                            }
                                        }
                                        if cv >= 0x4000_0000 {
                                            return Err(wall_error_string(arcs_section, 5));
                                        }
                                        if !ring_supported(cv as usize) {
                                            return Err(wall_error_string(arcs_section, 5));
                                        }
                                        let cells: usize = calc_total_arcs(cv as usize);
                                        if av >= cells as u64 {
                                            return Err(wall_error_string(arcs_section, 5));
                                        }
                                        walls.push(cell_at(cv as usize, av as usize));
                                        proof {
                                            assert(walls_pairs_view(walls@) =~= walls_pairs_view(
                                                pre_walls,
                                            ).push((cv as nat, av as nat)));
                                            assert(walls_pairs_view(pre_walls).push(
                                                (cv as nat, av as nat),
                                            ) =~= walls_pairs_view(pre_walls) + seq![
                                                (cv as nat, av as nat),
                                            ]);
                                            lemma_splice_shift(
                                                walls_pairs_view(pre_walls),
                                                (cv as nat, av as nat),
                                                arr@.skip(i as int + 1),
                                            );
                                        }
                                    },
                                    _ => {
                                        return Err(wall_error_string(arcs_section, 4));
                                    },
                                },
                            }
                        },
                        _ => {
                            return Err(wall_error_string(arcs_section, 2));
                        },
                    },
                }
            },
            _ => {
                return Err(wall_error_string(arcs_section, 0));
            },
        }
        i = i + 1;
    }
    proof {
        assert(arr@.skip(arr@.len() as int).len() == 0);
        assert(walls_pairs_view(walls@) + Seq::<(nat, nat)>::empty() =~= walls_pairs_view(
            walls@,
        ));
    }
    Ok(walls)
}

/// The `(circle, arc)` pairs of a wall list.
pub open spec fn walls_pairs_view(walls: Seq<CircleCoordinate>) -> Seq<(nat, nat)> {
    Seq::new(walls.len(), |k: int| (walls[k].circle as nat, walls[k].arc_index as nat))
}

proof fn lemma_splice_shift(prefix: Seq<(nat, nat)>, pair: (nat, nat), rest: Seq<JsonValue>)
    ensures
        splice_pairs(prefix, splice_pairs(seq![pair], parse_wall_pairs(rest))) == splice_pairs(
            prefix + seq![pair],
            parse_wall_pairs(rest),
        ),
{
    match parse_wall_pairs(rest) {
        Ok(r) => {
            assert(prefix + (seq![pair] + r) =~= (prefix + seq![pair]) + r);
        },
        Err(_) => {
        },
    }
}

/// The exec message for a failed wall entry.
fn wall_error_string(arcs_section: bool, code: u8) -> (r: String)
    requires
        code <= 5,
    ensures
        r@ == wall_error_text(arcs_section, code as int),
{
    if arcs_section {
        if code == 0 {
            "arcs entry must be an object".to_owned()
        } else if code == 1 {
            "arcs entry missing 'circle' field".to_owned()
        } else if code == 2 {
            "arcs entry 'circle' must be a number".to_owned()
        } else if code == 3 {
            "arcs entry missing 'arc' field".to_owned()
        } else if code == 4 {
            "arcs entry 'arc' must be a number".to_owned()
        } else {
            "arcs entry references a cell that does not exist".to_owned()
        }
    } else {
        if code == 0 {
            "lines entry must be an object".to_owned()
        } else if code == 1 {
            "lines entry missing 'circle' field".to_owned()
        } else if code == 2 {
            "lines entry 'circle' must be a number".to_owned()
        } else if code == 3 {
            "lines entry missing 'arc' field".to_owned()
        } else if code == 4 {
            "lines entry 'arc' must be a number".to_owned()
        } else {
            "lines entry references a cell that does not exist".to_owned()
        }
    }
}

impl MazeDeserializer {
    /// Rebuild a maze from its exchange form, validating the document's
    /// shape and every wall's cell. The result is exactly what
    /// [`parse_maze_data`] describes: a maze whose wall lists carry the
    /// parsed `(circle, arc)` pairs in order, or the first failure's text.
    pub fn deserialize(data: JsonValue) -> (r: Result<Maze, String>)
        ensures
            match r {
                Ok(m) => parse_maze_data(data) matches Ok(parsed) && m.circles as nat == parsed.0
                    as nat && walls_match_pairs(m.arcs@, parsed.1) && walls_match_pairs(
                    m.lines@,
                    parsed.2,
                ) && m.wf(),
                Err(msg) => parse_maze_data(data) matches Err(text) && msg@ == text,
            },
    {
        match data {
            JsonValue::Object(pairs) => {
                let ci: Option<usize> = obj_find(&pairs, "circles");
                match ci {
                    None => Err("Missing 'circles' field".to_owned()),
                    Some(cpos) => match &pairs[cpos].1 {
                        JsonValue::Num(circles_num) => {
                            let cv: u64 = *circles_num;
                            proof {
                                if cv >= 0x4000_0000 {
                                    lemma_pow2_floor_bounds(cv as nat);
                                }
                            }
                            if cv >= 0x4000_0000 {
                                return Err("'circles' is out of range".to_owned());
                            }
                            if !ring_supported(cv as usize) {
                                return Err("'circles' is out of range".to_owned());
                            }
                            let ai: Option<usize> = obj_find(&pairs, "arcs");
                            match ai {
                                None => Err("Missing 'arcs' field".to_owned()),
                                Some(apos) => match &pairs[apos].1 {
                                    JsonValue::Array(arcs_arr) => {
                                        let arcs_res: Result<Vec<CircleCoordinate>, String> =
                                            parse_wall_list(arcs_arr, true);
                                        match arcs_res {
                                            Err(m) => Err(m),
                                            Ok(arcs) => {
                                                let li: Option<usize> = obj_find(&pairs, "lines");
                                                match li {
                                                    None => Err("Missing 'lines' field".to_owned()),
                                                    Some(lpos) => match &pairs[lpos].1 {
                                                        JsonValue::Array(lines_arr) => {
                                                            let lines_res: Result<
                                                                Vec<CircleCoordinate>,
                                                                String,
                                                            > = parse_wall_list(lines_arr, false);
                                                            match lines_res {
                                                                Err(m) => Err(m),
                                                                Ok(lines) => Ok(
                                                                    Maze {
                                                                        circles: cv as usize,
                                                                        arcs,
                                                                        lines,
                                                                    },
                                                                ),
                                                            }
                                                        },
                                                        _ => Err(
                                                            "'lines' must be an array".to_owned(),
                                                        ),
                                                    },
                                                }
                                            },
                                        }
                                    },
                                    _ => Err("'arcs' must be an array".to_owned()),
                                },
                            }
                        },
                        _ => Err("'circles' must be a number".to_owned()),
                    },
                }
            },
            _ => Err("Input must be a JSON object".to_owned()),
        }
    }
}

/// The exchange form of one wall: an object `{ circle, arc }` carrying
/// exactly the wall's cell.
pub open spec fn wall_entry_shape(v: JsonValue, c: CircleCoordinate) -> bool {
    match v {
        JsonValue::Object(ep) => {
            &&& ep@.len() == 2
            &&& ep@[0].0@ == "circle"@
            &&& ep@[0].1 == JsonValue::Num(c.circle as u64)
            &&& ep@[1].0@ == "arc"@
            &&& ep@[1].1 == JsonValue::Num(c.arc_index as u64)
        },
        _ => false,
    }
}

/// The exchange form of a whole maze: an object `{ circles, arcs, lines }`
/// whose wall arrays mirror the maze's wall lists entry for entry.
pub open spec fn serialized_shape(m: Maze, v: JsonValue) -> bool {
    match v {
        JsonValue::Object(pairs) => {
            &&& pairs@.len() == 3
            &&& pairs@[0].0@ == "circles"@
            &&& pairs@[0].1 == JsonValue::Num(m.circles as u64)
            &&& pairs@[1].0@ == "arcs"@
            &&& match pairs@[1].1 {
                JsonValue::Array(aa) => aa@.len() == m.arcs@.len() && forall|k: int|
                    0 <= k < aa@.len() ==> wall_entry_shape(#[trigger] aa@[k], m.arcs@[k]),
                _ => false,
            }
            &&& pairs@[2].0@ == "lines"@
            &&& match pairs@[2].1 {
                JsonValue::Array(la) => la@.len() == m.lines@.len() && forall|k: int|
                    0 <= k < la@.len() ==> wall_entry_shape(#[trigger] la@[k], m.lines@[k]),
                _ => false,
            }
        },
        _ => false,
    }
}

/// One wall list in exchange form.
fn serialize_walls(walls: &Vec<CircleCoordinate>) -> (r: Vec<JsonValue>)
    ensures
        r@.len() == walls@.len(),
        forall|k: int| 0 <= k < r@.len() ==> wall_entry_shape(#[trigger] r@[k], walls@[k]),
{
    let mut out: Vec<JsonValue> = Vec::new();
    let mut i: usize = 0;
    while i < walls.len()
        invariant
            i <= walls@.len(),
            out@.len() == i,
            forall|k: int| 0 <= k < out@.len() ==> wall_entry_shape(#[trigger] out@[k], walls@[k]),
        decreases walls@.len() - i,
    {
        let mut entry: Vec<(String, JsonValue)> = Vec::new();
        entry.push(("circle".to_owned(), JsonValue::Num(walls[i].circle() as u64)));
        entry.push(("arc".to_owned(), JsonValue::Num(walls[i].arc_index() as u64)));
        out.push(JsonValue::Object(entry));
        i = i + 1;
    }
    out
}

impl MazeSerializer {
    /// Write a maze into its exchange form.
    pub fn serialize(m: &Maze) -> (r: JsonValue)
        ensures
            serialized_shape(*m, r),
    {
        let arcs: Vec<JsonValue> = serialize_walls(&m.arcs);
        let lines: Vec<JsonValue> = serialize_walls(&m.lines);
        let mut pairs: Vec<(String, JsonValue)> = Vec::new();
        pairs.push(("circles".to_owned(), JsonValue::Num(m.circles() as u64)));
        pairs.push(("arcs".to_owned(), JsonValue::Array(arcs)));
        pairs.push(("lines".to_owned(), JsonValue::Array(lines)));
        JsonValue::Object(pairs)
    }
}

proof fn lemma_parse_shaped_walls(arr: Seq<JsonValue>, walls: Seq<CircleCoordinate>)
    requires
        arr.len() == walls.len(),
        forall|k: int| 0 <= k < arr.len() ==> wall_entry_shape(#[trigger] arr[k], walls[k]),
        forall|k: int| 0 <= k < walls.len() ==> (#[trigger] walls[k]).valid(),
    ensures
        parse_wall_pairs(arr) == Ok::<Seq<(nat, nat)>, int>(walls_pairs_view(walls)),
    decreases arr.len(),
{
    reveal_strlit("circle");
    reveal_strlit("arc");
    assert("circle"@.len() == 6);
    assert("arc"@.len() == 3);
    if arr.len() == 0 {
        assert(walls_pairs_view(walls) =~= Seq::<(nat, nat)>::empty());
    } else {
        let entry = arr[0];
        let c = walls[0];
        match entry {
            JsonValue::Object(ep) => {
                assert(ep@[0].0@ == "circle"@);
                assert(ep@.drop_first()[0] == ep@[1]);
                assert(obj_get(ep@, "circle"@) == Some(ep@[0].1));
                assert(ep@[1].0@ != "circle"@);
                assert(ep@[0].0@ != "arc"@);
                assert(obj_get(ep@.drop_first(), "arc"@) == Some(ep@.drop_first()[0].1));
                assert(obj_get(ep@, "arc"@) == obj_get(ep@.drop_first(), "arc"@));
                assert(parse_wall_entry(entry) == Ok::<(nat, nat), int>(
                    (c.circle as nat, c.arc_index as nat),
                ));
            },
            _ => {
                assert(false);
            },
        }
        assert forall|k: int| 0 <= k < arr.drop_first().len() implies wall_entry_shape(
            #[trigger] arr.drop_first()[k],
            walls.drop_first()[k],
        ) by {
            assert(arr.drop_first()[k] == arr[k + 1] && walls.drop_first()[k] == walls[k + 1]);
        }
        lemma_parse_shaped_walls(arr.drop_first(), walls.drop_first());
        assert(seq![(c.circle as nat, c.arc_index as nat)] + walls_pairs_view(walls.drop_first())
            =~= walls_pairs_view(walls));
    }
}

/// Law: reading a maze's exchange form back yields exactly the maze's
/// outermost circle index and its wall cells, in order — serialization
/// followed by deserialization is the identity on the wall sets.
pub proof fn lemma_serialize_round_trip(m: Maze, v: JsonValue)
    requires
        m.wf(),
        serialized_shape(m, v),
    ensures
        parse_maze_data(v) == Ok::<(u64, Seq<(nat, nat)>, Seq<(nat, nat)>), Seq<char>>(
            (m.circles as u64, walls_pairs_view(m.arcs@), walls_pairs_view(m.lines@)),
        ),
{
    reveal_strlit("circles");
    reveal_strlit("arcs");
    reveal_strlit("lines");
    assert("circles"@.len() == 7);
    assert("arcs"@.len() == 4);
    assert("lines"@.len() == 5);
    match v {
        JsonValue::Object(pairs) => {
            assert(obj_get(pairs@, "circles"@) == Some(pairs@[0].1));
            assert(pairs@.drop_first()[0] == pairs@[1]);
            assert(pairs@.drop_first().drop_first()[0] == pairs@[2]);
            assert(pairs@[0].0@ != "arcs"@);
            assert(obj_get(pairs@.drop_first(), "arcs"@) == Some(pairs@.drop_first()[0].1));
            assert(obj_get(pairs@, "arcs"@) == obj_get(pairs@.drop_first(), "arcs"@));
            assert(pairs@[0].0@ != "lines"@);
            assert(pairs@[1].0@ != "lines"@);
            assert(obj_get(pairs@.drop_first().drop_first(), "lines"@) == Some(
                pairs@.drop_first().drop_first()[0].1,
            ));
            assert(obj_get(pairs@.drop_first(), "lines"@) == obj_get(
                pairs@.drop_first().drop_first(),
                "lines"@,
            ));
            assert(obj_get(pairs@, "lines"@) == obj_get(pairs@.drop_first(), "lines"@));
            match pairs@[1].1 {
                JsonValue::Array(aa) => {
                    lemma_parse_shaped_walls(aa@, m.arcs@);
                },
                _ => {
                    assert(false);
                },
            }
            match pairs@[2].1 {
                JsonValue::Array(la) => {
                    lemma_parse_shaped_walls(la@, m.lines@);
                },
                _ => {
                    assert(false);
                },
            }
        },
        _ => {
            assert(false);
        },
    }
}

} // verus!

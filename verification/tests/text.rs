//! From OBJ text to the table, through the parser.

use obj_parser::emit::{Attribute, IngestError};
use obj_parser::endpoint::{parse, parse_without_edit, plain_ingest, transform_ingest};
use obj_parser::guard::has_faces_in_range;
use obj_parser::model::{MeshPolygon, MeshVertex, Model, NamedObject, Vector3};
use obj_parser::reader::{load_model, INDEX_OUT_OF_RANGE};
use obj_parser::table::Record;

const CUBE: &str = "\
# unit cube
o Cube
v 0 0 0
v 1 0 0
v 1 1 0
v 0 1 0
v 0 0 1
v 1 0 1
v 1 1 1
v 0 1 1
vt 0 0
vt 1 0
vt 1 1
vt 0.25 0.25
vn 0 0 -1
vn 0 0 1
vn 0 -1 0
vn 1 0 0
vn 0 1 0
vn -1 0 0
f 1/1/1 4/2/1 3/3/1 2/4/1
f 5/1/2 6/2/2 7/3/2 8/4/2
f 1/1/3 2/2/3 6/3/3 5/4/3
f 2/1/4 3/2/4 7/3/4 6/4/4
f 3/1/5 4/2/5 8/3/5 7/4/5
f 4/1/6 1/2/6 5/3/6 8/4/6
";

fn vector(x: f32, y: f32, z: f32) -> Vector3 {
    Vector3 { x: x.to_bits(), y: y.to_bits(), z: z.to_bits() }
}

fn name(text: &str) -> String {
    text.to_string()
}

fn floats(v: Vector3) -> [f32; 3] {
    [f32::from_bits(v.x), f32::from_bits(v.y), f32::from_bits(v.z)]
}

#[test]
fn cube_is_walked_face_by_face() {
    let table = parse(CUBE.as_bytes()).unwrap();
    assert_eq!(table.len(), 1);
    let cube = table.get(&name("Cube")).unwrap();
    assert_eq!(cube.len(), 24);
    assert_eq!(cube.get(0), None);
    assert_eq!(cube.get(25), None);
    assert_eq!(
        cube.get(1),
        Some(Record {
            pos: vector(0.0, 0.0, 0.0),
            normal: vector(0.0, 0.0, -1.0),
            u: 0.0f32.to_bits(),
            v: 0.0f32.to_bits(),
        })
    );
    assert_eq!(
        cube.get(2),
        Some(Record {
            pos: vector(0.0, 1.0, 0.0),
            normal: vector(0.0, 0.0, -1.0),
            u: 1.0f32.to_bits(),
            v: 0.0f32.to_bits(),
        })
    );
    let last = cube.get(24).unwrap();
    assert_eq!(floats(last.pos), [0.0, 1.0, 1.0]);
    assert_eq!(floats(last.normal), [-1.0, 0.0, 0.0]);
    assert_eq!(f32::from_bits(last.u), 0.25);
    assert_eq!(f32::from_bits(last.v), 0.25);
}

#[test]
fn cube_positions_are_those_of_the_text() {
    let table = parse(CUBE.as_bytes()).unwrap();
    let cube = table.get(&name("Cube")).unwrap();
    let corners: [[f32; 3]; 8] = [
        [0.0, 0.0, 0.0],
        [1.0, 0.0, 0.0],
        [1.0, 1.0, 0.0],
        [0.0, 1.0, 0.0],
        [0.0, 0.0, 1.0],
        [1.0, 0.0, 1.0],
        [1.0, 1.0, 1.0],
        [0.0, 1.0, 1.0],
    ];
    let faces: [[usize; 4]; 6] =
        [[1, 4, 3, 2], [5, 6, 7, 8], [1, 2, 6, 5], [2, 3, 7, 6], [3, 4, 8, 7], [4, 1, 5, 8]];
    let mut key = 0;
    for face in faces {
        for corner in face {
            key += 1;
            assert_eq!(floats(cube.get(key).unwrap().pos), corners[corner - 1]);
        }
    }
    assert_eq!(key, 24);
}

#[test]
fn uv_is_delivered_as_read() {
    let table = parse(CUBE.as_bytes()).unwrap();
    let cube = table.get(&name("Cube")).unwrap();
    let fourth = cube.get(4).unwrap();
    assert_eq!(f32::from_bits(fourth.u), 0.25);
    assert_eq!(f32::from_bits(fourth.v), 0.25);
    let third = cube.get(3).unwrap();
    assert_eq!(f32::from_bits(third.u), 1.0);
    assert_eq!(f32::from_bits(third.v), 1.0);
}

#[test]
fn both_entry_points_walk_the_same_table() {
    let strict = parse(CUBE.as_bytes()).unwrap();
    let lenient = parse_without_edit(CUBE.as_bytes()).unwrap();
    assert_eq!(lenient.console, None);
    assert_eq!(lenient.table, strict);
}

#[test]
fn parsing_twice_gives_equal_tables() {
    assert_eq!(parse(CUBE.as_bytes()), parse(CUBE.as_bytes()));
    assert_eq!(parse_without_edit(CUBE.as_bytes()), parse_without_edit(CUBE.as_bytes()));
}

#[test]
fn empty_text_gives_empty_table() {
    let strict = parse(b"").unwrap();
    assert!(strict.is_empty());
    let lenient = parse_without_edit(b"").unwrap();
    assert!(lenient.table.is_empty());
    assert_eq!(lenient.console, None);
}

#[test]
fn text_without_faces_gives_empty_table() {
    let table = parse(b"# nothing here\nv 1 2 3\nvn 0 0 1\n").unwrap();
    assert!(table.is_empty());
}

#[test]
fn object_with_a_group_and_no_faces_has_empty_inner_table() {
    let table = parse(b"o bare\ng shell\n").unwrap();
    assert_eq!(table.len(), 1);
    assert_eq!(table.get(&name("bare")).unwrap().len(), 0);
}

#[test]
fn faces_before_any_object_line_belong_to_the_unnamed_object() {
    let table = parse(b"v 0 0 0\nvt 0 0\nvn 0 0 1\nf 1/1/1 1/1/1 1/1/1\n").unwrap();
    assert_eq!(table.len(), 1);
    assert_eq!(table.get(&name("")).unwrap().len(), 3);
}

#[test]
fn objects_are_stored_under_their_names() {
    let text = b"\
v 0 0 0
v 1 0 0
v 0 1 0
vt 0.5 0.5
vn 0 0 1
o left
f 1/1/1 2/1/1 3/1/1
o right
f 3/1/1 2/1/1 1/1/1
f 1/1/1 1/1/1 2/1/1 3/1/1
";
    let table = parse(text).unwrap();
    assert_eq!(table.len(), 2);
    let left = table.get(&name("left")).unwrap();
    let right = table.get(&name("right")).unwrap();
    assert_eq!(left.len(), 3);
    assert_eq!(right.len(), 7);
    assert_eq!(floats(left.get(2).unwrap().pos), [1.0, 0.0, 0.0]);
    assert_eq!(floats(right.get(1).unwrap().pos), [0.0, 1.0, 0.0]);
    assert_eq!(floats(right.get(7).unwrap().pos), [0.0, 1.0, 0.0]);
}

#[test]
fn repeated_object_name_keeps_the_later_object() {
    let text = b"\
v 0 0 0
v 1 0 0
v 0 1 0
vt 0 0
vn 0 0 1
o twin
f 1/1/1 2/1/1 3/1/1
f 1/1/1 2/1/1 3/1/1
o twin
f 3/1/1 3/1/1 3/1/1 3/1/1
";
    let table = parse(text).unwrap();
    assert_eq!(table.len(), 1);
    let twin = table.get(&name("twin")).unwrap();
    assert_eq!(twin.len(), 4);
    assert_eq!(floats(twin.get(1).unwrap().pos), [0.0, 1.0, 0.0]);
}

#[test]
fn negative_coordinates_are_read() {
    let table = parse(b"v -1.5 2 -0.25\nvt -0.5 0.5\nvn 0 -1 0\nf 1/1/1 1/1/1 1/1/1\n").unwrap();
    let rows = table.get(&name("")).unwrap();
    let first = rows.get(1).unwrap();
    assert_eq!(floats(first.pos), [-1.5, 2.0, -0.25]);
    assert_eq!(floats(first.normal), [0.0, -1.0, 0.0]);
    assert_eq!(f32::from_bits(first.u), -0.5);
    assert_eq!(f32::from_bits(first.v), 0.5);
    assert_eq!(first.pos.x, 0xbfc0_0000);
}

#[test]
fn malformed_text_fails_the_strict_entry_point() {
    assert_eq!(
        parse(b"o\n"),
        Err(IngestError::Parse { message: name("Expected object or group name on line 1") })
    );
    assert_eq!(
        parse(b"v 0 0 0\nf 1/x/1\n"),
        Err(IngestError::Parse { message: name("Expected index on line 2") })
    );
    assert_eq!(
        parse(b"v 0 0 0\nf 1 2 3\n"),
        Err(IngestError::Parse { message: name("Invalid index '2'") })
    );
}

#[test]
fn malformed_text_is_reported_by_the_lenient_entry_point() {
    let ingest = parse_without_edit(b"v 0 0 0\no\n").unwrap();
    assert!(ingest.table.is_empty());
    assert_eq!(ingest.console, Some(name("Expected object or group name on line 2")));
}

#[test]
fn text_that_is_not_utf8_is_malformed() {
    assert!(matches!(parse(&[0x76, 0x20, 0xff, 0x0a]), Err(IngestError::Parse { .. })));
    let ingest = parse_without_edit(&[0x76, 0x20, 0xff, 0x0a]).unwrap();
    assert!(ingest.table.is_empty());
    assert!(ingest.console.is_some());
}

const TRIANGLE: &str = "\
v 0 0 0
v 1 0 0
v 0 1 0
vt 0.5 0.25
vn 0 0 1
";

#[test]
fn relative_indices_are_resolved_by_the_parser() {
    let relative = format!("{}f -3/-1/-1 -2/-1/-1 -1/-1/-1\n", TRIANGLE);
    let absolute = format!("{}f 1/1/1 2/1/1 3/1/1\n", TRIANGLE);
    let table = parse(relative.as_bytes()).unwrap();
    assert_eq!(table, parse(absolute.as_bytes()).unwrap());
    let rows = table.get(&name("")).unwrap();
    assert_eq!(rows.len(), 3);
    assert_eq!(floats(rows.get(2).unwrap().pos), [1.0, 0.0, 0.0]);
    assert_eq!(f32::from_bits(rows.get(3).unwrap().v), 0.25);
    let lenient = parse_without_edit(relative.as_bytes()).unwrap();
    assert_eq!(lenient.console, None);
    assert_eq!(lenient.table, table);
}

#[test]
fn relative_index_far_out_of_range_is_the_parsers_error() {
    assert_eq!(
        parse(b"v 0 0 0\nf -5\n"),
        Err(IngestError::Parse { message: name("Invalid index '-5'") })
    );
    let ingest = parse_without_edit(b"v 0 0 0\nf -5\n").unwrap();
    assert!(ingest.table.is_empty());
    assert_eq!(ingest.console, Some(name("Invalid index '-5'")));
}

#[test]
fn relative_index_without_attributes_fails_hard_where_it_resolves() {
    let expected = IngestError::AttributeMissing {
        object: name(""),
        position: 0,
        attribute: Attribute::Normal,
    };
    assert_eq!(parse(b"v 0 0 0\nf -1\n"), Err(expected.clone()));
    assert_eq!(parse_without_edit(b"v 0 0 0\nf -1\n"), Err(expected));
}

#[test]
fn index_just_before_the_first_attribute_is_turned_away() {
    let turned_away: [&[u8]; 19] = [
        b"f -1\n",
        b"o hull\nf -1\n",
        b"g\nf -1\n",
        b"f /-1\n",
        b"f +1 -1\n",
        b"f 5/5/5 -1\n",
        b"f \xe2\x80\x83-1\xe3\x80\x80\n",
        b"v 0 0 0\nf -1 -2\n",
        b"v 0 0 0\nf 1//-1\n",
        b"v 0 0 0\nf -2\n",
        b"v 0 0 0\nv 1 1 1\nf -1 -2 -3\n",
        b"v 0 0 0\nf 1/-1\n",
        b"v 0 0 0\nvt 0 0\nf 1/1/-1\n",
        b"v 0 0 0\n \t\r\x0cf 1 -002\n",
        b"v 0 0 0\nf 1 1 -2",
        b"f \xc2\xa0-1\n",
        b"f -1\x0b\n",
        b"v 0 0 0\nf -9223372036854775808\n",
        b"vn 0 0 1\nf 1//-2\r\n",
    ];
    for text in turned_away {
        assert!(!has_faces_in_range(text));
        assert_eq!(parse(text), Err(IngestError::Parse { message: name(INDEX_OUT_OF_RANGE) }));
        assert_eq!(load_model(text), Err(name(INDEX_OUT_OF_RANGE)));
        let ingest = parse_without_edit(text).unwrap();
        assert!(ingest.table.is_empty());
        assert_eq!(ingest.console, Some(name(INDEX_OUT_OF_RANGE)));
    }
}

#[test]
fn texts_that_the_parser_reads_are_handed_to_it() {
    let handed_on: [&[u8]; 22] = [
        b"",
        b"v -1 -2 -3\nf 1 1 1\n",
        b"# f -1\n",
        b"foo -1\n",
        b"fo -1\nff -1\n",
        b"-f -1\n",
        b"\x0bf -1\n",
        b"g -1\nf\n",
        b"v 0 0 0\nf -1\n",
        b"v 0 0 0\nf -1 -1 -1\n",
        b"v 0 0 0\nv 0 0 0\nf -1 -2\n",
        b"v 0 0 0\nf -3\n",
        b"v 0 0 0\nf 1/1/1/-1\n",
        b"v 0 0 0\nf 1/2/3/-2\n",
        b"v 0 0 0\nf -\n",
        b"v 0 0 0\nf -x2\n",
        b"v 0 0 0\nf -0\n",
        b"v 0 0 0\nf -99999999999999999999999999999999999999\n",
        b"vt 0 0\nf -2\n",
        b"v 0 0 0\nvt 0 0\nf 1/-1\n",
        b"f 1\n-1",
        b"v 0 0 0\nv 0 0 0\nvx 0 0 0\nf -2\n",
    ];
    for text in handed_on {
        assert!(has_faces_in_range(text));
        let strict = parse(text);
        assert_ne!(strict, Err(IngestError::Parse { message: name(INDEX_OUT_OF_RANGE) }));
        let loaded = load_model(text);
        assert_ne!(loaded, Err(name(INDEX_OUT_OF_RANGE)));
    }
}

#[test]
fn error_before_an_aborting_index_is_the_parsers() {
    let cases: [(&[u8], &str); 16] = [
        (b"f 1-1", "Expected index on line 1"),
        (b"v 0 0 0\nf 1/1-1\n", "Expected index on line 2"),
        (b"o\nf -1\n", "Expected object or group name on line 1"),
        (b"o bad!name\nf -1\n", "Expected object or group name on line 1"),
        (b"v 0 0 0\no \xc3\xa9\nf -2\n", "Expected object or group name on line 2"),
        (b"f 1/x/-1", "Expected index on line 1"),
        (b"f x/-1", "Expected index on line 1"),
        (b"f 0 -1", "Invalid index '0'"),
        (b"f +0 -1", "Invalid index '0'"),
        (b"f -0 -1", "Invalid index '0'"),
        (b"f /1 -1", "Expected index on line 1"),
        (b"f - -1", "Expected index on line 1"),
        (b"f 99999999999999999999 -1", "Expected index on line 1"),
        (b"f -99999999999999999999 -1", "Expected index on line 1"),
        (b"v 0 0 0\nf -3 -2\n", "Invalid index '-3'"),
        (b"f 1\nf 1/\xc3\xa9-1 -1\n", "Expected index on line 2"),
    ];
    for (text, message) in cases {
        assert!(has_faces_in_range(text));
        assert_eq!(parse(text), Err(IngestError::Parse { message: name(message) }));
        let ingest = parse_without_edit(text).unwrap();
        assert!(ingest.table.is_empty());
        assert_eq!(ingest.console, Some(name(message)));
    }
}

#[test]
fn text_that_is_not_utf8_is_the_parsers_to_reject() {
    let text: &[u8] = b"f -1 \xff\n";
    assert!(has_faces_in_range(text));
    let strict = parse(text);
    assert!(matches!(strict, Err(IngestError::Parse { .. })));
    assert_ne!(strict, Err(IngestError::Parse { message: name(INDEX_OUT_OF_RANGE) }));
    let ingest = parse_without_edit(text).unwrap();
    assert!(ingest.table.is_empty());
    assert!(ingest.console.is_some());
    assert_ne!(ingest.console, Some(name(INDEX_OUT_OF_RANGE)));
}

#[test]
fn counts_follow_the_lines_read_so_far() {
    assert!(has_faces_in_range(b"v 0 0 0\nv 0 0 0\nf -1 -2\nv 0 0 0\nf -3\n"));
    assert!(!has_faces_in_range(b"v 0 0 0\nv 0 0 0\nf -1 -2\nv 0 0 0\nf -4\n"));
    assert!(!has_faces_in_range(b"v 0 0 0\nv 0 0 0\nf -3\nv 0 0 0\n"));
    assert!(has_faces_in_range(b"f 1\nv 0 0 0\n"));
    assert!(!has_faces_in_range(b"v\nvt\nvn\nvn\nf -2/-2/-3\n"));
    assert!(has_faces_in_range(b"v\nvt\nvn\nvn\nf -1/-1/-2\n"));
    assert!(!has_faces_in_range(b"  v 1\n\tv 2\nv3 x\nf 1 -3\n"));
    assert!(has_faces_in_range(b"  v 1\n\tv 2\nv3 x\nf 1 -2\n"));
    assert!(has_faces_in_range(b"v\nf 1/1/1/-1/-1\n"));
}

#[test]
fn face_without_normal_fails_both_entry_points() {
    let text = b"o slab\nv 0 0 0\nvt 0 0\nvn 0 0 1\nf 1/1/1 1/1/1 1/1\n";
    let expected = IngestError::AttributeMissing {
        object: name("slab"),
        position: 2,
        attribute: Attribute::Normal,
    };
    assert_eq!(parse(text), Err(expected.clone()));
    assert_eq!(parse_without_edit(text), Err(expected));
}

#[test]
fn face_without_uv_fails_both_entry_points() {
    let text = b"o slab\nv 0 0 0\nvt 0 0\nvn 0 0 1\nf 1//1 1/1/1 1/1/1\n";
    let expected = IngestError::AttributeMissing {
        object: name("slab"),
        position: 0,
        attribute: Attribute::Uv,
    };
    assert_eq!(parse(text), Err(expected.clone()));
    assert_eq!(parse_without_edit(text), Err(expected));
}

#[test]
fn face_with_positions_only_reports_the_normal() {
    let text = b"v 0 0 0\nf 1 1 1\n";
    assert_eq!(
        parse(text),
        Err(IngestError::AttributeMissing {
            object: name(""),
            position: 0,
            attribute: Attribute::Normal,
        })
    );
}

#[test]
fn loaded_model_holds_what_the_text_says() {
    let model = load_model(b"o tri\nv 1 2 3\nv 4 5 6\nvt 0.5 0.25\nvn 0 1 0\nf 1/1/1 2/1 2//1\n").unwrap();
    let expected = Model {
        objects: vec![NamedObject {
            name: name("tri"),
            polygons: vec![MeshPolygon {
                vertices: vec![
                    MeshVertex {
                        position: vector(1.0, 2.0, 3.0),
                        uv: Some(vector(0.5, 0.25, 0.0)),
                        normal: Some(vector(0.0, 1.0, 0.0)),
                    },
                    MeshVertex {
                        position: vector(4.0, 5.0, 6.0),
                        uv: Some(vector(0.5, 0.25, 0.0)),
                        normal: None,
                    },
                    MeshVertex {
                        position: vector(4.0, 5.0, 6.0),
                        uv: None,
                        normal: Some(vector(0.0, 1.0, 0.0)),
                    },
                ],
            }],
        }],
    };
    assert_eq!(model, expected);
}

#[test]
fn strict_policy_turns_a_message_into_a_failure() {
    assert_eq!(
        transform_ingest(Err(name("no good"))),
        Err(IngestError::Parse { message: name("no good") })
    );
    let table = transform_ingest(Ok(Model { objects: vec![] })).unwrap();
    assert!(table.is_empty());
}

#[test]
fn lenient_policy_turns_a_message_into_console_output() {
    let ingest = plain_ingest(Err(name("no good"))).unwrap();
    assert!(ingest.table.is_empty());
    assert_eq!(ingest.console, Some(name("no good")));
    let ingest = plain_ingest(Ok(Model { objects: vec![] })).unwrap();
    assert!(ingest.table.is_empty());
    assert_eq!(ingest.console, None);
}

#[test]
fn lenient_policy_still_fails_on_a_broken_model() {
    let model = Model {
        objects: vec![NamedObject {
            name: name("slab"),
            polygons: vec![MeshPolygon {
                vertices: vec![MeshVertex {
                    position: vector(0.0, 0.0, 0.0),
                    uv: None,
                    normal: Some(vector(0.0, 0.0, 1.0)),
                }],
            }],
        }],
    };
    assert_eq!(
        plain_ingest(Ok(model)),
        Err(IngestError::AttributeMissing {
            object: name("slab"),
            position: 0,
            attribute: Attribute::Uv,
        })
    );
}

const SHARDS: &str = "\
v 0 0 0
v 1 0 0
v 0 1 0
v 0 0 1
vt 0.5 0.5
vn 0 0 1
o a
f 1/1/1 2/1/1 3/1/1
o b
f 2/1/1 3/1/1 4/1/1
o c
f 3/1/1 4/1/1 1/1/1
o d
f 4/1/1 1/1/1 2/1/1
o e
f 1/1/1 1/1/1 1/1/1 1/1/1
";

#[test]
fn tables_of_one_text_are_equal_whatever_the_order_of_its_objects() {
    let first = parse(SHARDS.as_bytes()).unwrap();
    assert_eq!(first.len(), 5);
    for _ in 0..20 {
        let again = parse(SHARDS.as_bytes()).unwrap();
        assert_eq!(again, first);
        let lenient = parse_without_edit(SHARDS.as_bytes()).unwrap();
        assert_eq!(lenient.table, first);
        assert_eq!(lenient.console, None);
    }
    assert_eq!(floats(first.get(&name("c")).unwrap().get(2).unwrap().pos), [0.0, 0.0, 1.0]);
    assert_eq!(first.get(&name("e")).unwrap().len(), 4);
}

#[test]
fn loaded_model_holds_every_object_once() {
    let model = load_model(SHARDS.as_bytes()).unwrap();
    let mut names: Vec<String> = model.objects.iter().map(|o| o.name.clone()).collect();
    names.sort();
    assert_eq!(names, vec![name("a"), name("b"), name("c"), name("d"), name("e")]);
    for object in &model.objects {
        assert_eq!(object.polygons.len(), 1);
    }
}

#[test]
fn groups_of_an_object_follow_one_another() {
    let text = b"\
v 0 0 0
v 1 0 0
v 0 1 0
vt 0 0
vn 0 0 1
o pair
g first
f 1/1/1 2/1/1 3/1/1
g second
f 3/1/1 3/1/1 3/1/1 3/1/1
f 2/1/1 2/1/1 2/1/1
";
    let table = parse(text).unwrap();
    let pair = table.get(&name("pair")).unwrap();
    assert_eq!(pair.len(), 10);
    let walked: Vec<[f32; 3]> = (1..=10).map(|key| floats(pair.get(key).unwrap().pos)).collect();
    let a = [0.0, 0.0, 0.0];
    let b = [1.0, 0.0, 0.0];
    let c = [0.0, 1.0, 0.0];
    let first = vec![a, b, c];
    let second = vec![c, c, c, c, b, b, b];
    let one = [first.clone(), second.clone()].concat();
    let other = [second, first].concat();
    assert!(walked == one || walked == other);
}

#[test]
fn face_in_two_groups_is_walked_in_each() {
    let text = b"v 0 0 0\nvt 0 0\nvn 0 0 1\no both\ng left right\nf 1/1/1 1/1/1 1/1/1\n";
    let model = load_model(text).unwrap();
    assert_eq!(model.objects.len(), 1);
    assert_eq!(model.objects[0].polygons.len(), 2);
    let table = parse(text).unwrap();
    assert_eq!(table.get(&name("both")).unwrap().len(), 6);
}

#[test]
fn object_without_faces_or_groups_is_not_held_by_the_parser() {
    let model = load_model(b"o bare\n").unwrap();
    assert_eq!(model, Model { objects: vec![] });
}

//! The walk from a mesh to its table, on meshes written out by hand.

use obj_parser::emit::{emit, emit_object, emit_vertex, is_encodable, Attribute, IngestError};
use obj_parser::model::{MeshPolygon, MeshVertex, Model, NamedObject, Vector3};
use obj_parser::table::{InnerTable, OuterTable, Record};

fn vector(x: f32, y: f32, z: f32) -> Vector3 {
    Vector3 { x: x.to_bits(), y: y.to_bits(), z: z.to_bits() }
}

/// A complete vertex whose coordinates all derive from `n`, so that no two differ.
fn vertex(n: u32) -> MeshVertex {
    let f = n as f32;
    MeshVertex {
        position: vector(f, f + 0.25, f + 0.5),
        uv: Some(vector(f / 100.0, f / 200.0, 0.0)),
        normal: Some(vector(0.0, 1.0, f)),
    }
}

fn row(n: u32) -> Record {
    let f = n as f32;
    Record {
        pos: vector(f, f + 0.25, f + 0.5),
        normal: vector(0.0, 1.0, f),
        u: (f / 100.0).to_bits(),
        v: (f / 200.0).to_bits(),
    }
}

fn polygon(first: u32, count: u32) -> MeshPolygon {
    MeshPolygon { vertices: (first..first + count).map(vertex).collect() }
}

fn object(name: &str, polygons: Vec<MeshPolygon>) -> NamedObject {
    NamedObject { name: name.to_string(), polygons }
}

fn name(text: &str) -> String {
    text.to_string()
}

#[test]
fn vertex_row_keeps_position_and_normal_and_takes_two_uv_components() {
    let v = MeshVertex {
        position: vector(1.0, 2.0, 3.0),
        uv: Some(vector(0.25, 0.75, 9.0)),
        normal: Some(vector(0.0, 0.0, -1.0)),
    };
    let expected = Record {
        pos: vector(1.0, 2.0, 3.0),
        normal: vector(0.0, 0.0, -1.0),
        u: 0.25f32.to_bits(),
        v: 0.75f32.to_bits(),
    };
    assert_eq!(emit_vertex(&v), Ok(expected));
}

#[test]
fn vertex_without_normal_is_reported() {
    let mut v = vertex(1);
    v.normal = None;
    assert_eq!(emit_vertex(&v), Err(Attribute::Normal));
}

#[test]
fn vertex_without_uv_is_reported() {
    let mut v = vertex(1);
    v.uv = None;
    assert_eq!(emit_vertex(&v), Err(Attribute::Uv));
}

#[test]
fn vertex_without_both_reports_the_normal() {
    let v = MeshVertex { position: vector(0.0, 0.0, 0.0), uv: None, normal: None };
    assert_eq!(emit_vertex(&v), Err(Attribute::Normal));
}

#[test]
fn keys_run_from_one_across_polygons() {
    let o = object("hull", vec![polygon(0, 3), polygon(10, 4), polygon(20, 5)]);
    let table = emit_object(&o).unwrap();
    assert_eq!(table.len(), 12);
    assert_eq!(table.get(0), None);
    assert_eq!(table.get(13), None);
    let order: Vec<u32> = (0..3).chain(10..14).chain(20..25).collect();
    for (i, n) in order.iter().enumerate() {
        assert_eq!(table.get(i + 1), Some(row(*n)));
    }
}

#[test]
fn polygon_without_vertices_takes_no_key() {
    let o = object("hull", vec![polygon(0, 2), polygon(5, 0), polygon(7, 1)]);
    let table = emit_object(&o).unwrap();
    assert_eq!(table.rows, vec![row(0), row(1), row(7)]);
}

#[test]
fn object_without_faces_has_empty_inner_table() {
    let model = Model { objects: vec![object("bare", vec![])] };
    let table = emit(&model).unwrap();
    assert_eq!(table.len(), 1);
    let inner = table.get(&name("bare")).unwrap();
    assert_eq!(inner.len(), 0);
    assert_eq!(inner.get(1), None);
}

#[test]
fn empty_model_gives_empty_table() {
    let table = emit(&Model { objects: vec![] }).unwrap();
    assert!(table.is_empty());
    assert_eq!(table.len(), 0);
    assert_eq!(table.get(&name("")), None);
}

#[test]
fn every_object_is_stored_under_its_name() {
    let model = Model {
        objects: vec![
            object("a", vec![polygon(0, 3)]),
            object("b", vec![polygon(3, 4), polygon(7, 3)]),
            object("", vec![polygon(50, 1)]),
        ],
    };
    let table = emit(&model).unwrap();
    assert_eq!(table.len(), 3);
    assert_eq!(table.get(&name("a")).unwrap().rows, vec![row(0), row(1), row(2)]);
    assert_eq!(table.get(&name("b")).unwrap().len(), 7);
    assert_eq!(table.get(&name("b")).unwrap().get(5), Some(row(7)));
    assert_eq!(table.get(&name("")).unwrap().rows, vec![row(50)]);
    assert_eq!(table.get(&name("c")), None);
    assert_eq!(table.name_at(0), "a");
    assert_eq!(table.name_at(1), "b");
    assert_eq!(table.name_at(2), "");
    assert_eq!(table.table_at(1).len(), 7);
}

#[test]
fn counter_restarts_with_each_object() {
    let model = Model {
        objects: vec![object("a", vec![polygon(0, 5)]), object("b", vec![polygon(5, 2)])],
    };
    let table = emit(&model).unwrap();
    assert_eq!(table.get(&name("b")).unwrap().get(1), Some(row(5)));
    assert_eq!(table.get(&name("b")).unwrap().get(2), Some(row(6)));
    assert_eq!(table.get(&name("b")).unwrap().get(3), None);
}

#[test]
fn duplicate_name_keeps_the_later_object() {
    let model = Model {
        objects: vec![
            object("twin", vec![polygon(0, 4)]),
            object("other", vec![polygon(4, 3)]),
            object("twin", vec![polygon(7, 2)]),
        ],
    };
    let table = emit(&model).unwrap();
    assert_eq!(table.len(), 2);
    assert_eq!(table.get(&name("twin")).unwrap().rows, vec![row(7), row(8)]);
    assert_eq!(table.get(&name("other")).unwrap().rows, vec![row(4), row(5), row(6)]);
    assert_eq!(table.name_at(0), "twin");
    assert_eq!(table.name_at(1), "other");
}

#[test]
fn first_incomplete_vertex_is_reported_with_what_precedes_it() {
    let mut second = polygon(3, 4);
    second.vertices[2].uv = None;
    second.vertices[3].normal = None;
    let o = object("hull", vec![polygon(0, 3), second]);
    assert_eq!(
        emit_object(&o),
        Err(IngestError::AttributeMissing {
            object: name("hull"),
            position: 5,
            attribute: Attribute::Uv,
        })
    );
}

#[test]
fn name_with_nul_cannot_be_encoded() {
    assert!(is_encodable("plain"));
    assert!(is_encodable(""));
    assert!(!is_encodable("a\0b"));
    assert!(!is_encodable("\0"));
    let o = object("a\0b", vec![polygon(0, 3)]);
    assert_eq!(emit_object(&o), Err(IngestError::Encoding { object: name("a\0b") }));
}

#[test]
fn missing_attribute_comes_before_the_name() {
    let mut p = polygon(0, 3);
    p.vertices[0].normal = None;
    let o = object("a\0b", vec![p]);
    assert_eq!(
        emit_object(&o),
        Err(IngestError::AttributeMissing {
            object: name("a\0b"),
            position: 0,
            attribute: Attribute::Normal,
        })
    );
}

#[test]
fn first_failing_object_decides() {
    let mut p = polygon(0, 3);
    p.vertices[1].normal = None;
    let model = Model {
        objects: vec![
            object("fine", vec![polygon(0, 3)]),
            object("bad\0name", vec![]),
            object("holes", vec![p]),
        ],
    };
    assert_eq!(emit(&model), Err(IngestError::Encoding { object: name("bad\0name") }));
}

#[test]
fn walking_twice_gives_equal_tables() {
    let model = Model {
        objects: vec![object("a", vec![polygon(0, 3)]), object("b", vec![polygon(3, 4)])],
    };
    assert_eq!(emit(&model), emit(&model));
    let mut p = polygon(0, 3);
    p.vertices[2].uv = None;
    let broken = Model { objects: vec![object("a", vec![p])] };
    assert_eq!(emit(&broken), emit(&broken));
    assert!(emit(&broken).is_err());
}

#[test]
fn inner_table_hands_out_keys_in_order() {
    let mut table = InnerTable::new();
    assert_eq!(table.len(), 0);
    assert_eq!(table.push(row(4)), 1);
    assert_eq!(table.push(row(9)), 2);
    assert_eq!(table.len(), 2);
    assert_eq!(table.get(1), Some(row(4)));
    assert_eq!(table.get(2), Some(row(9)));
    assert_eq!(table.get(0), None);
    assert_eq!(table.get(3), None);
    assert_eq!(table.get(usize::MAX), None);
}

#[test]
fn outer_table_replaces_what_a_name_held() {
    let mut table = OuterTable::new();
    assert!(table.is_empty());
    table.set(name("a"), InnerTable { rows: vec![row(1)] });
    table.set(name("b"), InnerTable { rows: vec![row(2), row(3)] });
    table.set(name("a"), InnerTable { rows: vec![] });
    assert_eq!(table.len(), 2);
    assert!(!table.is_empty());
    assert_eq!(table.get(&name("a")).unwrap().rows, vec![]);
    assert_eq!(table.get(&name("b")).unwrap().rows, vec![row(2), row(3)]);
    assert_eq!(table.get(&name("A")), None);
}

#[test]
fn outer_tables_are_equal_whatever_the_order_of_storing() {
    let mut first = OuterTable::new();
    first.set(name("a"), InnerTable { rows: vec![row(1)] });
    first.set(name("b"), InnerTable { rows: vec![row(2), row(3)] });
    let mut second = OuterTable::new();
    second.set(name("b"), InnerTable { rows: vec![row(2), row(3)] });
    second.set(name("a"), InnerTable { rows: vec![row(9)] });
    assert_ne!(first, second);
    second.set(name("a"), InnerTable { rows: vec![row(1)] });
    assert_eq!(first, second);
    assert_eq!(second, first);
    second.set(name("c"), InnerTable::new());
    assert_ne!(first, second);
    assert_ne!(second, first);
    let mut third = OuterTable::new();
    third.set(name("a"), InnerTable { rows: vec![row(1)] });
    third.set(name("c"), InnerTable { rows: vec![row(2), row(3)] });
    assert_ne!(first, third);
    assert_eq!(OuterTable::new(), OuterTable::new());
}

#[test]
fn inner_tables_are_equal_when_their_rows_are() {
    let a = InnerTable { rows: vec![row(1), row(2)] };
    let b = InnerTable { rows: vec![row(1), row(2)] };
    let c = InnerTable { rows: vec![row(2), row(1)] };
    let d = InnerTable { rows: vec![row(1)] };
    assert_eq!(a, b);
    assert_ne!(a, c);
    assert_ne!(a, d);
    assert_ne!(d, a);
    assert_eq!(InnerTable::new(), InnerTable { rows: vec![] });
}

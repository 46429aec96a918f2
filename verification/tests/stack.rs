//! The stack program of a table, performed on a small model of the host's stack.

use std::collections::BTreeMap;

use obj_parser::endpoint::{parse, parse_without_edit};
use obj_parser::marshal::{plan, Field, StackOp, DEPTH};
use obj_parser::model::Vector3;
use obj_parser::table::{InnerTable, OuterTable, Record};

#[derive(Clone, Debug, PartialEq, Eq, PartialOrd, Ord)]
enum Key {
    Index(usize),
    Text(String),
}

#[derive(Clone, Debug, PartialEq)]
enum Value {
    Number(usize),
    Datum(Record, Field),
    Table(BTreeMap<Key, Value>),
}

/// Performs the steps on `stack` and returns the greatest height that it reached.
fn perform(stack: &mut Vec<Value>, ops: &[StackOp]) -> usize {
    let mut peak = stack.len();
    for op in ops {
        match op {
            StackOp::NewTable => stack.push(Value::Table(BTreeMap::new())),
            StackOp::PushKey(key) => stack.push(Value::Number(*key)),
            StackOp::PushDatum(record, field) => stack.push(Value::Datum(*record, *field)),
            StackOp::SetField(field) => store(stack, Key::Text(field.name().to_string())),
            StackOp::SetName(name) => store(stack, Key::Text(name.clone())),
            StackOp::SetTable => {
                let value = stack.pop().unwrap();
                let Some(Value::Number(key)) = stack.pop() else {
                    panic!("no key below the value");
                };
                stack.push(value);
                store(stack, Key::Index(key));
            }
        }
        peak = peak.max(stack.len());
    }
    peak
}

fn store(stack: &mut Vec<Value>, key: Key) {
    let value = stack.pop().unwrap();
    let Some(Value::Table(table)) = stack.last_mut() else {
        panic!("no table below the value");
    };
    table.insert(key, value);
}

fn row(n: u32) -> Record {
    Record {
        pos: Vector3 { x: n, y: n + 1, z: n + 2 },
        normal: Vector3 { x: n + 3, y: n + 4, z: n + 5 },
        u: n + 6,
        v: n + 7,
    }
}

fn host_row(record: Record) -> Value {
    Value::Table(BTreeMap::from([
        (Key::Text("pos".to_string()), Value::Datum(record, Field::Pos)),
        (Key::Text("normal".to_string()), Value::Datum(record, Field::Normal)),
        (Key::Text("u".to_string()), Value::Datum(record, Field::U)),
        (Key::Text("v".to_string()), Value::Datum(record, Field::V)),
    ]))
}

fn host_rows(rows: &[Record]) -> Value {
    Value::Table(
        rows.iter().enumerate().map(|(i, r)| (Key::Index(i + 1), host_row(*r))).collect(),
    )
}

#[test]
fn fields_are_stored_under_their_names() {
    assert_eq!(Field::Pos.name(), "pos");
    assert_eq!(Field::Normal.name(), "normal");
    assert_eq!(Field::U.name(), "u");
    assert_eq!(Field::V.name(), "v");
}

#[test]
fn empty_table_is_one_new_table() {
    let ops = plan(&OuterTable::new());
    assert_eq!(ops, vec![StackOp::NewTable]);
    let mut stack = Vec::new();
    perform(&mut stack, &ops);
    assert_eq!(stack, vec![Value::Table(BTreeMap::new())]);
}

#[test]
fn steps_of_one_vertex_are_written_out() {
    let mut table = OuterTable::new();
    table.set("solo".to_string(), InnerTable { rows: vec![row(10)] });
    let r = row(10);
    assert_eq!(
        plan(&table),
        vec![
            StackOp::NewTable,
            StackOp::NewTable,
            StackOp::PushKey(1),
            StackOp::NewTable,
            StackOp::PushDatum(r, Field::Pos),
            StackOp::SetField(Field::Pos),
            StackOp::PushDatum(r, Field::Normal),
            StackOp::SetField(Field::Normal),
            StackOp::PushDatum(r, Field::U),
            StackOp::SetField(Field::U),
            StackOp::PushDatum(r, Field::V),
            StackOp::SetField(Field::V),
            StackOp::SetTable,
            StackOp::SetName("solo".to_string()),
        ]
    );
}

#[test]
fn program_builds_the_nested_table() {
    let mut table = OuterTable::new();
    table.set("a".to_string(), InnerTable { rows: vec![row(0), row(10), row(20)] });
    table.set("bare".to_string(), InnerTable::new());
    table.set("b".to_string(), InnerTable { rows: vec![row(30)] });
    let ops = plan(&table);
    assert_eq!(ops.len(), 1 + (2 + 3 * 11) + 2 + (2 + 11));
    let mut stack = Vec::new();
    let peak = perform(&mut stack, &ops);
    let expected = Value::Table(BTreeMap::from([
        (Key::Text("a".to_string()), host_rows(&[row(0), row(10), row(20)])),
        (Key::Text("bare".to_string()), host_rows(&[])),
        (Key::Text("b".to_string()), host_rows(&[row(30)])),
    ]));
    assert_eq!(stack, vec![expected]);
    assert_eq!(peak, DEPTH);
}

#[test]
fn program_leaves_what_was_on_the_stack() {
    let mut table = OuterTable::new();
    table.set("a".to_string(), InnerTable { rows: vec![row(1), row(2)] });
    let before = vec![Value::Number(7), Value::Table(BTreeMap::new()), Value::Number(9)];
    let mut stack = before.clone();
    let peak = perform(&mut stack, &plan(&table));
    assert_eq!(stack.len(), before.len() + 1);
    assert_eq!(stack[..3], before[..]);
    assert!(peak <= before.len() + DEPTH);
    assert_eq!(
        stack[3],
        Value::Table(BTreeMap::from([(Key::Text("a".to_string()), host_rows(&[row(1), row(2)]))]))
    );
}

#[test]
fn parsed_text_is_built_on_the_stack() {
    let text = b"o tri\nv 1 2 3\nvt 0.5 0.25\nvn 0 1 0\nf 1/1/1 1/1/1 1/1/1\n";
    let table = parse(text).unwrap();
    let mut stack = Vec::new();
    perform(&mut stack, &plan(&table));
    let record = Record {
        pos: Vector3 { x: 1.0f32.to_bits(), y: 2.0f32.to_bits(), z: 3.0f32.to_bits() },
        normal: Vector3 { x: 0.0f32.to_bits(), y: 1.0f32.to_bits(), z: 0.0f32.to_bits() },
        u: 0.5f32.to_bits(),
        v: 0.25f32.to_bits(),
    };
    let expected = Value::Table(BTreeMap::from([(
        Key::Text("tri".to_string()),
        host_rows(&[record, record, record]),
    )]));
    assert_eq!(stack, vec![expected]);
}

#[test]
fn malformed_text_still_leaves_one_table_on_the_lenient_path() {
    let ingest = parse_without_edit(b"o\n").unwrap();
    let mut stack = vec![Value::Number(1)];
    perform(&mut stack, &plan(&ingest.table));
    assert_eq!(stack, vec![Value::Number(1), Value::Table(BTreeMap::new())]);
}

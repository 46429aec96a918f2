//! The table as a program for the host's value stack.
//!
//! The host builds nested tables on a stack: a new table is pushed, values are
//! pushed on top of it, and a store pops them into the table below. [`plan`] writes
//! down the steps that build an outer table; the caller performs them one by one.
//! Whatever the stack holds before, the steps leave it as it was with exactly one
//! value more on top: the outer table.

use vstd::prelude::*;
use crate::table::{InnerTable, OuterTable, Record};

verus! {

/// The four fields of an emitted vertex.
#[derive(Clone, Copy, Debug, PartialEq, Eq, Structural)]
pub enum Field {
    Pos,
    Normal,
    U,
    V,
}

/// One step on the host's stack.
#[derive(Clone, Debug, PartialEq, Eq)]
pub enum StackOp {
    /// Push a new, empty table.
    NewTable,
    /// Push the number `key`.
    PushKey(usize),
    /// Push what the caller makes of this field of the record: a vector for the
    /// position and the normal, a number for the texture coordinates.
    PushDatum(Record, Field),
    /// Pop a value and store it under the field's name in the table below it.
    SetField(Field),
    /// Pop a value, pop the key below it, and store the value under the key in the
    /// table below both.
    SetTable,
    /// Pop a value and store it under this name in the table below it.
    SetName(String),
}

/// What a [`StackOp`] is to a contract.
pub enum Step {
    NewTable,
    PushKey(int),
    PushDatum(Record, Field),
    SetField(Field),
    SetTable,
    SetName(Seq<char>),
}

impl View for StackOp {
    type V = Step;

    open spec fn view(&self) -> Step {
        match *self {
            StackOp::NewTable => Step::NewTable,
            StackOp::PushKey(key) => Step::PushKey(key as int),
            StackOp::PushDatum(record, field) => Step::PushDatum(record, field),
            StackOp::SetField(field) => Step::SetField(field),
            StackOp::SetTable => Step::SetTable,
            StackOp::SetName(name) => Step::SetName(name@),
        }
    }
}

/// The steps of a program as a contract sees them.
pub open spec fn steps(ops: Seq<StackOp>) -> Seq<Step> {
    ops.map_values(|op: StackOp| op@)
}

/// A key of a host table: a number or a string.
pub enum HostKey {
    Index(int),
    Text(Seq<char>),
}

/// A value on the host's stack.
pub enum HostValue {
    /// A number that was pushed as a key.
    Number(int),
    /// What the caller made of a field of a record.
    Datum(Record, Field),
    /// A table.
    Table(Map<HostKey, HostValue>),
}

/// The name under which a field is stored.
pub open spec fn field_name(field: Field) -> Seq<char> {
    match field {
        Field::Pos => "pos"@,
        Field::Normal => "normal"@,
        Field::U => "u"@,
        Field::V => "v"@,
    }
}

/// Stores `value` under `key` in the table that is `below` the top of the stack by
/// that many places, after the top `below` values have been popped. `None` where
/// the stack is too short or holds no table there.
pub open spec fn store(stack: Seq<HostValue>, below: int, key: HostKey, value: HostValue) -> Option<
    Seq<HostValue>,
> {
    let at = stack.len() - 1 - below;
    if at >= 0 && stack[at] is Table {
        Some(stack.take(at).push(HostValue::Table(stack[at]->Table_0.insert(key, value))))
    } else {
        None
    }
}

/// The stack after one step, or `None` where the step cannot be performed.
pub open spec fn step(stack: Seq<HostValue>, op: Step) -> Option<Seq<HostValue>> {
    match op {
        Step::NewTable => Some(stack.push(HostValue::Table(Map::empty()))),
        Step::PushKey(key) => Some(stack.push(HostValue::Number(key))),
        Step::PushDatum(record, field) => Some(stack.push(HostValue::Datum(record, field))),
        Step::SetField(field) => if stack.len() >= 2 {
            store(stack, 1, HostKey::Text(field_name(field)), stack.last())
        } else {
            None
        },
        Step::SetName(name) => if stack.len() >= 2 {
            store(stack, 1, HostKey::Text(name), stack.last())
        } else {
            None
        },
        Step::SetTable => if stack.len() >= 3 && stack[stack.len() - 2] is Number {
            store(stack, 2, HostKey::Index(stack[stack.len() - 2]->Number_0), stack.last())
        } else {
            None
        },
    }
}

/// The stack after a program, or `None` where one of its steps cannot be performed.
pub open spec fn run(stack: Seq<HostValue>, program: Seq<Step>) -> Option<Seq<HostValue>>
    decreases program.len(),
{
    if program.len() == 0 {
        Some(stack)
    } else {
        match run(stack, program.drop_last()) {
            Some(reached) => step(reached, program.last()),
            None => None,
        }
    }
}

/// The table of one vertex: its four fields under their names.
pub open spec fn host_row(record: Record) -> HostValue {
    HostValue::Table(
        Map::<HostKey, HostValue>::empty().insert(
            HostKey::Text(field_name(Field::Pos)),
            HostValue::Datum(record, Field::Pos),
        ).insert(
            HostKey::Text(field_name(Field::Normal)),
            HostValue::Datum(record, Field::Normal),
        ).insert(HostKey::Text(field_name(Field::U)), HostValue::Datum(record, Field::U)).insert(
            HostKey::Text(field_name(Field::V)),
            HostValue::Datum(record, Field::V),
        ),
    )
}

/// The inner table of the host: the table of the `k`-th row under the number `k`,
/// for `k` from 1 to the number of rows.
pub open spec fn host_rows(rows: Seq<Record>) -> HostValue {
    HostValue::Table(
        Map::new(
            |key: HostKey| key matches HostKey::Index(k) && 1 <= k <= rows.len(),
            |key: HostKey| host_row(rows[key->Index_0 - 1]),
        ),
    )
}

/// The outer table of the host: the inner table of every object under its name.
pub open spec fn host_table(table: Map<Seq<char>, Seq<Record>>) -> HostValue {
    HostValue::Table(
        Map::new(
            |key: HostKey| key matches HostKey::Text(name) && table.contains_key(name),
            |key: HostKey| host_rows(table[key->Text_0]),
        ),
    )
}

/// The program leaves every stack as it was, with `value` as the one value more on
/// top.
pub open spec fn builds(program: Seq<Step>, value: HostValue) -> bool {
    forall|base: Seq<HostValue>| #[trigger] run(base, program) == Some(base.push(value))
}

impl Field {
    /// The name under which the field is stored.
    pub fn name(self) -> (name: &'static str)
        ensures
            name@ == field_name(self),
    {
        match self {
            Field::Pos => "pos",
            Field::Normal => "normal",
            Field::U => "u",
            Field::V => "v",
        }
    }
}

/// The four field names differ from one another.
pub proof fn lemma_field_names_differ(first: Field, second: Field)
    requires
        first != second,
    ensures
        field_name(first) != field_name(second),
{
    reveal_strlit("pos");
    reveal_strlit("normal");
    reveal_strlit("u");
    reveal_strlit("v");
    assert("pos"@.len() == 3);
    assert("normal"@.len() == 6);
    assert("u"@.len() == 1 && "u"@[0] == 'u');
    assert("v"@.len() == 1 && "v"@[0] == 'v');
    assert(field_name(Field::Pos).len() == 3);
    assert(field_name(Field::Normal).len() == 6);
    assert(field_name(Field::U)[0] == 'u');
    assert(field_name(Field::V)[0] == 'v');
}

/// The table of a vertex holds all four fields and nothing else: under each field's
/// name, what the caller makes of that field of the record.
pub proof fn lemma_row_fields(record: Record)
    ensures
        forall|key: HostKey|
            host_row(record)->Table_0.contains_key(key) <==> exists|field: Field|
                key == HostKey::Text(#[trigger] field_name(field)),
        forall|field: Field| #[trigger]
            host_row(record)->Table_0[HostKey::Text(field_name(field))] == HostValue::Datum(
                record,
                field,
            ),
{
    let row = host_row(record)->Table_0;
    assert forall|key: HostKey| row.contains_key(key) implies exists|field: Field|
        key == HostKey::Text(#[trigger] field_name(field)) by {
        if key == HostKey::Text(field_name(Field::Pos)) {
        } else if key == HostKey::Text(field_name(Field::Normal)) {
        } else if key == HostKey::Text(field_name(Field::U)) {
        } else {
            assert(key == HostKey::Text(field_name(Field::V)));
        }
    }
    assert forall|field: Field| #[trigger]
        row[HostKey::Text(field_name(field))] == HostValue::Datum(record, field) by {
        lemma_field_names_differ(Field::Pos, Field::Normal);
        lemma_field_names_differ(Field::Pos, Field::U);
        lemma_field_names_differ(Field::Pos, Field::V);
        lemma_field_names_differ(Field::Normal, Field::U);
        lemma_field_names_differ(Field::Normal, Field::V);
        lemma_field_names_differ(Field::U, Field::V);
    }
}

/// The inner table of the host has exactly the keys 1, 2, ... up to the number of
/// rows, and holds under key `k` the table of the `k`-th row.
pub proof fn lemma_host_keys(rows: Seq<Record>)
    ensures
        forall|key: HostKey|
            #[trigger] host_rows(rows)->Table_0.contains_key(key) <==> (key matches HostKey::Index(k)
                && 1 <= k <= rows.len()),
        forall|k: int|
            1 <= k <= rows.len() ==> #[trigger] host_rows(rows)->Table_0[HostKey::Index(k)]
                == host_row(rows[k - 1]),
{
}

/// The outer table of the host holds under every name of the table the inner table
/// of the rows stored there, and holds nothing else.
pub proof fn lemma_host_names(table: Map<Seq<char>, Seq<Record>>)
    ensures
        forall|key: HostKey|
            #[trigger] host_table(table)->Table_0.contains_key(key) <==> (key matches HostKey::Text(
                name,
            ) && table.contains_key(name)),
        forall|name: Seq<char>|
            table.contains_key(name) ==> #[trigger] host_table(table)->Table_0[HostKey::Text(name)]
                == host_rows(table[name]),
{
}

/// The program leaves every stack as it was, with the values of `frame` on top.
spec fn reaches(program: Seq<Step>, frame: Seq<HostValue>) -> bool {
    forall|base: Seq<HostValue>|
        (#[trigger] run(base, program)) is Some && run(base, program)->Some_0 =~= base + frame
}

/// The step turns the values `frame` on top of any stack into the values `next`.
spec fn turns(op: Step, frame: Seq<HostValue>, next: Seq<HostValue>) -> bool {
    forall|base: Seq<HostValue>|
        (#[trigger] step(base + frame, op)) is Some && step(base + frame, op)->Some_0 =~= base + next
}

/// The most values that a program of [`plan`] ever holds on top of what the stack
/// held before.
pub const DEPTH: usize = 5;

/// Every step of the program can be performed, and at no point does the stack hold
/// more than `height` values on top of what it held before.
pub open spec fn within(program: Seq<Step>, height: int) -> bool {
    forall|base: Seq<HostValue>, k: int|
        0 <= k <= program.len() ==> (#[trigger] run(base, program.take(k))) is Some && run(
            base,
            program.take(k),
        )->Some_0.len() <= base.len() + height
}

proof fn lemma_within_push(program: Seq<Step>, op: Step, next: Seq<HostValue>, height: int)
    requires
        within(program, height),
        reaches(program.push(op), next),
        next.len() <= height,
    ensures
        within(program.push(op), height),
{
    let longer = program.push(op);
    assert forall|base: Seq<HostValue>, k: int| 0 <= k <= longer.len() implies (#[trigger] run(
        base,
        longer.take(k),
    )) is Some && run(base, longer.take(k))->Some_0.len() <= base.len() + height by {
        if k <= program.len() {
            assert(longer.take(k) =~= program.take(k));
        } else {
            assert(longer.take(k) =~= longer);
            assert(run(base, longer) is Some);
        }
    }
}

proof fn lemma_run_push(base: Seq<HostValue>, program: Seq<Step>, op: Step)
    ensures
        run(base, program.push(op)) == match run(base, program) {
            Some(reached) => step(reached, op),
            None => None,
        },
{
    assert(program.push(op).drop_last() =~= program);
    assert(program.push(op).last() == op);
}

proof fn lemma_reaches_push(program: Seq<Step>, frame: Seq<HostValue>, op: Step, next: Seq<HostValue>)
    requires
        reaches(program, frame),
        turns(op, frame, next),
    ensures
        reaches(program.push(op), next),
{
    assert forall|base: Seq<HostValue>|
        (#[trigger] run(base, program.push(op))) is Some && run(base, program.push(op))->Some_0
            =~= base + next by {
        lemma_run_push(base, program, op);
        assert(run(base, program) is Some);
        assert(run(base, program)->Some_0 == base + frame);
        assert(step(base + frame, op) is Some);
    }
}

proof fn lemma_turns_push(frame: Seq<HostValue>, op: Step, value: HostValue)
    requires
        op == Step::NewTable && value == HostValue::Table(Map::empty()) || (op matches Step::PushKey(
            key,
        ) && value == HostValue::Number(key)) || (op matches Step::PushDatum(record, field) && value
            == HostValue::Datum(record, field)),
    ensures
        turns(op, frame, frame.push(value)),
{
    assert forall|base: Seq<HostValue>|
        (#[trigger] step(base + frame, op)) is Some && step(base + frame, op)->Some_0 =~= base
            + frame.push(value) by {}
}

proof fn lemma_turns_store(
    below: Seq<HostValue>,
    table: Map<HostKey, HostValue>,
    op: Step,
    text: Seq<char>,
    value: HostValue,
)
    requires
        op == Step::SetName(text) || (op matches Step::SetField(field) && text == field_name(field)),
    ensures
        turns(
            op,
            below.push(HostValue::Table(table)).push(value),
            below.push(HostValue::Table(table.insert(HostKey::Text(text), value))),
        ),
{
    let frame = below.push(HostValue::Table(table)).push(value);
    let next = below.push(HostValue::Table(table.insert(HostKey::Text(text), value)));
    assert forall|base: Seq<HostValue>|
        (#[trigger] step(base + frame, op)) is Some && step(base + frame, op)->Some_0 =~= base
            + next by {
        let stack = base + frame;
        assert(stack.len() == base.len() + below.len() + 2);
        assert(stack[stack.len() - 2] == HostValue::Table(table));
        assert(stack.last() == value);
        assert(stack.take(stack.len() - 2) =~= base + below);
    }
}

proof fn lemma_turns_set_table(
    below: Seq<HostValue>,
    table: Map<HostKey, HostValue>,
    key: int,
    value: HostValue,
)
    ensures
        turns(
            Step::SetTable,
            below.push(HostValue::Table(table)).push(HostValue::Number(key)).push(value),
            below.push(HostValue::Table(table.insert(HostKey::Index(key), value))),
        ),
{
    let frame = below.push(HostValue::Table(table)).push(HostValue::Number(key)).push(value);
    let next = below.push(HostValue::Table(table.insert(HostKey::Index(key), value)));
    assert forall|base: Seq<HostValue>|
        (#[trigger] step(base + frame, Step::SetTable)) is Some && step(
            base + frame,
            Step::SetTable,
        )->Some_0 =~= base + next by {
        let stack = base + frame;
        assert(stack.len() == base.len() + below.len() + 3);
        assert(stack[stack.len() - 3] == HostValue::Table(table));
        assert(stack[stack.len() - 2] == HostValue::Number(key));
        assert(stack.last() == value);
        assert(stack.take(stack.len() - 3) =~= base + below);
    }
}

/// Appends one step to a program that leaves `frame` on top of any stack.
fn put(ops: &mut Vec<StackOp>, op: StackOp, Ghost(frame): Ghost<Seq<HostValue>>, Ghost(next): Ghost<Seq<HostValue>>)
    requires
        reaches(steps(old(ops)@), frame),
        within(steps(old(ops)@), DEPTH as int),
        turns(op@, frame, next),
        next.len() <= DEPTH,
    ensures
        reaches(steps(final(ops)@), next),
        within(steps(final(ops)@), DEPTH as int),
{
    proof {
        lemma_reaches_push(steps(ops@), frame, op@, next);
        lemma_within_push(steps(ops@), op@, next, DEPTH as int);
        assert(steps(ops@.push(op)) =~= steps(ops@).push(op@));
    }
    ops.push(op);
}

/// Appends the steps that store a field of `record` in the table on top.
fn put_field(
    ops: &mut Vec<StackOp>,
    record: Record,
    field: Field,
    Ghost(below): Ghost<Seq<HostValue>>,
    Ghost(row): Ghost<Map<HostKey, HostValue>>,
)
    requires
        reaches(steps(old(ops)@), below.push(HostValue::Table(row))),
        within(steps(old(ops)@), DEPTH as int),
        below.len() + 2 <= DEPTH,
    ensures
        reaches(
            steps(final(ops)@),
            below.push(
                HostValue::Table(
                    row.insert(HostKey::Text(field_name(field)), HostValue::Datum(record, field)),
                ),
            ),
        ),
        within(steps(final(ops)@), DEPTH as int),
{
    let ghost frame = below.push(HostValue::Table(row));
    let ghost datum = HostValue::Datum(record, field);
    proof {
        lemma_turns_push(frame, Step::PushDatum(record, field), datum);
        lemma_turns_store(below, row, Step::SetField(field), field_name(field), datum);
    }
    put(ops, StackOp::PushDatum(record, field), Ghost(frame), Ghost(frame.push(datum)));
    put(
        ops,
        StackOp::SetField(field),
        Ghost(frame.push(datum)),
        Ghost(below.push(HostValue::Table(row.insert(HostKey::Text(field_name(field)), datum)))),
    );
}

/// Appends the steps that store the table of `record` under `key` in the table on
/// top.
fn put_row(
    ops: &mut Vec<StackOp>,
    key: usize,
    record: Record,
    Ghost(below): Ghost<Seq<HostValue>>,
    Ghost(inner): Ghost<Map<HostKey, HostValue>>,
)
    requires
        reaches(steps(old(ops)@), below.push(HostValue::Table(inner))),
        within(steps(old(ops)@), DEPTH as int),
        below.len() + 4 <= DEPTH,
    ensures
        reaches(
            steps(final(ops)@),
            below.push(HostValue::Table(inner.insert(HostKey::Index(key as int), host_row(record)))),
        ),
        within(steps(final(ops)@), DEPTH as int),
{
    let ghost frame = below.push(HostValue::Table(inner));
    let ghost keyed = frame.push(HostValue::Number(key as int));
    let ghost empty = Map::<HostKey, HostValue>::empty();
    proof {
        lemma_turns_push(frame, Step::PushKey(key as int), HostValue::Number(key as int));
        lemma_turns_push(keyed, Step::NewTable, HostValue::Table(empty));
    }
    put(ops, StackOp::PushKey(key), Ghost(frame), Ghost(keyed));
    put(ops, StackOp::NewTable, Ghost(keyed), Ghost(keyed.push(HostValue::Table(empty))));
    let ghost first = empty.insert(
        HostKey::Text(field_name(Field::Pos)),
        HostValue::Datum(record, Field::Pos),
    );
    let ghost second = first.insert(
        HostKey::Text(field_name(Field::Normal)),
        HostValue::Datum(record, Field::Normal),
    );
    let ghost third = second.insert(
        HostKey::Text(field_name(Field::U)),
        HostValue::Datum(record, Field::U),
    );
    put_field(ops, record, Field::Pos, Ghost(keyed), Ghost(empty));
    put_field(ops, record, Field::Normal, Ghost(keyed), Ghost(first));
    put_field(ops, record, Field::U, Ghost(keyed), Ghost(second));
    put_field(ops, record, Field::V, Ghost(keyed), Ghost(third));
    proof {
        lemma_turns_set_table(below, inner, key as int, host_row(record));
    }
    put(
        ops,
        StackOp::SetTable,
        Ghost(keyed.push(host_row(record))),
        Ghost(below.push(HostValue::Table(inner.insert(HostKey::Index(key as int), host_row(record))))),
    );
}

/// The inner table of the host after the first `count` rows.
spec fn rows_so_far(rows: Seq<Record>, count: int) -> Map<HostKey, HostValue> {
    Map::new(
        |key: HostKey| key matches HostKey::Index(k) && 1 <= k <= count,
        |key: HostKey| host_row(rows[key->Index_0 - 1]),
    )
}

/// Appends the steps that push the inner table of the host for `rows`.
fn put_rows(ops: &mut Vec<StackOp>, rows: &InnerTable, Ghost(below): Ghost<Seq<HostValue>>)
    requires
        reaches(steps(old(ops)@), below),
        within(steps(old(ops)@), DEPTH as int),
        below.len() + 4 <= DEPTH,
    ensures
        reaches(steps(final(ops)@), below.push(host_rows(rows@))),
        within(steps(final(ops)@), DEPTH as int),
{
    proof {
        lemma_turns_push(below, Step::NewTable, HostValue::Table(Map::empty()));
        assert(rows_so_far(rows@, 0) =~= Map::<HostKey, HostValue>::empty());
    }
    put(ops, StackOp::NewTable, Ghost(below), Ghost(below.push(HostValue::Table(Map::empty()))));
    let n = rows.len();
    let mut key: usize = 0;
    while key < n
        invariant
            key <= n,
            n == rows@.len(),
            below.len() + 4 <= DEPTH,
            reaches(steps(ops@), below.push(HostValue::Table(rows_so_far(rows@, key as int)))),
            within(steps(ops@), DEPTH as int),
        decreases n - key,
    {
        key = key + 1;
        let record = rows.rows[key - 1];
        put_row(ops, key, record, Ghost(below), Ghost(rows_so_far(rows@, key - 1)));
        proof {
            assert(rows_so_far(rows@, key - 1).insert(HostKey::Index(key as int), host_row(record))
                =~= rows_so_far(rows@, key as int));
        }
    }
    proof {
        assert(HostValue::Table(rows_so_far(rows@, n as int)) == host_rows(rows@));
    }
}

/// The outer table of the host after the first `count` names.
spec fn names_so_far(
    table: Map<Seq<char>, Seq<Record>>,
    names: Seq<Seq<char>>,
    count: int,
) -> Map<HostKey, HostValue> {
    Map::new(
        |key: HostKey| key matches HostKey::Text(name) && names.take(count).contains(name),
        |key: HostKey| host_rows(table[key->Text_0]),
    )
}

/// The steps that build `table` on the host's stack: one new table, then for every
/// name the inner table of that name, stored under the name.
pub fn plan(table: &OuterTable) -> (ops: Vec<StackOp>)
    ensures
        builds(steps(ops@), host_table(table@)),
        within(steps(ops@), DEPTH as int),
{
    let mut ops: Vec<StackOp> = Vec::new();
    let ghost nothing = Seq::<HostValue>::empty();
    let ghost names = table.names();
    proof {
        assert(steps(ops@) =~= Seq::<Step>::empty());
        assert forall|base: Seq<HostValue>|
            (#[trigger] run(base, steps(ops@))) is Some && run(base, steps(ops@))->Some_0 =~= base
                + nothing by {}
        lemma_turns_push(nothing, Step::NewTable, HostValue::Table(Map::empty()));
        assert(names_so_far(table@, names, 0) =~= Map::<HostKey, HostValue>::empty());
        assert forall|base: Seq<HostValue>, k: int| 0 <= k <= steps(ops@).len() implies (#[trigger] run(
            base,
            steps(ops@).take(k),
        )) is Some && run(base, steps(ops@).take(k))->Some_0.len() <= base.len() + DEPTH by {
            assert(steps(ops@).take(k) =~= Seq::<Step>::empty());
        }
    }
    put(&mut ops, StackOp::NewTable, Ghost(nothing), Ghost(nothing.push(HostValue::Table(Map::empty()))));
    let n = table.len();
    let mut slot: usize = 0;
    while slot < n
        invariant
            slot <= n,
            n == table.names().len(),
            names == table.names(),
            nothing.len() == 0,
            reaches(
                steps(ops@),
                nothing.push(HostValue::Table(names_so_far(table@, names, slot as int))),
            ),
            within(steps(ops@), DEPTH as int),
        decreases n - slot,
    {
        let ghost outer = names_so_far(table@, names, slot as int);
        let ghost below = nothing.push(HostValue::Table(outer));
        let rows = table.table_at(slot);
        let name = table.name_at(slot);
        put_rows(&mut ops, rows, Ghost(below));
        proof {
            lemma_turns_store(nothing, outer, Step::SetName(name@), name@, host_rows(rows@));
            assert(names.take(slot + 1) =~= names.take(slot as int).push(names[slot as int]));
            assert forall|key: HostKey|
                outer.insert(HostKey::Text(name@), host_rows(rows@)).contains_key(key)
                    <==> names_so_far(table@, names, slot + 1).contains_key(key) by {
                if key is Text {
                    let text = key->Text_0;
                    if names.take(slot as int).contains(text) {
                        let k = names.take(slot as int).index_of(text);
                        assert(names.take(slot + 1)[k] == text);
                    }
                    if text == name@ {
                        assert(names.take(slot + 1)[slot as int] == text);
                    }
                }
            }
            assert(outer.insert(HostKey::Text(name@), host_rows(rows@)) =~= names_so_far(
                table@,
                names,
                slot + 1,
            ));
        }
        put(
            &mut ops,
            StackOp::SetName(name.clone()),
            Ghost(below.push(host_rows(rows@))),
            Ghost(nothing.push(HostValue::Table(outer.insert(HostKey::Text(name@), host_rows(rows@))))),
        );
        slot = slot + 1;
    }
    proof {
        assert(names.take(n as int) =~= names);
        assert(names_so_far(table@, names, n as int) =~= host_table(table@)->Table_0) by {
            assert forall|key: HostKey|
                names_so_far(table@, names, n as int).contains_key(key) <==> host_table(
                    table@,
                )->Table_0.contains_key(key) by {
                if key is Text {
                    let text = key->Text_0;
                    assert(names.to_set().contains(text) <==> names.contains(text));
                }
            }
        }
        assert forall|base: Seq<HostValue>| #[trigger]
            run(base, steps(ops@)) == Some(base.push(host_table(table@))) by {
            assert(run(base, steps(ops@)) is Some);
            assert(base + nothing.push(host_table(table@)) =~= base.push(host_table(table@)));
        }
    }
    ops
}

} // verus!

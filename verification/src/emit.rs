//! From a mesh to the nested table: which vertex gets which key, which object
//! ends up under which name, and when no table is produced at all.

use vstd::prelude::*;
use vstd::seq_lib::lemma_flatten_concat;
use crate::model::{Model, NamedObject, ObjectView, MeshVertex};
use crate::table::{keyed, keys, InnerTable, OuterTable, Record};

verus! {

/// An attribute that a vertex may lack.
#[derive(Clone, Copy, Debug, PartialEq, Eq)]
pub enum Attribute {
    Normal,
    Uv,
}

/// Why no table was produced.
#[derive(Clone, Debug, PartialEq, Eq)]
pub enum IngestError {
    /// The text is not an OBJ that the parser accepts.
    Parse { message: String },
    /// A vertex of `object` lacks `attribute`; `position` vertices of that object
    /// come before it.
    AttributeMissing { object: String, position: usize, attribute: Attribute },
    /// The name of `object` holds a NUL character.
    Encoding { object: String },
}

/// What an [`IngestError`] is to a contract.
pub enum Failure {
    Parse { message: Seq<char> },
    AttributeMissing { object: Seq<char>, position: int, attribute: Attribute },
    Encoding { object: Seq<char> },
}

impl View for IngestError {
    type V = Failure;

    open spec fn view(&self) -> Failure {
        match *self {
            IngestError::Parse { message } => Failure::Parse { message: message@ },
            IngestError::AttributeMissing { object, position, attribute } => {
                Failure::AttributeMissing { object: object@, position: position as int, attribute }
            },
            IngestError::Encoding { object } => Failure::Encoding { object: object@ },
        }
    }
}

/// A vertex can be emitted when it has both a normal and a texture coordinate.
pub open spec fn complete(v: MeshVertex) -> bool {
    v.normal is Some && v.uv is Some
}

/// The attribute reported for an incomplete vertex: the normal is looked at first.
pub open spec fn lacking(v: MeshVertex) -> Attribute {
    if v.normal is None {
        Attribute::Normal
    } else {
        Attribute::Uv
    }
}

/// The row of a complete vertex: position and normal as they are, and the first two
/// components of the texture coordinate.
pub open spec fn record_of(v: MeshVertex) -> Record {
    Record { pos: v.position, normal: v.normal->0, u: v.uv->0.x, v: v.uv->0.y }
}

/// Every vertex of the sequence is complete.
pub open spec fn all_complete(vs: Seq<MeshVertex>) -> bool {
    forall|i: int| 0 <= i < vs.len() ==> complete(#[trigger] vs[i])
}

/// The vertex at `i` is incomplete and every vertex before it is complete.
pub open spec fn is_first_incomplete(vs: Seq<MeshVertex>, i: int) -> bool {
    &&& 0 <= i < vs.len()
    &&& !complete(vs[i])
    &&& forall|j: int| 0 <= j < i ==> complete(#[trigger] vs[j])
}

/// A name can be handed to the host as a string when it holds no NUL character.
pub open spec fn encodable(name: Seq<char>) -> bool {
    !name.contains('\0')
}

/// The rows of one object, or the reason why it has none. The vertices are looked
/// at before the name.
pub open spec fn rows_of(object: ObjectView) -> Result<Seq<Record>, Failure> {
    let vs = object.vertices();
    if !all_complete(vs) {
        let i = choose|i: int| is_first_incomplete(vs, i);
        Err(
            Failure::AttributeMissing {
                object: object.name,
                position: i,
                attribute: lacking(vs[i]),
            },
        )
    } else if !encodable(object.name) {
        Err(Failure::Encoding { object: object.name })
    } else {
        Ok(vs.map_values(|v: MeshVertex| record_of(v)))
    }
}

/// The outer table of a sequence of objects. Objects are taken in order: the first
/// one without rows decides the failure, and of two objects with one name the later
/// one is kept.
pub open spec fn table_of(objects: Seq<ObjectView>) -> Result<
    Map<Seq<char>, Seq<Record>>,
    Failure,
>
    decreases objects.len(),
{
    if objects.len() == 0 {
        Ok(Map::empty())
    } else {
        match table_of(objects.drop_last()) {
            Err(failure) => Err(failure),
            Ok(table) => match rows_of(objects.last()) {
                Err(failure) => Err(failure),
                Ok(rows) => Ok(table.insert(objects.last().name, rows)),
            },
        }
    }
}

/// No two objects have the same name.
pub open spec fn distinct_names(objects: Seq<ObjectView>) -> bool {
    forall|i: int, j: int|
        0 <= i < j < objects.len() ==> (#[trigger] objects[i]).name != (#[trigger] objects[j]).name
}

/// Every object of `first` is an object of `second`.
pub open spec fn among(first: Seq<ObjectView>, second: Seq<ObjectView>) -> bool {
    forall|i: int| 0 <= i < first.len() ==> second.contains(#[trigger] first[i])
}

/// `result` is what [`emit`] owes for `objects`.
pub open spec fn delivers(objects: Seq<ObjectView>, result: Result<OuterTable, IngestError>) -> bool {
    match result {
        Ok(table) => table_of(objects) == Ok::<Map<Seq<char>, Seq<Record>>, Failure>(table@),
        Err(error) => table_of(objects) == Err::<Map<Seq<char>, Seq<Record>>, Failure>(error@),
    }
}

/// `rows` are the rows of the complete vertices `vs`, one for one.
spec fn emitted(vs: Seq<MeshVertex>, rows: Seq<Record>) -> bool {
    &&& rows.len() == vs.len()
    &&& forall|k: int| 0 <= k < vs.len() ==> complete(#[trigger] vs[k]) && rows[k] == record_of(vs[k])
}

proof fn lemma_first_incomplete_unique(vs: Seq<MeshVertex>, i: int)
    requires
        is_first_incomplete(vs, i),
    ensures
        !all_complete(vs),
        (choose|k: int| is_first_incomplete(vs, k)) == i,
{
    let k = choose|k: int| is_first_incomplete(vs, k);
    assert(is_first_incomplete(vs, k));
    if k < i {
        assert(complete(vs[k]));
    }
    if i < k {
        assert(complete(vs[i]));
    }
}

/// The vertices of an object are those of its first `i` polygons, then those of
/// polygon `i`, then the rest.
proof fn lemma_flatten_at(polys: Seq<Seq<MeshVertex>>, i: int)
    requires
        0 <= i < polys.len(),
    ensures
        polys.flatten() =~= polys.take(i).flatten() + polys[i] + polys.skip(i + 1).flatten(),
{
    assert(polys =~= polys.take(i) + polys.skip(i));
    lemma_flatten_concat(polys.take(i), polys.skip(i));
    assert(polys.skip(i).first() == polys[i]);
    assert(polys.skip(i).drop_first() =~= polys.skip(i + 1));
}

proof fn lemma_failure_persists(objects: Seq<ObjectView>, k: int)
    requires
        0 <= k <= objects.len(),
        table_of(objects.take(k)) is Err,
    ensures
        table_of(objects) == table_of(objects.take(k)),
    decreases objects.len(),
{
    if k == objects.len() {
        assert(objects.take(k) =~= objects);
    } else {
        assert(objects.drop_last().take(k) =~= objects.take(k));
        lemma_failure_persists(objects.drop_last(), k);
    }
}

/// The keys of an object's inner table are exactly 1, 2, ... up to the number of
/// vertices that the object has over all its polygons, and key `k` holds the row of
/// the `k`-th of those vertices.
pub proof fn lemma_keys_of_object(object: ObjectView, rows: Seq<Record>)
    requires
        rows_of(object) == Ok::<Seq<Record>, Failure>(rows),
    ensures
        keys(rows) == Set::new(|k: int| 1 <= k <= object.vertex_count()),
        keyed(rows).dom() == keys(rows),
        forall|k: int|
            1 <= k <= object.vertex_count() ==> #[trigger] keyed(rows)[k] == record_of(
                object.vertices()[k - 1],
            ),
{
    assert(keys(rows) =~= Set::new(|k: int| 1 <= k <= object.vertex_count()));
    assert(keyed(rows).dom() =~= keys(rows));
}

/// An object without polygons, under a name that can be encoded, has an inner table
/// without rows.
pub proof fn lemma_object_without_faces(object: ObjectView)
    requires
        object.polygons.len() == 0,
        encodable(object.name),
    ensures
        rows_of(object) == Ok::<Seq<Record>, Failure>(Seq::empty()),
{
    assert(object.vertices() =~= Seq::<MeshVertex>::empty());
    assert(object.vertices().map_values(|v: MeshVertex| record_of(v)) =~= Seq::<Record>::empty());
}

/// A table is produced exactly when every object has rows.
pub proof fn lemma_success(objects: Seq<ObjectView>)
    ensures
        table_of(objects) is Ok <==> forall|i: int|
            0 <= i < objects.len() ==> (#[trigger] rows_of(objects[i])) is Ok,
    decreases objects.len(),
{
    if objects.len() > 0 {
        let front = objects.drop_last();
        lemma_success(front);
        if table_of(objects) is Ok {
            assert forall|i: int| 0 <= i < objects.len() implies (#[trigger] rows_of(
                objects[i],
            )) is Ok by {
                if i < front.len() {
                    assert(front[i] == objects[i]);
                }
            }
        }
        if forall|i: int| 0 <= i < objects.len() ==> (#[trigger] rows_of(objects[i])) is Ok {
            assert forall|i: int| 0 <= i < front.len() implies (#[trigger] rows_of(front[i])) is Ok by {
                assert(front[i] == objects[i]);
            }
            assert(rows_of(objects.last()) is Ok);
        }
    }
}

/// Where some object has no rows, the failure is that of the first such object.
pub proof fn lemma_first_failure(objects: Seq<ObjectView>, i: int)
    requires
        0 <= i < objects.len(),
        rows_of(objects[i]) is Err,
        forall|j: int| 0 <= j < i ==> (#[trigger] rows_of(objects[j])) is Ok,
    ensures
        table_of(objects) == Err::<Map<Seq<char>, Seq<Record>>, Failure>(
            rows_of(objects[i])->Err_0,
        ),
{
    let upto = objects.take(i + 1);
    assert(upto.drop_last() =~= objects.take(i));
    assert(upto.last() == objects[i]);
    lemma_success(objects.take(i));
    lemma_failure_persists(objects, i + 1);
}

/// The names under which the outer table holds something are exactly the names of
/// the objects.
pub proof fn lemma_names_are_keys(objects: Seq<ObjectView>, table: Map<Seq<char>, Seq<Record>>)
    requires
        table_of(objects) == Ok::<Map<Seq<char>, Seq<Record>>, Failure>(table),
    ensures
        forall|name: Seq<char>|
            table.contains_key(name) <==> exists|i: int|
                0 <= i < objects.len() && (#[trigger] objects[i]).name == name,
    decreases objects.len(),
{
    if objects.len() > 0 {
        let front = objects.drop_last();
        let earlier = table_of(front)->Ok_0;
        lemma_names_are_keys(front, earlier);
        assert forall|name: Seq<char>| table.contains_key(name) implies exists|i: int|
            0 <= i < objects.len() && (#[trigger] objects[i]).name == name by {
            if name == objects.last().name {
                assert(objects[objects.len() - 1].name == name);
            } else {
                let i = choose|i: int| 0 <= i < front.len() && (#[trigger] front[i]).name == name;
                assert(objects[i].name == name);
            }
        }
        assert forall|name: Seq<char>|
            (exists|i: int|
                0 <= i < objects.len() && (#[trigger] objects[i]).name == name) implies table.contains_key(
            name,
        ) by {
            let i = choose|i: int| 0 <= i < objects.len() && (#[trigger] objects[i]).name == name;
            if i < front.len() {
                assert(front[i].name == name);
            }
        }
    }
}

/// Of the objects that share a name, the last one is kept: the outer table holds
/// its rows under that name.
pub proof fn lemma_last_object_wins(
    objects: Seq<ObjectView>,
    table: Map<Seq<char>, Seq<Record>>,
    i: int,
)
    requires
        table_of(objects) == Ok::<Map<Seq<char>, Seq<Record>>, Failure>(table),
        0 <= i < objects.len(),
        forall|j: int| i < j < objects.len() ==> (#[trigger] objects[j]).name != objects[i].name,
    ensures
        table.contains_key(objects[i].name),
        rows_of(objects[i]) == Ok::<Seq<Record>, Failure>(table[objects[i].name]),
    decreases objects.len(),
{
    if i < objects.len() - 1 {
        let front = objects.drop_last();
        let earlier = table_of(front)->Ok_0;
        assert(front[i] == objects[i]);
        assert forall|j: int| i < j < front.len() implies (#[trigger] front[j]).name
            != front[i].name by {
            assert(front[j] == objects[j]);
        }
        lemma_last_object_wins(front, earlier, i);
        assert(objects[objects.len() - 1].name != objects[i].name);
    }
}

/// Where no two objects share a name, the order of the objects does not matter:
/// two sequences of the same objects both give a table or both give none, and the
/// tables are equal.
pub proof fn lemma_order_of_objects(first: Seq<ObjectView>, second: Seq<ObjectView>)
    requires
        distinct_names(first),
        distinct_names(second),
        among(first, second),
        among(second, first),
    ensures
        table_of(first) is Ok <==> table_of(second) is Ok,
        table_of(first) is Ok ==> table_of(first)->Ok_0 == table_of(second)->Ok_0,
{
    lemma_success(first);
    lemma_success(second);
    if table_of(first) is Ok {
        assert forall|j: int| 0 <= j < second.len() implies (#[trigger] rows_of(second[j])) is Ok by {
            assert(first.contains(second[j]));
            let i = first.index_of(second[j]);
            assert(rows_of(first[i]) is Ok);
        }
    }
    if table_of(second) is Ok {
        assert forall|i: int| 0 <= i < first.len() implies (#[trigger] rows_of(first[i])) is Ok by {
            assert(second.contains(first[i]));
            let j = second.index_of(first[i]);
            assert(rows_of(second[j]) is Ok);
        }
    }
    if table_of(first) is Ok {
        let a = table_of(first)->Ok_0;
        let b = table_of(second)->Ok_0;
        lemma_names_are_keys(first, a);
        lemma_names_are_keys(second, b);
        assert forall|name: Seq<char>| a.contains_key(name) implies b.contains_key(name) && a[name]
            == b[name] by {
            let i = choose|i: int| 0 <= i < first.len() && (#[trigger] first[i]).name == name;
            assert(second.contains(first[i]));
            let j = second.index_of(first[i]);
            assert(second[j].name == name);
            lemma_last_object_wins(first, a, i);
            lemma_last_object_wins(second, b, j);
        }
        assert forall|name: Seq<char>| b.contains_key(name) implies a.contains_key(name) by {
            let j = choose|j: int| 0 <= j < second.len() && (#[trigger] second[j]).name == name;
            assert(first.contains(second[j]));
            let i = first.index_of(second[j]);
            assert(first[i].name == name);
        }
        assert(a =~= b);
    }
}

/// At most one of the objects has no rows.
pub open spec fn at_most_one_without_rows(objects: Seq<ObjectView>) -> bool {
    forall|i: int, j: int|
        0 <= i < objects.len() && 0 <= j < objects.len() && (#[trigger] rows_of(objects[i])) is Err
            && (#[trigger] rows_of(objects[j])) is Err ==> i == j
}

/// Where no two objects share a name and at most one of them has no rows, the
/// failure does not depend on the order of the objects either.
pub proof fn lemma_order_of_failure(first: Seq<ObjectView>, second: Seq<ObjectView>)
    requires
        distinct_names(first),
        distinct_names(second),
        among(first, second),
        among(second, first),
        at_most_one_without_rows(first),
        table_of(first) is Err,
    ensures
        table_of(second) == table_of(first),
{
    lemma_success(first);
    let i = choose|i: int| 0 <= i < first.len() && !((#[trigger] rows_of(first[i])) is Ok);
    assert(rows_of(first[i]) is Err);
    assert forall|k: int| 0 <= k < i implies (#[trigger] rows_of(first[k])) is Ok by {
        if rows_of(first[k]) is Err {
            assert(k == i);
        }
    }
    lemma_first_failure(first, i);
    assert(second.contains(first[i]));
    let j = second.index_of(first[i]);
    assert forall|k: int| 0 <= k < j implies (#[trigger] rows_of(second[k])) is Ok by {
        if rows_of(second[k]) is Err {
            assert(first.contains(second[k]));
            let m = first.index_of(second[k]);
            assert(rows_of(first[m]) is Err);
            assert(m == i);
            assert(second[k] == second[j]);
            assert(second[k].name == second[j].name);
        }
    }
    lemma_first_failure(second, j);
}

/// In the outer table, the inner table of an object that is the last of its name
/// has exactly the keys 1, 2, ... up to the number of vertices of that object.
pub proof fn lemma_inner_keys(objects: Seq<ObjectView>, table: Map<Seq<char>, Seq<Record>>, i: int)
    requires
        table_of(objects) == Ok::<Map<Seq<char>, Seq<Record>>, Failure>(table),
        0 <= i < objects.len(),
        forall|j: int| i < j < objects.len() ==> (#[trigger] objects[j]).name != objects[i].name,
    ensures
        table.contains_key(objects[i].name),
        keys(table[objects[i].name]) == Set::new(|k: int| 1 <= k <= objects[i].vertex_count()),
{
    lemma_last_object_wins(objects, table, i);
    lemma_keys_of_object(objects[i], table[objects[i].name]);
}

/// Two results that [`emit`] may give for one mesh are equal: both are tables with
/// the same contents, or both are the same failure.
pub proof fn lemma_reinvocation(
    objects: Seq<ObjectView>,
    first: Result<OuterTable, IngestError>,
    second: Result<OuterTable, IngestError>,
)
    requires
        delivers(objects, first),
        delivers(objects, second),
    ensures
        match (first, second) {
            (Ok(a), Ok(b)) => a@ == b@,
            (Err(a), Err(b)) => a@ == b@,
            _ => false,
        },
{
}

/// Whether `name` can be handed to the host as a string.
pub fn is_encodable(name: &str) -> (ok: bool)
    ensures
        ok == encodable(name@),
{
    for c in it: name.chars()
        invariant
            it.seq() == name@,
            forall|j: int| 0 <= j < it.index() ==> name@[j] != '\0',
    {
        if c == '\0' {
            return false;
        }
    }
    true
}

/// The row of one vertex, or the attribute that it lacks.
pub fn emit_vertex(vertex: &MeshVertex) -> (result: Result<Record, Attribute>)
    ensures
        complete(*vertex) ==> result == Ok::<Record, Attribute>(record_of(*vertex)),
        !complete(*vertex) ==> result == Err::<Record, Attribute>(lacking(*vertex)),
{
    match vertex.normal {
        None => Err(Attribute::Normal),
        Some(normal) => match vertex.uv {
            None => Err(Attribute::Uv),
            Some(uv) => Ok(Record { pos: vertex.position, normal, u: uv.x, v: uv.y }),
        },
    }
}

/// Walks the polygons of `object` in order, and in each its vertices in order, and
/// gives every vertex the next key of a run that starts at 1.
///
/// The walk stops at the first vertex that lacks an attribute. If there is none,
/// the name is checked last.
pub fn emit_object(object: &NamedObject) -> (result: Result<InnerTable, IngestError>)
    ensures
        match result {
            Ok(table) => rows_of(object@) == Ok::<Seq<Record>, Failure>(table@),
            Err(error) => rows_of(object@) == Err::<Seq<Record>, Failure>(error@),
        },
{
    let ghost polys = object@.polygons;
    let mut table = InnerTable::new();
    let mut i: usize = 0;
    while i < object.polygons.len()
        invariant
            i <= object.polygons.len(),
            polys == object@.polygons,
            polys.len() == object.polygons.len(),
            emitted(polys.take(i as int).flatten(), table@),
        decreases object.polygons.len() - i,
    {
        let polygon = &object.polygons[i];
        let ghost before = polys.take(i as int).flatten();
        let mut j: usize = 0;
        while j < polygon.vertices.len()
            invariant
                i < polys.len(),
                j <= polygon.vertices.len(),
                polys == object@.polygons,
                polygon@ == polys[i as int],
                before == polys.take(i as int).flatten(),
                emitted(before + polygon@.take(j as int), table@),
            decreases polygon.vertices.len() - j,
        {
            let ghost done = before + polygon@.take(j as int);
            match emit_vertex(&polygon.vertices[j]) {
                Ok(record) => {
                    table.push(record);
                },
                Err(attribute) => {
                    proof {
                        let vs = object@.vertices();
                        lemma_flatten_at(polys, i as int);
                        assert(vs[done.len() as int] == polygon@[j as int]);
                        assert forall|k: int| 0 <= k < done.len() implies complete(
                            #[trigger] vs[k],
                        ) by {
                            assert(vs[k] == done[k]);
                        }
                        lemma_first_incomplete_unique(vs, done.len() as int);
                    }
                    return Err(
                        IngestError::AttributeMissing {
                            object: object.name.clone(),
                            position: table.len(),
                            attribute,
                        },
                    );
                },
            }
            proof {
                assert(before + polygon@.take(j + 1) =~= done.push(polygon@[j as int]));
            }
            j = j + 1;
        }
        proof {
            assert(polygon@.take(j as int) =~= polygon@);
            assert(polys.take(i + 1) =~= polys.take(i as int).push(polys[i as int]));
            polys.take(i as int).lemma_flatten_push(polys[i as int]);
        }
        i = i + 1;
    }
    proof {
        assert(polys.take(i as int) =~= polys);
        assert(table@ =~= object@.vertices().map_values(|v: MeshVertex| record_of(v)));
    }
    if !is_encodable(object.name.as_str()) {
        return Err(IngestError::Encoding { object: object.name.clone() });
    }
    Ok(table)
}

/// Builds the outer table of `model`: every object's rows under the object's name.
///
/// Objects are taken in order. The first one that has no rows ends the call with
/// its failure; where two objects share a name, the rows of the later one replace
/// those of the earlier.
pub fn emit(model: &Model) -> (result: Result<OuterTable, IngestError>)
    ensures
        delivers(model@, result),
{
    let mut table = OuterTable::new();
    let mut i: usize = 0;
    while i < model.objects.len()
        invariant
            i <= model.objects.len(),
            table_of(model@.take(i as int)) == Ok::<Map<Seq<char>, Seq<Record>>, Failure>(table@),
        decreases model.objects.len() - i,
    {
        let object = &model.objects[i];
        proof {
            assert(model@.take(i + 1).drop_last() =~= model@.take(i as int));
            assert(model@.take(i + 1).last() == object@);
        }
        match emit_object(object) {
            Ok(rows) => {
                table.set(object.name.clone(), rows);
            },
            Err(error) => {
                proof {
                    lemma_failure_persists(model@, i + 1);
                }
                return Err(error);
            },
        }
        i = i + 1;
    }
    proof {
        assert(model@.take(i as int) =~= model@);
    }
    Ok(table)
}

} // verus!

//! The two entry points and what each does with a text that gives no model.
//!
//! Both walk the same model into the same table. They differ where the text is
//! turned down: [`parse`] fails, [`parse_without_edit`] reports the message and
//! goes on with an empty table.

use vstd::prelude::*;
use crate::emit::{
    delivers, emit, lemma_last_object_wins, lemma_names_are_keys, lemma_order_of_failure,
    lemma_order_of_objects, rows_of, Failure, IngestError,
};
use crate::model::{Model, ObjectView};
use crate::reader::{
    at_most_one_failing, lemma_one_failing, lemma_same_reading, lemma_single_group, load_model,
    obj_parse, parse_failure, reads, settled,
};
use crate::table::{OuterTable, Record};

verus! {

/// What [`parse_without_edit`] hands back: the table, and the message to print on
/// the host's console where the text was turned down.
#[derive(Debug, PartialEq, Eq)]
pub struct PlainIngest {
    pub table: OuterTable,
    pub console: Option<String>,
}

/// `result` is what [`transform_ingest`] owes for `loaded`.
pub open spec fn transform_delivers(
    loaded: Result<Seq<ObjectView>, Seq<char>>,
    result: Result<OuterTable, IngestError>,
) -> bool {
    match loaded {
        Ok(objects) => delivers(objects, result),
        Err(message) => result matches Err(error) && error@ == (Failure::Parse { message }),
    }
}

/// The console message as a sequence of characters, if there is one.
pub open spec fn console_view(console: Option<String>) -> Option<Seq<char>> {
    match console {
        Some(text) => Some(text@),
        None => None,
    }
}

/// `result` is what [`plain_ingest`] owes for `loaded`.
pub open spec fn plain_delivers(
    loaded: Result<Seq<ObjectView>, Seq<char>>,
    result: Result<PlainIngest, IngestError>,
) -> bool {
    match loaded {
        Ok(objects) => match result {
            Ok(ingest) => ingest.console is None && delivers(
                objects,
                Ok::<OuterTable, IngestError>(ingest.table),
            ),
            Err(error) => delivers(objects, Err::<OuterTable, IngestError>(error)),
        },
        Err(message) => {
            &&& result matches Ok(ingest)
            &&& ingest.table@ == Map::<Seq<char>, Seq<Record>>::empty()
            &&& console_view(ingest.console) == Some(message)
        },
    }
}

/// `result` is what [`parse`] owes for `text`: the failure with the message where
/// the text gives no model, else what the strict policy owes for some model that
/// holds what the parser holds.
pub open spec fn parse_delivers(text: Seq<u8>, result: Result<OuterTable, IngestError>) -> bool {
    match parse_failure(text) {
        Some(message) => transform_delivers(Err(message), result),
        None => exists|objects: Seq<ObjectView>|
            reads(obj_parse(text)->Ok_0, objects) && #[trigger] transform_delivers(
                Ok(objects),
                result,
            ),
    }
}

/// `result` is what [`parse_without_edit`] owes for `text`: an empty table and the
/// message where the text gives no model, else what the lenient policy owes for
/// some model that holds what the parser holds.
pub open spec fn parse_without_edit_delivers(
    text: Seq<u8>,
    result: Result<PlainIngest, IngestError>,
) -> bool {
    match parse_failure(text) {
        Some(message) => plain_delivers(Err(message), result),
        None => exists|objects: Seq<ObjectView>|
            reads(obj_parse(text)->Ok_0, objects) && #[trigger] plain_delivers(Ok(objects), result),
    }
}

/// The model of a loading result, or its message.
pub open spec fn loaded_view(loaded: Result<Model, String>) -> Result<Seq<ObjectView>, Seq<char>> {
    match loaded {
        Ok(model) => Ok(model@),
        Err(message) => Err(message@),
    }
}

/// On one loading result the two policies walk alike: where a model was loaded,
/// both give the same table or both give the same failure.
pub proof fn lemma_entry_points_agree(
    objects: Seq<ObjectView>,
    strict: Result<OuterTable, IngestError>,
    lenient: Result<PlainIngest, IngestError>,
)
    requires
        transform_delivers(Ok(objects), strict),
        plain_delivers(Ok(objects), lenient),
    ensures
        match (strict, lenient) {
            (Ok(table), Ok(ingest)) => ingest.console is None && ingest.table@ == table@,
            (Err(first), Err(second)) => first@ == second@,
            _ => false,
        },
{
}

/// Two results that [`transform_ingest`] may give for one loading result are equal.
pub proof fn lemma_transform_reinvocation(
    loaded: Result<Seq<ObjectView>, Seq<char>>,
    first: Result<OuterTable, IngestError>,
    second: Result<OuterTable, IngestError>,
)
    requires
        transform_delivers(loaded, first),
        transform_delivers(loaded, second),
    ensures
        match (first, second) {
            (Ok(a), Ok(b)) => a@ == b@,
            (Err(a), Err(b)) => a@ == b@,
            _ => false,
        },
{
}

/// Two results that [`plain_ingest`] may give for one loading result are equal.
pub proof fn lemma_plain_reinvocation(
    loaded: Result<Seq<ObjectView>, Seq<char>>,
    first: Result<PlainIngest, IngestError>,
    second: Result<PlainIngest, IngestError>,
)
    requires
        plain_delivers(loaded, first),
        plain_delivers(loaded, second),
    ensures
        match (first, second) {
            (Ok(a), Ok(b)) => a.table@ == b.table@ && console_view(a.console) == console_view(
                b.console,
            ),
            (Err(a), Err(b)) => a@ == b@,
            _ => false,
        },
{
}

/// The names of the table that a text gives are the names of the objects that the
/// parser holds.
pub proof fn lemma_names_of_text(text: Seq<u8>, result: Result<OuterTable, IngestError>)
    requires
        parse_delivers(text, result),
        result is Ok,
    ensures
        obj_parse(text) is Ok,
        result->Ok_0@.dom() == obj_parse(text)->Ok_0.dom(),
{
    let contents = obj_parse(text)->Ok_0;
    let table = result->Ok_0@;
    let objects = choose|objects: Seq<ObjectView>|
        reads(contents, objects) && #[trigger] transform_delivers(Ok(objects), result);
    lemma_names_are_keys(objects, table);
    assert(table.dom() =~= contents.dom());
}

/// Where an object of the text has exactly one group, its inner table holds the
/// vertices of that group's polygons in the order of the text.
pub proof fn lemma_inner_table_of_text(
    text: Seq<u8>,
    result: Result<OuterTable, IngestError>,
    name: Seq<char>,
    group: Seq<char>,
)
    requires
        parse_delivers(text, result),
        result is Ok,
        obj_parse(text) is Ok,
        obj_parse(text)->Ok_0.contains_key(name),
        obj_parse(text)->Ok_0[name].dom() == set![group],
    ensures
        result->Ok_0@.contains_key(name),
        rows_of(ObjectView { name, polygons: obj_parse(text)->Ok_0[name][group] }) == Ok::<
            Seq<Record>,
            Failure,
        >(result->Ok_0@[name]),
{
    let contents = obj_parse(text)->Ok_0;
    let table = result->Ok_0@;
    let objects = choose|objects: Seq<ObjectView>|
        reads(contents, objects) && #[trigger] transform_delivers(Ok(objects), result);
    let i = choose|i: int| 0 <= i < objects.len() && (#[trigger] objects[i]).name == name;
    lemma_single_group(contents[name], objects[i].polygons, group);
    lemma_last_object_wins(objects, table, i);
    assert(objects[i] == ObjectView { name, polygons: contents[name][group] });
}

/// Parsing one text twice. Where the text gives no model, both calls fail alike.
/// Where at most one group of each object holds a polygon, both calls give a table
/// or both give none, and the tables are equal; where, besides, at most one object
/// has no rows, the failures are equal too.
pub proof fn lemma_parse_reinvocation(
    text: Seq<u8>,
    first: Result<OuterTable, IngestError>,
    second: Result<OuterTable, IngestError>,
)
    requires
        parse_delivers(text, first),
        parse_delivers(text, second),
        obj_parse(text) matches Ok(contents) ==> settled(contents),
    ensures
        first is Ok <==> second is Ok,
        first is Ok ==> first->Ok_0@ == second->Ok_0@,
        parse_failure(text) is Some ==> first is Err && first->Err_0@ == second->Err_0@,
        first is Err && (obj_parse(text) matches Ok(contents) ==> at_most_one_failing(contents))
            ==> first->Err_0@ == second->Err_0@,
{
    if parse_failure(text) is None {
        let contents = obj_parse(text)->Ok_0;
        let a = choose|objects: Seq<ObjectView>|
            reads(contents, objects) && #[trigger] transform_delivers(Ok(objects), first);
        let b = choose|objects: Seq<ObjectView>|
            reads(contents, objects) && #[trigger] transform_delivers(Ok(objects), second);
        lemma_same_reading(contents, a, b);
        lemma_order_of_objects(a, b);
        if first is Err && at_most_one_failing(contents) {
            lemma_one_failing(contents, a);
            lemma_order_of_failure(a, b);
        }
    }
}

/// Parsing one text twice without editing. Where the text gives no model, both
/// calls give an empty table and the same message. Where at most one group of each
/// object holds a polygon, both calls give a table or both give none, and the
/// tables are equal; where, besides, at most one object has no rows, the failures
/// are equal too.
pub proof fn lemma_parse_without_edit_reinvocation(
    text: Seq<u8>,
    first: Result<PlainIngest, IngestError>,
    second: Result<PlainIngest, IngestError>,
)
    requires
        parse_without_edit_delivers(text, first),
        parse_without_edit_delivers(text, second),
        obj_parse(text) matches Ok(contents) ==> settled(contents),
    ensures
        first is Ok <==> second is Ok,
        first is Ok ==> first->Ok_0.table@ == second->Ok_0.table@ && console_view(
            first->Ok_0.console,
        ) == console_view(second->Ok_0.console),
        first is Err && (obj_parse(text) matches Ok(contents) ==> at_most_one_failing(contents))
            ==> first->Err_0@ == second->Err_0@,
{
    if parse_failure(text) is None {
        let contents = obj_parse(text)->Ok_0;
        let a = choose|objects: Seq<ObjectView>|
            reads(contents, objects) && #[trigger] plain_delivers(Ok(objects), first);
        let b = choose|objects: Seq<ObjectView>|
            reads(contents, objects) && #[trigger] plain_delivers(Ok(objects), second);
        lemma_same_reading(contents, a, b);
        lemma_order_of_objects(a, b);
        if first is Err && at_most_one_failing(contents) {
            lemma_one_failing(contents, a);
            lemma_order_of_failure(a, b);
        }
    }
}

/// The two entry points on one text. Where the text gives no model, [`parse`] fails
/// with the message, and [`parse_without_edit`] gives an empty table and the
/// message. Where it gives one in which at most one group of each object holds a
/// polygon, both give the same table or neither gives one; where, besides, at most
/// one object has no rows, they fail alike.
pub proof fn lemma_entry_points_on_text(
    text: Seq<u8>,
    strict: Result<OuterTable, IngestError>,
    lenient: Result<PlainIngest, IngestError>,
)
    requires
        parse_delivers(text, strict),
        parse_without_edit_delivers(text, lenient),
        obj_parse(text) matches Ok(contents) ==> settled(contents),
    ensures
        parse_failure(text) matches Some(message) ==> {
            &&& strict is Err
            &&& strict->Err_0@ == (Failure::Parse { message })
            &&& lenient is Ok
            &&& lenient->Ok_0.table@ == Map::<Seq<char>, Seq<Record>>::empty()
            &&& console_view(lenient->Ok_0.console) == Some(message)
        },
        parse_failure(text) is None ==> {
            &&& strict is Ok <==> lenient is Ok
            &&& strict is Ok ==> lenient->Ok_0.table@ == strict->Ok_0@ && lenient->Ok_0.console is None
            &&& strict is Err && at_most_one_failing(obj_parse(text)->Ok_0) ==> lenient->Err_0@
                == strict->Err_0@
        },
{
    if parse_failure(text) is None {
        let contents = obj_parse(text)->Ok_0;
        let a = choose|objects: Seq<ObjectView>|
            reads(contents, objects) && #[trigger] transform_delivers(Ok(objects), strict);
        let b = choose|objects: Seq<ObjectView>|
            reads(contents, objects) && #[trigger] plain_delivers(Ok(objects), lenient);
        lemma_same_reading(contents, a, b);
        lemma_order_of_objects(a, b);
        if strict is Err && at_most_one_failing(contents) {
            lemma_one_failing(contents, a);
            lemma_order_of_failure(a, b);
        }
    }
}

/// The strict policy: a text that gave no model is a failure that carries the
/// message; a model is walked into its table.
pub fn transform_ingest(loaded: Result<Model, String>) -> (result: Result<OuterTable, IngestError>)
    ensures
        transform_delivers(loaded_view(loaded), result),
{
    match loaded {
        Ok(model) => emit(&model),
        Err(message) => Err(IngestError::Parse { message }),
    }
}

/// The lenient policy: a text that gave no model yields an empty table and the
/// message for the console; a model is walked into its table. A model whose walk
/// fails is a failure here too.
pub fn plain_ingest(loaded: Result<Model, String>) -> (result: Result<PlainIngest, IngestError>)
    ensures
        plain_delivers(loaded_view(loaded), result),
{
    match loaded {
        Ok(model) => match emit(&model) {
            Ok(table) => Ok(PlainIngest { table, console: None }),
            Err(error) => Err(error),
        },
        Err(message) => Ok(PlainIngest { table: OuterTable::new(), console: Some(message) }),
    }
}

/// Parses `text` and walks it into the table of its objects, for the caller to
/// place in the world.
///
/// Where the text gives no model the call fails with the message. Otherwise the
/// result is what [`emit`] gives for a model that holds what the parser holds: the
/// table, or the failure of the first object that has no rows.
pub fn parse(text: &[u8]) -> (result: Result<OuterTable, IngestError>)
    ensures
        parse_delivers(text@, result),
{
    let loaded = load_model(text);
    let ghost outcome = loaded_view(loaded);
    let result = transform_ingest(loaded);
    proof {
        if let Ok(objects) = outcome {
            assert(transform_delivers(Ok(objects), result));
        }
    }
    result
}

/// Parses `text` and walks it into the table of its objects, to be handed on as
/// it is.
///
/// Where the text gives no model the call succeeds with an empty table and the
/// message for the console. Otherwise the result is what [`emit`] gives for a model
/// that holds what the parser holds: the table, or the failure of the first object
/// that has no rows.
pub fn parse_without_edit(text: &[u8]) -> (result: Result<PlainIngest, IngestError>)
    ensures
        parse_without_edit_delivers(text@, result),
{
    let loaded = load_model(text);
    let ghost outcome = loaded_view(loaded);
    let result = plain_ingest(loaded);
    proof {
        if let Ok(objects) = outcome {
            assert(plain_delivers(Ok(objects), result));
        }
    }
    result
}

} // verus!

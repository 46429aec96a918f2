//! Reading an OBJ text into a [`Model`] with the `wavefront` parser.
//!
//! The parser keeps the objects of a text by name, and in each object its groups by
//! name, in hash maps. What these maps hold depends on the text alone. The order in
//! which they are walked does not: the order of the objects in the model, and the
//! order in which the groups of an object contribute their polygons, are whatever
//! the walk yields. Within a group the polygons keep the order of the text.
//!
//! Negative indices in faces are the parser's to resolve. Only a text on which it
//! would abort is turned away before the call.

use vstd::prelude::*;
use crate::emit::{among, at_most_one_without_rows, distinct_names, rows_of};
use crate::guard::{faces_in_range, has_faces_in_range};
use crate::model::{MeshPolygon, MeshVertex, Model, NamedObject, ObjectView, Vector3};

verus! {

/// The polygons of one object by group name, in each group in the order of the text.
pub type Groups = Map<Seq<char>, Seq<Seq<MeshVertex>>>;

/// The groups of every object of a text by object name.
pub type Objects = Map<Seq<char>, Groups>;

/// A parsed text, `wavefront::Obj`. Opaque here; [`obj_objects`] names what it holds.
#[verifier::external_type_specification]
#[verifier::external_body]
pub struct ExObj(wavefront::Obj);

/// A handle to one object of a parsed text, `wavefront::Object`. Opaque here;
/// [`object_groups`] names what it holds.
#[verifier::external_type_specification]
#[verifier::external_body]
pub struct ExObject<'a>(wavefront::Object<'a>);

/// A handle to one polygon of a parsed text, `wavefront::Polygon`. Opaque here;
/// [`polygon_vertices`] names what it holds.
#[verifier::external_type_specification]
#[verifier::external_body]
pub struct ExPolygon<'a>(wavefront::Polygon<'a>);

/// A handle to one vertex of a polygon, `wavefront::Vertex`. Opaque here;
/// [`vertex_data`] names what it holds.
#[verifier::external_type_specification]
#[verifier::external_body]
pub struct ExVertex<'a>(wavefront::Vertex<'a>);

/// What `wavefront::Obj::from_reader` makes of a text: the objects that it holds
/// after parsing, or the message of the error with which it turns the text down.
pub uninterp spec fn obj_parse(text: Seq<u8>) -> Result<Objects, Seq<char>>;

/// What a parsed text holds.
pub uninterp spec fn obj_objects(obj: wavefront::Obj) -> Objects;

/// What an object handle holds.
pub uninterp spec fn object_groups(object: wavefront::Object) -> Groups;

/// What a polygon handle holds: its corners in the order of the face.
pub uninterp spec fn polygon_vertices(polygon: wavefront::Polygon) -> Seq<MeshVertex>;

/// What a vertex handle holds: the position, and the texture coordinate and the
/// normal where the face names them, every number as its bit pattern.
pub uninterp spec fn vertex_data(vertex: wavefront::Vertex) -> MeshVertex;

/// The message for a text that is turned away before it reaches the parser.
pub const INDEX_OUT_OF_RANGE: &'static str = "Relative index out of range in a face";

/// Why a text gives no model, if it gives none: it is turned away here, or the
/// parser turns it down.
pub open spec fn parse_failure(text: Seq<u8>) -> Option<Seq<char>> {
    if !faces_in_range(text) {
        Some(INDEX_OUT_OF_RANGE@)
    } else {
        match obj_parse(text) {
            Ok(_) => None,
            Err(message) => Some(message),
        }
    }
}

/// `order` lists every group name once.
pub open spec fn lists(groups: Groups, order: Seq<Seq<char>>) -> bool {
    order.no_duplicates() && order.to_set() == groups.dom()
}

/// The polygons of the groups, group after group in the given order.
pub open spec fn gathered(groups: Groups, order: Seq<Seq<char>>) -> Seq<Seq<MeshVertex>> {
    order.map_values(|group: Seq<char>| groups[group]).flatten()
}

/// `polygons` are the polygons of the groups, group after group in some order of
/// the groups.
pub open spec fn arranges(groups: Groups, polygons: Seq<Seq<MeshVertex>>) -> bool {
    exists|order: Seq<Seq<char>>| #[trigger] lists(groups, order) && polygons == gathered(groups, order)
}

/// `objects` hold what `contents` holds: the same names, each once, and under each
/// name the polygons of its groups, group after group in some order.
pub open spec fn reads(contents: Objects, objects: Seq<ObjectView>) -> bool {
    &&& distinct_names(objects)
    &&& forall|name: Seq<char>|
        contents.contains_key(name) <==> exists|i: int|
            0 <= i < objects.len() && (#[trigger] objects[i]).name == name
    &&& forall|i: int|
        0 <= i < objects.len() ==> arranges(
            contents[(#[trigger] objects[i]).name],
            objects[i].polygons,
        )
}

/// What the handles of a sequence of polygons hold.
pub open spec fn polygons_held(handles: Seq<wavefront::Polygon>) -> Seq<Seq<MeshVertex>> {
    handles.map_values(|polygon: wavefront::Polygon| polygon_vertices(polygon))
}

/// What the handles of a sequence of vertices hold.
pub open spec fn vertices_held(handles: Seq<wavefront::Vertex>) -> Seq<MeshVertex> {
    handles.map_values(|vertex: wavefront::Vertex| vertex_data(vertex))
}

/// The handles are those of the objects that `contents` holds: the same names,
/// each once, and each handle holds the groups of its name.
pub open spec fn hands_out(contents: Objects, handles: Seq<(String, wavefront::Object)>) -> bool {
    &&& forall|i: int, j: int|
        0 <= i < j < handles.len() ==> (#[trigger] handles[i]).0@ != (#[trigger] handles[j]).0@
    &&& forall|name: Seq<char>|
        contents.contains_key(name) <==> exists|i: int|
            0 <= i < handles.len() && (#[trigger] handles[i]).0@ == name
    &&& forall|i: int|
        0 <= i < handles.len() ==> object_groups((#[trigger] handles[i]).1) == contents[handles[i].0@]
}

/// The group holds a polygon.
pub open spec fn is_filled(groups: Groups, group: Seq<char>) -> bool {
    groups.contains_key(group) && groups[group].len() > 0
}

/// At most one group of the object holds a polygon.
pub open spec fn at_most_one_filled(groups: Groups) -> bool {
    forall|a: Seq<char>, b: Seq<char>| is_filled(groups, a) && is_filled(groups, b) ==> a == b
}

/// The polygons of an object of which at most one group holds any: those of that
/// group in the order of the text, or none.
pub open spec fn settled_polygons(groups: Groups) -> Seq<Seq<MeshVertex>> {
    if exists|group: Seq<char>| is_filled(groups, group) {
        groups[choose|group: Seq<char>| is_filled(groups, group)]
    } else {
        Seq::empty()
    }
}

/// In every object that `contents` holds, at most one group holds a polygon.
pub open spec fn settled(contents: Objects) -> bool {
    forall|name: Seq<char>|
        contents.contains_key(name) ==> at_most_one_filled(#[trigger] contents[name])
}

/// The object of that name, where at most one of its groups holds a polygon.
pub open spec fn object_of_text(contents: Objects, name: Seq<char>) -> ObjectView {
    ObjectView { name, polygons: settled_polygons(contents[name]) }
}

/// At most one object that `contents` holds has no rows.
pub open spec fn at_most_one_failing(contents: Objects) -> bool {
    forall|a: Seq<char>, b: Seq<char>|
        contents.contains_key(a) && contents.contains_key(b) && (#[trigger] rows_of(
            object_of_text(contents, a),
        )) is Err && (#[trigger] rows_of(object_of_text(contents, b))) is Err ==> a == b
}

/// Where at most one group holds a polygon, the polygons gathered over some of the
/// groups are those of that group, whatever the order, or none where it is not
/// among them.
proof fn lemma_gathered(groups: Groups, order: Seq<Seq<char>>)
    requires
        at_most_one_filled(groups),
        order.no_duplicates(),
        forall|i: int| 0 <= i < order.len() ==> groups.contains_key(#[trigger] order[i]),
    ensures
        gathered(groups, order) == if exists|i: int|
            0 <= i < order.len() && is_filled(groups, #[trigger] order[i]) {
            settled_polygons(groups)
        } else {
            Seq::empty()
        },
    decreases order.len(),
{
    let held = order.map_values(|group: Seq<char>| groups[group]);
    if order.len() == 0 {
        assert(held =~= Seq::<Seq<Seq<MeshVertex>>>::empty());
        assert(held.flatten() =~= Seq::<Seq<MeshVertex>>::empty());
    } else {
        let front = order.drop_last();
        let last = order.last();
        let front_held = front.map_values(|group: Seq<char>| groups[group]);
        assert(held =~= front_held.push(groups[last]));
        front_held.lemma_flatten_push(groups[last]);
        assert forall|i: int| 0 <= i < front.len() implies groups.contains_key(
            #[trigger] front[i],
        ) by {
            assert(front[i] == order[i]);
        }
        lemma_gathered(groups, front);
        if is_filled(groups, last) {
            assert(order[order.len() - 1] == last);
            if exists|i: int| 0 <= i < front.len() && is_filled(groups, #[trigger] front[i]) {
                let i = choose|i: int| 0 <= i < front.len() && is_filled(groups, #[trigger] front[i]);
                assert(order[i] == front[i]);
                assert(order[i] == order[order.len() - 1]);
            }
            let chosen = choose|group: Seq<char>| is_filled(groups, group);
            assert(chosen == last);
            assert(gathered(groups, order) =~= groups[last]);
        } else {
            assert(groups[last] =~= Seq::<Seq<MeshVertex>>::empty());
            assert(gathered(groups, order) =~= gathered(groups, front));
            if exists|i: int| 0 <= i < order.len() && is_filled(groups, #[trigger] order[i]) {
                let i = choose|i: int| 0 <= i < order.len() && is_filled(groups, #[trigger] order[i]);
                assert(i < front.len());
                assert(front[i] == order[i]);
            }
            if exists|i: int| 0 <= i < front.len() && is_filled(groups, #[trigger] front[i]) {
                let i = choose|i: int| 0 <= i < front.len() && is_filled(groups, #[trigger] front[i]);
                assert(order[i] == front[i]);
            }
        }
    }
}

/// Where at most one group of an object holds a polygon, the polygons of the object
/// come in one order only: that of the text.
pub proof fn lemma_one_arrangement(groups: Groups, polygons: Seq<Seq<MeshVertex>>)
    requires
        at_most_one_filled(groups),
        arranges(groups, polygons),
    ensures
        polygons == settled_polygons(groups),
{
    let order = choose|order: Seq<Seq<char>>| #[trigger]
        lists(groups, order) && polygons == gathered(groups, order);
    assert forall|i: int| 0 <= i < order.len() implies groups.contains_key(#[trigger] order[i]) by {
        assert(order.to_set().contains(order[i]));
    }
    lemma_gathered(groups, order);
    if exists|group: Seq<char>| is_filled(groups, group) {
        let group = choose|group: Seq<char>| is_filled(groups, group);
        assert(order.to_set().contains(group));
        let i = order.index_of(group);
        assert(is_filled(groups, order[i]));
    }
}

/// The polygons of an object with exactly one group are those of that group, in
/// the order of the text.
pub proof fn lemma_single_group(groups: Groups, polygons: Seq<Seq<MeshVertex>>, group: Seq<char>)
    requires
        groups.dom() == set![group],
        arranges(groups, polygons),
    ensures
        polygons == groups[group],
{
    assert(at_most_one_filled(groups)) by {
        assert forall|a: Seq<char>, b: Seq<char>|
            is_filled(groups, a) && is_filled(groups, b) implies a == b by {
            assert(set![group].contains(a) && set![group].contains(b));
        }
    }
    lemma_one_arrangement(groups, polygons);
    assert(groups.dom().contains(group));
    if exists|g: Seq<char>| is_filled(groups, g) {
        let g = choose|g: Seq<char>| is_filled(groups, g);
        assert(set![group].contains(g));
    } else {
        assert(!is_filled(groups, group));
        assert(groups[group] =~= Seq::<Seq<MeshVertex>>::empty());
    }
}

/// A model that holds what a parsed text holds has, under every name, the object
/// of the text, where at most one group of each object holds a polygon.
pub proof fn lemma_one_reading(contents: Objects, objects: Seq<ObjectView>)
    requires
        settled(contents),
        reads(contents, objects),
    ensures
        forall|i: int|
            0 <= i < objects.len() ==> #[trigger] objects[i] == object_of_text(
                contents,
                objects[i].name,
            ),
{
    assert forall|i: int| 0 <= i < objects.len() implies #[trigger] objects[i] == object_of_text(
        contents,
        objects[i].name,
    ) by {
        let name = objects[i].name;
        assert(contents.contains_key(name));
        lemma_one_arrangement(contents[name], objects[i].polygons);
    }
}

/// Two models that hold what one parsed text holds have the same objects, apart
/// from their order, where at most one group of each object holds a polygon.
pub proof fn lemma_same_reading(contents: Objects, first: Seq<ObjectView>, second: Seq<ObjectView>)
    requires
        settled(contents),
        reads(contents, first),
        reads(contents, second),
    ensures
        among(first, second),
        among(second, first),
{
    lemma_one_reading(contents, first);
    lemma_one_reading(contents, second);
    assert forall|i: int| 0 <= i < first.len() implies second.contains(#[trigger] first[i]) by {
        let name = first[i].name;
        assert(contents.contains_key(name));
        let j = choose|j: int| 0 <= j < second.len() && (#[trigger] second[j]).name == name;
        assert(second[j] == first[i]);
    }
    assert forall|j: int| 0 <= j < second.len() implies first.contains(#[trigger] second[j]) by {
        let name = second[j].name;
        assert(contents.contains_key(name));
        let i = choose|i: int| 0 <= i < first.len() && (#[trigger] first[i]).name == name;
        assert(first[i] == second[j]);
    }
}

/// Where at most one object of the text has no rows, at most one object of a model
/// that holds what the text holds has none.
pub proof fn lemma_one_failing(contents: Objects, objects: Seq<ObjectView>)
    requires
        settled(contents),
        at_most_one_failing(contents),
        reads(contents, objects),
    ensures
        at_most_one_without_rows(objects),
{
    lemma_one_reading(contents, objects);
    assert forall|i: int, j: int|
        0 <= i < objects.len() && 0 <= j < objects.len() && (#[trigger] rows_of(objects[i])) is Err
            && (#[trigger] rows_of(objects[j])) is Err implies i == j by {
        assert(contents.contains_key(objects[i].name));
        assert(contents.contains_key(objects[j].name));
        assert(objects[i].name == objects[j].name);
    }
}

/// Calls `wavefront::Obj::from_reader` on the text, and `to_string` on the error
/// where there is one.
///
/// Trusted: what the parser holds after parsing, or the message with which it turns
/// the text down, depends on the bytes alone. Left out are the texts on which the
/// parser aborts: those on which it gets as far as a face that names, in one of the
/// first three fields of a term, the attribute just before the first one read so
/// far, or the least number of the machine's word.
#[verifier::external_body]
fn read_obj(text: &[u8]) -> (result: Result<wavefront::Obj, String>)
    requires
        faces_in_range(text@),
    ensures
        match result {
            Ok(obj) => obj_parse(text@) is Ok && obj_parse(text@)->Ok_0 == obj_objects(obj),
            Err(message) => obj_parse(text@) is Err && obj_parse(text@)->Err_0 == message@,
        },
{
    match wavefront::Obj::from_reader(text) {
        Ok(obj) => Ok(obj),
        Err(error) => Err(error.to_string()),
    }
}

/// Calls `wavefront::Obj::objects` and hands out each object with a copy of its
/// name.
///
/// Trusted: the objects are those that the parsed text holds, each once, since the
/// method walks the parser's map of objects. Nothing is said of the order.
#[verifier::external_body]
fn objects_of<'a>(obj: &'a wavefront::Obj) -> (objects: Vec<(String, wavefront::Object<'a>)>)
    ensures
        hands_out(obj_objects(*obj), objects@),
{
    obj.objects().map(|(name, object)| (name.to_string(), object)).collect()
}

/// Calls `wavefront::Object::polygons` and hands out the polygons as they come.
///
/// Trusted: the method walks the object's map of groups and in each group its
/// polygons from first to last. Nothing is said of the order of the groups.
#[verifier::external_body]
fn polygons_of<'a>(object: &wavefront::Object<'a>) -> (polygons: Vec<wavefront::Polygon<'a>>)
    ensures
        arranges(object_groups(*object), polygons_held(polygons@)),
{
    object.polygons().collect()
}

/// Calls `wavefront::Polygon::vertices` and hands out the vertices as they come.
///
/// Trusted: they are the corners of the polygon from first to last.
#[verifier::external_body]
fn vertices_of<'a>(polygon: &wavefront::Polygon<'a>) -> (vertices: Vec<wavefront::Vertex<'a>>)
    ensures
        vertices_held(vertices@) == polygon_vertices(*polygon),
{
    polygon.vertices().collect()
}

/// Calls `wavefront::Vertex::position` and gives each component as its bit pattern.
#[verifier::external_body]
fn position_of(vertex: &wavefront::Vertex) -> (position: Vector3)
    ensures
        position == vertex_data(*vertex).position,
{
    let [x, y, z] = vertex.position();
    Vector3 { x: x.to_bits(), y: y.to_bits(), z: z.to_bits() }
}

/// Calls `wavefront::Vertex::uv` and gives each component as its bit pattern.
#[verifier::external_body]
fn uv_of(vertex: &wavefront::Vertex) -> (uv: Option<Vector3>)
    ensures
        uv == vertex_data(*vertex).uv,
{
    vertex.uv().map(|[x, y, z]| Vector3 { x: x.to_bits(), y: y.to_bits(), z: z.to_bits() })
}

/// Calls `wavefront::Vertex::normal` and gives each component as its bit pattern.
#[verifier::external_body]
fn normal_of(vertex: &wavefront::Vertex) -> (normal: Option<Vector3>)
    ensures
        normal == vertex_data(*vertex).normal,
{
    vertex.normal().map(|[x, y, z]| Vector3 { x: x.to_bits(), y: y.to_bits(), z: z.to_bits() })
}

/// Copies what a vertex handle holds.
fn read_vertex(vertex: &wavefront::Vertex) -> (data: MeshVertex)
    ensures
        data == vertex_data(*vertex),
{
    MeshVertex { position: position_of(vertex), uv: uv_of(vertex), normal: normal_of(vertex) }
}

/// Copies the corners of a polygon in their order.
fn read_polygon(polygon: &wavefront::Polygon) -> (data: MeshPolygon)
    ensures
        data@ == polygon_vertices(*polygon),
{
    let handles = vertices_of(polygon);
    let mut vertices: Vec<MeshVertex> = Vec::new();
    let mut i: usize = 0;
    while i < handles.len()
        invariant
            i <= handles.len(),
            vertices@ == vertices_held(handles@).take(i as int),
        decreases handles.len() - i,
    {
        vertices.push(read_vertex(&handles[i]));
        proof {
            assert(vertices_held(handles@).take(i + 1) =~= vertices_held(handles@).take(i as int).push(
                vertex_data(handles[i as int]),
            ));
        }
        i = i + 1;
    }
    proof {
        assert(vertices_held(handles@).take(i as int) =~= vertices_held(handles@));
    }
    MeshPolygon { vertices }
}

/// What a sequence of polygons is to a contract.
pub open spec fn polygons_view(polygons: Seq<MeshPolygon>) -> Seq<Seq<MeshVertex>> {
    polygons.map_values(|p: MeshPolygon| p@)
}

/// Copies the polygons of an object in the order in which the parser yields them.
fn read_polygons(object: &wavefront::Object) -> (data: Vec<MeshPolygon>)
    ensures
        arranges(object_groups(*object), polygons_view(data@)),
{
    let handles = polygons_of(object);
    let mut polygons: Vec<MeshPolygon> = Vec::new();
    let mut i: usize = 0;
    while i < handles.len()
        invariant
            i <= handles.len(),
            polygons_view(polygons@) == polygons_held(handles@).take(i as int),
        decreases handles.len() - i,
    {
        let ghost before = polygons@;
        let polygon = read_polygon(&handles[i]);
        polygons.push(polygon);
        proof {
            assert(polygons_view(polygons@) =~= polygons_view(before).push(polygon@));
            assert(polygons_held(handles@).take(i + 1) =~= polygons_held(handles@).take(i as int).push(
                polygon_vertices(handles[i as int]),
            ));
        }
        i = i + 1;
    }
    proof {
        assert(polygons_held(handles@).take(i as int) =~= polygons_held(handles@));
    }
    polygons
}

/// Parses `text` and copies what the parser holds into a [`Model`]: the objects as
/// the parser yields them, in each its polygons, in each its vertices.
///
/// A text is turned away without a call of the parser where one of its faces holds
/// a number on which the parser aborts. Otherwise the parser decides whether there
/// is a model, and the model holds what the parser holds.
pub fn load_model(text: &[u8]) -> (result: Result<Model, String>)
    ensures
        match result {
            Ok(model) => parse_failure(text@) is None && reads(obj_parse(text@)->Ok_0, model@),
            Err(message) => parse_failure(text@) == Some(message@),
        },
{
    if !has_faces_in_range(text) {
        return Err(INDEX_OUT_OF_RANGE.to_owned());
    }
    match read_obj(text) {
        Err(message) => Err(message),
        Ok(obj) => {
            let ghost contents = obj_objects(obj);
            let handles = objects_of(&obj);
            let mut objects: Vec<NamedObject> = Vec::new();
            let mut i: usize = 0;
            while i < handles.len()
                invariant
                    i <= handles.len(),
                    objects.len() == i,
                    hands_out(contents, handles@),
                    forall|k: int|
                        0 <= k < i ==> (#[trigger] objects[k]).name@ == handles[k].0@ && arranges(
                            contents[handles[k].0@],
                            polygons_view(objects[k].polygons@),
                        ),
                decreases handles.len() - i,
            {
                let polygons = read_polygons(&handles[i].1);
                objects.push(NamedObject { name: handles[i].0.clone(), polygons });
                i = i + 1;
            }
            let model = Model { objects };
            proof {
                assert forall|k: int| 0 <= k < model@.len() implies (#[trigger] model@[k]).name
                    == handles[k].0@ && model@[k].polygons == polygons_view(
                    model.objects[k].polygons@,
                ) by {}
                assert forall|name: Seq<char>| contents.contains_key(name) implies exists|k: int|
                    0 <= k < model@.len() && (#[trigger] model@[k]).name == name by {
                    let k = choose|k: int| 0 <= k < handles.len() && (#[trigger] handles[k]).0@ == name;
                    assert(model@[k].name == name);
                }
                assert forall|name: Seq<char>|
                    (exists|k: int|
                        0 <= k < model@.len() && (#[trigger] model@[k]).name
                            == name) implies contents.contains_key(name) by {
                    let k = choose|k: int| 0 <= k < model@.len() && (#[trigger] model@[k]).name == name;
                    assert(handles[k].0@ == name);
                }
                assert(reads(contents, model@));
            }
            Ok(model)
        },
    }
}

} // verus!

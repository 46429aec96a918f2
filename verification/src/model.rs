//! The parsed mesh: named objects, their polygons, and the vertices of each polygon.

use vstd::prelude::*;

verus! {

/// Three 32-bit IEEE 754 numbers, each held as its bit pattern. Two vectors are equal
/// when their bit patterns are.
#[derive(Clone, Copy, Debug, PartialEq, Eq, Structural)]
pub struct Vector3 {
    pub x: u32,
    pub y: u32,
    pub z: u32,
}

/// One corner of a polygon. A position is always present; the texture coordinate
/// and the normal are present only where the face names them.
#[derive(Clone, Copy, Debug, PartialEq, Eq)]
pub struct MeshVertex {
    pub position: Vector3,
    pub uv: Option<Vector3>,
    pub normal: Option<Vector3>,
}

/// One face: its corners in the order in which the face lists them.
#[derive(Clone, Debug, PartialEq, Eq)]
pub struct MeshPolygon {
    pub vertices: Vec<MeshVertex>,
}

/// A named sub-mesh and its polygons in enumeration order.
#[derive(Clone, Debug, PartialEq, Eq)]
pub struct NamedObject {
    pub name: String,
    pub polygons: Vec<MeshPolygon>,
}

/// A whole mesh: its objects in enumeration order.
#[derive(Clone, Debug, PartialEq, Eq)]
pub struct Model {
    pub objects: Vec<NamedObject>,
}

/// What a [`NamedObject`] is to a contract: its name and, per polygon, the corners.
pub struct ObjectView {
    pub name: Seq<char>,
    pub polygons: Seq<Seq<MeshVertex>>,
}

impl ObjectView {
    /// All corners of the object: those of the first polygon, then those of the
    /// second, and so on.
    pub open spec fn vertices(self) -> Seq<MeshVertex> {
        self.polygons.flatten()
    }

    /// The number of corners over all polygons.
    pub open spec fn vertex_count(self) -> nat {
        self.vertices().len()
    }
}

impl View for MeshPolygon {
    type V = Seq<MeshVertex>;

    open spec fn view(&self) -> Seq<MeshVertex> {
        self.vertices@
    }
}

impl View for NamedObject {
    type V = ObjectView;

    open spec fn view(&self) -> ObjectView {
        ObjectView { name: self.name@, polygons: self.polygons@.map_values(|p: MeshPolygon| p@) }
    }
}

impl View for Model {
    type V = Seq<ObjectView>;

    open spec fn view(&self) -> Seq<ObjectView> {
        self.objects@.map_values(|o: NamedObject| o@)
    }
}

} // verus!

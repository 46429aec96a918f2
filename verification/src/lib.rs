//! Ingestion of Wavefront OBJ meshes into a nested, keyed table of vertices for a
//! scripting host.
//!
//! An OBJ text is parsed into a [`model::Model`], whose objects, polygons and
//! vertices are then walked in order. Every vertex of an object receives the next
//! key of a run that starts at 1, and the rows of each object are stored in an
//! outer table under the object's name. The table can then be written down as the
//! steps that build it on the host's value stack.
//!
//! Coordinates are 32-bit IEEE 754 numbers. They are carried through as bit
//! patterns and never interpreted here: arithmetic on them belongs to the caller.

pub mod model;
pub mod table;
pub mod emit;
pub mod guard;
pub mod reader;
pub mod endpoint;
pub mod marshal;

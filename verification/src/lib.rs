//! Reading and writing Wavefront `.obj` geometry files.
pub mod text;
pub mod number;
pub mod mtl;
pub mod types;
pub mod parse;
pub mod write;
pub mod polygon;
pub mod materials;
pub mod round_trip;
pub mod laws;

pub use genmesh::{Polygon, Quad, Triangle};
pub use materials::MtlLibsLoadError;
pub use mtl::{Material, Mtl};
pub use types::{
    GenPolygon, Group, IndexTuple, Object, ObjData, ObjError, ObjMaterial, SimplePolygon, WriteToBuf,
};

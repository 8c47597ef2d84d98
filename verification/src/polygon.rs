//! Faces held as `genmesh` triangles and quads.
use vstd::prelude::*;
use genmesh::Polygon;
use crate::types::{GenPolygon, IndexTuple, ObjError, ObjErrorView, SimplePolygon, WriteToBuf};
use crate::write::{face_line, tuple_writable, unlines};

verus! {

/// `genmesh::Polygon`: a triangle or a quad.
#[verifier::external_type_specification]
#[verifier::external_body]
#[verifier::reject_recursive_types(T)]
pub struct ExPolygon<T>(Polygon<T>);

/// The corners a `genmesh::Polygon` holds: `x`, `y`, `z` of a triangle, or `x`, `y`, `z`,
/// `w` of a quad.
pub uninterp spec fn polygon_corners(p: Polygon<IndexTuple>) -> Seq<IndexTuple>;

/// `Polygon::PolyTri(Triangle::new(a, b, c))`: `Triangle::new` stores its three arguments
/// as the corners `x`, `y`, `z`.
#[verifier::external_body]
fn new_triangle(a: IndexTuple, b: IndexTuple, c: IndexTuple) -> (p: Polygon<IndexTuple>)
    ensures
        polygon_corners(p) == seq![a, b, c],
{
    Polygon::PolyTri(genmesh::Triangle::new(a, b, c))
}

/// `Polygon::PolyQuad(Quad::new(a, b, c, d))`: `Quad::new` stores its four arguments as the
/// corners `x`, `y`, `z`, `w`.
#[verifier::external_body]
fn new_quad(a: IndexTuple, b: IndexTuple, c: IndexTuple, d: IndexTuple) -> (p: Polygon<IndexTuple>)
    ensures
        polygon_corners(p) == seq![a, b, c, d],
{
    Polygon::PolyQuad(genmesh::Quad::new(a, b, c, d))
}

/// The corners of a polygon, read from the fields of its triangle or quad: a
/// `genmesh::Polygon` is a `PolyTri` or a `PolyQuad`, so there are three or four.
#[verifier::external_body]
fn corners_of(p: &Polygon<IndexTuple>) -> (v: Vec<IndexTuple>)
    ensures
        v@ == polygon_corners(*p),
        v@.len() == 3 || v@.len() == 4,
{
    match p {
        Polygon::PolyTri(t) => vec![t.x, t.y, t.z],
        Polygon::PolyQuad(q) => vec![q.x, q.y, q.z, q.w],
    }
}

impl GenPolygon for Polygon<IndexTuple> {
    open spec fn corners(&self) -> Seq<IndexTuple> {
        polygon_corners(*self)
    }

    /// Only triangles and quads.
    open spec fn accepts(data: Seq<IndexTuple>) -> bool {
        data.len() == 3 || data.len() == 4
    }

    open spec fn rejection(line_number: usize, data: Seq<IndexTuple>) -> ObjErrorView {
        ObjErrorView::GenMeshTooManyVertsInPolygon { line_number, vert_count: data.len() as usize }
    }

    fn new(line_number: usize, data: SimplePolygon) -> (p: Self) {
        if data.len() == 3 {
            new_triangle(data[0], data[1], data[2])
        } else {
            new_quad(data[0], data[1], data[2], data[3])
        }
    }

    fn try_new(line_number: usize, data: SimplePolygon) -> (r: Result<Self, ObjError>) {
        let n = data.len();
        if n == 3 {
            let p = new_triangle(data[0], data[1], data[2]);
            assert(data@ =~= seq![data@[0], data@[1], data@[2]]);
            Ok(p)
        } else if n == 4 {
            let p = new_quad(data[0], data[1], data[2], data[3]);
            assert(data@ =~= seq![data@[0], data@[1], data@[2], data@[3]]);
            Ok(p)
        } else {
            Err(ObjError::GenMeshTooManyVertsInPolygon { line_number, vert_count: n })
        }
    }
}

impl WriteToBuf for Polygon<IndexTuple> {
    /// `f` and every corner of the triangle or quad.
    open spec fn obj_text(&self) -> Seq<char> {
        unlines(seq![face_line(polygon_corners(*self))])
    }

    open spec fn writable(&self) -> bool {
        forall|i: int| 0 <= i < polygon_corners(*self).len() ==> tuple_writable(#[trigger] polygon_corners(*self)[i])
    }

    fn is_writable(&self) -> (b: bool) {
        let corners: SimplePolygon = corners_of(self);
        corners.is_writable()
    }

    fn write_to_buf(&self, out: &mut String) {
        let corners: SimplePolygon = corners_of(self);
        corners.write_to_buf(out);
    }
}

} // verus!

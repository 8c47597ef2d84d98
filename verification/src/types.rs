//! The data model of `.obj` files.
use vstd::prelude::*;
use std::sync::Arc;
use crate::mtl::{Material, MaterialView, Mtl, MtlView};
use crate::number::{decimal, push_decimal};

verus! {

/// The indices of one corner of a face: position, and optionally texture coordinate and
/// normal, all counted from zero.
#[derive(Debug, Clone, Copy, Hash, PartialEq, PartialOrd, Eq, Ord)]
pub struct IndexTuple(pub usize, pub Option<usize>, pub Option<usize>);

/// A face as the plain list of its corners.
pub type SimplePolygon = Vec<IndexTuple>;

/// Values that serialize themselves as `.obj` text.
pub trait WriteToBuf {
    /// The text that `write_to_buf` appends.
    spec fn obj_text(&self) -> Seq<char>;

    /// Whether the value can be written at all.
    spec fn writable(&self) -> bool;

    /// Whether the value can be written at all, tested.
    fn is_writable(&self) -> (b: bool)
        ensures
            b == self.writable(),
    ;

    /// Appends the `.obj` text of this value to `out`.
    fn write_to_buf(&self, out: &mut String)
        requires
            self.writable(),
        ensures
            final(out)@ == old(out)@ + self.obj_text(),
    ;
}

/// Polygon types that faces are read into.
pub trait GenPolygon: Sized + Clone {
    /// The corners of the polygon, in order.
    spec fn corners(&self) -> Seq<IndexTuple>;

    /// Whether a face with these corners can be held.
    spec fn accepts(data: Seq<IndexTuple>) -> bool;

    /// The error reported for a face that cannot be held.
    spec fn rejection(line_number: usize, data: Seq<IndexTuple>) -> ObjErrorView;

    /// The polygon with the corners `data`, for a face that it can hold.
    fn new(line_number: usize, data: SimplePolygon) -> (p: Self)
        requires
            Self::accepts(data@),
        ensures
            p.corners() == data@,
    ;

    /// The polygon with the corners `data`, or the error for the face of line
    /// `line_number` when the type cannot hold it.
    fn try_new(line_number: usize, data: SimplePolygon) -> (r: Result<Self, ObjError>)
        ensures
            match r {
                Ok(p) => Self::accepts(data@) && p.corners() == data@,
                Err(e) => !Self::accepts(data@) && e@ == Self::rejection(line_number, data@),
            },
    ;
}

impl GenPolygon for SimplePolygon {
    open spec fn corners(&self) -> Seq<IndexTuple> {
        self@
    }

    open spec fn accepts(data: Seq<IndexTuple>) -> bool {
        true
    }

    /// Never reported: every list of corners is accepted.
    open spec fn rejection(line_number: usize, data: Seq<IndexTuple>) -> ObjErrorView {
        ObjErrorView::MissingMTLName { line_number }
    }

    fn new(line_number: usize, data: SimplePolygon) -> (p: Self) {
        data
    }

    fn try_new(line_number: usize, data: SimplePolygon) -> (r: Result<Self, ObjError>) {
        Ok(data)
    }
}

/// `std::io::Error`, carried in `ObjError::Io`.
#[verifier::external_type_specification]
#[verifier::external_body]
pub struct ExIoError(std::io::Error);

/// Errors parsing or loading a .obj file.
#[derive(Debug)]
pub enum ObjError {
    Io(std::io::Error),
    /// One of the arguments to `f` is malformed.
    MalformedFaceGroup { line_number: usize, group: String },
    /// An argument list either has unparsable arguments or is
    /// missing one or more arguments.
    ArgumentListFailure { line_number: usize, list: String },
    /// Command found that is not in the .obj spec.
    UnexpectedCommand { line_number: usize, command: String },
    /// `mtllib` command issued, but no name was specified.
    MissingMTLName { line_number: usize },
    /// `genmesh::Polygon` only supports triangles and squares.
    GenMeshTooManyVertsInPolygon { line_number: usize, vert_count: usize },
}

impl From<std::io::Error> for ObjError {
    fn from(e: std::io::Error) -> (r: Self) {
        ObjError::Io(e)
    }
}

impl vstd::std_specs::convert::FromSpecImpl<std::io::Error> for ObjError {
    open spec fn obeys_from_spec() -> bool {
        true
    }

    open spec fn from_spec(v: std::io::Error) -> Self {
        ObjError::Io(v)
    }
}

pub enum ObjErrorView {
    Io,
    MalformedFaceGroup { line_number: usize, group: Seq<char> },
    ArgumentListFailure { line_number: usize, list: Seq<char> },
    UnexpectedCommand { line_number: usize, command: Seq<char> },
    MissingMTLName { line_number: usize },
    GenMeshTooManyVertsInPolygon { line_number: usize, vert_count: usize },
}

impl View for ObjError {
    type V = ObjErrorView;

    open spec fn view(&self) -> ObjErrorView {
        match self {
            ObjError::Io(_) => ObjErrorView::Io,
            ObjError::MalformedFaceGroup { line_number, group } => ObjErrorView::MalformedFaceGroup {
                line_number: *line_number,
                group: group@,
            },
            ObjError::ArgumentListFailure { line_number, list } => ObjErrorView::ArgumentListFailure {
                line_number: *line_number,
                list: list@,
            },
            ObjError::UnexpectedCommand { line_number, command } => ObjErrorView::UnexpectedCommand {
                line_number: *line_number,
                command: command@,
            },
            ObjError::MissingMTLName { line_number } => ObjErrorView::MissingMTLName {
                line_number: *line_number,
            },
            ObjError::GenMeshTooManyVertsInPolygon { line_number, vert_count } =>
                ObjErrorView::GenMeshTooManyVertsInPolygon {
                line_number: *line_number,
                vert_count: *vert_count,
            },
        }
    }
}

/// The start of the message of an I/O error; the error's own description follows it.
pub open spec fn io_message_prefix() -> Seq<char> {
    "I/O error loading a .obj file: "@
}

/// The message that describes an error other than an I/O error.
pub open spec fn error_message(e: ObjErrorView) -> Seq<char> {
    match e {
        ObjErrorView::Io => io_message_prefix(),
        ObjErrorView::MalformedFaceGroup { line_number, group } => "One of the arguments to `f` is malformed (line: "@
            + decimal(line_number as nat) + ", group: "@ + group + ")"@,
        ObjErrorView::ArgumentListFailure { line_number, list } =>
            "An argument list either has unparsable arguments or is missing arguments. (line: "@ + decimal(
            line_number as nat,
        ) + ", list: "@ + list + ")"@,
        ObjErrorView::UnexpectedCommand { line_number, command } =>
            "Command found that is not in the .obj spec. (line: "@ + decimal(line_number as nat) + ", command: "@
            + command + ")"@,
        ObjErrorView::MissingMTLName { line_number } => "mtllib command issued, but no name was specified. (line: "@
            + decimal(line_number as nat) + ")"@,
        ObjErrorView::GenMeshTooManyVertsInPolygon { line_number, vert_count } =>
            "[`genmesh::Polygon`] only supports triangles and squares. (line: "@ + decimal(line_number as nat)
            + ", vertex count: "@ + decimal(vert_count as nat),
    }
}

/// The description of an I/O error (`Display` of `std::io::Error`). It can carry the
/// operating system's own wording, so nothing is stated of it.
#[verifier::external_body]
fn io_error_text(e: &std::io::Error) -> String {
    format!("{}", e)
}

impl ObjError {
    /// The message that describes this error: for an I/O error, a fixed start followed by
    /// the I/O error's own description; otherwise the kind of error, the line number and
    /// the text at fault.
    pub fn message(&self) -> (s: String)
        ensures
            self@ is Io ==> io_message_prefix().is_prefix_of(s@),
            !(self@ is Io) ==> s@ == error_message(self@),
    {
        let mut s = String::new();
        match self {
            ObjError::Io(e) => {
                s.append("I/O error loading a .obj file: ");
                let t = io_error_text(e);
                s.append(t.as_str());
                proof {
                    reveal_strlit("I/O error loading a .obj file: ");
                    assert(s@.take(io_message_prefix().len() as int) =~= io_message_prefix());
                }
            },
            ObjError::MalformedFaceGroup { line_number, group } => {
                s.append("One of the arguments to `f` is malformed (line: ");
                push_decimal(&mut s, *line_number);
                s.append(", group: ");
                s.append(group.as_str());
                s.append(")");
            },
            ObjError::ArgumentListFailure { line_number, list } => {
                s.append("An argument list either has unparsable arguments or is missing arguments. (line: ");
                push_decimal(&mut s, *line_number);
                s.append(", list: ");
                s.append(list.as_str());
                s.append(")");
            },
            ObjError::UnexpectedCommand { line_number, command } => {
                s.append("Command found that is not in the .obj spec. (line: ");
                push_decimal(&mut s, *line_number);
                s.append(", command: ");
                s.append(command.as_str());
                s.append(")");
            },
            ObjError::MissingMTLName { line_number } => {
                s.append("mtllib command issued, but no name was specified. (line: ");
                push_decimal(&mut s, *line_number);
                s.append(")");
            },
            ObjError::GenMeshTooManyVertsInPolygon { line_number, vert_count } => {
                s.append("[`genmesh::Polygon`] only supports triangles and squares. (line: ");
                push_decimal(&mut s, *line_number);
                s.append(", vertex count: ");
                push_decimal(&mut s, *vert_count);
            },
        }
        s
    }
}

/// The material a group uses: its name as `usemtl` gives it, or the material itself once
/// the material libraries are loaded.
#[derive(Debug, Clone, PartialEq)]
pub enum ObjMaterial {
    /// A reference to a material as a material name.
    Ref(String),
    /// A complete `Material` object loaded from a .mtl file in place of the material reference.
    Mtl(Arc<Material>),
}

pub enum ObjMaterialView {
    Ref(Seq<char>),
    Mtl(MaterialView),
}

impl View for ObjMaterial {
    type V = ObjMaterialView;

    open spec fn view(&self) -> ObjMaterialView {
        match self {
            ObjMaterial::Ref(name) => ObjMaterialView::Ref(name@),
            ObjMaterial::Mtl(m) => ObjMaterialView::Mtl((**m)@),
        }
    }
}

/// The name of the material.
pub open spec fn material_name(m: ObjMaterialView) -> Seq<char> {
    match m {
        ObjMaterialView::Ref(name) => name,
        ObjMaterialView::Mtl(mat) => mat.name,
    }
}

impl ObjMaterial {
    pub fn name(&self) -> (s: &str)
        ensures
            s@ == material_name(self@),
    {
        match self {
            ObjMaterial::Ref(name) => name.as_str(),
            ObjMaterial::Mtl(material) => material.name.as_str(),
        }
    }
}

pub open spec fn opt_material_view(m: Option<ObjMaterial>) -> Option<ObjMaterialView> {
    match m {
        Some(m) => Some(m@),
        None => None,
    }
}

/// A named group of faces that share a material.
#[derive(Debug, Clone, PartialEq)]
pub struct Group<P = SimplePolygon> {
    pub name: String,
    /// An index is used to tell groups apart that share the same name
    pub index: usize,
    pub material: Option<ObjMaterial>,
    pub polys: Vec<P>,
}

#[verifier::ext_equal]
pub struct GroupView {
    pub name: Seq<char>,
    pub index: usize,
    pub material: Option<ObjMaterialView>,
    /// The corners of each face.
    pub polys: Seq<Seq<IndexTuple>>,
}

impl<P: GenPolygon> View for Group<P> {
    type V = GroupView;

    open spec fn view(&self) -> GroupView {
        GroupView {
            name: self.name@,
            index: self.index,
            material: opt_material_view(self.material),
            polys: self.polys@.map_values(|p: P| p.corners()),
        }
    }
}

impl<P: GenPolygon> Group<P> {
    pub fn new(name: String) -> (g: Self)
        ensures
            g@ == (GroupView { name: name@, index: 0, material: None, polys: seq![] }),
    {
        let g = Group { name: name, index: 0, material: None, polys: Vec::new() };
        assert(g@.polys =~= seq![]);
        g
    }
}

/// A named object made of groups.
#[derive(Debug, Clone, PartialEq)]
pub struct Object<P = SimplePolygon> {
    pub name: String,
    pub groups: Vec<Group<P>>,
}

#[verifier::ext_equal]
pub struct ObjectView {
    pub name: Seq<char>,
    pub groups: Seq<GroupView>,
}

impl<P: GenPolygon> View for Object<P> {
    type V = ObjectView;

    open spec fn view(&self) -> ObjectView {
        ObjectView { name: self.name@, groups: self.groups@.map_values(|g: Group<P>| g@) }
    }
}

impl<P: GenPolygon> Object<P> {
    pub fn new(name: String) -> (o: Self)
        ensures
            o@ == (ObjectView { name: name@, groups: seq![] }),
    {
        let o = Object { name: name, groups: Vec::new() };
        assert(o@.groups =~= seq![]);
        o
    }
}

/// The data model associated with each `Obj` file.
///
/// Coordinates are kept as the numerals of the file: each one is a token that
/// `f32::from_str` accepts.
#[derive(Debug, PartialEq)]
pub struct ObjData<P = SimplePolygon> {
    /// Vertex positions.
    pub position: Vec<[String; 3]>,
    /// 2D texture coordinates.
    pub texture: Vec<[String; 2]>,
    /// A set of normals.
    pub normal: Vec<[String; 3]>,
    /// A collection of associated objects indicated by `o`, as well as the default object at the
    /// top level.
    pub objects: Vec<Object<P>>,
    /// The set of all `mtllib` references to .mtl files.
    pub material_libs: Vec<Mtl>,
}

#[verifier::ext_equal]
pub struct ObjDataView {
    pub position: Seq<Seq<Seq<char>>>,
    pub texture: Seq<Seq<Seq<char>>>,
    pub normal: Seq<Seq<Seq<char>>>,
    pub objects: Seq<ObjectView>,
    pub material_libs: Seq<MtlView>,
}

pub open spec fn coords3_view(v: Seq<[String; 3]>) -> Seq<Seq<Seq<char>>> {
    v.map_values(|a: [String; 3]| a@.map_values(|s: String| s@))
}

pub open spec fn coords2_view(v: Seq<[String; 2]>) -> Seq<Seq<Seq<char>>> {
    v.map_values(|a: [String; 2]| a@.map_values(|s: String| s@))
}

impl<P: GenPolygon> View for ObjData<P> {
    type V = ObjDataView;

    open spec fn view(&self) -> ObjDataView {
        ObjDataView {
            position: coords3_view(self.position@),
            texture: coords2_view(self.texture@),
            normal: coords3_view(self.normal@),
            objects: self.objects@.map_values(|o: Object<P>| o@),
            material_libs: self.material_libs@.map_values(|m: Mtl| m@),
        }
    }
}

pub open spec fn empty_data() -> ObjDataView {
    ObjDataView {
        position: seq![],
        texture: seq![],
        normal: seq![],
        objects: seq![],
        material_libs: seq![],
    }
}

impl<P: GenPolygon> Default for ObjData<P> {
    fn default() -> (d: Self)
        ensures
            d@ == empty_data(),
    {
        let d = ObjData {
            position: Vec::new(),
            texture: Vec::new(),
            normal: Vec::new(),
            objects: Vec::new(),
            material_libs: Vec::new(),
        };
        assert(d@.position =~= seq![]);
        assert(d@.texture =~= seq![]);
        assert(d@.normal =~= seq![]);
        assert(d@.objects =~= seq![]);
        assert(d@.material_libs =~= seq![]);
        d
    }
}

/// The zero-based index that the one-based or negative (counted from the end) index
/// `idx` of a face designates among `len` elements; a negative result wraps around, as
/// the cast in the computation does.
pub open spec fn normalized(idx: isize, len: nat) -> usize {
    if idx < 0 {
        (len + idx) as usize
    } else {
        (idx - 1) as usize
    }
}

/// Turns a one-based or negative (counted from the end) index into a zero-based one.
pub fn normalize(idx: isize, len: usize) -> (r: usize)
    requires
        idx != 0,
        len <= isize::MAX,
    ensures
        r == normalized(idx, len as nat),
{
    if idx < 0 {
        (len as isize + idx) as usize
    } else {
        idx as usize - 1
    }
}

} // verus!

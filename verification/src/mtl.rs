//! Material libraries (`.mtl` files) as the `.obj` data refers to them.
use vstd::prelude::*;
use std::sync::Arc;

verus! {

/// A material of a material library, known by its name.
#[derive(Debug, Clone, PartialEq)]
pub struct Material {
    pub name: String,
}

#[verifier::ext_equal]
pub struct MaterialView {
    pub name: Seq<char>,
}

impl View for Material {
    type V = MaterialView;

    open spec fn view(&self) -> MaterialView {
        MaterialView { name: self.name@ }
    }
}

/// The materials behind a sequence of shared handles.
pub open spec fn material_views(v: Seq<Arc<Material>>) -> Seq<MaterialView> {
    v.map_values(|m: Arc<Material>| (*m)@)
}

/// A material library named by an `mtllib` command, and the materials loaded from it.
#[derive(Debug, Clone, PartialEq)]
pub struct Mtl {
    /// The file name as the `mtllib` command gives it.
    pub filename: String,
    pub materials: Vec<Arc<Material>>,
}

#[verifier::ext_equal]
pub struct MtlView {
    pub filename: Seq<char>,
    pub materials: Seq<MaterialView>,
}

impl View for Mtl {
    type V = MtlView;

    open spec fn view(&self) -> MtlView {
        MtlView {
            filename: self.filename@,
            materials: material_views(self.materials@),
        }
    }
}

impl Mtl {
    /// A library with the given file name and no materials loaded yet.
    pub fn new(filename: String) -> (m: Mtl)
        ensures
            m@ == (MtlView { filename: filename@, materials: seq![] }),
    {
        let m = Mtl { filename, materials: Vec::new() };
        assert(m@.materials =~= seq![]);
        m
    }
}

} // verus!

//! Putting the materials of loaded material libraries in place of the names that
//! `usemtl` gives.
use vstd::prelude::*;
use std::sync::Arc;
use crate::mtl::{material_views, Material, MaterialView, Mtl, MtlView};
use crate::text::same_text;
use crate::types::{
    material_name, GenPolygon, Group, GroupView, ObjData, ObjMaterial, ObjMaterialView, Object, ObjectView,
};

verus! {

/// Error loading individual material libraries: each entry names the library file and
/// its error.
#[derive(Debug)]
pub struct MtlLibsLoadError<E>(pub Vec<(String, E)>);

impl<E> From<Vec<(String, E)>> for MtlLibsLoadError<E> {
    fn from(e: Vec<(String, E)>) -> (r: Self) {
        MtlLibsLoadError(e)
    }
}

impl<E> vstd::std_specs::convert::FromSpecImpl<Vec<(String, E)>> for MtlLibsLoadError<E> {
    open spec fn obeys_from_spec() -> bool {
        true
    }

    open spec fn from_spec(v: Vec<(String, E)>) -> Self {
        MtlLibsLoadError(v)
    }
}

/// The materials of the libraries that loaded, in the order of the libraries.
pub open spec fn loaded_materials<E>(outcomes: Seq<Result<Vec<Arc<Material>>, E>>) -> Seq<MaterialView>
    decreases outcomes.len(),
{
    if outcomes.len() == 0 {
        seq![]
    } else {
        loaded_materials(outcomes.drop_last()) + match outcomes.last() {
            Ok(ms) => material_views(ms@),
            Err(_) => seq![],
        }
    }
}

/// The first material of `ms` named `name`.
pub open spec fn first_named(ms: Seq<MaterialView>, name: Seq<char>) -> Option<MaterialView>
    decreases ms.len(),
{
    if ms.len() == 0 {
        None
    } else if ms[0].name == name {
        Some(ms[0])
    } else {
        first_named(ms.drop_first(), name)
    }
}

/// A group's material once the materials `known` are loaded: a material of that name
/// replaces it, the first one when several have it.
pub open spec fn assigned(m: Option<ObjMaterialView>, known: Seq<MaterialView>) -> Option<ObjMaterialView> {
    match m {
        Some(x) => match first_named(known, material_name(x)) {
            Some(mat) => Some(ObjMaterialView::Mtl(mat)),
            None => Some(x),
        },
        None => None,
    }
}

pub open spec fn group_assigned(g: GroupView, known: Seq<MaterialView>) -> GroupView {
    GroupView { material: assigned(g.material, known), ..g }
}

pub open spec fn object_assigned(o: ObjectView, known: Seq<MaterialView>) -> ObjectView {
    ObjectView { groups: o.groups.map_values(|g: GroupView| group_assigned(g, known)), ..o }
}

/// A library after its reload: the materials it loaded, or unchanged when it failed.
pub open spec fn lib_reloaded<E>(lib: MtlView, outcome: Result<Vec<Arc<Material>>, E>) -> MtlView {
    match outcome {
        Ok(ms) => MtlView { materials: material_views(ms@), ..lib },
        Err(_) => lib,
    }
}

/// The failed libraries' file names with their errors, in order.
pub open spec fn load_errors<E>(libs: Seq<MtlView>, outcomes: Seq<Result<Vec<Arc<Material>>, E>>) -> Seq<
    (Seq<char>, E),
>
    decreases outcomes.len(),
{
    if outcomes.len() == 0 {
        seq![]
    } else {
        load_errors(libs, outcomes.drop_last()) + match outcomes.last() {
            Ok(_) => seq![],
            Err(e) => seq![(libs[outcomes.len() - 1].filename, e)],
        }
    }
}

pub open spec fn errors_view<E>(v: Seq<(String, E)>) -> Seq<(Seq<char>, E)> {
    v.map_values(|p: (String, E)| (p.0@, p.1))
}

/// Another handle on the same material (`Arc::clone`).
#[verifier::external_body]
fn share(m: &Arc<Material>) -> (r: Arc<Material>)
    ensures
        r == *m,
{
    Arc::clone(m)
}

/// Appends to `known` a handle on each material of `ms`, in order.
fn extend_shared(known: &mut Vec<Arc<Material>>, ms: &Vec<Arc<Material>>)
    ensures
        material_views(final(known)@) == material_views(old(known)@) + material_views(ms@),
{
    let ghost start = material_views(known@);
    let mut j: usize = 0;
    while j < ms.len()
        invariant
            j <= ms@.len(),
            start == material_views(old(known)@),
            material_views(known@) == start + material_views(ms@.take(j as int)),
        decreases ms@.len() - j,
    {
        let ghost before = known@;
        let m = share(&ms[j]);
        known.push(m);
        assert(known@ == before.push(m));
        assert(material_views(known@) =~= material_views(before).push((*m)@));
        assert(material_views(ms@.take(j + 1)) =~= material_views(ms@.take(j as int)).push((*ms@[j as int])@));
        j = j + 1;
    }
    assert(ms@.take(j as int) =~= ms@);
}

/// The first material of `known` named `name`.
fn find_named(known: &Vec<Arc<Material>>, name: &str) -> (r: Option<Arc<Material>>)
    ensures
        match first_named(material_views(known@), name@) {
            Some(mv) => r matches Some(m) && (*m)@ == mv,
            None => r is None,
        },
{
    let ghost ks = material_views(known@);
    let mut i: usize = 0;
    assert(ks.skip(0) =~= ks);
    while i < known.len()
        invariant
            i <= known@.len(),
            ks == material_views(known@),
            first_named(ks, name@) == first_named(ks.skip(i as int), name@),
        decreases known@.len() - i,
    {
        let ghost rest = ks.skip(i as int);
        assert(rest[0] == (*known@[i as int])@);
        if same_text(known[i].name.as_str(), name) {
            return Some(share(&known[i]));
        }
        assert(rest.drop_first() =~= ks.skip(i + 1));
        i = i + 1;
    }
    assert(ks.skip(i as int) =~= Seq::<MaterialView>::empty());
    None
}

fn assign_group<P: GenPolygon>(g: Group<P>, known: &Vec<Arc<Material>>) -> (r: Group<P>)
    ensures
        r@ == group_assigned(g@, material_views(known@)),
{
    let mut g = g;
    let ghost g0 = g@;
    let m = match &g.material {
        Some(mat) => match find_named(known, mat.name()) {
            Some(found) => Some(ObjMaterial::Mtl(found)),
            None => None,
        },
        None => None,
    };
    match m {
        Some(m) => {
            g.material = Some(m);
        },
        None => {},
    }
    assert(g@ =~= group_assigned(g0, material_views(known@)));
    g
}

fn assign_object<P: GenPolygon>(o: Object<P>, known: &Vec<Arc<Material>>) -> (r: Object<P>)
    ensures
        r@ == object_assigned(o@, material_views(known@)),
{
    let ghost ks = material_views(known@);
    let ghost o0 = o@;
    let Object { name, groups } = o;
    let mut out: Vec<Group<P>> = Vec::new();
    let ghost gs = groups@;
    for g in it: groups
        invariant
            it.seq() == gs,
            ks == material_views(known@),
            out@.len() == it.index(),
            forall|j: int| 0 <= j < it.index() ==> (#[trigger] out@[j])@ == group_assigned(gs[j]@, ks),
    {
        let ng = assign_group(g, known);
        out.push(ng);
    }
    let r = Object { name, groups: out };
    assert(r@.groups =~= o0.groups.map_values(|g: GroupView| group_assigned(g, ks)));
    r
}

impl<P: GenPolygon> ObjData<P> {
    /// Puts loaded materials in place of the material names of the groups.
    ///
    /// `outcomes[i]` is what reloading `material_libs[i]` gave: its materials, or its error.
    /// A library that loaded takes its materials; a group whose material is named by a
    /// loaded material takes that material, the one of the first library listed when
    /// several define the name. The libraries that failed are reported with their errors.
    pub fn apply_mtl_results<E>(&mut self, outcomes: Vec<Result<Vec<Arc<Material>>, E>>) -> (r: Result<
        (),
        MtlLibsLoadError<E>,
    >)
        requires
            outcomes@.len() == old(self).material_libs@.len(),
        ensures
            final(self)@.position == old(self)@.position,
            final(self)@.texture == old(self)@.texture,
            final(self)@.normal == old(self)@.normal,
            final(self)@.material_libs.len() == outcomes@.len(),
            forall|i: int|
                0 <= i < outcomes@.len() ==> #[trigger] final(self)@.material_libs[i] == lib_reloaded(
                    old(self)@.material_libs[i],
                    outcomes@[i],
                ),
            final(self)@.objects == old(self)@.objects.map_values(
                |o: ObjectView| object_assigned(o, loaded_materials(outcomes@)),
            ),
            ({
                let errs = load_errors(old(self)@.material_libs, outcomes@);
                &&& r is Ok <==> errs.len() == 0
                &&& r matches Err(e) ==> errors_view(e.0@) == errs
            }),
    {
        let ghost outs = outcomes@;
        let ghost libs0 = self@.material_libs;
        let mut errs: Vec<(String, E)> = Vec::new();
        let mut known: Vec<Arc<Material>> = Vec::new();
        let mut i: usize = 0;
        assert(outs.take(0) =~= Seq::<Result<Vec<Arc<Material>>, E>>::empty());
        for o in it: outcomes
            invariant
                it.seq() == outs,
                i == it.index(),
                outs.len() == libs0.len(),
                self.material_libs@.len() == libs0.len(),
                self@.position == old(self)@.position,
                self@.texture == old(self)@.texture,
                self@.normal == old(self)@.normal,
                self@.objects == old(self)@.objects,
                libs0 == old(self)@.material_libs,
                forall|j: int| 0 <= j < it.index() ==> #[trigger] self@.material_libs[j] == lib_reloaded(libs0[j], outs[j]),
                forall|j: int| it.index() <= j < libs0.len() ==> #[trigger] self@.material_libs[j] == libs0[j],
                material_views(known@) == loaded_materials(outs.take(it.index())),
                errors_view(errs@) == load_errors(libs0, outs.take(it.index())),
        {
            assert(i < self.material_libs.len());
            let ghost before_known = material_views(known@);
            let ghost before_errs = errors_view(errs@);
            assert(outs.take(i + 1).drop_last() =~= outs.take(i as int));
            assert(outs.take(i + 1).last() == o);
            assert(outs[i as int] == o);
            assert(self@.material_libs[i as int] == libs0[i as int]);
            assert(self@.material_libs[i as int] == self.material_libs@[i as int]@);
            let ghost view_before = self@.material_libs;
            match o {
                Ok(ms) => {
                    extend_shared(&mut known, &ms);
                    let filename = self.material_libs[i].filename.clone();
                    let lib = Mtl { filename, materials: ms };
                    assert(lib@ == lib_reloaded(libs0[i as int], outs[i as int]));
                    let ghost libs_before = self.material_libs@;
                    self.material_libs.set(i, lib);
                    assert(self.material_libs@ == libs_before.update(i as int, lib));
                    assert(self@.material_libs =~= view_before.update(i as int, lib@));
                    assert(errors_view(errs@) =~= load_errors(libs0, outs.take(i + 1)));
                },
                Err(e) => {
                    let filename = self.material_libs[i].filename.clone();
                    let ghost errs_before = errs@;
                    assert(self@.material_libs =~= view_before);
                    errs.push((filename, e));
                    assert(errs@ == errs_before.push((filename, e)));
                    assert(errors_view(errs@) =~= before_errs.push((libs0[i as int].filename, e)));
                    assert(material_views(known@) =~= before_known + Seq::<MaterialView>::empty());
                },
            }
            assert forall|j: int| 0 <= j < i + 1 implies #[trigger] self@.material_libs[j] == lib_reloaded(libs0[j], outs[j]) by {
                if j < i {
                }
            }
            i = i + 1;
        }
        assert(outs.take(outs.len() as int) =~= outs);
        let ghost libs_after = self@.material_libs;
        assert(forall|j: int| 0 <= j < outs.len() ==> #[trigger] libs_after[j] == lib_reloaded(libs0[j], outs[j]));
        let ghost ks = loaded_materials(outs);
        let mut objects: Vec<Object<P>> = Vec::new();
        std::mem::swap(&mut objects, &mut self.objects);
        let ghost objs = objects@;
        let mut out: Vec<Object<P>> = Vec::new();
        for ob in it: objects
            invariant
                it.seq() == objs,
                ks == material_views(known@),
                out@.len() == it.index(),
                forall|j: int| 0 <= j < it.index() ==> (#[trigger] out@[j])@ == object_assigned(objs[j]@, ks),
        {
            let no = assign_object(ob, &known);
            out.push(no);
        }
        self.objects = out;
        assert(self@.objects =~= old(self)@.objects.map_values(|o: ObjectView| object_assigned(o, ks)));
        assert(self@.material_libs == libs_after);
        if errs.len() == 0 {
            Ok(())
        } else {
            Err(MtlLibsLoadError(errs))
        }
    }
}

/// Looking a name up in two lists one after the other.
proof fn lemma_first_named_concat(a: Seq<MaterialView>, b: Seq<MaterialView>, name: Seq<char>)
    ensures
        first_named(a + b, name) == match first_named(a, name) {
            Some(m) => Some(m),
            None => first_named(b, name),
        },
    decreases a.len(),
{
    if a.len() == 0 {
        assert(a + b =~= b);
    } else {
        assert((a + b)[0] == a[0]);
        assert((a + b).drop_first() =~= a.drop_first() + b);
        lemma_first_named_concat(a.drop_first(), b, name);
    }
}

/// A name that no material of the list has is not found in it.
proof fn lemma_first_named_none(ms: Seq<MaterialView>, name: Seq<char>)
    requires
        forall|j: int| 0 <= j < ms.len() ==> (#[trigger] ms[j]).name != name,
    ensures
        first_named(ms, name) is None,
    decreases ms.len(),
{
    if ms.len() > 0 {
        assert forall|j: int| 0 <= j < ms.drop_first().len() implies (#[trigger] ms.drop_first()[j]).name != name by {
            assert(ms.drop_first()[j] == ms[j + 1]);
        }
        lemma_first_named_none(ms.drop_first(), name);
    }
}

/// The first material of the list with the name is found.
proof fn lemma_first_named_at(ms: Seq<MaterialView>, name: Seq<char>, k: int)
    requires
        0 <= k < ms.len(),
        ms[k].name == name,
        forall|j: int| 0 <= j < k ==> (#[trigger] ms[j]).name != name,
    ensures
        first_named(ms, name) == Some(ms[k]),
{
    lemma_first_named_none(ms.take(k), name);
    assert(ms =~= ms.take(k) + ms.skip(k));
    lemma_first_named_concat(ms.take(k), ms.skip(k), name);
    assert(ms.skip(k)[0] == ms[k]);
}

/// The materials that the libraries before library `i` loaded, and those it loaded.
proof fn lemma_loaded_split<E>(outcomes: Seq<Result<Vec<Arc<Material>>, E>>, i: int)
    requires
        0 <= i < outcomes.len(),
    ensures
        loaded_materials(outcomes.take(i + 1)) == loaded_materials(outcomes.take(i)) + match outcomes[i] {
            Ok(ms) => material_views(ms@),
            Err(_) => seq![],
        },
{
    assert(outcomes.take(i + 1).drop_last() =~= outcomes.take(i));
    assert(outcomes.take(i + 1).last() == outcomes[i]);
}

/// The materials that two runs of libraries loaded, one after the other.
proof fn lemma_loaded_concat<E>(a: Seq<Result<Vec<Arc<Material>>, E>>, b: Seq<Result<Vec<Arc<Material>>, E>>)
    ensures
        loaded_materials(a + b) == loaded_materials(a) + loaded_materials(b),
    decreases b.len(),
{
    if b.len() == 0 {
        assert(a + b =~= a);
        assert(loaded_materials(a) + loaded_materials(b) =~= loaded_materials(a));
    } else {
        lemma_loaded_concat(a, b.drop_last());
        assert((a + b).drop_last() =~= a + b.drop_last());
        assert((a + b).last() == b.last());
    }
}

/// The first library listed that defines a material name gives the material of that
/// name: when library `i` loaded, as its `k`-th material, one named `name`, and neither
/// an earlier library nor an earlier material of library `i` has that name, a group that
/// uses `name` takes that material once the results are applied.
pub proof fn lemma_first_library_wins<E>(
    outcomes: Seq<Result<Vec<Arc<Material>>, E>>,
    i: int,
    k: int,
    name: Seq<char>,
)
    requires
        0 <= i < outcomes.len(),
        outcomes[i] is Ok,
        0 <= k < outcomes[i]->Ok_0@.len(),
        (*outcomes[i]->Ok_0@[k])@.name == name,
        forall|j: int| 0 <= j < k ==> (#[trigger] (*outcomes[i]->Ok_0@[j])@).name != name,
        forall|j: int, m: int|
            0 <= j < i && outcomes[j] is Ok && 0 <= m < outcomes[j]->Ok_0@.len() ==> (#[trigger] (
            *outcomes[j]->Ok_0@[m])@).name != name,
    ensures
        assigned(Some(ObjMaterialView::Ref(name)), loaded_materials(outcomes)) == Some(
            ObjMaterialView::Mtl((*outcomes[i]->Ok_0@[k])@),
        ),
{
    let before = loaded_materials(outcomes.take(i));
    let own = material_views(outcomes[i]->Ok_0@);
    assert forall|x: int| 0 <= x < before.len() implies (#[trigger] before[x]).name != name by {
        lemma_loaded_names(outcomes, i, name);
    }
    lemma_first_named_none(before, name);
    assert forall|j: int| 0 <= j < k implies (#[trigger] own[j]).name != name by {
        assert(own[j] == (*outcomes[i]->Ok_0@[j])@);
    }
    lemma_first_named_at(own, name, k);
    lemma_loaded_split(outcomes, i);
    lemma_first_named_concat(before, own, name);
    assert(outcomes =~= outcomes.take(i + 1) + outcomes.skip(i + 1));
    lemma_loaded_concat(outcomes.take(i + 1), outcomes.skip(i + 1));
    lemma_first_named_concat(before + own, loaded_materials(outcomes.skip(i + 1)), name);
}

/// No material that the first `i` libraries loaded has a name that none of their lists has.
proof fn lemma_loaded_names<E>(outcomes: Seq<Result<Vec<Arc<Material>>, E>>, i: int, name: Seq<char>)
    requires
        0 <= i <= outcomes.len(),
        forall|j: int, m: int|
            0 <= j < i && outcomes[j] is Ok && 0 <= m < outcomes[j]->Ok_0@.len() ==> (#[trigger] (
            *outcomes[j]->Ok_0@[m])@).name != name,
    ensures
        forall|x: int|
            0 <= x < loaded_materials(outcomes.take(i)).len() ==> (#[trigger] loaded_materials(
                outcomes.take(i),
            )[x]).name != name,
    decreases i,
{
    if i > 0 {
        lemma_loaded_names(outcomes, i - 1, name);
        lemma_loaded_split(outcomes, i - 1);
        let a = loaded_materials(outcomes.take(i - 1));
        let l = loaded_materials(outcomes.take(i));
        assert forall|x: int| 0 <= x < l.len() implies (#[trigger] l[x]).name != name by {
            if x < a.len() {
                assert(l[x] == a[x]);
            } else {
                let ms = outcomes[i - 1]->Ok_0;
                assert(outcomes[i - 1] is Ok);
                assert(l[x] == material_views(ms@)[x - a.len()]);
                assert(material_views(ms@)[x - a.len()] == (*ms@[x - a.len()])@);
            }
        }
    } else {
        assert(outcomes.take(0) =~= Seq::<Result<Vec<Arc<Material>>, E>>::empty());
    }
}

/// A group whose material name no loaded library defines keeps its name.
pub proof fn lemma_unknown_name_kept<E>(outcomes: Seq<Result<Vec<Arc<Material>>, E>>, name: Seq<char>)
    requires
        forall|j: int, m: int|
            0 <= j < outcomes.len() && outcomes[j] is Ok && 0 <= m < outcomes[j]->Ok_0@.len() ==> (#[trigger] (
            *outcomes[j]->Ok_0@[m])@).name != name,
    ensures
        assigned(Some(ObjMaterialView::Ref(name)), loaded_materials(outcomes)) == Some(ObjMaterialView::Ref(name)),
{
    lemma_loaded_names(outcomes, outcomes.len() as int, name);
    assert(outcomes.take(outcomes.len() as int) =~= outcomes);
    lemma_first_named_none(loaded_materials(outcomes), name);
}

} // verus!

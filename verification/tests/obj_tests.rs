use std::sync::Arc;

use genmesh::Polygon;
use obj::materials::MtlLibsLoadError;
use obj::mtl::{Material, Mtl};
use obj::parse::{debug_option_text, join_spaced, would_panic, ObjParser};
use obj::types::normalize;
use obj::{GenPolygon, Group, IndexTuple, ObjData, ObjError, ObjMaterial, Object, SimplePolygon, WriteToBuf};

fn load(text: &str) -> Result<ObjData<SimplePolygon>, ObjError> {
    ObjData::<SimplePolygon>::load_str(text)
}

fn strings3(a: &str, b: &str, c: &str) -> [String; 3] {
    [a.to_string(), b.to_string(), c.to_string()]
}

fn tri(a: usize, b: usize, c: usize) -> Vec<IndexTuple> {
    vec![IndexTuple(a, None, None), IndexTuple(b, None, None), IndexTuple(c, None, None)]
}

const CUBE_SIDE: &str = "v 0 0 0\nv 1 0 0\nv 1 1 0\nv 0 1 0\n";

#[test]
fn reads_vertices_and_one_face() {
    let d = load("v 1 2 3\nv 4 5 6\nv 7 8 9\nf 1 2 3\n").unwrap();
    assert_eq!(d.position.len(), 3);
    assert_eq!(d.position[0], strings3("1", "2", "3"));
    assert_eq!(d.position[2], strings3("7", "8", "9"));
    assert_eq!(d.objects.len(), 1);
    assert_eq!(d.objects[0].name, "default");
    assert_eq!(d.objects[0].groups.len(), 1);
    assert_eq!(d.objects[0].groups[0].name, "default");
    assert_eq!(d.objects[0].groups[0].index, 0);
    assert!(d.objects[0].groups[0].material.is_none());
    assert_eq!(d.objects[0].groups[0].polys, vec![tri(0, 1, 2)]);
    assert!(d.material_libs.is_empty());
}

#[test]
fn empty_text_gives_one_empty_default_object() {
    let d = load("").unwrap();
    assert!(d.position.is_empty());
    assert_eq!(d.objects.len(), 1);
    assert_eq!(d.objects[0].name, "default");
    assert!(d.objects[0].groups.is_empty());
}

#[test]
fn reads_texture_and_normal_indices() {
    let text = format!("{}vt 0 0\nvt 1 0\nvn 0 0 1\nf 1/1/1 2/2/1 3//1 4/2\n", CUBE_SIDE);
    let d = load(&text).unwrap();
    assert_eq!(d.texture.len(), 2);
    assert_eq!(d.texture[1], ["1".to_string(), "0".to_string()]);
    assert_eq!(d.normal.len(), 1);
    let face = &d.objects[0].groups[0].polys[0];
    assert_eq!(face[0], IndexTuple(0, Some(0), Some(0)));
    assert_eq!(face[1], IndexTuple(1, Some(1), Some(0)));
    assert_eq!(face[2], IndexTuple(2, None, Some(0)));
    assert_eq!(face[3], IndexTuple(3, Some(1), None));
}

#[test]
fn negative_indices_count_from_the_end() {
    let text = format!("{}f -1 -2 -4\n", CUBE_SIDE);
    let d = load(&text).unwrap();
    assert_eq!(d.objects[0].groups[0].polys[0], tri(3, 2, 0));
}

#[test]
fn normalize_values() {
    assert_eq!(normalize(1, 5), 0);
    assert_eq!(normalize(5, 5), 4);
    assert_eq!(normalize(-1, 5), 4);
    assert_eq!(normalize(-5, 5), 0);
    assert_eq!(normalize(-1, 0), usize::MAX);
}

#[test]
fn objects_groups_and_materials() {
    let text = format!(
        "mtllib cube.mtl\n{}o cube\ng side\nusemtl red\nf 1 2 3\nusemtl blue\nf 1 3 4\ng top\nf 2 3 4\n",
        CUBE_SIDE
    );
    let d = load(&text).unwrap();
    assert_eq!(d.material_libs.len(), 1);
    assert_eq!(d.material_libs[0].filename, "cube.mtl");
    assert!(d.material_libs[0].materials.is_empty());
    assert_eq!(d.objects.len(), 1);
    let o = &d.objects[0];
    assert_eq!(o.name, "cube");
    assert_eq!(o.groups.len(), 3);
    assert_eq!(o.groups[0].name, "side");
    assert_eq!(o.groups[0].index, 0);
    assert_eq!(o.groups[0].material, Some(ObjMaterial::Ref("red".to_string())));
    assert_eq!(o.groups[0].polys, vec![tri(0, 1, 2)]);
    assert_eq!(o.groups[1].name, "side");
    assert_eq!(o.groups[1].index, 1);
    assert_eq!(o.groups[1].material, Some(ObjMaterial::Ref("blue".to_string())));
    assert_eq!(o.groups[1].polys, vec![tri(0, 2, 3)]);
    assert_eq!(o.groups[2].name, "top");
    assert_eq!(o.groups[2].index, 0);
    assert!(o.groups[2].material.is_none());
}

#[test]
fn usemtl_without_group_opens_default_group() {
    let text = format!("{}usemtl red\nf 1 2 3\n", CUBE_SIDE);
    let d = load(&text).unwrap();
    let g = &d.objects[0].groups[0];
    assert_eq!(g.name, "default");
    assert_eq!(g.material, Some(ObjMaterial::Ref("red".to_string())));
    assert_eq!(g.polys.len(), 1);
}

#[test]
fn object_names_are_trimmed_and_may_hold_spaces() {
    let text = format!("{}o   my cube  \nf 1 2 3\ng  a b \nf 1 2 3\n", CUBE_SIDE);
    let d = load(&text).unwrap();
    assert_eq!(d.objects[0].name, "my cube");
    assert_eq!(d.objects[0].groups[1].name, "a b");
}

#[test]
fn an_object_closed_by_a_bare_g_is_kept_at_the_next_o() {
    let text = format!("{}o a\nf 1 2 3\ng\no b\nf 1 2 3\n", CUBE_SIDE);
    let d = load(&text).unwrap();
    assert_eq!(d.objects.len(), 2);
    assert_eq!(d.objects[0].name, "a");
    assert_eq!(d.objects[0].groups.len(), 1);
    assert_eq!(d.objects[1].name, "b");
}

#[test]
fn the_top_level_object_is_kept_after_a_bare_g() {
    let d = load("v 0 0 0\nv 1 0 0\nv 0 1 0\ng a\nf 1 2 3\ng\no c\n").unwrap();
    assert_eq!(d.objects.len(), 2);
    assert_eq!(d.objects[0].name, "default");
    assert_eq!(d.objects[0].groups[0].name, "a");
    assert_eq!(d.objects[0].groups[0].polys.len(), 1);
    assert_eq!(d.objects[1].name, "c");
}

#[test]
fn an_object_without_groups_is_not_kept() {
    let d = load("o a\no b\n").unwrap();
    assert_eq!(d.objects.len(), 1);
    assert_eq!(d.objects[0].name, "b");
}

#[test]
fn short_o_line_names_the_default_object() {
    let text = format!("{}o x\nf 1 2 3\no\nf 1 2 4\n", CUBE_SIDE);
    let d = load(&text).unwrap();
    assert_eq!(d.objects.len(), 2);
    assert_eq!(d.objects[0].name, "x");
    assert_eq!(d.objects[1].name, "default");
}

#[test]
fn comments_and_smoothing_and_lines_are_ignored() {
    let text = format!("# a comment\n{}#another\ns off\nl 1 2\n\nf 1 2 3\n", CUBE_SIDE);
    let d = load(&text).unwrap();
    assert_eq!(d.objects[0].groups[0].polys.len(), 1);
}

#[test]
fn mtllib_names_join_words_with_single_spaces() {
    let d = load("mtllib My   File.mtl\nmtllib b.mtl\n").unwrap();
    assert_eq!(d.material_libs.len(), 2);
    assert_eq!(d.material_libs[0].filename, "My File.mtl");
    assert_eq!(d.material_libs[1].filename, "b.mtl");
}

#[test]
fn windows_line_endings_are_read() {
    let d = load("v 1 2 3\r\nv 4 5 6\r\nv 7 8 9\r\nf 1 2 3\r\n").unwrap();
    assert_eq!(d.position[2], strings3("7", "8", "9"));
    assert_eq!(d.objects[0].groups[0].polys[0], tri(0, 1, 2));
}

#[test]
fn float_forms_are_accepted() {
    let d = load("v -1.5e3 +2. .25\nv inf NaN -infinity\n").unwrap();
    assert_eq!(d.position[0], strings3("-1.5e3", "+2.", ".25"));
    assert_eq!(d.position[1], strings3("inf", "NaN", "-infinity"));
}

#[test]
fn error_unexpected_command() {
    let r = load("v 1 2 3\nbogus 1 2\n");
    match r {
        Err(ObjError::UnexpectedCommand { line_number, command }) => {
            assert_eq!(line_number, 1);
            assert_eq!(command, "bogus");
        },
        other => panic!("unexpected result: {:?}", other),
    }
}

#[test]
fn error_missing_argument() {
    let r = load("\nv 1 2\n");
    match r {
        Err(ObjError::ArgumentListFailure { line_number, list }) => {
            assert_eq!(line_number, 1);
            assert_eq!(list, "Some(\"1\") Some(\"2\") None");
        },
        other => panic!("unexpected result: {:?}", other),
    }
}

#[test]
fn error_unparsable_argument() {
    let r = load("vt 1 x\n");
    match r {
        Err(ObjError::ArgumentListFailure { line_number, list }) => {
            assert_eq!(line_number, 0);
            assert_eq!(list, "\"1\" \"x\"");
        },
        other => panic!("unexpected result: {:?}", other),
    }
}

#[test]
fn error_malformed_face_group() {
    let text = format!("{}f 1 2 x/1\n", CUBE_SIDE);
    match load(&text) {
        Err(ObjError::MalformedFaceGroup { line_number, group }) => {
            assert_eq!(line_number, 4);
            assert_eq!(group, "x/1");
        },
        other => panic!("unexpected result: {:?}", other),
    }
}

#[test]
fn error_missing_mtl_name() {
    match load("mtllib\n") {
        Err(ObjError::MissingMTLName { line_number }) => assert_eq!(line_number, 0),
        other => panic!("unexpected result: {:?}", other),
    }
}

#[test]
fn error_too_many_vertices_for_genmesh() {
    let text = format!("{}v 2 2 2\nf 1 2 3 4 5\n", CUBE_SIDE);
    match ObjData::<Polygon<IndexTuple>>::load_str(&text) {
        Err(ObjError::GenMeshTooManyVertsInPolygon { line_number, vert_count }) => {
            assert_eq!(line_number, 5);
            assert_eq!(vert_count, 5);
        },
        Err(e) => panic!("unexpected error: {}", e.message()),
        Ok(_) => panic!("a pentagon was accepted"),
    }
}

#[test]
fn genmesh_triangles_and_quads() {
    let text = format!("{}f 1 2 3\nf 1 2 3 4\n", CUBE_SIDE);
    let d = ObjData::<Polygon<IndexTuple>>::load_str(&text).ok().unwrap();
    let polys = &d.objects[0].groups[0].polys;
    match &polys[0] {
        Polygon::PolyTri(t) => {
            assert_eq!((t.x, t.y, t.z), (IndexTuple(0, None, None), IndexTuple(1, None, None), IndexTuple(2, None, None)))
        },
        _ => panic!("expected a triangle"),
    }
    match &polys[1] {
        Polygon::PolyQuad(q) => assert_eq!(q.w, IndexTuple(3, None, None)),
        _ => panic!("expected a quad"),
    }
}

#[test]
fn genmesh_try_new_rejects_two_corners() {
    let r = <Polygon<IndexTuple> as GenPolygon>::try_new(7, tri(0, 1, 2)[..2].to_vec());
    match r {
        Err(ObjError::GenMeshTooManyVertsInPolygon { line_number, vert_count }) => {
            assert_eq!(line_number, 7);
            assert_eq!(vert_count, 2);
        },
        _ => panic!("two corners were accepted"),
    }
    let p = <Polygon<IndexTuple> as GenPolygon>::new(0, tri(4, 5, 6));
    let mut out = String::new();
    p.write_to_buf(&mut out);
    assert_eq!(out, "f 5 6 7\n");
}

#[test]
fn genmesh_quad_is_written_with_four_corners() {
    let q = vec![
        IndexTuple(0, None, None),
        IndexTuple(1, None, None),
        IndexTuple(2, None, None),
        IndexTuple(3, None, None),
    ];
    let p = <Polygon<IndexTuple> as GenPolygon>::new(0, q);
    let mut out = String::new();
    p.write_to_buf(&mut out);
    assert_eq!(out, "f 1 2 3 4\n");
}

#[test]
fn index_tuple_text() {
    assert_eq!(IndexTuple(0, None, None).to_string(), "1");
    assert_eq!(IndexTuple(0, Some(1), None).to_string(), "1/2");
    assert_eq!(IndexTuple(0, Some(1), Some(2)).to_string(), "1/2/3");
    assert_eq!(IndexTuple(9, None, Some(41)).to_string(), "10//42");
}

#[test]
fn simple_polygon_is_written_as_f_line() {
    let p: SimplePolygon = vec![IndexTuple(0, Some(0), None), IndexTuple(1, Some(1), None), IndexTuple(2, None, Some(2))];
    let mut out = String::new();
    p.write_to_buf(&mut out);
    assert_eq!(out, "f 1/1 2/2 3//3\n");
}

fn sample() -> ObjData<SimplePolygon> {
    let mut d: ObjData<SimplePolygon> = ObjData::default();
    d.position.push(strings3("0", "0", "0"));
    d.position.push(strings3("1", "0", "0"));
    d.position.push(strings3("0", "1.5", "0"));
    d.texture.push(["0".to_string(), "1".to_string()]);
    d.normal.push(strings3("0", "0", "1"));
    let mut g = Group::new("front".to_string());
    g.material = Some(ObjMaterial::Ref("red".to_string()));
    g.polys.push(vec![IndexTuple(0, Some(0), Some(0)), IndexTuple(1, Some(0), Some(0)), IndexTuple(2, None, None)]);
    let mut g2 = Group::new("front".to_string());
    g2.index = 1;
    g2.material = Some(ObjMaterial::Ref("blue".to_string()));
    g2.polys.push(tri(2, 1, 0));
    let mut o = Object::new("tri".to_string());
    o.groups.push(g);
    o.groups.push(g2);
    d.objects.push(o);
    d.material_libs.push(Mtl::new("tri.mtl".to_string()));
    d
}

#[test]
fn writes_the_expected_text() {
    let d = sample();
    let mut out = String::new();
    d.write_to_buf(&mut out);
    let expected = "# Generated by the obj Rust library (https://crates.io/crates/obj).\n\
                    v 0 0 0\nv 1 0 0\nv 0 1.5 0\nvt 0 1\nvn 0 0 1\n\
                    o tri\ng front\nusemtl red\nf 1/1/1 2/1/1 3\nusemtl blue\nf 3 2 1\n\
                    mtllib tri.mtl\n";
    assert_eq!(out, expected);
}

#[test]
fn default_object_has_no_o_line() {
    let mut d: ObjData<SimplePolygon> = ObjData::default();
    let mut o = Object::new("default".to_string());
    o.groups.push(Group::new("g1".to_string()));
    d.objects.push(o);
    let mut out = String::new();
    d.write_to_buf(&mut out);
    assert_eq!(out, "# Generated by the obj Rust library (https://crates.io/crates/obj).\ng g1\n");
}

#[test]
fn written_text_reads_back() {
    let d = sample();
    let mut out = String::new();
    d.write_to_buf(&mut out);
    let back = load(&out).unwrap();
    assert!(back == d);
}

#[test]
fn read_text_writes_and_reads_back() {
    let text = format!("{}o cube\ng side\nusemtl red\nf 1 2 3\nusemtl blue\nf 1 3 4\ng top\nf 2 3 4\n", CUBE_SIDE);
    let d = load(&text).unwrap();
    let mut out = String::new();
    d.write_to_buf(&mut out);
    let back = load(&out).unwrap();
    assert!(back == d);
}

#[test]
fn parser_reads_line_by_line() {
    let mut p: ObjParser<SimplePolygon> = ObjParser::new();
    for line in ["v 1 2 3", "v 1 2 3", "v 1 2 3", "g g", "f 1 2 3"] {
        assert!(!would_panic(line));
        p.feed_line(line).unwrap();
    }
    assert_eq!(p.lines_read, 5);
    let d = p.finish();
    assert_eq!(d.objects[0].groups[0].name, "g");
    assert_eq!(d.objects[0].groups[0].polys, vec![tri(0, 1, 2)]);
}

#[test]
fn lines_that_would_not_complete() {
    assert!(would_panic("f 1 0 2"));
    assert!(would_panic("f 1/0 2 3"));
    assert!(would_panic("g\u{a0}x"));
    assert!(!would_panic("o\u{a0}x"));
    assert!(!would_panic("f x 0"));
    assert!(!would_panic("o ab"));
    assert!(!would_panic("g a"));
    assert!(!would_panic("v 0 0 0"));
    assert!(!would_panic(""));
}

#[test]
fn error_messages() {
    let e = ObjError::MalformedFaceGroup { line_number: 3, group: "x".to_string() };
    assert_eq!(e.message(), "One of the arguments to `f` is malformed (line: 3, group: x)");
    let e = ObjError::ArgumentListFailure { line_number: 12, list: "\"a\"".to_string() };
    assert_eq!(
        e.message(),
        "An argument list either has unparsable arguments or is missing arguments. (line: 12, list: \"a\")"
    );
    let e = ObjError::UnexpectedCommand { line_number: 0, command: "q".to_string() };
    assert_eq!(e.message(), "Command found that is not in the .obj spec. (line: 0, command: q)");
    let e = ObjError::MissingMTLName { line_number: 7 };
    assert_eq!(e.message(), "mtllib command issued, but no name was specified. (line: 7)");
    let e = ObjError::GenMeshTooManyVertsInPolygon { line_number: 2, vert_count: 5 };
    assert_eq!(e.message(), "[`genmesh::Polygon`] only supports triangles and squares. (line: 2, vertex count: 5");
    let e = ObjError::Io(std::io::Error::new(std::io::ErrorKind::Other, "boom"));
    assert_eq!(e.message(), "I/O error loading a .obj file: boom");
}

fn material(name: &str) -> Arc<Material> {
    Arc::new(Material { name: name.to_string() })
}

#[test]
fn loaded_materials_replace_names_first_library_wins() {
    let text = format!(
        "mtllib a.mtl\nmtllib b.mtl\nmtllib c.mtl\n{}usemtl red\nf 1 2 3\ng other\nusemtl green\nf 1 2 3\ng third\nusemtl none\nf 1 2 3\n",
        CUBE_SIDE
    );
    let mut d = load(&text).unwrap();
    let red_a = material("red");
    let red_c = material("red");
    let green_c = material("green");
    let outcomes: Vec<Result<Vec<Arc<Material>>, String>> =
        vec![Ok(vec![red_a.clone()]), Err("missing".to_string()), Ok(vec![red_c.clone(), green_c.clone()])];
    let r = d.apply_mtl_results(outcomes);
    match r {
        Err(MtlLibsLoadError(errs)) => {
            assert_eq!(errs, vec![("b.mtl".to_string(), "missing".to_string())]);
        },
        Ok(()) => panic!("the failed library was not reported"),
    }
    assert_eq!(d.material_libs[0].materials.len(), 1);
    assert!(d.material_libs[1].materials.is_empty());
    assert_eq!(d.material_libs[2].materials.len(), 2);
    let gs = &d.objects[0].groups;
    match &gs[0].material {
        Some(ObjMaterial::Mtl(m)) => assert!(Arc::ptr_eq(m, &red_a)),
        other => panic!("unexpected material {:?}", other),
    }
    match &gs[1].material {
        Some(ObjMaterial::Mtl(m)) => assert!(Arc::ptr_eq(m, &green_c)),
        other => panic!("unexpected material {:?}", other),
    }
    assert_eq!(gs[2].material, Some(ObjMaterial::Ref("none".to_string())));
}

#[test]
fn all_libraries_loading_gives_ok() {
    let mut d = load("mtllib a.mtl\nusemtl m\n").unwrap();
    let outcomes: Vec<Result<Vec<Arc<Material>>, String>> = vec![Ok(vec![material("m")])];
    assert!(d.apply_mtl_results(outcomes).is_ok());
    assert_eq!(d.objects[0].groups[0].material, Some(ObjMaterial::Mtl(material("m"))));
    assert_eq!(d.objects[0].groups[0].material.as_ref().unwrap().name(), "m");
}

#[test]
fn constructors() {
    let g: Group<SimplePolygon> = Group::new("x".to_string());
    assert_eq!((g.name.as_str(), g.index, g.material.is_none(), g.polys.len()), ("x", 0, true, 0));
    let o: Object<SimplePolygon> = Object::new("y".to_string());
    assert_eq!((o.name.as_str(), o.groups.len()), ("y", 0));
    let m = Mtl::new("z.mtl".to_string());
    assert_eq!((m.filename.as_str(), m.materials.len()), ("z.mtl", 0));
    let d: ObjData<SimplePolygon> = ObjData::default();
    assert!(d.position.is_empty() && d.texture.is_empty() && d.normal.is_empty());
    assert!(d.objects.is_empty() && d.material_libs.is_empty());
}

#[test]
fn option_debug_text_and_argument_lists() {
    assert_eq!(debug_option_text(Some("\"a\"".to_string())), "Some(\"a\")");
    assert_eq!(debug_option_text(None), "None");
    let parts = vec!["Some(\"1\")".to_string(), "None".to_string(), "None".to_string()];
    assert_eq!(join_spaced(&parts), "Some(\"1\") None None");
    assert_eq!(join_spaced(&vec!["x".to_string()]), "x");
    assert_eq!(join_spaced(&Vec::new()), "");
}

#[test]
fn escaped_arguments_in_error_lists() {
    match load("v 1 2 \"q\"\n") {
        Err(ObjError::ArgumentListFailure { list, .. }) => assert_eq!(list, "\"1\" \"2\" \"\\\"q\\\"\""),
        other => panic!("unexpected result: {:?}", other),
    }
}

#[test]
fn error_conversions() {
    let e: ObjError = std::io::Error::new(std::io::ErrorKind::NotFound, "gone").into();
    assert!(matches!(e, ObjError::Io(_)));
    let errs: MtlLibsLoadError<String> = vec![("a.mtl".to_string(), "bad".to_string())].into();
    assert_eq!(errs.0.len(), 1);
    assert_eq!(errs.0[0].0, "a.mtl");
}

#[test]
fn normal_without_texture_reads_back() {
    let mut d = sample();
    d.objects[0].groups[1].polys.push(vec![IndexTuple(0, None, Some(0)), IndexTuple(1, None, Some(0)), IndexTuple(2, None, None)]);
    let mut out = String::new();
    d.write_to_buf(&mut out);
    assert!(out.contains("f 1//1 2//1 3\n"));
    let back = load(&out).unwrap();
    assert!(back == d);
}

#[test]
fn genmesh_quads_read_back() {
    let text = format!("{}f 1 2 3 4\nf 4 3 2\n", CUBE_SIDE);
    let d = ObjData::<Polygon<IndexTuple>>::load_str(&text).ok().unwrap();
    let mut out = String::new();
    d.write_to_buf(&mut out);
    assert!(out.ends_with("g default\nf 1 2 3 4\nf 4 3 2\n"));
    let back = ObjData::<Polygon<IndexTuple>>::load_str(&out).ok().unwrap();
    assert!(back == d);
}

#[test]
fn checked_loading() {
    assert!(ObjData::<SimplePolygon>::try_load_str("v 0 0 0\nf 1 0 1\n").is_none());
    assert!(ObjData::<SimplePolygon>::try_load_str("g\u{a0}x\n").is_none());
    match ObjData::<SimplePolygon>::try_load_str("bogus\nf 0\n") {
        Some(Err(ObjError::UnexpectedCommand { line_number, .. })) => assert_eq!(line_number, 0),
        _ => panic!("the error before the bad face was not reported"),
    }
    let d = ObjData::<SimplePolygon>::try_load_str(CUBE_SIDE).unwrap().unwrap();
    assert_eq!(d.position.len(), 4);
}

#[test]
fn writability_is_tested() {
    let d = sample();
    assert!(d.is_writable());
    let mut bad = sample();
    bad.objects[0].groups[1].name = "other".to_string();
    assert!(!bad.is_writable());
    let mut big = sample();
    big.objects[0].groups[0].polys.push(vec![IndexTuple(usize::MAX, None, None)]);
    assert!(!big.is_writable());
    assert!(obj::write::tuple_is_writable(&IndexTuple(0, Some(1), None)));
    assert!(!obj::write::tuple_is_writable(&IndexTuple(0, None, Some(usize::MAX))));
}

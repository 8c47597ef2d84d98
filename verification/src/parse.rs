//! Reading `.obj` text.
use vstd::prelude::*;
use crate::mtl::{Mtl, MtlView};
use crate::number::{debug_str, debug_string, is_float_literal, is_float_token, parse_isize, parsed_isize};
use crate::text::{
    after_bytes, byte_len, byte_len_exceeds, chars_in_bytes, chars_of, chars_within_bytes, join_with_spaces,
    join_words_from, lemma_chars_in_bytes_bound, lemma_words_are_words, lines_of, push_char, split_at_char,
    split_char, split_lines, split_words, string_of, trim, trimmed_string_from, views, words,
};
use crate::types::{
    coords2_view, coords3_view, empty_data, normalize, normalized, GenPolygon, Group, GroupView, IndexTuple,
    ObjData, ObjDataView, ObjError, ObjErrorView, ObjMaterial, ObjMaterialView, Object, ObjectView,
    SimplePolygon,
};

verus! {

// ---------------------------------------------------------------------------
// The meaning of a line
/// The commands of the `.obj` format that the reader knows.
pub enum Command {
    V,
    Vt,
    Vn,
    F,
    O,
    G,
    Mtllib,
    Usemtl,
    S,
    L,
    Other,
}

pub open spec fn command_of(w: Seq<char>) -> Command {
    if w == seq!['v'] {
        Command::V
    } else if w == seq!['v', 't'] {
        Command::Vt
    } else if w == seq!['v', 'n'] {
        Command::Vn
    } else if w == seq!['f'] {
        Command::F
    } else if w == seq!['o'] {
        Command::O
    } else if w == seq!['g'] {
        Command::G
    } else if w == seq!['m', 't', 'l', 'l', 'i', 'b'] {
        Command::Mtllib
    } else if w == seq!['u', 's', 'e', 'm', 't', 'l'] {
        Command::Usemtl
    } else if w == seq!['s'] {
        Command::S
    } else if w == seq!['l'] {
        Command::L
    } else {
        Command::Other
    }
}

/// The name of the objects and groups that the file does not name.
pub open spec fn default_name() -> Seq<char> {
    seq!['d', 'e', 'f', 'a', 'u', 'l', 't']
}

pub open spec fn new_group(name: Seq<char>) -> GroupView {
    GroupView { name, index: 0, material: None, polys: seq![] }
}

pub open spec fn new_object(name: Seq<char>) -> ObjectView {
    ObjectView { name, groups: seq![] }
}

/// `o` with `g` appended to its groups, if there is one.
pub open spec fn add_group(o: ObjectView, g: Option<GroupView>) -> ObjectView {
    match g {
        Some(g) => ObjectView { groups: o.groups.push(g), ..o },
        None => o,
    }
}

/// The `i`-th word of `ws`, if there is one.
pub open spec fn arg(ws: Seq<Seq<char>>, i: int) -> Option<Seq<char>> {
    if 0 <= i < ws.len() {
        Some(ws[i])
    } else {
        None
    }
}

/// `{:?}` of an `Option<&str>`.
pub open spec fn debug_opt(o: Option<Seq<char>>) -> Seq<char> {
    match o {
        Some(s) => seq!['S', 'o', 'm', 'e', '('] + debug_str(s) + seq![')'],
        None => seq!['N', 'o', 'n', 'e'],
    }
}

/// The coordinates of a `v`, `vt` or `vn` command from its arguments: the error names
/// the missing arguments, or the arguments when one is not a number.
pub open spec fn parsed_coords(line_number: usize, args: Seq<Option<Seq<char>>>) -> Result<
    Seq<Seq<char>>,
    ObjErrorView,
> {
    if forall|i: int| 0 <= i < args.len() ==> (#[trigger] args[i]) is Some {
        let toks = args.map_values(|a: Option<Seq<char>>| a->0);
        if forall|i: int| 0 <= i < toks.len() ==> is_float_literal(#[trigger] toks[i]) {
            Ok(toks)
        } else {
            Err(
                ObjErrorView::ArgumentListFailure {
                    line_number,
                    list: join_with_spaces(toks.map_values(|t: Seq<char>| debug_str(t))),
                },
            )
        }
    } else {
        Err(
            ObjErrorView::ArgumentListFailure {
                line_number,
                list: join_with_spaces(args.map_values(|a: Option<Seq<char>>| debug_opt(a))),
            },
        )
    }
}

/// The `/`-separated parts of a face corner.
pub open spec fn pieces(g: Seq<char>) -> Seq<Seq<char>> {
    split_at_char(g, '/')
}

/// The position index written in a face corner.
pub open spec fn index_p(g: Seq<char>) -> Option<isize> {
    parsed_isize(pieces(g)[0])
}

/// The texture index written in a face corner (an empty part means none).
pub open spec fn index_t(g: Seq<char>) -> Option<isize> {
    let ps = pieces(g);
    if ps.len() > 1 && ps[1].len() > 0 {
        parsed_isize(ps[1])
    } else {
        None
    }
}

/// The normal index written in a face corner.
pub open spec fn index_n(g: Seq<char>) -> Option<isize> {
    let ps = pieces(g);
    if ps.len() > 2 {
        parsed_isize(ps[2])
    } else {
        None
    }
}

pub open spec fn opt_normalized(o: Option<isize>, len: nat) -> Option<usize> {
    match o {
        Some(i) => Some(normalized(i, len)),
        None => None,
    }
}

/// The corner a face group denotes, given the data read so far; `None` when it has no
/// valid position index.
pub open spec fn parsed_group(d: ObjDataView, g: Seq<char>) -> Option<IndexTuple> {
    match index_p(g) {
        Some(p) => Some(
            IndexTuple(
                normalized(p, d.position.len()),
                opt_normalized(index_t(g), d.texture.len()),
                opt_normalized(index_n(g), d.normal.len()),
            ),
        ),
        None => None,
    }
}

/// A face group whose reading does not complete: an index `0` cannot be made zero-based.
pub open spec fn group_panics(g: Seq<char>) -> bool {
    &&& index_p(g) is Some
    &&& {
        ||| index_p(g) == Some(0isize)
        ||| index_t(g) == Some(0isize)
        ||| index_n(g) == Some(0isize)
    }
}

/// The corners of a face from its groups `gs`.
pub open spec fn parsed_corners(d: ObjDataView, line_number: usize, gs: Seq<Seq<char>>) -> Result<
    Seq<IndexTuple>,
    ObjErrorView,
>
    decreases gs.len(),
{
    if gs.len() == 0 {
        Ok(seq![])
    } else {
        match parsed_group(d, gs[0]) {
            None => Err(ObjErrorView::MalformedFaceGroup { line_number, group: gs[0] }),
            Some(t) => match parsed_corners(d, line_number, gs.drop_first()) {
                Ok(r) => Ok(seq![t] + r),
                Err(e) => Err(e),
            },
        }
    }
}

/// Reading the face groups `gs` reaches a group that panics before any that is malformed.
pub open spec fn face_panics(gs: Seq<Seq<char>>) -> bool
    decreases gs.len(),
{
    if gs.len() == 0 || index_p(gs[0]) is None {
        false
    } else {
        group_panics(gs[0]) || face_panics(gs.drop_first())
    }
}

/// The face read from the groups `gs`, as the corners of the polygon that holds it.
pub open spec fn parsed_face<P: GenPolygon>(
    d: ObjDataView,
    line_number: usize,
    gs: Seq<Seq<char>>,
) -> Result<Seq<IndexTuple>, ObjErrorView> {
    match parsed_corners(d, line_number, gs) {
        Ok(c) => if P::accepts(c) {
            Ok(c)
        } else {
            Err(P::rejection(line_number, c))
        },
        Err(e) => Err(e),
    }
}

/// What the reader holds between lines: the data so far, the current object and the
/// current group.
#[verifier::ext_equal]
pub struct ParseState {
    pub dat: ObjDataView,
    pub object: ObjectView,
    pub group: Option<GroupView>,
}

pub open spec fn initial_state() -> ParseState {
    ParseState { dat: empty_data(), object: new_object(default_name()), group: None }
}

/// The data once an `o` line closes the current object: the current group joins the
/// object, which is kept when it has a group.
pub open spec fn closed_object(st: ParseState) -> ObjDataView {
    let cur = add_group(st.object, st.group);
    if cur.groups.len() > 0 {
        ObjDataView { objects: st.dat.objects.push(cur), ..st.dat }
    } else {
        st.dat
    }
}

/// The state after the line `line`, numbered `line_number` from zero, or the error it
/// raises.
pub open spec fn step<P: GenPolygon>(st: ParseState, line_number: usize, line: Seq<char>) -> Result<
    ParseState,
    ObjErrorView,
> {
    let ws = words(line);
    if ws.len() == 0 {
        Ok(st)
    } else {
        match command_of(ws[0]) {
            Command::V => match parsed_coords(line_number, seq![arg(ws, 1), arg(ws, 2), arg(ws, 3)]) {
                Ok(c) => Ok(
                    ParseState { dat: ObjDataView { position: st.dat.position.push(c), ..st.dat }, ..st },
                ),
                Err(e) => Err(e),
            },
            Command::Vt => match parsed_coords(line_number, seq![arg(ws, 1), arg(ws, 2)]) {
                Ok(c) => Ok(
                    ParseState { dat: ObjDataView { texture: st.dat.texture.push(c), ..st.dat }, ..st },
                ),
                Err(e) => Err(e),
            },
            Command::Vn => match parsed_coords(line_number, seq![arg(ws, 1), arg(ws, 2), arg(ws, 3)]) {
                Ok(c) => Ok(
                    ParseState { dat: ObjDataView { normal: st.dat.normal.push(c), ..st.dat }, ..st },
                ),
                Err(e) => Err(e),
            },
            Command::F => match parsed_face::<P>(st.dat, line_number, ws.skip(1)) {
                Ok(c) => Ok(
                    ParseState {
                        group: Some(
                            match st.group {
                                Some(g) => GroupView { polys: g.polys.push(c), ..g },
                                None => GroupView { polys: seq![c], ..new_group(default_name()) },
                            },
                        ),
                        ..st
                    },
                ),
                Err(e) => Err(e),
            },
            Command::O => Ok(
                ParseState {
                    dat: closed_object(st),
                    object: new_object(
                        if byte_len(line) > 2 {
                            trim(after_bytes(line, 1))
                        } else {
                            default_name()
                        },
                    ),
                    group: None,
                },
            ),
            Command::G => Ok(
                ParseState {
                    object: add_group(st.object, st.group),
                    group: if byte_len(line) > 2 {
                        Some(new_group(trim(after_bytes(line, 2))))
                    } else {
                        None
                    },
                    ..st
                },
            ),
            Command::Mtllib => if ws.len() < 2 {
                Err(ObjErrorView::MissingMTLName { line_number })
            } else {
                Ok(
                    ParseState {
                        dat: ObjDataView {
                            material_libs: st.dat.material_libs.push(
                                MtlView { filename: join_with_spaces(ws.skip(1)), materials: seq![] },
                            ),
                            ..st.dat
                        },
                        ..st
                    },
                )
            },
            Command::Usemtl => {
                let g0 = match st.group {
                    Some(g) => g,
                    None => new_group(default_name()),
                };
                let mat = if ws.len() > 1 {
                    Some(ObjMaterialView::Ref(ws[1]))
                } else {
                    None
                };
                if g0.material is Some {
                    Ok(
                        ParseState {
                            object: add_group(st.object, Some(g0)),
                            group: Some(
                                GroupView {
                                    index: (g0.index + 1) as usize,
                                    material: mat,
                                    polys: seq![],
                                    ..g0
                                },
                            ),
                            ..st
                        },
                    )
                } else {
                    Ok(ParseState { group: Some(GroupView { material: mat, ..g0 }), ..st })
                }
            },
            Command::S => Ok(st),
            Command::L => Ok(st),
            Command::Other => if ws[0][0] == '#' {
                Ok(st)
            } else {
                Err(ObjErrorView::UnexpectedCommand { line_number, command: ws[0] })
            },
        }
    }
}

/// A line on which reading does not complete: an `o` or `g` line longer than two bytes
/// whose first one or two bytes are not whole characters, or a face that reaches an
/// index `0`.
pub open spec fn line_panics(line: Seq<char>) -> bool {
    let ws = words(line);
    &&& ws.len() > 0
    &&& match command_of(ws[0]) {
        Command::O => byte_len(line) > 2 && chars_in_bytes(line, 1) is None,
        Command::G => byte_len(line) > 2 && chars_in_bytes(line, 2) is None,
        Command::F => face_panics(ws.skip(1)),
        _ => false,
    }
}

/// The state after the first `n` lines, or the first error.
pub open spec fn parse_prefix<P: GenPolygon>(lines: Seq<Seq<char>>, n: nat) -> Result<
    ParseState,
    ObjErrorView,
>
    decreases n,
{
    if n == 0 {
        Ok(initial_state())
    } else {
        match parse_prefix::<P>(lines, (n - 1) as nat) {
            Ok(st) => step::<P>(st, (n - 1) as usize, lines[n - 1]),
            Err(e) => Err(e),
        }
    }
}

/// The data at the end of the input.
pub open spec fn finished(st: ParseState) -> ObjDataView {
    ObjDataView { objects: st.dat.objects.push(add_group(st.object, st.group)), ..st.dat }
}

/// The data that the lines `lines` describe, or the error they raise.
pub open spec fn parsed_lines<P: GenPolygon>(lines: Seq<Seq<char>>) -> Result<ObjDataView, ObjErrorView> {
    match parse_prefix::<P>(lines, lines.len()) {
        Ok(st) => Ok(finished(st)),
        Err(e) => Err(e),
    }
}

/// Reading `lines` completes: no line that is reached panics.
pub open spec fn lines_readable<P: GenPolygon>(lines: Seq<Seq<char>>) -> bool {
    forall|j: int|
        0 <= j < lines.len() && (#[trigger] parse_prefix::<P>(lines, j as nat)) is Ok
            ==> !line_panics(lines[j])
}

/// The data that the text `text` describes, or the error it raises.
pub open spec fn parsed_text<P: GenPolygon>(text: Seq<char>) -> Result<ObjDataView, ObjErrorView> {
    parsed_lines::<P>(split_lines(text))
}


// ---------------------------------------------------------------------------
// Reading the parts of a line
fn word_is(w: &Vec<char>, lit: &str) -> (b: bool)
    ensures
        b == (w@ == lit@),
{
    let l = chars_of(lit);
    if w.len() != l.len() {
        return false;
    }
    let mut i: usize = 0;
    while i < l.len()
        invariant
            w@.len() == l@.len(),
            l@ == lit@,
            i <= l@.len(),
            forall|j: int| 0 <= j < i ==> w@[j] == l@[j],
        decreases l@.len() - i,
    {
        if w[i] != l[i] {
            return false;
        }
        i = i + 1;
    }
    assert(w@ =~= l@);
    true
}

fn command(w: &Vec<char>) -> (c: Command)
    ensures
        c == command_of(w@),
{
    proof {
        reveal_strlit("v");
        reveal_strlit("vt");
        reveal_strlit("vn");
        reveal_strlit("f");
        reveal_strlit("o");
        reveal_strlit("g");
        reveal_strlit("mtllib");
        reveal_strlit("usemtl");
        reveal_strlit("s");
        reveal_strlit("l");
        assert("v"@ =~= seq!['v']);
        assert("vt"@ =~= seq!['v', 't']);
        assert("vn"@ =~= seq!['v', 'n']);
        assert("f"@ =~= seq!['f']);
        assert("o"@ =~= seq!['o']);
        assert("g"@ =~= seq!['g']);
        assert("mtllib"@ =~= seq!['m', 't', 'l', 'l', 'i', 'b']);
        assert("usemtl"@ =~= seq!['u', 's', 'e', 'm', 't', 'l']);
        assert("s"@ =~= seq!['s']);
        assert("l"@ =~= seq!['l']);
    }
    if word_is(w, "v") {
        Command::V
    } else if word_is(w, "vt") {
        Command::Vt
    } else if word_is(w, "vn") {
        Command::Vn
    } else if word_is(w, "f") {
        Command::F
    } else if word_is(w, "o") {
        Command::O
    } else if word_is(w, "g") {
        Command::G
    } else if word_is(w, "mtllib") {
        Command::Mtllib
    } else if word_is(w, "usemtl") {
        Command::Usemtl
    } else if word_is(w, "s") {
        Command::S
    } else if word_is(w, "l") {
        Command::L
    } else {
        Command::Other
    }
}

/// The name `default`.
pub fn default_string() -> (s: String)
    ensures
        s@ == default_name(),
{
    proof {
        reveal_strlit("default");
        assert("default"@ =~= default_name());
    }
    "default".to_owned()
}

/// `{:?}` of an `Option<&str>`, from `{:?}` of the string it holds, if any.
pub fn debug_option_text(quoted: Option<String>) -> (s: String)
    ensures
        match quoted {
            Some(q) => s@ == seq!['S', 'o', 'm', 'e', '('] + q@ + seq![')'],
            None => s@ == seq!['N', 'o', 'n', 'e'],
        },
{
    proof {
        reveal_strlit("Some(");
        reveal_strlit("None");
        assert("Some("@ =~= seq!['S', 'o', 'm', 'e', '(']);
        assert("None"@ =~= seq!['N', 'o', 'n', 'e']);
    }
    match quoted {
        Some(q) => {
            let mut s = "Some(".to_owned();
            s.append(q.as_str());
            push_char(&mut s, ')');
            s
        },
        None => "None".to_owned(),
    }
}

/// `{:?}` of the `i`-th word, as an `Option<&str>`.
fn debug_arg(ws: &Vec<Vec<char>>, i: usize) -> (s: String)
    ensures
        s@ == debug_opt(arg(views(ws@), i as int)),
{
    if i < ws.len() {
        let w = string_of(&ws[i]);
        debug_option_text(Some(debug_string(w.as_str())))
    } else {
        debug_option_text(None)
    }
}

/// `{:?}` of the `i`-th word, as a `&str`.
fn debug_word(ws: &Vec<Vec<char>>, i: usize) -> (s: String)
    requires
        i < ws@.len(),
    ensures
        s@ == debug_str(views(ws@)[i as int]),
{
    let w = string_of(&ws[i]);
    debug_string(w.as_str())
}

/// The parts joined with single spaces, as an argument list is reported.
pub fn join_spaced(parts: &Vec<String>) -> (s: String)
    ensures
        s@ == join_with_spaces(strings_view(parts@)),
{
    let ghost v = strings_view(parts@);
    let mut s = String::new();
    let mut i: usize = 0;
    assert(v.take(0) =~= Seq::<Seq<char>>::empty());
    while i < parts.len()
        invariant
            i <= parts@.len(),
            v == strings_view(parts@),
            s@ == join_with_spaces(v.take(i as int)),
        decreases parts@.len() - i,
    {
        if i > 0 {
            push_char(&mut s, ' ');
        }
        s.append(parts[i].as_str());
        proof {
            let t = v.take(i + 1);
            assert(t.drop_last() =~= v.take(i as int));
            assert(t.last() == parts@[i as int]@);
            if i == 0 {
                assert(v.take(0) =~= Seq::<Seq<char>>::empty());
                assert(s@ =~= parts@[0]@);
            }
        }
        i = i + 1;
    }
    assert(v.take(i as int) =~= v);
    s
}

pub open spec fn strings_view(v: Seq<String>) -> Seq<Seq<char>> {
    v.map_values(|s: String| s@)
}

/// The three coordinates of a `v` or `vn` line with words `ws`.
fn parse_three(line_number: usize, ws: &Vec<Vec<char>>) -> (r: Result<[String; 3], ObjError>)
    ensures
        ({
            let expected = parsed_coords(
                line_number,
                seq![arg(views(ws@), 1), arg(views(ws@), 2), arg(views(ws@), 3)],
            );
            &&& r is Ok <==> expected is Ok
            &&& r matches Ok(a) ==> strings_view(a@) == expected->Ok_0
            &&& r matches Err(e) ==> e@ == expected->Err_0
        }),
{
    let ghost vs = views(ws@);
    let ghost args = seq![arg(vs, 1), arg(vs, 2), arg(vs, 3)];
    if ws.len() < 4 {
        let parts = vec![debug_arg(ws, 1), debug_arg(ws, 2), debug_arg(ws, 3)];
        let list = join_spaced(&parts);
        assert(strings_view(parts@) =~= seq![parts@[0]@, parts@[1]@, parts@[2]@]);
        assert(args[2] is None);
        assert(args.map_values(|a: Option<Seq<char>>| debug_opt(a)) =~= seq![
            debug_opt(args[0]),
            debug_opt(args[1]),
            debug_opt(args[2]),
        ]);
        return Err(ObjError::ArgumentListFailure { line_number, list });
    }
    let ghost toks = args.map_values(|a: Option<Seq<char>>| a->0);
    assert(toks =~= seq![vs[1], vs[2], vs[3]]);
    assert forall|i: int| 0 <= i < args.len() implies (#[trigger] args[i]) is Some by {}
    let ok = is_float_token(&ws[1]) && is_float_token(&ws[2]) && is_float_token(&ws[3]);
    if !ok {
        let parts = vec![debug_word(ws, 1), debug_word(ws, 2), debug_word(ws, 3)];
        let list = join_spaced(&parts);
        assert(strings_view(parts@) =~= seq![parts@[0]@, parts@[1]@, parts@[2]@]);
        assert(toks.map_values(|t: Seq<char>| debug_str(t)) =~= seq![
            debug_str(toks[0]),
            debug_str(toks[1]),
            debug_str(toks[2]),
        ]);
        assert(!is_float_literal(toks[0]) || !is_float_literal(toks[1]) || !is_float_literal(toks[2]));
        return Err(ObjError::ArgumentListFailure { line_number, list });
    }
    let a = [string_of(&ws[1]), string_of(&ws[2]), string_of(&ws[3])];
    assert(strings_view(a@) =~= toks);
    Ok(a)
}

/// The two coordinates of a `vt` line with words `ws`.
fn parse_two(line_number: usize, ws: &Vec<Vec<char>>) -> (r: Result<[String; 2], ObjError>)
    ensures
        ({
            let expected = parsed_coords(line_number, seq![arg(views(ws@), 1), arg(views(ws@), 2)]);
            &&& r is Ok <==> expected is Ok
            &&& r matches Ok(a) ==> strings_view(a@) == expected->Ok_0
            &&& r matches Err(e) ==> e@ == expected->Err_0
        }),
{
    let ghost vs = views(ws@);
    let ghost args = seq![arg(vs, 1), arg(vs, 2)];
    if ws.len() < 3 {
        let parts = vec![debug_arg(ws, 1), debug_arg(ws, 2)];
        let list = join_spaced(&parts);
        assert(strings_view(parts@) =~= seq![parts@[0]@, parts@[1]@]);
        assert(args[1] is None);
        assert(args.map_values(|a: Option<Seq<char>>| debug_opt(a)) =~= seq![
            debug_opt(args[0]),
            debug_opt(args[1]),
        ]);
        return Err(ObjError::ArgumentListFailure { line_number, list });
    }
    let ghost toks = args.map_values(|a: Option<Seq<char>>| a->0);
    assert(toks =~= seq![vs[1], vs[2]]);
    assert forall|i: int| 0 <= i < args.len() implies (#[trigger] args[i]) is Some by {}
    let ok = is_float_token(&ws[1]) && is_float_token(&ws[2]);
    if !ok {
        let parts = vec![debug_word(ws, 1), debug_word(ws, 2)];
        let list = join_spaced(&parts);
        assert(strings_view(parts@) =~= seq![parts@[0]@, parts@[1]@]);
        assert(toks.map_values(|t: Seq<char>| debug_str(t)) =~= seq![
            debug_str(toks[0]),
            debug_str(toks[1]),
        ]);
        assert(!is_float_literal(toks[0]) || !is_float_literal(toks[1]));
        return Err(ObjError::ArgumentListFailure { line_number, list });
    }
    let a = [string_of(&ws[1]), string_of(&ws[2])];
    assert(strings_view(a@) =~= toks);
    Ok(a)
}


/// The counts of coordinates read so far fit the index arithmetic.
pub open spec fn counts_fit(d: ObjDataView) -> bool {
    &&& d.position.len() <= isize::MAX
    &&& d.texture.len() <= isize::MAX
    &&& d.normal.len() <= isize::MAX
}

fn normalize_opt(o: Option<isize>, len: usize) -> (r: Option<usize>)
    requires
        o != Some(0isize),
        len <= isize::MAX,
    ensures
        r == opt_normalized(o, len as nat),
{
    match o {
        Some(i) => Some(normalize(i, len)),
        None => None,
    }
}

/// The position, texture and normal indices written in the face group `g`.
fn corner_indices(g: &Vec<char>) -> (r: (Option<isize>, Option<isize>, Option<isize>))
    ensures
        r == (index_p(g@), index_t(g@), index_n(g@)),
{
    let ps = split_char(g, '/');
    assert(pieces(g@).len() >= 1);
    assert(views(ps@)[0] == ps@[0]@);
    let p = parse_isize(&ps[0]);
    let t = if ps.len() > 1 && ps[1].len() > 0 {
        assert(views(ps@)[1] == ps@[1]@);
        parse_isize(&ps[1])
    } else {
        None
    };
    let n = if ps.len() > 2 {
        assert(views(ps@)[2] == ps@[2]@);
        parse_isize(&ps[2])
    } else {
        None
    };
    (p, t, n)
}

/// The corner that the face group `g` denotes.
fn parse_group<P: GenPolygon>(d: &ObjData<P>, line_number: usize, g: &Vec<char>) -> (r: Result<
    IndexTuple,
    ObjError,
>)
    requires
        !group_panics(g@),
        counts_fit(d@),
    ensures
        match parsed_group(d@, g@) {
            Some(t) => r == Ok::<IndexTuple, ObjError>(t),
            None => r matches Err(e) && e@ == ObjErrorView::MalformedFaceGroup {
                line_number,
                group: g@,
            },
        },
{
    let (p, t, n) = corner_indices(g);
    match p {
        Some(p) => {
            let pi = normalize(p, d.position.len());
            let ti = normalize_opt(t, d.texture.len());
            let ni = normalize_opt(n, d.normal.len());
            Ok(IndexTuple(pi, ti, ni))
        },
        None => Err(ObjError::MalformedFaceGroup { line_number, group: string_of(g) }),
    }
}

/// Whether the face groups `ws[1..]` reach a group with an index `0` before any that is
/// malformed.
fn face_would_panic(ws: &Vec<Vec<char>>) -> (b: bool)
    requires
        ws@.len() >= 1,
    ensures
        b == face_panics(views(ws@).skip(1)),
{
    let ghost gs = views(ws@).skip(1);
    let mut i: usize = 1;
    assert(gs.skip(0) =~= gs);
    while i < ws.len()
        invariant
            1 <= i <= ws@.len(),
            gs == views(ws@).skip(1),
            face_panics(gs) == face_panics(gs.skip(i - 1)),
        decreases ws@.len() - i,
    {
        let ghost rest = gs.skip(i - 1);
        assert(rest[0] == ws@[i as int]@);
        assert(rest.drop_first() =~= gs.skip(i as int));
        let (p, t, n) = corner_indices(&ws[i]);
        match p {
            None => {
                return false;
            },
            Some(p) => {
                if p == 0 || t == Some(0isize) || n == Some(0isize) {
                    return true;
                }
            },
        }
        i = i + 1;
    }
    assert(gs.skip(i - 1) =~= Seq::<Seq<char>>::empty());
    false
}

/// Whether reading the line `line` would not complete (see `line_panics`): a caller that
/// streams lines into an `ObjParser` tests this before `feed_line`.
pub fn would_panic(line: &str) -> (b: bool)
    ensures
        b == line_panics(line@),
{
    let chars = chars_of(line);
    chars_would_panic(&chars)
}

/// Whether reading the line with characters `chars` would not complete.
fn chars_would_panic(chars: &Vec<char>) -> (b: bool)
    ensures
        b == line_panics(chars@),
{
    let ws = split_words(chars);
    if ws.len() == 0 {
        return false;
    }
    proof {
        lemma_words_are_words(chars@);
        assert(views(ws@)[0] == ws@[0]@);
    }
    match command(&ws[0]) {
        Command::O => byte_len_exceeds(chars, 2) && chars_within_bytes(chars, 1).is_none(),
        Command::G => byte_len_exceeds(chars, 2) && chars_within_bytes(chars, 2).is_none(),
        Command::F => face_would_panic(&ws),
        _ => false,
    }
}

/// The face of an `f` line with words `ws`.
fn parse_face<P: GenPolygon>(d: &ObjData<P>, line_number: usize, ws: &Vec<Vec<char>>) -> (r: Result<
    P,
    ObjError,
>)
    requires
        ws@.len() >= 1,
        !face_panics(views(ws@).skip(1)),
        counts_fit(d@),
    ensures
        match parsed_face::<P>(d@, line_number, views(ws@).skip(1)) {
            Ok(c) => r matches Ok(p) && p.corners() == c,
            Err(e) => r matches Err(x) && x@ == e,
        },
{
    let ghost gs = views(ws@).skip(1);
    let mut ret: Vec<IndexTuple> = Vec::with_capacity(4);
    let mut i: usize = 1;
    assert(gs.skip(0) =~= gs);
    assert(ret@ + Seq::<IndexTuple>::empty() =~= ret@);
    while i < ws.len()
        invariant
            1 <= i <= ws@.len(),
            gs == views(ws@).skip(1),
            counts_fit(d@),
            !face_panics(gs.skip(i - 1)),
            parsed_corners(d@, line_number, gs) == (match parsed_corners(
                d@,
                line_number,
                gs.skip(i - 1),
            ) {
                Ok(r) => Ok(ret@ + r),
                Err(e) => Err(e),
            }),
        decreases ws@.len() - i,
    {
        let ghost rest = gs.skip(i - 1);
        assert(rest[0] == ws@[i as int]@);
        assert(rest.drop_first() =~= gs.skip(i as int));
        let t = parse_group(d, line_number, &ws[i]);
        match t {
            Ok(t) => {
                let ghost before = ret@;
                ret.push(t);
                proof {
                    match parsed_corners(d@, line_number, gs.skip(i as int)) {
                        Ok(r) => {
                            assert(ret@ + r =~= before + (seq![t] + r));
                        },
                        Err(e) => {},
                    }
                }
            },
            Err(e) => {
                return Err(e);
            },
        }
        i = i + 1;
    }
    assert(gs.skip(i - 1) =~= Seq::<Seq<char>>::empty());
    assert(ret@ + Seq::<IndexTuple>::empty() =~= ret@);
    P::try_new(line_number, ret)
}


pub open spec fn opt_group_view<P: GenPolygon>(g: Option<Group<P>>) -> Option<GroupView> {
    match g {
        Some(g) => Some(g@),
        None => None,
    }
}

/// The bounds that reading `n` lines keeps: each line adds at most one coordinate and
/// raises the group index by at most one.
pub open spec fn state_fits(st: ParseState, n: nat) -> bool {
    &&& st.dat.position.len() <= n
    &&& st.dat.texture.len() <= n
    &&& st.dat.normal.len() <= n
    &&& (st.group matches Some(g) ==> g.index <= n)
    &&& n <= isize::MAX
}

/// Reads `.obj` text one line at a time.
pub struct ObjParser<P = SimplePolygon> {
    /// The data read so far.
    pub data: ObjData<P>,
    /// The object that the next groups belong to.
    pub object: Object<P>,
    /// The group that the next faces belong to.
    pub group: Option<Group<P>>,
    /// The number of lines read.
    pub lines_read: usize,
}

impl<P: GenPolygon> ObjParser<P> {
    pub open spec fn state(&self) -> ParseState {
        ParseState { dat: self.data@, object: self.object@, group: opt_group_view(self.group) }
    }

    /// The reader's well-formedness.
    pub open spec fn wf(&self) -> bool {
        state_fits(self.state(), self.lines_read as nat)
    }

    /// A reader at the start of the input.
    pub fn new() -> (p: Self)
        ensures
            p.state() == initial_state(),
            p.lines_read == 0,
            p.wf(),
    {
        let p = ObjParser {
            data: ObjData::default(),
            object: Object::new(default_string()),
            group: None,
            lines_read: 0,
        };
        assert(p.state() =~= initial_state());
        p
    }

    /// Reads the next line of the input.
    pub fn feed_line(&mut self, line: &str) -> (r: Result<(), ObjError>)
        requires
            old(self).wf(),
            old(self).lines_read < isize::MAX,
            !line_panics(line@),
        ensures
            match step::<P>(old(self).state(), old(self).lines_read, line@) {
                Ok(st) => {
                    &&& r is Ok
                    &&& final(self).state() == st
                    &&& final(self).lines_read == old(self).lines_read + 1
                    &&& final(self).wf()
                },
                Err(e) => r matches Err(x) && x@ == e,
            },
    {
        let chars = chars_of(line);
        self.feed_chars(&chars)
    }

    fn feed_chars(&mut self, line: &Vec<char>) -> (r: Result<(), ObjError>)
        requires
            old(self).wf(),
            old(self).lines_read < isize::MAX,
            !line_panics(line@),
        ensures
            match step::<P>(old(self).state(), old(self).lines_read, line@) {
                Ok(st) => {
                    &&& r is Ok
                    &&& final(self).state() == st
                    &&& final(self).lines_read == old(self).lines_read + 1
                    &&& final(self).wf()
                },
                Err(e) => r matches Err(x) && x@ == e,
            },
    {
        let ws = split_words(line);
        let ln = self.lines_read;
        if ws.len() == 0 {
            self.lines_read = ln + 1;
            return Ok(());
        }
        proof {
            lemma_words_are_words(line@);
            assert(views(ws@)[0] == ws@[0]@);
        }
        let cmd = command(&ws[0]);
        let r = match cmd {
            Command::V => self.read_position(ln, &ws),
            Command::Vt => self.read_texture(ln, &ws),
            Command::Vn => self.read_normal(ln, &ws),
            Command::F => self.read_face(ln, &ws),
            Command::O => {
                self.read_object(line);
                Ok(())
            },
            Command::G => {
                self.read_group(line);
                Ok(())
            },
            Command::Mtllib => self.read_mtllib(ln, &ws),
            Command::Usemtl => {
                self.read_usemtl(&ws);
                Ok(())
            },
            Command::S => Ok(()),
            Command::L => Ok(()),
            Command::Other => {
                if ws[0][0] == '#' {
                    Ok(())
                } else {
                    Err(ObjError::UnexpectedCommand { line_number: ln, command: string_of(&ws[0]) })
                }
            },
        };
        if r.is_ok() {
            self.lines_read = ln + 1;
        }
        r
    }

    fn read_position(&mut self, ln: usize, ws: &Vec<Vec<char>>) -> (r: Result<(), ObjError>)
        requires
            old(self).wf(),
            old(self).lines_read < isize::MAX,
        ensures
            final(self).lines_read == old(self).lines_read,
            final(self).object == old(self).object,
            final(self).group == old(self).group,
            match parsed_coords(ln, seq![arg(views(ws@), 1), arg(views(ws@), 2), arg(views(ws@), 3)]) {
                Ok(c) => {
                    &&& r is Ok
                    &&& final(self).data@ == (ObjDataView { position: old(self).data@.position.push(c), ..old(self).data@ })
                    &&& final(self).state().dat.position.len() <= old(self).lines_read + 1
                },
                Err(e) => r matches Err(x) && x@ == e,
            },
    {
        match parse_three(ln, ws) {
            Ok(c) => {
                let ghost before = self.data.position@;
                self.data.position.push(c);
                assert(coords3_view(self.data.position@) =~= coords3_view(before).push(strings_view(c@)));
                assert(self.data@ =~= ObjDataView { position: old(self).data@.position.push(strings_view(c@)), ..old(self).data@ });
                Ok(())
            },
            Err(e) => Err(e),
        }
    }

    fn read_texture(&mut self, ln: usize, ws: &Vec<Vec<char>>) -> (r: Result<(), ObjError>)
        requires
            old(self).wf(),
            old(self).lines_read < isize::MAX,
        ensures
            final(self).lines_read == old(self).lines_read,
            final(self).object == old(self).object,
            final(self).group == old(self).group,
            match parsed_coords(ln, seq![arg(views(ws@), 1), arg(views(ws@), 2)]) {
                Ok(c) => {
                    &&& r is Ok
                    &&& final(self).data@ == (ObjDataView { texture: old(self).data@.texture.push(c), ..old(self).data@ })
                },
                Err(e) => r matches Err(x) && x@ == e,
            },
    {
        match parse_two(ln, ws) {
            Ok(c) => {
                let ghost before = self.data.texture@;
                self.data.texture.push(c);
                assert(coords2_view(self.data.texture@) =~= coords2_view(before).push(strings_view(c@)));
                assert(self.data@ =~= ObjDataView { texture: old(self).data@.texture.push(strings_view(c@)), ..old(self).data@ });
                Ok(())
            },
            Err(e) => Err(e),
        }
    }

    fn read_normal(&mut self, ln: usize, ws: &Vec<Vec<char>>) -> (r: Result<(), ObjError>)
        requires
            old(self).wf(),
            old(self).lines_read < isize::MAX,
        ensures
            final(self).lines_read == old(self).lines_read,
            final(self).object == old(self).object,
            final(self).group == old(self).group,
            match parsed_coords(ln, seq![arg(views(ws@), 1), arg(views(ws@), 2), arg(views(ws@), 3)]) {
                Ok(c) => {
                    &&& r is Ok
                    &&& final(self).data@ == (ObjDataView { normal: old(self).data@.normal.push(c), ..old(self).data@ })
                },
                Err(e) => r matches Err(x) && x@ == e,
            },
    {
        match parse_three(ln, ws) {
            Ok(c) => {
                let ghost before = self.data.normal@;
                self.data.normal.push(c);
                assert(coords3_view(self.data.normal@) =~= coords3_view(before).push(strings_view(c@)));
                assert(self.data@ =~= ObjDataView { normal: old(self).data@.normal.push(strings_view(c@)), ..old(self).data@ });
                Ok(())
            },
            Err(e) => Err(e),
        }
    }

    fn read_face(&mut self, ln: usize, ws: &Vec<Vec<char>>) -> (r: Result<(), ObjError>)
        requires
            old(self).wf(),
            ws@.len() >= 1,
            !face_panics(views(ws@).skip(1)),
        ensures
            final(self).lines_read == old(self).lines_read,
            final(self).data == old(self).data,
            final(self).object == old(self).object,
            match parsed_face::<P>(old(self).data@, ln, views(ws@).skip(1)) {
                Ok(c) => {
                    &&& r is Ok
                    &&& opt_group_view(final(self).group) == Some(
                        match opt_group_view(old(self).group) {
                            Some(g) => GroupView { polys: g.polys.push(c), ..g },
                            None => GroupView { polys: seq![c], ..new_group(default_name()) },
                        },
                    )
                },
                Err(e) => r matches Err(x) && x@ == e,
            },
    {
        match parse_face(&self.data, ln, ws) {
            Ok(poly) => {
                match self.group.take() {
                    None => {
                        let mut g: Group<P> = Group::new(default_string());
                        g.polys.push(poly);
                        assert(g@.polys =~= seq![poly.corners()]);
                        self.group = Some(g);
                    },
                    Some(g0) => {
                        let mut g = g0;
                        let ghost before = g.polys@;
                        g.polys.push(poly);
                        assert(g@.polys =~= g0@.polys.push(poly.corners()));
                        assert(g@ =~= GroupView { polys: g0@.polys.push(poly.corners()), ..g0@ });
                        self.group = Some(g);
                    },
                }
                Ok(())
            },
            Err(e) => Err(e),
        }
    }

    fn read_object(&mut self, line: &Vec<char>)
        requires
            old(self).wf(),
            !(byte_len(line@) > 2 && chars_in_bytes(line@, 1) is None),
        ensures
            final(self).lines_read == old(self).lines_read,
            final(self).data@ == closed_object(old(self).state()),
            final(self).object@ == new_object(
                if byte_len(line@) > 2 {
                    trim(after_bytes(line@, 1))
                } else {
                    default_name()
                },
            ),
            final(self).group is None,
    {
        let name = if byte_len_exceeds(line, 2) {
            match chars_within_bytes(line, 1) {
                Some(k) => {
                    proof {
                        lemma_chars_in_bytes_bound(line@, 1);
                    }
                    trimmed_string_from(line, k)
                },
                None => {
                    assert(false);
                    default_string()
                },
            }
        } else {
            default_string()
        };
        let mut old_obj = Object::new(name);
        std::mem::swap(&mut self.object, &mut old_obj);
        let ghost before = old_obj@;
        match self.group.take() {
            Some(g) => {
                old_obj.groups.push(g);
                assert(old_obj@ =~= add_group(before, Some(g@)));
            },
            None => {
                assert(old_obj@ =~= add_group(before, None));
            },
        }
        if old_obj.groups.len() > 0 {
            self.data.objects.push(old_obj);
            assert(self.data@.objects =~= old(self).data@.objects.push(old_obj@));
            assert(self.data@ =~= closed_object(old(self).state()));
        }
    }

    fn read_group(&mut self, line: &Vec<char>)
        requires
            old(self).wf(),
            !(byte_len(line@) > 2 && chars_in_bytes(line@, 2) is None),
        ensures
            final(self).lines_read == old(self).lines_read,
            final(self).data == old(self).data,
            final(self).object@ == add_group(old(self).object@, opt_group_view(old(self).group)),
            opt_group_view(final(self).group) == (if byte_len(line@) > 2 {
                Some(new_group(trim(after_bytes(line@, 2))))
            } else {
                None::<GroupView>
            }),
    {
        match self.group.take() {
            Some(g) => {
                let ghost before = self.object@;
                self.object.groups.push(g);
                assert(self.object@ =~= add_group(before, Some(g@)));
            },
            None => {},
        }
        if byte_len_exceeds(line, 2) {
            match chars_within_bytes(line, 2) {
                Some(k) => {
                    proof {
                        lemma_chars_in_bytes_bound(line@, 2);
                    }
                    let name = trimmed_string_from(line, k);
                    self.group = Some(Group::new(name));
                },
                None => {
                    assert(false);
                },
            }
        }
    }

    fn read_mtllib(&mut self, ln: usize, ws: &Vec<Vec<char>>) -> (r: Result<(), ObjError>)
        ensures
            final(self).lines_read == old(self).lines_read,
            final(self).object == old(self).object,
            final(self).group == old(self).group,
            ws@.len() < 2 ==> (r matches Err(x) && x@ == (ObjErrorView::MissingMTLName { line_number: ln })),
            ws@.len() >= 2 ==> r is Ok && final(self).data@ == (ObjDataView {
                material_libs: old(self).data@.material_libs.push(
                    MtlView { filename: join_with_spaces(views(ws@).skip(1)), materials: seq![] },
                ),
                ..old(self).data@
            }),
    {
        if ws.len() < 2 {
            return Err(ObjError::MissingMTLName { line_number: ln });
        }
        let name = join_words_from(ws, 1);
        let m = Mtl::new(name);
        let ghost before = self.data.material_libs@;
        self.data.material_libs.push(m);
        assert(self.data@.material_libs =~= old(self).data@.material_libs.push(m@));
        assert(self.data@ =~= ObjDataView {
            material_libs: old(self).data@.material_libs.push(m@),
            ..old(self).data@
        });
        Ok(())
    }

    fn read_usemtl(&mut self, ws: &Vec<Vec<char>>)
        requires
            old(self).wf(),
            old(self).lines_read < isize::MAX,
        ensures
            final(self).lines_read == old(self).lines_read,
            final(self).data == old(self).data,
            ({
                let g0 = match opt_group_view(old(self).group) {
                    Some(g) => g,
                    None => new_group(default_name()),
                };
                let mat = if ws@.len() > 1 {
                    Some(ObjMaterialView::Ref(views(ws@)[1]))
                } else {
                    None
                };
                if g0.material is Some {
                    &&& final(self).object@ == add_group(old(self).object@, Some(g0))
                    &&& opt_group_view(final(self).group) == Some(
                        GroupView { index: (g0.index + 1) as usize, material: mat, polys: seq![], ..g0 },
                    )
                } else {
                    &&& final(self).object == old(self).object
                    &&& opt_group_view(final(self).group) == Some(GroupView { material: mat, ..g0 })
                }
            }),
    {
        let mut g: Group<P> = match self.group.take() {
            Some(g) => g,
            None => Group::new(default_string()),
        };
        let ghost g0 = g@;
        if g.material.is_some() {
            let next: Group<P> = Group {
                name: g.name.clone(),
                index: g.index + 1,
                material: None,
                polys: Vec::new(),
            };
            let ghost before = self.object@;
            self.object.groups.push(g);
            assert(self.object@ =~= add_group(before, Some(g0)));
            g = next;
            assert(g@.polys =~= seq![]);
        }
        let mat = if ws.len() > 1 {
            assert(views(ws@)[1] == ws@[1]@);
            Some(ObjMaterial::Ref(string_of(&ws[1])))
        } else {
            None
        };
        g.material = mat;
        self.group = Some(g);
    }

    /// The data at the end of the input.
    pub fn finish(self) -> (d: ObjData<P>)
        ensures
            d@ == finished(self.state()),
    {
        let ghost st = self.state();
        let mut data = self.data;
        let mut object = self.object;
        match self.group {
            Some(g) => {
                let ghost before = object@;
                object.groups.push(g);
                assert(object@ =~= add_group(before, Some(g@)));
            },
            None => {},
        }
        let ghost objs = data@.objects;
        data.objects.push(object);
        assert(data@.objects =~= objs.push(object@));
        assert(data@ =~= finished(st));
        data
    }
}

proof fn lemma_error_persists<P: GenPolygon>(lines: Seq<Seq<char>>, j: nat, k: nat)
    requires
        j <= k,
        parse_prefix::<P>(lines, j) is Err,
    ensures
        parse_prefix::<P>(lines, k) == parse_prefix::<P>(lines, j),
    decreases k - j,
{
    if j < k {
        lemma_error_persists::<P>(lines, j, (k - 1) as nat);
    }
}

impl<P: GenPolygon> ObjData<P> {
    /// Reads `.obj` data from the text of a file.
    pub fn load_str(text: &str) -> (r: Result<ObjData<P>, ObjError>)
        requires
            lines_readable::<P>(split_lines(text@)),
            split_lines(text@).len() < isize::MAX,
        ensures
            match parsed_text::<P>(text@) {
                Ok(d) => r matches Ok(x) && x@ == d,
                Err(e) => r matches Err(x) && x@ == e,
            },
    {
        let chars = chars_of(text);
        let lines = lines_of(&chars);
        let ghost ls = split_lines(text@);
        let mut parser: ObjParser<P> = ObjParser::new();
        let n = lines.len();
        let mut i: usize = 0;
        while i < n
            invariant
                n == lines@.len() == ls.len(),
                views(lines@) == ls,
                ls == split_lines(text@),
                ls.len() < isize::MAX,
                lines_readable::<P>(ls),
                i <= n,
                parser.wf(),
                parser.lines_read == i,
                parse_prefix::<P>(ls, i as nat) == Ok::<ParseState, ObjErrorView>(parser.state()),
            decreases n - i,
        {
            assert(parse_prefix::<P>(ls, i as nat) is Ok);
            assert(ls[i as int] == lines@[i as int]@);
            let ghost before = parser.state();
            assert(parse_prefix::<P>(ls, (i + 1) as nat) == step::<P>(before, i, ls[i as int]));
            let r = parser.feed_chars(&lines[i]);
            match r {
                Ok(()) => {},
                Err(e) => {
                    proof {
                        lemma_error_persists::<P>(ls, (i + 1) as nat, n as nat);
                    }
                    return Err(e);
                },
            }
            i = i + 1;
        }
        Ok(parser.finish())
    }
    /// Reads `.obj` data from the text of a file, where reading completes: `None` when a
    /// line that is reached would not complete (an index `0` in a face, or a `g` or `o`
    /// line whose name would start inside a character), or when the lines are too many to
    /// number.
    pub fn try_load_str(text: &str) -> (r: Option<Result<ObjData<P>, ObjError>>)
        ensures
            r is None <==> (split_lines(text@).len() >= isize::MAX || !lines_readable::<P>(split_lines(text@))),
            r matches Some(x) ==> match parsed_text::<P>(text@) {
                Ok(d) => x matches Ok(v) && v@ == d,
                Err(e) => x matches Err(v) && v@ == e,
            },
    {
        let chars = chars_of(text);
        let lines = lines_of(&chars);
        let ghost ls = split_lines(text@);
        let n = lines.len();
        if n >= isize::MAX as usize {
            return None;
        }
        let mut parser: ObjParser<P> = ObjParser::new();
        let mut i: usize = 0;
        while i < n
            invariant
                n == lines@.len() == ls.len(),
                views(lines@) == ls,
                ls == split_lines(text@),
                ls.len() < isize::MAX,
                i <= n,
                parser.wf(),
                parser.lines_read == i,
                parse_prefix::<P>(ls, i as nat) == Ok::<ParseState, ObjErrorView>(parser.state()),
                forall|j: int| 0 <= j < i && (#[trigger] parse_prefix::<P>(ls, j as nat)) is Ok ==> !line_panics(ls[j]),
            decreases n - i,
        {
            assert(ls[i as int] == lines@[i as int]@);
            if chars_would_panic(&lines[i]) {
                assert(!lines_readable::<P>(ls)) by {
                    assert(parse_prefix::<P>(ls, i as nat) is Ok);
                }
                return None;
            }
            let ghost before = parser.state();
            assert(parse_prefix::<P>(ls, (i + 1) as nat) == step::<P>(before, i, ls[i as int]));
            let r = parser.feed_chars(&lines[i]);
            match r {
                Ok(()) => {},
                Err(e) => {
                    proof {
                        lemma_error_persists::<P>(ls, (i + 1) as nat, n as nat);
                        assert forall|j: int| 0 <= j < ls.len() && (#[trigger] parse_prefix::<P>(ls, j as nat)) is Ok
                            implies !line_panics(ls[j]) by {
                            if j > i {
                                lemma_error_persists::<P>(ls, (i + 1) as nat, j as nat);
                            }
                        }
                    }
                    return Some(Err(e));
                },
            }
            i = i + 1;
        }
        Some(Ok(parser.finish()))
    }
}

} // verus!

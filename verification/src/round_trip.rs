//! Reading back what the writer wrote.
//!
//! The text that `ObjData::write_to_buf` produces is first described line by line over
//! the views of the data; reading those lines is then followed block by block.
use vstd::prelude::*;
use crate::mtl::MtlView;
use crate::number::{is_digit, is_float_literal, lemma_decimal, lemma_decimal_parses, parsed_isize};
use crate::parse::{
    add_group, arg, closed_object, command_of, default_name, face_panics, finished, group_panics, index_p, initial_state,
    line_panics, lines_readable, new_group, new_object, parse_prefix, parsed_coords, parsed_corners,
    parsed_group, parsed_lines, parsed_text, pieces, step, Command, ParseState,
};
use crate::text::{
    after_bytes, byte_len, chars_in_bytes, is_word, lemma_chars_in_bytes_bound, lemma_lines_no_newline,
    lemma_trim_plain_name, plain_name, is_ws, join_with_spaces, lemma_byte_len_ge, lemma_join_ends,
    lemma_len_before_exact, lemma_trim_plain, lemma_words_are_words, lemma_words_concat, lemma_words_single,
    split_at_char, split_lines, trim, utf8_width, words,
};
use crate::types::{
    empty_data, material_name, GenPolygon, Group, GroupView, IndexTuple, ObjData, ObjDataView, ObjErrorView,
    ObjMaterialView, Object, ObjectView, SimplePolygon, WriteToBuf,
};
use crate::write::{
    concat_texts, coord_line, coord_lines, data_text, face_line, g_line, group_head_lines, header_line, index_text,
    lemma_unlines1, lemma_unlines_concat, mtllib_line, mtllib_lines, o_line, object_head_lines, tuple_text,
    tuple_writable, unlines, usemtl_line,
};

verus! {

// ---------------------------------------------------------------------------
// The lines of the written text
/// The `f` lines of a group's faces.
pub open spec fn face_lines(polys: Seq<Seq<IndexTuple>>) -> Seq<Seq<char>> {
    polys.map_values(|cs: Seq<IndexTuple>| face_line(cs))
}

/// The lines written for a group.
pub open spec fn group_lines(g: GroupView) -> Seq<Seq<char>> {
    group_head_lines(g.name, g.index, g.material) + face_lines(g.polys)
}

/// The lines written for a sequence of groups.
pub open spec fn groups_lines(gs: Seq<GroupView>) -> Seq<Seq<char>>
    decreases gs.len(),
{
    if gs.len() == 0 {
        seq![]
    } else {
        groups_lines(gs.drop_last()) + group_lines(gs.last())
    }
}

/// The lines written for an object.
pub open spec fn object_lines(o: ObjectView) -> Seq<Seq<char>> {
    object_head_lines(o.name) + groups_lines(o.groups)
}

/// The lines written for a sequence of objects.
pub open spec fn objects_lines(os: Seq<ObjectView>) -> Seq<Seq<char>>
    decreases os.len(),
{
    if os.len() == 0 {
        seq![]
    } else {
        objects_lines(os.drop_last()) + object_lines(os.last())
    }
}

/// The `mtllib` lines of the material libraries.
pub open spec fn lib_lines(libs: Seq<MtlView>) -> Seq<Seq<char>> {
    libs.map_values(|m: MtlView| mtllib_line(m.filename))
}

/// The lines of the text written for `d`.
pub open spec fn data_lines(d: ObjDataView) -> Seq<Seq<char>> {
    seq![header_line()] + coord_lines(seq!['v'], d.position) + coord_lines(seq!['v', 't'], d.texture)
        + coord_lines(seq!['v', 'n'], d.normal) + objects_lines(d.objects) + lib_lines(d.material_libs)
}

proof fn lemma_faces_text(ps: Seq<SimplePolygon>)
    ensures
        concat_texts(ps) == unlines(face_lines(ps.map_values(|p: SimplePolygon| p@))),
    decreases ps.len(),
{
    let cs = ps.map_values(|p: SimplePolygon| p@);
    if ps.len() == 0 {
        assert(face_lines(cs) =~= Seq::<Seq<char>>::empty());
    } else {
        lemma_faces_text(ps.drop_last());
        assert(ps.drop_last().map_values(|p: SimplePolygon| p@) =~= cs.drop_last());
        assert(face_lines(cs) =~= face_lines(cs.drop_last()) + seq![face_line(ps.last()@)]);
        lemma_unlines_concat(face_lines(cs.drop_last()), seq![face_line(ps.last()@)]);
    }
}

proof fn lemma_groups_text(gs: Seq<Group<SimplePolygon>>)
    ensures
        concat_texts(gs) == unlines(groups_lines(gs.map_values(|g: Group<SimplePolygon>| g@))),
    decreases gs.len(),
{
    let vs = gs.map_values(|g: Group<SimplePolygon>| g@);
    if gs.len() == 0 {
        assert(groups_lines(vs) =~= Seq::<Seq<char>>::empty());
    } else {
        lemma_groups_text(gs.drop_last());
        assert(gs.drop_last().map_values(|g: Group<SimplePolygon>| g@) =~= vs.drop_last());
        let g = gs.last();
        lemma_faces_text(g.polys@);
        assert(g.polys@.map_values(|p: SimplePolygon| p@) =~= g@.polys);
        lemma_unlines_concat(group_head_lines(g@.name, g@.index, g@.material), face_lines(g@.polys));
        lemma_unlines_concat(groups_lines(vs.drop_last()), group_lines(g@));
    }
}

proof fn lemma_objects_text(os: Seq<Object<SimplePolygon>>)
    ensures
        concat_texts(os) == unlines(objects_lines(os.map_values(|o: Object<SimplePolygon>| o@))),
    decreases os.len(),
{
    let vs = os.map_values(|o: Object<SimplePolygon>| o@);
    if os.len() == 0 {
        assert(objects_lines(vs) =~= Seq::<Seq<char>>::empty());
    } else {
        lemma_objects_text(os.drop_last());
        assert(os.drop_last().map_values(|o: Object<SimplePolygon>| o@) =~= vs.drop_last());
        let o = os.last();
        lemma_groups_text(o.groups@);
        assert(o.groups@.map_values(|g: Group<SimplePolygon>| g@) =~= o@.groups);
        lemma_unlines_concat(object_head_lines(o@.name), groups_lines(o@.groups));
        lemma_unlines_concat(objects_lines(vs.drop_last()), object_lines(o@));
    }
}

/// The text written for `d` is its lines, each ended by a newline.
pub proof fn lemma_data_text_lines(d: ObjData<SimplePolygon>)
    ensures
        data_text(d) == unlines(data_lines(d@)),
{
    let v = d@;
    let coords = seq![header_line()] + coord_lines(seq!['v'], v.position) + coord_lines(
        seq!['v', 't'],
        v.texture,
    ) + coord_lines(seq!['v', 'n'], v.normal);
    lemma_objects_text(d.objects@);
    assert(mtllib_lines(d.material_libs@) =~= lib_lines(v.material_libs));
    assert(data_lines(v) =~= coords + objects_lines(v.objects) + lib_lines(v.material_libs));
    lemma_unlines_concat(coords, objects_lines(v.objects));
    lemma_unlines_concat(coords + objects_lines(v.objects), lib_lines(v.material_libs));
}

// ---------------------------------------------------------------------------
// Splitting the text back into lines
/// A line that reads back as itself: no newline in it, and no carriage return at its end.
pub open spec fn line_ok(l: Seq<char>) -> bool {
    &&& forall|i: int| 0 <= i < l.len() ==> #[trigger] l[i] != '\n'
    &&& (l.len() > 0 ==> l.last() != '\r')
}

/// Splitting lines that were each ended by a newline gives them back.
pub proof fn lemma_split_unlines(ls: Seq<Seq<char>>)
    requires
        forall|i: int| 0 <= i < ls.len() ==> line_ok(#[trigger] ls[i]),
    ensures
        split_lines(unlines(ls)) == ls,
    decreases ls.len(),
{
    if ls.len() == 0 {
        assert(split_lines(unlines(ls)) =~= ls);
    } else {
        let l = ls[0];
        let rest = ls.drop_first();
        assert(ls =~= seq![l] + rest);
        lemma_unlines_concat(seq![l], rest);
        lemma_unlines1(l);
        let t = unlines(ls);
        assert(t == l + seq!['\n'] + unlines(rest));
        assert(line_ok(l));
        assert forall|j: int| 0 <= j < l.len() implies #[trigger] t[j] != '\n' by {
            assert(t[j] == l[j]);
        }
        assert(t[l.len() as int] == '\n');
        lemma_len_before_exact(t, '\n', l.len() as int);
        assert(t.take(l.len() as int) =~= l);
        assert(t.skip(l.len() + 1 as int) =~= unlines(rest));
        assert forall|i: int| 0 <= i < rest.len() implies line_ok(#[trigger] rest[i]) by {
            assert(rest[i] == ls[i + 1]);
        }
        lemma_split_unlines(rest);
        assert(split_lines(t) =~= seq![l] + rest);
    }
}

// ---------------------------------------------------------------------------
// Reading a block of lines
/// The state after reading `lines` from `st`, the first of them numbered `base`.
pub open spec fn run<P: GenPolygon>(st: ParseState, base: nat, lines: Seq<Seq<char>>) -> Result<
    ParseState,
    ObjErrorView,
>
    decreases lines.len(),
{
    if lines.len() == 0 {
        Ok(st)
    } else {
        match run::<P>(st, base, lines.drop_last()) {
            Ok(s) => step::<P>(s, (base + lines.len() - 1) as usize, lines.last()),
            Err(e) => Err(e),
        }
    }
}

/// Reading the first `n` lines is reading them as one block from the start.
pub proof fn lemma_prefix_run<P: GenPolygon>(lines: Seq<Seq<char>>, n: nat)
    requires
        n <= lines.len(),
    ensures
        parse_prefix::<P>(lines, n) == run::<P>(initial_state(), 0, lines.take(n as int)),
    decreases n,
{
    if n == 0 {
        assert(lines.take(0) =~= Seq::<Seq<char>>::empty());
    } else {
        lemma_prefix_run::<P>(lines, (n - 1) as nat);
        assert(lines.take(n as int).drop_last() =~= lines.take(n - 1));
        assert(lines.take(n as int).last() == lines[n - 1]);
    }
}

/// Reading two blocks one after the other.
pub proof fn lemma_run_concat<P: GenPolygon>(st: ParseState, base: nat, a: Seq<Seq<char>>, b: Seq<Seq<char>>)
    ensures
        run::<P>(st, base, a + b) == match run::<P>(st, base, a) {
            Ok(s) => run::<P>(s, base + a.len(), b),
            Err(e) => Err(e),
        },
    decreases b.len(),
{
    if b.len() == 0 {
        assert(a + b =~= a);
    } else {
        lemma_run_concat::<P>(st, base, a, b.drop_last());
        assert((a + b).drop_last() =~= a + b.drop_last());
        assert((a + b).last() == b.last());
    }
}

// ---------------------------------------------------------------------------
// Face lines
/// A corner that the writer writes and the reader reads back: indices that stay below
/// `isize::MAX` once one-based.
pub open spec fn corner_ok(t: IndexTuple) -> bool {
    &&& t.0 < isize::MAX
    &&& (t.1 matches Some(i) ==> i < isize::MAX)
    &&& (t.2 matches Some(i) ==> i < isize::MAX)
}

pub proof fn lemma_index_text(i: usize)
    ensures
        is_word(index_text(i)),
        forall|j: int| 0 <= j < index_text(i).len() ==> #[trigger] index_text(i)[j] != '/',
        i < isize::MAX ==> parsed_isize(index_text(i)) == Some((i + 1) as isize),
{
    lemma_decimal(i as nat + 1);
    let d = index_text(i);
    assert forall|j: int| 0 <= j < d.len() implies !is_ws(#[trigger] d[j]) && d[j] != '/' by {
        assert(is_digit(d[j]));
    }
    if i < isize::MAX {
        lemma_decimal_parses(i as nat + 1);
    }
}

pub proof fn lemma_split_plain(x: Seq<char>)
    requires
        forall|j: int| 0 <= j < x.len() ==> #[trigger] x[j] != '/',
    ensures
        split_at_char(x, '/') == seq![x],
{
    lemma_len_before_exact(x, '/', x.len() as int);
}

pub proof fn lemma_split_slash(x: Seq<char>, y: Seq<char>)
    requires
        forall|j: int| 0 <= j < x.len() ==> #[trigger] x[j] != '/',
    ensures
        split_at_char(x + seq!['/'] + y, '/') == seq![x] + split_at_char(y, '/'),
{
    let s = x + seq!['/'] + y;
    assert forall|j: int| 0 <= j < x.len() implies #[trigger] s[j] != '/' by {
        assert(s[j] == x[j]);
    }
    assert(s[x.len() as int] == '/');
    lemma_len_before_exact(s, '/', x.len() as int);
    assert(s.take(x.len() as int) =~= x);
    assert(s.skip(x.len() + 1 as int) =~= y);
}

/// Texts without whitespace stay so when joined.
proof fn lemma_no_ws_concat(a: Seq<char>, b: Seq<char>)
    requires
        forall|j: int| 0 <= j < a.len() ==> !is_ws(#[trigger] a[j]),
        forall|j: int| 0 <= j < b.len() ==> !is_ws(#[trigger] b[j]),
    ensures
        forall|j: int| 0 <= j < (a + b).len() ==> !is_ws(#[trigger] (a + b)[j]),
{
    assert forall|j: int| 0 <= j < (a + b).len() implies !is_ws(#[trigger] (a + b)[j]) by {
        if j < a.len() {
            assert((a + b)[j] == a[j]);
        } else {
            assert((a + b)[j] == b[j - a.len()]);
        }
    }
}

/// The `/`-separated parts of a corner's text: the numerals, with an empty part where
/// a normal follows no texture coordinate.
pub open spec fn corner_pieces(t: IndexTuple) -> Seq<Seq<char>> {
    match (t.1, t.2) {
        (None, None) => seq![index_text(t.0)],
        (None, Some(b)) => seq![index_text(t.0), Seq::<char>::empty(), index_text(b)],
        (Some(a), None) => seq![index_text(t.0), index_text(a)],
        (Some(a), Some(b)) => seq![index_text(t.0), index_text(a), index_text(b)],
    }
}

#[verifier::rlimit(30)]
proof fn lemma_corner_pieces(t: IndexTuple)
    ensures
        pieces(tuple_text(t)) == corner_pieces(t),
        is_word(tuple_text(t)),
{
    let tt = tuple_text(t);
    let d0 = index_text(t.0);
    let slash = seq!['/'];
    assert(!is_ws(slash[0]));
    assert(forall|j: int| 0 <= j < slash.len() ==> !is_ws(#[trigger] slash[j]));
    lemma_index_text(t.0);
    lemma_index_text(t.1.unwrap_or(0));
    lemma_index_text(t.2.unwrap_or(0));
    match t.1 {
        None => {
            match t.2 {
                None => {
                    assert(tt =~= d0);
                    lemma_split_plain(d0);
                },
                Some(b) => {
                    let db = index_text(b);
                    let rest = Seq::<char>::empty() + slash + db;
                    assert(tt =~= d0 + slash + rest);
                    lemma_split_slash(d0, rest);
                    lemma_split_slash(Seq::<char>::empty(), db);
                    lemma_split_plain(db);
                    lemma_no_ws_concat(d0, slash);
                    lemma_no_ws_concat(d0 + slash, slash);
                    lemma_no_ws_concat(d0 + slash + slash, db);
                    assert(tt =~= d0 + slash + slash + db);
                },
            }
        },
        Some(a) => {
            let da = index_text(a);
            match t.2 {
                None => {
                    assert(tt =~= d0 + slash + da);
                    lemma_split_slash(d0, da);
                    lemma_split_plain(da);
                    lemma_no_ws_concat(d0, slash);
                    lemma_no_ws_concat(d0 + slash, da);
                },
                Some(b) => {
                    let db = index_text(b);
                    assert(tt =~= d0 + slash + (da + slash + db));
                    lemma_split_slash(d0, da + slash + db);
                    lemma_split_slash(da, db);
                    lemma_split_plain(db);
                    lemma_no_ws_concat(d0, slash);
                    lemma_no_ws_concat(d0 + slash, da);
                    lemma_no_ws_concat(d0 + slash + da, slash);
                    lemma_no_ws_concat(d0 + slash + da + slash, db);
                    assert(tt =~= d0 + slash + da + slash + db);
                },
            }
        },
    }
    assert(tt.len() > 0) by {
        assert(tt[0] == d0[0]);
    }
}

/// The text of a corner is a word; read back it gives the corner, and it has no zero
/// index.
pub proof fn lemma_corner_reads_back(d: ObjDataView, t: IndexTuple)
    requires
        corner_ok(t),
    ensures
        is_word(tuple_text(t)),
        parsed_group(d, tuple_text(t)) == Some(t),
        !group_panics(tuple_text(t)),
        index_p(tuple_text(t)) is Some,
{
    lemma_corner_pieces(t);
    lemma_index_text(t.0);
    lemma_index_text(t.1.unwrap_or(0));
    lemma_index_text(t.2.unwrap_or(0));
    assert(corner_pieces(t)[0] == index_text(t.0));
}

/// The corner texts of a face.
pub open spec fn corner_texts(cs: Seq<IndexTuple>) -> Seq<Seq<char>> {
    cs.map_values(|t: IndexTuple| tuple_text(t))
}

/// An `f` line splits into `f` and the texts of its corners, and reads back as one line.
pub proof fn lemma_face_words(cs: Seq<IndexTuple>)
    requires
        forall|i: int| 0 <= i < cs.len() ==> corner_ok(#[trigger] cs[i]),
    ensures
        words(face_line(cs)) == seq![seq!['f']] + corner_texts(cs),
        line_ok(face_line(cs)),
    decreases cs.len(),
{
    let l = face_line(cs);
    if cs.len() == 0 {
        assert(l =~= seq!['f']);
        lemma_words_single(seq!['f']);
        assert(corner_texts(cs) =~= Seq::<Seq<char>>::empty());
        assert(seq![seq!['f']] + corner_texts(cs) =~= seq![seq!['f']]);
    } else {
        let init = cs.drop_last();
        assert forall|i: int| 0 <= i < init.len() implies corner_ok(#[trigger] init[i]) by {
            assert(init[i] == cs[i]);
        }
        lemma_face_words(init);
        let li = face_line(init);
        let tt = tuple_text(cs.last());
        lemma_corner_reads_back(empty_data(), cs.last());
        assert(l =~= li + seq![' '] + tt);
        lemma_words_concat(li, seq![' ']);
        lemma_words_concat(li + seq![' '], tt);
        lemma_words_single(tt);
        assert(words(seq![' ']) =~= Seq::<Seq<char>>::empty()) by {
            assert(is_ws(seq![' '][0]));
            assert(seq![' '].drop_first() =~= Seq::<char>::empty());
            assert(words(Seq::<char>::empty()) =~= Seq::<Seq<char>>::empty());
        }
        assert(corner_texts(cs) =~= corner_texts(init).push(tt));
        assert(words(l) =~= seq![seq!['f']] + corner_texts(cs));
        assert forall|j: int| 0 <= j < l.len() implies #[trigger] l[j] != '\n' by {
            if j < li.len() {
                assert(l[j] == li[j]);
            } else if j > li.len() {
                assert(l[j] == tt[j - li.len() - 1]);
                assert(!is_ws(tt[j - li.len() - 1]));
            }
        }
        assert(l.last() == tt.last());
        assert(!is_ws(tt[tt.len() - 1]));
    }
}

/// The corner texts of a face read back as its corners, and none of them panics.
pub proof fn lemma_corners_read_back(d: ObjDataView, line_number: usize, cs: Seq<IndexTuple>)
    requires
        forall|i: int| 0 <= i < cs.len() ==> corner_ok(#[trigger] cs[i]),
    ensures
        parsed_corners(d, line_number, corner_texts(cs)) == Ok::<Seq<IndexTuple>, ObjErrorView>(cs),
        !face_panics(corner_texts(cs)),
    decreases cs.len(),
{
    let gs = corner_texts(cs);
    if cs.len() == 0 {
        assert(gs.len() == 0);
        assert(cs =~= Seq::<IndexTuple>::empty());
    } else {
        let rest = cs.drop_first();
        assert forall|i: int| 0 <= i < rest.len() implies corner_ok(#[trigger] rest[i]) by {
            assert(rest[i] == cs[i + 1]);
        }
        lemma_corners_read_back(d, line_number, rest);
        lemma_corner_reads_back(d, cs[0]);
        assert(gs[0] == tuple_text(cs[0]));
        assert(gs.drop_first() =~= corner_texts(rest));
        assert(seq![cs[0]] + rest =~= cs);
    }
}

// ---------------------------------------------------------------------------
// Reading each kind of line
/// A name that the writer writes after `o` or `g` and the reader reads back: not empty,
/// no whitespace at either end, no newline.
pub open spec fn name_ok(n: Seq<char>) -> bool {
    &&& n.len() > 0
    &&& !is_ws(n[0])
    &&& !is_ws(n.last())
    &&& forall|i: int| 0 <= i < n.len() ==> #[trigger] n[i] != '\n'
}

proof fn lemma_space_no_words()
    ensures
        words(seq![' ']) == Seq::<Seq<char>>::empty(),
{
    assert(is_ws(seq![' '][0]));
    assert(seq![' '].drop_first() =~= Seq::<char>::empty());
    assert(words(Seq::<char>::empty()) =~= Seq::<Seq<char>>::empty());
    assert(words(seq![' ']) =~= Seq::<Seq<char>>::empty());
}

/// A command word, a space and the rest: the command is the first word.
proof fn lemma_command_words(cmd: Seq<char>, rest: Seq<char>)
    requires
        is_word(cmd),
    ensures
        words(cmd + seq![' '] + rest) == seq![cmd] + words(rest),
{
    lemma_words_concat(cmd, seq![' ']);
    lemma_words_concat(cmd + seq![' '], rest);
    lemma_words_single(cmd);
    lemma_space_no_words();
    assert(seq![cmd] + Seq::<Seq<char>>::empty() =~= seq![cmd]);
}

/// `cmd`, a space and a word-free-ended text: no newline, no final carriage return.
proof fn lemma_command_line_ok(cmd: Seq<char>, rest: Seq<char>)
    requires
        is_word(cmd),
        forall|i: int| 0 <= i < rest.len() ==> #[trigger] rest[i] != '\n',
        rest.len() > 0,
        !is_ws(rest.last()),
    ensures
        line_ok(cmd + seq![' '] + rest),
{
    let l = cmd + seq![' '] + rest;
    assert forall|j: int| 0 <= j < l.len() implies #[trigger] l[j] != '\n' by {
        if j < cmd.len() {
            assert(l[j] == cmd[j]);
            assert(!is_ws(cmd[j]));
        } else if j > cmd.len() {
            assert(l[j] == rest[j - cmd.len() - 1]);
        }
    }
    assert(l.last() == rest.last());
}

/// The comment line at the top changes nothing.
pub proof fn lemma_header_step<P: GenPolygon>(st: ParseState, n: usize)
    ensures
        step::<P>(st, n, header_line()) == Ok::<ParseState, ObjErrorView>(st),
        line_ok(header_line()),
        !line_panics(header_line()),
{
    reveal_strlit("# Generated by the obj Rust library (https://crates.io/crates/obj).");
    let h = header_line();
    assert(h[0] == '#');
    assert(!is_ws(h[0]));
    crate::text::lemma_word_len_bound(h);
    let ws = words(h);
    assert(ws[0][0] == '#');
    assert(command_of(ws[0]) is Other) by {
        assert(ws[0] != seq!['v']) by { assert(seq!['v'][0] == 'v'); }
        assert(ws[0] != seq!['v', 't']) by { assert(seq!['v', 't'][0] == 'v'); }
        assert(ws[0] != seq!['v', 'n']) by { assert(seq!['v', 'n'][0] == 'v'); }
        assert(ws[0] != seq!['f']) by { assert(seq!['f'][0] == 'f'); }
        assert(ws[0] != seq!['o']) by { assert(seq!['o'][0] == 'o'); }
        assert(ws[0] != seq!['g']) by { assert(seq!['g'][0] == 'g'); }
        assert(ws[0] != seq!['m', 't', 'l', 'l', 'i', 'b']) by { assert(seq!['m', 't', 'l', 'l', 'i', 'b'][0] == 'm'); }
        assert(ws[0] != seq!['u', 's', 'e', 'm', 't', 'l']) by { assert(seq!['u', 's', 'e', 'm', 't', 'l'][0] == 'u'); }
        assert(ws[0] != seq!['s']) by { assert(seq!['s'][0] == 's'); }
        assert(ws[0] != seq!['l']) by { assert(seq!['l'][0] == 'l'); }
    }
    assert(forall|i: int| 0 <= i < h.len() ==> #[trigger] h[i] != '\n');
    assert(h.last() == '.');
}

/// A coordinate list the writer writes and the reader reads back: the numerals are
/// words that `f32::from_str` accepts.
pub open spec fn coords_ok(c: Seq<Seq<char>>) -> bool {
    forall|i: int| 0 <= i < c.len() ==> is_word(#[trigger] c[i]) && is_float_literal(c[i])
}

proof fn lemma_coord_words(cmd: Seq<char>, c: Seq<Seq<char>>)
    requires
        is_word(cmd),
        c.len() > 0,
        coords_ok(c),
    ensures
        words(coord_line(cmd, c)) == seq![cmd] + c,
        line_ok(coord_line(cmd, c)),
{
    assert forall|i: int| 0 <= i < c.len() implies is_word(#[trigger] c[i]) by {}
    crate::text::lemma_words_join(c);
    lemma_command_words(cmd, join_with_spaces(c));
    lemma_join_ends(c);
    lemma_command_line_ok(cmd, join_with_spaces(c));
}

proof fn lemma_coords_parse(n: usize, cmd: Seq<char>, c: Seq<Seq<char>>)
    requires
        c.len() == 2 || c.len() == 3,
        coords_ok(c),
    ensures
        ({
            let ws = seq![cmd] + c;
            &&& c.len() == 3 ==> parsed_coords(n, seq![arg(ws, 1), arg(ws, 2), arg(ws, 3)]) == Ok::<
                Seq<Seq<char>>,
                ObjErrorView,
            >(c)
            &&& c.len() == 2 ==> parsed_coords(n, seq![arg(ws, 1), arg(ws, 2)]) == Ok::<
                Seq<Seq<char>>,
                ObjErrorView,
            >(c)
        }),
{
    let ws = seq![cmd] + c;
    if c.len() == 3 {
        let args = seq![arg(ws, 1), arg(ws, 2), arg(ws, 3)];
        assert(args.map_values(|a: Option<Seq<char>>| a->0) =~= c);
    } else {
        let args = seq![arg(ws, 1), arg(ws, 2)];
        assert(args.map_values(|a: Option<Seq<char>>| a->0) =~= c);
    }
}

/// A `v` line adds a position.
pub proof fn lemma_v_step<P: GenPolygon>(st: ParseState, n: usize, c: Seq<Seq<char>>)
    requires
        c.len() == 3,
        coords_ok(c),
    ensures
        step::<P>(st, n, coord_line(seq!['v'], c)) == Ok::<ParseState, ObjErrorView>(
            ParseState { dat: ObjDataView { position: st.dat.position.push(c), ..st.dat }, ..st },
        ),
        line_ok(coord_line(seq!['v'], c)),
        !line_panics(coord_line(seq!['v'], c)),
{
    lemma_coord_words(seq!['v'], c);
    lemma_coords_parse(n, seq!['v'], c);
}

/// A `vt` line adds a texture coordinate.
pub proof fn lemma_vt_step<P: GenPolygon>(st: ParseState, n: usize, c: Seq<Seq<char>>)
    requires
        c.len() == 2,
        coords_ok(c),
    ensures
        step::<P>(st, n, coord_line(seq!['v', 't'], c)) == Ok::<ParseState, ObjErrorView>(
            ParseState { dat: ObjDataView { texture: st.dat.texture.push(c), ..st.dat }, ..st },
        ),
        line_ok(coord_line(seq!['v', 't'], c)),
        !line_panics(coord_line(seq!['v', 't'], c)),
{
    lemma_coord_words(seq!['v', 't'], c);
    lemma_coords_parse(n, seq!['v', 't'], c);
}

/// A `vn` line adds a normal.
pub proof fn lemma_vn_step<P: GenPolygon>(st: ParseState, n: usize, c: Seq<Seq<char>>)
    requires
        c.len() == 3,
        coords_ok(c),
    ensures
        step::<P>(st, n, coord_line(seq!['v', 'n'], c)) == Ok::<ParseState, ObjErrorView>(
            ParseState { dat: ObjDataView { normal: st.dat.normal.push(c), ..st.dat }, ..st },
        ),
        line_ok(coord_line(seq!['v', 'n'], c)),
        !line_panics(coord_line(seq!['v', 'n'], c)),
{
    lemma_coord_words(seq!['v', 'n'], c);
    lemma_coords_parse(n, seq!['v', 'n'], c);
}

proof fn lemma_name_line(cmd: char, name: Seq<char>)
    requires
        name_ok(name),
        !is_ws(cmd),
        (cmd as u32) < 0x80,
    ensures
        words(seq![cmd, ' '] + name) == seq![seq![cmd]] + words(name),
        line_ok(seq![cmd, ' '] + name),
        byte_len(seq![cmd, ' '] + name) > 2,
        chars_in_bytes(seq![cmd, ' '] + name, 1) == Some(1nat),
        chars_in_bytes(seq![cmd, ' '] + name, 2) == Some(2nat),
        trim(after_bytes(seq![cmd, ' '] + name, 1)) == name,
        trim(after_bytes(seq![cmd, ' '] + name, 2)) == name,
{
    let l = seq![cmd, ' '] + name;
    assert(is_word(seq![cmd]));
    assert(l =~= seq![cmd] + seq![' '] + name);
    lemma_command_words(seq![cmd], name);
    lemma_command_line_ok(seq![cmd], name);
    lemma_byte_len_ge(l);
    assert(utf8_width(l[0]) == 1);
    assert(l.drop_first()[0] == ' ');
    assert(utf8_width(l.drop_first()[0]) == 1);
    assert(chars_in_bytes(l.drop_first().drop_first(), 0) == Some(0nat));
    assert(chars_in_bytes(l.drop_first(), 0) == Some(0nat));
    assert(chars_in_bytes(l.drop_first(), 1) == Some(1nat));
    assert(chars_in_bytes(l, 1) == Some(1nat));
    assert(chars_in_bytes(l, 2) == Some(2nat));
    assert(l.skip(1) =~= seq![' '] + name);
    assert(l.skip(2) =~= name);
    lemma_trim_plain(name);
}

proof fn lemma_command_o_g()
    ensures
        command_of(seq!['o']) is O,
        command_of(seq!['g']) is G,
{
    assert(seq!['o'] != seq!['v']) by { assert(seq!['o'][0] != seq!['v'][0]); }
    assert(seq!['o'] != seq!['f']) by { assert(seq!['o'][0] != seq!['f'][0]); }
    assert(seq!['g'] != seq!['v']) by { assert(seq!['g'][0] != seq!['v'][0]); }
    assert(seq!['g'] != seq!['f']) by { assert(seq!['g'][0] != seq!['f'][0]); }
    assert(seq!['g'] != seq!['o']) by { assert(seq!['g'][0] != seq!['o'][0]); }
    assert(seq!['o'] != seq!['v', 't']);
    assert(seq!['o'] != seq!['v', 'n']);
    assert(seq!['g'] != seq!['v', 't']);
    assert(seq!['g'] != seq!['v', 'n']);
}

/// An `o` line closes the current object, keeping it when it has a group, and opens the
/// named one.
pub proof fn lemma_o_step<P: GenPolygon>(st: ParseState, n: usize, name: Seq<char>)
    requires
        name_ok(name),
    ensures
        step::<P>(st, n, o_line(name)) == Ok::<ParseState, ObjErrorView>(
            ParseState {
                dat: closed_object(st),
                object: new_object(name),
                group: None,
            },
        ),
        line_ok(o_line(name)),
        !line_panics(o_line(name)),
{
    lemma_name_line('o', name);
    lemma_command_o_g();
    assert(o_line(name) == seq!['o', ' '] + name);
}

/// A `g` line closes the current group and opens the named one.
pub proof fn lemma_g_step<P: GenPolygon>(st: ParseState, n: usize, name: Seq<char>)
    requires
        name_ok(name),
    ensures
        step::<P>(st, n, g_line(name)) == Ok::<ParseState, ObjErrorView>(
            ParseState { object: add_group(st.object, st.group), group: Some(new_group(name)), ..st },
        ),
        line_ok(g_line(name)),
        !line_panics(g_line(name)),
{
    lemma_name_line('g', name);
    lemma_command_o_g();
    assert(g_line(name) == seq!['g', ' '] + name);
}

/// A `usemtl` line on a group without a material gives it the material; on a group with
/// one, it closes the group and continues it under the new material.
pub proof fn lemma_usemtl_step<P: GenPolygon>(st: ParseState, n: usize, m: Seq<char>)
    requires
        is_word(m),
        st.group is Some,
    ensures
        st.group->0.material is None ==> step::<P>(st, n, usemtl_line(m)) == Ok::<ParseState, ObjErrorView>(
            ParseState {
                group: Some(GroupView { material: Some(ObjMaterialView::Ref(m)), ..st.group->0 }),
                ..st
            },
        ),
        st.group->0.material is Some ==> step::<P>(st, n, usemtl_line(m)) == Ok::<ParseState, ObjErrorView>(
            ParseState {
                object: add_group(st.object, st.group),
                group: Some(
                    GroupView {
                        index: (st.group->0.index + 1) as usize,
                        material: Some(ObjMaterialView::Ref(m)),
                        polys: seq![],
                        ..st.group->0
                    },
                ),
                ..st
            },
        ),
        line_ok(usemtl_line(m)),
        !line_panics(usemtl_line(m)),
{
    let cmd = seq!['u', 's', 'e', 'm', 't', 'l'];
    assert(usemtl_line(m) =~= cmd + seq![' '] + m);
    assert(is_word(cmd));
    lemma_command_words(cmd, m);
    lemma_words_single(m);
    assert(forall|i: int| 0 <= i < m.len() ==> #[trigger] m[i] != '\n' && !is_ws(m[i]));
    lemma_command_line_ok(cmd, m);
}

/// An `f` line adds a face to the current group.
pub proof fn lemma_f_step(st: ParseState, n: usize, cs: Seq<IndexTuple>)
    requires
        forall|i: int| 0 <= i < cs.len() ==> corner_ok(#[trigger] cs[i]),
        st.group is Some,
    ensures
        step::<SimplePolygon>(st, n, face_line(cs)) == Ok::<ParseState, ObjErrorView>(
            ParseState { group: Some(GroupView { polys: st.group->0.polys.push(cs), ..st.group->0 }), ..st },
        ),
        line_ok(face_line(cs)),
        !line_panics(face_line(cs)),
{
    lemma_face_words(cs);
    lemma_corners_read_back(st.dat, n, cs);
    let ws = words(face_line(cs));
    assert(ws.skip(1) =~= corner_texts(cs));
}

/// A library file name the writer writes and the reader reads back: its words joined by
/// single spaces.
pub open spec fn filename_ok(f: Seq<char>) -> bool {
    words(f).len() > 0 && join_with_spaces(words(f)) == f
}

/// An `mtllib` line adds a library with no materials loaded.
pub proof fn lemma_mtllib_step<P: GenPolygon>(st: ParseState, n: usize, f: Seq<char>)
    requires
        filename_ok(f),
    ensures
        step::<P>(st, n, mtllib_line(f)) == Ok::<ParseState, ObjErrorView>(
            ParseState {
                dat: ObjDataView {
                    material_libs: st.dat.material_libs.push(MtlView { filename: f, materials: seq![] }),
                    ..st.dat
                },
                ..st
            },
        ),
        line_ok(mtllib_line(f)),
        !line_panics(mtllib_line(f)),
{
    let cmd = seq!['m', 't', 'l', 'l', 'i', 'b'];
    assert(mtllib_line(f) =~= cmd + seq![' '] + f);
    assert(is_word(cmd));
    lemma_command_words(cmd, f);
    lemma_words_are_words(f);
    lemma_join_ends(words(f));
    lemma_command_line_ok(cmd, f);
    let ws = words(mtllib_line(f));
    assert(ws.skip(1) =~= words(f));
}

// ---------------------------------------------------------------------------
// Reading the blocks of the text
/// Lines that read back as themselves and on which reading completes.
pub open spec fn good_lines(ls: Seq<Seq<char>>) -> bool {
    forall|i: int| 0 <= i < ls.len() ==> line_ok(#[trigger] ls[i]) && !line_panics(ls[i])
}

proof fn lemma_run_one<P: GenPolygon>(st: ParseState, base: nat, l: Seq<char>)
    ensures
        run::<P>(st, base, seq![l]) == step::<P>(st, base as usize, l),
{
    let ls = seq![l];
    assert(ls.len() == 1);
    assert(ls.drop_last() =~= Seq::<Seq<char>>::empty());
    assert(run::<P>(st, base, ls.drop_last()) == Ok::<ParseState, ObjErrorView>(st));
    assert(ls.last() == l);
}

proof fn lemma_run_positions<P: GenPolygon>(st: ParseState, base: nat, cs: Seq<Seq<Seq<char>>>)
    requires
        forall|i: int| 0 <= i < cs.len() ==> (#[trigger] cs[i]).len() == 3 && coords_ok(cs[i]),
    ensures
        run::<P>(st, base, coord_lines(seq!['v'], cs)) == Ok::<ParseState, ObjErrorView>(
            ParseState { dat: ObjDataView { position: st.dat.position + cs, ..st.dat }, ..st },
        ),
        good_lines(coord_lines(seq!['v'], cs)),
    decreases cs.len(),
{
    let ls = coord_lines(seq!['v'], cs);
    if cs.len() == 0 {
        assert(ls =~= Seq::<Seq<char>>::empty());
        assert(st.dat.position + cs =~= st.dat.position);
        assert(ParseState { dat: ObjDataView { position: st.dat.position + cs, ..st.dat }, ..st } =~= st);
    } else {
        let init = cs.drop_last();
        assert forall|i: int| 0 <= i < init.len() implies (#[trigger] init[i]).len() == 3 && coords_ok(init[i]) by {
            assert(init[i] == cs[i]);
        }
        lemma_run_positions::<P>(st, base, init);
        assert(ls.drop_last() =~= coord_lines(seq!['v'], init));
        let s1 = ParseState { dat: ObjDataView { position: st.dat.position + init, ..st.dat }, ..st };
        lemma_v_step::<P>(s1, (base + ls.len() - 1) as usize, cs.last());
        assert(ls.last() == coord_line(seq!['v'], cs.last()));
        assert(s1.dat.position.push(cs.last()) =~= st.dat.position + cs);
        let s2 = ParseState { dat: ObjDataView { position: s1.dat.position.push(cs.last()), ..s1.dat }, ..s1 };
        assert(s2 =~= ParseState { dat: ObjDataView { position: st.dat.position + cs, ..st.dat }, ..st });
        assert forall|i: int| 0 <= i < ls.len() implies line_ok(#[trigger] ls[i]) && !line_panics(ls[i]) by {
            if i < ls.len() - 1 {
                assert(ls[i] == coord_lines(seq!['v'], init)[i]);
            }
        }
    }
}

proof fn lemma_run_textures<P: GenPolygon>(st: ParseState, base: nat, cs: Seq<Seq<Seq<char>>>)
    requires
        forall|i: int| 0 <= i < cs.len() ==> (#[trigger] cs[i]).len() == 2 && coords_ok(cs[i]),
    ensures
        run::<P>(st, base, coord_lines(seq!['v', 't'], cs)) == Ok::<ParseState, ObjErrorView>(
            ParseState { dat: ObjDataView { texture: st.dat.texture + cs, ..st.dat }, ..st },
        ),
        good_lines(coord_lines(seq!['v', 't'], cs)),
    decreases cs.len(),
{
    let ls = coord_lines(seq!['v', 't'], cs);
    if cs.len() == 0 {
        assert(ls =~= Seq::<Seq<char>>::empty());
        assert(st.dat.texture + cs =~= st.dat.texture);
        assert(ParseState { dat: ObjDataView { texture: st.dat.texture + cs, ..st.dat }, ..st } =~= st);
    } else {
        let init = cs.drop_last();
        assert forall|i: int| 0 <= i < init.len() implies (#[trigger] init[i]).len() == 2 && coords_ok(init[i]) by {
            assert(init[i] == cs[i]);
        }
        lemma_run_textures::<P>(st, base, init);
        assert(ls.drop_last() =~= coord_lines(seq!['v', 't'], init));
        let s1 = ParseState { dat: ObjDataView { texture: st.dat.texture + init, ..st.dat }, ..st };
        lemma_vt_step::<P>(s1, (base + ls.len() - 1) as usize, cs.last());
        assert(ls.last() == coord_line(seq!['v', 't'], cs.last()));
        assert(s1.dat.texture.push(cs.last()) =~= st.dat.texture + cs);
        let s2 = ParseState { dat: ObjDataView { texture: s1.dat.texture.push(cs.last()), ..s1.dat }, ..s1 };
        assert(s2 =~= ParseState { dat: ObjDataView { texture: st.dat.texture + cs, ..st.dat }, ..st });
        assert forall|i: int| 0 <= i < ls.len() implies line_ok(#[trigger] ls[i]) && !line_panics(ls[i]) by {
            if i < ls.len() - 1 {
                assert(ls[i] == coord_lines(seq!['v', 't'], init)[i]);
            }
        }
    }
}

proof fn lemma_run_normals<P: GenPolygon>(st: ParseState, base: nat, cs: Seq<Seq<Seq<char>>>)
    requires
        forall|i: int| 0 <= i < cs.len() ==> (#[trigger] cs[i]).len() == 3 && coords_ok(cs[i]),
    ensures
        run::<P>(st, base, coord_lines(seq!['v', 'n'], cs)) == Ok::<ParseState, ObjErrorView>(
            ParseState { dat: ObjDataView { normal: st.dat.normal + cs, ..st.dat }, ..st },
        ),
        good_lines(coord_lines(seq!['v', 'n'], cs)),
    decreases cs.len(),
{
    let ls = coord_lines(seq!['v', 'n'], cs);
    if cs.len() == 0 {
        assert(ls =~= Seq::<Seq<char>>::empty());
        assert(st.dat.normal + cs =~= st.dat.normal);
        assert(ParseState { dat: ObjDataView { normal: st.dat.normal + cs, ..st.dat }, ..st } =~= st);
    } else {
        let init = cs.drop_last();
        assert forall|i: int| 0 <= i < init.len() implies (#[trigger] init[i]).len() == 3 && coords_ok(init[i]) by {
            assert(init[i] == cs[i]);
        }
        lemma_run_normals::<P>(st, base, init);
        assert(ls.drop_last() =~= coord_lines(seq!['v', 'n'], init));
        let s1 = ParseState { dat: ObjDataView { normal: st.dat.normal + init, ..st.dat }, ..st };
        lemma_vn_step::<P>(s1, (base + ls.len() - 1) as usize, cs.last());
        assert(ls.last() == coord_line(seq!['v', 'n'], cs.last()));
        assert(s1.dat.normal.push(cs.last()) =~= st.dat.normal + cs);
        let s2 = ParseState { dat: ObjDataView { normal: s1.dat.normal.push(cs.last()), ..s1.dat }, ..s1 };
        assert(s2 =~= ParseState { dat: ObjDataView { normal: st.dat.normal + cs, ..st.dat }, ..st });
        assert forall|i: int| 0 <= i < ls.len() implies line_ok(#[trigger] ls[i]) && !line_panics(ls[i]) by {
            if i < ls.len() - 1 {
                assert(ls[i] == coord_lines(seq!['v', 'n'], init)[i]);
            }
        }
    }
}

/// A library the writer writes and the reader reads back: a file name of words joined
/// by single spaces, and no materials loaded.
pub open spec fn lib_ok(m: MtlView) -> bool {
    filename_ok(m.filename) && m.materials == Seq::<crate::mtl::MaterialView>::empty()
}

proof fn lemma_run_libs<P: GenPolygon>(st: ParseState, base: nat, libs: Seq<MtlView>)
    requires
        forall|i: int| 0 <= i < libs.len() ==> lib_ok(#[trigger] libs[i]),
    ensures
        run::<P>(st, base, lib_lines(libs)) == Ok::<ParseState, ObjErrorView>(
            ParseState { dat: ObjDataView { material_libs: st.dat.material_libs + libs, ..st.dat }, ..st },
        ),
        good_lines(lib_lines(libs)),
    decreases libs.len(),
{
    let ls = lib_lines(libs);
    if libs.len() == 0 {
        assert(ls =~= Seq::<Seq<char>>::empty());
        assert(st.dat.material_libs + libs =~= st.dat.material_libs);
        assert(ParseState { dat: ObjDataView { material_libs: st.dat.material_libs + libs, ..st.dat }, ..st } =~= st);
    } else {
        let init = libs.drop_last();
        assert forall|i: int| 0 <= i < init.len() implies lib_ok(#[trigger] init[i]) by {
            assert(init[i] == libs[i]);
        }
        lemma_run_libs::<P>(st, base, init);
        assert(ls.drop_last() =~= lib_lines(init));
        let s1 = ParseState { dat: ObjDataView { material_libs: st.dat.material_libs + init, ..st.dat }, ..st };
        assert(lib_ok(libs.last()));
        lemma_mtllib_step::<P>(s1, (base + ls.len() - 1) as usize, libs.last().filename);
        assert(ls.last() == mtllib_line(libs.last().filename));
        assert(MtlView { filename: libs.last().filename, materials: seq![] } =~= libs.last());
        assert(s1.dat.material_libs.push(libs.last()) =~= st.dat.material_libs + libs);
        let s2 = ParseState {
            dat: ObjDataView { material_libs: s1.dat.material_libs.push(MtlView { filename: libs.last().filename, materials: seq![] }), ..s1.dat },
            ..s1
        };
        assert(s2 =~= ParseState { dat: ObjDataView { material_libs: st.dat.material_libs + libs, ..st.dat }, ..st });
        assert forall|i: int| 0 <= i < ls.len() implies line_ok(#[trigger] ls[i]) && !line_panics(ls[i]) by {
            if i < ls.len() - 1 {
                assert(ls[i] == lib_lines(init)[i]);
            }
        }
    }
}

/// A group the writer writes and the reader reads back: a name that reads back when a
/// `g` line carries it, a material named by a single word, and corners that read back.
pub open spec fn group_ok(g: GroupView) -> bool {
    &&& (g.index == 0 ==> name_ok(g.name))
    &&& (g.material matches Some(m) ==> m is Ref && is_word(material_name(m)))
    &&& forall|k: int, c: int|
        0 <= k < g.polys.len() && 0 <= c < g.polys[k].len() ==> corner_ok(#[trigger] g.polys[k][c])
}

/// `g` continues `prev` after a change of material, as a `usemtl` line reads it.
pub open spec fn continues(prev: GroupView, g: GroupView) -> bool {
    &&& g.index == prev.index + 1
    &&& g.name == prev.name
    &&& prev.material is Some
    &&& g.material is Some
}

proof fn lemma_run_faces(st: ParseState, base: nat, polys: Seq<Seq<IndexTuple>>)
    requires
        st.group is Some,
        forall|k: int, c: int| 0 <= k < polys.len() && 0 <= c < polys[k].len() ==> corner_ok(#[trigger] polys[k][c]),
    ensures
        run::<SimplePolygon>(st, base, face_lines(polys)) == Ok::<ParseState, ObjErrorView>(
            ParseState { group: Some(GroupView { polys: st.group->0.polys + polys, ..st.group->0 }), ..st },
        ),
        good_lines(face_lines(polys)),
    decreases polys.len(),
{
    let ls = face_lines(polys);
    let g = st.group->0;
    if polys.len() == 0 {
        assert(ls =~= Seq::<Seq<char>>::empty());
        assert(g.polys + polys =~= g.polys);
        assert(ParseState { group: Some(GroupView { polys: g.polys + polys, ..g }), ..st } =~= st);
    } else {
        let init = polys.drop_last();
        assert forall|k: int, c: int| 0 <= k < init.len() && 0 <= c < init[k].len() implies corner_ok(#[trigger] init[k][c]) by {
            assert(init[k] == polys[k]);
        }
        lemma_run_faces(st, base, init);
        assert(ls.drop_last() =~= face_lines(init));
        assert(ls.last() == face_line(polys.last()));
        let s1 = ParseState { group: Some(GroupView { polys: g.polys + init, ..g }), ..st };
        assert forall|c: int| 0 <= c < polys.last().len() implies corner_ok(#[trigger] polys.last()[c]) by {
            assert(polys.last() == polys[polys.len() - 1]);
        }
        lemma_f_step(s1, (base + ls.len() - 1) as usize, polys.last());
        assert((g.polys + init).push(polys.last()) =~= g.polys + polys);
        let s2 = ParseState { group: Some(GroupView { polys: (g.polys + init).push(polys.last()), ..g }), ..st };
        assert(s2 =~= ParseState { group: Some(GroupView { polys: g.polys + polys, ..g }), ..st });
        assert forall|i: int| 0 <= i < ls.len() implies line_ok(#[trigger] ls[i]) && !line_panics(ls[i]) by {
            if i < ls.len() - 1 {
                assert(ls[i] == face_lines(init)[i]);
            }
        }
    }
}

proof fn lemma_good_lines_concat(a: Seq<Seq<char>>, b: Seq<Seq<char>>)
    requires
        good_lines(a),
        good_lines(b),
    ensures
        good_lines(a + b),
{
    assert forall|i: int| 0 <= i < (a + b).len() implies line_ok(#[trigger] (a + b)[i]) && !line_panics((a + b)[i]) by {
        if i < a.len() {
            assert((a + b)[i] == a[i]);
        } else {
            assert((a + b)[i] == b[i - a.len()]);
        }
    }
}

/// Reading the lines of one group closes the current group and makes this one current.
proof fn lemma_run_group(st: ParseState, base: nat, g: GroupView)
    requires
        group_ok(g),
        g.index == 0 || (st.group is Some && continues(st.group->0, g)),
    ensures
        run::<SimplePolygon>(st, base, group_lines(g)) == Ok::<ParseState, ObjErrorView>(
            ParseState { object: add_group(st.object, st.group), group: Some(g), dat: st.dat },
        ),
        good_lines(group_lines(g)),
{
    let head = group_head_lines(g.name, g.index, g.material);
    let faces = face_lines(g.polys);
    lemma_run_concat::<SimplePolygon>(st, base, head, faces);
    let g0 = GroupView { polys: seq![], ..g };
    let mid = ParseState { object: add_group(st.object, st.group), group: Some(g0), dat: st.dat };
    if g.index == 0 {
        let s1 = ParseState { object: add_group(st.object, st.group), group: Some(new_group(g.name)), ..st };
        lemma_g_step::<SimplePolygon>(st, base as usize, g.name);
        lemma_run_one::<SimplePolygon>(st, base, g_line(g.name));
        match g.material {
            None => {
                assert(head =~= seq![g_line(g.name)]);
                assert(new_group(g.name) =~= g0);
                assert(s1 =~= mid);
            },
            Some(m) => {
                let mm = material_name(m);
                assert(head =~= seq![g_line(g.name)] + seq![usemtl_line(mm)]);
                lemma_run_concat::<SimplePolygon>(st, base, seq![g_line(g.name)], seq![usemtl_line(mm)]);
                lemma_usemtl_step::<SimplePolygon>(s1, (base + 1) as usize, mm);
                lemma_run_one::<SimplePolygon>(s1, base + 1, usemtl_line(mm));
                assert(m == ObjMaterialView::Ref(mm));
                let s2 = ParseState { group: Some(GroupView { material: Some(ObjMaterialView::Ref(mm)), ..new_group(g.name) }), ..s1 };
                assert(s2 =~= mid);
                lemma_good_lines_concat(seq![g_line(g.name)], seq![usemtl_line(mm)]);
            },
        }
    } else {
        let p = st.group->0;
        let m = g.material->0;
        let mm = material_name(m);
        assert(head =~= seq![usemtl_line(mm)]);
        lemma_usemtl_step::<SimplePolygon>(st, base as usize, mm);
        lemma_run_one::<SimplePolygon>(st, base, usemtl_line(mm));
        assert(m == ObjMaterialView::Ref(mm));
        let s1 = ParseState {
            object: add_group(st.object, st.group),
            group: Some(GroupView { index: (p.index + 1) as usize, material: Some(ObjMaterialView::Ref(mm)), polys: seq![], ..p }),
            ..st
        };
        assert(s1 =~= mid);
    }
    assert forall|k: int, c: int| 0 <= k < g.polys.len() && 0 <= c < g.polys[k].len() implies corner_ok(#[trigger] g.polys[k][c]) by {}
    lemma_run_faces(mid, base + head.len(), g.polys);
    assert(Seq::<Seq<IndexTuple>>::empty() + g.polys =~= g.polys);
    assert(GroupView { polys: g0.polys + g.polys, ..g0 } =~= g);
    lemma_good_lines_concat(head, faces);
}

/// A sequence of groups the writer writes and the reader reads back: each group reads
/// back, the first starts anew, and each other one starts anew or continues the one before.
pub open spec fn groups_ok(gs: Seq<GroupView>) -> bool {
    &&& forall|i: int| 0 <= i < gs.len() ==> group_ok(#[trigger] gs[i])
    &&& gs.len() > 0 ==> gs[0].index == 0
    &&& forall|i: int| 0 < i < gs.len() ==> (#[trigger] gs[i]).index == 0 || continues(gs[i - 1], gs[i])
}

proof fn lemma_run_groups(st: ParseState, base: nat, gs: Seq<GroupView>)
    requires
        groups_ok(gs),
        gs.len() > 0,
    ensures
        run::<SimplePolygon>(st, base, groups_lines(gs)) == Ok::<ParseState, ObjErrorView>(
            ParseState {
                object: ObjectView { groups: add_group(st.object, st.group).groups + gs.drop_last(), ..st.object },
                group: Some(gs.last()),
                dat: st.dat,
            },
        ),
        good_lines(groups_lines(gs)),
    decreases gs.len(),
{
    let init = gs.drop_last();
    let last = gs.last();
    let ls = groups_lines(gs);
    assert(ls == groups_lines(init) + group_lines(last));
    assert(group_ok(gs[gs.len() - 1]));
    if gs.len() == 1 {
        assert(groups_lines(init) =~= Seq::<Seq<char>>::empty());
        assert(ls =~= group_lines(last));
        lemma_run_group(st, base, last);
        assert(add_group(st.object, st.group).groups + init =~= add_group(st.object, st.group).groups);
        assert(ObjectView { groups: add_group(st.object, st.group).groups + init, ..st.object } =~= add_group(st.object, st.group));
    } else {
        assert(groups_ok(init)) by {
            assert forall|i: int| 0 <= i < init.len() implies group_ok(#[trigger] init[i]) by {
                assert(init[i] == gs[i]);
            }
            assert forall|i: int| 0 < i < init.len() implies (#[trigger] init[i]).index == 0 || continues(init[i - 1], init[i]) by {
                assert(init[i] == gs[i]);
                assert(init[i - 1] == gs[i - 1]);
                assert(gs[i].index == 0 || continues(gs[i - 1], gs[i]));
            }
        }
        lemma_run_groups(st, base, init);
        lemma_run_concat::<SimplePolygon>(st, base, groups_lines(init), group_lines(last));
        let s1 = ParseState {
            object: ObjectView { groups: add_group(st.object, st.group).groups + init.drop_last(), ..st.object },
            group: Some(init.last()),
            dat: st.dat,
        };
        assert(init.last() == gs[gs.len() - 2]);
        assert(last.index == 0 || continues(gs[gs.len() - 2], last)) by {
            assert(gs[gs.len() - 1].index == 0 || continues(gs[gs.len() - 1 - 1], gs[gs.len() - 1]));
        }
        lemma_run_group(s1, base + groups_lines(init).len(), last);
        assert((add_group(st.object, st.group).groups + init.drop_last()).push(init.last()) =~= add_group(st.object, st.group).groups + init);
        assert(add_group(s1.object, s1.group) =~= ObjectView { groups: add_group(st.object, st.group).groups + init, ..st.object });
        lemma_good_lines_concat(groups_lines(init), group_lines(last));
    }
}

/// The reader's state while an object's lines are read: the finished objects `done`, and
/// `o` split into the groups it already holds and its current group.
pub open spec fn holding(d: ObjDataView, done: Seq<ObjectView>, o: ObjectView) -> ParseState {
    ParseState {
        dat: ObjDataView { objects: done, ..d },
        object: if o.groups.len() > 0 {
            ObjectView { groups: o.groups.drop_last(), ..o }
        } else {
            o
        },
        group: if o.groups.len() > 0 {
            Some(o.groups.last())
        } else {
            None
        },
    }
}

/// An object the writer writes and the reader reads back.
pub open spec fn object_ok(o: ObjectView) -> bool {
    &&& groups_ok(o.groups)
    &&& o.name != default_name() ==> name_ok(o.name)
}

proof fn lemma_run_object(d: ObjDataView, done: Seq<ObjectView>, prev: ObjectView, base: nat, o: ObjectView)
    requires
        object_ok(o),
        o.name == default_name() ==> prev == new_object(default_name()),
    ensures
        run::<SimplePolygon>(holding(d, done, prev), base, object_lines(o)) == Ok::<ParseState, ObjErrorView>(
            holding(
                d,
                if prev.groups.len() > 0 {
                    done.push(prev)
                } else {
                    done
                },
                o,
            ),
        ),
        good_lines(object_lines(o)),
{
    let st = holding(d, done, prev);
    let head = object_head_lines(o.name);
    let done2 = if prev.groups.len() > 0 {
        done.push(prev)
    } else {
        done
    };
    let mid = ParseState { dat: ObjDataView { objects: done2, ..d }, object: new_object(o.name), group: None };
    lemma_run_concat::<SimplePolygon>(st, base, head, groups_lines(o.groups));
    if o.name != default_name() {
        assert(head =~= seq![o_line(o.name)]);
        lemma_o_step::<SimplePolygon>(st, base as usize, o.name);
        lemma_run_one::<SimplePolygon>(st, base, o_line(o.name));
        assert(add_group(st.object, st.group) =~= prev) by {
            if prev.groups.len() > 0 {
                assert(prev.groups.drop_last().push(prev.groups.last()) =~= prev.groups);
            }
        }
        assert(closed_object(st) =~= ObjDataView { objects: done2, ..d });
    } else {
        assert(head =~= Seq::<Seq<char>>::empty());
        assert(st =~= mid);
    }
    if o.groups.len() == 0 {
        assert(groups_lines(o.groups) =~= Seq::<Seq<char>>::empty());
        assert(o =~= new_object(o.name));
        assert(mid =~= holding(d, done2, o));
    } else {
        lemma_run_groups(mid, base + head.len(), o.groups);
        assert(add_group(new_object(o.name), None).groups + o.groups.drop_last() =~= o.groups.drop_last());
    }
    if o.name != default_name() {
        assert(good_lines(head));
    }
    if o.groups.len() == 0 {
        assert(good_lines(groups_lines(o.groups)));
    }
    lemma_good_lines_concat(head, groups_lines(o.groups));
}

/// A sequence of objects the writer writes and the reader reads back: at least one, each
/// reading back; only the first may be the default object, which has no `o` line; and
/// every object but the last has a group, which the next `o` line closes it by.
pub open spec fn objects_ok(os: Seq<ObjectView>) -> bool {
    &&& os.len() > 0
    &&& forall|i: int| 0 <= i < os.len() ==> object_ok(#[trigger] os[i])
    &&& forall|i: int| 0 < i < os.len() ==> (#[trigger] os[i]).name != default_name()
    &&& forall|i: int| 0 <= i < os.len() - 1 ==> (#[trigger] os[i]).groups.len() > 0
}

proof fn lemma_run_objects(d: ObjDataView, base: nat, os: Seq<ObjectView>)
    requires
        objects_ok(os),
    ensures
        run::<SimplePolygon>(holding(d, seq![], new_object(default_name())), base, objects_lines(os)) == Ok::<
            ParseState,
            ObjErrorView,
        >(holding(d, os.drop_last(), os.last())),
        good_lines(objects_lines(os)),
    decreases os.len(),
{
    let st = holding(d, seq![], new_object(default_name()));
    let init = os.drop_last();
    let last = os.last();
    assert(objects_lines(os) == objects_lines(init) + object_lines(last));
    assert(object_ok(os[os.len() - 1]));
    if os.len() == 1 {
        assert(objects_lines(init) =~= Seq::<Seq<char>>::empty());
        assert(objects_lines(os) =~= object_lines(last));
        lemma_run_object(d, seq![], new_object(default_name()), base, last);
        assert(init =~= Seq::<ObjectView>::empty());
    } else {
        assert(objects_ok(init)) by {
            assert forall|i: int| 0 <= i < init.len() implies object_ok(#[trigger] init[i]) by {
                assert(init[i] == os[i]);
            }
            assert forall|i: int| 0 < i < init.len() implies (#[trigger] init[i]).name != default_name() by {
                assert(init[i] == os[i]);
            }
            assert forall|i: int| 0 <= i < init.len() - 1 implies (#[trigger] init[i]).groups.len() > 0 by {
                assert(init[i] == os[i]);
            }
        }
        lemma_run_objects(d, base, init);
        lemma_run_concat::<SimplePolygon>(st, base, objects_lines(init), object_lines(last));
        assert(os[os.len() - 1].name != default_name());
        assert(os[os.len() - 2].groups.len() > 0);
        assert(init.last() == os[os.len() - 2]);
        lemma_run_object(d, init.drop_last(), init.last(), base + objects_lines(init).len(), last);
        assert(init.drop_last().push(init.last()) =~= init);
        lemma_good_lines_concat(objects_lines(init), object_lines(last));
    }
}

// ---------------------------------------------------------------------------
// Writing, then reading
/// Data that `.obj` text expresses as it is: coordinates that are numerals, objects,
/// groups and faces that read back, and libraries with plain file names and no materials
/// loaded.
pub open spec fn reads_back(d: ObjDataView) -> bool {
    &&& forall|i: int| 0 <= i < d.position.len() ==> (#[trigger] d.position[i]).len() == 3 && coords_ok(d.position[i])
    &&& forall|i: int| 0 <= i < d.texture.len() ==> (#[trigger] d.texture[i]).len() == 2 && coords_ok(d.texture[i])
    &&& forall|i: int| 0 <= i < d.normal.len() ==> (#[trigger] d.normal[i]).len() == 3 && coords_ok(d.normal[i])
    &&& objects_ok(d.objects)
    &&& forall|i: int| 0 <= i < d.material_libs.len() ==> lib_ok(#[trigger] d.material_libs[i])
}

/// The state after the comment and coordinate lines: the coordinates read, nothing else.
pub open spec fn after_coords(d: ObjDataView) -> ParseState {
    ParseState {
        dat: ObjDataView { position: d.position, texture: d.texture, normal: d.normal, ..empty_data() },
        object: new_object(default_name()),
        group: None,
    }
}

/// The comment and coordinate lines at the top of the written text.
pub open spec fn head_lines(d: ObjDataView) -> Seq<Seq<char>> {
    seq![header_line()] + coord_lines(seq!['v'], d.position) + coord_lines(seq!['v', 't'], d.texture)
        + coord_lines(seq!['v', 'n'], d.normal)
}

proof fn lemma_run_head(d: ObjDataView)
    requires
        reads_back(d),
    ensures
        run::<SimplePolygon>(initial_state(), 0, head_lines(d)) == Ok::<ParseState, ObjErrorView>(after_coords(d)),
        good_lines(head_lines(d)),
{
    let h = seq![header_line()];
    let v = coord_lines(seq!['v'], d.position);
    let t = coord_lines(seq!['v', 't'], d.texture);
    let n = coord_lines(seq!['v', 'n'], d.normal);
    let st0 = initial_state();
    lemma_header_step::<SimplePolygon>(st0, 0);
    lemma_run_one::<SimplePolygon>(st0, 0, header_line());
    lemma_run_positions::<SimplePolygon>(st0, h.len(), d.position);
    let st1 = ParseState { dat: ObjDataView { position: st0.dat.position + d.position, ..st0.dat }, ..st0 };
    lemma_run_textures::<SimplePolygon>(st1, h.len() + v.len(), d.texture);
    let st2 = ParseState { dat: ObjDataView { texture: st1.dat.texture + d.texture, ..st1.dat }, ..st1 };
    lemma_run_normals::<SimplePolygon>(st2, h.len() + v.len() + t.len(), d.normal);
    let st3 = ParseState { dat: ObjDataView { normal: st2.dat.normal + d.normal, ..st2.dat }, ..st2 };
    lemma_run_concat::<SimplePolygon>(st0, 0, h, v);
    lemma_run_concat::<SimplePolygon>(st0, 0, h + v, t);
    lemma_run_concat::<SimplePolygon>(st0, 0, h + v + t, n);
    assert(st3 =~= after_coords(d));
    assert(good_lines(h));
    lemma_good_lines_concat(h, v);
    lemma_good_lines_concat(h + v, t);
    lemma_good_lines_concat(h + v + t, n);
}

/// Reading the lines written for data that the text expresses gives that data back, and
/// reading them completes.
pub proof fn lemma_lines_read_back(d: ObjDataView)
    requires
        reads_back(d),
    ensures
        parsed_lines::<SimplePolygon>(data_lines(d)) == Ok::<ObjDataView, ObjErrorView>(d),
        good_lines(data_lines(d)),
{
    let hd = head_lines(d);
    let o = objects_lines(d.objects);
    let l = lib_lines(d.material_libs);
    let lines = data_lines(d);
    assert(lines =~= hd + o + l);
    lemma_prefix_run::<SimplePolygon>(lines, lines.len());
    assert(lines.take(lines.len() as int) =~= lines);
    let st0 = initial_state();
    lemma_run_head(d);
    let st3 = after_coords(d);
    let d3 = st3.dat;
    assert(st3 =~= holding(d3, seq![], new_object(default_name())));
    lemma_run_objects(d3, hd.len(), d.objects);
    let st4 = holding(d3, d.objects.drop_last(), d.objects.last());
    lemma_run_libs::<SimplePolygon>(st4, hd.len() + o.len(), d.material_libs);
    let st5 = ParseState { dat: ObjDataView { material_libs: st4.dat.material_libs + d.material_libs, ..st4.dat }, ..st4 };
    lemma_run_concat::<SimplePolygon>(st0, 0, hd, o);
    lemma_run_concat::<SimplePolygon>(st0, 0, hd + o, l);
    assert(run::<SimplePolygon>(st0, 0, lines) == Ok::<ParseState, ObjErrorView>(st5));
    let os = d.objects;
    assert(add_group(st5.object, st5.group) =~= os.last()) by {
        if os.last().groups.len() > 0 {
            assert(os.last().groups.drop_last().push(os.last().groups.last()) =~= os.last().groups);
        }
    }
    assert(os.drop_last().push(os.last()) =~= os);
    assert(finished(st5) =~= d);
    lemma_good_lines_concat(hd, o);
    lemma_good_lines_concat(hd + o, l);
}

/// Writing data and reading the text back gives the same data.
///
/// This holds for all data that the text expresses as it is (`reads_back`): the writer
/// accepts such data, reading its text completes, and the result is the data written.
pub proof fn lemma_write_then_read(d: ObjData<SimplePolygon>)
    requires
        reads_back(d@),
    ensures
        forall|i: int| 0 <= i < d.objects@.len() ==> (#[trigger] d.objects@[i]).writable(),
        lines_readable::<SimplePolygon>(split_lines(data_text(d))),
        parsed_text::<SimplePolygon>(data_text(d)) == Ok::<ObjDataView, ObjErrorView>(d@),
{
    lemma_data_text_lines(d);
    lemma_lines_read_back(d@);
    let lines = data_lines(d@);
    lemma_split_unlines(lines);
    assert forall|j: int| 0 <= j < lines.len() && (#[trigger] parse_prefix::<SimplePolygon>(lines, j as nat)) is Ok
        implies !line_panics(lines[j]) by {}
    assert forall|i: int| 0 <= i < d.objects@.len() implies (#[trigger] d.objects@[i]).writable() by {
        let o = d.objects@[i];
        assert(d@.objects[i] == o@);
        assert(object_ok(o@));
        let gs = o.groups@;
        assert forall|j: int| 0 <= j < gs.len() implies (#[trigger] gs[j]).writable() by {
            assert(o@.groups[j] == gs[j]@);
            assert(group_ok(gs[j]@));
            let ps = gs[j].polys@;
            assert forall|k: int| 0 <= k < ps.len() implies (#[trigger] ps[k]).writable() by {
                assert(gs[j]@.polys[k] == ps[k]@);
                assert forall|c: int| 0 <= c < ps[k]@.len() implies tuple_writable(#[trigger] ps[k]@[c]) by {
                    assert(corner_ok(gs[j]@.polys[k][c]));
                }
            }
        }
        assert forall|j: int| 0 < j < gs.len() implies (#[trigger] gs[j]).index == 0 || gs[j].name@ == gs[j - 1].name@ by {
            assert(o@.groups[j] == gs[j]@);
            assert(o@.groups[j - 1] == gs[j - 1]@);
            assert(o@.groups[j].index == 0 || continues(o@.groups[j - 1], o@.groups[j]));
        }
    }
}

// ---------------------------------------------------------------------------
// Reading, then writing
/// The material of a group is a name, and a single word, when it has one.
pub open spec fn material_named(g: GroupView) -> bool {
    g.material matches Some(m) ==> m is Ref && is_word(material_name(m))
}

/// A group as the reader builds it: a plain name and a material named by a word.
pub open spec fn group_shaped(g: GroupView) -> bool {
    plain_name(g.name) && material_named(g)
}

/// `g` starts anew (index 0), or continues `prev` after a change of material: same name,
/// next index, and `prev` has a material.
pub open spec fn follows(prev: GroupView, g: GroupView) -> bool {
    g.index == 0 || (g.name == prev.name && g.index == prev.index + 1 && prev.material is Some)
}

/// The groups of an object as the reader builds them: the first starts anew and each
/// later one follows the one before it.
pub open spec fn groups_indexed(gs: Seq<GroupView>) -> bool {
    &&& gs.len() > 0 ==> gs[0].index == 0
    &&& forall|i: int| 0 < i < gs.len() ==> follows(gs[i - 1], #[trigger] gs[i])
    &&& forall|i: int| 0 <= i < gs.len() ==> group_shaped(#[trigger] gs[i])
}

/// An object as the reader builds it.
pub open spec fn object_shaped(o: ObjectView) -> bool {
    plain_name(o.name) && groups_indexed(o.groups)
}

/// Coordinates that are numerals in lists of the right length, and libraries with plain
/// file names and no materials loaded.
pub open spec fn coords_shaped(d: ObjDataView) -> bool {
    &&& forall|i: int| 0 <= i < d.position.len() ==> (#[trigger] d.position[i]).len() == 3 && coords_ok(d.position[i])
    &&& forall|i: int| 0 <= i < d.texture.len() ==> (#[trigger] d.texture[i]).len() == 2 && coords_ok(d.texture[i])
    &&& forall|i: int| 0 <= i < d.normal.len() ==> (#[trigger] d.normal[i]).len() == 3 && coords_ok(d.normal[i])
    &&& forall|i: int| 0 <= i < d.material_libs.len() ==> lib_ok(#[trigger] d.material_libs[i])
}

/// The data as the reader produces it: at least one object; every object but the last
/// has a group; in every object the first group starts anew and each later group starts
/// anew or continues the one before it under the same name with the next index; every
/// material is a name; names hold no newline nor whitespace at either end; coordinates
/// are numerals; libraries have plain file names and no materials.
pub open spec fn read_shape(d: ObjDataView) -> bool {
    &&& d.objects.len() > 0
    &&& forall|i: int| 0 <= i < d.objects.len() - 1 ==> (#[trigger] d.objects[i]).groups.len() > 0
    &&& forall|i: int| 0 <= i < d.objects.len() ==> object_shaped(#[trigger] d.objects[i])
    &&& coords_shaped(d)
}

/// What the reader keeps between lines, after `n` lines.
pub open spec fn state_shape(st: ParseState, n: nat) -> bool {
    &&& forall|i: int|
        0 <= i < st.dat.objects.len() ==> (#[trigger] st.dat.objects[i]).groups.len() > 0 && object_shaped(
            st.dat.objects[i],
        )
    &&& object_shaped(st.object)
    &&& st.group matches Some(g) ==> {
        &&& group_shaped(g)
        &&& g.index <= n
        &&& g.index > 0 ==> st.object.groups.len() > 0 && follows(st.object.groups.last(), g)
    }
    &&& coords_shaped(st.dat)
}

proof fn lemma_default_plain()
    ensures
        plain_name(default_name()),
{
    let n = default_name();
    assert forall|i: int| 0 <= i < n.len() implies #[trigger] n[i] != '\n' by {}
    assert(!is_ws(n[0]));
    assert(!is_ws(n.last()));
}

proof fn lemma_add_group_shaped(o: ObjectView, g: Option<GroupView>)
    requires
        object_shaped(o),
        g matches Some(x) ==> group_shaped(x) && (x.index > 0 ==> o.groups.len() > 0 && follows(o.groups.last(), x)),
    ensures
        object_shaped(add_group(o, g)),
{
    if let Some(x) = g {
        let gs = o.groups.push(x);
        assert forall|i: int| 0 < i < gs.len() implies follows(gs[i - 1], #[trigger] gs[i]) by {
            assert(gs[i - 1] == if i - 1 < o.groups.len() { o.groups[i - 1] } else { x });
            if i < gs.len() - 1 {
                assert(gs[i] == o.groups[i]);
            } else {
                assert(gs[i] == x);
                if x.index > 0 {
                    assert(gs[i - 1] == o.groups.last());
                }
            }
        }
        assert forall|i: int| 0 <= i < gs.len() implies group_shaped(#[trigger] gs[i]) by {
            if i < gs.len() - 1 {
                assert(gs[i] == o.groups[i]);
            }
        }
        if o.groups.len() > 0 {
            assert(gs[0] == o.groups[0]);
        }
    }
}

proof fn lemma_coords_shaped(ws: Seq<Seq<char>>, n: usize, args: Seq<Option<Seq<char>>>, c: Seq<Seq<char>>)
    requires
        forall|i: int| 0 <= i < ws.len() ==> is_word(#[trigger] ws[i]),
        forall|i: int| 0 <= i < args.len() ==> (#[trigger] args[i] matches Some(w) ==> exists|j: int| 0 <= j < ws.len() && ws[j] == w),
        parsed_coords(n, args) == Ok::<Seq<Seq<char>>, ObjErrorView>(c),
    ensures
        c.len() == args.len(),
        coords_ok(c),
{
    assert forall|i: int| 0 <= i < c.len() implies is_word(#[trigger] c[i]) && is_float_literal(c[i]) by {
        assert(args[i] is Some);
        let j = choose|j: int| 0 <= j < ws.len() && ws[j] == args[i]->0;
        assert(is_word(ws[j]));
    }
}

proof fn lemma_parsed_corners_len(d: ObjDataView, n: usize, gs: Seq<Seq<char>>)
    ensures
        parsed_corners(d, n, gs) matches Ok(c) ==> c.len() == gs.len(),
    decreases gs.len(),
{
    if gs.len() > 0 {
        lemma_parsed_corners_len(d, n, gs.drop_first());
    }
}

/// Each line keeps the shape of what the reader holds.
proof fn lemma_step_shape<P: GenPolygon>(st: ParseState, n: usize, line: Seq<char>, k: nat)
    requires
        state_shape(st, k),
        k < usize::MAX,
        forall|i: int| 0 <= i < line.len() ==> #[trigger] line[i] != '\n',
        !line_panics(line),
    ensures
        step::<P>(st, n, line) matches Ok(st2) ==> state_shape(st2, k + 1),
{
    let ws = words(line);
    lemma_words_are_words(line);
    lemma_default_plain();
    if ws.len() > 0 {
        match command_of(ws[0]) {
            Command::V => {
                let args = seq![arg(ws, 1), arg(ws, 2), arg(ws, 3)];
                if let Ok(c) = parsed_coords(n, args) {
                    assert forall|i: int| 0 <= i < args.len() implies (#[trigger] args[i] matches Some(w) ==> exists|j: int| 0 <= j < ws.len() && ws[j] == w) by {
                        if args[i] is Some { assert(ws[i + 1] == args[i]->0); }
                    }
                    lemma_coords_shaped(ws, n, args, c);
                    let p = st.dat.position.push(c);
                    assert forall|i: int| 0 <= i < p.len() implies (#[trigger] p[i]).len() == 3 && coords_ok(p[i]) by {
                        if i < p.len() - 1 { assert(p[i] == st.dat.position[i]); }
                    }
                }
            },
            Command::Vt => {
                let args = seq![arg(ws, 1), arg(ws, 2)];
                if let Ok(c) = parsed_coords(n, args) {
                    assert forall|i: int| 0 <= i < args.len() implies (#[trigger] args[i] matches Some(w) ==> exists|j: int| 0 <= j < ws.len() && ws[j] == w) by {
                        if args[i] is Some { assert(ws[i + 1] == args[i]->0); }
                    }
                    lemma_coords_shaped(ws, n, args, c);
                    let p = st.dat.texture.push(c);
                    assert forall|i: int| 0 <= i < p.len() implies (#[trigger] p[i]).len() == 2 && coords_ok(p[i]) by {
                        if i < p.len() - 1 { assert(p[i] == st.dat.texture[i]); }
                    }
                }
            },
            Command::Vn => {
                let args = seq![arg(ws, 1), arg(ws, 2), arg(ws, 3)];
                if let Ok(c) = parsed_coords(n, args) {
                    assert forall|i: int| 0 <= i < args.len() implies (#[trigger] args[i] matches Some(w) ==> exists|j: int| 0 <= j < ws.len() && ws[j] == w) by {
                        if args[i] is Some { assert(ws[i + 1] == args[i]->0); }
                    }
                    lemma_coords_shaped(ws, n, args, c);
                    let p = st.dat.normal.push(c);
                    assert forall|i: int| 0 <= i < p.len() implies (#[trigger] p[i]).len() == 3 && coords_ok(p[i]) by {
                        if i < p.len() - 1 { assert(p[i] == st.dat.normal[i]); }
                    }
                }
            },
            Command::F => {},
            Command::O => {
                lemma_add_group_shaped(st.object, st.group);
                let cur = add_group(st.object, st.group);
                if cur.groups.len() > 0 {
                    let objs = st.dat.objects.push(cur);
                    assert forall|i: int| 0 <= i < objs.len() implies (#[trigger] objs[i]).groups.len() > 0 && object_shaped(objs[i]) by {
                        if i < objs.len() - 1 { assert(objs[i] == st.dat.objects[i]); }
                    }
                }
                if byte_len(line) > 2 {
                    lemma_chars_in_bytes_bound(line, 1);
                    let rest = after_bytes(line, 1);
                    assert forall|i: int| 0 <= i < rest.len() implies #[trigger] rest[i] != '\n' by {
                        assert(rest[i] == line[i + chars_in_bytes(line, 1).unwrap()]);
                    }
                    lemma_trim_plain_name(rest);
                }
            },
            Command::G => {
                lemma_add_group_shaped(st.object, st.group);
                if byte_len(line) > 2 {
                    lemma_chars_in_bytes_bound(line, 2);
                    let rest = after_bytes(line, 2);
                    assert forall|i: int| 0 <= i < rest.len() implies #[trigger] rest[i] != '\n' by {
                        assert(rest[i] == line[i + chars_in_bytes(line, 2).unwrap()]);
                    }
                    lemma_trim_plain_name(rest);
                }
            },
            Command::Mtllib => {
                if ws.len() >= 2 {
                    let f = join_with_spaces(ws.skip(1));
                    assert forall|i: int| 0 <= i < ws.skip(1).len() implies is_word(#[trigger] ws.skip(1)[i]) by {
                        assert(ws.skip(1)[i] == ws[i + 1]);
                    }
                    crate::text::lemma_words_join(ws.skip(1));
                    let libs = st.dat.material_libs.push(MtlView { filename: f, materials: seq![] });
                    assert forall|i: int| 0 <= i < libs.len() implies lib_ok(#[trigger] libs[i]) by {
                        if i < libs.len() - 1 { assert(libs[i] == st.dat.material_libs[i]); }
                    }
                }
            },
            Command::Usemtl => {
                let g0 = match st.group {
                    Some(g) => g,
                    None => new_group(default_name()),
                };
                if ws.len() > 1 {
                    assert(is_word(ws[1]));
                }
                if g0.material is Some {
                    lemma_add_group_shaped(st.object, Some(g0));
                    assert(add_group(st.object, Some(g0)).groups.last() == g0);
                }
            },
            _ => {},
        }
    }
}

/// The shape holds of every state that reading a prefix of readable lines reaches.
proof fn lemma_prefix_shape<P: GenPolygon>(lines: Seq<Seq<char>>, n: nat)
    requires
        n <= lines.len() < usize::MAX,
        forall|i: int, j: int| 0 <= i < lines.len() && 0 <= j < lines[i].len() ==> #[trigger] lines[i][j] != '\n',
        lines_readable::<P>(lines),
    ensures
        parse_prefix::<P>(lines, n) matches Ok(st) ==> state_shape(st, n),
    decreases n,
{
    if n == 0 {
        lemma_default_plain();
        let st = initial_state();
        assert(st.object.groups =~= Seq::<GroupView>::empty());
        assert(state_shape(st, 0));
    } else {
        lemma_prefix_shape::<P>(lines, (n - 1) as nat);
        if let Ok(st) = parse_prefix::<P>(lines, (n - 1) as nat) {
            assert(!line_panics(lines[n - 1]));
            assert forall|j: int| 0 <= j < lines[n - 1].len() implies #[trigger] lines[n - 1][j] != '\n' by {}
            lemma_step_shape::<P>(st, (n - 1) as usize, lines[n - 1], (n - 1) as nat);
        }
    }
}

/// The data that reading produces has the reader's shape (`read_shape`): at least one
/// object; every object but the last has a group; the first group of an object starts
/// anew and each later one starts anew or continues the one before it under the same
/// name with the next index; materials are names.
pub proof fn lemma_read_shape<P: GenPolygon>(text: Seq<char>)
    requires
        lines_readable::<P>(split_lines(text)),
        split_lines(text).len() < isize::MAX,
    ensures
        parsed_text::<P>(text) matches Ok(d) ==> read_shape(d),
{
    let lines = split_lines(text);
    lemma_lines_no_newline(text);
    lemma_prefix_shape::<P>(lines, lines.len());
    if let Ok(st) = parse_prefix::<P>(lines, lines.len()) {
        lemma_add_group_shaped(st.object, st.group);
        let d = finished(st);
        assert forall|i: int| 0 <= i < d.objects.len() implies object_shaped(#[trigger] d.objects[i]) by {
            if i < d.objects.len() - 1 {
                assert(d.objects[i] == st.dat.objects[i]);
            }
        }
        assert forall|i: int| 0 <= i < d.objects.len() - 1 implies (#[trigger] d.objects[i]).groups.len() > 0 by {
            assert(d.objects[i] == st.dat.objects[i]);
        }
    }
}

/// Each group after the first starts anew (index 0) or continues a group of the same
/// name, which is what lets the writer leave out its `g` line.
pub open spec fn groups_continue(gs: Seq<GroupView>) -> bool {
    forall|i: int| 0 < i < gs.len() ==> (#[trigger] gs[i]).index == 0 || gs[i].name == gs[i - 1].name
}

/// In every object that reading produces, each group after the first starts anew or
/// continues a group of the same name: the writer can write what the reader read without
/// its assertion on group names failing.
pub proof fn lemma_read_groups_continue<P: GenPolygon>(text: Seq<char>)
    requires
        lines_readable::<P>(split_lines(text)),
        split_lines(text).len() < isize::MAX,
    ensures
        parsed_text::<P>(text) matches Ok(d) ==> forall|i: int|
            0 <= i < d.objects.len() ==> groups_continue((#[trigger] d.objects[i]).groups),
{
    lemma_read_shape::<P>(text);
    if let Ok(d) = parsed_text::<P>(text) {
        assert forall|i: int| 0 <= i < d.objects.len() implies groups_continue((#[trigger] d.objects[i]).groups) by {
            let gs = d.objects[i].groups;
            assert(object_shaped(d.objects[i]));
            assert forall|j: int| 0 < j < gs.len() implies (#[trigger] gs[j]).index == 0 || gs[j].name == gs[j - 1].name by {
                assert(follows(gs[j - 1], gs[j]));
            }
        }
    }
}

/// Read data that the text expresses as it is: names not empty, only the first object
/// named `default`, a material on every group that continues another, every index within
/// its list, and lists whose lengths fit an `isize`.
pub open spec fn expressible(d: ObjDataView) -> bool {
    &&& forall|i: int| 0 < i < d.objects.len() ==> (#[trigger] d.objects[i]).name != default_name()
    &&& forall|i: int| 0 <= i < d.objects.len() ==> (#[trigger] d.objects[i]).name.len() > 0
    &&& forall|i: int, j: int|
        0 <= i < d.objects.len() && 0 <= j < d.objects[i].groups.len() ==> {
            let g = #[trigger] d.objects[i].groups[j];
            &&& g.name.len() > 0
            &&& g.index > 0 ==> g.material is Some
            &&& forall|k: int, c: int|
                0 <= k < g.polys.len() && 0 <= c < g.polys[k].len() ==> {
                    let t = #[trigger] g.polys[k][c];
                    &&& t.0 < d.position.len()
                    &&& (t.1 matches Some(x) ==> x < d.texture.len())
                    &&& (t.2 matches Some(x) ==> x < d.normal.len())
                }
        }
    &&& d.position.len() <= isize::MAX
    &&& d.texture.len() <= isize::MAX
    &&& d.normal.len() <= isize::MAX
}

/// Read data that the text expresses as it is can be written and reads back
/// (`reads_back`).
pub proof fn lemma_shape_reads_back(d: ObjDataView)
    requires
        read_shape(d),
        expressible(d),
    ensures
        reads_back(d),
{
    let os = d.objects;
    assert forall|i: int| 0 <= i < os.len() implies object_ok(#[trigger] os[i]) by {
        let o = os[i];
        assert(object_shaped(o));
        let gs = o.groups;
        assert forall|j: int| 0 <= j < gs.len() implies group_ok(#[trigger] gs[j]) by {
            let g = gs[j];
            assert(g == d.objects[i].groups[j]);
            assert(group_shaped(g));
            assert forall|k: int, c: int| 0 <= k < g.polys.len() && 0 <= c < g.polys[k].len() implies corner_ok(
                #[trigger] g.polys[k][c],
            ) by {
                let t = g.polys[k][c];
                assert(t.0 < d.position.len());
            }
        }
        assert forall|j: int| 0 < j < gs.len() implies (#[trigger] gs[j]).index == 0 || continues(gs[j - 1], gs[j]) by {
            assert(gs[j] == d.objects[i].groups[j]);
            assert(follows(gs[j - 1], gs[j]));
        }
    }
}

/// Reading, writing and reading again gives the data that the first reading gave, for
/// text whose data the text expresses as it is (`expressible`); the writer accepts that
/// data.
pub proof fn lemma_read_write_read(text: Seq<char>, x: ObjData<SimplePolygon>)
    requires
        lines_readable::<SimplePolygon>(split_lines(text)),
        split_lines(text).len() < isize::MAX,
        parsed_text::<SimplePolygon>(text) == Ok::<ObjDataView, ObjErrorView>(x@),
        expressible(x@),
    ensures
        forall|i: int| 0 <= i < x.objects@.len() ==> (#[trigger] x.objects@[i]).writable(),
        lines_readable::<SimplePolygon>(split_lines(data_text(x))),
        parsed_text::<SimplePolygon>(data_text(x)) == Ok::<ObjDataView, ObjErrorView>(x@),
{
    lemma_read_shape::<SimplePolygon>(text);
    lemma_shape_reads_back(x@);
    lemma_write_then_read(x);
}

} // verus!

//! Writing `.obj` text.
use vstd::prelude::*;
use crate::mtl::Mtl;
use crate::number::{decimal, push_decimal};
use crate::text::{join_with_spaces, push_char, same_text};
use crate::types::{
    coords2_view, coords3_view, material_name, opt_material_view, Group, IndexTuple, ObjData, ObjMaterialView,
    Object, SimplePolygon, WriteToBuf,
};

verus! {

/// The lines `ls`, each followed by a newline.
pub open spec fn unlines(ls: Seq<Seq<char>>) -> Seq<char>
    decreases ls.len(),
{
    if ls.len() == 0 {
        seq![]
    } else {
        unlines(ls.drop_last()) + ls.last() + seq!['\n']
    }
}

/// The one-based numeral of the zero-based index `i`.
pub open spec fn index_text(i: usize) -> Seq<char> {
    decimal(i as nat + 1)
}

/// A face corner as `f` lines write it: `p`, `p/t`, `p/t/n` or `p//n`, one-based.
pub open spec fn tuple_text(t: IndexTuple) -> Seq<char> {
    index_text(t.0) + match t.1 {
        Some(i) => seq!['/'] + index_text(i),
        None => if t.2 is Some {
            seq!['/']
        } else {
            seq![]
        },
    } + match t.2 {
        Some(i) => seq!['/'] + index_text(i),
        None => seq![],
    }
}

/// The indices of the corner can be made one-based.
pub open spec fn tuple_writable(t: IndexTuple) -> bool {
    &&& t.0 < usize::MAX
    &&& (t.1 matches Some(i) ==> i < usize::MAX)
    &&& (t.2 matches Some(i) ==> i < usize::MAX)
}

/// Whether the indices of the corner can be made one-based, tested.
pub fn tuple_is_writable(t: &IndexTuple) -> (b: bool)
    ensures
        b == tuple_writable(*t),
{
    t.0 < usize::MAX && match t.1 {
        Some(i) => i < usize::MAX,
        None => true,
    } && match t.2 {
        Some(i) => i < usize::MAX,
        None => true,
    }
}

/// Whether every corner of `cs` can be written.
fn corners_writable(cs: &Vec<IndexTuple>) -> (b: bool)
    ensures
        b == forall|i: int| 0 <= i < cs@.len() ==> tuple_writable(#[trigger] cs@[i]),
{
    let mut i: usize = 0;
    while i < cs.len()
        invariant
            i <= cs@.len(),
            forall|j: int| 0 <= j < i ==> tuple_writable(#[trigger] cs@[j]),
        decreases cs@.len() - i,
    {
        if !tuple_is_writable(&cs[i]) {
            return false;
        }
        i = i + 1;
    }
    true
}

/// Whether every one of `ps` can be written.
fn all_writable<P: WriteToBuf>(ps: &Vec<P>) -> (b: bool)
    ensures
        b == forall|i: int| 0 <= i < ps@.len() ==> (#[trigger] ps@[i]).writable(),
{
    let mut i: usize = 0;
    while i < ps.len()
        invariant
            i <= ps@.len(),
            forall|j: int| 0 <= j < i ==> (#[trigger] ps@[j]).writable(),
        decreases ps@.len() - i,
    {
        if !ps[i].is_writable() {
            return false;
        }
        i = i + 1;
    }
    true
}

fn push_index(out: &mut String, i: usize)
    requires
        i < usize::MAX,
    ensures
        final(out)@ == old(out)@ + index_text(i),
{
    push_decimal(out, i + 1);
}

impl IndexTuple {
    /// Appends the text of this corner to `out`.
    pub fn write_to(&self, out: &mut String)
        requires
            tuple_writable(*self),
        ensures
            final(out)@ == old(out)@ + tuple_text(*self),
    {
        push_index(out, self.0);
        let ghost a = out@;
        if let Some(idx) = self.1 {
            push_char(out, '/');
            push_index(out, idx);
        } else if self.2.is_some() {
            push_char(out, '/');
        }
        let ghost b = out@;
        if let Some(idx) = self.2 {
            push_char(out, '/');
            push_index(out, idx);
        }
        assert(out@ =~= old(out)@ + tuple_text(*self));
    }

    /// The text of this corner, one-based, as `f` lines write it.
    pub fn to_string(&self) -> (s: String)
        requires
            tuple_writable(*self),
        ensures
            s@ == tuple_text(*self),
    {
        let mut s = String::new();
        self.write_to(&mut s);
        assert(s@ =~= tuple_text(*self));
        s
    }
}

/// The corners of a face, each preceded by a space.
pub open spec fn corners_text(cs: Seq<IndexTuple>) -> Seq<char>
    decreases cs.len(),
{
    if cs.len() == 0 {
        seq![]
    } else {
        corners_text(cs.drop_last()) + seq![' '] + tuple_text(cs.last())
    }
}

/// The `f` line of a face.
pub open spec fn face_line(cs: Seq<IndexTuple>) -> Seq<char> {
    seq!['f'] + corners_text(cs)
}

impl WriteToBuf for SimplePolygon {
    open spec fn obj_text(&self) -> Seq<char> {
        unlines(seq![face_line(self@)])
    }

    open spec fn writable(&self) -> bool {
        forall|i: int| 0 <= i < self@.len() ==> tuple_writable(#[trigger] self@[i])
    }

    fn is_writable(&self) -> (b: bool) {
        corners_writable(self)
    }

    fn write_to_buf(&self, out: &mut String) {
        push_char(out, 'f');
        let mut i: usize = 0;
        assert(self@.take(0) =~= Seq::<IndexTuple>::empty());
        while i < self.len()
            invariant
                i <= self@.len(),
                forall|j: int| 0 <= j < self@.len() ==> tuple_writable(#[trigger] self@[j]),
                out@ == old(out)@ + seq!['f'] + corners_text(self@.take(i as int)),
            decreases self@.len() - i,
        {
            push_char(out, ' ');
            self[i].write_to(out);
            assert(self@.take(i + 1).drop_last() =~= self@.take(i as int));
            i = i + 1;
            assert(out@ =~= old(out)@ + seq!['f'] + corners_text(self@.take(i as int)));
        }
        push_char(out, '\n');
        assert(self@.take(i as int) =~= self@);
        proof {
            lemma_unlines1(face_line(self@));
        }
        assert(out@ =~= old(out)@ + unlines(seq![face_line(self@)]));
    }
}

pub open spec fn g_line(name: Seq<char>) -> Seq<char> {
    seq!['g', ' '] + name
}

pub open spec fn usemtl_line(name: Seq<char>) -> Seq<char> {
    seq!['u', 's', 'e', 'm', 't', 'l', ' '] + name
}

/// The lines that introduce a group: `g` for a group that is not the continuation of the
/// one before it (index 0), and `usemtl` when it has a material.
pub open spec fn group_head_lines(name: Seq<char>, index: usize, material: Option<ObjMaterialView>) -> Seq<
    Seq<char>,
> {
    (if index == 0 {
        seq![g_line(name)]
    } else {
        seq![]
    }) + match material {
        Some(m) => seq![usemtl_line(material_name(m))],
        None => seq![],
    }
}

/// The text of each of `ps`, in order.
pub open spec fn concat_texts<P: WriteToBuf>(ps: Seq<P>) -> Seq<char>
    decreases ps.len(),
{
    if ps.len() == 0 {
        seq![]
    } else {
        concat_texts(ps.drop_last()) + ps.last().obj_text()
    }
}

/// Appends the texts of `ps` to `out`.
fn write_all<P: WriteToBuf>(ps: &Vec<P>, out: &mut String)
    requires
        forall|i: int| 0 <= i < ps@.len() ==> (#[trigger] ps@[i]).writable(),
    ensures
        final(out)@ == old(out)@ + concat_texts(ps@),
{
    let mut i: usize = 0;
    assert(ps@.take(0) =~= Seq::<P>::empty());
    while i < ps.len()
        invariant
            i <= ps@.len(),
            forall|j: int| 0 <= j < ps@.len() ==> (#[trigger] ps@[j]).writable(),
            out@ == old(out)@ + concat_texts(ps@.take(i as int)),
        decreases ps@.len() - i,
    {
        ps[i].write_to_buf(out);
        assert(ps@.take(i + 1).drop_last() =~= ps@.take(i as int));
        i = i + 1;
        assert(out@ =~= old(out)@ + concat_texts(ps@.take(i as int)));
    }
    assert(ps@.take(i as int) =~= ps@);
}

/// Appends `line` and a newline to `out`.
fn push_line(out: &mut String, line: &str)
    ensures
        final(out)@ == old(out)@ + line@ + seq!['\n'],
{
    out.append(line);
    push_char(out, '\n');
}

/// Appends `prefix`, `word` and a newline to `out`.
fn push_command(out: &mut String, prefix: &str, word: &str)
    ensures
        final(out)@ == old(out)@ + prefix@ + word@ + seq!['\n'],
{
    out.append(prefix);
    out.append(word);
    push_char(out, '\n');
}

pub proof fn lemma_unlines1(l: Seq<char>)
    ensures
        unlines(seq![l]) == l + seq!['\n'],
{
    assert(seq![l].drop_last() =~= Seq::<Seq<char>>::empty());
    assert(unlines(Seq::<Seq<char>>::empty()) + l + seq!['\n'] =~= l + seq!['\n']);
}

pub proof fn lemma_unlines_concat(a: Seq<Seq<char>>, b: Seq<Seq<char>>)
    ensures
        unlines(a + b) == unlines(a) + unlines(b),
    decreases b.len(),
{
    if b.len() == 0 {
        assert(a + b =~= a);
    } else {
        assert((a + b).drop_last() =~= a + b.drop_last());
        lemma_unlines_concat(a, b.drop_last());
    }
}

impl<P: WriteToBuf> WriteToBuf for Group<P> {
    open spec fn obj_text(&self) -> Seq<char> {
        unlines(group_head_lines(self.name@, self.index, opt_material_view(self.material)))
            + concat_texts(self.polys@)
    }

    open spec fn writable(&self) -> bool {
        forall|i: int| 0 <= i < self.polys@.len() ==> (#[trigger] self.polys@[i]).writable()
    }

    fn is_writable(&self) -> (b: bool) {
        all_writable(&self.polys)
    }

    fn write_to_buf(&self, out: &mut String) {
        proof {
            reveal_strlit("g ");
            reveal_strlit("usemtl ");
            assert("g "@ =~= seq!['g', ' ']);
            assert("usemtl "@ =~= seq!['u', 's', 'e', 'm', 't', 'l', ' ']);
        }
        let ghost start = out@;
        let ghost first: Seq<Seq<char>> = if self.index == 0 {
            seq![g_line(self.name@)]
        } else {
            seq![]
        };
        if self.index == 0 {
            push_command(out, "g ", self.name.as_str());
            proof {
                lemma_unlines1(g_line(self.name@));
            }
        }
        assert(out@ =~= start + unlines(first));
        let ghost mid = out@;
        let ghost second: Seq<Seq<char>> = match opt_material_view(self.material) {
            Some(m) => seq![usemtl_line(material_name(m))],
            None => seq![],
        };
        match &self.material {
            Some(m) => {
                push_command(out, "usemtl ", m.name());
                proof {
                    lemma_unlines1(usemtl_line(material_name(m@)));
                }
            },
            None => {},
        }
        assert(out@ =~= mid + unlines(second));
        proof {
            lemma_unlines_concat(first, second);
        }
        write_all(&self.polys, out);
        assert(out@ =~= start + self.obj_text());
    }
}

/// Consecutive groups either start anew or continue a group of the same name.
pub open spec fn groups_mergeable<P>(gs: Seq<Group<P>>) -> bool {
    forall|i: int| 0 < i < gs.len() ==> (#[trigger] gs[i]).index == 0 || gs[i].name@ == gs[i - 1].name@
}

pub open spec fn default_object_name() -> Seq<char> {
    seq!['d', 'e', 'f', 'a', 'u', 'l', 't']
}

pub open spec fn o_line(name: Seq<char>) -> Seq<char> {
    seq!['o', ' '] + name
}

/// The `o` line of an object; the object named `default` has none.
pub open spec fn object_head_lines(name: Seq<char>) -> Seq<Seq<char>> {
    if name != default_object_name() {
        seq![o_line(name)]
    } else {
        seq![]
    }
}

impl<P: WriteToBuf> WriteToBuf for Object<P> {
    open spec fn obj_text(&self) -> Seq<char> {
        unlines(object_head_lines(self.name@)) + concat_texts(self.groups@)
    }

    open spec fn writable(&self) -> bool {
        &&& forall|i: int| 0 <= i < self.groups@.len() ==> (#[trigger] self.groups@[i]).writable()
        &&& groups_mergeable(self.groups@)
    }

    fn is_writable(&self) -> (b: bool) {
        if !all_writable(&self.groups) {
            return false;
        }
        let gs = &self.groups;
        let mut i: usize = 1;
        while i < gs.len()
            invariant
                1 <= i,
                gs@ == self.groups@,
                forall|j: int| 0 < j < i && j < gs@.len() ==> (#[trigger] gs@[j]).index == 0 || gs@[j].name@
                    == gs@[j - 1].name@,
            decreases gs@.len() - i,
        {
            if gs[i].index != 0 && !same_text(gs[i].name.as_str(), gs[i - 1].name.as_str()) {
                return false;
            }
            i = i + 1;
        }
        true
    }

    fn write_to_buf(&self, out: &mut String) {
        proof {
            reveal_strlit("default");
            reveal_strlit("o ");
            assert("default"@ =~= default_object_name());
            assert("o "@ =~= seq!['o', ' ']);
        }
        let ghost start = out@;
        let d = "default".to_owned();
        if self.name != d {
            push_command(out, "o ", self.name.as_str());
            proof {
                lemma_unlines1(o_line(self.name@));
            }
        } else {
            assert(object_head_lines(self.name@) =~= Seq::<Seq<char>>::empty());
        }
        assert(out@ =~= start + unlines(object_head_lines(self.name@)));
        write_all(&self.groups, out);
        assert(out@ =~= start + self.obj_text());
    }
}

/// The comment line that starts every file the writer produces.
pub open spec fn header_line() -> Seq<char> {
    "# Generated by the obj Rust library (https://crates.io/crates/obj)."@
}

/// A `v`, `vt` or `vn` line: the command and the coordinates, separated by spaces.
pub open spec fn coord_line(cmd: Seq<char>, c: Seq<Seq<char>>) -> Seq<char> {
    cmd + seq![' '] + join_with_spaces(c)
}

pub open spec fn coord_lines(cmd: Seq<char>, cs: Seq<Seq<Seq<char>>>) -> Seq<Seq<char>> {
    cs.map_values(|c: Seq<Seq<char>>| coord_line(cmd, c))
}

pub open spec fn mtllib_line(filename: Seq<char>) -> Seq<char> {
    seq!['m', 't', 'l', 'l', 'i', 'b', ' '] + filename
}

pub open spec fn mtllib_lines(libs: Seq<Mtl>) -> Seq<Seq<char>> {
    libs.map_values(|m: Mtl| mtllib_line(m.filename@))
}

/// The text `ObjData::write_to_buf` writes: the header comment, the coordinates, the
/// objects and the `mtllib` lines.
pub open spec fn data_text<P: WriteToBuf>(d: ObjData<P>) -> Seq<char> {
    unlines(
        seq![header_line()] + coord_lines(seq!['v'], coords3_view(d.position@)) + coord_lines(
            seq!['v', 't'],
            coords2_view(d.texture@),
        ) + coord_lines(seq!['v', 'n'], coords3_view(d.normal@)),
    ) + concat_texts(d.objects@) + unlines(mtllib_lines(d.material_libs@))
}

/// Appends `cmd`, the coordinates separated by spaces and a newline to `out`.
fn push_coords(out: &mut String, cmd: &str, c: &[String])
    requires
        c@.len() >= 1,
    ensures
        final(out)@ == old(out)@ + coord_line(cmd@, c@.map_values(|s: String| s@)) + seq!['\n'],
{
    let ghost cv = c@.map_values(|s: String| s@);
    out.append(cmd);
    push_char(out, ' ');
    let ghost base = out@;
    out.append(c[0].as_str());
    let mut i: usize = 1;
    assert(cv.take(1).drop_last() =~= Seq::<Seq<char>>::empty());
    assert(join_with_spaces(cv.take(1)) == cv[0]);
    while i < c.len()
        invariant
            1 <= i <= c@.len(),
            cv == c@.map_values(|s: String| s@),
            out@ == base + join_with_spaces(cv.take(i as int)),
        decreases c@.len() - i,
    {
        push_char(out, ' ');
        out.append(c[i].as_str());
        assert(cv.take(i + 1).drop_last() =~= cv.take(i as int));
        assert(cv.take(i + 1).last() == c@[i as int]@);
        i = i + 1;
    }
    assert(cv.take(i as int) =~= cv);
    push_char(out, '\n');
    assert(out@ =~= old(out)@ + coord_line(cmd@, cv) + seq!['\n']);
}

pub proof fn lemma_unlines_push(ls: Seq<Seq<char>>, l: Seq<char>)
    ensures
        unlines(ls.push(l)) == unlines(ls) + l + seq!['\n'],
{
    assert(ls.push(l).drop_last() =~= ls);
}

impl<P: WriteToBuf> ObjData<P> {
    /// Whether every object can be written, which `write_to_buf` asks.
    pub fn is_writable(&self) -> (b: bool)
        ensures
            b == forall|i: int| 0 <= i < self.objects@.len() ==> (#[trigger] self.objects@[i]).writable(),
    {
        all_writable(&self.objects)
    }

    /// Appends the `.obj` text of this data to `out`.
    pub fn write_to_buf(&self, out: &mut String)
        requires
            forall|i: int| 0 <= i < self.objects@.len() ==> (#[trigger] self.objects@[i]).writable(),
        ensures
            final(out)@ == old(out)@ + data_text(*self),
    {
        proof {
            reveal_strlit("v");
            reveal_strlit("vt");
            reveal_strlit("vn");
            reveal_strlit("mtllib ");
            assert("v"@ =~= seq!['v']);
            assert("vt"@ =~= seq!['v', 't']);
            assert("vn"@ =~= seq!['v', 'n']);
            assert("mtllib "@ =~= seq!['m', 't', 'l', 'l', 'i', 'b', ' ']);
        }
        let ghost start = out@;
        push_line(out, "# Generated by the obj Rust library (https://crates.io/crates/obj).");
        let ghost mut lines: Seq<Seq<char>> = seq![header_line()];
        proof {
            lemma_unlines1(header_line());
        }
        let ghost pos = coords3_view(self.position@);
        let mut i: usize = 0;
        while i < self.position.len()
            invariant
                i <= self.position@.len(),
                pos == coords3_view(self.position@),
                lines == seq![header_line()] + coord_lines(seq!['v'], pos.take(i as int)),
                out@ == start + unlines(lines),
                "v"@ == seq!['v'],
            decreases self.position@.len() - i,
        {
            push_coords(out, "v", self.position[i].as_slice());
            proof {
                let cv = pos[i as int];
                lemma_unlines_push(lines, coord_line(seq!['v'], cv));
                lines = lines.push(coord_line(seq!['v'], cv));
                assert(out@ =~= start + unlines(lines));
                assert(coord_lines(seq!['v'], pos.take(i + 1)) =~= coord_lines(seq!['v'], pos.take(i as int)).push(coord_line(seq!['v'], cv)));
            }
            i = i + 1;
        }
        assert(pos.take(i as int) =~= pos);
        let ghost tex = coords2_view(self.texture@);
        let ghost lines1 = lines;
        let mut i: usize = 0;
        assert(coord_lines(seq!['v', 't'], tex.take(0)) =~= Seq::<Seq<char>>::empty());
        assert(lines1 + coord_lines(seq!['v', 't'], tex.take(0)) =~= lines1);
        while i < self.texture.len()
            invariant
                i <= self.texture@.len(),
                tex == coords2_view(self.texture@),
                lines == lines1 + coord_lines(seq!['v', 't'], tex.take(i as int)),
                out@ == start + unlines(lines),
                "vt"@ == seq!['v', 't'],
            decreases self.texture@.len() - i,
        {
            push_coords(out, "vt", self.texture[i].as_slice());
            proof {
                let cv = tex[i as int];
                lemma_unlines_push(lines, coord_line(seq!['v', 't'], cv));
                lines = lines.push(coord_line(seq!['v', 't'], cv));
                assert(out@ =~= start + unlines(lines));
                assert(coord_lines(seq!['v', 't'], tex.take(i + 1)) =~= coord_lines(seq!['v', 't'], tex.take(i as int)).push(coord_line(seq!['v', 't'], cv)));
            }
            i = i + 1;
        }
        assert(tex.take(i as int) =~= tex);
        let ghost nrm = coords3_view(self.normal@);
        let ghost lines2 = lines;
        let mut i: usize = 0;
        assert(coord_lines(seq!['v', 'n'], nrm.take(0)) =~= Seq::<Seq<char>>::empty());
        assert(lines2 + coord_lines(seq!['v', 'n'], nrm.take(0)) =~= lines2);
        while i < self.normal.len()
            invariant
                i <= self.normal@.len(),
                nrm == coords3_view(self.normal@),
                lines == lines2 + coord_lines(seq!['v', 'n'], nrm.take(i as int)),
                out@ == start + unlines(lines),
                "vn"@ == seq!['v', 'n'],
            decreases self.normal@.len() - i,
        {
            push_coords(out, "vn", self.normal[i].as_slice());
            proof {
                let cv = nrm[i as int];
                lemma_unlines_push(lines, coord_line(seq!['v', 'n'], cv));
                lines = lines.push(coord_line(seq!['v', 'n'], cv));
                assert(out@ =~= start + unlines(lines));
                assert(coord_lines(seq!['v', 'n'], nrm.take(i + 1)) =~= coord_lines(seq!['v', 'n'], nrm.take(i as int)).push(coord_line(seq!['v', 'n'], cv)));
            }
            i = i + 1;
        }
        assert(nrm.take(i as int) =~= nrm);
        write_all(&self.objects, out);
        let ghost mid = out@;
        let ghost libs = mtllib_lines(self.material_libs@);
        let mut i: usize = 0;
        assert(libs.take(0) =~= Seq::<Seq<char>>::empty());
        while i < self.material_libs.len()
            invariant
                i <= self.material_libs@.len(),
                libs == mtllib_lines(self.material_libs@),
                out@ == mid + unlines(libs.take(i as int)),
                "mtllib "@ == seq!['m', 't', 'l', 'l', 'i', 'b', ' '],
            decreases self.material_libs@.len() - i,
        {
            push_command(out, "mtllib ", self.material_libs[i].filename.as_str());
            proof {
                assert(libs.take(i + 1) =~= libs.take(i as int).push(libs[i as int]));
                lemma_unlines_push(libs.take(i as int), libs[i as int]);
                assert(out@ =~= mid + unlines(libs.take(i + 1)));
            }
            i = i + 1;
        }
        assert(libs.take(i as int) =~= libs);
        assert(out@ =~= start + data_text(*self));
    }
}

} // verus!

//! Properties of single operations, stated from their inputs.
use vstd::prelude::*;
use std::sync::Arc;
use crate::materials::{first_named, load_errors, object_assigned};
use crate::mtl::{Material, MaterialView, MtlView};
use crate::number::{all_digits, decimal, is_digit, is_float_literal, lemma_decimal, parsed_isize};
use crate::parse::{command_of, index_n, index_p, index_t, line_panics, parsed_group, pieces, Command};
use crate::round_trip::{lemma_split_plain, lemma_split_slash};
use crate::text::{len_before, lemma_len_before_exact, words};
use crate::types::{Group, IndexTuple, ObjDataView, ObjMaterial, ObjMaterialView, ObjectView, WriteToBuf};
use crate::write::{concat_texts, lemma_unlines1, lemma_unlines_concat};

verus! {

// ---------------------------------------------------------------------------
// Writing a group
/// The text written for a group: a `g` line with its name when it starts anew (index 0),
/// then a `usemtl` line with the name of its material when it has one, loaded or not,
/// then its faces.
pub proof fn lemma_group_text<P: WriteToBuf>(g: Group<P>)
    ensures
        g.obj_text() == (if g.index == 0 {
            seq!['g', ' '] + g.name@ + seq!['\n']
        } else {
            Seq::<char>::empty()
        }) + match g.material {
            Some(ObjMaterial::Ref(n)) => seq!['u', 's', 'e', 'm', 't', 'l', ' '] + n@ + seq!['\n'],
            Some(ObjMaterial::Mtl(m)) => seq!['u', 's', 'e', 'm', 't', 'l', ' '] + (*m)@.name + seq!['\n'],
            None => Seq::<char>::empty(),
        } + concat_texts(g.polys@),
{
    let first: Seq<Seq<char>> = if g.index == 0 {
        seq![seq!['g', ' '] + g.name@]
    } else {
        seq![]
    };
    let second: Seq<Seq<char>> = match g.material {
        Some(ObjMaterial::Ref(n)) => seq![seq!['u', 's', 'e', 'm', 't', 'l', ' '] + n@],
        Some(ObjMaterial::Mtl(m)) => seq![seq!['u', 's', 'e', 'm', 't', 'l', ' '] + (*m)@.name],
        None => seq![],
    };
    assert(crate::write::group_head_lines(g.name@, g.index, crate::types::opt_material_view(g.material))
        =~= first + second);
    lemma_unlines_concat(first, second);
    if g.index == 0 {
        lemma_unlines1(seq!['g', ' '] + g.name@);
    } else {
        assert(crate::write::unlines(first) =~= Seq::<char>::empty());
    }
    match g.material {
        Some(ObjMaterial::Ref(n)) => lemma_unlines1(seq!['u', 's', 'e', 'm', 't', 'l', ' '] + n@),
        Some(ObjMaterial::Mtl(m)) => lemma_unlines1(seq!['u', 's', 'e', 'm', 't', 'l', ' '] + (*m)@.name),
        None => {
            assert(crate::write::unlines(second) =~= Seq::<char>::empty());
        },
    }
}

// ---------------------------------------------------------------------------
// Reading face corners
/// Each index of a corner that reads counts from one when positive and back from the
/// end of its own list when negative: positions from the positions read so far, texture
/// coordinates from the texture coordinates, normals from the normals.
pub proof fn lemma_corner_indices(d: ObjDataView, g: Seq<char>)
    ensures
        parsed_group(d, g) matches Some(t) ==> {
            &&& index_p(g) matches Some(p) && (p > 0 ==> t.0 == p - 1) && (p < 0 ==> t.0 == (
                d.position.len() + p) as usize)
            &&& (index_t(g) is None <==> t.1 is None)
            &&& (index_t(g) matches Some(x) ==> (x > 0 ==> t.1 == Some((x - 1) as usize)) && (x < 0 ==> t.1
                == Some((d.texture.len() + x) as usize)))
            &&& (index_n(g) is None <==> t.2 is None)
            &&& (index_n(g) matches Some(x) ==> (x > 0 ==> t.2 == Some((x - 1) as usize)) && (x < 0 ==> t.2
                == Some((d.normal.len() + x) as usize)))
        },
{
}

proof fn lemma_negative_numeral(k: nat)
    requires
        1 <= k <= isize::MAX,
    ensures
        parsed_isize(seq!['-'] + decimal(k)) == Some((-k) as isize),
        forall|j: int| 0 <= j < (seq!['-'] + decimal(k)).len() ==> #[trigger] (seq!['-'] + decimal(k))[j] != '/',
{
    lemma_decimal(k);
    let s = seq!['-'] + decimal(k);
    assert(s.drop_first() =~= decimal(k));
    assert forall|j: int| 0 <= j < s.len() implies #[trigger] s[j] != '/' by {
        if j > 0 {
            assert(s[j] == decimal(k)[j - 1]);
            assert(is_digit(decimal(k)[j - 1]));
        }
    }
}

/// A corner `p/-k` takes the `k`-th texture coordinate from the end, and `p//-k` the
/// `k`-th normal from the end, whatever the number of positions.
pub proof fn lemma_negative_texture_and_normal(d: ObjDataView, p: nat, k: nat)
    requires
        1 <= p <= isize::MAX,
        1 <= k <= isize::MAX,
    ensures
        k <= d.texture.len() ==> parsed_group(d, decimal(p) + seq!['/'] + (seq!['-'] + decimal(k))) == Some(
            IndexTuple((p - 1) as usize, Some((d.texture.len() - k) as usize), None),
        ),
        k <= d.normal.len() ==> parsed_group(d, decimal(p) + seq!['/'] + (seq![] + seq!['/'] + (seq!['-'] + decimal(k))))
            == Some(IndexTuple((p - 1) as usize, None, Some((d.normal.len() - k) as usize))),
{
    lemma_decimal(p);
    crate::number::lemma_decimal_parses(p);
    lemma_negative_numeral(k);
    let dp = decimal(p);
    let dk = seq!['-'] + decimal(k);
    assert forall|j: int| 0 <= j < dp.len() implies #[trigger] dp[j] != '/' by {
        assert(is_digit(dp[j]));
    }
    lemma_split_slash(dp, dk);
    lemma_split_plain(dk);
    assert(pieces(dp + seq!['/'] + dk) =~= seq![dp, dk]);
    let e = Seq::<char>::empty();
    lemma_split_slash(dp, e + seq!['/'] + dk);
    lemma_split_slash(e, dk);
    assert(pieces(dp + seq!['/'] + (e + seq!['/'] + dk)) =~= seq![dp, e, dk]);
}

// ---------------------------------------------------------------------------
// Coordinate numerals
/// The mantissa `a`, or `a.c` when there is a point.
pub open spec fn mantissa_of(a: Seq<char>, point: bool, c: Seq<char>) -> Seq<char> {
    if point {
        a + seq!['.'] + c
    } else {
        a
    }
}

/// Every numeral of `f32::from_str`'s `Number Exp` form is a coordinate: digits, or
/// digits around a point with at least one digit, then `e` or `E`, an optional sign and
/// digits.
pub proof fn lemma_exponent_accepted(a: Seq<char>, point: bool, c: Seq<char>, e: char, s: Seq<char>, x: Seq<char>)
    requires
        all_digits(a),
        all_digits(c),
        a.len() + c.len() > 0,
        !point ==> c.len() == 0,
        e == 'e' || e == 'E',
        s == Seq::<char>::empty() || s == seq!['+'] || s == seq!['-'],
        x.len() > 0,
        all_digits(x),
    ensures
        is_float_literal(mantissa_of(a, point, c) + seq![e] + s + x),
{
    let m = mantissa_of(a, point, c);
    assert(m.len() > 0);
    assert forall|i: int| 0 <= i < m.len() implies #[trigger] m[i] != 'e' && m[i] != 'E' && m[i] != '-' && m[i]
        != '+' by {
        if i < a.len() {
            assert(m[i] == a[i]);
            assert(is_digit(a[i]));
        } else if i > a.len() {
            assert(m[i] == c[i - a.len() - 1]);
            assert(is_digit(c[i - a.len() - 1]));
        }
    }
    let b = m + seq![e] + s + x;
    assert(b[0] == m[0]);
    assert(crate::number::unsigned_part(b) == b);
    assert forall|i: int| 0 <= i < m.len() implies #[trigger] b[i] != 'e' && b[i] != 'E' by {
        assert(b[i] == m[i]);
    }
    assert(b[m.len() as int] == e);
    let other = if e == 'e' { 'E' } else { 'e' };
    lemma_len_before_exact(b, e, m.len() as int);
    crate::text::lemma_len_before_bound(b, other);
    if len_before(b, other) < m.len() {
        assert(b[len_before(b, other) as int] == other);
    }
    assert(crate::number::exponent_pos(b) == m.len());
    assert(b.take(m.len() as int) =~= m);
    assert(b.skip(m.len() + 1 as int) =~= s + x);
    assert(crate::number::unsigned_part(s + x) =~= x) by {
        if s.len() > 0 {
            assert((s + x)[0] == s[0]);
            assert((s + x).drop_first() =~= x);
        } else {
            assert(s + x =~= x);
            assert(x[0] != '-' && x[0] != '+') by { assert(is_digit(x[0])); }
        }
    }
    if point {
        assert forall|i: int| 0 <= i < a.len() implies #[trigger] m[i] != '.' by {
            assert(m[i] == a[i]);
            assert(is_digit(a[i]));
        }
        assert(m[a.len() as int] == '.');
        lemma_len_before_exact(m, '.', a.len() as int);
        assert(m.take(a.len() as int) =~= a);
        assert(m.skip(a.len() + 1 as int) =~= c);
    } else {
        assert forall|i: int| 0 <= i < m.len() implies #[trigger] m[i] != '.' by {
            assert(is_digit(a[i]));
        }
        lemma_len_before_exact(m, '.', m.len() as int);
    }
}

/// Digits, or digits around a point with at least one digit, are a coordinate without
/// an exponent.
pub proof fn lemma_mantissa_accepted(a: Seq<char>, point: bool, c: Seq<char>)
    requires
        all_digits(a),
        all_digits(c),
        a.len() + c.len() > 0,
        !point ==> c.len() == 0,
    ensures
        is_float_literal(mantissa_of(a, point, c)),
{
    let m = mantissa_of(a, point, c);
    assert forall|i: int| 0 <= i < m.len() implies #[trigger] m[i] != 'e' && m[i] != 'E' && m[i] != '-' && m[i]
        != '+' by {
        if i < a.len() {
            assert(m[i] == a[i]);
            assert(is_digit(a[i]));
        } else if i > a.len() {
            assert(m[i] == c[i - a.len() - 1]);
            assert(is_digit(c[i - a.len() - 1]));
        }
    }
    assert(m[0] != '-' && m[0] != '+');
    assert(crate::number::unsigned_part(m) == m);
    lemma_len_before_exact(m, 'e', m.len() as int);
    lemma_len_before_exact(m, 'E', m.len() as int);
    if point {
        assert forall|i: int| 0 <= i < a.len() implies #[trigger] m[i] != '.' by {
            assert(m[i] == a[i]);
            assert(is_digit(a[i]));
        }
        assert(m[a.len() as int] == '.');
        lemma_len_before_exact(m, '.', a.len() as int);
        assert(m.take(a.len() as int) =~= a);
        assert(m.skip(a.len() + 1 as int) =~= c);
    } else {
        assert forall|i: int| 0 <= i < m.len() implies #[trigger] m[i] != '.' by {
            assert(is_digit(a[i]));
        }
        lemma_len_before_exact(m, '.', m.len() as int);
    }
}

/// `inf`, `infinity` and `nan`, each letter in either case, are coordinates.
pub proof fn lemma_special_accepted(w: Seq<char>)
    requires
        ({
            let inf = seq!['i', 'n', 'f'];
            let infinity = seq!['i', 'n', 'f', 'i', 'n', 'i', 't', 'y'];
            let nan = seq!['n', 'a', 'n'];
            let same = |l: Seq<char>| w.len() == l.len() && forall|i: int| 0 <= i < l.len() ==> (#[trigger] w[i] == l[i]
                || w[i] == crate::laws::upper(l[i]));
            same(inf) || same(infinity) || same(nan)
        }),
    ensures
        is_float_literal(w),
{
    assert(w[0] != '-' && w[0] != '+');
    assert(crate::number::unsigned_part(w) == w);
}

/// The upper-case form of a lower-case ASCII letter.
pub open spec fn upper(c: char) -> char {
    ((c as u32) - 32) as char
}

/// A sign in front of a coordinate gives a coordinate.
pub proof fn lemma_signed_accepted(sign: char, w: Seq<char>)
    requires
        sign == '+' || sign == '-',
        is_float_literal(w),
        w.len() > 0,
        w[0] != '+' && w[0] != '-',
    ensures
        is_float_literal(seq![sign] + w),
{
    assert((seq![sign] + w).drop_first() =~= w);
    assert(crate::number::unsigned_part(w) == w);
}

/// A sign in front of an index numeral gives the value with that sign.
pub proof fn lemma_signed_index(n: nat)
    requires
        n <= isize::MAX,
    ensures
        parsed_isize(seq!['+'] + decimal(n)) == Some(n as isize),
        parsed_isize(seq!['-'] + decimal(n)) == Some((-n) as isize),
        parsed_isize(decimal(n)) == Some(n as isize),
{
    lemma_decimal(n);
    crate::number::lemma_decimal_parses(n);
    assert((seq!['+'] + decimal(n)).drop_first() =~= decimal(n));
    assert((seq!['-'] + decimal(n)).drop_first() =~= decimal(n));
}

// ---------------------------------------------------------------------------
// Putting loaded materials in place
/// Every group of an object, whatever its index or name, takes the first loaded
/// material of its material's name, and keeps its material when none has that name; the
/// rest of the group is unchanged.
pub proof fn lemma_every_group_assigned(o: ObjectView, known: Seq<MaterialView>)
    ensures
        object_assigned(o, known).name == o.name,
        object_assigned(o, known).groups.len() == o.groups.len(),
        forall|j: int|
            0 <= j < o.groups.len() ==> {
                let before = #[trigger] o.groups[j];
                let after = object_assigned(o, known).groups[j];
                &&& after.name == before.name
                &&& after.index == before.index
                &&& after.polys == before.polys
                &&& after.material == match before.material {
                    None => None,
                    Some(ObjMaterialView::Ref(n)) => match first_named(known, n) {
                        Some(mat) => Some(ObjMaterialView::Mtl(mat)),
                        None => Some(ObjMaterialView::Ref(n)),
                    },
                    Some(ObjMaterialView::Mtl(m)) => match first_named(known, m.name) {
                        Some(mat) => Some(ObjMaterialView::Mtl(mat)),
                        None => Some(ObjMaterialView::Mtl(m)),
                    },
                }
            },
{
}

/// The libraries that failed are all reported, and only they: no error when every library
/// loaded, and otherwise each failed library's file name with its error, no more entries
/// than failures.
pub proof fn lemma_failures_reported<E>(libs: Seq<MtlView>, outcomes: Seq<Result<Vec<Arc<Material>>, E>>)
    ensures
        load_errors(libs, outcomes).len() == 0 <==> forall|i: int| 0 <= i < outcomes.len() ==> (#[trigger] outcomes[i]) is Ok,
        load_errors(libs, outcomes).len() <= outcomes.len(),
        forall|i: int|
            0 <= i < outcomes.len() && (#[trigger] outcomes[i]) is Err ==> load_errors(libs, outcomes).contains(
                (libs[i].filename, outcomes[i]->Err_0),
            ),
    decreases outcomes.len(),
{
    if outcomes.len() > 0 {
        let init = outcomes.drop_last();
        lemma_failures_reported(libs, init);
        let before = load_errors(libs, init);
        let all = load_errors(libs, outcomes);
        assert forall|i: int| 0 <= i < outcomes.len() && (#[trigger] outcomes[i]) is Err implies all.contains(
            (libs[i].filename, outcomes[i]->Err_0),
        ) by {
            if i < outcomes.len() - 1 {
                assert(init[i] == outcomes[i]);
                let k = choose|k: int| 0 <= k < before.len() && before[k] == (libs[i].filename, outcomes[i]->Err_0);
                assert(all[k] == before[k]);
            } else {
                assert(all[all.len() - 1] == (libs[i].filename, outcomes[i]->Err_0));
            }
        }
        if all.len() == 0 {
            assert forall|i: int| 0 <= i < outcomes.len() implies (#[trigger] outcomes[i]) is Ok by {
                if i < outcomes.len() - 1 {
                    assert(init[i] == outcomes[i]);
                }
            }
        }
        if forall|i: int| 0 <= i < outcomes.len() ==> (#[trigger] outcomes[i]) is Ok {
            assert forall|i: int| 0 <= i < init.len() implies (#[trigger] init[i]) is Ok by {
                assert(init[i] == outcomes[i]);
            }
            assert(outcomes[outcomes.len() - 1] is Ok);
        }
    }
}

// ---------------------------------------------------------------------------
// Lines that reading cannot complete
/// Only `o`, `g` and `f` lines can fail to complete: every other line (`v`, `vt`, `vn`,
/// `s`, `l`, `mtllib`, `usemtl`, comments, unknown commands, blank lines) is read.
pub proof fn lemma_only_o_g_f_panic(line: Seq<char>)
    ensures
        line_panics(line) ==> words(line).len() > 0 && (words(line)[0] == seq!['o'] || words(line)[0] == seq!['g']
            || words(line)[0] == seq!['f']),
{
    if line_panics(line) {
        let w = words(line)[0];
        match command_of(w) {
            Command::O => {},
            Command::G => {},
            Command::F => {},
            _ => {},
        }
    }
}

} // verus!

//! The laws of the format: writing a well-formed structure and reading
//! the text back yields the same structure, up to the one rounding that
//! writing three decimals applies to positions; and writing, reading and
//! writing again yields byte-identical text.

use vstd::prelude::*;

use crate::error::Error;
use crate::fixed::fmt_fixed;
use crate::fixed::half_away;
use crate::fixed::lemma_decimal_chars_plain;
use crate::fixed::lemma_fmt_fixed_parts;
use crate::fixed::lemma_fmt_of_shown;
use crate::fixed::lemma_parse_fmt_fixed;
use crate::fixed::lemma_shown4;
use crate::fixed::parse_fixed_spec;
use crate::fixed::shown_units;
use crate::geometry::Vector3d;
use crate::num::dec_digits;
use crate::num::int_text;
use crate::num::is_digit;
use crate::num::lemma_int_chars_plain;
use crate::num::lemma_parse_count;
use crate::num::lemma_parse_int_text;
use crate::num::parse_i32_spec;
use crate::parser::parse_atom_spec;
use crate::parser::parse_atoms_spec;
use crate::parser::parse_box_spec;
use crate::parser::parse_structure_spec;
use crate::text::is_space;
use crate::text::lemma_spec_line_concat;
use crate::text::lemma_spec_line_tail;
use crate::text::lemma_split_ws_spaces;
use crate::text::lemma_split_ws_token;
use crate::text::lemma_trim_id;
use crate::text::lemma_trim_ljust;
use crate::text::lemma_trim_rjust;
use crate::text::ljust;
use crate::text::rjust;
use crate::text::spaces;
use crate::text::spec_line;
use crate::text::spec_next;
use crate::text::split_ws;
use crate::text::trim_spec;
use crate::types::atom_line;
use crate::types::atoms_text;
use crate::types::render_spec;
use crate::types::sorted_atoms;
use crate::types::vec_text;
use crate::types::AtomModel;
use crate::types::StructureModel;

verus! {

/// A residue or atom name that survives its field: at most five
/// characters, none a newline, and no whitespace at either end.
pub open spec fn wf_name(x: Seq<char>) -> bool {
    &&& x.len() <= 5
    &&& x.len() > 0 ==> (!is_space(x[0]) && !is_space(x[x.len() - 1]))
    &&& forall|j: int| 0 <= j < x.len() ==> (#[trigger] x[j]) != '\n'
}

/// A coordinate within the range the written columns can carry.
pub open spec fn wf_coord(v: i64) -> bool {
    -100000000000000 <= v <= 100000000000000
}

/// An atom whose fields fit their fixed columns: numbers of at most five
/// characters, names that survive trimming, and coordinates whose text
/// fits its column.
pub open spec fn wf_atom(a: AtomModel) -> bool {
    &&& -2147483648 <= a.res_number <= 2147483647
    &&& -2147483648 <= a.atom_number <= 2147483647
    &&& int_text(a.res_number).len() <= 5
    &&& int_text(a.atom_number).len() <= 5
    &&& wf_name(a.res_name)
    &&& wf_name(a.atom_name)
    &&& wf_coord(a.position.x) && wf_coord(a.position.y) && wf_coord(a.position.z)
    &&& wf_coord(a.velocity.x) && wf_coord(a.velocity.y) && wf_coord(a.velocity.z)
    &&& fmt_fixed(a.position.x as int, 3).len() <= 8
    &&& fmt_fixed(a.position.y as int, 3).len() <= 8
    &&& fmt_fixed(a.position.z as int, 3).len() <= 8
    &&& fmt_fixed(a.velocity.x as int, 4).len() <= 9
    &&& fmt_fixed(a.velocity.y as int, 4).len() <= 9
    &&& fmt_fixed(a.velocity.z as int, 4).len() <= 9
}

/// A box size whose text fits its three columns, the later two strictly,
/// so that the written tokens stay separated.
pub open spec fn wf_box(v: Vector3d) -> bool {
    &&& wf_coord(v.x) && wf_coord(v.y) && wf_coord(v.z)
    &&& fmt_fixed(v.x as int, 4).len() <= 10
    &&& fmt_fixed(v.y as int, 4).len() < 10
    &&& fmt_fixed(v.z as int, 4).len() < 10
}

/// A structure built from well-formed records: a one-line title and
/// fields that fit their columns.
pub open spec fn renderable(m: StructureModel) -> bool {
    &&& forall|j: int| 0 <= j < m.title.len() ==> (#[trigger] m.title[j]) != '\n'
    &&& m.title.len() > 0 ==> m.title[m.title.len() - 1] != '\r'
    &&& m.atoms.len() <= usize::MAX
    &&& forall|i: int| 0 <= i < m.atoms.len() ==> wf_atom(#[trigger] m.atoms[i])
    &&& wf_box(m.box_size)
}

/// The vector a written vector shows: each component rounded to the
/// value its `d` decimals carry.
pub open spec fn shown_vec(v: Vector3d, d: int) -> Vector3d {
    Vector3d {
        x: shown_units(v.x as int, d) as i64,
        y: shown_units(v.y as int, d) as i64,
        z: shown_units(v.z as int, d) as i64,
    }
}

/// The atom that reading a written atom yields: every field as it was,
/// but the position rounded to its three written decimals.
pub open spec fn reparsed_atom(a: AtomModel) -> AtomModel {
    AtomModel {
        res_number: a.res_number,
        res_name: a.res_name,
        atom_name: a.atom_name,
        atom_number: a.atom_number,
        position: shown_vec(a.position, 3),
        velocity: a.velocity,
    }
}

/// The structure that reading a written structure yields.
pub open spec fn reparsed_model(m: StructureModel) -> StructureModel {
    StructureModel {
        title: m.title,
        atoms: m.atoms.map_values(|a: AtomModel| reparsed_atom(a)),
        box_size: m.box_size,
    }
}

/// Rounding to three written decimals moves a coordinate by at most five
/// units of the fourth decimal.
pub proof fn lemma_shown3_close(u: int)
    ensures
        -5 <= shown_units(u, 3) - u <= 5,
{
    crate::fixed::lemma_pow10_small();
    let m = half_away(u, 10);
    if u >= 0 {
        vstd::arithmetic::div_mod::lemma_fundamental_div_mod(u + 5, 10);
        vstd::arithmetic::div_mod::lemma_mod_bound(u + 5, 10);
        assert(shown_units(u, 3) == ((u + 5) / 10) * 10);
    } else {
        vstd::arithmetic::div_mod::lemma_fundamental_div_mod(-u + 5, 10);
        vstd::arithmetic::div_mod::lemma_mod_bound(-u + 5, 10);
        assert(shown_units(u, 3) == (-(((-u) + 5) / 10)) * 10);
        assert((-(((-u) + 5) / 10)) * 10 == -((((-u) + 5) / 10) * 10)) by (nonlinear_arith);
    }
}

/// One well-formed atom writes as a 71-character line that reads back as
/// the same atom with its position rounded to three decimals.
#[verifier::rlimit(100)]
pub proof fn lemma_atom_line_reads_back(a: AtomModel)
    requires
        wf_atom(a),
    ensures
        atom_line(a).len() == 71,
        parse_atom_spec(atom_line(a)) == Ok::<AtomModel, Error>(reparsed_atom(a)),
        forall|j: int| 0 <= j < atom_line(a).len() ==> (#[trigger] atom_line(a)[j]) != '\n',
        is_digit(atom_line(a)[atom_line(a).len() - 1]),
{
    let t = atom_line(a);
    let p1 = rjust(int_text(a.res_number), 5);
    let p2 = ljust(a.res_name, 5);
    let p3 = rjust(a.atom_name, 5);
    let p4 = rjust(int_text(a.atom_number), 5);
    let q1 = rjust(fmt_fixed(a.position.x as int, 3), 8);
    let q2 = rjust(fmt_fixed(a.position.y as int, 3), 8);
    let q3 = rjust(fmt_fixed(a.position.z as int, 3), 8);
    let r1 = rjust(fmt_fixed(a.velocity.x as int, 4), 9);
    let r2 = rjust(fmt_fixed(a.velocity.y as int, 4), 9);
    let r3 = rjust(fmt_fixed(a.velocity.z as int, 4), 9);
    lemma_parse_int_text(a.res_number);
    lemma_parse_int_text(a.atom_number);
    lemma_int_chars_plain(a.res_number);
    lemma_int_chars_plain(a.atom_number);
    lemma_fmt_fixed_parts(a.position.x as int, 3);
    lemma_fmt_fixed_parts(a.position.y as int, 3);
    lemma_fmt_fixed_parts(a.position.z as int, 3);
    lemma_fmt_fixed_parts(a.velocity.x as int, 4);
    lemma_fmt_fixed_parts(a.velocity.y as int, 4);
    lemma_fmt_fixed_parts(a.velocity.z as int, 4);
    lemma_decimal_chars_plain(fmt_fixed(a.position.x as int, 3));
    lemma_decimal_chars_plain(fmt_fixed(a.position.y as int, 3));
    lemma_decimal_chars_plain(fmt_fixed(a.position.z as int, 3));
    lemma_decimal_chars_plain(fmt_fixed(a.velocity.x as int, 4));
    lemma_decimal_chars_plain(fmt_fixed(a.velocity.y as int, 4));
    lemma_decimal_chars_plain(fmt_fixed(a.velocity.z as int, 4));
    assert(p1.len() == 5 && p2.len() == 5 && p3.len() == 5 && p4.len() == 5);
    assert(q1.len() == 8 && q2.len() == 8 && q3.len() == 8);
    assert(r1.len() == 9 && r2.len() == 9 && r3.len() == 9);
    assert(t.len() == 71);
    assert(t.subrange(0, 5) =~= p1);
    assert(t.subrange(5, 10) =~= p2);
    assert(t.subrange(10, 15) =~= p3);
    assert(t.subrange(15, 20) =~= p4);
    assert(t.subrange(20, 28) =~= q1);
    assert(t.subrange(28, 36) =~= q2);
    assert(t.subrange(36, 44) =~= q3);
    assert(t.subrange(44, 53) =~= r1);
    assert(t.subrange(53, 62) =~= r2);
    assert(t.subrange(62, 71) =~= r3);
    lemma_trim_rjust(int_text(a.res_number), 5);
    lemma_trim_ljust(a.res_name, 5);
    lemma_trim_rjust(a.atom_name, 5);
    lemma_trim_rjust(int_text(a.atom_number), 5);
    lemma_trim_rjust(fmt_fixed(a.position.x as int, 3), 8);
    lemma_trim_rjust(fmt_fixed(a.position.y as int, 3), 8);
    lemma_trim_rjust(fmt_fixed(a.position.z as int, 3), 8);
    lemma_trim_rjust(fmt_fixed(a.velocity.x as int, 4), 9);
    lemma_trim_rjust(fmt_fixed(a.velocity.y as int, 4), 9);
    lemma_trim_rjust(fmt_fixed(a.velocity.z as int, 4), 9);
    lemma_parse_fmt_fixed(a.position.x as int, 3);
    lemma_parse_fmt_fixed(a.position.y as int, 3);
    lemma_parse_fmt_fixed(a.position.z as int, 3);
    lemma_parse_fmt_fixed(a.velocity.x as int, 4);
    lemma_parse_fmt_fixed(a.velocity.y as int, 4);
    lemma_parse_fmt_fixed(a.velocity.z as int, 4);
    lemma_shown4(a.velocity.x as int);
    lemma_shown4(a.velocity.y as int);
    lemma_shown4(a.velocity.z as int);
    assert(trim_spec(t.subrange(5, 10)) == a.res_name);
    assert(trim_spec(t.subrange(10, 15)) == a.atom_name);
    assert(parse_i32_spec(trim_spec(t.subrange(0, 5))) == Some(a.res_number));
    assert(parse_i32_spec(trim_spec(t.subrange(15, 20))) == Some(a.atom_number));
    assert(parse_fixed_spec(trim_spec(t.subrange(20, 28))) == Some(
        shown_units(a.position.x as int, 3),
    ));
    assert(parse_fixed_spec(trim_spec(t.subrange(44, 53))) == Some(a.velocity.x as int));
    assert(parse_fixed_spec(trim_spec(t.subrange(53, 62))) == Some(a.velocity.y as int));
    assert(parse_fixed_spec(trim_spec(t.subrange(62, 71))) == Some(a.velocity.z as int));
    assert(parse_atom_spec(t) == Ok::<AtomModel, Error>(reparsed_atom(a)));
    assert(t[t.len() - 1] == r3[8]);
    assert(is_digit(t[t.len() - 1]));
    assert(forall|j: int| 0 <= j < t.len() ==> (#[trigger] t[j]) != '\n') by {
        assert(forall|j: int| 0 <= j < 5 ==> t[j] == p1[j]);
        assert(forall|j: int| 5 <= j < 10 ==> t[j] == p2[j - 5]);
        assert(forall|j: int| 10 <= j < 15 ==> t[j] == p3[j - 10]);
        assert(forall|j: int| 15 <= j < 20 ==> t[j] == p4[j - 15]);
        assert(forall|j: int| 20 <= j < 28 ==> t[j] == q1[j - 20]);
        assert(forall|j: int| 28 <= j < 36 ==> t[j] == q2[j - 28]);
        assert(forall|j: int| 36 <= j < 44 ==> t[j] == q3[j - 36]);
        assert(forall|j: int| 44 <= j < 53 ==> t[j] == r1[j - 44]);
        assert(forall|j: int| 53 <= j < 62 ==> t[j] == r2[j - 53]);
        assert(forall|j: int| 62 <= j < 71 ==> t[j] == r3[j - 62]);
    }
}

} // verus!

verus! {

/// The written box line splits into exactly its three coordinate texts.
#[verifier::rlimit(100)]
pub proof fn lemma_box_line_reads_back(v: Vector3d)
    requires
        wf_box(v),
    ensures
        parse_box_spec(vec_text(v, 10, 4)) == Ok::<Vector3d, Error>(v),
        forall|j: int|
            0 <= j < vec_text(v, 10, 4).len() ==> (#[trigger] vec_text(v, 10, 4)[j]) != '\n',
        vec_text(v, 10, 4).len() > 0,
{
    let f0 = fmt_fixed(v.x as int, 4);
    let f1 = fmt_fixed(v.y as int, 4);
    let f2 = fmt_fixed(v.z as int, 4);
    let g0 = rjust(f0, 10);
    let g1 = rjust(f1, 10);
    let g2 = rjust(f2, 10);
    let t = vec_text(v, 10, 4);
    lemma_fmt_fixed_parts(v.x as int, 4);
    lemma_fmt_fixed_parts(v.y as int, 4);
    lemma_fmt_fixed_parts(v.z as int, 4);
    lemma_decimal_chars_plain(f0);
    lemma_decimal_chars_plain(f1);
    lemma_decimal_chars_plain(f2);
    // Peel the three padded fields off, token by token.
    let pad0 = spaces(10 - f0.len());
    let pad1 = spaces(10 - f1.len());
    let pad2 = spaces(10 - f2.len());
    let rest1 = pad1 + f1 + (pad2 + f2);
    let rest2 = pad2 + f2;
    assert(g0 =~= pad0 + f0);
    assert(g1 =~= pad1 + f1);
    assert(g2 =~= pad2 + f2);
    assert(t =~= pad0 + (f0 + rest1));
    lemma_split_ws_spaces(pad0, f0 + rest1);
    assert(rest1.len() > 0 && is_space(rest1[0])) by {
        assert(pad1.len() >= 1);
        assert(rest1[0] == pad1[0]);
    }
    lemma_split_ws_token(f0, rest1);
    assert(rest1 =~= pad1 + (f1 + rest2));
    lemma_split_ws_spaces(pad1, f1 + rest2);
    assert(rest2.len() > 0 && is_space(rest2[0])) by {
        assert(pad2.len() >= 1);
        assert(rest2[0] == pad2[0]);
    }
    lemma_split_ws_token(f1, rest2);
    assert(rest2 =~= pad2 + (f2 + Seq::<char>::empty()));
    lemma_split_ws_spaces(pad2, f2 + Seq::empty());
    lemma_split_ws_token(f2, Seq::empty());
    assert(split_ws(Seq::<char>::empty()) =~= Seq::<Seq<char>>::empty());
    let toks = split_ws(t);
    assert(toks =~= seq![f0] + (seq![f1] + (seq![f2] + Seq::<Seq<char>>::empty())));
    assert(toks.len() == 3);
    assert(toks[0] == f0 && toks[1] == f1 && toks[2] == f2);
    lemma_parse_fmt_fixed(v.x as int, 4);
    lemma_parse_fmt_fixed(v.y as int, 4);
    lemma_parse_fmt_fixed(v.z as int, 4);
    lemma_shown4(v.x as int);
    lemma_shown4(v.y as int);
    lemma_shown4(v.z as int);
    assert(parse_box_spec(t) == Ok::<Vector3d, Error>(v));
    assert(forall|j: int| 0 <= j < t.len() ==> (#[trigger] t[j]) != '\n') by {
        assert(forall|j: int| 0 <= j < 10 ==> t[j] == g0[j]);
        assert(forall|j: int| 10 <= j < 20 ==> t[j] == g1[j - 10]);
        assert(forall|j: int| 20 <= j < 30 ==> t[j] == g2[j - 20]);
    }
}

/// The record lines read from the front: the first line, then the rest.
pub proof fn lemma_atoms_text_first(s: Seq<AtomModel>)
    requires
        s.len() > 0,
    ensures
        atoms_text(s) == atom_line(s[0]) + seq!['\n'] + atoms_text(s.drop_first()),
    decreases s.len(),
{
    if s.len() == 1 {
        assert(s.drop_last() =~= Seq::<AtomModel>::empty());
        assert(s.drop_first() =~= Seq::<AtomModel>::empty());
        assert(atoms_text(s) =~= atom_line(s[0]) + seq!['\n'] + atoms_text(s.drop_first()));
    } else {
        let t = s.drop_last();
        lemma_atoms_text_first(t);
        assert(t[0] == s[0]);
        assert(t.drop_first() =~= s.drop_first().drop_last());
        assert(s.drop_first().last() == s.last());
        assert(atoms_text(s) == atoms_text(t) + atom_line(s.last()) + seq!['\n']);
        assert(atoms_text(s.drop_first()) == atoms_text(s.drop_first().drop_last()) + atom_line(
            s.last(),
        ) + seq!['\n']);
        assert(atoms_text(s) =~= atom_line(s[0]) + seq!['\n'] + atoms_text(s.drop_first()));
    }
}

/// Reading the declared count of record lines from their written text
/// yields exactly the written atoms, reparsed, and stops at the tail.
#[verifier::rlimit(100)]
pub proof fn lemma_parse_atoms_text(s: Seq<char>, p: int, atoms: Seq<AtomModel>, tail: Seq<char>)
    requires
        forall|i: int| 0 <= i < atoms.len() ==> wf_atom(#[trigger] atoms[i]),
        0 <= p <= s.len(),
        s.skip(p) == atoms_text(atoms) + tail,
        tail.len() > 0,
    ensures
        parse_atoms_spec(s, p, atoms.len() as nat) == Ok::<(Seq<AtomModel>, int), Error>(
            (atoms.map_values(|a: AtomModel| reparsed_atom(a)), p + atoms_text(atoms).len()),
        ),
    decreases atoms.len(),
{
    if atoms.len() == 0 {
        assert(atoms_text(atoms).len() == 0);
        assert(atoms.map_values(|a: AtomModel| reparsed_atom(a)) =~= Seq::<AtomModel>::empty());
    } else {
        let a0 = atoms[0];
        lemma_atoms_text_first(atoms);
        lemma_atom_line_reads_back(a0);
        let line = atom_line(a0);
        assert(s.skip(p).len() == atoms_text(atoms).len() + tail.len());
        assert(p < s.len());
        assert(s.subrange(p, p + line.len()) =~= line) by {
            assert(forall|j: int| 0 <= j < line.len() ==> s.skip(p)[j] == s[p + j]);
            assert(forall|j: int|
                0 <= j < line.len() ==> (atoms_text(atoms) + tail)[j] == line[j]);
        }
        assert(s[p + line.len()] == '\n') by {
            assert(s.skip(p)[line.len() as int] == s[p + line.len()]);
            assert((atoms_text(atoms) + tail)[line.len() as int] == '\n');
        }
        assert(line[line.len() - 1] != '\r') by {
            assert(is_digit(line[line.len() - 1]));
        }
        lemma_spec_line_concat(s, p, line);
        let p2 = p + line.len() + 1;
        assert(s.skip(p2) =~= atoms_text(atoms.drop_first()) + tail) by {
            assert(forall|j: int| 0 <= j < s.len() - p2 ==> s.skip(p2)[j] == s.skip(p)[j
                + line.len() + 1]);
        }
        lemma_parse_atoms_text(s, p2, atoms.drop_first(), tail);
        assert(parse_atom_spec(spec_line(s, p)) == Ok::<AtomModel, Error>(reparsed_atom(a0)));
        assert(spec_next(s, p) == p2);
        let restmap = atoms.drop_first().map_values(|a: AtomModel| reparsed_atom(a));
        assert(parse_atoms_spec(s, p, atoms.len() as nat) == Ok::<(Seq<AtomModel>, int), Error>(
            (seq![reparsed_atom(a0)] + restmap, p2 + atoms_text(atoms.drop_first()).len()),
        ));
        assert(seq![reparsed_atom(a0)] + restmap =~= atoms.map_values(
            |a: AtomModel| reparsed_atom(a),
        ));
        assert(p2 + atoms_text(atoms.drop_first()).len() == p + atoms_text(atoms).len());
    }
}

} // verus!

verus! {

/// Reading back rounds no atom number, so the reparsed atoms of a sorted
/// structure are sorted and sorting them changes nothing.
pub proof fn lemma_reparsed_keeps_order(atoms: Seq<AtomModel>)
    requires
        sorted_atoms(atoms),
    ensures
        sorted_atoms(atoms.map_values(|a: AtomModel| reparsed_atom(a))),
        crate::types::sort_atoms(atoms.map_values(|a: AtomModel| reparsed_atom(a)))
            == atoms.map_values(|a: AtomModel| reparsed_atom(a)),
{
    let mp = atoms.map_values(|a: AtomModel| reparsed_atom(a));
    assert(forall|i: int|
        0 <= i < mp.len() ==> (#[trigger] mp[i]).atom_number == atoms[i].atom_number);
    assert(sorted_atoms(mp));
    crate::types::lemma_sort_atoms_of_sorted(mp);
}

/// Round trip: writing a structure built from well-formed records and
/// reading the text back succeeds and yields the same structure — the
/// same title, the same box size, and the same atoms but for their
/// positions, which come back rounded to the three written decimals and
/// so move by at most five ten-thousandths in each coordinate.
#[verifier::rlimit(100)]
pub proof fn lemma_render_parse_round_trip(m: StructureModel)
    requires
        renderable(m),
    ensures
        parse_structure_spec(render_spec(m)) == Ok::<StructureModel, Error>(reparsed_model(m)),
        reparsed_model(m).title == m.title,
        reparsed_model(m).box_size == m.box_size,
        reparsed_model(m).atoms.len() == m.atoms.len(),
        forall|i: int|
            0 <= i < m.atoms.len() ==> {
                let a = #[trigger] m.atoms[i];
                let b = reparsed_model(m).atoms[i];
                b.res_number == a.res_number && b.res_name == a.res_name && b.atom_name
                    == a.atom_name && b.atom_number == a.atom_number && b.velocity == a.velocity
                    && -5 <= b.position.x - a.position.x <= 5 && -5 <= b.position.y - a.position.y
                    <= 5 && -5 <= b.position.z - a.position.z <= 5
            },
{
    let s = render_spec(m);
    let n = m.atoms.len() as int;
    let count = dec_digits(n);
    lemma_parse_count(n);
    let at = atoms_text(m.atoms);
    let bt = vec_text(m.box_size, 10, 4);
    lemma_box_line_reads_back(m.box_size);
    // The title line.
    assert(s =~= m.title + seq!['\n'] + count + seq!['\n'] + at + bt);
    assert(s.subrange(0, m.title.len() as int) =~= m.title);
    assert(s[m.title.len() as int] == '\n');
    lemma_spec_line_concat(s, 0, m.title);
    let p1: int = m.title.len() as int + 1;
    // The count line.
    assert(s.subrange(p1, p1 + count.len()) =~= count);
    assert(s[p1 + count.len()] == '\n');
    assert(forall|j: int| 0 <= j < count.len() ==> (#[trigger] count[j]) != '\n') by {
        crate::num::lemma_dec_digits_value(n);
    }
    assert(count[count.len() - 1] != '\r') by {
        crate::num::lemma_dec_digits_value(n);
        assert(is_digit(count[count.len() - 1]));
    }
    lemma_spec_line_concat(s, p1, count);
    assert(p1 < s.len());
    let p2: int = p1 + count.len() + 1;
    assert(trim_spec(count) == count) by {
        crate::num::lemma_dec_digits_value(n);
        assert(!is_space(count[0]) && !is_space(count[count.len() - 1]));
        lemma_trim_id(count);
    }
    // The record lines.
    assert(s.skip(p2) =~= at + bt);
    lemma_parse_atoms_text(s, p2, m.atoms, bt);
    let mp = m.atoms.map_values(|a: AtomModel| reparsed_atom(a));
    let p3: int = p2 + at.len();
    // The box line.
    assert(p3 < s.len());
    assert(forall|j: int| p3 <= j < s.len() ==> (#[trigger] s[j]) != '\n') by {
        assert(forall|j: int| p3 <= j < s.len() ==> s[j] == bt[j - p3]);
    }
    lemma_spec_line_tail(s, p3);
    assert(spec_line(s, p3) =~= bt);
    assert(parse_box_spec(spec_line(s, p3)) == Ok::<Vector3d, Error>(m.box_size));
    assert(parse_structure_spec(s) == Ok::<StructureModel, Error>(
        StructureModel { title: m.title, atoms: mp, box_size: m.box_size },
    ));
    // The per-atom closeness of the rounded positions.
    assert forall|i: int| 0 <= i < m.atoms.len() implies {
        let a = #[trigger] m.atoms[i];
        let b = reparsed_model(m).atoms[i];
        b.res_number == a.res_number && b.res_name == a.res_name && b.atom_name == a.atom_name
            && b.atom_number == a.atom_number && b.velocity == a.velocity && -5 <= b.position.x
            - a.position.x <= 5 && -5 <= b.position.y - a.position.y <= 5 && -5 <= b.position.z
            - a.position.z <= 5
    } by {
        let a = m.atoms[i];
        lemma_shown3_close(a.position.x as int);
        lemma_shown3_close(a.position.y as int);
        lemma_shown3_close(a.position.z as int);
    }
}

/// Record lines written from atoms that agree line by line are the same
/// text.
pub proof fn lemma_atoms_text_congruent(x: Seq<AtomModel>, y: Seq<AtomModel>)
    requires
        x.len() == y.len(),
        forall|i: int| 0 <= i < x.len() ==> atom_line(#[trigger] x[i]) == atom_line(y[i]),
    ensures
        atoms_text(x) == atoms_text(y),
    decreases x.len(),
{
    if x.len() > 0 {
        assert(x.drop_last().len() == y.drop_last().len());
        assert(forall|i: int|
            0 <= i < x.drop_last().len() ==> atom_line(#[trigger] x.drop_last()[i]) == atom_line(
                y.drop_last()[i],
            )) by {
            assert(forall|i: int| 0 <= i < x.len() - 1 ==> x.drop_last()[i] == x[i]);
            assert(forall|i: int| 0 <= i < y.len() - 1 ==> y.drop_last()[i] == y[i]);
        }
        lemma_atoms_text_congruent(x.drop_last(), y.drop_last());
        assert(atom_line(x.last()) == atom_line(y.last()));
    }
}

/// A reparsed atom writes the very same record line again: its rounded
/// position shows the same three decimals.
pub proof fn lemma_atom_line_of_reparsed(a: AtomModel)
    requires
        wf_coord(a.position.x),
        wf_coord(a.position.y),
        wf_coord(a.position.z),
    ensures
        atom_line(reparsed_atom(a)) == atom_line(a),
{
    lemma_fmt_of_shown(a.position.x as int, 3);
    lemma_fmt_of_shown(a.position.y as int, 3);
    lemma_fmt_of_shown(a.position.z as int, 3);
    lemma_shown3_close(a.position.x as int);
    lemma_shown3_close(a.position.y as int);
    lemma_shown3_close(a.position.z as int);
    assert((shown_units(a.position.x as int, 3) as i64) as int == shown_units(
        a.position.x as int,
        3,
    ));
    assert((shown_units(a.position.y as int, 3) as i64) as int == shown_units(
        a.position.y as int,
        3,
    ));
    assert((shown_units(a.position.z as int, 3) as i64) as int == shown_units(
        a.position.z as int,
        3,
    ));
    assert(vec_text(reparsed_atom(a).position, 8, 3) == vec_text(a.position, 8, 3));
}

/// Idempotence: writing what was read back from written text gives the
/// written text again, byte for byte — one rounding is all that ever
/// happens.
pub proof fn lemma_render_idempotent(m: StructureModel)
    requires
        renderable(m),
    ensures
        render_spec(reparsed_model(m)) == render_spec(m),
        sorted_atoms(m.atoms) ==> crate::types::sort_atoms(reparsed_model(m).atoms)
            == reparsed_model(m).atoms,
{
    let m2 = reparsed_model(m);
    assert(forall|i: int|
        0 <= i < m.atoms.len() ==> atom_line(#[trigger] m2.atoms[i]) == atom_line(m.atoms[i]))
        by {
        assert forall|i: int| 0 <= i < m.atoms.len() implies atom_line(#[trigger] m2.atoms[i])
            == atom_line(m.atoms[i]) by {
            assert(m2.atoms[i] == reparsed_atom(m.atoms[i]));
            lemma_atom_line_of_reparsed(m.atoms[i]);
        }
    }
    lemma_atoms_text_congruent(m2.atoms, m.atoms);
    assert(render_spec(m2) =~= render_spec(m));
    if sorted_atoms(m.atoms) {
        lemma_reparsed_keeps_order(m.atoms);
    }
}

} // verus!

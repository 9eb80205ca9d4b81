//! Reading structures from text: line handling, record fields, the
//! box-size line, and the whole-file parse, each against an exact
//! specification.

use vstd::prelude::*;
use vstd::string::StrSliceExecFns;

use crate::error::Error;
use crate::error::ParseError;
use crate::fixed::parse_fixed;
use crate::fixed::parse_fixed_spec;
use crate::geometry::Vector3d;
use crate::num::parse_i32_field;
use crate::num::parse_i32_spec;
use crate::num::parse_usize_field;
use crate::num::parse_usize_spec;
use crate::text::spec_line;
use crate::text::spec_next;
use crate::text::split_tokens;
use crate::text::split_ws;
use crate::text::token_views;
use crate::text::trim_spec;
use crate::text::trim_str;
use crate::text::lemma_newline_pos_is;
use crate::types::models;
use crate::types::sort_atoms;
use crate::types::Atom;
use crate::types::AtomModel;
use crate::types::Structure;
use crate::types::StructureModel;

verus! {

/// Reads the line at `*pos` of `s` and moves `*pos` past it; nothing is
/// left once `*pos` has reached the end.
#[verifier::loop_isolation(false)]
pub fn next_line<'a>(s: &'a str, pos: &mut usize) -> (r: Result<&'a str, Error>)
    requires
        *old(pos) <= s@.len(),
    ensures
        *old(pos) == s@.len() ==> (r matches Err(e) && e == Error::LackOfLine && *final(pos)
            == *old(pos)),
        *old(pos) < s@.len() ==> (r matches Ok(l) && l@ == spec_line(s@, *old(pos) as int)
            && *final(pos) == spec_next(s@, *old(pos) as int) && *old(pos) < *final(pos)
            <= s@.len()),
{
    let n = s.unicode_len();
    let start = *pos;
    if start == n {
        return Err(Error::LackOfLine);
    }
    let mut e = start;
    while e < n && s.get_char(e) != '\n'
        invariant
            start <= e <= n,
            forall|j: int| start <= j < e ==> s@[j] != '\n',
        decreases n - e,
    {
        e = e + 1;
    }
    proof {
        let t = s@.skip(start as int);
        assert(forall|j: int| 0 <= j < e - start ==> t[j] != '\n') by {
            assert(forall|j: int| 0 <= j < e - start ==> t[j] == s@[start + j]);
        }
        lemma_newline_pos_is(t, e - start);
    }
    if e < n {
        let lend = if e > start && s.get_char(e - 1) == '\r' {
            e - 1
        } else {
            e
        };
        let line = s.substring_char(start, lend);
        *pos = e + 1;
        proof {
            let t = s@.skip(start as int);
            let raw = t.subrange(0, e - start);
            assert(raw =~= s@.subrange(start as int, e as int));
            if e > start && s@[e - 1] == '\r' {
                assert(raw.len() > 0 && raw.last() == '\r');
                assert(line@ =~= raw.drop_last());
            } else {
                assert(!(raw.len() > 0 && raw.last() == '\r'));
                assert(line@ =~= raw);
            }
        }
        Ok(line)
    } else {
        let line = s.substring_char(start, n);
        *pos = n;
        proof {
            let t = s@.skip(start as int);
            let raw = t.subrange(0, e - start);
            assert(raw =~= s@.subrange(start as int, n as int));
            assert(line@ =~= raw);
        }
        Ok(line)
    }
}

/// The width of one velocity column of a record line: the format has two
/// variants, velocities eight columns wide with three decimals or nine
/// columns wide with four. This library writes the nine-wide variant and
/// reads both: a line of at least 71 characters carries nine-wide
/// velocity columns, a shorter one eight-wide.
pub open spec fn vel_width(t: Seq<char>) -> int {
    if t.len() >= 71 {
        9
    } else {
        8
    }
}

/// What reading one record line yields: a fault when the line is shorter
/// than its 68 fixed columns, when an integer field is bad, or when a
/// coordinate field is bad, in that order of the columns; else the atom.
pub open spec fn parse_atom_spec(t: Seq<char>) -> Result<AtomModel, Error> {
    if t.len() < 68 {
        Err(Error::Parse(ParseError::OutOfRange))
    } else {
        let rn = parse_i32_spec(trim_spec(t.subrange(0, 5)));
        let an = parse_i32_spec(trim_spec(t.subrange(15, 20)));
        if rn is None || an is None {
            Err(Error::Parse(ParseError::Integer))
        } else {
            let w = vel_width(t);
            let px = parse_fixed_spec(trim_spec(t.subrange(20, 28)));
            let py = parse_fixed_spec(trim_spec(t.subrange(28, 36)));
            let pz = parse_fixed_spec(trim_spec(t.subrange(36, 44)));
            let vx = parse_fixed_spec(trim_spec(t.subrange(44, 44 + w)));
            let vy = parse_fixed_spec(trim_spec(t.subrange(44 + w, 44 + 2 * w)));
            let vz = parse_fixed_spec(trim_spec(t.subrange(44 + 2 * w, 44 + 3 * w)));
            if px is None || py is None || pz is None || vx is None || vy is None || vz is None {
                Err(Error::Parse(ParseError::Float))
            } else {
                Ok(
                    AtomModel {
                        res_number: rn->Some_0,
                        res_name: trim_spec(t.subrange(5, 10)),
                        atom_name: trim_spec(t.subrange(10, 15)),
                        atom_number: an->Some_0,
                        position: Vector3d {
                            x: px->Some_0 as i64,
                            y: py->Some_0 as i64,
                            z: pz->Some_0 as i64,
                        },
                        velocity: Vector3d {
                            x: vx->Some_0 as i64,
                            y: vy->Some_0 as i64,
                            z: vz->Some_0 as i64,
                        },
                    },
                )
            }
        }
    }
}

impl Atom {
    /// Reads one record line, exactly as [`parse_atom_spec`] says.
    pub fn parse(line: &str) -> (r: Result<Atom, Error>)
        ensures
            r is Ok <==> parse_atom_spec(line@) is Ok,
            r matches Ok(a) ==> parse_atom_spec(line@) == Ok::<AtomModel, Error>(a@),
            r matches Err(e) ==> parse_atom_spec(line@) == Err::<AtomModel, Error>(e),
    {
        let n = line.unicode_len();
        if n < 68 {
            return Err(Error::Parse(ParseError::OutOfRange));
        }
        let rn = match parse_i32_field(trim_str(line.substring_char(0, 5))) {
            Some(v) => v,
            None => {
                return Err(Error::Parse(ParseError::Integer));
            },
        };
        let res_name = trim_str(line.substring_char(5, 10));
        let atom_name = trim_str(line.substring_char(10, 15));
        let an = match parse_i32_field(trim_str(line.substring_char(15, 20))) {
            Some(v) => v,
            None => {
                return Err(Error::Parse(ParseError::Integer));
            },
        };
        let px = match parse_fixed(trim_str(line.substring_char(20, 28))) {
            Some(v) => v,
            None => {
                return Err(Error::Parse(ParseError::Float));
            },
        };
        let py = match parse_fixed(trim_str(line.substring_char(28, 36))) {
            Some(v) => v,
            None => {
                return Err(Error::Parse(ParseError::Float));
            },
        };
        let pz = match parse_fixed(trim_str(line.substring_char(36, 44))) {
            Some(v) => v,
            None => {
                return Err(Error::Parse(ParseError::Float));
            },
        };
        let w: usize = if n >= 71 {
            9
        } else {
            8
        };
        let vx = match parse_fixed(trim_str(line.substring_char(44, 44 + w))) {
            Some(v) => v,
            None => {
                return Err(Error::Parse(ParseError::Float));
            },
        };
        let vy = match parse_fixed(trim_str(line.substring_char(44 + w, 44 + 2 * w))) {
            Some(v) => v,
            None => {
                return Err(Error::Parse(ParseError::Float));
            },
        };
        let vz = match parse_fixed(trim_str(line.substring_char(44 + 2 * w, 44 + 3 * w))) {
            Some(v) => v,
            None => {
                return Err(Error::Parse(ParseError::Float));
            },
        };
        Ok(
            Atom {
                res_number: rn,
                res_name: res_name.to_owned(),
                atom_name: atom_name.to_owned(),
                atom_number: an,
                position: Vector3d::new(px, py, pz),
                velocity: Vector3d::new(vx, vy, vz),
            },
        )
    }
}

/// What reading the box-size line yields: a fault when it does not hold
/// exactly three tokens, or when some token is not a decimal; else the
/// box-size vector.
pub open spec fn parse_box_spec(t: Seq<char>) -> Result<Vector3d, Error> {
    let toks = split_ws(t);
    if toks.len() != 3 {
        Err(Error::Parse(ParseError::InvalidStatement))
    } else {
        let x = parse_fixed_spec(toks[0]);
        let y = parse_fixed_spec(toks[1]);
        let z = parse_fixed_spec(toks[2]);
        if x is None || y is None || z is None {
            Err(Error::Parse(ParseError::Float))
        } else {
            Ok(Vector3d { x: x->Some_0 as i64, y: y->Some_0 as i64, z: z->Some_0 as i64 })
        }
    }
}

/// Reads the box-size line, exactly as [`parse_box_spec`] says.
pub fn parse_box_size(s: &str) -> (r: Result<Vector3d, Error>)
    ensures
        r is Ok <==> parse_box_spec(s@) is Ok,
        r matches Ok(v) ==> parse_box_spec(s@) == Ok::<Vector3d, Error>(v),
        r matches Err(e) ==> parse_box_spec(s@) == Err::<Vector3d, Error>(e),
{
    let toks = split_tokens(s);
    if toks.len() != 3 {
        return Err(Error::Parse(ParseError::InvalidStatement));
    }
    proof {
        assert(token_views(toks@)[0] == toks@[0]@);
        assert(token_views(toks@)[1] == toks@[1]@);
        assert(token_views(toks@)[2] == toks@[2]@);
    }
    let x = match parse_fixed(toks[0]) {
        Some(v) => v,
        None => {
            return Err(Error::Parse(ParseError::Float));
        },
    };
    let y = match parse_fixed(toks[1]) {
        Some(v) => v,
        None => {
            return Err(Error::Parse(ParseError::Float));
        },
    };
    let z = match parse_fixed(toks[2]) {
        Some(v) => v,
        None => {
            return Err(Error::Parse(ParseError::Float));
        },
    };
    Ok(Vector3d::new(x, y, z))
}

/// What reading `n` record lines from position `p` yields: the atoms and
/// the position after them, or the first fault; a missing line is a fault
/// of its own.
pub open spec fn parse_atoms_spec(s: Seq<char>, p: int, n: nat) -> Result<
    (Seq<AtomModel>, int),
    Error,
>
    decreases n,
{
    if n == 0 {
        Ok((Seq::empty(), p))
    } else if p == s.len() {
        Err(Error::LackOfLine)
    } else {
        match parse_atom_spec(spec_line(s, p)) {
            Err(e) => Err(e),
            Ok(a) => match parse_atoms_spec(s, spec_next(s, p), (n - 1) as nat) {
                Err(e) => Err(e),
                Ok(pr) => Ok((seq![a] + pr.0, pr.1)),
            },
        }
    }
}

/// What reading a whole text yields: the title line, the declared count
/// of record lines, and the box-size line, or the first fault met on the
/// way. Text after the box-size line is not read.
pub open spec fn parse_structure_spec(s: Seq<char>) -> Result<StructureModel, Error> {
    if s.len() == 0 {
        Err(Error::LackOfLine)
    } else {
        let title = spec_line(s, 0);
        let p1 = spec_next(s, 0);
        if p1 == s.len() {
            Err(Error::LackOfLine)
        } else {
            match parse_usize_spec(trim_spec(spec_line(s, p1))) {
                None => Err(Error::Parse(ParseError::Integer)),
                Some(n) => match parse_atoms_spec(s, spec_next(s, p1), n as nat) {
                    Err(e) => Err(e),
                    Ok(pr) => {
                        if pr.1 == s.len() {
                            Err(Error::LackOfLine)
                        } else {
                            match parse_box_spec(spec_line(s, pr.1)) {
                                Err(e) => Err(e),
                                Ok(b) => Ok(
                                    StructureModel { title, atoms: pr.0, box_size: b },
                                ),
                            }
                        }
                    },
                },
            }
        }
    }
}

impl Structure {
    /// Reads a whole text, exactly as [`parse_structure_spec`] says; the
    /// atoms of the structure are then held sorted by atom number.
    #[verifier::loop_isolation(false)]
    #[verifier::rlimit(60)]
    pub fn parse(text: &str) -> (r: Result<Structure, Error>)
        ensures
            r is Ok <==> parse_structure_spec(text@) is Ok,
            r matches Ok(st) ==> parse_structure_spec(text@) matches Ok(m) && st@.title == m.title
                && st@.atoms == sort_atoms(m.atoms) && st@.box_size == m.box_size,
            r matches Err(e) ==> parse_structure_spec(text@) == Err::<StructureModel, Error>(e),
    {
        let mut pos: usize = 0;
        let title = match next_line(text, &mut pos) {
            Ok(l) => l,
            Err(e) => {
                return Err(e);
            },
        };
        let count_line = match next_line(text, &mut pos) {
            Ok(l) => l,
            Err(e) => {
                return Err(e);
            },
        };
        let count = match parse_usize_field(trim_str(count_line)) {
            Some(v) => v,
            None => {
                return Err(Error::Parse(ParseError::Integer));
            },
        };
        let ghost p_start = pos as int;
        let mut atoms: Vec<Atom> = Vec::new();
        let mut i: usize = 0;
        proof {
            assert(models(atoms@) =~= Seq::<AtomModel>::empty());
            let res0 = parse_atoms_spec(text@, p_start, count as nat);
            if res0 is Ok {
                assert(models(atoms@) + res0->Ok_0.0 =~= res0->Ok_0.0);
            }
        }
        while i < count
            invariant
                0 <= i <= count,
                pos <= text@.len(),
                parse_atoms_spec(text@, p_start, count as nat) == (match parse_atoms_spec(
                    text@,
                    pos as int,
                    (count - i) as nat,
                ) {
                    Ok(pr) => Ok::<(Seq<AtomModel>, int), Error>((models(atoms@) + pr.0, pr.1)),
                    Err(e) => Err::<(Seq<AtomModel>, int), Error>(e),
                }),
            decreases count - i,
        {
            let ghost pp = pos as int;
            let line = match next_line(text, &mut pos) {
                Ok(l) => l,
                Err(e) => {
                    proof {
                        assert(parse_atoms_spec(text@, pp, (count - i) as nat) == Err::<
                            (Seq<AtomModel>, int),
                            Error,
                        >(Error::LackOfLine));
                    }
                    return Err(e);
                },
            };
            let atom = match Atom::parse(line) {
                Ok(a) => a,
                Err(e) => {
                    proof {
                        assert(parse_atoms_spec(text@, pp, (count - i) as nat) == Err::<
                            (Seq<AtomModel>, int),
                            Error,
                        >(e));
                    }
                    return Err(e);
                },
            };
            proof {
                let rem = (count - i) as nat;
                assert(parse_atom_spec(spec_line(text@, pp)) == Ok::<AtomModel, Error>(atom@));
                let res = parse_atoms_spec(text@, pos as int, (rem - 1) as nat);
                if res is Ok {
                    let rest = res->Ok_0.0;
                    let q = res->Ok_0.1;
                    assert(parse_atoms_spec(text@, pp, rem) == Ok::<(Seq<AtomModel>, int), Error>(
                        (seq![atom@] + rest, q),
                    ));
                    assert(models(atoms@.push(atom)) =~= models(atoms@) + seq![atom@]);
                    assert(models(atoms@) + (seq![atom@] + rest) =~= (models(atoms@) + seq![
                        atom@,
                    ]) + rest);
                } else {
                    assert(parse_atoms_spec(text@, pp, rem) == res);
                }
            }
            atoms.push(atom);
            i = i + 1;
        }
        proof {
            assert(parse_atoms_spec(text@, pos as int, 0) == Ok::<(Seq<AtomModel>, int), Error>(
                (Seq::empty(), pos as int),
            ));
            assert(models(atoms@) + Seq::<AtomModel>::empty() =~= models(atoms@));
            assert(parse_atoms_spec(text@, p_start, count as nat) == Ok::<
                (Seq<AtomModel>, int),
                Error,
            >((models(atoms@), pos as int)));
        }
        let box_line = match next_line(text, &mut pos) {
            Ok(l) => l,
            Err(e) => {
                return Err(e);
            },
        };
        let bs = match parse_box_size(box_line) {
            Ok(v) => v,
            Err(e) => {
                return Err(e);
            },
        };
        let st = Structure::new(title.to_owned(), atoms, bs);
        Ok(st)
    }
}

} // verus!

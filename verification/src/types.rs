//! The structural model: atom records, residues, and the structure that
//! owns them, with rendering back to fixed-column text.

use vstd::prelude::*;
use vstd::multiset::Multiset;
use vstd::string::StrSliceExecFns;
use vstd::string::StringExecFns;

use crate::error::Error;
use crate::fixed::fixed_string;
use crate::fixed::fmt_fixed;
use crate::geometry::Vector3d;
use crate::num::dec_digits;
use crate::num::int_string;
use crate::num::int_text;
use crate::text::ljust;
use crate::text::push_ljust;
use crate::text::push_rjust;
use crate::text::rjust;

verus! {

/// One atom record: residue number and name, atom name and number, and
/// the two fixed-point vectors of a record line.
pub struct Atom {
    pub res_number: i32,
    pub res_name: String,
    pub atom_name: String,
    pub atom_number: i32,
    pub position: Vector3d,
    pub velocity: Vector3d,
}

/// The mathematical value of an atom record: its numbers as integers and
/// its names as character sequences.
pub ghost struct AtomModel {
    pub res_number: int,
    pub res_name: Seq<char>,
    pub atom_name: Seq<char>,
    pub atom_number: int,
    pub position: Vector3d,
    pub velocity: Vector3d,
}

impl View for Atom {
    type V = AtomModel;

    open spec fn view(&self) -> AtomModel {
        AtomModel {
            res_number: self.res_number as int,
            res_name: self.res_name@,
            atom_name: self.atom_name@,
            atom_number: self.atom_number as int,
            position: self.position,
            velocity: self.velocity,
        }
    }
}

impl Clone for Atom {
    /// An exact copy of the record.
    fn clone(&self) -> (r: Self)
        ensures
            r@ == self@,
    {
        Atom {
            res_number: self.res_number,
            res_name: self.res_name.clone(),
            atom_name: self.atom_name.clone(),
            atom_number: self.atom_number,
            position: self.position,
            velocity: self.velocity,
        }
    }
}

/// The models of a sequence of atom records.
pub open spec fn models(s: Seq<Atom>) -> Seq<AtomModel> {
    s.map_values(|a: Atom| a@)
}

/// A residue: a numbered, named group of atom records keyed by atom name.
/// The records are held in first-insertion order with atom names unique;
/// a later record with a name already present replaces the earlier one.
pub struct Residue {
    pub number: i32,
    pub name: String,
    pub atoms: Vec<Atom>,
}

impl Residue {
    /// An empty residue with the given number and name.
    pub fn new(number: i32, name: &str) -> (r: Residue)
        ensures
            r.number == number,
            r.name@ == name@,
            r.atoms@.len() == 0,
    {
        Residue { number, name: name.to_owned(), atoms: Vec::new() }
    }
}

/// A structure: one title line, the atom records, and the box size.
pub struct Structure {
    title: String,
    atoms: Vec<Atom>,
    box_size: Vector3d,
}

/// The mathematical value of a structure.
pub ghost struct StructureModel {
    pub title: Seq<char>,
    pub atoms: Seq<AtomModel>,
    pub box_size: Vector3d,
}

impl View for Structure {
    type V = StructureModel;

    closed spec fn view(&self) -> StructureModel {
        StructureModel { title: self.title@, atoms: models(self.atoms@), box_size: self.box_size }
    }
}

/// Whether a sequence of atom models is sorted by atom number, ascending.
pub open spec fn sorted_atoms(s: Seq<AtomModel>) -> bool {
    forall|i: int, j: int| 0 <= i < j < s.len() ==> s[i].atom_number <= s[j].atom_number
}

/// `a` inserted into `s` after every entry whose atom number does not
/// exceed its own; on sorted input this keeps order and keeps equal atom
/// numbers in their arrival order.
pub open spec fn insert_sorted(a: AtomModel, s: Seq<AtomModel>) -> Seq<AtomModel>
    decreases s.len(),
{
    if s.len() == 0 {
        seq![a]
    } else if s.last().atom_number > a.atom_number {
        insert_sorted(a, s.drop_last()).push(s.last())
    } else {
        s.push(a)
    }
}

/// The stable insertion sort of a sequence of atom models by atom number.
pub open spec fn sort_atoms(s: Seq<AtomModel>) -> Seq<AtomModel>
    decreases s.len(),
{
    if s.len() == 0 {
        Seq::empty()
    } else {
        insert_sorted(s.last(), sort_atoms(s.drop_last()))
    }
}

/// Where the scan of a sorted sequence stops, the insertion goes.
pub proof fn lemma_insert_sorted_at(s: Seq<AtomModel>, a: AtomModel, j: int)
    requires
        sorted_atoms(s),
        0 <= j <= s.len(),
        forall|k: int| j <= k < s.len() ==> s[k].atom_number > a.atom_number,
        j > 0 ==> s[j - 1].atom_number <= a.atom_number,
    ensures
        insert_sorted(a, s) == s.take(j) + seq![a] + s.skip(j),
    decreases s.len(),
{
    if s.len() == 0 {
        assert(insert_sorted(a, s) =~= s.take(0) + seq![a] + s.skip(0));
    } else if s.last().atom_number > a.atom_number {
        assert(j < s.len());
        let t = s.drop_last();
        assert(forall|k: int| j <= k < t.len() ==> t[k].atom_number > a.atom_number);
        lemma_insert_sorted_at(t, a, j);
        assert(insert_sorted(a, s) =~= s.take(j) + seq![a] + s.skip(j));
    } else {
        assert(j == s.len()) by {
            if j < s.len() {
                assert(s[s.len() - 1].atom_number > a.atom_number);
            }
        }
        assert(s.push(a) =~= s.take(j) + seq![a] + s.skip(j));
    }
}

/// Inserting keeps sortedness and adds the one entry.
pub proof fn lemma_insert_sorted_props(a: AtomModel, s: Seq<AtomModel>)
    requires
        sorted_atoms(s),
    ensures
        sorted_atoms(insert_sorted(a, s)),
        insert_sorted(a, s).to_multiset() == s.to_multiset().insert(a),
        insert_sorted(a, s).len() == s.len() + 1,
    decreases s.len(),
{
    s.to_multiset_ensures();
    if s.len() == 0 {
        let r = insert_sorted(a, s);
        assert(r =~= seq![a]);
        assert(r.drop_last() =~= Seq::<AtomModel>::empty());
        r.drop_last().to_multiset_ensures();
        assert(Seq::<AtomModel>::empty().to_multiset() =~= Multiset::<AtomModel>::empty());
        assert(r.to_multiset() =~= s.to_multiset().insert(a));
    } else if s.last().atom_number > a.atom_number {
        let t = s.drop_last();
        lemma_insert_sorted_props(a, t);
        let u = insert_sorted(a, t);
        u.to_multiset_ensures();
        t.to_multiset_ensures();
        let r = u.push(s.last());
        assert(insert_sorted(a, s) == r);
        assert(sorted_atoms(r)) by {
            assert(forall|k: int|
                0 <= k < u.len() ==> u.to_multiset().contains(#[trigger] u[k]));
            assert(forall|k: int|
                0 <= k < u.len() ==> u[k].atom_number <= s.last().atom_number) by {
                assert(forall|k: int|
                    0 <= k < u.len() ==> t.to_multiset().insert(a).contains(#[trigger] u[k]));
                assert(forall|x: AtomModel|
                    t.to_multiset().contains(x) ==> t.contains(x));
                assert(forall|k: int|
                    0 <= k < t.len() ==> (#[trigger] t[k]).atom_number <= s.last().atom_number);
            }
        }
        assert(r.to_multiset() =~= s.to_multiset().insert(a)) by {
            assert(r.to_multiset() == u.to_multiset().insert(s.last()));
            assert(u.to_multiset() == t.to_multiset().insert(a));
            assert(s.to_multiset() == t.to_multiset().insert(s.last())) by {
                assert(t.push(s.last()) =~= s);
            }
            assert(t.to_multiset().insert(a).insert(s.last()) =~= t.to_multiset().insert(
                s.last(),
            ).insert(a));
        }
    } else {
        let r = s.push(a);
        assert(insert_sorted(a, s) == r);
        assert(sorted_atoms(r)) by {
            assert(forall|k: int| 0 <= k < s.len() ==> s[k].atom_number <= a.atom_number) by {
                assert(forall|k: int|
                    0 <= k < s.len() - 1 ==> (#[trigger] s[k]).atom_number <= s[s.len()
                        - 1].atom_number);
            }
        }
    }
}

/// What the sort yields: a sorted sequence with the same entries.
pub proof fn lemma_sort_atoms_props(s: Seq<AtomModel>)
    ensures
        sorted_atoms(sort_atoms(s)),
        sort_atoms(s).to_multiset() == s.to_multiset(),
        sort_atoms(s).len() == s.len(),
    decreases s.len(),
{
    s.to_multiset_ensures();
    if s.len() == 0 {
        assert(sort_atoms(s) =~= s);
    } else {
        let t = s.drop_last();
        lemma_sort_atoms_props(t);
        lemma_insert_sorted_props(s.last(), sort_atoms(t));
        t.to_multiset_ensures();
        assert(t.push(s.last()) =~= s);
        assert(t.push(s.last()).to_multiset() =~= t.to_multiset().insert(s.last()));
        assert(sort_atoms(s).to_multiset() == sort_atoms(t).to_multiset().insert(s.last()));
        assert(sort_atoms(s).to_multiset() =~= s.to_multiset());
    }
}

/// Sorting a sequence that is already sorted changes nothing.
pub proof fn lemma_sort_atoms_of_sorted(s: Seq<AtomModel>)
    requires
        sorted_atoms(s),
    ensures
        sort_atoms(s) == s,
    decreases s.len(),
{
    if s.len() > 0 {
        let t = s.drop_last();
        assert(sorted_atoms(t));
        lemma_sort_atoms_of_sorted(t);
        if t.len() == 0 {
            assert(sort_atoms(s) =~= s);
        } else {
            assert(t.last().atom_number <= s.last().atom_number);
            assert(sort_atoms(s) == t.push(s.last()));
            assert(t.push(s.last()) =~= s);
        }
    }
}

/// The stable insertion sort, executably: the result models exactly
/// [`sort_atoms`] of the input's models.
fn sort_by_atom_number(v: Vec<Atom>) -> (r: Vec<Atom>)
    ensures
        models(r@) == sort_atoms(models(v@)),
{
    let mut out: Vec<Atom> = Vec::new();
    let mut i: usize = 0;
    proof {
        assert(models(v@.take(0)) =~= Seq::<AtomModel>::empty());
        assert(models(out@) =~= sort_atoms(models(v@.take(0))));
    }
    while i < v.len()
        invariant
            0 <= i <= v.len(),
            models(out@) == sort_atoms(models(v@.take(i as int))),
            sorted_atoms(models(out@)),
        decreases v.len() - i,
    {
        let a = v[i].clone();
        let mut j: usize = out.len();
        while j > 0 && out[j - 1].atom_number > a.atom_number
            invariant
                0 <= j <= out.len(),
                forall|k: int|
                    j <= k < out.len() ==> models(out@)[k].atom_number > a@.atom_number,
            decreases j,
        {
            j = j - 1;
        }
        proof {
            lemma_insert_sorted_at(models(out@), a@, j as int);
            lemma_insert_sorted_props(a@, models(out@));
        }
        let ghost old_out = out@;
        out.insert(j, a);
        proof {
            assert(models(out@) =~= models(old_out).take(j as int) + seq![a@] + models(
                old_out,
            ).skip(j as int));
            assert(models(out@) == insert_sorted(a@, models(old_out)));
            assert(models(v@.take(i + 1)).drop_last() =~= models(v@.take(i as int)));
            assert(models(v@.take(i + 1)).last() == a@);
            assert(models(out@) == sort_atoms(models(v@.take(i + 1))));
        }
        i = i + 1;
    }
    proof {
        assert(v@.take(v@.len() as int) =~= v@);
    }
    out
}

/// The fixed-column text of a vector: each component right-justified in
/// width `w`, written with `d` decimals.
pub open spec fn vec_text(v: Vector3d, w: int, d: int) -> Seq<char> {
    rjust(fmt_fixed(v.x as int, d), w) + rjust(fmt_fixed(v.y as int, d), w) + rjust(
        fmt_fixed(v.z as int, d),
        w,
    )
}

/// Appends the fixed-column text of a vector to `out`.
fn push_vec(out: &mut String, v: &Vector3d, w: usize, d: usize)
    requires
        d == 3 || d == 4,
    ensures
        final(out)@ == old(out)@ + vec_text(*v, w as int, d as int),
{
    let sx = fixed_string(v.x, d);
    push_rjust(out, sx.as_str(), w);
    let sy = fixed_string(v.y, d);
    push_rjust(out, sy.as_str(), w);
    let sz = fixed_string(v.z, d);
    push_rjust(out, sz.as_str(), w);
    proof {
        assert(out@ =~= old(out)@ + vec_text(*v, w as int, d as int));
    }
}

/// The record line of one atom: residue number right in width five, then
/// residue name left and atom name right in width five each, the atom
/// number right in width five, the position in three columns eight wide
/// with three decimals, and the velocity in three columns nine wide with
/// four decimals.
pub open spec fn atom_line(a: AtomModel) -> Seq<char> {
    rjust(int_text(a.res_number), 5) + ljust(a.res_name, 5) + rjust(a.atom_name, 5) + rjust(
        int_text(a.atom_number),
        5,
    ) + vec_text(a.position, 8, 3) + vec_text(a.velocity, 9, 4)
}

/// The record lines of a sequence of atoms, each ended by a newline.
pub open spec fn atoms_text(s: Seq<AtomModel>) -> Seq<char>
    decreases s.len(),
{
    if s.len() == 0 {
        Seq::empty()
    } else {
        atoms_text(s.drop_last()) + atom_line(s.last()) + seq!['\n']
    }
}

/// The full text of a structure: the title line, the atom count line, one
/// record line per atom, and the box-size line in three columns ten wide
/// with four decimals, without a final newline.
pub open spec fn render_spec(m: StructureModel) -> Seq<char> {
    m.title + seq!['\n'] + dec_digits(m.atoms.len() as int) + seq!['\n'] + atoms_text(m.atoms)
        + vec_text(m.box_size, 10, 4)
}

impl Atom {
    /// The record line of this atom, without a newline.
    pub fn render(&self) -> (r: String)
        ensures
            r@ == atom_line(self@),
    {
        let mut out = String::new();
        let rn = int_string(self.res_number);
        push_rjust(&mut out, rn.as_str(), 5);
        push_ljust(&mut out, self.res_name.as_str(), 5);
        push_rjust(&mut out, self.atom_name.as_str(), 5);
        let an = int_string(self.atom_number);
        push_rjust(&mut out, an.as_str(), 5);
        push_vec(&mut out, &self.position, 8, 3);
        push_vec(&mut out, &self.velocity, 9, 4);
        proof {
            assert(out@ =~= atom_line(self@));
        }
        out
    }
}

impl Structure {
    /// Every structure holds its atoms sorted ascending by atom number.
    #[verifier::type_invariant]
    pub closed spec fn wf(self) -> bool {
        sorted_atoms(models(self.atoms@))
    }

    /// A structure from its parts. The atoms are put in ascending order
    /// of atom number; records with equal numbers keep their given order.
    pub fn new(title: String, atoms: Vec<Atom>, box_size: Vector3d) -> (r: Structure)
        ensures
            r@.title == title@,
            r@.atoms == sort_atoms(models(atoms@)),
            r@.box_size == box_size,
    {
        let ghost orig = atoms@;
        let sorted = sort_by_atom_number(atoms);
        proof {
            lemma_sort_atoms_props(models(orig));
        }
        Structure { title, atoms: sorted, box_size }
    }

    /// The title line.
    pub fn title(&self) -> (r: &str)
        ensures
            r@ == self@.title,
    {
        self.title.as_str()
    }

    /// The atom records, in ascending order of atom number.
    pub fn atoms(&self) -> (r: &Vec<Atom>)
        ensures
            models(r@) == self@.atoms,
            sorted_atoms(self@.atoms),
    {
        proof {
            use_type_invariant(self);
        }
        &self.atoms
    }

    /// The box size.
    pub fn box_size(&self) -> (r: &Vector3d)
        ensures
            *r == self@.box_size,
    {
        &self.box_size
    }

    /// The full text of the structure, exactly as [`render_spec`] says.
    pub fn render(&self) -> (r: String)
        ensures
            r@ == render_spec(self@),
    {
        proof {
            reveal_strlit("\n");
        }
        let mut out = String::new();
        out.append(self.title.as_str());
        out.append("\n");
        let ct = crate::num::count_string(self.atoms.len());
        out.append(ct.as_str());
        out.append("\n");
        proof {
            assert(models(self.atoms@.take(0)) =~= Seq::<AtomModel>::empty());
            assert(out@ =~= self.title@ + seq!['\n'] + dec_digits(self.atoms@.len() as int)
                + seq!['\n'] + atoms_text(models(self.atoms@.take(0))));
        }
        let ghost head = out@;
        let mut i: usize = 0;
        while i < self.atoms.len()
            invariant
                0 <= i <= self.atoms@.len(),
                out@ == self.title@ + seq!['\n'] + dec_digits(self.atoms@.len() as int) + seq![
                    '\n',
                ] + atoms_text(models(self.atoms@.take(i as int))),
            decreases self.atoms.len() - i,
        {
            let line = self.atoms[i].render();
            out.append(line.as_str());
            out.append("\n");
            proof {
                reveal_strlit("\n");
                let pm = models(self.atoms@.take(i as int));
                let qm = models(self.atoms@.take(i + 1));
                assert(qm.drop_last() =~= pm);
                assert(qm.last() == self.atoms@[i as int]@);
                assert(atoms_text(qm) == atoms_text(pm) + atom_line(self.atoms@[i as int]@)
                    + seq!['\n']);
                assert(out@ =~= self.title@ + seq!['\n'] + dec_digits(
                    self.atoms@.len() as int,
                ) + seq!['\n'] + atoms_text(qm));
            }
            i = i + 1;
        }
        push_vec(&mut out, &self.box_size, 10, 4);
        proof {
            assert(self.atoms@.take(self.atoms@.len() as int) =~= self.atoms@);
            assert(out@ =~= render_spec(self@));
        }
        out
    }
}

} // verus!

verus! {

/// The greatest residue number among the atoms; zero when there are none.
pub open spec fn max_res(s: Seq<AtomModel>) -> int
    decreases s.len(),
{
    if s.len() == 0 {
        0
    } else if s.last().res_number > max_res(s.drop_last()) {
        s.last().res_number
    } else {
        max_res(s.drop_last())
    }
}

/// No residue number exceeds the maximum.
pub proof fn lemma_max_res_ge(s: Seq<AtomModel>, i: int)
    requires
        0 <= i < s.len(),
    ensures
        s[i].res_number <= max_res(s),
    decreases s.len(),
{
    if i == s.len() - 1 {
    } else {
        lemma_max_res_ge(s.drop_last(), i);
    }
}

/// Whether some atom carries the residue number `id`.
pub open spec fn has_res(s: Seq<AtomModel>, id: int) -> bool {
    exists|i: int| 0 <= i < s.len() && (#[trigger] s[i]).res_number == id
}

/// The name of residue `id` after the atoms of `s` have been grouped: the
/// first non-empty residue name among its atoms, or the empty name.
pub open spec fn slot_name(s: Seq<AtomModel>, id: int) -> Seq<char>
    decreases s.len(),
{
    if s.len() == 0 {
        Seq::empty()
    } else {
        let prev = slot_name(s.drop_last(), id);
        if s.last().res_number == id && prev.len() == 0 {
            s.last().res_name
        } else {
            prev
        }
    }
}

/// Grouping succeeds when every residue number is at least one and no
/// atom contradicts the residue name its group already carries: the name
/// set by the first of its group whose own name is not empty.
pub open spec fn grouping_ok(s: Seq<AtomModel>) -> bool {
    (forall|i: int| 0 <= i < s.len() ==> (#[trigger] s[i]).res_number >= 1) && (forall|i: int|
        0 <= i < s.len() ==> {
            let prev = slot_name(s.take(i), (#[trigger] s[i]).res_number);
            prev.len() == 0 || prev == s[i].res_name
        })
}

/// The index of the first atom of `s` named `nm`, or the length.
pub open spec fn name_index(s: Seq<AtomModel>, nm: Seq<char>) -> int
    decreases s.len(),
{
    if s.len() == 0 {
        0
    } else if s[0].atom_name == nm {
        0
    } else {
        1 + name_index(s.drop_first(), nm)
    }
}

/// `name_index` is the least index carrying the name.
pub proof fn lemma_name_index_is(s: Seq<AtomModel>, nm: Seq<char>, e: int)
    requires
        0 <= e <= s.len(),
        forall|j: int| 0 <= j < e ==> (#[trigger] s[j]).atom_name != nm,
        e < s.len() ==> s[e].atom_name == nm,
    ensures
        name_index(s, nm) == e,
    decreases e,
{
    if e > 0 {
        let u = s.drop_first();
        assert(forall|j: int| 0 <= j < e - 1 ==> (#[trigger] u[j]).atom_name != nm);
        lemma_name_index_is(u, nm, e - 1);
    }
}

/// `a` put into a residue's records: it replaces the record with its atom
/// name when one is there, else it goes at the end.
pub open spec fn upsert(s: Seq<AtomModel>, a: AtomModel) -> Seq<AtomModel> {
    if name_index(s, a.atom_name) < s.len() {
        s.update(name_index(s, a.atom_name), a)
    } else {
        s.push(a)
    }
}

/// The records of residue `id` after the atoms of `s` have been grouped,
/// in first-arrival order of their atom names, later records replacing
/// earlier ones of the same name.
pub open spec fn residue_atoms(s: Seq<AtomModel>, id: int) -> Seq<AtomModel>
    decreases s.len(),
{
    if s.len() == 0 {
        Seq::empty()
    } else if s.last().res_number == id {
        upsert(residue_atoms(s.drop_last(), id), s.last())
    } else {
        residue_atoms(s.drop_last(), id)
    }
}

} // verus!

verus! {

/// Whether the atom at `i` agrees with the residue name its group carries
/// when it arrives.
pub open spec fn name_fits(s: Seq<AtomModel>, i: int) -> bool {
    let prev = slot_name(s.take(i), s[i].res_number);
    prev.len() == 0 || prev == s[i].res_name
}

/// What one entry of the residue view holds for residue number `id`.
pub open spec fn residue_ok(s: Seq<AtomModel>, rm: Residue, id: int) -> bool {
    &&& rm.number as int == if has_res(s, id) {
        id
    } else {
        0
    }
    &&& rm.name@ == slot_name(s, id)
    &&& models(rm.atoms@) == residue_atoms(s, id)
}

impl Structure {
    /// The residues of the structure: a dense array indexed by residue
    /// number less one, sized by the greatest residue number seen, gaps
    /// left as empty placeholder residues. Grouping fails with a
    /// consistency fault when some residue number is below one or when
    /// two records of one residue carry different non-empty names.
    #[verifier::loop_isolation(false)]
    #[verifier::rlimit(100)]
    pub fn residues(&self) -> (r: Result<Vec<Residue>, Error>)
        ensures
            r is Ok <==> grouping_ok(self@.atoms),
            r matches Ok(rs) ==> rs@.len() == max_res(self@.atoms) && (forall|t: int|
                0 <= t < rs@.len() ==> residue_ok(self@.atoms, #[trigger] rs@[t], t + 1)),
            r matches Err(e) ==> e == Error::Consistency,
    {
        let ghost sm = self@.atoms;
        let mut mx: i32 = 0;
        let mut i: usize = 0;
        proof {
            assert(sm.take(0) =~= Seq::<AtomModel>::empty());
        }
        while i < self.atoms.len()
            invariant
                0 <= i <= self.atoms@.len(),
                0 <= mx,
                mx as int == max_res(sm.take(i as int)),
                forall|j: int| 0 <= j < i ==> (#[trigger] sm[j]).res_number >= 1,
            decreases self.atoms@.len() - i,
        {
            let a = &self.atoms[i];
            if a.res_number < 1 {
                proof {
                    assert(sm[i as int].res_number < 1);
                    assert(!grouping_ok(sm));
                }
                return Err(Error::Consistency);
            }
            proof {
                assert(sm.take(i + 1).drop_last() =~= sm.take(i as int));
                assert(sm.take(i + 1).last() == sm[i as int]);
            }
            if a.res_number > mx {
                mx = a.res_number;
            }
            i = i + 1;
        }
        proof {
            assert(sm.take(sm.len() as int) =~= sm);
        }
        let mut rs: Vec<Residue> = Vec::new();
        let mut k: usize = 1;
        while k <= mx as usize
            invariant
                1 <= k <= mx as usize + 1,
                rs@.len() == k - 1,
                forall|t: int| 0 <= t < rs@.len() ==> residue_ok(sm, #[trigger] rs@[t], t + 1),
                forall|i2: int|
                    0 <= i2 < sm.len() && 1 <= (#[trigger] sm[i2]).res_number < k ==> name_fits(
                        sm,
                        i2,
                    ),
            decreases mx as usize + 1 - k,
        {
            let kid = k as i32;
            let mut resi = Residue::new(0, "");
            let mut i2: usize = 0;
            proof {
                reveal_strlit("");
                assert(resi.name@ =~= slot_name(sm.take(0), k as int));
                assert(models(resi.atoms@) =~= residue_atoms(sm.take(0), k as int));
                assert(sm.take(0) =~= Seq::<AtomModel>::empty());
            }
            while i2 < self.atoms.len()
                invariant
                    0 <= i2 <= sm.len(),
                    resi.name@ == slot_name(sm.take(i2 as int), k as int),
                    models(resi.atoms@) == residue_atoms(sm.take(i2 as int), k as int),
                    resi.number as int == if has_res(sm.take(i2 as int), k as int) {
                        k as int
                    } else {
                        0int
                    },
                    forall|t: int|
                        0 <= t < i2 && (#[trigger] sm[t]).res_number == k ==> name_fits(sm, t),
                decreases sm.len() - i2,
            {
                let a = &self.atoms[i2];
                proof {
                    assert(sm.take(i2 + 1).drop_last() =~= sm.take(i2 as int));
                    assert(sm.take(i2 + 1).last() == sm[i2 as int]);
                }
                if a.res_number == kid {
                    resi.number = kid;
                    if resi.name.as_str().unicode_len() == 0 {
                        resi.name = a.res_name.clone();
                        proof {
                            assert(resi.name@ == slot_name(sm.take(i2 + 1), k as int));
                            assert(name_fits(sm, i2 as int));
                        }
                    } else if !resi.name.eq(&a.res_name) {
                        proof {
                            assert(slot_name(sm.take(i2 as int), sm[i2 as int].res_number).len()
                                > 0);
                            assert(!name_fits(sm, i2 as int));
                            assert(!grouping_ok(sm));
                        }
                        return Err(Error::Consistency);
                    } else {
                        proof {
                            assert(resi.name@ == slot_name(sm.take(i2 + 1), k as int));
                            assert(name_fits(sm, i2 as int));
                        }
                    }
                    // Place the record: replace its namesake or append.
                    let ghost before = models(resi.atoms@);
                    let mut j: usize = 0;
                    while j < resi.atoms.len() && !resi.atoms[j].atom_name.eq(&a.atom_name)
                        invariant
                            0 <= j <= resi.atoms@.len(),
                            forall|t: int|
                                0 <= t < j ==> models(resi.atoms@)[t].atom_name != sm[i2 as int].atom_name,
                            models(resi.atoms@) == before,
                        decreases resi.atoms@.len() - j,
                    {
                        j = j + 1;
                    }
                    if j < resi.atoms.len() {
                        proof {
                            lemma_name_index_is(before, sm[i2 as int].atom_name, j as int);
                        }
                        resi.atoms.remove(j);
                        resi.atoms.insert(j, a.clone());
                        proof {
                            assert(models(resi.atoms@) =~= before.update(
                                j as int,
                                sm[i2 as int],
                            ));
                            assert(models(resi.atoms@) == upsert(before, sm[i2 as int]));
                        }
                    } else {
                        proof {
                            lemma_name_index_is(before, sm[i2 as int].atom_name, j as int);
                        }
                        resi.atoms.push(a.clone());
                        proof {
                            assert(models(resi.atoms@) =~= before.push(sm[i2 as int]));
                            assert(models(resi.atoms@) == upsert(before, sm[i2 as int]));
                        }
                    }
                    proof {
                        assert(models(resi.atoms@) == residue_atoms(sm.take(i2 + 1), k as int));
                    }
                } else {
                    proof {
                        assert(slot_name(sm.take(i2 + 1), k as int) == slot_name(
                            sm.take(i2 as int),
                            k as int,
                        ));
                        assert(residue_atoms(sm.take(i2 + 1), k as int) == residue_atoms(
                            sm.take(i2 as int),
                            k as int,
                        ));
                    }
                }
                i2 = i2 + 1;
            }
            proof {
                assert(sm.take(sm.len() as int) =~= sm);
                assert(residue_ok(sm, resi, k as int));
            }
            rs.push(resi);
            k = k + 1;
        }
        proof {
            assert(grouping_ok(sm)) by {
                assert(forall|t: int|
                    0 <= t < sm.len() ==> (#[trigger] sm[t]).res_number <= mx as int) by {
                    assert forall|t: int| 0 <= t < sm.len() implies (#[trigger] sm[t]).res_number
                        <= mx as int by {
                        lemma_max_res_ge(sm, t);
                    }
                }
            }
        }
        Ok(rs)
    }
}

} // verus!

verus! {

/// Once a group's name is set it never changes.
proof fn lemma_slot_name_mono(s: Seq<AtomModel>, k: int, i: int, j: int)
    requires
        0 <= i <= j <= s.len(),
        slot_name(s.take(i), k).len() > 0,
    ensures
        slot_name(s.take(j), k) == slot_name(s.take(i), k),
    decreases j - i,
{
    if j > i {
        lemma_slot_name_mono(s, k, i, j - 1);
        assert(s.take(j).drop_last() =~= s.take(j - 1));
        assert(s.take(j).last() == s[j - 1]);
    }
}

/// A non-empty group name is the residue name of one of its atoms.
proof fn lemma_slot_name_from(s: Seq<AtomModel>, k: int, j: int)
    requires
        0 <= j <= s.len(),
        slot_name(s.take(j), k).len() > 0,
    ensures
        exists|i: int|
            0 <= i < j && (#[trigger] s[i]).res_number == k && s[i].res_name == slot_name(
                s.take(j),
                k,
            ),
    decreases j,
{
    assert(j > 0) by {
        if j == 0 {
            assert(s.take(0) =~= Seq::<AtomModel>::empty());
        }
    }
    assert(s.take(j).drop_last() =~= s.take(j - 1));
    assert(s.take(j).last() == s[j - 1]);
    let prev = slot_name(s.take(j - 1), k);
    if prev.len() > 0 {
        lemma_slot_name_from(s, k, j - 1);
    } else {
        assert(s[j - 1].res_number == k && s[j - 1].res_name == slot_name(s.take(j), k));
    }
}

/// Grouping invariant: when grouping succeeds, two atoms of one residue
/// carry the same residue name, as soon as the earlier one's name is not
/// empty (an empty name leaves the group's name unset, as an empty slot
/// does).
pub proof fn lemma_grouping_names_agree(s: Seq<AtomModel>, i: int, j: int)
    requires
        grouping_ok(s),
        0 <= i < j < s.len(),
        s[i].res_number == s[j].res_number,
        s[i].res_name.len() > 0,
    ensures
        s[j].res_name == s[i].res_name,
{
    let k = s[i].res_number;
    assert(s.take(i + 1).drop_last() =~= s.take(i));
    assert(s.take(i + 1).last() == s[i]);
    let prev_i = slot_name(s.take(i), k);
    assert(prev_i.len() == 0 || prev_i == s[i].res_name);
    assert(slot_name(s.take(i + 1), k) == s[i].res_name);
    lemma_slot_name_mono(s, k, i + 1, j);
    let prev_j = slot_name(s.take(j), k);
    assert(prev_j == s[i].res_name);
    assert(prev_j.len() == 0 || prev_j == s[j].res_name);
}

} // verus!

verus! {

/// Whether every pair of atoms of one residue agrees on its name, as
/// soon as the earlier one's name is not empty.
pub open spec fn names_pairwise_agree(s: Seq<AtomModel>) -> bool {
    forall|i: int, j: int|
        0 <= i < j < s.len() && (#[trigger] s[i]).res_number == (#[trigger] s[j]).res_number
            && s[i].res_name.len() > 0 ==> s[j].res_name == s[i].res_name
}

/// Grouping succeeds exactly when every residue number is at least one
/// and the atoms of each residue agree pairwise on its name.
pub proof fn lemma_grouping_ok_iff_names_agree(s: Seq<AtomModel>)
    ensures
        grouping_ok(s) <==> ((forall|i: int|
            0 <= i < s.len() ==> (#[trigger] s[i]).res_number >= 1) && names_pairwise_agree(s)),
{
    if grouping_ok(s) {
        assert forall|i: int, j: int|
            0 <= i < j < s.len() && (#[trigger] s[i]).res_number == (#[trigger] s[j]).res_number
                && s[i].res_name.len() > 0 implies s[j].res_name == s[i].res_name by {
            lemma_grouping_names_agree(s, i, j);
        }
    }
    if (forall|i: int| 0 <= i < s.len() ==> (#[trigger] s[i]).res_number >= 1)
        && names_pairwise_agree(s) {
        assert forall|j: int| 0 <= j < s.len() implies name_fits(s, j) by {
            let k = s[j].res_number;
            let prev = slot_name(s.take(j), k);
            if prev.len() > 0 {
                lemma_slot_name_from(s, k, j);
                let i = choose|i: int|
                    0 <= i < j && (#[trigger] s[i]).res_number == k && s[i].res_name == prev;
                assert(s[j].res_name == s[i].res_name);
            }
        }
        assert forall|j: int| 0 <= j < s.len() implies {
            let prev = slot_name(s.take(j), (#[trigger] s[j]).res_number);
            prev.len() == 0 || prev == s[j].res_name
        } by {
            assert(name_fits(s, j));
        }
        assert(grouping_ok(s));
    }
}

} // verus!

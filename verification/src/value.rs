//! Field values: what an encode program reads and a decode program builds.

use vstd::prelude::*;

verus! {

/// The value of a member of a record or of a variant.
#[derive(PartialEq, Eq, Debug)]
pub enum Atom {
    Int(u64),
    Array(Vec<u64>),
    /// A nested structure, member by member.
    Record(Vec<Atom>),
}

/// An atom as a mathematical value.
pub ghost enum AtomView {
    Int(u64),
    Array(Seq<u64>),
    Record(Seq<AtomView>),
}

/// The mathematical value of an atom.
pub open spec fn atom_view(a: Atom) -> AtomView
    decreases a,
{
    match a {
        Atom::Int(v) => AtomView::Int(v),
        Atom::Array(xs) => AtomView::Array(xs@),
        Atom::Record(atoms) => AtomView::Record(
            Seq::new(
                atoms@.len(),
                |k: int|
                    if 0 <= k < atoms@.len() {
                        atom_view(atoms@[k])
                    } else {
                        AtomView::Int(0)
                    },
            ),
        ),
    }
}

impl View for Atom {
    type V = AtomView;

    open spec fn view(&self) -> AtomView {
        atom_view(*self)
    }
}

/// The view of a record is the record of its atoms' views.
pub proof fn record_atom_view(atoms: Vec<Atom>)
    ensures
        Atom::Record(atoms)@ == AtomView::Record(atom_views(atoms@)),
{
    assert(Atom::Record(atoms)@->Record_0 =~= atom_views(atoms@));
}

/// The atoms of a record as mathematical values.
pub open spec fn atom_views(atoms: Seq<Atom>) -> Seq<AtomView> {
    Seq::new(atoms.len(), |k: int| atoms[k]@)
}

/// A copy of an atom.
pub fn copy_atom(a: &Atom) -> (out: Atom)
    ensures
        out@ == a@,
    decreases a,
{
    match a {
        Atom::Int(v) => Atom::Int(*v),
        Atom::Array(xs) => {
            let n: usize = xs.len();
            let mut out: Vec<u64> = Vec::new();
            let mut k: usize = 0;
            while k < n
                invariant
                    n == xs@.len(),
                    k <= n,
                    out@ == xs@.take(k as int),
                decreases n - k,
            {
                out.push(xs[k]);
                assert(xs@.take(k + 1) =~= xs@.take(k as int).push(xs@[k as int]));
                k = k + 1;
            }
            assert(xs@.take(n as int) =~= xs@);
            Atom::Array(out)
        },
        Atom::Record(atoms) => {
            let copied = copy_atoms(atoms);
            proof {
                record_atom_view(*atoms);
                record_atom_view(copied);
            }
            Atom::Record(copied)
        },
    }
}

/// A copy of a list of atoms.
pub fn copy_atoms(atoms: &Vec<Atom>) -> (out: Vec<Atom>)
    ensures
        atom_views(out@) == atom_views(atoms@),
    decreases atoms@,
{
    let n: usize = atoms.len();
    let mut out: Vec<Atom> = Vec::new();
    let mut k: usize = 0;
    while k < n
        invariant
            n == atoms@.len(),
            k <= n,
            out@.len() == k,
            forall|j: int| 0 <= j < k ==> (#[trigger] out@[j])@ == atoms@[j]@,
        decreases n - k,
    {
        out.push(copy_atom(&atoms[k]));
        k = k + 1;
    }
    assert(atom_views(out@) =~= atom_views(atoms@));
    out
}

impl Clone for Atom {
    fn clone(&self) -> (out: Atom)
        ensures
            out@ == self@,
    {
        copy_atom(self)
    }
}

/// The value of one field of a structure.
#[derive(Clone, PartialEq, Eq, Debug)]
pub enum Value {
    /// A fixed-width integer.
    Int(u64),
    /// A blob.
    Bytes(Vec<u8>),
    /// A fixed-size array of integers.
    Array(Vec<u64>),
    /// A nested structure, member by member.
    Record(Vec<Atom>),
    /// An enum value: the position of its variant among the declared ones, and
    /// the variant's members.
    Variant { index: usize, members: Vec<Atom> },
    /// A field that is not on the wire: skipped, or computed elsewhere.
    Absent,
}

/// A field value as a mathematical value.
pub ghost enum ValueView {
    Int(u64),
    Bytes(Seq<u8>),
    Array(Seq<u64>),
    Record(Seq<AtomView>),
    Variant { index: usize, members: Seq<AtomView> },
    Absent,
}

impl View for Value {
    type V = ValueView;

    open spec fn view(&self) -> ValueView {
        match self {
            Value::Int(v) => ValueView::Int(*v),
            Value::Bytes(b) => ValueView::Bytes(b@),
            Value::Array(xs) => ValueView::Array(xs@),
            Value::Record(atoms) => ValueView::Record(atom_views(atoms@)),
            Value::Variant { index, members } => ValueView::Variant {
                index: *index,
                members: atom_views(members@),
            },
            Value::Absent => ValueView::Absent,
        }
    }
}

/// The values of a structure's fields as mathematical values.
pub open spec fn value_views(values: Seq<Value>) -> Seq<ValueView> {
    Seq::new(values.len(), |k: int| values[k]@)
}

} // verus!

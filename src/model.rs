use vstd::prelude::*;

use crate::numeral::Coordinate;

verus! {

/// Why a file could not be read into a [`Structure`].
#[derive(Clone, Copy, Debug, PartialEq, Eq, Structural)]
pub enum PdbError {
    /// The file could not be opened or read.
    Io,
    /// A line is too short for the columns that its record type requires.
    Format,
    /// A numeric column holds text that is not a number.
    FieldParse,
}

/// One atom: its name and its position.
#[derive(Clone, Debug)]
pub struct Atom {
    pub name: String,
    pub pos_x: Coordinate,
    pub pos_y: Coordinate,
    pub pos_z: Coordinate,
}

/// A residue: its three-letter name, its sequence number and its atoms in file order.
#[derive(Clone, Debug)]
pub struct Residue {
    pub name: String,
    pub sequence_number: u64,
    pub atoms: Vec<Atom>,
}

/// A chain: its identifier and its residues in file order.
#[derive(Clone, Debug)]
pub struct Chain {
    pub name: String,
    pub residues: Vec<Residue>,
}

/// A whole structure: its title and its chains in file order.
#[derive(Clone, Debug)]
pub struct Structure {
    pub name: String,
    pub chains: Vec<Chain>,
}

/// The mathematical value of an [`Atom`].
pub struct AtomModel {
    pub name: Seq<char>,
    pub x: Coordinate,
    pub y: Coordinate,
    pub z: Coordinate,
}

/// The mathematical value of a [`Residue`].
pub struct ResidueModel {
    pub name: Seq<char>,
    pub number: u64,
    pub atoms: Seq<AtomModel>,
}

/// The mathematical value of a [`Chain`].
pub struct ChainModel {
    pub name: Seq<char>,
    pub residues: Seq<ResidueModel>,
}

/// The mathematical value of a [`Structure`].
pub struct StructureModel {
    pub name: Seq<char>,
    pub chains: Seq<ChainModel>,
}

pub open spec fn atoms_model(v: Seq<Atom>) -> Seq<AtomModel> {
    v.map_values(|a: Atom| a@)
}

pub open spec fn residues_model(v: Seq<Residue>) -> Seq<ResidueModel> {
    v.map_values(|r: Residue| r@)
}

pub open spec fn chains_model(v: Seq<Chain>) -> Seq<ChainModel> {
    v.map_values(|c: Chain| c@)
}

/// The number of atoms in the residues `rs`.
pub open spec fn residues_atom_count(rs: Seq<ResidueModel>) -> nat
    decreases rs.len(),
{
    if rs.len() == 0 {
        0
    } else {
        residues_atom_count(rs.drop_last()) + rs.last().atoms.len()
    }
}

/// The number of atoms in the chains `cs`.
pub open spec fn chains_atom_count(cs: Seq<ChainModel>) -> nat
    decreases cs.len(),
{
    if cs.len() == 0 {
        0
    } else {
        chains_atom_count(cs.drop_last()) + residues_atom_count(cs.last().residues)
    }
}

/// The number of residues in the chains `cs`.
pub open spec fn chains_residue_count(cs: Seq<ChainModel>) -> nat
    decreases cs.len(),
{
    if cs.len() == 0 {
        0
    } else {
        chains_residue_count(cs.drop_last()) + cs.last().residues.len()
    }
}

proof fn lemma_chain_counts_step(cs: Seq<ChainModel>, i: int)
    requires
        0 <= i < cs.len(),
    ensures
        chains_residue_count(cs.take(i + 1)) == chains_residue_count(cs.take(i))
            + cs[i].residues.len(),
        chains_atom_count(cs.take(i + 1)) == chains_atom_count(cs.take(i)) + residues_atom_count(
            cs[i].residues,
        ),
{
    assert(cs.take(i + 1).drop_last() =~= cs.take(i));
}

proof fn lemma_chain_counts_prefix(cs: Seq<ChainModel>, i: int)
    requires
        0 <= i <= cs.len(),
    ensures
        chains_residue_count(cs.take(i)) <= chains_residue_count(cs),
        chains_atom_count(cs.take(i)) <= chains_atom_count(cs),
    decreases cs.len(),
{
    if i < cs.len() {
        assert(cs.drop_last().take(i) =~= cs.take(i));
        lemma_chain_counts_prefix(cs.drop_last(), i);
    } else {
        assert(cs.take(i) =~= cs);
    }
}

proof fn lemma_residue_counts_step(rs: Seq<ResidueModel>, i: int)
    requires
        0 <= i < rs.len(),
    ensures
        residues_atom_count(rs.take(i + 1)) == residues_atom_count(rs.take(i)) + rs[i].atoms.len(),
{
    assert(rs.take(i + 1).drop_last() =~= rs.take(i));
}

proof fn lemma_residue_counts_prefix(rs: Seq<ResidueModel>, i: int)
    requires
        0 <= i <= rs.len(),
    ensures
        residues_atom_count(rs.take(i)) <= residues_atom_count(rs),
    decreases rs.len(),
{
    if i < rs.len() {
        assert(rs.drop_last().take(i) =~= rs.take(i));
        lemma_residue_counts_prefix(rs.drop_last(), i);
    } else {
        assert(rs.take(i) =~= rs);
    }
}

impl View for Atom {
    type V = AtomModel;

    open spec fn view(&self) -> AtomModel {
        AtomModel { name: self.name@, x: self.pos_x, y: self.pos_y, z: self.pos_z }
    }
}

impl View for Residue {
    type V = ResidueModel;

    open spec fn view(&self) -> ResidueModel {
        ResidueModel {
            name: self.name@,
            number: self.sequence_number,
            atoms: atoms_model(self.atoms@),
        }
    }
}

impl View for Chain {
    type V = ChainModel;

    open spec fn view(&self) -> ChainModel {
        ChainModel { name: self.name@, residues: residues_model(self.residues@) }
    }
}

impl View for Structure {
    type V = StructureModel;

    open spec fn view(&self) -> StructureModel {
        StructureModel { name: self.name@, chains: chains_model(self.chains@) }
    }
}

impl Atom {
    pub fn new(name: String, pos_x: Coordinate, pos_y: Coordinate, pos_z: Coordinate) -> (r: Atom)
        ensures
            r.name == name,
            r.pos_x == pos_x,
            r.pos_y == pos_y,
            r.pos_z == pos_z,
    {
        Atom { name, pos_x, pos_y, pos_z }
    }
}

impl Residue {
    pub fn new(name: String, sequence_number: u64, atoms: Vec<Atom>) -> (r: Residue)
        ensures
            r.name == name,
            r.sequence_number == sequence_number,
            r.atoms == atoms,
    {
        Residue { name, sequence_number, atoms }
    }
}

impl Chain {
    pub fn new(name: String, residues: Vec<Residue>) -> (r: Chain)
        ensures
            r.name == name,
            r.residues == residues,
    {
        Chain { name, residues }
    }

    /// The number of residues in the chain.
    pub fn len(&self) -> (r: usize)
        ensures
            r == self.residues@.len(),
    {
        self.residues.len()
    }

    /// The names of the chain's residues, in order.
    pub fn get_sequence(&self) -> (r: Vec<String>)
        ensures
            r@.len() == self.residues@.len(),
            forall|i: int| 0 <= i < r@.len() ==> #[trigger] r@[i]@ == self.residues@[i].name@,
    {
        let mut names: Vec<String> = Vec::new();
        let mut i: usize = 0;
        while i < self.residues.len()
            invariant
                i <= self.residues@.len(),
                names@.len() == i,
                forall|k: int| 0 <= k < i ==> #[trigger] names@[k]@ == self.residues@[k].name@,
            decreases self.residues@.len() - i,
        {
            names.push(self.residues[i].name.clone());
            i = i + 1;
        }
        names
    }
}

impl Structure {
    /// The number of residues in all chains; `None` where it exceeds `usize::MAX`.
    pub fn residue_count(&self) -> (r: Option<usize>)
        ensures
            r is Some <==> chains_residue_count(self@.chains) <= usize::MAX,
            r is Some ==> r.unwrap() == chains_residue_count(self@.chains),
    {
        let ghost cs = self@.chains;
        let mut total: usize = 0;
        let mut i: usize = 0;
        assert(cs.take(0) =~= Seq::empty());
        while i < self.chains.len()
            invariant
                i <= self.chains@.len(),
                cs == self@.chains,
                total == chains_residue_count(cs.take(i as int)),
            decreases self.chains@.len() - i,
        {
            proof {
                lemma_chain_counts_step(cs, i as int);
                lemma_chain_counts_prefix(cs, i + 1);
            }
            assert(cs[i as int] == self.chains@[i as int]@);
            match total.checked_add(self.chains[i].residues.len()) {
                Some(t) => total = t,
                None => return None,
            }
            i = i + 1;
        }
        assert(cs.take(i as int) =~= cs);
        Some(total)
    }

    /// The number of atoms in all chains; `None` where it exceeds `usize::MAX`.
    pub fn atom_count(&self) -> (r: Option<usize>)
        ensures
            r is Some <==> chains_atom_count(self@.chains) <= usize::MAX,
            r is Some ==> r.unwrap() == chains_atom_count(self@.chains),
    {
        let ghost cs = self@.chains;
        let mut total: usize = 0;
        let mut i: usize = 0;
        assert(cs.take(0) =~= Seq::empty());
        while i < self.chains.len()
            invariant
                i <= self.chains@.len(),
                cs == self@.chains,
                total == chains_atom_count(cs.take(i as int)),
            decreases self.chains@.len() - i,
        {
            proof {
                lemma_chain_counts_step(cs, i as int);
                lemma_chain_counts_prefix(cs, i + 1);
            }
            let chain = &self.chains[i];
            assert(cs[i as int] == chain@);
            let ghost rs = cs[i as int].residues;
            let mut j: usize = 0;
            assert(rs.take(0) =~= Seq::empty());
            while j < chain.residues.len()
                invariant
                    i < self.chains@.len(),
                    cs == self@.chains,
                    chain == self.chains@[i as int],
                    rs == cs[i as int].residues,
                    chains_atom_count(cs.take(i + 1)) == chains_atom_count(cs.take(i as int))
                        + residues_atom_count(rs),
                    chains_atom_count(cs.take(i + 1)) <= chains_atom_count(cs),
                    j <= chain.residues@.len(),
                    total == chains_atom_count(cs.take(i as int)) + residues_atom_count(
                        rs.take(j as int),
                    ),
                decreases chain.residues@.len() - j,
            {
                proof {
                    lemma_residue_counts_step(rs, j as int);
                    lemma_residue_counts_prefix(rs, j + 1);
                }
                assert(rs[j as int] == chain.residues@[j as int]@);
                match total.checked_add(chain.residues[j].atoms.len()) {
                    Some(t) => total = t,
                    None => return None,
                }
                j = j + 1;
            }
            assert(rs.take(j as int) =~= rs);
            i = i + 1;
        }
        assert(cs.take(i as int) =~= cs);
        Some(total)
    }
}

} // verus!

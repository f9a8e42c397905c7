use vstd::prelude::*;

use crate::line::{parse_line, record_of, AtomLine, AtomLineModel, Record, RecordModel};
use crate::model::{
    atoms_model, chains_model, residues_model, Atom, Chain, ChainModel, PdbError, Residue,
    ResidueModel, Structure, StructureModel,
};

verus! {

/// A structure with no title and no chains.
pub open spec fn empty_structure() -> StructureModel {
    StructureModel { name: Seq::empty(), chains: Seq::empty() }
}

/// A residue that holds the atom of `a` alone.
pub open spec fn residue_of(a: AtomLineModel) -> ResidueModel {
    ResidueModel { name: a.residue_name, number: a.residue_number, atoms: seq![a.atom] }
}

/// Places the atom of an ATOM line in `s`. A chain identifier other than the last
/// chain's starts a new chain; within the last chain, a residue number other than the
/// last residue's starts a new residue; the atom goes to the last residue.
pub open spec fn add_atom(s: StructureModel, a: AtomLineModel) -> StructureModel {
    if s.chains.len() == 0 || s.chains.last().name != a.chain {
        StructureModel {
            name: s.name,
            chains: s.chains.push(ChainModel { name: a.chain, residues: seq![residue_of(a)] }),
        }
    } else {
        let c = s.chains.last();
        let residues = if c.residues.len() == 0 || c.residues.last().number != a.residue_number {
            c.residues.push(residue_of(a))
        } else {
            let r = c.residues.last();
            c.residues.update(
                c.residues.len() - 1,
                ResidueModel { name: r.name, number: r.number, atoms: r.atoms.push(a.atom) },
            )
        };
        StructureModel {
            name: s.name,
            chains: s.chains.update(
                s.chains.len() - 1,
                ChainModel { name: c.name, residues },
            ),
        }
    }
}

/// `s` after one more line that says `r`: an atom is placed, a title replaces the name.
pub open spec fn apply_record(s: StructureModel, r: RecordModel) -> StructureModel {
    match r {
        RecordModel::Atom(a) => add_atom(s, a),
        RecordModel::Title(t) => StructureModel { name: t, chains: s.chains },
        RecordModel::Other => s,
    }
}

/// The structure that the lines describe, or the error of the first line that cannot be read.
pub open spec fn structure_of(lines: Seq<Seq<char>>) -> Result<StructureModel, PdbError>
    decreases lines.len(),
{
    if lines.len() == 0 {
        Ok(empty_structure())
    } else {
        match structure_of(lines.drop_last()) {
            Err(e) => Err(e),
            Ok(s) => match record_of(lines.last()) {
                Err(e) => Err(e),
                Ok(r) => Ok(apply_record(s, r)),
            },
        }
    }
}

/// The text of each line.
pub open spec fn lines_model(lines: Seq<String>) -> Seq<Seq<char>> {
    lines.map_values(|l: String| l@)
}

/// An error in the first lines is the error of all of them.
pub proof fn lemma_error_persists(lines: Seq<Seq<char>>, k: int)
    requires
        0 <= k <= lines.len(),
        structure_of(lines.take(k)) is Err,
    ensures
        structure_of(lines) == structure_of(lines.take(k)),
    decreases lines.len(),
{
    if lines.len() > k {
        assert(lines.drop_last().take(k) =~= lines.take(k));
        lemma_error_persists(lines.drop_last(), k);
    } else {
        assert(lines.take(k) =~= lines);
    }
}

/// Builds a [`Structure`] from the lines of a file, one line at a time.
///
/// It keeps the chains that are done, the residues that are done in the chain being
/// read, and the atoms of the residue being read, with that chain's identifier and
/// that residue's name and number.
pub struct StructureBuilder {
    name: String,
    chains: Vec<Chain>,
    residues: Vec<Residue>,
    atoms: Vec<Atom>,
    chain_name: String,
    residue_name: String,
    residue_number: u64,
    open: bool,
}

impl View for StructureBuilder {
    type V = StructureModel;

    /// The structure read so far.
    closed spec fn view(&self) -> StructureModel {
        if self.open {
            StructureModel {
                name: self.name@,
                chains: chains_model(self.chains@).push(
                    ChainModel {
                        name: self.chain_name@,
                        residues: residues_model(self.residues@).push(
                            ResidueModel {
                                name: self.residue_name@,
                                number: self.residue_number,
                                atoms: atoms_model(self.atoms@),
                            },
                        ),
                    },
                ),
            }
        } else {
            StructureModel { name: self.name@, chains: chains_model(self.chains@) }
        }
    }
}

impl StructureBuilder {
    /// Whether a chain and a residue are being read, each with an atom at least.
    pub closed spec fn wf(&self) -> bool {
        if self.open {
            self.atoms@.len() > 0
        } else {
            self.chains@.len() == 0 && self.residues@.len() == 0 && self.atoms@.len() == 0
        }
    }

    /// A builder that has read nothing.
    pub fn new() -> (r: StructureBuilder)
        ensures
            r.wf(),
            r@ == empty_structure(),
    {
        let r = StructureBuilder {
            name: String::new(),
            chains: Vec::new(),
            residues: Vec::new(),
            atoms: Vec::new(),
            chain_name: String::new(),
            residue_name: String::new(),
            residue_number: 0,
            open: false,
        };
        assert(chains_model(r.chains@) =~= Seq::empty());
        r
    }

    /// Moves the residue being read to the residues that are done.
    fn close_residue(&mut self)
        ensures
            residues_model(final(self).residues@) == residues_model(old(self).residues@).push(
                (ResidueModel {
                    name: old(self).residue_name@,
                    number: old(self).residue_number,
                    atoms: atoms_model(old(self).atoms@),
                }),
            ),
            final(self).atoms@.len() == 0,
            final(self).name == old(self).name,
            final(self).chains == old(self).chains,
            final(self).chain_name == old(self).chain_name,
            final(self).residue_name == old(self).residue_name,
            final(self).residue_number == old(self).residue_number,
            final(self).open == old(self).open,
    {
        let mut atoms: Vec<Atom> = Vec::new();
        std::mem::swap(&mut atoms, &mut self.atoms);
        let residue = Residue::new(self.residue_name.clone(), self.residue_number, atoms);
        self.residues.push(residue);
        assert(residues_model(self.residues@) =~= residues_model(old(self).residues@).push(
            residue@,
        ));
    }

    /// Moves the chain being read, whose residues are all done, to the chains that are done.
    fn close_chain(&mut self)
        ensures
            chains_model(final(self).chains@) == chains_model(old(self).chains@).push(
                (ChainModel {
                    name: old(self).chain_name@,
                    residues: residues_model(old(self).residues@),
                }),
            ),
            final(self).residues@.len() == 0,
            final(self).name == old(self).name,
            final(self).atoms == old(self).atoms,
            final(self).chain_name == old(self).chain_name,
            final(self).residue_name == old(self).residue_name,
            final(self).residue_number == old(self).residue_number,
            final(self).open == old(self).open,
    {
        let mut residues: Vec<Residue> = Vec::new();
        std::mem::swap(&mut residues, &mut self.residues);
        let chain = Chain::new(self.chain_name.clone(), residues);
        self.chains.push(chain);
        assert(chains_model(self.chains@) =~= chains_model(old(self).chains@).push(chain@));
    }

    /// Places the atom of an ATOM line.
    fn place_atom(&mut self, a: AtomLine)
        requires
            old(self).wf(),
        ensures
            final(self).wf(),
            final(self)@ == add_atom(old(self)@, a@),
    {
        let ghost s = old(self)@;
        if !self.open || self.chain_name != a.chain {
            if self.open {
                self.close_residue();
                self.close_chain();
            }
            self.chain_name = a.chain;
            self.residue_name = a.residue_name;
            self.residue_number = a.residue_number;
            self.atoms.push(a.atom);
            self.open = true;
            assert(atoms_model(self.atoms@) =~= seq![a.atom@]);
            assert(residues_model(self.residues@) =~= Seq::empty());
            assert(self@.chains =~= s.chains.push(
                ChainModel { name: a.chain@, residues: seq![residue_of(a@)] },
            ));
        } else if self.residue_number != a.residue_number {
            self.close_residue();
            self.residue_name = a.residue_name;
            self.residue_number = a.residue_number;
            self.atoms.push(a.atom);
            assert(atoms_model(self.atoms@) =~= seq![a.atom@]);
            let ghost c = s.chains.last();
            assert(c.name == a.chain@);
            assert(c.residues.last().number != a.residue_number);
            assert(self@.chains.last().residues =~= c.residues.push(residue_of(a@)));
            assert(self@.chains =~= s.chains.update(
                s.chains.len() - 1,
                ChainModel { name: c.name, residues: c.residues.push(residue_of(a@)) },
            ));
        } else {
            self.atoms.push(a.atom);
            assert(atoms_model(self.atoms@) =~= atoms_model(old(self).atoms@).push(a.atom@));
            let ghost c = s.chains.last();
            let ghost r = c.residues.last();
            assert(c.name == a.chain@);
            assert(r.number == a.residue_number);
            let ghost r2 = ResidueModel { name: r.name, number: r.number, atoms: r.atoms.push(a.atom@) };
            assert(self@.chains.last().residues =~= c.residues.update(c.residues.len() - 1, r2));
            assert(self@.chains =~= s.chains.update(
                s.chains.len() - 1,
                ChainModel { name: c.name, residues: c.residues.update(c.residues.len() - 1, r2) },
            ));
        }
    }

    /// Reads one more line of the file.
    pub fn feed_line(&mut self, line: &str) -> (r: Result<(), PdbError>)
        requires
            old(self).wf(),
        ensures
            final(self).wf(),
            match record_of(line@) {
                Ok(m) => r is Ok && final(self)@ == apply_record(old(self)@, m),
                Err(e) => r == Err::<(), PdbError>(e) && final(self)@ == old(self)@,
            },
    {
        match parse_line(line) {
            Err(e) => Err(e),
            Ok(Record::Title(t)) => {
                self.name = t;
                Ok(())
            },
            Ok(Record::Other) => Ok(()),
            Ok(Record::Atom(a)) => {
                self.place_atom(a);
                Ok(())
            },
        }
    }

    /// The structure read so far.
    pub fn finish(self) -> (r: Structure)
        requires
            self.wf(),
        ensures
            r@ == self@,
    {
        let mut b = self;
        if b.open {
            b.close_residue();
            b.close_chain();
        }
        Structure { name: b.name, chains: b.chains }
    }
}

impl Structure {
    /// Reads a structure from the lines of a file: the first line that cannot be read
    /// decides the error.
    pub fn from_lines(lines: &Vec<String>) -> (r: Result<Structure, PdbError>)
        ensures
            match structure_of(lines_model(lines@)) {
                Ok(m) => r is Ok && r.unwrap()@ == m,
                Err(e) => r == Err::<Structure, PdbError>(e),
            },
    {
        let ghost all = lines_model(lines@);
        let mut b = StructureBuilder::new();
        let mut i: usize = 0;
        assert(all.take(0) =~= Seq::empty());
        while i < lines.len()
            invariant
                i <= lines@.len(),
                all == lines_model(lines@),
                b.wf(),
                structure_of(all.take(i as int)) == Ok::<StructureModel, PdbError>(b@),
            decreases lines@.len() - i,
        {
            assert(all.take(i + 1).drop_last() =~= all.take(i as int));
            assert(all.take(i + 1).last() == lines@[i as int]@);
            match b.feed_line(lines[i].as_str()) {
                Err(e) => {
                    proof {
                        lemma_error_persists(all, i + 1);
                    }
                    return Err(e);
                },
                Ok(()) => {},
            }
            i = i + 1;
        }
        assert(all.take(i as int) =~= all);
        Ok(b.finish())
    }
}

} // verus!

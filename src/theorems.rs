use vstd::prelude::*;

use crate::builder::{add_atom, residue_of, structure_of};
use crate::line::{
    is_atom_line, is_title_line, record_of, AtomLineModel, RecordModel, ATOM_LINE_LEN,
    TITLE_LINE_LEN,
};
use crate::model::{
    chains_atom_count, residues_atom_count, AtomModel, ChainModel, PdbError, ResidueModel,
    StructureModel,
};

verus! {

/// The number of atoms in a structure.
pub open spec fn atom_count(s: StructureModel) -> nat {
    chains_atom_count(s.chains)
}

/// The number of ATOM lines among `lines`.
pub open spec fn atom_line_count(lines: Seq<Seq<char>>) -> nat
    decreases lines.len(),
{
    if lines.len() == 0 {
        0
    } else {
        atom_line_count(lines.drop_last()) + if is_atom_line(lines.last()) {
            1nat
        } else {
            0nat
        }
    }
}

/// Where an atom stands in a structure: the chain's identifier and the residue's number.
pub struct Placement {
    pub chain: Seq<char>,
    pub number: u64,
    pub atom: AtomModel,
}

/// The atoms `atoms` of residue `number` in chain `chain`, each with its place.
pub open spec fn placed(chain: Seq<char>, number: u64, atoms: Seq<AtomModel>) -> Seq<Placement> {
    atoms.map_values(|a: AtomModel| Placement { chain, number, atom: a })
}

/// The atoms of the residues `rs` of chain `chain`, in order, each with its place.
pub open spec fn residues_placements(chain: Seq<char>, rs: Seq<ResidueModel>) -> Seq<Placement>
    decreases rs.len(),
{
    if rs.len() == 0 {
        Seq::empty()
    } else {
        residues_placements(chain, rs.drop_last()) + placed(chain, rs.last().number, rs.last().atoms)
    }
}

/// The atoms of the chains `cs`, in order, each with its place.
pub open spec fn placements(cs: Seq<ChainModel>) -> Seq<Placement>
    decreases cs.len(),
{
    if cs.len() == 0 {
        Seq::empty()
    } else {
        placements(cs.drop_last()) + residues_placements(cs.last().name, cs.last().residues)
    }
}

/// The place that an ATOM line gives its atom.
pub open spec fn placement_of(a: AtomLineModel) -> Placement {
    Placement { chain: a.chain, number: a.residue_number, atom: a.atom }
}

/// The atoms of the ATOM lines among `lines`, in order, each with the place its line gives.
pub open spec fn line_placements(lines: Seq<Seq<char>>) -> Seq<Placement>
    decreases lines.len(),
{
    if lines.len() == 0 {
        Seq::empty()
    } else {
        line_placements(lines.drop_last()) + match record_of(lines.last()) {
            Ok(RecordModel::Atom(a)) => seq![placement_of(a)],
            _ => Seq::empty(),
        }
    }
}

/// `ids` with each run of equal neighbours kept once.
pub open spec fn runs(ids: Seq<Seq<char>>) -> Seq<Seq<char>>
    decreases ids.len(),
{
    if ids.len() == 0 {
        Seq::empty()
    } else {
        let r = runs(ids.drop_last());
        if r.len() > 0 && r.last() == ids.last() {
            r
        } else {
            r.push(ids.last())
        }
    }
}

/// The chain identifiers of the ATOM lines among `lines`, in order.
pub open spec fn atom_chain_ids(lines: Seq<Seq<char>>) -> Seq<Seq<char>> {
    line_placements(lines).map_values(|p: Placement| p.chain)
}

/// The chains' identifiers, in order.
pub open spec fn chain_names(s: StructureModel) -> Seq<Seq<char>> {
    s.chains.map_values(|c: ChainModel| c.name)
}

/// A line that is too short for the columns of its record type.
pub open spec fn is_short_line(l: Seq<char>) -> bool {
    ||| is_atom_line(l) && l.len() < ATOM_LINE_LEN
    ||| is_title_line(l) && l.len() < TITLE_LINE_LEN
}

proof fn lemma_add_atom_count(s: StructureModel, a: AtomLineModel)
    ensures
        atom_count(add_atom(s, a)) == atom_count(s) + 1,
{
    let cs = s.chains;
    let r = residue_of(a);
    assert(seq![r].drop_last() =~= Seq::<ResidueModel>::empty());
    assert(residues_atom_count(seq![r]) == 1) by {
        assert(residues_atom_count(Seq::<ResidueModel>::empty()) == 0);
        assert(seq![r].last() == r);
    }
    if cs.len() == 0 || cs.last().name != a.chain {
        let c = ChainModel { name: a.chain, residues: seq![r] };
        assert(cs.push(c).drop_last() =~= cs);
        assert(cs.push(c).last() == c);
    } else {
        let c = cs.last();
        let t = add_atom(s, a).chains;
        assert(t.drop_last() =~= cs.drop_last());
        let rs = c.residues;
        if rs.len() == 0 || rs.last().number != a.residue_number {
            assert(rs.push(r).drop_last() =~= rs);
            assert(rs.push(r).last() == r);
            assert(residues_atom_count(t.last().residues) == residues_atom_count(rs) + 1);
        } else {
            assert(t.last().residues.drop_last() =~= rs.drop_last());
            assert(residues_atom_count(t.last().residues) == residues_atom_count(rs) + 1);
        }
    }
}

/// Each ATOM line of a file that reads without error gives one atom of the structure.
pub proof fn atom_count_matches_atom_lines(lines: Seq<Seq<char>>, s: StructureModel)
    requires
        structure_of(lines) == Ok::<StructureModel, PdbError>(s),
    ensures
        atom_count(s) == atom_line_count(lines),
    decreases lines.len(),
{
    if lines.len() == 0 {
    } else {
        let p = lines.drop_last();
        let s0 = structure_of(p)->Ok_0;
        atom_count_matches_atom_lines(p, s0);
        match record_of(lines.last()) {
            Ok(RecordModel::Atom(a)) => {
                lemma_add_atom_count(s0, a);
            },
            _ => {},
        }
    }
}

proof fn lemma_placed_push(chain: Seq<char>, number: u64, atoms: Seq<AtomModel>, x: AtomModel)
    ensures
        placed(chain, number, atoms.push(x)) == placed(chain, number, atoms).push(
            (Placement { chain, number, atom: x }),
        ),
{
    assert(placed(chain, number, atoms.push(x)) =~= placed(chain, number, atoms).push(
        Placement { chain, number, atom: x },
    ));
}

proof fn lemma_add_atom_placements(s: StructureModel, a: AtomLineModel)
    ensures
        placements(add_atom(s, a).chains) == placements(s.chains).push(placement_of(a)),
{
    let cs = s.chains;
    let r = residue_of(a);
    let p = placement_of(a);
    lemma_placed_push(a.chain, a.residue_number, Seq::empty(), a.atom);
    assert(seq![a.atom] =~= Seq::<AtomModel>::empty().push(a.atom));
    assert(placed(a.chain, a.residue_number, Seq::empty()) =~= Seq::empty());
    assert(seq![r].drop_last() =~= Seq::<ResidueModel>::empty());
    if cs.len() == 0 || cs.last().name != a.chain {
        let c = ChainModel { name: a.chain, residues: seq![r] };
        assert(cs.push(c).drop_last() =~= cs);
        assert(seq![r].last() == r);
        assert(residues_placements(a.chain, Seq::<ResidueModel>::empty()) == Seq::<Placement>::empty());
        assert(residues_placements(a.chain, seq![r]) =~= Seq::<Placement>::empty() + placed(
            a.chain,
            a.residue_number,
            seq![a.atom],
        ));
        assert(residues_placements(a.chain, seq![r]) =~= seq![p]);
        assert(placements(cs.push(c)) =~= placements(cs).push(p));
    } else {
        let c = cs.last();
        let t = add_atom(s, a).chains;
        assert(t.drop_last() =~= cs.drop_last());
        let rs = c.residues;
        if rs.len() == 0 || rs.last().number != a.residue_number {
            assert(rs.push(r).drop_last() =~= rs);
            assert(residues_placements(c.name, rs.push(r)) =~= residues_placements(c.name, rs).push(
                p,
            ));
        } else {
            let last = rs.last();
            assert(t.last().residues.drop_last() =~= rs.drop_last());
            lemma_placed_push(c.name, last.number, last.atoms, a.atom);
            assert(residues_placements(c.name, t.last().residues) =~= residues_placements(
                c.name,
                rs,
            ).push(p));
        }
        assert(placements(t) =~= placements(cs).push(p));
    }
}

/// The atoms of a structure, chain by chain and residue by residue, are the atoms of the
/// file's ATOM lines in file order; each stands in a residue whose sequence number is its
/// line's residue number, in a chain named by its line's chain identifier.
pub proof fn atoms_keep_file_order(lines: Seq<Seq<char>>, s: StructureModel)
    requires
        structure_of(lines) == Ok::<StructureModel, PdbError>(s),
    ensures
        placements(s.chains) == line_placements(lines),
    decreases lines.len(),
{
    if lines.len() == 0 {
    } else {
        let p = lines.drop_last();
        let s0 = structure_of(p)->Ok_0;
        atoms_keep_file_order(p, s0);
        match record_of(lines.last()) {
            Ok(RecordModel::Atom(a)) => {
                lemma_add_atom_placements(s0, a);
            },
            _ => {
                assert(line_placements(lines) =~= line_placements(p));
            },
        }
    }
}

proof fn lemma_runs_last(ids: Seq<Seq<char>>)
    requires
        ids.len() > 0,
    ensures
        runs(ids).len() > 0,
        runs(ids).last() == ids.last(),
{
}

/// A new chain starts exactly where the chain identifier of an ATOM line differs from
/// that of the ATOM line before it: the chains' identifiers are those of the ATOM lines
/// with each run of equal neighbours kept once, so an identifier that comes back after
/// another one starts a chain of its own.
pub proof fn chains_follow_identifier_runs(lines: Seq<Seq<char>>, s: StructureModel)
    requires
        structure_of(lines) == Ok::<StructureModel, PdbError>(s),
    ensures
        chain_names(s) == runs(atom_chain_ids(lines)),
    decreases lines.len(),
{
    if lines.len() == 0 {
        assert(chain_names(s) =~= Seq::empty());
        assert(atom_chain_ids(lines) =~= Seq::empty());
    } else {
        let p = lines.drop_last();
        let s0 = structure_of(p)->Ok_0;
        chains_follow_identifier_runs(p, s0);
        match record_of(lines.last()) {
            Ok(RecordModel::Atom(a)) => {
                let ids = atom_chain_ids(lines);
                assert(ids =~= atom_chain_ids(p).push(a.chain));
                assert(ids.drop_last() =~= atom_chain_ids(p));
                if atom_chain_ids(p).len() > 0 {
                    lemma_runs_last(atom_chain_ids(p));
                }
                let cs = s0.chains;
                if cs.len() == 0 || cs.last().name != a.chain {
                    assert(chain_names(s) =~= chain_names(s0).push(a.chain));
                } else {
                    assert(chain_names(s) =~= chain_names(s0));
                }
            },
            Ok(RecordModel::Title(t)) => {
                assert(line_placements(lines) =~= line_placements(p));
                assert(chain_names(s) =~= chain_names(s0));
            },
            _ => {
                assert(line_placements(lines) =~= line_placements(p));
            },
        }
    }
}

/// A file without ATOM lines gives a structure without chains, with or without a title.
pub proof fn no_atom_lines_no_chains(lines: Seq<Seq<char>>, s: StructureModel)
    requires
        structure_of(lines) == Ok::<StructureModel, PdbError>(s),
        forall|i: int| 0 <= i < lines.len() ==> !is_atom_line(#[trigger] lines[i]),
    ensures
        s.chains.len() == 0,
    decreases lines.len(),
{
    if lines.len() > 0 {
        let p = lines.drop_last();
        assert forall|i: int| 0 <= i < p.len() implies !is_atom_line(#[trigger] p[i]) by {
            assert(p[i] == lines[i]);
        }
        no_atom_lines_no_chains(p, structure_of(p)->Ok_0);
        assert(!is_atom_line(lines[lines.len() - 1]));
    }
}

/// A line too short for its record type makes the whole file fail, with a format error
/// where no line before it failed.
pub proof fn short_line_fails(lines: Seq<Seq<char>>, i: int)
    requires
        0 <= i < lines.len(),
        is_short_line(lines[i]),
    ensures
        structure_of(lines) is Err,
        structure_of(lines.take(i)) is Ok ==> structure_of(lines) == Err::<StructureModel, PdbError>(
            PdbError::Format,
        ),
{
    let q = lines.take(i + 1);
    assert(q.drop_last() =~= lines.take(i));
    assert(q.last() == lines[i]);
    crate::builder::lemma_error_persists(lines, i + 1);
}

/// Every chain holds a residue and every residue an atom; neighbouring chains have
/// different identifiers, and neighbouring residues of a chain different numbers.
pub open spec fn well_formed(s: StructureModel) -> bool {
    &&& forall|i: int| 0 <= i < s.chains.len() ==> (#[trigger] s.chains[i]).residues.len() > 0
    &&& forall|i: int, j: int|
        0 <= i < s.chains.len() && 0 <= j < s.chains[i].residues.len() ==> (
        #[trigger] s.chains[i].residues[j]).atoms.len() > 0
    &&& forall|i: int| 0 < i < s.chains.len() ==> (#[trigger] s.chains[i]).name != s.chains[i - 1].name
    &&& forall|i: int, j: int|
        0 <= i < s.chains.len() && 0 < j < s.chains[i].residues.len() ==> (
        #[trigger] s.chains[i].residues[j]).number != s.chains[i].residues[j - 1].number
}

proof fn lemma_add_atom_well_formed(s: StructureModel, a: AtomLineModel)
    requires
        well_formed(s),
    ensures
        well_formed(add_atom(s, a)),
{
    let cs = s.chains;
    let t = add_atom(s, a);
    let n = cs.len();
    if n == 0 || cs.last().name != a.chain {
        assert forall|i: int| 0 < i < t.chains.len() implies (#[trigger] t.chains[i]).name
            != t.chains[i - 1].name by {
            if i < n {
                assert(t.chains[i] == cs[i]);
            }
        }
        assert forall|i: int, j: int|
            0 <= i < t.chains.len() && 0 <= j < t.chains[i].residues.len() implies (
            #[trigger] t.chains[i].residues[j]).atoms.len() > 0 by {
            if i < n {
                assert(t.chains[i] == cs[i]);
            }
        }
        assert forall|i: int, j: int|
            0 <= i < t.chains.len() && 0 < j < t.chains[i].residues.len() implies (
            #[trigger] t.chains[i].residues[j]).number != t.chains[i].residues[j - 1].number by {
            if i < n {
                assert(t.chains[i] == cs[i]);
            }
        }
    } else {
        let c = cs.last();
        let rs = c.residues;
        let m = rs.len();
        assert(cs[n - 1] == c);
        assert(m > 0);
        assert forall|i: int| 0 < i < t.chains.len() implies (#[trigger] t.chains[i]).name
            != t.chains[i - 1].name by {
            assert(t.chains[i].name == cs[i].name);
            assert(t.chains[i - 1].name == cs[i - 1].name);
        }
        assert forall|i: int, j: int|
            0 <= i < t.chains.len() && 0 <= j < t.chains[i].residues.len() implies (
            #[trigger] t.chains[i].residues[j]).atoms.len() > 0 by {
            if i < n - 1 {
                assert(t.chains[i] == cs[i]);
            } else if j < m {
                assert(cs[i].residues[j] == rs[j]);
            }
        }
        assert forall|i: int, j: int|
            0 <= i < t.chains.len() && 0 < j < t.chains[i].residues.len() implies (
            #[trigger] t.chains[i].residues[j]).number != t.chains[i].residues[j - 1].number by {
            if i < n - 1 {
                assert(t.chains[i] == cs[i]);
            } else {
                if j < m {
                    assert(cs[i].residues[j] == rs[j]);
                }
                assert(cs[i].residues[j - 1] == rs[j - 1]);
            }
        }
    }
}

/// Every structure read from a file is well formed: no chain without residues, no
/// residue without atoms, and no two neighbouring chains, or neighbouring residues of a
/// chain, that the reading would have joined.
pub proof fn structure_is_well_formed(lines: Seq<Seq<char>>, s: StructureModel)
    requires
        structure_of(lines) == Ok::<StructureModel, PdbError>(s),
    ensures
        well_formed(s),
    decreases lines.len(),
{
    if lines.len() > 0 {
        let p = lines.drop_last();
        let s0 = structure_of(p)->Ok_0;
        structure_is_well_formed(p, s0);
        match record_of(lines.last()) {
            Ok(RecordModel::Atom(a)) => {
                lemma_add_atom_well_formed(s0, a);
            },
            _ => {},
        }
    }
}

} // verus!

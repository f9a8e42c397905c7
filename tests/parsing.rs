use pdb_parser::builder::StructureBuilder;
use pdb_parser::line::{parse_line, trimmed, Record};
use pdb_parser::model::{Atom, Chain, PdbError, Residue, Structure};
use pdb_parser::numeral::{parse_coordinate, parse_unsigned, Coordinate};

fn atom_line(name: &str, res: &str, chain: &str, num: &str, x: &str, y: &str, z: &str) -> String {
    format!(
        "ATOM  {:>5} {:<4} {:<3} {} {:0>3}    {:>8}{:>8}{:>8}  1.00  0.00           N",
        1, name, res, chain, num, x, y, z
    )
}

fn title_line(text: &str) -> String {
    format!("TITLE     {:<70}", text)
}

fn parse(lines: &[String]) -> Result<Structure, PdbError> {
    Structure::from_lines(&lines.to_vec())
}

fn coord(negative: bool, mantissa: u64, exponent: i64) -> Coordinate {
    Coordinate { negative, mantissa, exponent }
}

fn atom_total(s: &Structure) -> usize {
    s.atom_count().unwrap()
}

#[test]
fn two_atom_lines_two_residues() {
    let lines = vec![
        atom_line("N", "ALA", "A", "1", "1.000", "2.000", "3.000"),
        atom_line("CA", "GLY", "A", "2", "4.0", "5.0", "6.0"),
    ];
    let s = parse(&lines).unwrap();
    assert_eq!(s.chains.len(), 1);
    assert_eq!(s.chains[0].name, "A");
    let residues = &s.chains[0].residues;
    assert_eq!(residues.len(), 2);
    assert_eq!(residues[0].sequence_number, 1);
    assert_eq!(residues[0].name, "ALA");
    assert_eq!(residues[1].sequence_number, 2);
    assert_eq!(residues[1].name, "GLY");
    assert_eq!(residues[0].atoms.len(), 1);
    assert_eq!(residues[1].atoms.len(), 1);
    assert_eq!(residues[0].atoms[0].name, "N");
    assert_eq!(residues[0].atoms[0].pos_x, coord(false, 1000, -3));
    assert_eq!(residues[0].atoms[0].pos_z, coord(false, 3000, -3));
    assert_eq!(residues[1].atoms[0].name, "CA");
    assert_eq!(residues[1].atoms[0].pos_y, coord(false, 50, -1));
}

#[test]
fn title_sets_name() {
    let lines = vec![title_line("HEMOGLOBIN")];
    let s = parse(&lines).unwrap();
    assert_eq!(s.name, "HEMOGLOBIN");
    assert_eq!(s.chains.len(), 0);
}

#[test]
fn later_title_replaces_name() {
    let lines = vec![title_line("FIRST"), title_line("SECOND")];
    assert_eq!(parse(&lines).unwrap().name, "SECOND");
}

#[test]
fn missing_title_leaves_name_empty() {
    let lines = vec![atom_line("N", "ALA", "A", "1", "1.0", "2.0", "3.0")];
    assert_eq!(parse(&lines).unwrap().name, "");
}

#[test]
fn short_atom_line_is_format_error() {
    let full = atom_line("N", "ALA", "A", "1", "1.000", "2.000", "3.000");
    let short: String = full.chars().take(53).collect();
    assert!(matches!(parse(&[short]), Err(PdbError::Format)));
    let exact: String = full.chars().take(54).collect();
    assert!(parse(&[exact]).is_ok());
}

#[test]
fn short_title_line_is_format_error() {
    let short = String::from("TITLE     HEMOGLOBIN");
    assert!(matches!(parse(&[short]), Err(PdbError::Format)));
}

#[test]
fn short_line_after_good_lines_fails_whole_file() {
    let lines = vec![
        title_line("T"),
        atom_line("N", "ALA", "A", "1", "1.0", "2.0", "3.0"),
        String::from("ATOM      2  CA  ALA A   1"),
    ];
    assert!(matches!(parse(&lines), Err(PdbError::Format)));
}

#[test]
fn first_error_decides() {
    let bad_number = atom_line("N", "ALA", "A", "x", "1.0", "2.0", "3.0");
    let short = String::from("ATOM");
    assert!(matches!(parse(&[bad_number.clone(), short.clone()]), Err(PdbError::FieldParse)));
    assert!(matches!(parse(&[short, bad_number]), Err(PdbError::Format)));
}

#[test]
fn non_numeric_coordinate_is_field_parse_error() {
    for (x, y, z) in [("abc", "2.0", "3.0"), ("1.0", "1.2.3", "3.0"), ("1.0", "2.0", "-")] {
        let lines = vec![atom_line("N", "ALA", "A", "1", x, y, z)];
        assert!(matches!(parse(&lines), Err(PdbError::FieldParse)));
    }
}

#[test]
fn non_numeric_residue_number_is_field_parse_error() {
    let lines = vec![atom_line("N", "ALA", "A", "-1", "1.0", "2.0", "3.0")];
    assert!(matches!(parse(&lines), Err(PdbError::FieldParse)));
}

#[test]
fn zero_atom_lines_zero_chains() {
    let none: Vec<String> = vec![];
    assert_eq!(parse(&none).unwrap().chains.len(), 0);
    let with_title = vec![title_line("EMPTY"), String::from("END")];
    let s = parse(&with_title).unwrap();
    assert_eq!(s.chains.len(), 0);
    assert_eq!(s.name, "EMPTY");
}

#[test]
fn other_records_are_ignored() {
    let lines = vec![
        String::from("HEADER    OXYGEN TRANSPORT"),
        atom_line("N", "ALA", "A", "1", "1.0", "2.0", "3.0"),
        String::from(""),
        String::from("TER"),
        String::from("HETATM    3  O   HOH A 100      1.000   1.000   1.000"),
        String::from("END"),
    ];
    let s = parse(&lines).unwrap();
    assert_eq!(s.chains.len(), 1);
    assert_eq!(atom_total(&s), 1);
}

#[test]
fn atom_count_equals_atom_lines() {
    let lines = vec![
        title_line("COUNT"),
        atom_line("N", "ALA", "A", "1", "1.0", "2.0", "3.0"),
        atom_line("CA", "ALA", "A", "1", "1.5", "2.5", "3.5"),
        String::from("REMARK"),
        atom_line("C", "ALA", "A", "1", "2.0", "3.0", "4.0"),
        atom_line("N", "GLY", "A", "2", "2.5", "3.5", "4.5"),
        atom_line("N", "SER", "B", "1", "3.0", "4.0", "5.0"),
    ];
    let s = parse(&lines).unwrap();
    assert_eq!(atom_total(&s), 5);
    assert_eq!(s.chains[0].residues[0].atoms.len(), 3);
}

#[test]
fn atoms_share_their_residue_number_in_file_order() {
    let lines = vec![
        atom_line("N", "ALA", "A", "7", "1.0", "0.0", "0.0"),
        atom_line("CA", "ALA", "A", "7", "2.0", "0.0", "0.0"),
        atom_line("N", "GLY", "A", "3", "3.0", "0.0", "0.0"),
        atom_line("CA", "GLY", "A", "3", "4.0", "0.0", "0.0"),
    ];
    let s = parse(&lines).unwrap();
    let residues = &s.chains[0].residues;
    assert_eq!(residues.len(), 2);
    assert_eq!(residues[0].sequence_number, 7);
    assert_eq!(residues[1].sequence_number, 3);
    let xs: Vec<u64> = residues.iter().flat_map(|r| r.atoms.iter().map(|a| a.pos_x.mantissa)).collect();
    assert_eq!(xs, vec![10, 20, 30, 40]);
}

#[test]
fn residue_keeps_first_name() {
    let lines = vec![
        atom_line("N", "ALA", "A", "1", "1.0", "0.0", "0.0"),
        atom_line("CA", "GLY", "A", "1", "2.0", "0.0", "0.0"),
    ];
    let s = parse(&lines).unwrap();
    assert_eq!(s.chains[0].residues.len(), 1);
    assert_eq!(s.chains[0].residues[0].name, "ALA");
}

#[test]
fn chain_reentry_gives_new_chain() {
    let lines = vec![
        atom_line("N", "ALA", "A", "1", "1.0", "2.0", "3.0"),
        atom_line("N", "GLY", "B", "2", "1.0", "2.0", "3.0"),
        atom_line("N", "SER", "A", "3", "1.0", "2.0", "3.0"),
    ];
    let s = parse(&lines).unwrap();
    let names: Vec<&str> = s.chains.iter().map(|c| c.name.as_str()).collect();
    assert_eq!(names, vec!["A", "B", "A"]);
}

#[test]
fn new_chain_starts_new_residue_with_same_number() {
    let lines = vec![
        atom_line("N", "ALA", "A", "1", "1.0", "2.0", "3.0"),
        atom_line("N", "GLY", "B", "1", "1.0", "2.0", "3.0"),
    ];
    let s = parse(&lines).unwrap();
    assert_eq!(s.chains.len(), 2);
    assert_eq!(s.chains[1].residues.len(), 1);
    assert_eq!(s.chains[1].residues[0].name, "GLY");
    assert_eq!(s.chains[1].residues[0].sequence_number, 1);
}

#[test]
fn first_residue_zero_is_kept() {
    let lines = vec![atom_line("N", "ALA", "A", "0", "1.0", "2.0", "3.0")];
    let s = parse(&lines).unwrap();
    assert_eq!(s.chains[0].residues[0].sequence_number, 0);
}

#[test]
fn builder_matches_from_lines() {
    let lines = vec![
        title_line("BUILT"),
        atom_line("N", "ALA", "A", "1", "1.0", "2.0", "3.0"),
        atom_line("CA", "ALA", "A", "1", "1.0", "2.0", "3.0"),
    ];
    let mut b = StructureBuilder::new();
    for l in &lines {
        assert!(b.feed_line(l).is_ok());
    }
    assert!(matches!(b.feed_line("ATOM"), Err(PdbError::Format)));
    let s = b.finish();
    assert_eq!(s.name, "BUILT");
    assert_eq!(s.chains[0].residues[0].atoms.len(), 2);
}

#[test]
fn parse_line_reads_columns() {
    let l = "ATOM      1  N   ALA A 001      11.104   6.134  -6.504  1.00  0.00           N";
    match parse_line(l) {
        Ok(Record::Atom(a)) => {
            assert_eq!(a.chain, "A");
            assert_eq!(a.residue_name, "ALA");
            assert_eq!(a.residue_number, 1);
            assert_eq!(a.atom.name, "N");
            assert_eq!(a.atom.pos_x, coord(false, 11104, -3));
            assert_eq!(a.atom.pos_y, coord(false, 6134, -3));
            assert_eq!(a.atom.pos_z, coord(true, 6504, -3));
        }
        _ => panic!("not an atom"),
    }
    assert!(matches!(parse_line("REMARK 1"), Ok(Record::Other)));
    assert!(matches!(parse_line("ATO"), Ok(Record::Other)));
}

#[test]
fn residue_number_column_is_not_trimmed() {
    let l = "ATOM      1  N   ALA A   1      11.104   6.134  -6.504  1.00  0.00           N";
    assert!(matches!(parse_line(l), Err(PdbError::FieldParse)));
}

#[test]
fn unsigned_numerals() {
    assert_eq!(parse_unsigned("42"), Some(42));
    assert_eq!(parse_unsigned("+7"), Some(7));
    assert_eq!(parse_unsigned("007"), Some(7));
    assert_eq!(parse_unsigned("999999999999999999"), Some(999_999_999_999_999_999));
    assert_eq!(parse_unsigned(""), None);
    assert_eq!(parse_unsigned("+"), None);
    assert_eq!(parse_unsigned("-1"), None);
    assert_eq!(parse_unsigned(" 1"), None);
    assert_eq!(parse_unsigned("1a"), None);
}

#[test]
fn decimal_numerals() {
    assert_eq!(parse_coordinate("-6.504"), Some(coord(true, 6504, -3)));
    assert_eq!(parse_coordinate("+2"), Some(coord(false, 2, 0)));
    assert_eq!(parse_coordinate("1."), Some(coord(false, 1, 0)));
    assert_eq!(parse_coordinate(".5"), Some(coord(false, 5, -1)));
    assert_eq!(parse_coordinate("-0.000"), Some(coord(true, 0, -3)));
    assert_eq!(parse_coordinate("12.3456"), Some(coord(false, 123456, -4)));
    assert_eq!(parse_coordinate("."), None);
    assert_eq!(parse_coordinate(""), None);
    assert_eq!(parse_coordinate("-"), None);
    assert_eq!(parse_coordinate("1.2.3"), None);
    assert_eq!(parse_coordinate("1 2"), None);
    assert_eq!(parse_coordinate("1.5e3"), Some(coord(false, 15, 2)));
    assert_eq!(parse_coordinate("-2E-2"), Some(coord(true, 2, -2)));
    assert_eq!(parse_coordinate("1.e+1"), Some(coord(false, 1, 1)));
    assert_eq!(parse_coordinate(".25e0"), Some(coord(false, 25, -2)));
    assert_eq!(parse_coordinate("1e"), None);
    assert_eq!(parse_coordinate("e5"), None);
    assert_eq!(parse_coordinate("1e+-5"), None);
    assert_eq!(parse_coordinate("1e5e5"), None);
    assert_eq!(parse_coordinate("1e1.5"), None);
    assert_eq!(parse_coordinate("inf"), None);
    assert_eq!(parse_coordinate("NaN"), None);
}

#[test]
fn trimming() {
    assert_eq!(trimmed("  CA "), "CA");
    assert_eq!(trimmed("\t\u{a0}x y\u{3000}"), "x y");
    assert_eq!(trimmed("   "), "");
    assert_eq!(trimmed(""), "");
}

#[test]
fn chain_queries() {
    let atom = Atom::new(String::from("N"), coord(false, 1, 0), coord(false, 2, 0), coord(false, 3, 0));
    let r1 = Residue::new(String::from("ALA"), 1, vec![atom.clone()]);
    let r2 = Residue::new(String::from("GLY"), 2, vec![atom]);
    let c = Chain::new(String::from("A"), vec![r1, r2]);
    assert_eq!(c.len(), 2);
    assert_eq!(c.get_sequence(), vec![String::from("ALA"), String::from("GLY")]);
    let empty = Chain::new(String::from("B"), vec![]);
    assert_eq!(empty.len(), 0);
    assert!(empty.get_sequence().is_empty());
}

#[test]
fn structure_counts() {
    let lines = vec![
        atom_line("N", "ALA", "A", "1", "1.0", "2.0", "3.0"),
        atom_line("CA", "ALA", "A", "1", "1.0", "2.0", "3.0"),
        atom_line("N", "GLY", "A", "2", "1.0", "2.0", "3.0"),
        atom_line("N", "SER", "B", "1", "1.0", "2.0", "3.0"),
    ];
    let s = parse(&lines).unwrap();
    assert_eq!(s.residue_count(), Some(3));
    assert_eq!(s.atom_count(), Some(4));
    let empty = parse(&[]).unwrap();
    assert_eq!(empty.residue_count(), Some(0));
    assert_eq!(empty.atom_count(), Some(0));
}

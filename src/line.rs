use vstd::prelude::*;

use crate::model::{Atom, AtomModel, PdbError};
use crate::numeral::{coordinate_of, parse_coordinate, parse_unsigned, unsigned_of, Coordinate};

verus! {

/// The shortest ATOM line: its last column, z, ends here.
pub const ATOM_LINE_LEN: usize = 54;

/// The shortest TITLE line: its text runs up to here.
pub const TITLE_LINE_LEN: usize = 80;

/// Unicode white space, as `char::is_whitespace` sees it.
pub open spec fn is_white(c: char) -> bool {
    ||| c == ' '
    ||| ('\t' <= c && c <= '\r')
    ||| c == '\u{85}'
    ||| c == '\u{a0}'
    ||| c == '\u{1680}'
    ||| ('\u{2000}' <= c && c <= '\u{200a}')
    ||| c == '\u{2028}'
    ||| c == '\u{2029}'
    ||| c == '\u{202f}'
    ||| c == '\u{205f}'
    ||| c == '\u{3000}'
}

/// `s` without its leading white space.
pub open spec fn trim_start(s: Seq<char>) -> Seq<char>
    decreases s.len(),
{
    if s.len() > 0 && is_white(s[0]) {
        trim_start(s.drop_first())
    } else {
        s
    }
}

/// `s` without its trailing white space.
pub open spec fn trim_end(s: Seq<char>) -> Seq<char>
    decreases s.len(),
{
    if s.len() > 0 && is_white(s.last()) {
        trim_end(s.drop_last())
    } else {
        s
    }
}

/// `s` without white space at either end.
pub open spec fn trim(s: Seq<char>) -> Seq<char> {
    trim_end(trim_start(s))
}

/// Whether the line's record type is ATOM.
pub open spec fn is_atom_line(l: Seq<char>) -> bool {
    l.len() >= 4 && l[0] == 'A' && l[1] == 'T' && l[2] == 'O' && l[3] == 'M'
}

/// Whether the line's record type is TITLE.
pub open spec fn is_title_line(l: Seq<char>) -> bool {
    l.len() >= 5 && l[0] == 'T' && l[1] == 'I' && l[2] == 'T' && l[3] == 'L' && l[4] == 'E'
}

/// The fields of an ATOM line.
pub struct AtomLineModel {
    pub chain: Seq<char>,
    pub residue_name: Seq<char>,
    pub residue_number: u64,
    pub atom: AtomModel,
}

/// What one line of a file says.
pub enum RecordModel {
    Atom(AtomLineModel),
    Title(Seq<char>),
    Other,
}

/// A coordinate column: its text without surrounding white space, as a decimal.
pub open spec fn coordinate_column(l: Seq<char>, from: int, to: int) -> Option<Coordinate> {
    coordinate_of(trim(l.subrange(from, to)))
}

/// What the line `l` says: the record that its fixed columns hold, or why they cannot be read.
pub open spec fn record_of(l: Seq<char>) -> Result<RecordModel, PdbError> {
    if is_atom_line(l) {
        if l.len() < ATOM_LINE_LEN {
            Err(PdbError::Format)
        } else {
            let number = unsigned_of(l.subrange(23, 26));
            let x = coordinate_column(l, 30, 38);
            let y = coordinate_column(l, 38, 46);
            let z = coordinate_column(l, 46, 54);
            if number.is_some() && x.is_some() && y.is_some() && z.is_some() {
                Ok(
                    RecordModel::Atom(
                        AtomLineModel {
                            chain: l.subrange(21, 22),
                            residue_name: trim(l.subrange(17, 20)),
                            residue_number: number.unwrap() as u64,
                            atom: AtomModel {
                                name: trim(l.subrange(12, 16)),
                                x: x.unwrap(),
                                y: y.unwrap(),
                                z: z.unwrap(),
                            },
                        },
                    ),
                )
            } else {
                Err(PdbError::FieldParse)
            }
        }
    } else if is_title_line(l) {
        if l.len() < TITLE_LINE_LEN {
            Err(PdbError::Format)
        } else {
            Ok(RecordModel::Title(trim(l.subrange(10, 80))))
        }
    } else {
        Ok(RecordModel::Other)
    }
}

/// The fields of an ATOM line.
#[derive(Clone, Debug)]
pub struct AtomLine {
    pub chain: String,
    pub residue_name: String,
    pub residue_number: u64,
    pub atom: Atom,
}

/// What one line of a file says.
#[derive(Clone, Debug)]
pub enum Record {
    Atom(AtomLine),
    Title(String),
    Other,
}

impl View for AtomLine {
    type V = AtomLineModel;

    open spec fn view(&self) -> AtomLineModel {
        AtomLineModel {
            chain: self.chain@,
            residue_name: self.residue_name@,
            residue_number: self.residue_number,
            atom: self.atom@,
        }
    }
}

impl View for Record {
    type V = RecordModel;

    open spec fn view(&self) -> RecordModel {
        match self {
            Record::Atom(a) => RecordModel::Atom(a@),
            Record::Title(t) => RecordModel::Title(t@),
            Record::Other => RecordModel::Other,
        }
    }
}

/// Whether `c` is white space.
pub fn is_white_char(c: char) -> (r: bool)
    ensures
        r == is_white(c),
{
    c == ' ' || ('\t' <= c && c <= '\r') || c == '\u{85}' || c == '\u{a0}' || c == '\u{1680}' || (
    '\u{2000}' <= c && c <= '\u{200a}') || c == '\u{2028}' || c == '\u{2029}' || c == '\u{202f}'
        || c == '\u{205f}' || c == '\u{3000}'
}

/// `text` without white space at either end.
pub fn trimmed(text: &str) -> (r: String)
    ensures
        r@ == trim(text@),
        r@.len() <= text@.len(),
{
    let ghost s = text@;
    let n = text.unicode_len();
    let mut i: usize = 0;
    assert(s.subrange(0, n as int) =~= s);
    while i < n && is_white_char(text.get_char(i))
        invariant
            i <= n,
            n == s.len(),
            s == text@,
            trim_start(s) == trim_start(s.subrange(i as int, n as int)),
        decreases n - i,
    {
        assert(s.subrange(i as int, n as int).drop_first() =~= s.subrange(i + 1, n as int));
        i = i + 1;
    }
    assert(trim_start(s.subrange(i as int, n as int)) == s.subrange(i as int, n as int));
    let mut j: usize = n;
    while j > i && is_white_char(text.get_char(j - 1))
        invariant
            i <= j <= n,
            n == s.len(),
            s == text@,
            trim(s) == trim_end(s.subrange(i as int, j as int)),
        decreases j,
    {
        assert(s.subrange(i as int, j as int).drop_last() =~= s.subrange(i as int, j - 1));
        j = j - 1;
    }
    let r = String::from_str(text.substring_char(i, j));
    r
}

/// Reads one line of a file by its fixed columns.
pub fn parse_line(line: &str) -> (r: Result<Record, PdbError>)
    ensures
        match record_of(line@) {
            Ok(m) => r is Ok && r.unwrap()@ == m,
            Err(e) => r == Err::<Record, PdbError>(e),
        },
{
    let n = line.unicode_len();
    let l = line;
    if n >= 4 && l.get_char(0) == 'A' && l.get_char(1) == 'T' && l.get_char(2) == 'O'
        && l.get_char(3) == 'M' {
        if n < ATOM_LINE_LEN {
            return Err(PdbError::Format);
        }
        let number = parse_unsigned(l.substring_char(23, 26));
        let x_text = trimmed(l.substring_char(30, 38));
        let x = parse_coordinate(x_text.as_str());
        let y_text = trimmed(l.substring_char(38, 46));
        let y = parse_coordinate(y_text.as_str());
        let z_text = trimmed(l.substring_char(46, 54));
        let z = parse_coordinate(z_text.as_str());
        match (number, x, y, z) {
            (Some(number), Some(x), Some(y), Some(z)) => {
                let atom = Atom::new(trimmed(l.substring_char(12, 16)), x, y, z);
                let r = AtomLine {
                    chain: String::from_str(l.substring_char(21, 22)),
                    residue_name: trimmed(l.substring_char(17, 20)),
                    residue_number: number,
                    atom,
                };
                Ok(Record::Atom(r))
            },
            _ => Err(PdbError::FieldParse),
        }
    } else if n >= 5 && l.get_char(0) == 'T' && l.get_char(1) == 'I' && l.get_char(2) == 'T'
        && l.get_char(3) == 'L' && l.get_char(4) == 'E' {
        if n < TITLE_LINE_LEN {
            return Err(PdbError::Format);
        }
        Ok(Record::Title(trimmed(l.substring_char(10, 80))))
    } else {
        Ok(Record::Other)
    }
}

} // verus!

//! The tabular codec: reads the inventory file into records and writes
//! records back, all-or-nothing, reporting the exact row of any malformed
//! record.
//!
//! The file shape is the usual comma-separated one: rows end with a newline,
//! and a cell holding a comma, quote, newline or carriage return is wrapped
//! in double quotes with inner quotes doubled.

use vstd::prelude::*;
use vstd::string::StringExecFns;
use crate::text::push_char;
use crate::text::chars_of;
use crate::text::string_of;
use crate::text::is_u32_numeral;
use crate::text::u32_value;
use crate::text::u32_numeral;
use crate::text::is_decimal_chars;
use crate::text::parse_u32_str;
use crate::text::is_decimal_str;
use crate::text::u32_to_string;
use crate::text::lemma_u32_numeral_wf;
use crate::text::scan_decimal;
use crate::inventory::TileInventory;
use crate::inventory::RecordModel;
use crate::inventory::record_valid;
use crate::inventory::dataset_model;
use crate::inventory::dataset_valid;
use crate::inventory::unique_identities;
use crate::inventory::identity_of;
use crate::inventory::contains_identity;
use crate::inventory::dedup_first;
use crate::inventory::lemma_dedup_first_of_unique;
use crate::inventory::lemma_dedup_first_contains;
use crate::inventory::lemma_dedup_first_unique;
use crate::inventory::find_by_identity;

verus! {

pub open spec fn is_sep_char(c: char) -> bool {
    c == ',' || c == '\n'
}

/// Scans the inside of a quoted cell, starting just after the opening
/// quote. Yields the cell content and the rest of the input, which starts
/// at a separator or is empty; fails on an unterminated quote or on a
/// closing quote not followed by a separator.
pub open spec fn lex_quoted(s: Seq<char>) -> Option<(Seq<char>, Seq<char>)>
    decreases s.len(),
{
    if s.len() == 0 {
        None
    } else if s[0] == '"' {
        if s.len() >= 2 && s[1] == '"' {
            match lex_quoted(s.skip(2)) {
                None => None,
                Some((c, r)) => Some((seq!['"'] + c, r)),
            }
        } else if s.len() == 1 || is_sep_char(s[1]) {
            Some((Seq::empty(), s.skip(1)))
        } else {
            None
        }
    } else {
        match lex_quoted(s.drop_first()) {
            None => None,
            Some((c, r)) => Some((seq![s[0]] + c, r)),
        }
    }
}

/// Index of the first separator in `s`, or its length.
pub open spec fn first_sep_index(s: Seq<char>) -> int
    decreases s.len(),
{
    if s.len() == 0 {
        0
    } else if is_sep_char(s[0]) {
        0
    } else {
        1 + first_sep_index(s.drop_first())
    }
}

/// One cell: quoted if it opens with a quote, otherwise everything up to
/// the next separator.
pub open spec fn lex_cell(s: Seq<char>) -> Option<(Seq<char>, Seq<char>)> {
    if s.len() > 0 && s[0] == '"' {
        lex_quoted(s.drop_first())
    } else {
        Some((s.take(first_sep_index(s)), s.skip(first_sep_index(s))))
    }
}

/// One row: cells separated by commas, ended by a newline or the end of
/// the input.
pub open spec fn lex_row(s: Seq<char>) -> Option<(Seq<Seq<char>>, Seq<char>)>
    decreases s.len(),
{
    match lex_cell(s) {
        None => None,
        Some((c, r)) => {
            if r.len() == 0 {
                Some((seq![c], r))
            } else if r[0] == '\n' {
                Some((seq![c], r.drop_first()))
            } else if r[0] == ',' && r.len() <= s.len() {
                match lex_row(r.drop_first()) {
                    None => None,
                    Some((cs, r2)) => Some((seq![c] + cs, r2)),
                }
            } else {
                None
            }
        },
    }
}

/// All rows of the input; an error carries the index of the row that
/// could not be split into cells, counting the header row as index zero.
pub open spec fn lex_rows(s: Seq<char>) -> Result<Seq<Seq<Seq<char>>>, int>
    decreases s.len(),
{
    if s.len() == 0 {
        Ok(Seq::empty())
    } else {
        match lex_row(s) {
            None => Err(0),
            Some((row, r)) => {
                if r.len() < s.len() {
                    match lex_rows(r) {
                        Ok(rows) => Ok(seq![row] + rows),
                        Err(k) => Err(1 + k),
                    }
                } else {
                    Err(0)
                }
            },
        }
    }
}

pub open spec fn cells_model(v: Seq<String>) -> Seq<Seq<char>> {
    v.map_values(|s: String| s@)
}

pub open spec fn rows_model(v: Seq<Vec<String>>) -> Seq<Seq<Seq<char>>> {
    v.map_values(|r: Vec<String>| cells_model(r@))
}

/// First separator at or after `i`, by linear scan.
fn seek_sep(chars: &Vec<char>, i: usize) -> (j: usize)
    requires
        i <= chars@.len(),
    ensures
        i <= j <= chars@.len(),
        j - i == first_sep_index(chars@.skip(i as int)),
    decreases chars@.len() - i,
{
    if i == chars.len() {
        i
    } else if chars[i] == ',' || chars[i] == '\n' {
        proof {
            assert(chars@.skip(i as int)[0] == chars@[i as int]);
        }
        i
    } else {
        proof {
            assert(chars@.skip(i as int)[0] == chars@[i as int]);
            assert(chars@.skip(i as int).drop_first() =~= chars@.skip(i as int + 1));
        }
        seek_sep(chars, i + 1)
    }
}

/// The characters from `i` up to `j`, as a string.
fn string_range(chars: &Vec<char>, i: usize, j: usize) -> (r: String)
    requires
        i <= j <= chars@.len(),
    ensures
        r@ == chars@.subrange(i as int, j as int),
{
    let mut r = String::new();
    let mut k: usize = i;
    while k < j
        invariant
            i <= k <= j <= chars@.len(),
            r@ == chars@.subrange(i as int, k as int),
        decreases j - k,
    {
        push_char(&mut r, chars[k]);
        k += 1;
        proof {
            assert(r@ =~= chars@.subrange(i as int, k as int));
        }
    }
    r
}

/// Scans a quoted cell starting just after its opening quote.
fn lex_quoted_at(chars: &Vec<char>, i: usize) -> (r: Option<(String, usize)>)
    requires
        i <= chars@.len(),
    ensures
        match r {
            Some((content, j)) => i <= j <= chars@.len() && lex_quoted(chars@.skip(i as int))
                == Some((content@, chars@.skip(j as int))),
            None => lex_quoted(chars@.skip(i as int)) is None,
        },
    decreases chars@.len() - i,
{
    if i == chars.len() {
        return None;
    }
    proof {
        assert(chars@.skip(i as int)[0] == chars@[i as int]);
        assert(chars@.skip(i as int).len() == chars@.len() - i as int);
    }
    if chars[i] == '"' {
        if i + 1 < chars.len() && chars[i + 1] == '"' {
            proof {
                assert(chars@.skip(i as int)[1] == chars@[i as int + 1]);
                assert(chars@.skip(i as int).skip(2) =~= chars@.skip(i as int + 2));
            }
            match lex_quoted_at(chars, i + 2) {
                None => None,
                Some((rest, j)) => {
                    let mut s = String::new();
                    push_char(&mut s, '"');
                    s.append(rest.as_str());
                    proof {
                        assert(s@ =~= seq!['"'] + rest@);
                    }
                    Some((s, j))
                },
            }
        } else {
            proof {
                if i as int + 1 < chars@.len() {
                    assert(chars@.skip(i as int)[1] == chars@[i as int + 1]);
                }
                assert(chars@.skip(i as int).skip(1) =~= chars@.skip(i as int + 1));
            }
            if i + 1 == chars.len() {
                Some((String::new(), i + 1))
            } else if chars[i + 1] == ',' || chars[i + 1] == '\n' {
                Some((String::new(), i + 1))
            } else {
                None
            }
        }
    } else {
        proof {
            assert(chars@.skip(i as int).drop_first() =~= chars@.skip(i as int + 1));
        }
        match lex_quoted_at(chars, i + 1) {
            None => None,
            Some((rest, j)) => {
                let mut s = String::new();
                push_char(&mut s, chars[i]);
                s.append(rest.as_str());
                proof {
                    assert(s@ =~= seq![chars@[i as int]] + rest@);
                }
                Some((s, j))
            },
        }
    }
}

/// Scans one cell starting at `i`.
fn lex_cell_at(chars: &Vec<char>, i: usize) -> (r: Option<(String, usize)>)
    requires
        i <= chars@.len(),
    ensures
        match r {
            Some((content, j)) => i <= j <= chars@.len() && lex_cell(chars@.skip(i as int))
                == Some((content@, chars@.skip(j as int))),
            None => lex_cell(chars@.skip(i as int)) is None,
        },
{
    if i < chars.len() && chars[i] == '"' {
        proof {
            assert(chars@.skip(i as int)[0] == chars@[i as int]);
            assert(chars@.skip(i as int).drop_first() =~= chars@.skip(i as int + 1));
        }
        lex_quoted_at(chars, i + 1)
    } else {
        let j = seek_sep(chars, i);
        let content = string_range(chars, i, j);
        proof {
            let ghost s = chars@.skip(i as int);
            if (i as int) < chars@.len() {
                assert(s[0] == chars@[i as int]);
            }
            let ghost k = first_sep_index(s);
            assert(k == j as int - i as int);
            assert(s.take(k) =~= chars@.subrange(i as int, j as int));
            assert(s.skip(k) =~= chars@.skip(j as int));
        }
        Some((content, j))
    }
}

/// Scans one row starting at `i`.
fn lex_row_at(chars: &Vec<char>, i: usize) -> (r: Option<(Vec<String>, usize)>)
    requires
        i <= chars@.len(),
    ensures
        match r {
            Some((cells, j)) => {
                &&& i <= j <= chars@.len()
                &&& (i < chars@.len() ==> i < j)
                &&& lex_row(chars@.skip(i as int)) == Some((cells_model(cells@), chars@.skip(j as int)))
            },
            None => lex_row(chars@.skip(i as int)) is None,
        },
{
    let mut cells: Vec<String> = Vec::new();
    let mut cur: usize = i;
    loop
        invariant
            i <= cur <= chars@.len(),
            match lex_row(chars@.skip(cur as int)) {
                Some((cs, rest)) => lex_row(chars@.skip(i as int)) == Some::<(Seq<Seq<char>>, Seq<
                    char,
                >)>((cells_model(cells@) + cs, rest)),
                None => lex_row(chars@.skip(i as int)) is None,
            },
        decreases chars@.len() - cur,
    {
        match lex_cell_at(chars, cur) {
            None => {
                return None;
            },
            Some((c, j)) => {
                let ghost cur0: int = cur as int;
                let ghost cells0 = cells_model(cells@);
                cells.push(c);
                proof {
                    assert(cells_model(cells@) =~= cells0.push(c@));
                }
                if j == chars.len() {
                    proof {
                        let ghost s = chars@.skip(cur0);
                        assert(chars@.skip(j as int).len() == 0);
                        assert(lex_row(s) == Some::<(Seq<Seq<char>>, Seq<char>)>((
                            seq![c@],
                            chars@.skip(j as int),
                        )));
                        assert(cells0 + seq![c@] =~= cells_model(cells@));
                    }
                    return Some((cells, j));
                } else if chars[j] == '\n' {
                    proof {
                        let ghost s = chars@.skip(cur0);
                        let ghost r = chars@.skip(j as int);
                        assert(r[0] == chars@[j as int]);
                        assert(r.drop_first() =~= chars@.skip(j as int + 1));
                        assert(lex_row(s) == Some::<(Seq<Seq<char>>, Seq<char>)>((
                            seq![c@],
                            chars@.skip(j as int + 1),
                        )));
                        assert(cells0 + seq![c@] =~= cells_model(cells@));
                    }
                    return Some((cells, j + 1));
                } else if chars[j] == ',' {
                    proof {
                        let ghost s = chars@.skip(cur0);
                        let ghost r = chars@.skip(j as int);
                        assert(r[0] == chars@[j as int]);
                        assert(r.drop_first() =~= chars@.skip(j as int + 1));
                        assert(r.len() <= s.len());
                        match lex_row(chars@.skip(j as int + 1)) {
                            Some((cs, rest)) => {
                                assert(lex_row(s) == Some::<(Seq<Seq<char>>, Seq<char>)>((
                                    seq![c@] + cs,
                                    rest,
                                )));
                                assert(cells0 + (seq![c@] + cs) =~= cells_model(cells@) + cs);
                            },
                            None => {
                                assert(lex_row(s) is None);
                            },
                        }
                    }
                    cur = j + 1;
                } else {
                    proof {
                        let ghost s = chars@.skip(cur0);
                        let ghost r = chars@.skip(j as int);
                        assert(r[0] == chars@[j as int]);
                        assert(lex_row(s) is None);
                    }
                    return None;
                }
            },
        }
    }
}

/// Splits the whole input into rows of cells; an error carries the index
/// of the offending row, the header being row zero.
fn lex_all_rows(chars: &Vec<char>) -> (r: Result<Vec<Vec<String>>, usize>)
    ensures
        match r {
            Ok(rows) => lex_rows(chars@) == Ok::<Seq<Seq<Seq<char>>>, int>(rows_model(rows@)),
            Err(k) => lex_rows(chars@) == Err::<Seq<Seq<Seq<char>>>, int>(k as int),
        },
{
    let mut rows: Vec<Vec<String>> = Vec::new();
    let mut cur: usize = 0;
    proof {
        assert(chars@.skip(0) =~= chars@);
    }
    loop
        invariant
            cur <= chars@.len(),
            match lex_rows(chars@.skip(cur as int)) {
                Ok(rs) => lex_rows(chars@) == Ok::<Seq<Seq<Seq<char>>>, int>(
                    rows_model(rows@) + rs,
                ),
                Err(k) => lex_rows(chars@) == Err::<Seq<Seq<Seq<char>>>, int>(rows@.len() + k),
            },
        decreases chars@.len() - cur,
    {
        if cur == chars.len() {
            proof {
                assert(chars@.skip(cur as int).len() == 0);
                assert(rows_model(rows@) + Seq::<Seq<Seq<char>>>::empty() =~= rows_model(rows@));
            }
            return Ok(rows);
        }
        match lex_row_at(chars, cur) {
            None => {
                proof {
                    assert(lex_rows(chars@.skip(cur as int)) == Err::<Seq<Seq<Seq<char>>>, int>(0));
                }
                return Err(rows.len());
            },
            Some((row, j)) => {
                let ghost cur0: int = cur as int;
                let ghost rows0 = rows_model(rows@);
                let ghost rowm = cells_model(row@);
                rows.push(row);
                proof {
                    assert(rows_model(rows@) =~= rows0.push(rowm));
                    let ghost s = chars@.skip(cur0);
                    let ghost r = chars@.skip(j as int);
                    assert(r.len() < s.len());
                    match lex_rows(r) {
                        Ok(rs) => {
                            assert(lex_rows(s) == Ok::<Seq<Seq<Seq<char>>>, int>(seq![rowm] + rs));
                            assert(rows0 + (seq![rowm] + rs) =~= rows_model(rows@) + rs);
                        },
                        Err(k) => {
                            assert(lex_rows(s) == Err::<Seq<Seq<Seq<char>>>, int>(1 + k));
                            assert(rows0.len() + (1 + k) == rows@.len() + k);
                        },
                    }
                }
                cur = j;
            },
        }
    }
}

/// Why one row, or the header, could not be read.
#[derive(Clone, Copy, Debug, PartialEq, Eq, Structural)]
pub enum ParseCause {
    /// The row could not be split into cells (bad quoting).
    BadQuoting,
    /// The input has no header row at all.
    MissingHeader,
    /// The header lacks one of the required columns.
    MissingColumn,
    /// The row has a different number of cells than the header.
    WrongArity,
    /// A required text cell is empty.
    EmptyRequired,
    /// A numeric cell is not a decimal numeral in range.
    BadNumber,
    /// A coordinate cell is not a plain decimal number.
    BadCoordinate,
    /// Exactly one of latitude and longitude is present.
    UnpairedCoordinate,
}

/// A malformed input fails the whole parse; data rows count from one,
/// directly after the header.
#[derive(Clone, Copy, Debug, PartialEq, Eq, Structural)]
pub enum CsvError {
    Header { cause: ParseCause },
    Row { row_number: usize, cause: ParseCause },
}

/// Where each known column stands in the header, if at all.
#[derive(Clone, Copy, Debug)]
pub struct ColumnMap {
    pub arity: usize,
    pub id: Option<usize>,
    pub street_sign: Option<usize>,
    pub street_address: Option<usize>,
    pub sign_condition: Option<usize>,
    pub number_of_tiles_damaged: Option<usize>,
    pub photo_1: Option<usize>,
    pub photo_2: Option<usize>,
    pub photo_3: Option<usize>,
    pub photo_4: Option<usize>,
    pub photo_5: Option<usize>,
    pub latitude: Option<usize>,
    pub longitude: Option<usize>,
}

#[verifier::ext_equal]
pub struct ColumnMapModel {
    pub arity: int,
    pub id: Option<int>,
    pub street_sign: Option<int>,
    pub street_address: Option<int>,
    pub sign_condition: Option<int>,
    pub number_of_tiles_damaged: Option<int>,
    pub photo_1: Option<int>,
    pub photo_2: Option<int>,
    pub photo_3: Option<int>,
    pub photo_4: Option<int>,
    pub photo_5: Option<int>,
    pub latitude: Option<int>,
    pub longitude: Option<int>,
}

pub open spec fn opt_idx_model(o: Option<usize>) -> Option<int> {
    match o {
        Some(j) => Some(j as int),
        None => None,
    }
}

impl View for ColumnMap {
    type V = ColumnMapModel;

    open spec fn view(&self) -> ColumnMapModel {
        ColumnMapModel {
            arity: self.arity as int,
            id: opt_idx_model(self.id),
            street_sign: opt_idx_model(self.street_sign),
            street_address: opt_idx_model(self.street_address),
            sign_condition: opt_idx_model(self.sign_condition),
            number_of_tiles_damaged: opt_idx_model(self.number_of_tiles_damaged),
            photo_1: opt_idx_model(self.photo_1),
            photo_2: opt_idx_model(self.photo_2),
            photo_3: opt_idx_model(self.photo_3),
            photo_4: opt_idx_model(self.photo_4),
            photo_5: opt_idx_model(self.photo_5),
            latitude: opt_idx_model(self.latitude),
            longitude: opt_idx_model(self.longitude),
        }
    }
}

/// Index of the first header cell equal to `name`.
pub open spec fn spec_find_column(header: Seq<Seq<char>>, name: Seq<char>) -> Option<int>
    decreases header.len(),
{
    if header.len() == 0 {
        None
    } else if header[0] == name {
        Some(0)
    } else {
        match spec_find_column(header.drop_first(), name) {
            None => None,
            Some(i) => Some(1 + i),
        }
    }
}

proof fn lemma_find_column_char(header: Seq<Seq<char>>, name: Seq<char>)
    ensures
        match spec_find_column(header, name) {
            Some(i) => 0 <= i < header.len() && header[i] == name && (forall|k: int|
                0 <= k < i ==> header[k] != name),
            None => forall|k: int| 0 <= k < header.len() ==> header[k] != name,
        },
    decreases header.len(),
{
    if header.len() > 0 {
        lemma_find_column_char(header.drop_first(), name);
        if header[0] != name {
            match spec_find_column(header.drop_first(), name) {
                Some(i) => {
                    assert(header.drop_first()[i] == header[i + 1]);
                    assert forall|k: int|
                        0 <= k < i + 1 implies #[trigger] header[k] != name by {
                        if k > 0 {
                            assert(header.drop_first()[k - 1] == header[k]);
                        }
                    }
                },
                None => {
                    assert forall|k: int|
                        0 <= k < header.len() implies #[trigger] header[k] != name by {
                        if k > 0 {
                            assert(header.drop_first()[k - 1] == header[k]);
                        }
                    }
                },
            }
        }
    }
}

/// Finds the first header cell equal to `name`.
fn find_column(header: &Vec<String>, name: &str) -> (r: Option<usize>)
    ensures
        opt_idx_model(r) == spec_find_column(cells_model(header@), name@),
{
    let name_owned = String::from_str(name);
    let mut i: usize = 0;
    let ghost h = cells_model(header@);
    while i < header.len()
        invariant
            i <= header@.len(),
            h == cells_model(header@),
            name_owned@ == name@,
            forall|k: int| 0 <= k < i ==> #[trigger] h[k] != name@,
        decreases header@.len() - i,
    {
        let cell: &String = &header[i];
        if cell.eq(&name_owned) {
            proof {
                assert(h[i as int] == name@);
                lemma_find_column_char(h, name@);
                match spec_find_column(h, name@) {
                    Some(j) => {
                        if j < i as int {
                            assert(h[j] != name@);
                        }
                        if j > i as int {
                            assert(h[i as int] != name@);
                        }
                    },
                    None => {
                        assert(h[i as int] != name@);
                    },
                }
            }
            return Some(i);
        }
        i += 1;
    }
    proof {
        lemma_find_column_char(h, name@);
        match spec_find_column(h, name@) {
            Some(j) => {
                assert(h[j] != name@);
            },
            None => {},
        }
    }
    None
}

/// The header maps column names to record fields by this fixed,
/// case-sensitive table; unknown columns are ignored.
pub open spec fn spec_column_map(header: Seq<Seq<char>>) -> ColumnMapModel {
    ColumnMapModel {
        arity: header.len() as int,
        id: spec_find_column(header, "ID"@),
        street_sign: spec_find_column(header, "Street Sign"@),
        street_address: spec_find_column(header, "Street Address"@),
        sign_condition: spec_find_column(header, "Sign Condition"@),
        number_of_tiles_damaged: spec_find_column(header, "Number of Tiles Damaged"@),
        photo_1: spec_find_column(header, "Photo 1"@),
        photo_2: spec_find_column(header, "Photo 2"@),
        photo_3: spec_find_column(header, "Photo 3"@),
        photo_4: spec_find_column(header, "Photo 4"@),
        photo_5: spec_find_column(header, "Photo 5"@),
        latitude: spec_find_column(header, "latitude"@),
        longitude: spec_find_column(header, "longitude"@),
    }
}

/// Builds the column map of a header row.
fn build_column_map(header: &Vec<String>) -> (cm: ColumnMap)
    ensures
        cm@ == spec_column_map(cells_model(header@)),
{
    let cm = ColumnMap {
        arity: header.len(),
        id: find_column(header, "ID"),
        street_sign: find_column(header, "Street Sign"),
        street_address: find_column(header, "Street Address"),
        sign_condition: find_column(header, "Sign Condition"),
        number_of_tiles_damaged: find_column(header, "Number of Tiles Damaged"),
        photo_1: find_column(header, "Photo 1"),
        photo_2: find_column(header, "Photo 2"),
        photo_3: find_column(header, "Photo 3"),
        photo_4: find_column(header, "Photo 4"),
        photo_5: find_column(header, "Photo 5"),
        latitude: find_column(header, "latitude"),
        longitude: find_column(header, "longitude"),
    };
    proof {
        assert(cm@ =~= spec_column_map(cells_model(header@)));
    }
    cm
}

pub open spec fn opt_cell_value(idx: Option<int>, row: Seq<Seq<char>>) -> Seq<char> {
    match idx {
        Some(j) => row[j],
        None => Seq::empty(),
    }
}

/// An optional text cell: empty means absent.
pub open spec fn opt_text_value(cell: Seq<char>) -> Option<Seq<char>> {
    if cell.len() == 0 {
        None
    } else {
        Some(cell)
    }
}

/// Reads one data row against the column map.
pub open spec fn spec_parse_record(cm: ColumnMapModel, row: Seq<Seq<char>>) -> Result<
    RecordModel,
    ParseCause,
> {
    if row.len() != cm.arity {
        Err(ParseCause::WrongArity)
    } else {
        match (cm.id, cm.street_sign, cm.street_address) {
            (Some(ji), Some(js), Some(ja)) => {
                let id_cell = row[ji];
                let sign_cell = row[js];
                let addr_cell = row[ja];
                if !is_u32_numeral(id_cell) {
                    Err(ParseCause::BadNumber)
                } else if sign_cell.len() == 0 {
                    Err(ParseCause::EmptyRequired)
                } else if addr_cell.len() == 0 {
                    Err(ParseCause::EmptyRequired)
                } else {
                    let damaged_cell = opt_cell_value(cm.number_of_tiles_damaged, row);
                    let lat_cell = opt_cell_value(cm.latitude, row);
                    let lon_cell = opt_cell_value(cm.longitude, row);
                    if damaged_cell.len() > 0 && !is_u32_numeral(damaged_cell) {
                        Err(ParseCause::BadNumber)
                    } else if lat_cell.len() > 0 && !is_decimal_chars(lat_cell) {
                        Err(ParseCause::BadCoordinate)
                    } else if lon_cell.len() > 0 && !is_decimal_chars(lon_cell) {
                        Err(ParseCause::BadCoordinate)
                    } else if (lat_cell.len() > 0) != (lon_cell.len() > 0) {
                        Err(ParseCause::UnpairedCoordinate)
                    } else {
                        Ok(
                            RecordModel {
                                id: u32_value(id_cell) as u32,
                                street_sign: sign_cell,
                                street_address: addr_cell,
                                sign_condition: opt_text_value(
                                    opt_cell_value(cm.sign_condition, row),
                                ),
                                number_of_tiles_damaged: if damaged_cell.len() == 0 {
                                    None
                                } else {
                                    Some(u32_value(damaged_cell) as u32)
                                },
                                photo_1: opt_text_value(opt_cell_value(cm.photo_1, row)),
                                photo_2: opt_text_value(opt_cell_value(cm.photo_2, row)),
                                photo_3: opt_text_value(opt_cell_value(cm.photo_3, row)),
                                photo_4: opt_text_value(opt_cell_value(cm.photo_4, row)),
                                photo_5: opt_text_value(opt_cell_value(cm.photo_5, row)),
                                latitude: opt_text_value(lat_cell),
                                longitude: opt_text_value(lon_cell),
                            },
                        )
                    }
                }
            },
            _ => Err(ParseCause::MissingColumn),
        }
    }
}

/// A record read from a data row is well formed.
proof fn lemma_parse_record_valid(cm: ColumnMapModel, row: Seq<Seq<char>>)
    requires
        spec_parse_record(cm, row) is Ok,
    ensures
        record_valid(spec_parse_record(cm, row)->Ok_0),
{
}

/// Fetches the cell of an optional column, absent columns reading as
/// empty.
fn opt_cell_string(idx: Option<usize>, row: &Vec<String>) -> (r: String)
    requires
        match idx {
            Some(j) => j < row@.len(),
            None => true,
        },
    ensures
        r@ == opt_cell_value(opt_idx_model(idx), cells_model(row@)),
{
    match idx {
        Some(j) => row[j].clone(),
        None => String::new(),
    }
}

/// Turns an optional cell into its field value: empty means absent.
fn opt_text_field(cell: String) -> (r: Option<String>)
    ensures
        r.deep_view() == opt_text_value(cell@),
{
    if cell.as_str().is_empty() {
        None
    } else {
        Some(cell)
    }
}

/// Reads one data row into a record, against the column map.
fn parse_record_row(cm: &ColumnMap, row: &Vec<String>) -> (r: Result<TileInventory, ParseCause>)
    requires
        col_map_in_bounds(cm@),
    ensures
        match r {
            Ok(rec) => spec_parse_record(cm@, cells_model(row@)) == Ok::<RecordModel, ParseCause>(
                rec@,
            ),
            Err(c) => spec_parse_record(cm@, cells_model(row@)) == Err::<RecordModel, ParseCause>(
                c,
            ),
        },
{
    let ghost rowm = cells_model(row@);
    if row.len() != cm.arity {
        return Err(ParseCause::WrongArity);
    }
    let (ji, js, ja) = match (cm.id, cm.street_sign, cm.street_address) {
        (Some(ji), Some(js), Some(ja)) => (ji, js, ja),
        _ => {
            return Err(ParseCause::MissingColumn);
        },
    };
    let id = match parse_u32_str(row[ji].as_str()) {
        Some(n) => n,
        None => {
            return Err(ParseCause::BadNumber);
        },
    };
    if row[js].as_str().is_empty() {
        return Err(ParseCause::EmptyRequired);
    }
    if row[ja].as_str().is_empty() {
        return Err(ParseCause::EmptyRequired);
    }
    let damaged_cell = opt_cell_string(cm.number_of_tiles_damaged, row);
    let lat_cell = opt_cell_string(cm.latitude, row);
    let lon_cell = opt_cell_string(cm.longitude, row);
    let number_of_tiles_damaged: Option<u32> = if damaged_cell.as_str().is_empty() {
        None
    } else {
        match parse_u32_str(damaged_cell.as_str()) {
            Some(n) => Some(n),
            None => {
                return Err(ParseCause::BadNumber);
            },
        }
    };
    if !lat_cell.as_str().is_empty() && !is_decimal_str(lat_cell.as_str()) {
        return Err(ParseCause::BadCoordinate);
    }
    if !lon_cell.as_str().is_empty() && !is_decimal_str(lon_cell.as_str()) {
        return Err(ParseCause::BadCoordinate);
    }
    if lat_cell.as_str().is_empty() != lon_cell.as_str().is_empty() {
        return Err(ParseCause::UnpairedCoordinate);
    }
    let rec = TileInventory {
        id,
        street_sign: row[js].clone(),
        street_address: row[ja].clone(),
        sign_condition: opt_text_field(opt_cell_string(cm.sign_condition, row)),
        number_of_tiles_damaged,
        photo_1: opt_text_field(opt_cell_string(cm.photo_1, row)),
        photo_2: opt_text_field(opt_cell_string(cm.photo_2, row)),
        photo_3: opt_text_field(opt_cell_string(cm.photo_3, row)),
        photo_4: opt_text_field(opt_cell_string(cm.photo_4, row)),
        photo_5: opt_text_field(opt_cell_string(cm.photo_5, row)),
        latitude: opt_text_field(lat_cell),
        longitude: opt_text_field(lon_cell),
    };
    proof {
        assert(rowm[ji as int] == row@[ji as int]@);
        assert(rowm[js as int] == row@[js as int]@);
        assert(rowm[ja as int] == row@[ja as int]@);
        assert(spec_parse_record(cm@, rowm) == Ok::<RecordModel, ParseCause>(rec@)) by {
            assert(rec@ =~= spec_parse_record(cm@, rowm)->Ok_0);
        }
    }
    Ok(rec)
}

/// Every present column index of the map lies inside the arity.
pub open spec fn col_map_in_bounds(cm: ColumnMapModel) -> bool {
    &&& match cm.id {
        Some(j) => 0 <= j < cm.arity,
        None => true,
    }
    &&& match cm.street_sign {
        Some(j) => 0 <= j < cm.arity,
        None => true,
    }
    &&& match cm.street_address {
        Some(j) => 0 <= j < cm.arity,
        None => true,
    }
    &&& match cm.sign_condition {
        Some(j) => 0 <= j < cm.arity,
        None => true,
    }
    &&& match cm.number_of_tiles_damaged {
        Some(j) => 0 <= j < cm.arity,
        None => true,
    }
    &&& match cm.photo_1 {
        Some(j) => 0 <= j < cm.arity,
        None => true,
    }
    &&& match cm.photo_2 {
        Some(j) => 0 <= j < cm.arity,
        None => true,
    }
    &&& match cm.photo_3 {
        Some(j) => 0 <= j < cm.arity,
        None => true,
    }
    &&& match cm.photo_4 {
        Some(j) => 0 <= j < cm.arity,
        None => true,
    }
    &&& match cm.photo_5 {
        Some(j) => 0 <= j < cm.arity,
        None => true,
    }
    &&& match cm.latitude {
        Some(j) => 0 <= j < cm.arity,
        None => true,
    }
    &&& match cm.longitude {
        Some(j) => 0 <= j < cm.arity,
        None => true,
    }
}

/// The column map of any header is in bounds.
proof fn lemma_column_map_in_bounds(header: Seq<Seq<char>>)
    ensures
        col_map_in_bounds(spec_column_map(header)),
{
    lemma_find_column_char(header, "ID"@);
    lemma_find_column_char(header, "Street Sign"@);
    lemma_find_column_char(header, "Street Address"@);
    lemma_find_column_char(header, "Sign Condition"@);
    lemma_find_column_char(header, "Number of Tiles Damaged"@);
    lemma_find_column_char(header, "Photo 1"@);
    lemma_find_column_char(header, "Photo 2"@);
    lemma_find_column_char(header, "Photo 3"@);
    lemma_find_column_char(header, "Photo 4"@);
    lemma_find_column_char(header, "Photo 5"@);
    lemma_find_column_char(header, "latitude"@);
    lemma_find_column_char(header, "longitude"@);
}

/// A cell must be quoted when it holds a separator, a quote, or a carriage
/// return.
pub open spec fn cell_needs_quoting(s: Seq<char>) -> bool {
    s.contains(',') || s.contains('"') || s.contains('\n') || s.contains('\r')
}

/// Doubles every quote in `s`.
pub open spec fn escape_quotes(s: Seq<char>) -> Seq<char>
    decreases s.len(),
{
    if s.len() == 0 {
        Seq::empty()
    } else if s[0] == '"' {
        seq!['"', '"'] + escape_quotes(s.drop_first())
    } else {
        seq![s[0]] + escape_quotes(s.drop_first())
    }
}

pub open spec fn render_cell(s: Seq<char>) -> Seq<char> {
    if cell_needs_quoting(s) {
        seq!['"'] + escape_quotes(s) + seq!['"']
    } else {
        s
    }
}

pub open spec fn render_row(cells: Seq<Seq<char>>) -> Seq<char>
    decreases cells.len(),
{
    if cells.len() == 0 {
        seq!['\n']
    } else if cells.len() == 1 {
        render_cell(cells[0]).push('\n')
    } else {
        render_cell(cells[0]).push(',') + render_row(cells.drop_first())
    }
}

pub open spec fn render_rows(rows: Seq<Seq<Seq<char>>>) -> Seq<char>
    decreases rows.len(),
{
    if rows.len() == 0 {
        Seq::empty()
    } else {
        render_row(rows[0]) + render_rows(rows.drop_first())
    }
}

proof fn lemma_not_contains_drop_first(c: Seq<char>, x: char)
    requires
        c.len() > 0,
        !c.contains(x),
    ensures
        !c.drop_first().contains(x),
        c[0] != x,
{
    if c[0] == x {
        assert(c.contains(x));
    }
    if c.drop_first().contains(x) {
        let i = choose|i: int| 0 <= i < c.drop_first().len() && c.drop_first()[i] == x;
        assert(c[i + 1] == x);
        assert(c.contains(x));
    }
}

proof fn lemma_lex_quoted_of_escaped(c: Seq<char>, rest: Seq<char>)
    requires
        rest.len() == 0 || is_sep_char(rest[0]),
    ensures
        lex_quoted(escape_quotes(c) + seq!['"'] + rest) == Some((c, rest)),
    decreases c.len(),
{
    let s = escape_quotes(c) + seq!['"'] + rest;
    if c.len() == 0 {
        assert(escape_quotes(c) =~= Seq::<char>::empty());
        assert(s =~= seq!['"'] + rest);
        assert(s[0] == '"');
        if rest.len() == 0 {
            assert(s.len() == 1);
            assert(s.skip(1) =~= rest);
        } else {
            assert(s[1] == rest[0]);
            assert(is_sep_char(s[1]));
            assert(s[1] != '"');
            assert(s.skip(1) =~= rest);
        }
    } else if c[0] == '"' {
        lemma_lex_quoted_of_escaped(c.drop_first(), rest);
        assert(escape_quotes(c) == seq!['"', '"'] + escape_quotes(c.drop_first()));
        assert(s[0] == '"');
        assert(s[1] == '"');
        assert(s.len() >= 2);
        assert(s.skip(2) =~= escape_quotes(c.drop_first()) + seq!['"'] + rest);
        assert(seq!['"'] + c.drop_first() =~= c);
    } else {
        lemma_lex_quoted_of_escaped(c.drop_first(), rest);
        assert(escape_quotes(c) == seq![c[0]] + escape_quotes(c.drop_first()));
        assert(s[0] == c[0]);
        assert(s[0] != '"');
        assert(s.drop_first() =~= escape_quotes(c.drop_first()) + seq!['"'] + rest);
        assert(seq![c[0]] + c.drop_first() =~= c);
    }
}

proof fn lemma_first_sep_of_clean(c: Seq<char>, rest: Seq<char>)
    requires
        !cell_needs_quoting(c),
        rest.len() == 0 || is_sep_char(rest[0]),
    ensures
        first_sep_index(c + rest) == c.len(),
    decreases c.len(),
{
    let s = c + rest;
    if c.len() == 0 {
        assert(s =~= rest);
    } else {
        lemma_not_contains_drop_first(c, ',');
        lemma_not_contains_drop_first(c, '"');
        lemma_not_contains_drop_first(c, '\n');
        lemma_not_contains_drop_first(c, '\r');
        assert(s[0] == c[0]);
        assert(!is_sep_char(s[0]));
        assert(s.drop_first() =~= c.drop_first() + rest);
        lemma_first_sep_of_clean(c.drop_first(), rest);
    }
}

proof fn lemma_lex_cell_of_rendered(c: Seq<char>, rest: Seq<char>)
    requires
        rest.len() == 0 || is_sep_char(rest[0]),
    ensures
        lex_cell(render_cell(c) + rest) == Some((c, rest)),
{
    if cell_needs_quoting(c) {
        let s = render_cell(c) + rest;
        assert(s[0] == '"');
        assert(s.drop_first() =~= escape_quotes(c) + seq!['"'] + rest);
        lemma_lex_quoted_of_escaped(c, rest);
    } else {
        let s = c + rest;
        assert(render_cell(c) + rest =~= s);
        if s.len() > 0 {
            if c.len() > 0 {
                lemma_not_contains_drop_first(c, '"');
                assert(s[0] == c[0]);
                assert(s[0] != '"');
            } else {
                assert(s[0] == rest[0]);
                assert(is_sep_char(s[0]));
                assert(s[0] != '"');
            }
        }
        lemma_first_sep_of_clean(c, rest);
        assert(s.take(c.len() as int) =~= c);
        assert(s.skip(c.len() as int) =~= rest);
    }
}

proof fn lemma_lex_row_of_rendered(cells: Seq<Seq<char>>, rest: Seq<char>)
    requires
        cells.len() >= 1,
    ensures
        lex_row(render_row(cells) + rest) == Some((cells, rest)),
    decreases cells.len(),
{
    let s = render_row(cells) + rest;
    if cells.len() == 1 {
        let c0 = cells[0];
        assert(s =~= render_cell(c0) + (seq!['\n'] + rest));
        lemma_lex_cell_of_rendered(c0, seq!['\n'] + rest);
        let r = seq!['\n'] + rest;
        assert(r[0] == '\n');
        assert(r.drop_first() =~= rest);
        assert(seq![c0] =~= cells);
    } else {
        let c0 = cells[0];
        let tail_render = render_row(cells.drop_first()) + rest;
        assert(s =~= render_cell(c0) + (seq![','] + tail_render));
        lemma_lex_cell_of_rendered(c0, seq![','] + tail_render);
        lemma_lex_row_of_rendered(cells.drop_first(), rest);
        let r = seq![','] + tail_render;
        assert(r[0] == ',');
        assert(r.len() != 0);
        assert(r[0] != '\n');
        assert(r.len() <= s.len());
        assert(r.drop_first() =~= tail_render);
        assert(seq![c0] + cells.drop_first() =~= cells);
    }
}

proof fn lemma_render_row_len(cells: Seq<Seq<char>>)
    ensures
        render_row(cells).len() >= 1,
    decreases cells.len(),
{
    if cells.len() >= 2 {
        lemma_render_row_len(cells.drop_first());
    }
}

/// Writing rows and reading them back yields the same rows: the quoting
/// discipline loses nothing, whatever the cells hold.
pub proof fn lemma_lex_rows_of_rendered(rows: Seq<Seq<Seq<char>>>)
    requires
        forall|i: int| 0 <= i < rows.len() ==> (#[trigger] rows[i]).len() >= 1,
    ensures
        lex_rows(render_rows(rows)) == Ok::<Seq<Seq<Seq<char>>>, int>(rows),
    decreases rows.len(),
{
    if rows.len() == 0 {
        assert(render_rows(rows) =~= Seq::<char>::empty());
        assert(rows =~= Seq::<Seq<Seq<char>>>::empty());
        assert(lex_rows(render_rows(rows)) == Ok::<Seq<Seq<Seq<char>>>, int>(rows));
    } else {
        let s = render_rows(rows);
        assert(s == render_row(rows[0]) + render_rows(rows.drop_first()));
        assert(rows[0].len() >= 1);
        assert forall|i: int| 0 <= i < rows.drop_first().len() implies (#[trigger] rows.drop_first(
        )[i]).len() >= 1 by {
            assert(rows.drop_first()[i] == rows[i + 1]);
        }
        lemma_lex_row_of_rendered(rows[0], render_rows(rows.drop_first()));
        lemma_lex_rows_of_rendered(rows.drop_first());
        lemma_render_row_len(rows[0]);
        assert(s.len() >= 1);
        assert(render_rows(rows.drop_first()).len() < s.len());
        assert(lex_row(s) == Some::<(Seq<Seq<char>>, Seq<char>)>((
            rows[0],
            render_rows(rows.drop_first()),
        )));
        assert(lex_rows(render_rows(rows.drop_first())) == Ok::<Seq<Seq<Seq<char>>>, int>(
            rows.drop_first(),
        ));
        assert(lex_rows(s) == Ok::<Seq<Seq<Seq<char>>>, int>(seq![rows[0]] + rows.drop_first()));
        assert(seq![rows[0]] + rows.drop_first() =~= rows);
    }
}

proof fn lemma_escape_append(a: Seq<char>, b: Seq<char>)
    ensures
        escape_quotes(a + b) == escape_quotes(a) + escape_quotes(b),
    decreases a.len(),
{
    if a.len() == 0 {
        assert(a + b =~= b);
        assert(escape_quotes(a) + escape_quotes(b) =~= escape_quotes(b));
    } else {
        let s = a + b;
        assert(s[0] == a[0]);
        assert(s.drop_first() =~= a.drop_first() + b);
        lemma_escape_append(a.drop_first(), b);
        if a[0] == '"' {
            assert(escape_quotes(s) == seq!['"', '"'] + (escape_quotes(a.drop_first())
                + escape_quotes(b)));
            assert(seq!['"', '"'] + (escape_quotes(a.drop_first()) + escape_quotes(b)) =~= (seq![
                '"',
                '"',
            ] + escape_quotes(a.drop_first())) + escape_quotes(b));
        } else {
            assert(escape_quotes(s) == seq![a[0]] + (escape_quotes(a.drop_first())
                + escape_quotes(b)));
            assert(seq![a[0]] + (escape_quotes(a.drop_first()) + escape_quotes(b)) =~= (seq![a[0]]
                + escape_quotes(a.drop_first())) + escape_quotes(b));
        }
    }
}

/// Renders one cell, quoting it when needed.
fn render_cell_string(s: &str) -> (r: String)
    ensures
        r@ == render_cell(s@),
{
    let v = chars_of(s);
    let mut quote: bool = false;
    let mut i: usize = 0;
    while i < v.len()
        invariant
            i <= v@.len(),
            v@ == s@,
            !quote ==> forall|k: int|
                0 <= k < i ==> !(v@[k] == ',' || v@[k] == '"' || v@[k] == '\n' || v@[k] == '\r'),
            quote ==> cell_needs_quoting(s@),
        decreases v@.len() - i,
    {
        let c = v[i];
        if c == ',' || c == '"' || c == '\n' || c == '\r' {
            proof {
                assert(v@.contains(v@[i as int]));
            }
            quote = true;
        }
        i += 1;
    }
    if !quote {
        proof {
            if v@.contains(',') {
                let k = choose|k: int| 0 <= k < v@.len() && v@[k] == ',';
                assert(false);
            }
            if v@.contains('"') {
                let k = choose|k: int| 0 <= k < v@.len() && v@[k] == '"';
                assert(false);
            }
            if v@.contains('\n') {
                let k = choose|k: int| 0 <= k < v@.len() && v@[k] == '\n';
                assert(false);
            }
            if v@.contains('\r') {
                let k = choose|k: int| 0 <= k < v@.len() && v@[k] == '\r';
                assert(false);
            }
            assert(!cell_needs_quoting(s@));
        }
        return string_of(&v);
    }
    let mut out = String::new();
    push_char(&mut out, '"');
    let mut i: usize = 0;
    while i < v.len()
        invariant
            i <= v@.len(),
            v@ == s@,
            out@ == seq!['"'] + escape_quotes(v@.take(i as int)),
        decreases v@.len() - i,
    {
        let c = v[i];
        let ghost pre = v@.take(i as int);
        proof {
            assert(v@.take(i as int + 1) =~= pre + seq![v@[i as int]]);
            lemma_escape_append(pre, seq![v@[i as int]]);
            assert(seq![v@[i as int]].drop_first() =~= Seq::<char>::empty());
            assert(seq![v@[i as int]][0] == v@[i as int]);
            assert(escape_quotes(Seq::<char>::empty()) == Seq::<char>::empty());
            if v@[i as int] == '"' {
                assert(escape_quotes(seq![v@[i as int]]) =~= seq!['"', '"']);
            } else {
                assert(escape_quotes(seq![v@[i as int]]) =~= seq![v@[i as int]]);
            }
        }
        if c == '"' {
            push_char(&mut out, '"');
            push_char(&mut out, '"');
        } else {
            push_char(&mut out, c);
        }
        i += 1;
        proof {
            assert(out@ =~= seq!['"'] + escape_quotes(v@.take(i as int)));
        }
    }
    push_char(&mut out, '"');
    proof {
        assert(v@.take(v@.len() as int) =~= v@);
        assert(out@ =~= seq!['"'] + escape_quotes(s@) + seq!['"']);
    }
    out
}

/// Reads all data rows against the column map; an error carries the
/// one-based index of the first bad data row.
pub open spec fn spec_parse_rows(cm: ColumnMapModel, rows: Seq<Seq<Seq<char>>>) -> Result<
    Seq<RecordModel>,
    (int, ParseCause),
>
    decreases rows.len(),
{
    if rows.len() == 0 {
        Ok(Seq::empty())
    } else {
        match spec_parse_record(cm, rows[0]) {
            Err(c) => Err((1, c)),
            Ok(r) => match spec_parse_rows(cm, rows.drop_first()) {
                Ok(rs) => Ok(seq![r] + rs),
                Err((k, c)) => Err((k + 1, c)),
            },
        }
    }
}

/// The whole parse: split into rows, map the header, read every data row,
/// then deduplicate by identity keeping first occurrences. All-or-nothing:
/// any malformed row fails the parse with its exact row number.
pub open spec fn spec_parse_doc(s: Seq<char>) -> Result<Seq<RecordModel>, CsvError> {
    match lex_rows(s) {
        Err(k) => {
            if k == 0 {
                Err(CsvError::Header { cause: ParseCause::BadQuoting })
            } else {
                Err(CsvError::Row { row_number: k as usize, cause: ParseCause::BadQuoting })
            }
        },
        Ok(rows) => {
            if rows.len() == 0 {
                Err(CsvError::Header { cause: ParseCause::MissingHeader })
            } else {
                let cm = spec_column_map(rows[0]);
                match spec_parse_rows(cm, rows.drop_first()) {
                    Err((k, c)) => Err(CsvError::Row { row_number: k as usize, cause: c }),
                    Ok(rs) => Ok(dedup_first(rs)),
                }
            }
        },
    }
}

proof fn lemma_parse_rows_suffix_step(
    cm: ColumnMapModel,
    data: Seq<Seq<Seq<char>>>,
    i: int,
)
    requires
        0 <= i < data.len(),
    ensures
        spec_parse_rows(cm, data.skip(i)) == (match spec_parse_record(cm, data[i]) {
            Err(c) => Err::<Seq<RecordModel>, (int, ParseCause)>((1, c)),
            Ok(r) => match spec_parse_rows(cm, data.skip(i + 1)) {
                Ok(rs) => Ok::<Seq<RecordModel>, (int, ParseCause)>(seq![r] + rs),
                Err((k, c)) => Err::<Seq<RecordModel>, (int, ParseCause)>((k + 1, c)),
            },
        }),
{
    assert(data.skip(i).len() > 0);
    assert(data.skip(i)[0] == data[i]);
    assert(data.skip(i).drop_first() =~= data.skip(i + 1));
}

/// Reads the whole input into a dataset. The result is exactly the
/// document parse: every data row well formed, duplicate identities
/// dropped keeping the first occurrence; any malformed row fails the whole
/// parse with its row number, counting from one after the header.
pub fn parse_csv_str(input: &str) -> (r: Result<Vec<TileInventory>, CsvError>)
    ensures
        match r {
            Ok(v) => {
                &&& spec_parse_doc(input@) == Ok::<Seq<RecordModel>, CsvError>(dataset_model(v@))
                &&& dataset_valid(dataset_model(v@))
                &&& unique_identities(dataset_model(v@))
            },
            Err(e) => spec_parse_doc(input@) == Err::<Seq<RecordModel>, CsvError>(e),
        },
{
    let chars = chars_of(input);
    let rows = match lex_all_rows(&chars) {
        Err(k) => {
            if k == 0 {
                return Err(CsvError::Header { cause: ParseCause::BadQuoting });
            } else {
                return Err(CsvError::Row { row_number: k, cause: ParseCause::BadQuoting });
            }
        },
        Ok(rows) => rows,
    };
    if rows.len() == 0 {
        return Err(CsvError::Header { cause: ParseCause::MissingHeader });
    }
    let ghost rowsm = rows_model(rows@);
    proof {
        assert(rowsm[0] == cells_model(rows@[0]@));
    }
    let cm = build_column_map(&rows[0]);
    proof {
        lemma_column_map_in_bounds(rowsm[0]);
    }
    let ghost data = rowsm.drop_first();
    let mut out: Vec<TileInventory> = Vec::new();
    let ghost mut parsed: Seq<RecordModel> = Seq::empty();
    let mut idx: usize = 1;
    proof {
        assert(data.skip(0) =~= data);
        assert(dataset_model(out@) =~= dedup_first(parsed));
    }
    while idx < rows.len()
        invariant
            1 <= idx <= rows@.len(),
            rowsm == rows_model(rows@),
            rowsm.len() == rows@.len(),
            lex_rows(input@) == Ok::<Seq<Seq<Seq<char>>>, int>(rowsm),
            cm@ == spec_column_map(rowsm[0]),
            col_map_in_bounds(cm@),
            data == rowsm.drop_first(),
            parsed.len() == idx - 1,
            match spec_parse_rows(cm@, data.skip(idx - 1)) {
                Ok(rs) => spec_parse_rows(cm@, data) == Ok::<Seq<RecordModel>, (int, ParseCause)>(
                    parsed + rs,
                ),
                Err((k, c)) => spec_parse_rows(cm@, data) == Err::<Seq<RecordModel>, (
                    int,
                    ParseCause,
                )>((k + idx - 1, c)),
            },
            dataset_model(out@) == dedup_first(parsed),
            dataset_valid(parsed),
        decreases rows@.len() - idx,
    {
        let row = &rows[idx];
        proof {
            assert(data[idx - 1] == rowsm[idx as int]);
            assert(rowsm[idx as int] == cells_model(rows@[idx as int]@));
            lemma_parse_rows_suffix_step(cm@, data, idx - 1);
        }
        match parse_record_row(&cm, row) {
            Err(c) => {
                proof {
                    assert(spec_parse_rows(cm@, data.skip(idx - 1)) == Err::<Seq<RecordModel>, (
                        int,
                        ParseCause,
                    )>((1, c)));
                    assert(spec_parse_rows(cm@, data) == Err::<Seq<RecordModel>, (
                        int,
                        ParseCause,
                    )>((idx as int, c)));
                    assert(spec_parse_doc(input@) == Err::<Seq<RecordModel>, CsvError>(
                        CsvError::Row { row_number: idx, cause: c },
                    ));
                }
                return Err(CsvError::Row { row_number: idx, cause: c });
            },
            Ok(rec) => {
                let ghost parsed0 = parsed;
                proof {
                    parsed = parsed.push(rec@);
                    assert(parsed.drop_last() =~= parsed0);
                    assert(parsed.last() == rec@);
                    lemma_parse_record_valid(cm@, data[idx - 1]);
                    assert forall|q: int| 0 <= q < parsed.len() implies record_valid(
                        #[trigger] parsed[q],
                    ) by {
                        if q < parsed.len() - 1 {
                            assert(parsed[q] == parsed0[q]);
                        }
                    }
                    match spec_parse_rows(cm@, data.skip(idx as int)) {
                        Ok(rs) => {
                            assert(parsed0 + (seq![rec@] + rs) =~= parsed + rs);
                        },
                        Err((k, c)) => {},
                    }
                }
                let ident = rec.identity();
                proof {
                    lemma_dedup_first_contains(parsed0, ident@);
                }
                match find_by_identity(&out, &ident) {
                    Some(j) => {
                        proof {
                            assert(identity_of(dataset_model(out@)[j as int]) == ident@);
                            assert(contains_identity(dataset_model(out@), ident@));
                            assert(contains_identity(parsed0, ident@));
                            assert(dataset_model(out@) == dedup_first(parsed));
                        }
                    },
                    None => {
                        out.push(rec);
                        proof {
                            assert(!contains_identity(parsed0, ident@));
                            assert(dataset_model(out@) =~= dedup_first(parsed0).push(rec@));
                            assert(dataset_model(out@) == dedup_first(parsed));
                        }
                    },
                }
                idx += 1;
            },
        }
    }
    proof {
        assert(data.skip(idx - 1).len() == 0);
        assert(data.skip(idx - 1) =~= Seq::<Seq<Seq<char>>>::empty());
        assert(spec_parse_rows(cm@, data.skip(idx - 1)) == Ok::<Seq<RecordModel>, (
            int,
            ParseCause,
        )>(Seq::empty()));
        assert(parsed + Seq::<RecordModel>::empty() =~= parsed);
        assert(spec_parse_rows(cm@, data) == Ok::<Seq<RecordModel>, (int, ParseCause)>(parsed));
        lemma_dedup_first_unique(parsed);
    }
    Ok(out)
}

/// The fixed header, in column order.
pub open spec fn header_cells() -> Seq<Seq<char>> {
    seq![
        "ID"@,
        "Street Sign"@,
        "Street Address"@,
        "Sign Condition"@,
        "Number of Tiles Damaged"@,
        "Photo 1"@,
        "Photo 2"@,
        "Photo 3"@,
        "Photo 4"@,
        "Photo 5"@,
        "latitude"@,
        "longitude"@,
    ]
}

pub open spec fn opt_cell_of(o: Option<Seq<char>>) -> Seq<char> {
    match o {
        Some(t) => t,
        None => Seq::empty(),
    }
}

pub open spec fn num_cell_of(o: Option<u32>) -> Seq<char> {
    match o {
        Some(n) => u32_numeral(n as int),
        None => Seq::empty(),
    }
}

/// The cells of one record, in column order; absent optional fields write
/// as empty cells.
pub open spec fn render_record(r: RecordModel) -> Seq<Seq<char>> {
    seq![
        u32_numeral(r.id as int),
        r.street_sign,
        r.street_address,
        opt_cell_of(r.sign_condition),
        num_cell_of(r.number_of_tiles_damaged),
        opt_cell_of(r.photo_1),
        opt_cell_of(r.photo_2),
        opt_cell_of(r.photo_3),
        opt_cell_of(r.photo_4),
        opt_cell_of(r.photo_5),
        opt_cell_of(r.latitude),
        opt_cell_of(r.longitude),
    ]
}

pub open spec fn render_records(d: Seq<RecordModel>) -> Seq<Seq<Seq<char>>> {
    d.map_values(|r: RecordModel| render_record(r))
}

/// The whole written document: the fixed header, then one row per record
/// in dataset order.
pub open spec fn spec_write_doc(d: Seq<RecordModel>) -> Seq<char> {
    render_rows(seq![header_cells()] + render_records(d))
}

proof fn lemma_render_rows_push(rows: Seq<Seq<Seq<char>>>, row: Seq<Seq<char>>)
    ensures
        render_rows(rows.push(row)) == render_rows(rows) + render_row(row),
    decreases rows.len(),
{
    if rows.len() == 0 {
        assert(rows.push(row).drop_first() =~= rows);
        assert(rows.push(row)[0] == row);
        assert(render_rows(rows.push(row)) == render_row(row) + render_rows(rows));
        assert(render_row(row) + Seq::<char>::empty() =~= render_row(row));
        assert(Seq::<char>::empty() + render_row(row) =~= render_row(row));
    } else {
        assert(rows.push(row).drop_first() =~= rows.drop_first().push(row));
        assert(rows.push(row)[0] == rows[0]);
        lemma_render_rows_push(rows.drop_first(), row);
        assert(render_row(rows[0]) + (render_rows(rows.drop_first()) + render_row(row)) =~= (
        render_row(rows[0]) + render_rows(rows.drop_first())) + render_row(row));
    }
}

fn opt_string(o: &Option<String>) -> (r: String)
    ensures
        r@ == opt_cell_of(o.deep_view()),
{
    match o {
        Some(s) => s.clone(),
        None => String::new(),
    }
}

fn opt_num_string(o: &Option<u32>) -> (r: String)
    ensures
        r@ == num_cell_of(*o),
{
    match o {
        Some(n) => u32_to_string(*n),
        None => String::new(),
    }
}

/// The cells of one record, as owned strings.
fn record_cells(rec: &TileInventory) -> (r: Vec<String>)
    ensures
        cells_model(r@) == render_record(rec@),
        r@.len() == 12,
{
    let mut v: Vec<String> = Vec::new();
    v.push(u32_to_string(rec.id));
    v.push(rec.street_sign.clone());
    v.push(rec.street_address.clone());
    v.push(opt_string(&rec.sign_condition));
    v.push(opt_num_string(&rec.number_of_tiles_damaged));
    v.push(opt_string(&rec.photo_1));
    v.push(opt_string(&rec.photo_2));
    v.push(opt_string(&rec.photo_3));
    v.push(opt_string(&rec.photo_4));
    v.push(opt_string(&rec.photo_5));
    v.push(opt_string(&rec.latitude));
    v.push(opt_string(&rec.longitude));
    proof {
        assert(cells_model(v@) =~= render_record(rec@));
    }
    v
}

/// Writes the dataset as tabular text: the fixed header, then one row per
/// record in order, optional absent fields as empty cells, coordinates
/// exactly as stored.
pub fn write_csv_str(inventory: &Vec<TileInventory>) -> (r: String)
    ensures
        r@ == spec_write_doc(dataset_model(inventory@)),
{
    let mut header: Vec<String> = Vec::new();
    header.push(String::from_str("ID"));
    header.push(String::from_str("Street Sign"));
    header.push(String::from_str("Street Address"));
    header.push(String::from_str("Sign Condition"));
    header.push(String::from_str("Number of Tiles Damaged"));
    header.push(String::from_str("Photo 1"));
    header.push(String::from_str("Photo 2"));
    header.push(String::from_str("Photo 3"));
    header.push(String::from_str("Photo 4"));
    header.push(String::from_str("Photo 5"));
    header.push(String::from_str("latitude"));
    header.push(String::from_str("longitude"));
    proof {
        assert(cells_model(header@) =~= header_cells());
    }
    let mut out = render_row_string(&header, 0);
    let ghost d = dataset_model(inventory@);
    proof {
        assert(cells_model(header@).skip(0) =~= header_cells());
        assert(seq![header_cells()].len() == 1);
        assert(seq![header_cells()][0] == header_cells());
        assert(seq![header_cells()].drop_first() =~= Seq::<Seq<Seq<char>>>::empty());
        assert(render_rows(Seq::<Seq<Seq<char>>>::empty()) == Seq::<char>::empty());
        assert(render_rows(seq![header_cells()]) == render_row(header_cells()) + render_rows(
            seq![header_cells()].drop_first(),
        ));
        assert(render_row(header_cells()) + Seq::<char>::empty() =~= render_row(header_cells()));
        assert(seq![header_cells()] + render_records(d.take(0)) =~= seq![header_cells()]);
    }
    let mut i: usize = 0;
    while i < inventory.len()
        invariant
            i <= inventory@.len(),
            d == dataset_model(inventory@),
            d.len() == inventory@.len(),
            out@ == render_rows(seq![header_cells()] + render_records(d.take(i as int))),
        decreases inventory@.len() - i,
    {
        let cells = record_cells(&inventory[i]);
        let row_text = render_row_string(&cells, 0);
        out.append(row_text.as_str());
        proof {
            assert(cells_model(cells@).skip(0) =~= cells_model(cells@));
            assert(d[i as int] == inventory@[i as int]@);
            assert(row_text@ == render_row(render_record(d[i as int])));
            let ghost prev = seq![header_cells()] + render_records(d.take(i as int));
            let ghost next = seq![header_cells()] + render_records(d.take(i as int + 1));
            assert(next =~= prev.push(render_record(d[i as int])));
            lemma_render_rows_push(prev, render_record(d[i as int]));
        }
        i += 1;
    }
    proof {
        assert(d.take(d.len() as int) =~= d);
    }
    out
}

#[verifier::rlimit(100)]
proof fn lemma_header_column_map()
    ensures
        spec_column_map(header_cells()) == (ColumnMapModel {
            arity: 12,
            id: Some(0),
            street_sign: Some(1),
            street_address: Some(2),
            sign_condition: Some(3),
            number_of_tiles_damaged: Some(4),
            photo_1: Some(5),
            photo_2: Some(6),
            photo_3: Some(7),
            photo_4: Some(8),
            photo_5: Some(9),
            latitude: Some(10),
            longitude: Some(11),
        }),
{
    let h = header_cells();
    reveal_strlit("ID");
    reveal_strlit("Street Sign");
    reveal_strlit("Street Address");
    reveal_strlit("Sign Condition");
    reveal_strlit("Number of Tiles Damaged");
    reveal_strlit("Photo 1");
    reveal_strlit("Photo 2");
    reveal_strlit("Photo 3");
    reveal_strlit("Photo 4");
    reveal_strlit("Photo 5");
    reveal_strlit("latitude");
    reveal_strlit("longitude");
    assert("ID"@.len() == 2);
    assert("Street Sign"@.len() == 11);
    assert("Street Address"@.len() == 14);
    assert("Sign Condition"@.len() == 14);
    assert("Number of Tiles Damaged"@.len() == 23);
    assert("Photo 1"@.len() == 7);
    assert("Photo 2"@.len() == 7);
    assert("Photo 3"@.len() == 7);
    assert("Photo 4"@.len() == 7);
    assert("Photo 5"@.len() == 7);
    assert("latitude"@.len() == 8);
    assert("longitude"@.len() == 9);
    assert(h.len() == 12);
    assert(h[0] == "ID"@);
    assert(h[1] == "Street Sign"@);
    assert(h[2] == "Street Address"@);
    assert(h[3] == "Sign Condition"@);
    assert(h[4] == "Number of Tiles Damaged"@);
    assert(h[5] == "Photo 1"@);
    assert(h[6] == "Photo 2"@);
    assert(h[7] == "Photo 3"@);
    assert(h[8] == "Photo 4"@);
    assert(h[9] == "Photo 5"@);
    assert(h[10] == "latitude"@);
    assert(h[11] == "longitude"@);
    assert(("Street Address")@ != ("Sign Condition")@) by {
        assert(("Street Address")@[1] != ("Sign Condition")@[1]);
    }
    assert(("Photo 1")@ != ("Photo 2")@) by {
        assert(("Photo 1")@[6] != ("Photo 2")@[6]);
    }
    assert(("Photo 1")@ != ("Photo 3")@) by {
        assert(("Photo 1")@[6] != ("Photo 3")@[6]);
    }
    assert(("Photo 1")@ != ("Photo 4")@) by {
        assert(("Photo 1")@[6] != ("Photo 4")@[6]);
    }
    assert(("Photo 1")@ != ("Photo 5")@) by {
        assert(("Photo 1")@[6] != ("Photo 5")@[6]);
    }
    assert(("Photo 2")@ != ("Photo 3")@) by {
        assert(("Photo 2")@[6] != ("Photo 3")@[6]);
    }
    assert(("Photo 2")@ != ("Photo 4")@) by {
        assert(("Photo 2")@[6] != ("Photo 4")@[6]);
    }
    assert(("Photo 2")@ != ("Photo 5")@) by {
        assert(("Photo 2")@[6] != ("Photo 5")@[6]);
    }
    assert(("Photo 3")@ != ("Photo 4")@) by {
        assert(("Photo 3")@[6] != ("Photo 4")@[6]);
    }
    assert(("Photo 3")@ != ("Photo 5")@) by {
        assert(("Photo 3")@[6] != ("Photo 5")@[6]);
    }
    assert(("Photo 4")@ != ("Photo 5")@) by {
        assert(("Photo 4")@[6] != ("Photo 5")@[6]);
    }
    lemma_find_column_char(h, "ID"@);
    match spec_find_column(h, "ID"@) {
        None => {
            assert(h[0] == "ID"@);
            assert(false);
        },
        Some(i) => {
            if i > 0 {
                assert(h[0] != "ID"@);
                assert(false);
            } else if i < 0 {
                assert(false);
            }
        },
    }
    lemma_find_column_char(h, "Street Sign"@);
    match spec_find_column(h, "Street Sign"@) {
        None => {
            assert(h[1] == "Street Sign"@);
            assert(false);
        },
        Some(i) => {
            if i > 1 {
                assert(h[1] != "Street Sign"@);
                assert(false);
            } else if i < 1 {
                if i == 0 {
                    assert(h[0] != "Street Sign"@);
                }
                assert(false);
            }
        },
    }
    lemma_find_column_char(h, "Street Address"@);
    match spec_find_column(h, "Street Address"@) {
        None => {
            assert(h[2] == "Street Address"@);
            assert(false);
        },
        Some(i) => {
            if i > 2 {
                assert(h[2] != "Street Address"@);
                assert(false);
            } else if i < 2 {
                if i == 0 {
                    assert(h[0] != "Street Address"@);
                } else if i == 1 {
                    assert(h[1] != "Street Address"@);
                }
                assert(false);
            }
        },
    }
    lemma_find_column_char(h, "Sign Condition"@);
    match spec_find_column(h, "Sign Condition"@) {
        None => {
            assert(h[3] == "Sign Condition"@);
            assert(false);
        },
        Some(i) => {
            if i > 3 {
                assert(h[3] != "Sign Condition"@);
                assert(false);
            } else if i < 3 {
                if i == 0 {
                    assert(h[0] != "Sign Condition"@);
                } else if i == 1 {
                    assert(h[1] != "Sign Condition"@);
                } else if i == 2 {
                    assert(h[2] != "Sign Condition"@);
                }
                assert(false);
            }
        },
    }
    lemma_find_column_char(h, "Number of Tiles Damaged"@);
    match spec_find_column(h, "Number of Tiles Damaged"@) {
        None => {
            assert(h[4] == "Number of Tiles Damaged"@);
            assert(false);
        },
        Some(i) => {
            if i > 4 {
                assert(h[4] != "Number of Tiles Damaged"@);
                assert(false);
            } else if i < 4 {
                if i == 0 {
                    assert(h[0] != "Number of Tiles Damaged"@);
                } else if i == 1 {
                    assert(h[1] != "Number of Tiles Damaged"@);
                } else if i == 2 {
                    assert(h[2] != "Number of Tiles Damaged"@);
                } else if i == 3 {
                    assert(h[3] != "Number of Tiles Damaged"@);
                }
                assert(false);
            }
        },
    }
    lemma_find_column_char(h, "Photo 1"@);
    match spec_find_column(h, "Photo 1"@) {
        None => {
            assert(h[5] == "Photo 1"@);
            assert(false);
        },
        Some(i) => {
            if i > 5 {
                assert(h[5] != "Photo 1"@);
                assert(false);
            } else if i < 5 {
                if i == 0 {
                    assert(h[0] != "Photo 1"@);
                } else if i == 1 {
                    assert(h[1] != "Photo 1"@);
                } else if i == 2 {
                    assert(h[2] != "Photo 1"@);
                } else if i == 3 {
                    assert(h[3] != "Photo 1"@);
                } else if i == 4 {
                    assert(h[4] != "Photo 1"@);
                }
                assert(false);
            }
        },
    }
    lemma_find_column_char(h, "Photo 2"@);
    match spec_find_column(h, "Photo 2"@) {
        None => {
            assert(h[6] == "Photo 2"@);
            assert(false);
        },
        Some(i) => {
            if i > 6 {
                assert(h[6] != "Photo 2"@);
                assert(false);
            } else if i < 6 {
                if i == 0 {
                    assert(h[0] != "Photo 2"@);
                } else if i == 1 {
                    assert(h[1] != "Photo 2"@);
                } else if i == 2 {
                    assert(h[2] != "Photo 2"@);
                } else if i == 3 {
                    assert(h[3] != "Photo 2"@);
                } else if i == 4 {
                    assert(h[4] != "Photo 2"@);
                } else if i == 5 {
                    assert(h[5] != "Photo 2"@);
                }
                assert(false);
            }
        },
    }
    lemma_find_column_char(h, "Photo 3"@);
    match spec_find_column(h, "Photo 3"@) {
        None => {
            assert(h[7] == "Photo 3"@);
            assert(false);
        },
        Some(i) => {
            if i > 7 {
                assert(h[7] != "Photo 3"@);
                assert(false);
            } else if i < 7 {
                if i == 0 {
                    assert(h[0] != "Photo 3"@);
                } else if i == 1 {
                    assert(h[1] != "Photo 3"@);
                } else if i == 2 {
                    assert(h[2] != "Photo 3"@);
                } else if i == 3 {
                    assert(h[3] != "Photo 3"@);
                } else if i == 4 {
                    assert(h[4] != "Photo 3"@);
                } else if i == 5 {
                    assert(h[5] != "Photo 3"@);
                } else if i == 6 {
                    assert(h[6] != "Photo 3"@);
                }
                assert(false);
            }
        },
    }
    lemma_find_column_char(h, "Photo 4"@);
    match spec_find_column(h, "Photo 4"@) {
        None => {
            assert(h[8] == "Photo 4"@);
            assert(false);
        },
        Some(i) => {
            if i > 8 {
                assert(h[8] != "Photo 4"@);
                assert(false);
            } else if i < 8 {
                if i == 0 {
                    assert(h[0] != "Photo 4"@);
                } else if i == 1 {
                    assert(h[1] != "Photo 4"@);
                } else if i == 2 {
                    assert(h[2] != "Photo 4"@);
                } else if i == 3 {
                    assert(h[3] != "Photo 4"@);
                } else if i == 4 {
                    assert(h[4] != "Photo 4"@);
                } else if i == 5 {
                    assert(h[5] != "Photo 4"@);
                } else if i == 6 {
                    assert(h[6] != "Photo 4"@);
                } else if i == 7 {
                    assert(h[7] != "Photo 4"@);
                }
                assert(false);
            }
        },
    }
    lemma_find_column_char(h, "Photo 5"@);
    match spec_find_column(h, "Photo 5"@) {
        None => {
            assert(h[9] == "Photo 5"@);
            assert(false);
        },
        Some(i) => {
            if i > 9 {
                assert(h[9] != "Photo 5"@);
                assert(false);
            } else if i < 9 {
                if i == 0 {
                    assert(h[0] != "Photo 5"@);
                } else if i == 1 {
                    assert(h[1] != "Photo 5"@);
                } else if i == 2 {
                    assert(h[2] != "Photo 5"@);
                } else if i == 3 {
                    assert(h[3] != "Photo 5"@);
                } else if i == 4 {
                    assert(h[4] != "Photo 5"@);
                } else if i == 5 {
                    assert(h[5] != "Photo 5"@);
                } else if i == 6 {
                    assert(h[6] != "Photo 5"@);
                } else if i == 7 {
                    assert(h[7] != "Photo 5"@);
                } else if i == 8 {
                    assert(h[8] != "Photo 5"@);
                }
                assert(false);
            }
        },
    }
    lemma_find_column_char(h, "latitude"@);
    match spec_find_column(h, "latitude"@) {
        None => {
            assert(h[10] == "latitude"@);
            assert(false);
        },
        Some(i) => {
            if i > 10 {
                assert(h[10] != "latitude"@);
                assert(false);
            } else if i < 10 {
                if i == 0 {
                    assert(h[0] != "latitude"@);
                } else if i == 1 {
                    assert(h[1] != "latitude"@);
                } else if i == 2 {
                    assert(h[2] != "latitude"@);
                } else if i == 3 {
                    assert(h[3] != "latitude"@);
                } else if i == 4 {
                    assert(h[4] != "latitude"@);
                } else if i == 5 {
                    assert(h[5] != "latitude"@);
                } else if i == 6 {
                    assert(h[6] != "latitude"@);
                } else if i == 7 {
                    assert(h[7] != "latitude"@);
                } else if i == 8 {
                    assert(h[8] != "latitude"@);
                } else if i == 9 {
                    assert(h[9] != "latitude"@);
                }
                assert(false);
            }
        },
    }
    lemma_find_column_char(h, "longitude"@);
    match spec_find_column(h, "longitude"@) {
        None => {
            assert(h[11] == "longitude"@);
            assert(false);
        },
        Some(i) => {
            if i > 11 {
                assert(h[11] != "longitude"@);
                assert(false);
            } else if i < 11 {
                if i == 0 {
                    assert(h[0] != "longitude"@);
                } else if i == 1 {
                    assert(h[1] != "longitude"@);
                } else if i == 2 {
                    assert(h[2] != "longitude"@);
                } else if i == 3 {
                    assert(h[3] != "longitude"@);
                } else if i == 4 {
                    assert(h[4] != "longitude"@);
                } else if i == 5 {
                    assert(h[5] != "longitude"@);
                } else if i == 6 {
                    assert(h[6] != "longitude"@);
                } else if i == 7 {
                    assert(h[7] != "longitude"@);
                } else if i == 8 {
                    assert(h[8] != "longitude"@);
                } else if i == 9 {
                    assert(h[9] != "longitude"@);
                } else if i == 10 {
                    assert(h[10] != "longitude"@);
                }
                assert(false);
            }
        },
    }

    assert(spec_column_map(h) =~= (ColumnMapModel {
        arity: 12,
        id: Some(0),
        street_sign: Some(1),
        street_address: Some(2),
        sign_condition: Some(3),
        number_of_tiles_damaged: Some(4),
        photo_1: Some(5),
        photo_2: Some(6),
        photo_3: Some(7),
        photo_4: Some(8),
        photo_5: Some(9),
        latitude: Some(10),
        longitude: Some(11),
    }));
}

proof fn lemma_decimal_nonempty(t: Seq<char>)
    requires
        is_decimal_chars(t),
    ensures
        t.len() > 0,
{
    if t.len() == 0 {
        assert(!scan_decimal(t, false, false));
    }
}

proof fn lemma_parse_record_of_rendered(r: RecordModel)
    requires
        record_valid(r),
    ensures
        spec_parse_record(spec_column_map(header_cells()), render_record(r)) == Ok::<
            RecordModel,
            ParseCause,
        >(r),
{
    lemma_header_column_map();
    let cm = spec_column_map(header_cells());
    let row = render_record(r);
    assert(row.len() == 12);
    lemma_u32_numeral_wf(r.id as int);
    assert(row[0] == u32_numeral(r.id as int));
    assert(is_u32_numeral(row[0]));
    assert(u32_value(row[0]) == r.id as int);
    match r.number_of_tiles_damaged {
        Some(n) => {
            lemma_u32_numeral_wf(n as int);
            assert(row[4] == u32_numeral(n as int));
        },
        None => {
            assert(row[4].len() == 0);
        },
    }
    match r.latitude {
        Some(t) => {
            lemma_decimal_nonempty(t);
        },
        None => {},
    }
    match r.longitude {
        Some(t) => {
            lemma_decimal_nonempty(t);
        },
        None => {},
    }
    match spec_parse_record(cm, row) {
        Ok(out) => {
            assert(out =~= r);
        },
        Err(c) => {
            assert(false);
        },
    }
}

proof fn lemma_parse_rows_of_rendered(d: Seq<RecordModel>)
    requires
        dataset_valid(d),
    ensures
        spec_parse_rows(spec_column_map(header_cells()), render_records(d)) == Ok::<
            Seq<RecordModel>,
            (int, ParseCause),
        >(d),
    decreases d.len(),
{
    let cm = spec_column_map(header_cells());
    let rows = render_records(d);
    if d.len() == 0 {
        assert(rows.len() == 0);
        assert(d =~= Seq::<RecordModel>::empty());
    } else {
        assert(rows[0] == render_record(d[0]));
        lemma_parse_record_of_rendered(d[0]);
        assert forall|i: int| 0 <= i < d.drop_first().len() implies record_valid(
            #[trigger] d.drop_first()[i],
        ) by {
            assert(d.drop_first()[i] == d[i + 1]);
        }
        lemma_parse_rows_of_rendered(d.drop_first());
        assert(rows.drop_first() =~= render_records(d.drop_first()));
        assert(seq![d[0]] + d.drop_first() =~= d);
    }
}

/// Round trip: writing any well-formed dataset with unique identities and
/// parsing the result yields exactly the same dataset, record for record
/// and field for field.
pub proof fn lemma_csv_roundtrip(d: Seq<RecordModel>)
    requires
        dataset_valid(d),
        unique_identities(d),
    ensures
        spec_parse_doc(spec_write_doc(d)) == Ok::<Seq<RecordModel>, CsvError>(d),
{
    let all = seq![header_cells()] + render_records(d);
    assert forall|i: int| 0 <= i < all.len() implies (#[trigger] all[i]).len() >= 1 by {
        if i == 0 {
            assert(all[i] == header_cells());
        } else {
            assert(all[i] == render_records(d)[i - 1]);
            assert(render_records(d)[i - 1] == render_record(d[i - 1]));
        }
    }
    lemma_lex_rows_of_rendered(all);
    assert(all.len() >= 1);
    assert(all[0] == header_cells());
    assert(all.drop_first() =~= render_records(d));
    lemma_parse_rows_of_rendered(d);
    lemma_dedup_first_of_unique(d);
}

/// Renders the cells of one row from position `from` on, ending with a
/// newline.
fn render_row_string(cells: &Vec<String>, from: usize) -> (r: String)
    requires
        from < cells@.len(),
    ensures
        r@ == render_row(cells_model(cells@).skip(from as int)),
    decreases cells@.len() - from,
{
    let mut c = render_cell_string(cells[from].as_str());
    let ghost m = cells_model(cells@);
    proof {
        assert(m.skip(from as int)[0] == m[from as int]);
        assert(m[from as int] == cells@[from as int]@);
    }
    let n = cells.len();
    if from + 1 == n {
        push_char(&mut c, '\n');
        proof {
            assert(m.skip(from as int).len() == 1);
        }
        c
    } else {
        push_char(&mut c, ',');
        let rest = render_row_string(cells, from + 1);
        let out = c.concat(rest.as_str());
        proof {
            assert(m.skip(from as int).drop_first() =~= m.skip(from as int + 1));
            assert(m.skip(from as int).len() >= 2);
        }
        out
    }
}
} // verus!

//! Reading the cells of a table of strings as JSON values.

use vstd::prelude::*;
use crate::model::{lemma_first_at_unique, TableModel};
use crate::table::TableMap;

verus! {

/// `serde_json::Value`, a JSON value; carried through, never looked into.
#[verifier::external_type_specification]
#[verifier::external_body]
pub struct ExValue(serde_json::Value);

/// `serde_json::Error`, what the JSON parser says of a text that it
/// refuses; carried through, never looked into.
#[verifier::external_type_specification]
#[verifier::external_body]
pub struct ExJsonError(serde_json::Error);

/// The JSON value that a text is read as, if it is JSON.
pub uninterp spec fn parsed(text: Seq<char>) -> Option<serde_json::Value>;

/// `serde_json::from_str` for a `serde_json::Value`: the value that the
/// text is read as, or the parser's error where the text is not JSON.
#[verifier::external_body]
fn parse_json(text: &str) -> (r: Result<serde_json::Value, serde_json::Error>)
    ensures
        match r {
            Ok(v) => parsed(text@) == Some(v),
            Err(_) => parsed(text@) is None,
        },
{
    serde_json::from_str(text)
}

/// A cell that could not be read as JSON.
#[derive(Debug)]
pub struct ParseError {
    /// The row of the cell.
    pub row: usize,
    /// The key of the cell's column.
    pub key: String,
    /// What the parser said.
    pub source: serde_json::Error,
}

/// The cell is absent or holds JSON.
pub open spec fn parses(cell: Option<String>) -> bool {
    cell matches Some(s) ==> parsed(s@) is Some
}

/// The cell read as JSON; absent where it was absent.
pub open spec fn parsed_cell(cell: Option<String>) -> Option<serde_json::Value> {
    match cell {
        Some(s) => parsed(s@),
        None => None,
    }
}

/// The table of the same keys and rows with every cell read as JSON.
pub open spec fn parsed_table(t: TableModel<String>) -> TableModel<serde_json::Value> {
    TableModel {
        keys: t.keys,
        columns: Seq::new(
            t.columns.len(),
            |c: int| Seq::new(t.columns[c].len(), |r: int| parsed_cell(t.columns[c][r])),
        ),
        rows: t.rows,
    }
}

/// Every cell before row `row`, and every cell of row `row` before column
/// `c`, is absent or holds JSON.
pub open spec fn parses_before(t: TableModel<String>, row: int, c: int) -> bool {
    forall|k: int, r: int|
        0 <= k < t.columns.len() && 0 <= r < t.rows && (r < row || (r == row && k < c)) ==> parses(
            #[trigger] t.columns[k][r],
        )
}

impl TableMap<String> {
    /// Reads every cell as JSON, row by row and within a row in the order
    /// of the columns. The result has the keys and rows of this table; the
    /// first cell that is not JSON is named in the error.
    pub fn extract_json(&self) -> (r: Result<TableMap<serde_json::Value>, ParseError>)
        requires
            self.wf(),
        ensures
            match r {
                Ok(out) => out.wf() && out@ == parsed_table(self@) && parses_before(
                    self@,
                    self@.rows as int,
                    0,
                ),
                Err(e) => e.row < self@.rows && self@.has_key(e.key@) && !parses(
                    self@.columns[self@.position(e.key@)][e.row as int],
                ) && parses_before(self@, e.row as int, self@.position(e.key@)),
            },
    {
        let ghost t = self@;
        let mut out: TableMap<serde_json::Value> = self.same_keys();
        let width = self.width();
        let rows = self.len();
        let mut row: usize = 0;
        while row < rows
            invariant
                row <= rows,
                rows == t.rows,
                width == t.keys.len(),
                t == self@,
                self.wf(),
                out.wf(),
                out@.keys == t.keys,
                out@.rows == row,
                parses_before(t, row as int, 0),
                forall|k: int, r: int|
                    0 <= k < width && 0 <= r < row ==> (#[trigger] out@.columns[k][r]) == parsed_cell(
                        t.columns[k][r],
                    ),
            decreases rows - row,
        {
            out.new_entry();
            let mut c: usize = 0;
            while c < width
                invariant
                    c <= width,
                    row < rows,
                    rows == t.rows,
                    width == t.keys.len(),
                    t == self@,
                    self.wf(),
                    out.wf(),
                    out@.keys == t.keys,
                    out@.rows == row + 1,
                    parses_before(t, row as int, c as int),
                    forall|k: int, r: int|
                        0 <= k < width && 0 <= r < row ==> (#[trigger] out@.columns[k][r]) == parsed_cell(
                            t.columns[k][r],
                        ),
                    forall|k: int|
                        0 <= k < c ==> (#[trigger] out@.columns[k][row as int]) == parsed_cell(
                            t.columns[k][row as int],
                        ),
                    forall|k: int| c <= k < width ==> (#[trigger] out@.columns[k][row as int]) is None,
                decreases width - c,
            {
                let ghost before = out@;
                match self.cell_at(row, c) {
                    Some(text) => {
                        match parse_json(text.as_str()) {
                            Ok(value) => {
                                out.put_at(row, c, Some(value));
                            },
                            Err(source) => {
                                let key = self.key_at(c).clone();
                                proof {
                                    lemma_first_at_unique(t.keys, c as int);
                                }
                                return Err(ParseError { row, key, source });
                            },
                        }
                    },
                    None => {},
                }
                proof {
                    assert forall|k: int, r: int| 0 <= k < width && 0 <= r < row implies (
                    #[trigger] out@.columns[k][r]) == parsed_cell(t.columns[k][r]) by {
                        assert(out@.columns[k][r] == before.columns[k][r]);
                    }
                    assert forall|k: int| 0 <= k < c + 1 implies (#[trigger] out@.columns[k][row as int])
                        == parsed_cell(t.columns[k][row as int]) by {
                        if k < c {
                            assert(out@.columns[k][row as int] == before.columns[k][row as int]);
                        }
                    }
                    assert forall|k: int| c + 1 <= k < width implies (#[trigger] out@.columns[k][row as int]) is None by {
                        assert(out@.columns[k][row as int] == before.columns[k][row as int]);
                    }
                }
                c += 1;
            }
            row += 1;
        }
        proof {
            let goal = parsed_table(t);
            assert forall|k: int| 0 <= k < width implies (#[trigger] out@.columns[k]) =~= goal.columns[k] by {
                assert(out@.columns[k].len() == rows);
            }
        }
        Ok(out)
    }
}

} // verus!

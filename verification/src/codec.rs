//! The text form of a table of strings: a header line of keys and one
//! line per row, the fields of a line separated by `;`, an absent cell
//! written as an empty field.

use vstd::prelude::*;
use vstd::string::StringExecFns;
use crate::model::{lemma_first_at, TableModel};
use crate::table::{TableError, TableMap};
use crate::text::{
    chars_of, join, lemma_join_step, lemma_split_len, push_char, split, split_chars, string_of,
};

verus! {

/// A cell of strings as a cell of texts.
pub open spec fn cell_text(cell: Option<String>) -> Option<Seq<char>> {
    match cell {
        Some(v) => Some(v@),
        None => None,
    }
}

/// A table of strings as a table of texts.
pub open spec fn text_of(t: TableModel<String>) -> TableModel<Seq<char>> {
    TableModel {
        keys: t.keys,
        columns: Seq::new(
            t.columns.len(),
            |c: int| Seq::new(t.columns[c].len(), |r: int| cell_text(t.columns[c][r])),
        ),
        rows: t.rows,
    }
}

/// The field that stands for a cell: its text, or nothing.
pub open spec fn field_of(cell: Option<Seq<char>>) -> Seq<char> {
    match cell {
        Some(v) => v,
        None => Seq::empty(),
    }
}

/// The cell that a field stands for: absent where the field is empty.
pub open spec fn cell_of(field: Seq<char>) -> Option<Seq<char>> {
    if field.len() == 0 {
        None
    } else {
        Some(field)
    }
}

/// The fields of row `r`, one per column.
pub open spec fn fields_of(t: TableModel<Seq<char>>, r: int) -> Seq<Seq<char>> {
    Seq::new(t.columns.len(), |c: int| field_of(t.columns[c][r]))
}

/// The line of row `r`, without its line break.
pub open spec fn line_of(t: TableModel<Seq<char>>, r: int) -> Seq<char> {
    join(fields_of(t, r), ';')
}

/// The lines of the first `n` rows, each with its line break.
pub open spec fn body_of(t: TableModel<Seq<char>>, n: nat) -> Seq<char>
    decreases n,
{
    if n == 0 {
        Seq::empty()
    } else {
        body_of(t, (n - 1) as nat) + line_of(t, n - 1).push('\n')
    }
}

/// The text form of a table: nothing for a table without columns, else the
/// header line and the lines of all rows.
pub open spec fn encoded(t: TableModel<Seq<char>>) -> Seq<char> {
    if t.keys.len() == 0 {
        Seq::empty()
    } else {
        join(t.keys, ';').push('\n') + body_of(t, t.rows)
    }
}

/// A line without the carriage return that it may end in.
pub open spec fn strip_cr(line: Seq<char>) -> Seq<char> {
    if line.len() > 0 && line.last() == '\r' {
        line.drop_last()
    } else {
        line
    }
}

/// The lines of a text. A line ends at a line break, which is left out
/// together with a carriage return before it; what follows the last line
/// break is a line too, unless it is empty.
pub open spec fn lines(text: Seq<char>) -> Seq<Seq<char>> {
    let pieces = split(text, '\n');
    let whole = Seq::new((pieces.len() - 1) as nat, |i: int| strip_cr(pieces[i]));
    if pieces.last().len() == 0 {
        whole
    } else {
        whole.push(pieces.last())
    }
}

/// Tells of a line whether it holds anything.
pub open spec fn filled() -> spec_fn(Seq<char>) -> bool {
    |line: Seq<char>| line.len() > 0
}

/// The lines that make the rows of a table: those after the first line
/// that are not empty.
pub open spec fn row_lines(text: Seq<char>) -> Seq<Seq<char>> {
    lines(text).skip(1).filter(filled())
}

/// The cell of column `c` in a row of the fields `fields`: absent where
/// there is no field `c`.
pub open spec fn cell_from(fields: Seq<Seq<char>>, c: int) -> Option<Seq<char>> {
    if c < fields.len() {
        cell_of(fields[c])
    } else {
        None
    }
}

/// The cell of column `c` in a row read from `line`.
pub open spec fn cell_in(line: Seq<char>, c: int) -> Option<Seq<char>> {
    cell_from(split(line, ';'), c)
}

/// The table with one more row, read from the fields `fields`.
pub open spec fn with_fields(t: TableModel<Seq<char>>, fields: Seq<Seq<char>>) -> TableModel<Seq<char>> {
    TableModel {
        keys: t.keys,
        columns: Seq::new(t.columns.len(), |c: int| t.columns[c].push(cell_from(fields, c))),
        rows: t.rows + 1,
    }
}

/// The texts of a vector of character vectors.
pub open spec fn texts(v: Seq<Vec<char>>) -> Seq<Seq<char>> {
    Seq::new(v.len(), |i: int| v[i]@)
}

/// Some line holds more fields than the table has columns.
pub open spec fn overlong(body: Seq<Seq<char>>, width: nat) -> bool {
    exists|r: int| 0 <= r < body.len() && split(#[trigger] body[r], ';').len() > width
}

/// The table that a text stands for. A text without lines stands for the
/// empty table. The fields of the first line are the keys; each later line
/// that is not empty is a row, its fields taken in the order of the keys,
/// an empty or missing field read as an absent cell. A key that occurs
/// twice is refused, and so is a row with more fields than there are keys.
pub open spec fn decoded(text: Seq<char>) -> Result<TableModel<Seq<char>>, TableError> {
    let all = lines(text);
    if all.len() == 0 {
        Ok(TableModel::empty())
    } else {
        let keys = split(all[0], ';');
        let body = row_lines(text);
        if !keys.no_duplicates() {
            Err(TableError::DuplicateKey)
        } else if overlong(body, keys.len()) {
            Err(TableError::IndexOutOfRange)
        } else {
            Ok(
                TableModel {
                    keys,
                    columns: Seq::new(
                        keys.len(),
                        |c: int| Seq::new(body.len(), |r: int| cell_in(body[r], c)),
                    ),
                    rows: body.len(),
                },
            )
        }
    }
}

/// The lines of `text`.
fn lines_of(text: &str) -> (r: Vec<Vec<char>>)
    ensures
        r@.len() == lines(text@).len(),
        forall|i: int| 0 <= i < r@.len() ==> (#[trigger] r@[i])@ == lines(text@)[i],
{
    let chars = chars_of(text);
    let mut pieces = split_chars(&chars, '\n');
    proof {
        lemma_split_len(text@, '\n');
    }
    let ghost all = split(text@, '\n');
    let tail = pieces.pop().unwrap();
    let n = pieces.len();
    let mut i: usize = 0;
    while i < n
        invariant
            i <= n,
            n == pieces@.len(),
            n == all.len() - 1,
            forall|j: int| 0 <= j < i ==> (#[trigger] pieces@[j])@ == strip_cr(all[j]),
            forall|j: int| i <= j < n ==> (#[trigger] pieces@[j])@ == all[j],
        decreases n - i,
    {
        let len = pieces[i].len();
        if len > 0 && pieces[i][len - 1] == '\r' {
            pieces[i].pop();
        }
        i += 1;
    }
    if tail.len() > 0 {
        pieces.push(tail);
    }
    pieces
}

/// A row line with more fields than the table has columns makes the
/// text's row lines overlong.
proof fn lemma_overlong(rest: Seq<Seq<char>>, i: int, width: nat)
    requires
        0 <= i < rest.len(),
        rest[i].len() > 0,
        split(rest[i], ';').len() > width,
    ensures
        overlong(rest.filter(filled()), width),
{
    rest.lemma_filter_contains(filled(), i);
}

/// One more row line that is not overlong leaves the row lines not
/// overlong.
proof fn lemma_not_overlong(body: Seq<Seq<char>>, line: Seq<char>, width: nat)
    requires
        !overlong(body, width),
        split(line, ';').len() <= width,
    ensures
        !overlong(body.push(line), width),
{
    let now = body.push(line);
    if overlong(now, width) {
        let r = choose|r: int| 0 <= r < now.len() && split(#[trigger] now[r], ';').len() > width;
        if r < body.len() {
            assert(body[r] == now[r]);
        }
    }
}

/// Appends a row to `table` and fills it from `fields`, in the order of
/// the columns.
fn push_fields(table: &mut TableMap<String>, fields: &Vec<Vec<char>>)
    requires
        old(table).wf(),
        old(table)@.rows < usize::MAX,
        fields@.len() <= old(table)@.keys.len(),
    ensures
        final(table).wf(),
        text_of(final(table)@) == with_fields(text_of(old(table)@), texts(fields@)),
{
    let ghost start = table@;
    let ghost given = texts(fields@);
    let row = table.len();
    let width = table.width();
    table.new_entry();
    let ghost fresh = table@;
    let count = fields.len();
    let mut f: usize = 0;
    while f < count
        invariant
            f <= count,
            count <= width,
            count == fields@.len(),
            given == texts(fields@),
            start.wf(),
            fresh == start.with_row(),
            width == start.keys.len(),
            row == start.rows,
            table.wf(),
            table@.keys == start.keys,
            table@.rows == row + 1,
            forall|col: int, r: int|
                0 <= col < width && 0 <= r < row ==> (#[trigger] table@.columns[col][r]) == start.columns[col][r],
            forall|col: int|
                0 <= col < f ==> cell_text(#[trigger] table@.columns[col][row as int]) == cell_from(given, col),
            forall|col: int| f <= col < width ==> (#[trigger] table@.columns[col][row as int]) is None,
        decreases count - f,
    {
        if fields[f].len() > 0 {
            let value = string_of(&fields[f]);
            let ghost before = table@;
            table.put_at(row, f, Some(value));
            proof {
                assert forall|col: int, r: int| 0 <= col < width && 0 <= r < row implies (
                #[trigger] table@.columns[col][r]) == start.columns[col][r] by {
                    assert(before.columns[col][r] == start.columns[col][r]);
                }
                assert forall|col: int| 0 <= col < f + 1 implies cell_text(
                    #[trigger] table@.columns[col][row as int],
                ) == cell_from(given, col) by {
                    if col < f {
                        assert(table@.columns[col][row as int] == before.columns[col][row as int]);
                    }
                }
                assert forall|col: int| f + 1 <= col < width implies (
                #[trigger] table@.columns[col][row as int]) is None by {
                    assert(table@.columns[col][row as int] == before.columns[col][row as int]);
                }
            }
        }
        f += 1;
    }
    proof {
        let goal = with_fields(text_of(start), given);
        let got = text_of(table@);
        assert forall|col: int| 0 <= col < width implies (#[trigger] got.columns[col]) =~= goal.columns[col] by {
            assert forall|r: int| 0 <= r < row + 1 implies got.columns[col][r] == goal.columns[col][r] by {
                if r < row {
                    assert(table@.columns[col][r] == start.columns[col][r]);
                } else {
                    if col < f {
                        assert(cell_text(table@.columns[col][row as int]) == cell_from(given, col));
                    } else {
                        assert(table@.columns[col][row as int] is None);
                    }
                }
            }
        }
    }
}

/// A table with the keys `header` as its columns and no rows; refused
/// where a key occurs twice.
fn with_header(header: &Vec<Vec<char>>) -> (r: Option<TableMap<String>>)
    ensures
        r is Some == texts(header@).no_duplicates(),
        r matches Some(t) ==> t.wf() && t@.keys == texts(header@) && t@.rows == 0,
{
    let ghost keys = texts(header@);
    let mut table: TableMap<String> = TableMap::new();
    let width = header.len();
    let mut c: usize = 0;
    while c < width
        invariant
            c <= width,
            width == header@.len(),
            keys == texts(header@),
            table.wf(),
            table@.rows == 0,
            table@.keys == keys.take(c as int),
        decreases width - c,
    {
        let key = string_of(&header[c]);
        proof {
            lemma_first_at(table@.keys, key@);
        }
        if table.find(key.as_str()).is_some() {
            proof {
                let j = choose|j: int| 0 <= j < table@.keys.len() && table@.keys[j] == key@;
                assert(keys[j] == keys[c as int]);
            }
            return None;
        }
        table.ensure_column(key);
        c += 1;
        proof {
            assert(table@.keys =~= keys.take(c as int));
        }
    }
    proof {
        assert(keys.take(width as int) =~= keys);
    }
    Some(table)
}

impl TableMap<String> {
    /// Reads a table from its text form.
    pub fn from_ssv(text: &str) -> (r: Result<Self, TableError>)
        ensures
            r matches Ok(t) ==> t.wf(),
            decoded(text@) == match r {
                Ok(t) => Ok::<TableModel<Seq<char>>, TableError>(text_of(t@)),
                Err(e) => Err(e),
            },
    {
        let all = lines_of(text);
        if all.len() == 0 {
            let table: TableMap<String> = TableMap::new();
            assert(text_of(table@) =~~= TableModel::<Seq<char>>::empty());
            return Ok(table);
        }
        let ghost keys = split(lines(text@)[0], ';');
        let header = split_chars(&all[0], ';');
        proof {
            assert(texts(header@) =~= keys);
        }
        let mut table = match with_header(&header) {
            Some(table) => table,
            None => {
                return Err(TableError::DuplicateKey);
            },
        };
        let width = header.len();
        let ghost rest = lines(text@).skip(1);
        let n = all.len();
        let mut i: usize = 1;
        proof {
            reveal(Seq::filter);
            assert(text_of(table@).columns =~~= Seq::new(
                keys.len(),
                |c: int| Seq::new(0, |r: int| cell_in(rest.take(0).filter(filled())[r], c)),
            ));
        }
        while i < n
            invariant
                1 <= i <= n,
                n == all@.len(),
                n == lines(text@).len(),
                rest == lines(text@).skip(1),
                forall|j: int| 0 <= j < n ==> (#[trigger] all@[j])@ == lines(text@)[j],
                width == keys.len(),
                keys == split(lines(text@)[0], ';'),
                keys.no_duplicates(),
                table.wf(),
                table@.keys == keys,
                table@.rows == rest.take(i - 1).filter(filled()).len(),
                !overlong(rest.take(i - 1).filter(filled()), width as nat),
                text_of(table@).columns == Seq::new(
                    keys.len(),
                    |c: int|
                        Seq::new(
                            rest.take(i - 1).filter(filled()).len(),
                            |r: int| cell_in(rest.take(i - 1).filter(filled())[r], c),
                        ),
                ),
            decreases n - i,
        {
            let ghost seen = rest.take(i - 1);
            let ghost body = seen.filter(filled());
            let ghost line = rest[i - 1];
            proof {
                assert(rest.take(i as int) =~= seen.push(line));
                seen.lemma_filter_push(line, filled());
            }
            if all[i].len() > 0 {
                let fields = split_chars(&all[i], ';');
                proof {
                    assert(texts(fields@) =~= split(line, ';'));
                }
                if fields.len() > width {
                    proof {
                        lemma_overlong(rest, i - 1, width as nat);
                    }
                    return Err(TableError::IndexOutOfRange);
                }
                push_fields(&mut table, &fields);
                proof {
                    lemma_not_overlong(body, line, width as nat);
                    let now = body.push(line);
                    assert(text_of(table@).columns =~~= Seq::new(
                        keys.len(),
                        |c: int| Seq::new(now.len(), |r: int| cell_in(now[r], c)),
                    ));
                }
            }
            i += 1;
        }
        proof {
            assert(rest.take(n - 1) =~= rest);
        }
        Ok(table)
    }

    /// Writes the table in its text form.
    pub fn to_ssv(&self) -> (r: String)
        requires
            self.wf(),
        ensures
            r@ == encoded(text_of(self@)),
    {
        let ghost t = text_of(self@);
        let mut out = String::new();
        let width = self.width();
        if width == 0 {
            return out;
        }
        let mut c: usize = 0;
        while c < width
            invariant
                c <= width,
                width == t.keys.len(),
                self.wf(),
                t == text_of(self@),
                c == 0 ==> out@ == Seq::<char>::empty(),
                c > 0 ==> out@ == join(t.keys.take(c as int), ';'),
            decreases width - c,
        {
            proof {
                lemma_join_step(t.keys, c as int, ';');
            }
            if c > 0 {
                push_char(&mut out, ';');
            }
            out.append(self.key_at(c).as_str());
            proof {
                if c == 0 {
                    assert(out@ =~= t.keys[0]);
                }
            }
            c += 1;
        }
        proof {
            assert(t.keys.take(width as int) =~= t.keys);
        }
        push_char(&mut out, '\n');
        let ghost head = out@;
        let rows = self.len();
        let mut r: usize = 0;
        proof {
            assert(out@ =~= head + body_of(t, 0));
        }
        while r < rows
            invariant
                r <= rows,
                rows == t.rows,
                width == t.keys.len(),
                width > 0,
                self.wf(),
                t == text_of(self@),
                head == join(t.keys, ';').push('\n'),
                out@ == head + body_of(t, r as nat),
            decreases rows - r,
        {
            let ghost start = out@;
            let ghost fields = fields_of(t, r as int);
            let mut c: usize = 0;
            while c < width
                invariant
                    c <= width,
                    r < rows,
                    rows == t.rows,
                    width == t.keys.len(),
                    self.wf(),
                    t == text_of(self@),
                    fields == fields_of(t, r as int),
                    c == 0 ==> out@ == start,
                    c > 0 ==> out@ == start + join(fields.take(c as int), ';'),
                decreases width - c,
            {
                proof {
                    lemma_join_step(fields, c as int, ';');
                }
                if c > 0 {
                    push_char(&mut out, ';');
                }
                match self.cell_at(r, c) {
                    Some(value) => {
                        out.append(value.as_str());
                    },
                    None => {},
                }
                proof {
                    if c == 0 {
                        assert(out@ =~= start + fields[0]);
                    } else {
                        assert(out@ =~= start + (join(fields.take(c as int), ';').push(';') + fields[c as int]));
                    }
                }
                c += 1;
            }
            push_char(&mut out, '\n');
            proof {
                assert(fields.take(width as int) =~= fields);
            }
            r += 1;
        }
        out
    }
}

} // verus!

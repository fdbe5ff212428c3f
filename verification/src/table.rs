//! The table itself: the column store and the operations on whole rows.

use vstd::prelude::*;
use vector_map::VecMap;
use crate::index::{index_clone, index_get, index_inner, index_insert, index_new, keys_of, pairs};
use crate::model::{
    blank, lemma_first_at, lemma_first_at_unique, lemma_upto_filter, lemma_upto_filter_same,
    lemma_upto_filter_step, upto, TableModel,
};

verus! {

/// Why an operation on a table was refused.
#[derive(Clone, Copy, Debug, PartialEq, Eq, Structural)]
pub enum TableError {
    /// A row or column position lies outside the table.
    IndexOutOfRange,
    /// A header names the same column twice.
    DuplicateKey,
}

impl TableError {
    /// What went wrong, in words.
    pub fn message(&self) -> (s: &'static str)
        ensures
            s@ == match self {
                TableError::IndexOutOfRange => "a row or column position lies outside the table"@,
                TableError::DuplicateKey => "a header names the same column twice"@,
            },
    {
        match self {
            TableError::IndexOutOfRange => "a row or column position lies outside the table",
            TableError::DuplicateKey => "a header names the same column twice",
        }
    }
}

/// A table of optional cells, stored column by column under string keys.
pub struct TableMap<V> {
    index: VecMap<String, usize>,
    columns: Vec<Vec<Option<V>>>,
    len: usize,
}

impl<V> View for TableMap<V> {
    type V = TableModel<V>;

    closed spec fn view(&self) -> TableModel<V> {
        TableModel {
            keys: keys_of(pairs(self.index)),
            columns: Seq::new(self.columns@.len(), |c: int| self.columns@[c]@),
            rows: self.len as nat,
        }
    }
}

/// `b` is a copy of `a`: both absent, or both present with `b`'s value a
/// clone of `a`'s.
pub open spec fn cell_cloned<V: Clone>(a: Option<V>, b: Option<V>) -> bool {
    match (a, b) {
        (None, None) => true,
        (Some(x), Some(y)) => cloned(x, y),
        _ => false,
    }
}

/// A copy of `col`, cell by cell.
fn clone_column<V: Clone>(col: &Vec<Option<V>>) -> (r: Vec<Option<V>>)
    ensures
        r@.len() == col@.len(),
        forall|i: int| 0 <= i < col@.len() ==> cell_cloned(col@[i], #[trigger] r@[i]),
{
    let n = col.len();
    let mut r: Vec<Option<V>> = Vec::new();
    let mut i: usize = 0;
    while i < n
        invariant
            i <= n,
            n == col@.len(),
            r@.len() == i,
            forall|j: int| 0 <= j < i ==> cell_cloned(col@[j], #[trigger] r@[j]),
        decreases n - i,
    {
        r.push(col[i].clone());
        i += 1;
    }
    r
}

impl<V: Clone> Clone for TableMap<V> {
    /// A copy of the table: the same keys and rows, each cell a clone.
    fn clone(&self) -> (r: Self)
        ensures
            self.wf() ==> r.wf(),
            r@.keys == self@.keys,
            r@.rows == self@.rows,
            r@.columns.len() == self@.columns.len(),
            forall|c: int|
                0 <= c < self@.columns.len() ==> (#[trigger] r@.columns[c]).len() == self@.columns[c].len(),
            forall|c: int, row: int|
                0 <= c < self@.columns.len() && 0 <= row < self@.columns[c].len() ==> cell_cloned(
                    self@.columns[c][row],
                    #[trigger] r@.columns[c][row],
                ),
    {
        let n = self.columns.len();
        let mut columns: Vec<Vec<Option<V>>> = Vec::new();
        let mut c: usize = 0;
        while c < n
            invariant
                c <= n,
                n == self.columns@.len(),
                columns@.len() == c,
                forall|j: int| 0 <= j < c ==> (#[trigger] columns@[j])@.len() == self.columns@[j]@.len(),
                forall|j: int, row: int|
                    0 <= j < c && 0 <= row < self.columns@[j]@.len() ==> cell_cloned(
                        self.columns@[j]@[row],
                        #[trigger] columns@[j]@[row],
                    ),
            decreases n - c,
        {
            columns.push(clone_column(&self.columns[c]));
            c += 1;
        }
        let r = TableMap { index: index_clone(&self.index), columns, len: self.len };
        proof {
            if self.wf() {
                assert forall|j: int| 0 <= j < r@.columns.len() implies (#[trigger] r@.columns[j]).len()
                    == r@.rows by {
                    assert(self@.columns[j].len() == self@.rows);
                }
            }
        }
        r
    }
}

/// A vector of `n` absent cells.
fn blank_column<V>(n: usize) -> (col: Vec<Option<V>>)
    ensures
        col@ == blank::<V>(n as nat),
{
    let mut col: Vec<Option<V>> = Vec::new();
    let mut i: usize = 0;
    while i < n
        invariant
            i <= n,
            col@ == blank::<V>(i as nat),
        decreases n - i,
    {
        col.push(None);
        i += 1;
    }
    col
}

/// Lengthens `col` to `total` cells with absent cells; a column that is
/// as long or longer stays as it is.
fn pad_to<V>(col: &mut Vec<Option<V>>, total: usize)
    ensures
        final(col)@ == old(col)@ + blank::<V>(if old(col)@.len() <= total {
            (total - old(col)@.len()) as nat
        } else {
            0
        }),
{
    proof {
        assert(col@ =~= old(col)@ + blank::<V>(0));
    }
    while col.len() < total
        invariant
            old(col)@.len() <= col@.len(),
            col@.len() <= total || col@.len() == old(col)@.len(),
            col@ == old(col)@ + blank::<V>((col@.len() - old(col)@.len()) as nat),
        decreases total - col@.len(),
    {
        col.push(None);
        proof {
            assert(col@ =~= old(col)@ + blank::<V>((col@.len() - old(col)@.len()) as nat));
        }
    }
}

/// Whether `col` holds no value.
fn all_absent<V>(col: &Vec<Option<V>>) -> (b: bool)
    ensures
        b == (forall|r: int| 0 <= r < col@.len() ==> (#[trigger] col@[r]) is None),
{
    let n = col.len();
    let mut r: usize = 0;
    while r < n
        invariant
            r <= n,
            n == col@.len(),
            forall|j: int| 0 <= j < r ==> (#[trigger] col@[j]) is None,
        decreases n - r,
    {
        if col[r].is_some() {
            return false;
        }
        r += 1;
    }
    true
}

/// Tells of a position whether the column there holds a value in row
/// `row`.
spec fn held<V>(cols: Seq<Vec<Option<V>>>, row: int) -> spec_fn(int) -> bool {
    |c: int| cols[c]@[row] is Some
}

/// Appends to `out`, for each of the columns `cols` that holds a value in
/// row `row`, the column's key and a reference to the value, in the order
/// of the columns. What is written through a reference becomes the cell's
/// value; every other cell stays as it is.
fn collect_mut<'a, V>(
    cols: &'a mut [Vec<Option<V>>],
    keys: &'a Vec<(String, usize)>,
    row: usize,
    out: &mut Vec<(&'a String, &'a mut V)>,
)
    requires
        old(cols)@.len() <= keys@.len(),
        forall|c: int| 0 <= c < old(cols)@.len() ==> row < (#[trigger] old(cols)@[c])@.len(),
    ensures
        final(cols)@.len() == old(cols)@.len(),
        final(out)@.len() == old(out)@.len() + upto(old(cols)@.len()).filter(held(old(cols)@, row as int)).len(),
        forall|i: int| 0 <= i < old(out)@.len() ==> final(out)@[i] == old(out)@[i],
        forall|k: int|
            old(out)@.len() <= k < final(out)@.len() ==> ({
                let c = upto(old(cols)@.len()).filter(held(old(cols)@, row as int))[k - old(out)@.len()];
                let item = #[trigger] final(out)@[k];
                &&& *item.0 == keys@[c].0
                &&& Some(*item.1) == old(cols)@[c]@[row as int]
                &&& final(cols)@[c]@[row as int] == Some(*final(item.1))
            }),
        forall|c: int| 0 <= c < old(cols)@.len() ==> (#[trigger] final(cols)@[c])@.len() == old(cols)@[c]@.len(),
        forall|c: int, r: int|
            0 <= c < old(cols)@.len() && 0 <= r < old(cols)@[c]@.len() && (r != row || old(cols)@[c]@[r] is None)
                ==> (#[trigger] final(cols)@[c]@[r]) == old(cols)@[c]@[r],
    decreases old(cols)@.len(),
{
    let n = cols.len();
    if n == 0 {
        proof {
            lemma_upto_filter(0, held(old(cols)@, row as int));
        }
        return;
    }
    let (init, last) = cols.split_at_mut(n - 1);
    proof {
        let p = held(old(cols)@, row as int);
        let q = held(init@, row as int);
        assert forall|c: int| 0 <= c < init@.len() implies row < (#[trigger] init@[c])@.len() by {
            assert(init@[c] == old(cols)@[c]);
        }
        assert forall|i: int| 0 <= i < n - 1 implies #[trigger] p(i) == q(i) by {
            assert(init@[i] == old(cols)@[i]);
        }
        lemma_upto_filter_same((n - 1) as nat, p, q);
        lemma_upto_filter_step((n - 1) as nat, p);
        lemma_upto_filter((n - 1) as nat, p);
    }
    collect_mut(init, keys, row, out);
    match last[0][row].as_mut() {
        Some(v) => {
            out.push((&keys[n - 1].0, v));
        },
        None => {},
    }
}

impl<V> TableMap<V> {
    /// The key index gives each key the position of its column.
    pub closed spec fn indexed(&self) -> bool {
        forall|i: int| 0 <= i < pairs(self.index).len() ==> (#[trigger] pairs(self.index)[i]).1 == i
    }

    /// The table is valid: its model is well formed and its key index is
    /// in step with its columns.
    pub open spec fn wf(&self) -> bool {
        self@.wf() && self.indexed()
    }

    /// A table without columns and without rows.
    pub fn new() -> (t: Self)
        ensures
            t.wf(),
            t@ == TableModel::<V>::empty(),
    {
        let t = TableMap { index: index_new(), columns: Vec::new(), len: 0 };
        t
    }

    /// The number of rows.
    pub fn len(&self) -> (n: usize)
        ensures
            n == self@.rows,
    {
        self.len
    }

    /// The number of columns.
    pub(crate) fn width(&self) -> (n: usize)
        requires
            self.wf(),
        ensures
            n == self@.keys.len(),
    {
        self.columns.len()
    }

    /// The position of the column under `key`, if the table has one.
    pub(crate) fn find(&self, key: &str) -> (r: Option<usize>)
        requires
            self.wf(),
        ensures
            r.is_some() == self@.has_key(key@),
            r matches Some(c) ==> c == self@.position(key@) && c < self@.keys.len(),
    {
        proof {
            lemma_first_at(self@.keys, key@);
        }
        index_get(&self.index, key)
    }

    /// The key of column `c`.
    pub(crate) fn key_at(&self, c: usize) -> (k: &String)
        requires
            self.wf(),
            c < self@.keys.len(),
        ensures
            k@ == self@.keys[c as int],
    {
        &index_inner(&self.index)[c].0
    }

    /// Appends a row whose cells are all absent.
    pub fn new_entry(&mut self) -> (r: &mut Self)
        requires
            old(self).wf(),
            old(self)@.rows < usize::MAX,
        ensures
            r.wf(),
            r@ == old(self)@.with_row(),
            *final(self) == *final(r),
    {
        self.len += 1;
        let n = self.columns.len();
        let mut c: usize = 0;
        while c < n
            invariant
                c <= n,
                n == self.columns@.len(),
                n == old(self).columns@.len(),
                self.index == old(self).index,
                self.len == old(self).len + 1,
                forall|j: int| 0 <= j < c ==> (#[trigger] self.columns@[j])@ == old(self).columns@[j]@.push(None),
                forall|j: int| c <= j < n ==> (#[trigger] self.columns@[j])@ == old(self).columns@[j]@,
            decreases n - c,
        {
            self.columns[c].push(None);
            c += 1;
        }
        assert(self@.columns =~= old(self)@.with_row().columns);
        self
    }

    /// The column keys in store order.
    pub fn keys(&self) -> (r: Vec<&String>)
        requires
            self.wf(),
        ensures
            r@.len() == self@.keys.len(),
            forall|c: int| 0 <= c < r@.len() ==> (#[trigger] r@[c])@ == self@.keys[c],
    {
        let held = index_inner(&self.index);
        let n = held.len();
        let mut r: Vec<&String> = Vec::new();
        let mut c: usize = 0;
        while c < n
            invariant
                c <= n,
                n == held@.len(),
                n == self@.keys.len(),
                forall|j: int| 0 <= j < n ==> (#[trigger] held@[j]).0@ == self@.keys[j],
                r@.len() == c,
                forall|j: int| 0 <= j < c ==> (#[trigger] r@[j])@ == self@.keys[j],
            decreases n - c,
        {
            r.push(&held[c].0);
            c += 1;
        }
        r
    }

    /// Removes row `index`; the rows behind it move down by one. Refused
    /// where the table has no such row.
    pub fn remove_entry(&mut self, index: usize) -> (r: Result<(), TableError>)
        requires
            old(self).wf(),
        ensures
            final(self).wf(),
            index < old(self)@.rows ==> r.is_ok() && final(self)@ == old(self)@.without_row(index as int),
            index >= old(self)@.rows ==> r == Err::<(), TableError>(TableError::IndexOutOfRange)
                && final(self)@ == old(self)@,
    {
        if index >= self.len {
            return Err(TableError::IndexOutOfRange);
        }
        let n = self.columns.len();
        let mut c: usize = 0;
        while c < n
            invariant
                c <= n,
                n == self.columns@.len(),
                n == old(self).columns@.len(),
                index < old(self).len,
                self.index == old(self).index,
                self.len == old(self).len,
                old(self).wf(),
                forall|j: int| 0 <= j < c ==> (#[trigger] self.columns@[j])@ == old(self).columns@[j]@.remove(index as int),
                forall|j: int| c <= j < n ==> (#[trigger] self.columns@[j])@ == old(self).columns@[j]@,
            decreases n - c,
        {
            assert(old(self)@.columns[c as int].len() == old(self).len);
            self.columns[c].remove(index);
            c += 1;
        }
        self.len -= 1;
        proof {
            assert forall|j: int| 0 <= j < self@.columns.len() implies (#[trigger] self@.columns[j]).len() == self@.rows by {
                assert(old(self)@.columns[j].len() == old(self).len);
            }
        }
        Ok(())
    }

    /// Removes row `index` by moving the last row into its place. Refused
    /// where the table has no such row.
    pub fn swap_remove_entry(&mut self, index: usize) -> (r: Result<(), TableError>)
        requires
            old(self).wf(),
        ensures
            final(self).wf(),
            index < old(self)@.rows ==> r.is_ok() && final(self)@ == old(self)@.without_row_swapped(index as int),
            index >= old(self)@.rows ==> r == Err::<(), TableError>(TableError::IndexOutOfRange)
                && final(self)@ == old(self)@,
    {
        if index >= self.len {
            return Err(TableError::IndexOutOfRange);
        }
        let n = self.columns.len();
        let mut c: usize = 0;
        while c < n
            invariant
                c <= n,
                n == self.columns@.len(),
                n == old(self).columns@.len(),
                index < old(self).len,
                self.index == old(self).index,
                self.len == old(self).len,
                old(self).wf(),
                forall|j: int| 0 <= j < c ==> (#[trigger] self.columns@[j])@
                    == old(self).columns@[j]@.update(index as int, old(self).columns@[j]@.last()).drop_last(),
                forall|j: int| c <= j < n ==> (#[trigger] self.columns@[j])@ == old(self).columns@[j]@,
            decreases n - c,
        {
            assert(old(self)@.columns[c as int].len() == old(self).len);
            self.columns[c].swap_remove(index);
            c += 1;
        }
        self.len -= 1;
        proof {
            assert forall|j: int| 0 <= j < self@.columns.len() implies (#[trigger] self@.columns[j]).len() == self@.rows by {
                assert(old(self)@.columns[j].len() == old(self).len);
            }
        }
        Ok(())
    }

    /// The position of the column under `key`, which is made, with every
    /// cell absent, where the table had none.
    pub(crate) fn ensure_column(&mut self, key: String) -> (c: usize)
        requires
            old(self).wf(),
        ensures
            final(self).wf(),
            final(self)@ == old(self)@.with_column(key@),
            c == final(self)@.position(key@),
            c < final(self)@.keys.len(),
    {
        proof {
            lemma_first_at(self@.keys, key@);
        }
        match index_get(&self.index, key.as_str()) {
            Some(c) => c,
            None => {
                let c = self.columns.len();
                let col = blank_column(self.len);
                self.columns.push(col);
                let ghost k = key@;
                index_insert(&mut self.index, key, c);
                proof {
                    assert(self@.keys =~= old(self)@.keys.push(k));
                    assert(self@.columns =~= old(self)@.columns.push(blank(old(self)@.rows)));
                    lemma_first_at_unique(self@.keys, c as int);
                }
                c
            },
        }
    }

    /// The cell in row `row` of column `c`.
    pub(crate) fn cell_at(&self, row: usize, c: usize) -> (r: Option<&V>)
        requires
            self.wf(),
            row < self@.rows,
            c < self@.keys.len(),
        ensures
            r == match self@.columns[c as int][row as int] {
                Some(v) => Some(&v),
                None => None,
            },
    {
        self.columns[c][row].as_ref()
    }

    /// Puts `cell` into row `row` of column `c` and hands back what stood
    /// there.
    pub(crate) fn put_at(&mut self, row: usize, c: usize, cell: Option<V>) -> (r: Option<V>)
        requires
            old(self).wf(),
            row < old(self)@.rows,
            c < old(self)@.keys.len(),
        ensures
            final(self).wf(),
            final(self)@ == old(self)@.with_cell_at(row as int, c as int, cell),
            r == old(self)@.columns[c as int][row as int],
    {
        assert(self@.columns[c as int].len() == self@.rows);
        let mut held = cell;
        std::mem::swap(&mut self.columns[c][row], &mut held);
        proof {
            assert(self@.columns =~= old(self)@.with_cell_at(row as int, c as int, cell).columns);
        }
        held
    }

    /// The value in row `row` of column `c`, to be changed in place.
    pub(crate) fn cell_at_mut(&mut self, row: usize, c: usize) -> (r: Option<&mut V>)
        requires
            old(self).wf(),
            row < old(self)@.rows,
            c < old(self)@.keys.len(),
        ensures
            r is Some == old(self)@.columns[c as int][row as int] is Some,
            r matches Some(v) ==> old(self)@.columns[c as int][row as int] == Some(*v),
            r matches Some(v) ==> final(self)@ =~~= old(self)@.with_cell_at(row as int, c as int, Some(*final(v))),
            r is None ==> final(self)@ =~~= old(self)@,
            final(self).wf(),
    {
        proof {
            assert forall|j: int| 0 <= j < self.columns@.len() implies (#[trigger] self.columns@[j])@.len()
                == self.len by {
                assert(self@.columns[j].len() == self@.rows);
            }
        }
        self.columns[c][row].as_mut()
    }

    /// The keys and values of row `row`, absent cells left out, in store
    /// order, each value to be changed in place.
    pub(crate) fn row_items_mut(&mut self, row: usize) -> (r: Vec<(&String, &mut V)>)
        requires
            old(self).wf(),
            row < old(self)@.rows,
        ensures
            r@.len() == old(self)@.row_items(row as int).len(),
            forall|i: int|
                0 <= i < r@.len() ==> (#[trigger] r@[i]).0@ == old(self)@.row_items(row as int)[i].0 && *r@[i].1
                    == old(self)@.row_items(row as int)[i].1,
            final(self).wf(),
            final(self)@.keys == old(self)@.keys,
            final(self)@.rows == old(self)@.rows,
            forall|c: int, k: int|
                0 <= c < old(self)@.columns.len() && 0 <= k < old(self)@.rows && (k != row
                    || old(self)@.columns[c][k] is None) ==> (#[trigger] final(self)@.columns[c][k])
                    == old(self)@.columns[c][k],
            forall|i: int|
                0 <= i < r@.len() ==> final(self)@.columns[old(self)@.present_in_row(row as int)[i]][row as int]
                    == Some(*final((#[trigger] r@[i]).1)),
    {
        let ghost t = self@;
        proof {
            let p = held(self.columns@, row as int);
            let q = t.holds_in_row(row as int);
            assert forall|c: int| 0 <= c < self.columns@.len() implies (#[trigger] self.columns@[c])@.len()
                == self.len by {
                assert(t.columns[c].len() == t.rows);
            }
            assert forall|c: int| 0 <= c < self.columns@.len() implies #[trigger] p(c) == q(c) by {
                assert(t.columns[c] == self.columns@[c]@);
            }
            lemma_upto_filter_same(self.columns@.len(), p, q);
            lemma_upto_filter(self.columns@.len(), q);
        }
        let mut r: Vec<(&String, &mut V)> = Vec::new();
        collect_mut(self.columns.as_mut_slice(), index_inner(&self.index), row, &mut r);
        r
    }

    /// A table with the keys of this one and no rows.
    pub(crate) fn same_keys<W>(&self) -> (out: TableMap<W>)
        requires
            self.wf(),
        ensures
            out.wf(),
            out@.keys == self@.keys,
            out@.rows == 0,
    {
        let mut out: TableMap<W> = TableMap::new();
        let width = self.width();
        let mut c: usize = 0;
        while c < width
            invariant
                c <= width,
                width == self@.keys.len(),
                self.wf(),
                out.wf(),
                out@.rows == 0,
                out@.keys == self@.keys.take(c as int),
            decreases width - c,
        {
            let key = self.key_at(c).clone();
            proof {
                lemma_first_at(out@.keys, key@);
            }
            out.ensure_column(key);
            c += 1;
            proof {
                assert(out@.keys =~= self@.keys.take(c as int));
            }
        }
        proof {
            assert(self@.keys.take(width as int) =~= self@.keys);
        }
        out
    }

    /// The table of the same keys and rows in which each value is what `f`
    /// makes of the value here; absent cells stay absent.
    pub fn map<W, F: Fn(&V) -> W>(&self, f: F) -> (out: TableMap<W>)
        requires
            self.wf(),
            forall|v: &V| #[trigger] f.requires((v,)),
        ensures
            out.wf(),
            out@.keys == self@.keys,
            out@.rows == self@.rows,
            forall|c: int, r: int|
                0 <= c < self@.columns.len() && 0 <= r < self@.rows ==> match self@.columns[c][r] {
                    Some(v) => (#[trigger] out@.columns[c][r]) matches Some(w) && f.ensures((&v,), w),
                    None => out@.columns[c][r] is None,
                },
    {
        let ghost t = self@;
        let mut out: TableMap<W> = self.same_keys();
        let width = self.width();
        let rows = self.len();
        let mut row: usize = 0;
        while row < rows
            invariant
                row <= rows,
                rows == t.rows,
                width == t.keys.len(),
                t == self@,
                self.wf(),
                out.wf(),
                out@.keys == t.keys,
                out@.rows == row,
                forall|v: &V| #[trigger] f.requires((v,)),
                forall|c: int, r: int|
                    0 <= c < width && 0 <= r < row ==> match t.columns[c][r] {
                        Some(v) => (#[trigger] out@.columns[c][r]) matches Some(w) && f.ensures((&v,), w),
                        None => out@.columns[c][r] is None,
                    },
            decreases rows - row,
        {
            out.new_entry();
            let mut c: usize = 0;
            while c < width
                invariant
                    c <= width,
                    row < rows,
                    rows == t.rows,
                    width == t.keys.len(),
                    t == self@,
                    self.wf(),
                    out.wf(),
                    out@.keys == t.keys,
                    out@.rows == row + 1,
                    forall|v: &V| #[trigger] f.requires((v,)),
                    forall|k: int, r: int|
                        0 <= k < width && 0 <= r < row ==> match t.columns[k][r] {
                            Some(v) => (#[trigger] out@.columns[k][r]) matches Some(w) && f.ensures((&v,), w),
                            None => out@.columns[k][r] is None,
                        },
                    forall|k: int|
                        0 <= k < c ==> match t.columns[k][row as int] {
                            Some(v) => (#[trigger] out@.columns[k][row as int]) matches Some(w) && f.ensures(
                                (&v,),
                                w,
                            ),
                            None => out@.columns[k][row as int] is None,
                        },
                    forall|k: int| c <= k < width ==> (#[trigger] out@.columns[k][row as int]) is None,
                decreases width - c,
            {
                let ghost before = out@;
                match self.cell_at(row, c) {
                    Some(v) => {
                        let w = f(v);
                        out.put_at(row, c, Some(w));
                    },
                    None => {},
                }
                proof {
                    assert forall|k: int, r: int| 0 <= k < width && 0 <= r < row implies match t.columns[k][r] {
                        Some(v) => (#[trigger] out@.columns[k][r]) matches Some(w) && f.ensures((&v,), w),
                        None => out@.columns[k][r] is None,
                    } by {
                        assert(out@.columns[k][r] == before.columns[k][r]);
                    }
                    assert forall|k: int| 0 <= k < c + 1 implies match t.columns[k][row as int] {
                        Some(v) => (#[trigger] out@.columns[k][row as int]) matches Some(w) && f.ensures((&v,), w),
                        None => out@.columns[k][row as int] is None,
                    } by {
                        if k < c {
                            assert(out@.columns[k][row as int] == before.columns[k][row as int]);
                        }
                    }
                    assert forall|k: int| c + 1 <= k < width implies (#[trigger] out@.columns[k][row as int]) is None by {
                        assert(out@.columns[k][row as int] == before.columns[k][row as int]);
                    }
                }
                c += 1;
            }
            row += 1;
        }
        out
    }

    /// Whether row `row` holds no value.
    fn row_blank(&self, row: usize) -> (b: bool)
        requires
            self.wf(),
            row < self@.rows,
        ensures
            b == self@.row_is_blank(row as int),
    {
        let n = self.columns.len();
        let mut c: usize = 0;
        while c < n
            invariant
                c <= n,
                n == self.columns@.len(),
                self.wf(),
                row < self@.rows,
                forall|j: int| 0 <= j < c ==> (#[trigger] self@.columns[j])[row as int] is None,
            decreases n - c,
        {
            assert(self@.columns[c as int].len() == self@.rows);
            if self.columns[c][row].is_some() {
                return false;
            }
            c += 1;
        }
        true
    }

    /// Drops the columns that hold no value; the others keep their order.
    fn prune_columns(&mut self)
        requires
            old(self).wf(),
        ensures
            final(self).wf(),
            final(self)@ == old(self)@.pruned(),
    {
        let ghost t0 = self@;
        let ghost pred = t0.column_is_live();
        let mut cols: Vec<Vec<Option<V>>> = Vec::new();
        std::mem::swap(&mut self.columns, &mut cols);
        let mut kept_index = index_new();
        let mut kept: Vec<Vec<Option<V>>> = Vec::new();
        let n = cols.len();
        let mut c: usize = 0;
        proof {
            lemma_upto_filter(0, pred);
        }
        while c < n
            invariant
                c <= n,
                n == cols@.len(),
                n == t0.columns.len(),
                t0.wf(),
                pred == t0.column_is_live(),
                self.index == old(self).index,
                self.len == old(self).len,
                t0.keys == keys_of(pairs(self.index)),
                forall|j: int| c <= j < n ==> (#[trigger] cols@[j])@ == t0.columns[j],
                pairs(kept_index).len() == upto(c as nat).filter(pred).len(),
                kept@.len() == upto(c as nat).filter(pred).len(),
                forall|i: int| 0 <= i < kept@.len() ==> (#[trigger] pairs(kept_index)[i]) == (
                    t0.keys[upto(c as nat).filter(pred)[i]],
                    i as usize,
                ),
                forall|i: int| 0 <= i < kept@.len() ==> (#[trigger] kept@[i])@ == t0.columns[upto(
                    c as nat,
                ).filter(pred)[i]],
            decreases n - c,
        {
            let ghost live = upto(c as nat).filter(pred);
            proof {
                lemma_upto_filter(c as nat, pred);
                lemma_upto_filter_step(c as nat, pred);
            }
            if !all_absent(&cols[c]) {
                let mut col: Vec<Option<V>> = Vec::new();
                std::mem::swap(&mut cols[c], &mut col);
                let key = index_inner(&self.index)[c].0.clone();
                let at = kept.len();
                proof {
                    let have = keys_of(pairs(kept_index));
                    lemma_first_at(have, key@);
                    if have.contains(key@) {
                        let i = choose|i: int| 0 <= i < have.len() && have[i] == key@;
                        assert(t0.keys[c as int] == key@);
                    }
                }
                index_insert(&mut kept_index, key, at);
                kept.push(col);
            }
            c += 1;
        }
        self.columns = kept;
        self.index = kept_index;
        proof {
            let live = t0.live_columns();
            lemma_upto_filter(n as nat, pred);
            assert forall|i: int, j: int| 0 <= i < j < self@.keys.len() implies self@.keys[i] != self@.keys[j] by {
                assert(live[i] < live[j]);
            }
        }
    }

    /// Drops the rows that hold no value; the others keep their order.
    fn squeeze_rows(&mut self)
        requires
            old(self).wf(),
        ensures
            final(self).wf(),
            final(self)@ == old(self)@.squeezed(),
    {
        let ghost t0 = self@;
        let ghost pred = t0.row_is_live();
        let ghost mut k: nat = 0;
        let mut line: usize = 0;
        proof {
            lemma_upto_filter(0, pred);
            assert forall|c: int| 0 <= c < t0.columns.len() implies (#[trigger] self@.columns[c])
                == upto(0).filter(pred).map_values(|r: int| t0.columns[c][r]) + t0.columns[c].subrange(
                0,
                t0.rows as int,
            ) by {
                assert(self@.columns[c] =~= upto(0).filter(pred).map_values(|r: int| t0.columns[c][r])
                    + t0.columns[c].subrange(0, t0.rows as int));
            }
        }
        while line < self.len()
            invariant
                self.wf(),
                t0.wf(),
                pred == t0.row_is_live(),
                k <= t0.rows,
                line == upto(k).filter(pred).len(),
                self@.keys == t0.keys,
                self@.columns.len() == t0.columns.len(),
                self@.rows == line + (t0.rows - k),
                forall|c: int| 0 <= c < t0.columns.len() ==> (#[trigger] self@.columns[c]) == upto(
                    k,
                ).filter(pred).map_values(|r: int| t0.columns[c][r]) + t0.columns[c].subrange(
                    k as int,
                    t0.rows as int,
                ),
            decreases t0.rows - k,
        {
            let ghost before = self@;
            let ghost live = upto(k).filter(pred);
            proof {
                lemma_upto_filter_step(k, pred);
                assert forall|c: int| 0 <= c < t0.columns.len() implies (#[trigger] before.columns[c])[line as int]
                    == t0.columns[c][k as int] by {}
                assert(before.row_is_blank(line as int) == t0.row_is_blank(k as int)) by {
                    if t0.row_is_blank(k as int) {
                        assert forall|c: int| 0 <= c < before.columns.len() implies (#[trigger] before.columns[c])[line as int] is None by {
                            assert(t0.columns[c][k as int] is None);
                        }
                    }
                    if before.row_is_blank(line as int) {
                        assert forall|c: int| 0 <= c < t0.columns.len() implies (#[trigger] t0.columns[c])[k as int] is None by {
                            assert(before.columns[c][line as int] is None);
                        }
                    }
                }
            }
            if self.row_blank(line) {
                let _ = self.remove_entry(line);
                proof {
                    assert forall|c: int| 0 <= c < t0.columns.len() implies (#[trigger] self@.columns[c])
                        == live.map_values(|r: int| t0.columns[c][r]) + t0.columns[c].subrange(
                        k + 1 as int,
                        t0.rows as int,
                    ) by {
                        assert(self@.columns[c] =~= live.map_values(|r: int| t0.columns[c][r])
                            + t0.columns[c].subrange(k + 1 as int, t0.rows as int));
                    }
                }
            } else {
                line += 1;
                proof {
                    assert forall|c: int| 0 <= c < t0.columns.len() implies (#[trigger] self@.columns[c])
                        == live.push(k as int).map_values(|r: int| t0.columns[c][r])
                        + t0.columns[c].subrange(k + 1 as int, t0.rows as int) by {
                        assert(self@.columns[c] =~= live.push(k as int).map_values(
                            |r: int| t0.columns[c][r],
                        ) + t0.columns[c].subrange(k + 1 as int, t0.rows as int));
                    }
                }
            }
            proof {
                k = k + 1;
            }
        }
        proof {
            assert forall|c: int| 0 <= c < t0.columns.len() implies (#[trigger] self@.columns[c])
                == t0.squeezed().columns[c] by {
                assert(self@.columns[c] =~= t0.squeezed().columns[c]);
            }
        }
    }

    /// Compaction: drops the columns without a value, then the rows that
    /// hold no value in the columns that stayed.
    pub fn cleanup(&mut self)
        requires
            old(self).wf(),
        ensures
            final(self).wf(),
            final(self)@ == old(self)@.compacted(),
    {
        self.prune_columns();
        self.squeeze_rows();
    }

    /// Appends the rows of `other`. A column of `other` joins the column of
    /// the same key, or becomes a new last column whose earlier cells are
    /// absent; a column that only `self` has is absent in the new rows.
    pub fn concatenate(&mut self, other: Self) -> (r: &mut Self)
        requires
            old(self).wf(),
            other.wf(),
            old(self)@.rows + other@.rows <= usize::MAX,
        ensures
            r.wf(),
            r@ == old(self)@.joined(other@),
            *final(self) == *final(r),
    {
        let ghost a = self@;
        let ghost b = other@;
        let ghost fresh = a.lacks();
        let sl = self.len;
        let ol = other.len;
        let w = self.columns.len();
        let TableMap { index: other_index, columns: mut other_columns, len: _ } = other;
        let n = other_columns.len();
        let mut c: usize = 0;
        proof {
            reveal(Seq::filter);
        }
        while c < n
            invariant
                c <= n,
                n == other_columns@.len(),
                n == b.keys.len(),
                a.wf(),
                b.wf(),
                fresh == a.lacks(),
                w == a.keys.len(),
                sl == a.rows,
                ol == b.rows,
                self.len == sl,
                b.keys == keys_of(pairs(other_index)),
                forall|j: int| c <= j < n ==> (#[trigger] other_columns@[j])@ == b.columns[j],
                self.indexed(),
                self@.keys == a.keys + b.keys.take(c as int).filter(fresh),
                self@.keys.no_duplicates(),
                self@.columns.len() == self@.keys.len(),
                forall|j: int| 0 <= j < w ==> (#[trigger] self@.columns[j]) == a.columns[j] + (if b.keys.take(
                    c as int,
                ).contains(a.keys[j]) {
                    b.column(a.keys[j])
                } else {
                    Seq::empty()
                }),
                forall|j: int| w <= j < self@.columns.len() ==> (#[trigger] self@.columns[j]) == blank::<V>(
                    sl as nat,
                ) + b.column(self@.keys[j]),
            decreases n - c,
        {
            let ghost before = self@;
            let ghost seen = b.keys.take(c as int);
            let ghost added = seen.filter(fresh);
            let mut col: Vec<Option<V>> = Vec::new();
            std::mem::swap(&mut other_columns[c], &mut col);
            let key = &index_inner(&other_index)[c].0;
            proof {
                assert(b.keys.take(c + 1) =~= seen.push(key@));
                seen.lemma_filter_push(key@, fresh);
                lemma_first_at(before.keys, key@);
                lemma_first_at(a.keys, key@);
                lemma_first_at_unique(b.keys, c as int);
                assert(!added.contains(key@)) by {
                    if added.contains(key@) {
                        seen.lemma_filter_contains_rev(fresh, key@);
                    }
                }
                assert(before.keys.contains(key@) == a.has_key(key@)) by {
                    if before.keys.contains(key@) {
                        let i = choose|i: int| 0 <= i < before.keys.len() && before.keys[i] == key@;
                        if i >= w {
                            assert(added[i - w] == key@);
                        } else {
                            assert(a.keys[i] == key@);
                        }
                    }
                    if a.has_key(key@) {
                        let i = choose|i: int| 0 <= i < a.keys.len() && a.keys[i] == key@;
                        assert(before.keys[i] == key@);
                    }
                }
                assert forall|j: int| 0 <= j < w implies seen.push(key@).contains(#[trigger] a.keys[j]) == (
                    seen.contains(a.keys[j]) || a.keys[j] == key@) by {
                    let k = a.keys[j];
                    if seen.push(key@).contains(k) {
                        let i = choose|i: int| 0 <= i < seen.push(key@).len() && seen.push(key@)[i] == k;
                        if i < seen.len() {
                            assert(seen[i] == k);
                        }
                    }
                    if k == key@ {
                        assert(seen.push(key@)[seen.len() as int] == k);
                    }
                }
            }
            match index_get(&self.index, key.as_str()) {
                Some(i) => {
                    self.columns[i].append(&mut col);
                    proof {
                        assert forall|j: int| 0 <= j < w implies (#[trigger] self@.columns[j]) == a.columns[j] + (
                        if b.keys.take(c + 1).contains(a.keys[j]) {
                            b.column(a.keys[j])
                        } else {
                            Seq::empty()
                        }) by {
                            if j == i {
                                assert(before.columns[j] == a.columns[j] + Seq::<Option<V>>::empty());
                            } else {
                                assert(self@.columns[j] == before.columns[j]);
                            }
                        }
                        assert forall|j: int| w <= j < self@.columns.len() implies (#[trigger] self@.columns[j])
                            == blank::<V>(sl as nat) + b.column(self@.keys[j]) by {
                            assert(self@.columns[j] == before.columns[j]);
                        }
                    }
                },
                None => {
                    let mut values = blank_column(sl);
                    values.append(&mut col);
                    let at = self.columns.len();
                    self.columns.push(values);
                    index_insert(&mut self.index, key.clone(), at);
                    proof {
                        assert(self@.keys =~= before.keys.push(key@));
                        assert forall|j: int| 0 <= j < w implies (#[trigger] self@.columns[j]) == a.columns[j] + (
                        if b.keys.take(c + 1).contains(a.keys[j]) {
                            b.column(a.keys[j])
                        } else {
                            Seq::empty()
                        }) by {
                            assert(self@.columns[j] == before.columns[j]);
                        }
                        assert forall|j: int| w <= j < self@.columns.len() implies (#[trigger] self@.columns[j])
                            == blank::<V>(sl as nat) + b.column(self@.keys[j]) by {
                            if j < at {
                                assert(self@.columns[j] == before.columns[j]);
                            }
                        }
                    }
                },
            }
            c += 1;
        }
        proof {
            assert(b.keys.take(n as int) =~= b.keys);
        }
        let ghost merged = self@;
        let total = sl + ol;
        let m = self.columns.len();
        let mut j: usize = 0;
        while j < m
            invariant
                j <= m,
                m == self.columns@.len(),
                m == merged.columns.len(),
                total == sl + ol,
                a.wf(),
                b.wf(),
                w == a.keys.len(),
                w <= m,
                sl == a.rows,
                ol == b.rows,
                self.len == sl,
                self.indexed(),
                self@.keys == merged.keys,
                merged.keys == a.keys + b.keys.filter(a.lacks()),
                merged.keys.len() == merged.columns.len(),
                merged.keys.no_duplicates(),
                forall|i: int| 0 <= i < w ==> (#[trigger] merged.columns[i]) == a.columns[i] + (if b.keys.contains(
                    a.keys[i],
                ) {
                    b.column(a.keys[i])
                } else {
                    Seq::empty()
                }),
                forall|i: int| w <= i < m ==> (#[trigger] merged.columns[i]) == blank::<V>(sl as nat) + b.column(
                    merged.keys[i],
                ),
                forall|i: int| j <= i < m ==> (#[trigger] self@.columns[i]) == merged.columns[i],
                forall|i: int| 0 <= i < j ==> (#[trigger] self@.columns[i]) == a.column(merged.keys[i]) + b.column(
                    merged.keys[i],
                ),
            decreases m - j,
        {
            let ghost key = merged.keys[j as int];
            proof {
                lemma_first_at(b.keys, key);
                lemma_first_at(a.keys, key);
                if j < w {
                    lemma_first_at_unique(a.keys, j as int);
                    if b.has_key(key) {
                        assert(b.columns[b.position(key)].len() == ol);
                    }
                } else {
                    b.keys.lemma_filter_pred(a.lacks(), j - w);
                    b.keys.lemma_filter_contains_rev(a.lacks(), key);
                }
            }
            let ghost before = self@;
            pad_to(&mut self.columns[j], total);
            proof {
                assert(self.columns@[j as int]@ == before.columns[j as int] + blank::<V>(
                    if before.columns[j as int].len() <= total {
                        (total - before.columns[j as int].len()) as nat
                    } else {
                        0
                    },
                ));
                assert forall|i: int| j < i < m implies (#[trigger] self@.columns[i]) == merged.columns[i] by {
                    assert(self@.columns[i] == before.columns[i]);
                }
                assert forall|i: int| 0 <= i < j implies (#[trigger] self@.columns[i]) == a.column(merged.keys[i])
                    + b.column(merged.keys[i]) by {
                    assert(self@.columns[i] == before.columns[i]);
                }
            }
            j += 1;
        }
        let ghost padded = self@;
        self.len = total;
        proof {
            let goal = a.joined(b);
            assert forall|i: int| 0 <= i < goal.columns.len() implies (#[trigger] self@.columns[i])
                == goal.columns[i] && self@.columns[i].len() == total by {
                let key = goal.keys[i];
                assert(self@.columns[i] == padded.columns[i]);
                lemma_first_at(a.keys, key);
                lemma_first_at(b.keys, key);
                if a.has_key(key) {
                    assert(a.columns[a.position(key)].len() == sl);
                }
                if b.has_key(key) {
                    assert(b.columns[b.position(key)].len() == ol);
                }
            }
        }
        self
    }
}

} // verus!

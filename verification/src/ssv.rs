//! Tables of strings: the table that the text form is read from and
//! written to, and row views that format what they are given.

use vstd::prelude::*;
use crate::codec::{decoded, encoded, text_of};
use crate::entry::{TableEntry, TableEntryMut};
use crate::format::CSVFormatable;
use crate::model::{lemma_first_at, TableModel};
use crate::table::{TableError, TableMap};

verus! {

/// A table whose keys and cells are strings.
pub struct SSVTable {
    pub table: TableMap<String>,
}

/// A read-only view of one row of a table of strings.
pub struct CSVEntry<'l> {
    pub inner: TableEntry<'l, String>,
}

/// A view of one row of a table of strings through which its cells can be
/// set.
pub struct CSVEntryMut<'l> {
    pub inner: TableEntryMut<'l, String>,
}

/// Setting a cell of a table of strings sets, in the table of their texts,
/// the cell to the text of the value.
pub proof fn lemma_text_of_with_cell(t: TableModel<String>, row: int, key: Seq<char>, value: String)
    requires
        t.wf(),
        0 <= row < t.rows,
    ensures
        text_of(t.with_cell(row, key, value)) == text_of(t).with_cell(row, key, value@),
{
    lemma_first_at(t.keys, key);
    let tc = t.with_column(key);
    lemma_first_at(tc.keys, key);
    assert(tc.wf()) by {
        assert forall|c: int| 0 <= c < tc.columns.len() implies (#[trigger] tc.columns[c]).len() == tc.rows by {
            if c < t.columns.len() {
                assert(t.columns[c].len() == t.rows);
            }
        }
        if !t.has_key(key) {
            assert forall|i: int, j: int| 0 <= i < j < tc.keys.len() implies tc.keys[i] != tc.keys[j] by {
                if j < t.keys.len() {
                    assert(t.keys[i] != t.keys[j]);
                } else {
                    assert(t.keys[i] != key);
                }
            }
        }
    }
    let at = tc.position(key);
    assert(tc.keys.contains(key)) by {
        if !t.has_key(key) {
            assert(tc.keys[t.keys.len() as int] == key);
        }
    }
    assert(text_of(t).with_column(key) =~~= text_of(tc)) by {
        assert forall|c: int| 0 <= c < tc.columns.len() implies (#[trigger] text_of(t).with_column(key).columns[c])
            =~= text_of(tc).columns[c] by {
            if c < t.columns.len() {
                assert(t.columns[c].len() == t.rows);
            }
        }
    }
    let a = text_of(tc.with_cell_at(row, at, Some(value)));
    let b = text_of(tc).with_cell_at(row, at, Some(value@));
    assert forall|c: int| 0 <= c < a.columns.len() implies (#[trigger] a.columns[c]) =~= b.columns[c] by {
        assert(tc.columns[c].len() == tc.rows);
    }
}

impl<'l> CSVEntryMut<'l> {
    /// Sets the value of this row under `key` to the text that `value` is
    /// formatted as, making the column first where the table had none.
    pub fn insert<V: CSVFormatable>(&mut self, key: &str, value: V)
        requires
            old(self).inner.wf(),
        ensures
            final(self).inner.index == old(self).inner.index,
            *final(final(self).inner.map) == *final(old(self).inner.map),
            text_of(final(self).inner.map@) == text_of(old(self).inner.map@).with_cell(
                old(self).inner.index as int,
                key@,
                value.formatted(),
            ),
            final(self).inner.wf(),
    {
        let text = value.format();
        proof {
            lemma_text_of_with_cell(self.inner.map@, self.inner.index as int, key@, text);
        }
        self.inner.insert(key.to_owned(), text);
    }
}

impl View for SSVTable {
    type V = TableModel<String>;

    open spec fn view(&self) -> TableModel<String> {
        self.table@
    }
}

impl SSVTable {
    /// The table is valid.
    pub open spec fn wf(&self) -> bool {
        self.table.wf()
    }

    /// A table without columns and without rows.
    pub fn new() -> (t: Self)
        ensures
            t.wf(),
            t@ == TableModel::<String>::empty(),
    {
        SSVTable { table: TableMap::new() }
    }

    /// The column keys in store order.
    pub fn keys(&self) -> (r: Vec<&String>)
        requires
            self.wf(),
        ensures
            r@.len() == self@.keys.len(),
            forall|c: int| 0 <= c < r@.len() ==> (#[trigger] r@[c])@ == self@.keys[c],
    {
        self.table.keys()
    }

    /// A read-only view of row `index`. Refused where the table has no such
    /// row.
    pub fn entry(&self, index: usize) -> (r: Result<CSVEntry<'_>, TableError>)
        requires
            self.wf(),
        ensures
            index < self@.rows ==> (r matches Ok(e) && *e.inner.map == self.table && e.inner.index == index),
            index >= self@.rows ==> (r matches Err(e) && e == TableError::IndexOutOfRange),
    {
        match self.table.entry(index) {
            Ok(inner) => Ok(CSVEntry { inner }),
            Err(e) => Err(e),
        }
    }

    /// A view of row `index` through which its cells can be set. Refused
    /// where the table has no such row.
    pub fn entry_mut(&mut self, index: usize) -> (r: Result<CSVEntryMut<'_>, TableError>)
        requires
            old(self).wf(),
        ensures
            index < old(self)@.rows ==> (r matches Ok(e) && *e.inner.map == old(self).table && e.inner.index
                == index && final(self).table == *final(e.inner.map)),
            index >= old(self)@.rows ==> (r matches Err(e) && e == TableError::IndexOutOfRange
                && *final(self) == *old(self)),
    {
        if index < self.table.len() {
            Ok(CSVEntryMut { inner: TableEntryMut { map: &mut self.table, index } })
        } else {
            Err(TableError::IndexOutOfRange)
        }
    }

    /// Appends a row whose cells are all absent.
    pub fn new_entry(&mut self) -> (r: &mut Self)
        requires
            old(self).wf(),
            old(self)@.rows < usize::MAX,
        ensures
            r.wf(),
            r@ == old(self)@.with_row(),
            *final(self) == *final(r),
    {
        self.table.new_entry();
        self
    }

    /// The number of rows.
    pub fn len(&self) -> (n: usize)
        ensures
            n == self@.rows,
    {
        self.table.len()
    }

    /// Whether the table has no row.
    pub fn is_empty(&self) -> (b: bool)
        ensures
            b == (self@.rows == 0),
    {
        self.len() == 0
    }

    /// A read-only view of the last row, if the table has a row.
    pub fn last(&self) -> (r: Option<CSVEntry<'_>>)
        requires
            self.wf(),
        ensures
            self@.rows == 0 ==> r.is_none(),
            self@.rows > 0 ==> (r matches Some(e) && *e.inner.map == self.table && e.inner.index == self@.rows
                - 1),
    {
        match self.table.last() {
            Some(inner) => Some(CSVEntry { inner }),
            None => None,
        }
    }

    /// A view of the last row through which its cells can be set, if the
    /// table has a row.
    pub fn last_mut(&mut self) -> (r: Option<CSVEntryMut<'_>>)
        requires
            old(self).wf(),
        ensures
            old(self)@.rows == 0 ==> r.is_none() && *final(self) == *old(self),
            old(self)@.rows > 0 ==> (r matches Some(e) && *e.inner.map == old(self).table && e.inner.index
                == old(self)@.rows - 1 && final(self).table == *final(e.inner.map)),
    {
        if self.table.len() > 0 {
            let index = self.table.len() - 1;
            Some(CSVEntryMut { inner: TableEntryMut { map: &mut self.table, index } })
        } else {
            None
        }
    }

    /// Removes row `index`; the rows behind it move down by one. Refused
    /// where the table has no such row.
    pub fn remove_entry(&mut self, index: usize) -> (r: Result<(), TableError>)
        requires
            old(self).wf(),
        ensures
            final(self).wf(),
            index < old(self)@.rows ==> r.is_ok() && final(self)@ == old(self)@.without_row(index as int),
            index >= old(self)@.rows ==> r == Err::<(), TableError>(TableError::IndexOutOfRange)
                && final(self)@ == old(self)@,
    {
        self.table.remove_entry(index)
    }

    /// Removes row `index` by moving the last row into its place. Refused
    /// where the table has no such row.
    pub fn swap_remove_entry(&mut self, index: usize) -> (r: Result<(), TableError>)
        requires
            old(self).wf(),
        ensures
            final(self).wf(),
            index < old(self)@.rows ==> r.is_ok() && final(self)@ == old(self)@.without_row_swapped(index as int),
            index >= old(self)@.rows ==> r == Err::<(), TableError>(TableError::IndexOutOfRange)
                && final(self)@ == old(self)@,
    {
        self.table.swap_remove_entry(index)
    }

    /// Compaction: drops the columns without a value, then the rows that
    /// hold no value in the columns that stayed.
    pub fn cleanup(&mut self)
        requires
            old(self).wf(),
        ensures
            final(self).wf(),
            final(self)@ == old(self)@.compacted(),
    {
        self.table.cleanup()
    }

    /// Appends the rows of `other`, joining columns of the same key.
    pub fn concatenate(&mut self, other: Self) -> (r: &mut Self)
        requires
            old(self).wf(),
            other.wf(),
            old(self)@.rows + other@.rows <= usize::MAX,
        ensures
            r.wf(),
            r@ == old(self)@.joined(other@),
            *final(self) == *final(r),
    {
        self.table.concatenate(other.table);
        self
    }

    /// Writes the table in its text form.
    pub fn to_ssv(&self) -> (r: String)
        requires
            self.wf(),
        ensures
            r@ == encoded(text_of(self@)),
    {
        self.table.to_ssv()
    }

    /// Reads a table from its text form.
    pub fn from_ssv(text: &str) -> (r: Result<Self, TableError>)
        ensures
            r matches Ok(t) ==> t.wf(),
            decoded(text@) == match r {
                Ok(t) => Ok::<TableModel<Seq<char>>, TableError>(text_of(t@)),
                Err(e) => Err(e),
            },
    {
        match TableMap::from_ssv(text) {
            Ok(table) => Ok(SSVTable { table }),
            Err(e) => Err(e),
        }
    }
}

impl Default for SSVTable {
    fn default() -> (t: Self)
        ensures
            t.wf(),
            t@ == TableModel::<String>::empty(),
    {
        SSVTable::new()
    }
}

impl Clone for SSVTable {
    /// A copy of the table, equal to it in keys, rows and cell texts.
    fn clone(&self) -> (r: Self)
        ensures
            self.wf() ==> r.wf() && text_of(r@) == text_of(self@),
    {
        let r = SSVTable { table: self.table.clone() };
        proof {
            if self.wf() {
                assert(text_of(r@) =~~= text_of(self@));
            }
        }
        r
    }
}

} // verus!

//! Row views: a table together with the position of one of its rows,
//! read as a mapping from key to value.

use vstd::prelude::*;
use crate::model::{lemma_first_at, lemma_upto_filter, lemma_upto_filter_step, upto, TableModel};
use crate::table::{TableError, TableMap};

verus! {

/// A read-only view of one row.
pub struct TableEntry<'l, V> {
    /// The table that the view reads.
    pub map: &'l TableMap<V>,
    /// The position of the row.
    pub index: usize,
}

/// A view of one row through which its cells can be set.
pub struct TableEntryMut<'l, V> {
    /// The table that the view reads and changes.
    pub map: &'l mut TableMap<V>,
    /// The position of the row.
    pub index: usize,
}

/// The keys and values of row `row` of `map`, absent cells left out.
fn row_items_of<'a, V>(map: &'a TableMap<V>, row: usize) -> (r: Vec<(&'a String, &'a V)>)
    requires
        map.wf(),
        row < map@.rows,
    ensures
        r@.len() == map@.row_items(row as int).len(),
        forall|i: int| 0 <= i < r@.len() ==> (#[trigger] r@[i]).0@ == map@.row_items(row as int)[i].0
            && *r@[i].1 == map@.row_items(row as int)[i].1,
{
    let ghost t = map@;
    let ghost pred = t.holds_in_row(row as int);
    let n = map.width();
    let mut r: Vec<(&'a String, &'a V)> = Vec::new();
    let mut c: usize = 0;
    proof {
        lemma_upto_filter(0, pred);
    }
    while c < n
        invariant
            c <= n,
            n == t.keys.len(),
            map.wf(),
            t == map@,
            row < t.rows,
            pred == t.holds_in_row(row as int),
            r@.len() == upto(c as nat).filter(pred).len(),
            forall|i: int| 0 <= i < r@.len() ==> (#[trigger] r@[i]).0@ == t.keys[upto(c as nat).filter(pred)[i]]
                && Some(*r@[i].1) == t.columns[upto(c as nat).filter(pred)[i]][row as int],
        decreases n - c,
    {
        proof {
            lemma_upto_filter_step(c as nat, pred);
        }
        match map.cell_at(row, c) {
            Some(v) => {
                r.push((map.key_at(c), v));
            },
            None => {},
        }
        c += 1;
    }
    r
}

/// The value in row `row` of `map` under `key`, if there is one.
fn lookup<'a, V>(map: &'a TableMap<V>, row: usize, key: &str) -> (r: Option<&'a V>)
    requires
        map.wf(),
        row < map@.rows,
    ensures
        r == match map@.cell(row as int, key@) {
            Some(v) => Some(&v),
            None => None,
        },
{
    match map.find(key) {
        Some(c) => map.cell_at(row, c),
        None => None,
    }
}

impl<'l, V> TableEntry<'l, V> {
    /// The view is of a row of a valid table.
    pub open spec fn wf(&self) -> bool {
        self.map.wf() && self.index < self.map@.rows
    }

    /// The keys of all columns of the table, in store order, whether or
    /// not this row holds a value under them.
    pub fn keys(&self) -> (r: Vec<&'l String>)
        requires
            self.map.wf(),
        ensures
            r@.len() == self.map@.keys.len(),
            forall|c: int| 0 <= c < r@.len() ==> (#[trigger] r@[c])@ == self.map@.keys[c],
    {
        self.map.keys()
    }

    /// The keys and values of this row, absent cells left out, in store
    /// order.
    pub fn iter(&self) -> (r: Vec<(&'l String, &'l V)>)
        requires
            self.wf(),
        ensures
            r@.len() == self.map@.row_items(self.index as int).len(),
            forall|i: int| 0 <= i < r@.len() ==> (#[trigger] r@[i]).0@ == self.map@.row_items(self.index as int)[i].0
                && *r@[i].1 == self.map@.row_items(self.index as int)[i].1,
    {
        row_items_of(self.map, self.index)
    }

    /// The value of this row under `key`; `None` where the table has no
    /// such column or the cell is absent.
    pub fn get(&self, key: &str) -> (r: Option<&'l V>)
        requires
            self.wf(),
        ensures
            r == match self.map@.cell(self.index as int, key@) {
                Some(v) => Some(&v),
                None => None,
            },
    {
        lookup(self.map, self.index, key)
    }
}

impl<'l, V> TableEntryMut<'l, V> {
    /// The table that the view reads and changes, as a value.
    pub open spec fn table(&self) -> TableModel<V> {
        self.map@
    }

    /// The view is of a row of a valid table.
    pub open spec fn wf(&self) -> bool {
        self.map.wf() && self.index < self.map@.rows
    }

    /// The keys of all columns of the table, in store order, whether or
    /// not this row holds a value under them.
    pub fn keys(&self) -> (r: Vec<&String>)
        requires
            self.map.wf(),
        ensures
            r@.len() == self.table().keys.len(),
            forall|c: int| 0 <= c < r@.len() ==> (#[trigger] r@[c])@ == self.table().keys[c],
    {
        self.map.keys()
    }

    /// The keys and values of this row, absent cells left out, in store
    /// order.
    pub fn iter(&self) -> (r: Vec<(&String, &V)>)
        requires
            self.wf(),
        ensures
            r@.len() == self.table().row_items(self.index as int).len(),
            forall|i: int| 0 <= i < r@.len() ==> (#[trigger] r@[i]).0@ == self.table().row_items(self.index as int)[i].0
                && *r@[i].1 == self.table().row_items(self.index as int)[i].1,
    {
        row_items_of(&*self.map, self.index)
    }

    /// The value of this row under `key`; `None` where the table has no
    /// such column or the cell is absent.
    pub fn get(&self, key: &str) -> (r: Option<&V>)
        requires
            self.wf(),
        ensures
            r == match self.table().cell(self.index as int, key@) {
                Some(v) => Some(&v),
                None => None,
            },
    {
        lookup(&*self.map, self.index, key)
    }

    /// The keys and values of this row, absent cells left out, in store
    /// order, each value to be changed in place. What the caller writes
    /// through a reference becomes the cell's value; every other cell
    /// stays as it is.
    pub fn iter_mut(&mut self) -> (r: Vec<(&String, &mut V)>)
        requires
            old(self).wf(),
        ensures
            final(self).index == old(self).index,
            *final(final(self).map) == *final(old(self).map),
            r@.len() == old(self).map@.row_items(old(self).index as int).len(),
            forall|i: int|
                0 <= i < r@.len() ==> (#[trigger] r@[i]).0@ == old(self).map@.row_items(old(self).index as int)[i].0
                    && *r@[i].1 == old(self).map@.row_items(old(self).index as int)[i].1,
            final(self).wf(),
            final(self).map@.keys == old(self).map@.keys,
            final(self).map@.rows == old(self).map@.rows,
            forall|c: int, k: int|
                0 <= c < old(self).map@.columns.len() && 0 <= k < old(self).map@.rows && (k != old(self).index
                    || old(self).map@.columns[c][k] is None) ==> (#[trigger] final(self).map@.columns[c][k])
                    == old(self).map@.columns[c][k],
            forall|i: int|
                0 <= i < r@.len() ==> final(self).map@.columns[old(self).map@.present_in_row(
                    old(self).index as int,
                )[i]][old(self).index as int] == Some(*final((#[trigger] r@[i]).1)),
    {
        let row = self.index;
        self.map.row_items_mut(row)
    }

    /// The value of this row under `key`, to be changed in place; `None`
    /// where the table has no such column or the cell is absent. What the
    /// caller writes through the reference becomes the cell's value.
    pub fn get_mut(&mut self, key: &str) -> (r: Option<&mut V>)
        requires
            old(self).wf(),
        ensures
            final(self).index == old(self).index,
            *final(final(self).map) == *final(old(self).map),
            r is Some == old(self).map@.cell(old(self).index as int, key@) is Some,
            r matches Some(v) ==> old(self).map@.cell(old(self).index as int, key@) == Some(*v),
            r matches Some(v) ==> final(self).map@ =~~= old(self).map@.with_cell_at(
                old(self).index as int,
                old(self).map@.position(key@),
                Some(*final(v)),
            ),
            r is None ==> final(self).map@ =~~= old(self).map@,
            final(self).wf(),
    {
        let row = self.index;
        proof {
            lemma_first_at(self.map@.keys, key@);
        }
        match self.map.find(key) {
            Some(c) => self.map.cell_at_mut(row, c),
            None => None,
        }
    }

    /// Sets the value of this row under `key`, making the column first
    /// where the table had none, and hands back the value that stood there.
    pub fn insert(&mut self, key: String, value: V) -> (r: Option<V>)
        requires
            old(self).wf(),
        ensures
            final(self).index == old(self).index,
            *final(final(self).map) == *final(old(self).map),
            final(self).map@ == old(self).map@.with_cell(old(self).index as int, key@, value),
            r == old(self).map@.cell(old(self).index as int, key@),
            final(self).wf(),
    {
        let row = self.index;
        proof {
            lemma_first_at(self.map@.keys, key@);
        }
        let ghost before = self.map@;
        let ghost k = key@;
        let c = self.map.ensure_column(key);
        proof {
            lemma_first_at(self.map@.keys, k);
            if !before.has_key(k) {
                if c < before.keys.len() {
                    assert(before.keys[c as int] == k);
                }
            }
        }
        self.map.put_at(row, c, Some(value))
    }
}

impl<V> TableMap<V> {
    /// A read-only view of row `index`. Refused where the table has no such
    /// row.
    pub fn entry(&self, index: usize) -> (r: Result<TableEntry<'_, V>, TableError>)
        requires
            self.wf(),
        ensures
            index < self@.rows ==> (r matches Ok(e) && e.map == self && e.index == index),
            index >= self@.rows ==> (r matches Err(e) && e == TableError::IndexOutOfRange),
    {
        if index < self.len() {
            Ok(TableEntry { map: self, index })
        } else {
            Err(TableError::IndexOutOfRange)
        }
    }

    /// A read-only view of the last row, if the table has a row.
    pub fn last(&self) -> (r: Option<TableEntry<'_, V>>)
        requires
            self.wf(),
        ensures
            self@.rows == 0 ==> r.is_none(),
            self@.rows > 0 ==> (r matches Some(e) && e.map == self && e.index == self@.rows - 1),
    {
        if self.len() > 0 {
            Some(TableEntry { map: self, index: self.len() - 1 })
        } else {
            None
        }
    }

    /// Read-only views of all rows, from the first to the last.
    pub fn entries(&self) -> (r: Vec<TableEntry<'_, V>>)
        requires
            self.wf(),
        ensures
            r@.len() == self@.rows,
            forall|i: int| 0 <= i < r@.len() ==> (#[trigger] r@[i]).map == self && r@[i].index == i,
    {
        let n = self.len();
        let mut r: Vec<TableEntry<'_, V>> = Vec::new();
        let mut i: usize = 0;
        while i < n
            invariant
                i <= n,
                n == self@.rows,
                r@.len() == i,
                forall|j: int| 0 <= j < i ==> (#[trigger] r@[j]).map == self && r@[j].index == j,
            decreases n - i,
        {
            r.push(TableEntry { map: self, index: i });
            i += 1;
        }
        r
    }

    /// A view of row `index` through which its cells can be set. Refused
    /// where the table has no such row. What is done through the view is
    /// done to this table.
    pub fn entry_mut(&mut self, index: usize) -> (r: Result<TableEntryMut<'_, V>, TableError>)
        requires
            old(self).wf(),
        ensures
            index < old(self)@.rows ==> (r matches Ok(e) && *e.map == *old(self) && e.index == index
                && *final(self) == *final(e.map)),
            index >= old(self)@.rows ==> (r matches Err(e) && e == TableError::IndexOutOfRange
                && *final(self) == *old(self)),
    {
        if index < self.len() {
            Ok(TableEntryMut { map: self, index })
        } else {
            Err(TableError::IndexOutOfRange)
        }
    }

    /// A view of the last row through which its cells can be set, if the
    /// table has a row.
    pub fn last_mut(&mut self) -> (r: Option<TableEntryMut<'_, V>>)
        requires
            old(self).wf(),
        ensures
            old(self)@.rows == 0 ==> r.is_none() && *final(self) == *old(self),
            old(self)@.rows > 0 ==> (r matches Some(e) && *e.map == *old(self) && e.index == old(self)@.rows - 1
                && *final(self) == *final(e.map)),
    {
        if self.len() > 0 {
            let index = self.len() - 1;
            Some(TableEntryMut { map: self, index })
        } else {
            None
        }
    }
}

} // verus!

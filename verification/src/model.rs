//! The mathematical model of a table: what every contract of this crate
//! speaks of.

use vstd::prelude::*;

verus! {

/// The first position at which `key` occurs in `keys`, or `keys.len()`
/// where it does not occur.
pub open spec fn first_at(keys: Seq<Seq<char>>, key: Seq<char>) -> int
    decreases keys.len(),
{
    if keys.len() == 0 {
        0
    } else if keys[0] == key {
        0
    } else {
        1 + first_at(keys.drop_first(), key)
    }
}

/// A column of `n` absent cells.
pub open spec fn blank<V>(n: nat) -> Seq<Option<V>> {
    Seq::new(n, |r: int| None)
}

/// The numbers `0, 1, .., n - 1`.
pub open spec fn upto(n: nat) -> Seq<int> {
    Seq::new(n, |i: int| i)
}

/// A table as a value: the column keys in store order, one column of cells
/// per key, and the number of rows.
#[verifier::ext_equal]
pub struct TableModel<V> {
    pub keys: Seq<Seq<char>>,
    pub columns: Seq<Seq<Option<V>>>,
    pub rows: nat,
}

impl<V> TableModel<V> {
    /// One column per key, no key twice, and every column as long as the
    /// table has rows.
    pub open spec fn wf(self) -> bool {
        &&& self.keys.len() == self.columns.len()
        &&& self.keys.no_duplicates()
        &&& forall|c: int| 0 <= c < self.columns.len() ==> (#[trigger] self.columns[c]).len() == self.rows
    }

    /// The table without columns and without rows.
    pub open spec fn empty() -> Self {
        TableModel { keys: Seq::empty(), columns: Seq::empty(), rows: 0 }
    }

    pub open spec fn has_key(self, key: Seq<char>) -> bool {
        self.keys.contains(key)
    }

    /// The position of `key`'s column, or the number of columns where the
    /// table has no such column.
    pub open spec fn position(self, key: Seq<char>) -> int {
        first_at(self.keys, key)
    }

    /// The column stored under `key`; all absent where there is none.
    pub open spec fn column(self, key: Seq<char>) -> Seq<Option<V>> {
        if self.has_key(key) {
            self.columns[self.position(key)]
        } else {
            blank(self.rows)
        }
    }

    /// The cell of row `row` under `key`; absent where the table has no such
    /// column.
    pub open spec fn cell(self, row: int, key: Seq<char>) -> Option<V> {
        self.column(key)[row]
    }

    /// The cells of row `row`, one per column, in store order.
    pub open spec fn row(self, row: int) -> Seq<Option<V>> {
        Seq::new(self.columns.len(), |c: int| self.columns[c][row])
    }

    /// Tells of a column position whether row `row` holds a value there.
    pub open spec fn holds_in_row(self, row: int) -> spec_fn(int) -> bool {
        |c: int| self.columns[c][row] is Some
    }

    /// The positions of the columns in which row `row` holds a value.
    pub open spec fn present_in_row(self, row: int) -> Seq<int> {
        upto(self.columns.len()).filter(self.holds_in_row(row))
    }

    /// The keys and values of row `row`, absent cells left out, in store
    /// order.
    pub open spec fn row_items(self, row: int) -> Seq<(Seq<char>, V)> {
        self.present_in_row(row).map_values(|c: int| (self.keys[c], self.columns[c][row]->0))
    }

    /// The table with one more row, absent in every column.
    pub open spec fn with_row(self) -> Self {
        TableModel {
            keys: self.keys,
            columns: Seq::new(self.columns.len(), |c: int| self.columns[c].push(None)),
            rows: self.rows + 1,
        }
    }

    /// The table without row `i`; the rows behind it move down by one.
    pub open spec fn without_row(self, i: int) -> Self {
        TableModel {
            keys: self.keys,
            columns: Seq::new(self.columns.len(), |c: int| self.columns[c].remove(i)),
            rows: (self.rows - 1) as nat,
        }
    }

    /// The table in which the last row has taken the place of row `i`.
    pub open spec fn without_row_swapped(self, i: int) -> Self {
        TableModel {
            keys: self.keys,
            columns: Seq::new(
                self.columns.len(),
                |c: int| self.columns[c].update(i, self.columns[c].last()).drop_last(),
            ),
            rows: (self.rows - 1) as nat,
        }
    }

    /// The table with a column under `key`: itself where it has one, else
    /// with a new last column of absent cells.
    pub open spec fn with_column(self, key: Seq<char>) -> Self {
        if self.has_key(key) {
            self
        } else {
            TableModel {
                keys: self.keys.push(key),
                columns: self.columns.push(blank(self.rows)),
                rows: self.rows,
            }
        }
    }

    /// The table with `cell` in row `row` of column `c`.
    pub open spec fn with_cell_at(self, row: int, c: int, cell: Option<V>) -> Self {
        TableModel {
            keys: self.keys,
            columns: self.columns.update(c, self.columns[c].update(row, cell)),
            rows: self.rows,
        }
    }

    /// The table with `value` in row `row` under `key`, the column made
    /// first where it was missing.
    pub open spec fn with_cell(self, row: int, key: Seq<char>, value: V) -> Self {
        let t = self.with_column(key);
        t.with_cell_at(row, t.position(key), Some(value))
    }

    /// Column `c` holds no value in any row.
    pub open spec fn column_is_blank(self, c: int) -> bool {
        forall|r: int| 0 <= r < self.columns[c].len() ==> (#[trigger] self.columns[c][r]) is None
    }

    /// Row `r` holds no value in any column.
    pub open spec fn row_is_blank(self, r: int) -> bool {
        forall|c: int| 0 <= c < self.columns.len() ==> (#[trigger] self.columns[c])[r] is None
    }

    /// Tells of a column position whether the column holds a value.
    pub open spec fn column_is_live(self) -> spec_fn(int) -> bool {
        |c: int| !self.column_is_blank(c)
    }

    /// Tells of a row whether it holds a value.
    pub open spec fn row_is_live(self) -> spec_fn(int) -> bool {
        |r: int| !self.row_is_blank(r)
    }

    /// The positions of the columns that hold a value, in order.
    pub open spec fn live_columns(self) -> Seq<int> {
        upto(self.columns.len()).filter(self.column_is_live())
    }

    /// The rows that hold a value, in order.
    pub open spec fn live_rows(self) -> Seq<int> {
        upto(self.rows).filter(self.row_is_live())
    }

    /// The table without the columns that hold no value.
    pub open spec fn pruned(self) -> Self {
        let live = self.live_columns();
        TableModel {
            keys: live.map_values(|c: int| self.keys[c]),
            columns: live.map_values(|c: int| self.columns[c]),
            rows: self.rows,
        }
    }

    /// The table without the rows that hold no value.
    pub open spec fn squeezed(self) -> Self {
        let live = self.live_rows();
        TableModel {
            keys: self.keys,
            columns: Seq::new(
                self.columns.len(),
                |c: int| live.map_values(|r: int| self.columns[c][r]),
            ),
            rows: live.len(),
        }
    }

    /// Compaction: first the columns without a value leave, then the rows
    /// that hold no value in the columns that stayed.
    pub open spec fn compacted(self) -> Self {
        self.pruned().squeezed()
    }

    /// Tells of a key whether the table has no column under it.
    pub open spec fn lacks(self) -> spec_fn(Seq<char>) -> bool {
        |k: Seq<char>| !self.has_key(k)
    }

    /// The rows of `self` followed by the rows of `other`: the keys of
    /// `self`, then those that only `other` has, in `other`'s order; a cell
    /// is absent where its table had no such column.
    pub open spec fn joined(self, other: Self) -> Self {
        let keys = self.keys + other.keys.filter(self.lacks());
        TableModel {
            keys,
            columns: Seq::new(keys.len(), |c: int| self.column(keys[c]) + other.column(keys[c])),
            rows: self.rows + other.rows,
        }
    }
}

/// `first_at` finds `key` exactly where `keys` holds it, and nothing equal
/// to `key` stands before the position it gives.
pub proof fn lemma_first_at(keys: Seq<Seq<char>>, key: Seq<char>)
    ensures
        0 <= first_at(keys, key) <= keys.len(),
        first_at(keys, key) < keys.len() <==> keys.contains(key),
        first_at(keys, key) < keys.len() ==> keys[first_at(keys, key)] == key,
        forall|i: int| 0 <= i < first_at(keys, key) ==> keys[i] != key,
    decreases keys.len(),
{
    if keys.len() > 0 && keys[0] != key {
        let rest = keys.drop_first();
        lemma_first_at(rest, key);
        assert forall|i: int| 0 <= i < first_at(keys, key) implies keys[i] != key by {
            if i > 0 {
                assert(rest[i - 1] == keys[i]);
            }
        }
    }
}

/// Among keys that do not repeat, `first_at` gives each key its own
/// position.
pub proof fn lemma_first_at_unique(keys: Seq<Seq<char>>, i: int)
    requires
        keys.no_duplicates(),
        0 <= i < keys.len(),
    ensures
        first_at(keys, keys[i]) == i,
{
    lemma_first_at(keys, keys[i]);
}

/// Filtering `0 .. n + 1` is filtering `0 .. n` and then deciding on `n`.
pub proof fn lemma_upto_filter_step(n: nat, pred: spec_fn(int) -> bool)
    ensures
        upto(n + 1).filter(pred) == if pred(n as int) {
            upto(n).filter(pred).push(n as int)
        } else {
            upto(n).filter(pred)
        },
{
    assert(upto(n + 1) =~= upto(n).push(n as int));
    upto(n).lemma_filter_push(n as int, pred);
}

/// What `0 .. n` filtered by `pred` holds: numbers below `n` that meet
/// `pred`, in rising order, and each such number.
pub proof fn lemma_upto_filter(n: nat, pred: spec_fn(int) -> bool)
    ensures
        upto(n).filter(pred).len() <= n,
        forall|i: int| 0 <= i < upto(n).filter(pred).len() ==> 0 <= (#[trigger] upto(n).filter(pred)[i]) < n && pred(
            upto(n).filter(pred)[i],
        ),
        forall|i: int, j: int| 0 <= i < j < upto(n).filter(pred).len() ==> upto(n).filter(pred)[i] < upto(n).filter(pred)[j],
        forall|x: int| 0 <= x < n && pred(x) ==> upto(n).filter(pred).contains(x),
    decreases n,
{
    if n == 0 {
        reveal(Seq::filter);
    } else {
        let m = (n - 1) as nat;
        lemma_upto_filter(m, pred);
        lemma_upto_filter_step(m, pred);
        let before = upto(m).filter(pred);
        let now = upto(n).filter(pred);
        assert forall|x: int| 0 <= x < n && pred(x) implies now.contains(x) by {
            if x < m {
                assert(before.contains(x));
                let i = choose|i: int| 0 <= i < before.len() && before[i] == x;
                assert(now[i] == x);
            } else {
                assert(now[now.len() - 1] == x);
            }
        }
    }
}

/// Where every number below `n` meets `pred`, the filter keeps them all.
pub proof fn lemma_upto_filter_all(n: nat, pred: spec_fn(int) -> bool)
    requires
        forall|i: int| 0 <= i < n ==> #[trigger] pred(i),
    ensures
        upto(n).filter(pred) == upto(n),
    decreases n,
{
    if n == 0 {
        reveal(Seq::filter);
    } else {
        let m = (n - 1) as nat;
        lemma_upto_filter_all(m, pred);
        lemma_upto_filter_step(m, pred);
    }
}

/// Two tests that agree below `n` keep the same numbers of `0 .. n`.
pub proof fn lemma_upto_filter_same(n: nat, first: spec_fn(int) -> bool, second: spec_fn(int) -> bool)
    requires
        forall|i: int| 0 <= i < n ==> #[trigger] first(i) == second(i),
    ensures
        upto(n).filter(first) == upto(n).filter(second),
    decreases n,
{
    if n == 0 {
        reveal(Seq::filter);
    } else {
        let m = (n - 1) as nat;
        lemma_upto_filter_same(m, first, second);
        lemma_upto_filter_step(m, first);
        lemma_upto_filter_step(m, second);
    }
}

} // verus!
